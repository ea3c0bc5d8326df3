//! Textures: which have translucent parts, how large they may be, and how they are
//! encoded.

use crate::float::F32;
use crate::mesh;
use crate::texture_laws;
use vstd::prelude::*;

verus! {

/// Pattern of the longest side of a texture, 256.
pub const LONGEST: u32 = 0x4380_0000;

/// A pixel with less than this is translucent.
pub const OPAQUE: u8 = 250;

/// The quality of encoded textures without translucent parts.
pub const QUALITY: u8 = 80;

/// An image of the crate `image`.
#[verifier::external_type_specification]
#[verifier::external_body]
pub struct ExDynamicImage(image::DynamicImage);

/// What an image is: its size, and in `content` all else.
pub struct Picture {
    pub width: u32,
    pub height: u32,
    pub content: Seq<u8>,
}

/// What an image is.
pub uninterp spec fn picture(img: image::DynamicImage) -> Picture;

/// What an optional image is.
pub open spec fn picture_of(img: Option<image::DynamicImage>) -> Option<Picture> {
    match img {
        Some(i) => Some(picture(i)),
        None => None,
    }
}

/// Whether `image` may answer with `p` when it reads an encoded image: with an image, or
/// with none.
pub uninterp spec fn image_gives(encoded: Seq<u8>, p: Option<Picture>) -> bool;

/// The image that `image` makes of another one to fit a size, with its filter
/// `Triangle`.
pub uninterp spec fn image_resized(p: Picture, width: u32, height: u32) -> Picture;

/// The pixels of an image, four bytes each.
pub uninterp spec fn image_rgba(p: Picture) -> Seq<u8>;

/// The PNG file that `image` writes of the pixels of an image, if it can.
pub uninterp spec fn image_png(p: Picture) -> Option<Seq<u8>>;

/// The JPEG file that `image` writes of the colours of an image, if it can.
pub uninterp spec fn image_jpeg(p: Picture, quality: u8) -> Option<Seq<u8>>;

/// Reads an encoded image with `image::load_from_memory_with_format`, in the format that
/// `image::guess_format` tells by the first bytes. Neither asks the process-wide hooks for
/// further formats: the answer is one that the bytes can have. That they have only one is
/// left unsaid. Some formats are unpacked in a way that is chosen by what the processor can
/// do, and the ways differ in the last bits; and some decoders answer an error where memory
/// runs short.
#[verifier::external_body]
fn decode_image(encoded: &[u8]) -> (r: Option<image::DynamicImage>)
    ensures
        image_gives(encoded@, picture_of(r)),
{
    image::load_from_memory_with_format(encoded, image::guess_format(encoded).ok()?).ok()
}

/// The width of an image, by `DynamicImage::width`.
#[verifier::external_body]
fn image_width(img: &image::DynamicImage) -> (r: u32)
    ensures
        r == picture(*img).width,
{
    img.width()
}

/// The height of an image, by `DynamicImage::height`.
#[verifier::external_body]
fn image_height(img: &image::DynamicImage) -> (r: u32)
    ensures
        r == picture(*img).height,
{
    img.height()
}

/// Scales an image with `DynamicImage::resize` and the filter `Triangle`. The result
/// keeps the aspect ratio and fits within the given size.
#[verifier::external_body]
fn resize_image(img: &image::DynamicImage, width: u32, height: u32) -> (r: image::DynamicImage)
    requires
        width > 0,
        height > 0,
    ensures
        picture(r) == image_resized(picture(*img), width, height),
        picture(r).width <= width,
        picture(r).height <= height,
{
    img.resize(width, height, image::imageops::FilterType::Triangle)
}

/// The pixels of an image, by `DynamicImage::to_rgba8`: red, green, blue and alpha.
#[verifier::external_body]
fn rgba_pixels(img: &image::DynamicImage) -> (r: Vec<u8>)
    ensures
        r@ == image_rgba(picture(*img)),
{
    img.to_rgba8().into_raw()
}

/// Encodes an image as PNG, with `DynamicImage::write_to` on what `DynamicImage::to_rgba8`
/// makes of it: the file depends on the image alone. Pixels of four bytes each are written
/// without a copy that could fail for want of memory.
#[verifier::external_body]
fn encode_png(img: &image::DynamicImage) -> (r: Option<Vec<u8>>)
    ensures
        mesh::bytes_view(r) == image_png(picture(*img)),
{
    let mut out = std::io::Cursor::new(Vec::new());
    let pixels = image::DynamicImage::ImageRgba8(img.to_rgba8());
    pixels.write_to(&mut out, image::ImageFormat::Png).ok()?;
    Some(out.into_inner())
}

/// Encodes an image as JPEG, with `JpegEncoder::new_with_quality` and
/// `DynamicImage::write_with_encoder` on what `DynamicImage::to_rgb8` makes of it: the file
/// depends on the image and the quality alone.
#[verifier::external_body]
fn encode_jpeg(img: &image::DynamicImage, quality: u8) -> (r: Option<Vec<u8>>)
    ensures
        mesh::bytes_view(r) == image_jpeg(picture(*img), quality),
{
    let mut out = std::io::Cursor::new(Vec::new());
    let encoder = image::codecs::jpeg::JpegEncoder::new_with_quality(&mut out, quality);
    let colours = image::DynamicImage::ImageRgb8(img.to_rgb8());
    colours.write_with_encoder(encoder).ok()?;
    Some(out.into_inner())
}

/// The longer of two sides.
pub open spec fn longer(w: u32, h: u32) -> u32 {
    if w < h {
        h
    } else {
        w
    }
}

/// A side of length `side`, scaled as the longer one is to 256; at least one.
pub open spec fn scaled_side(side: u32, longest: u32) -> u32 {
    let s = F32 { bits: LONGEST }.over(F32::from_uint(longest as u64));
    let n = F32::from_uint(side as u64).times(s).round_uint();
    if n < 1 {
        1
    } else {
        n
    }
}

/// The size that a texture is to be scaled to; `None` where no side is over 256.
pub open spec fn reduced_size(w: u32, h: u32) -> Option<(u32, u32)> {
    if longer(w, h) > 256 {
        Some((scaled_side(w, longer(w, h)), scaled_side(h, longer(w, h))))
    } else {
        None
    }
}

/// The size that a texture is to be scaled to; `None` where no side is over 256.
pub fn reduce_size(w: u32, h: u32) -> (r: Option<(u32, u32)>)
    ensures
        r == reduced_size(w, h),
        r matches Some(s) ==> s.0 > 0 && s.1 > 0,
{
    let longest: u32 = if w < h {
        h
    } else {
        w
    };
    if longest > 256 {
        let s: F32 = F32 { bits: LONGEST }.over(F32::from_uint(longest as u64));
        let nw: u32 = F32::from_uint(w as u64).times(s).round_uint();
        let nh: u32 = F32::from_uint(h as u64).times(s).round_uint();
        Some(
            (
                if nw < 1 {
                    1
                } else {
                    nw
                },
                if nh < 1 {
                    1
                } else {
                    nh
                },
            ),
        )
    } else {
        None
    }
}

/// Whether one of the pixels is translucent.
pub open spec fn translucent(rgba: Seq<u8>) -> bool {
    exists|i: int| 0 <= i < rgba.len() / 4 && #[trigger] alpha_at(rgba, i) < OPAQUE
}

/// The alpha of pixel `i`.
pub open spec fn alpha_at(rgba: Seq<u8>, i: int) -> u8 {
    rgba[4 * i + 3]
}

/// Whether one of the pixels is translucent.
pub fn has_translucent(rgba: &Vec<u8>) -> (r: bool)
    ensures
        r == translucent(rgba@),
{
    let len: usize = rgba.len();
    let n: usize = len / 4;
    let mut i: usize = 0;
    while i < n
        invariant
            i <= n,
            len == rgba@.len(),
            n == len / 4,
            forall|k: int| 0 <= k < i ==> #[trigger] alpha_at(rgba@, k) >= OPAQUE,
        decreases n - i,
    {
        if rgba[4 * i + 3] < OPAQUE {
            proof {
                assert(alpha_at(rgba@, i as int) < OPAQUE);
            }
            return true;
        }
        i = i + 1;
    }
    false
}

/// An encoded texture.
#[derive(Debug)]
pub struct Encoded {
    pub bytes: Vec<u8>,
    pub mime: String,
    pub has_alpha: bool,
}

/// What an [`Encoded`] texture holds.
#[verifier::ext_equal]
pub struct EncodedView {
    pub bytes: Seq<u8>,
    pub mime: Seq<char>,
    pub has_alpha: bool,
}

impl View for Encoded {
    type V = EncodedView;

    open spec fn view(&self) -> EncodedView {
        EncodedView { bytes: self.bytes@, mime: self.mime@, has_alpha: self.has_alpha }
    }
}

/// An image brought to size.
pub open spec fn reduced(p: Picture) -> Picture {
    match reduced_size(p.width, p.height) {
        Some(s) => image_resized(p, s.0, s.1),
        None => p,
    }
}

/// An image of the right size, encoded: as PNG where it has a translucent pixel,
/// otherwise as JPEG.
pub open spec fn encoded(p: Picture) -> Option<EncodedView> {
    if translucent(image_rgba(p)) {
        match image_png(p) {
            Some(b) => Some(EncodedView { bytes: b, mime: "image/png"@, has_alpha: true }),
            None => None,
        }
    } else {
        match image_jpeg(p, QUALITY) {
            Some(b) => Some(EncodedView { bytes: b, mime: "image/jpeg"@, has_alpha: false }),
            None => None,
        }
    }
}

/// Whether no side of an image is over 256.
pub open spec fn fitted(p: Picture) -> bool {
    p.width <= 256 && p.height <= 256
}

/// What becomes of an image that was read: it is brought to size and encoded.
pub open spec fn made_ready(p: Option<Picture>) -> Option<EncodedView> {
    match p {
        Some(i) => encoded(reduced(i)),
        None => None,
    }
}

/// Whether `e` is what may become of the bytes of a texture: what is made of an answer that
/// they have when they are read. No side of it is over 256.
pub open spec fn processed(raw: Seq<u8>, e: Option<EncodedView>) -> bool {
    exists|p: Option<Picture>|
        #[trigger] image_gives(raw, p) && e == made_ready(p) && (p matches Some(i) ==> fitted(
            reduced(i),
        ))
}

/// What an optional texture holds.
pub open spec fn encoded_view(e: Option<Encoded>) -> Option<EncodedView> {
    match e {
        Some(t) => Some(t@),
        None => None,
    }
}

/// An image brought to size: no side over 256.
pub fn fit_image(img: image::DynamicImage) -> (r: image::DynamicImage)
    ensures
        picture(r) == reduced(picture(img)),
        fitted(picture(r)),
{
    let w: u32 = image_width(&img);
    let h: u32 = image_height(&img);
    match reduce_size(w, h) {
        Some((nw, nh)) => {
            proof {
                texture_laws::law_longest_side(w, h);
            }
            resize_image(&img, nw, nh)
        },
        None => img,
    }
}

/// An image made ready for a tile: no side over 256, and encoded as PNG where a pixel is
/// translucent, otherwise as JPEG. `None` where it cannot be written.
pub fn process_image(img: image::DynamicImage) -> (r: Option<Encoded>)
    ensures
        encoded_view(r) == encoded(reduced(picture(img))),
        fitted(reduced(picture(img))),
{
    let img: image::DynamicImage = fit_image(img);
    if has_translucent(&rgba_pixels(&img)) {
        match encode_png(&img) {
            Some(bytes) => Some(Encoded { bytes, mime: "image/png".to_owned(), has_alpha: true }),
            None => None,
        }
    } else {
        match encode_jpeg(&img, QUALITY) {
            Some(bytes) => Some(Encoded { bytes, mime: "image/jpeg".to_owned(), has_alpha: false }),
            None => None,
        }
    }
}

/// A texture made ready for a tile: what [`process_image`] makes of the image that its bytes
/// give. `None` where they give none, or it cannot be written.
pub fn process_texture(raw: &Vec<u8>) -> (r: Option<Encoded>)
    ensures
        processed(raw@, encoded_view(r)),
{
    match decode_image(raw.as_slice()) {
        Some(img) => process_image(img),
        None => None,
    }
}

/// What is kept of a texture: what it became, or where that is nothing its bytes as they
/// are.
pub open spec fn kept(raw: Seq<u8>, ready: Option<EncodedView>) -> EncodedView {
    match ready {
        Some(e) => e,
        None => EncodedView {
            bytes: raw,
            mime: "application/octet-stream"@,
            has_alpha: false,
        },
    }
}

/// The textures that were made ready, by the paths of their files: many meshes share
/// one texture.
#[derive(Debug)]
pub struct TextureCache {
    keys: Vec<String>,
    entries: Vec<Encoded>,
}

impl TextureCache {
    /// The paths of the textures, in the order in which they came.
    pub closed spec fn paths(self) -> Seq<Seq<char>> {
        Seq::new(self.keys@.len(), |i: int| self.keys@[i]@)
    }

    /// The textures, in the order in which they came.
    pub closed spec fn textures(self) -> Seq<EncodedView> {
        Seq::new(self.entries@.len(), |i: int| self.entries@[i]@)
    }

    /// Whether each path is there once, with a texture.
    pub open spec fn wf(self) -> bool {
        self.paths().len() == self.textures().len() && self.paths().no_duplicates()
    }

    /// The number of the texture of `path`, if it is there.
    pub fn find(&self, path: &str) -> (r: Option<usize>)
        requires
            self.wf(),
        ensures
            r is Some <==> self.paths().contains(path@),
            r matches Some(i) ==> i < self.paths().len() && self.paths()[i as int] == path@,
    {
        let key: String = path.to_owned();
        let mut i: usize = 0;
        while i < self.keys.len()
            invariant
                i <= self.keys@.len(),
                key@ == path@,
                forall|k: int| 0 <= k < i ==> #[trigger] self.paths()[k] != path@,
            decreases self.keys@.len() - i,
        {
            if self.keys[i] == key {
                proof {
                    assert(self.paths()[i as int] == path@);
                }
                return Some(i);
            }
            i = i + 1;
        }
        None
    }

    /// The texture with the number `i`.
    pub fn get(&self, i: usize) -> (r: &Encoded)
        requires
            self.wf(),
            i < self.paths().len(),
        ensures
            r@ == self.textures()[i as int],
    {
        &self.entries[i]
    }

    /// The number of the texture of `path`. Where it is not there, `ready` is added, or
    /// where that is nothing the bytes `raw` as they are.
    pub fn keep(&mut self, path: &str, raw: &Vec<u8>, ready: Option<Encoded>) -> (r: usize)
        requires
            old(self).wf(),
        ensures
            final(self).wf(),
            r < final(self).paths().len(),
            final(self).paths()[r as int] == path@,
            old(self).paths().contains(path@) ==> *final(self) == *old(self),
            !old(self).paths().contains(path@) ==> final(self).paths() == old(self).paths().push(
                path@,
            ) && final(self).textures() == old(self).textures().push(
                kept(raw@, encoded_view(ready)),
            ),
    {
        match self.find(path) {
            Some(i) => i,
            None => {
                let ghost entry_view = kept(raw@, encoded_view(ready));
                let entry: Encoded = match ready {
                    Some(e) => e,
                    None => Encoded {
                        bytes: mesh::copied(raw),
                        mime: "application/octet-stream".to_owned(),
                        has_alpha: false,
                    },
                };
                let ghost paths = self.paths();
                let ghost textures = self.textures();
                let n: usize = self.keys.len();
                self.keys.push(path.to_owned());
                self.entries.push(entry);
                proof {
                    assert(self.paths() =~= paths.push(path@));
                    assert(self.textures() =~= textures.push(entry_view));
                }
                n
            },
        }
    }

    /// The number of the texture of `path`. Where it is not there, it is made ready of
    /// the bytes `raw` and added; where it is, the bytes are not looked at.
    pub fn insert(&mut self, path: &str, raw: &Vec<u8>) -> (r: usize)
        requires
            old(self).wf(),
        ensures
            final(self).wf(),
            r < final(self).paths().len(),
            final(self).paths()[r as int] == path@,
            old(self).paths().contains(path@) ==> *final(self) == *old(self),
            !old(self).paths().contains(path@) ==> final(self).paths() == old(self).paths().push(
                path@,
            ) && exists|e: Option<EncodedView>|
                #[trigger] processed(raw@, e) && final(self).textures()
                    == old(self).textures().push(kept(raw@, e)),
    {
        match self.find(path) {
            Some(i) => i,
            None => {
                let ready: Option<Encoded> = process_texture(raw);
                proof {
                    assert(processed(raw@, encoded_view(ready)));
                }
                self.keep(path, raw, ready)
            },
        }
    }
}

/// A cache without textures.
pub fn texture_cache() -> (r: TextureCache)
    ensures
        r.wf(),
        r.paths() == Seq::<Seq<char>>::empty(),
        r.textures() == Seq::<EncodedView>::empty(),
{
    let r = TextureCache { keys: Vec::new(), entries: Vec::new() };
    proof {
        assert(r.paths() =~= Seq::<Seq<char>>::empty());
        assert(r.textures() =~= Seq::<EncodedView>::empty());
    }
    r
}

/// The bytes that a PNG file begins with.
pub open spec fn png_magic() -> Seq<u8> {
    seq![0x89u8, 0x50, 0x4e, 0x47, 0x0d, 0x0a, 0x1a, 0x0a]
}

/// The number that four bytes from `at` on stand for, the highest first.
pub open spec fn be32(b: Seq<u8>, at: int) -> nat {
    (0x100_0000 * b[at] + 0x1_0000 * b[at + 1] + 0x100 * b[at + 2] + b[at + 3]) as nat
}

/// Whether the chunk at `at` has the given tag.
pub open spec fn tagged(b: Seq<u8>, at: int, t0: u8, t1: u8, t2: u8, t3: u8) -> bool {
    b[at + 4] == t0 && b[at + 5] == t1 && b[at + 6] == t2 && b[at + 7] == t3
}

/// Whether a chunk of transparency comes, from `at` on, before the first chunk of image
/// data.
pub open spec fn finds_transparency(b: Seq<u8>, at: nat) -> bool
    decreases
            (if at <= b.len() {
                b.len() - at
            } else {
                0
            }),
{
    if at + 8 > b.len() {
        false
    } else if tagged(b, at as int, 0x74, 0x52, 0x4e, 0x53) {
        true
    } else if tagged(b, at as int, 0x49, 0x44, 0x41, 0x54) {
        false
    } else {
        finds_transparency(b, at + 12 + be32(b, at as int))
    }
}

/// Whether the first bytes of a file, `head`, are those of a PNG file with
/// translucency; `more` is a longer beginning of the file. The colour type tells it,
/// or for colours from a palette a chunk of transparency.
pub open spec fn has_alpha(head: Seq<u8>, more: Seq<u8>) -> bool {
    head.len() >= 26 && head.take(8) == png_magic() && (head[25] == 4 || head[25] == 6 || (head[25]
        == 3 && finds_transparency(more, 8)))
}

/// Whether a chunk of transparency comes before the first chunk of image data.
fn scan_transparency(b: &Vec<u8>) -> (r: bool)
    ensures
        r == finds_transparency(b@, 8),
{
    let len: usize = b.len();
    let mut i: usize = 8;
    while i <= len && len - i >= 8
        invariant
            len == b@.len(),
            finds_transparency(b@, 8) == finds_transparency(b@, i as nat),
        decreases (if i <= len {
            len - i
        } else {
            0
        }),
    {
        if b[i + 4] == 0x74 && b[i + 5] == 0x52 && b[i + 6] == 0x4e && b[i + 7] == 0x53 {
            return true;
        }
        if b[i + 4] == 0x49 && b[i + 5] == 0x44 && b[i + 6] == 0x41 && b[i + 7] == 0x54 {
            return false;
        }
        let n: u64 = 0x100_0000 * b[i] as u64 + 0x1_0000 * b[i + 1] as u64 + 0x100 * b[i
            + 2] as u64 + b[i + 3] as u64;
        if ((len - i) as u64) < 12 + n {
            proof {
                assert(!finds_transparency(b@, (i + 12 + n) as nat));
            }
            return false;
        }
        i = i + 12 + n as usize;
    }
    false
}

/// Whether the first bytes of a file are those of a PNG file with translucency. `head` is
/// the beginning of the file, and `more` the file up to its first image data, or beyond.
pub fn texture_file_has_alpha(head: &Vec<u8>, more: &Vec<u8>) -> (r: bool)
    ensures
        r == has_alpha(head@, more@),
{
    if head.len() < 26 {
        return false;
    }
    let magic: bool = head[0] == 0x89 && head[1] == 0x50 && head[2] == 0x4e && head[3] == 0x47
        && head[4] == 0x0d && head[5] == 0x0a && head[6] == 0x1a && head[7] == 0x0a;
    proof {
        if magic {
            assert(head@.take(8) =~= png_magic());
        } else {
            let m = png_magic();
            assert(head@.take(8)[0] == head@[0] && head@.take(8)[1] == head@[1]
                && head@.take(8)[2] == head@[2] && head@.take(8)[3] == head@[3]
                && head@.take(8)[4] == head@[4] && head@.take(8)[5] == head@[5]
                && head@.take(8)[6] == head@[6] && head@.take(8)[7] == head@[7]);
            assert(head@.take(8) != m);
        }
    }
    if !magic {
        return false;
    }
    let kind: u8 = head[25];
    if kind == 4 || kind == 6 {
        true
    } else if kind == 3 {
        scan_transparency(more)
    } else {
        false
    }
}

/// The letters of a text in lower case, as the standard library has them.
pub uninterp spec fn lowercase(s: Seq<char>) -> Seq<char>;

/// A text in lower case, by the standard library's `str::to_lowercase`, which depends
/// on the text alone.
#[verifier::external_body]
fn to_lowercase(s: &str) -> (r: String)
    ensures
        r@ == lowercase(s@),
{
    s.to_lowercase()
}

/// How many directories are searched for a texture, with those in them: that of the scene
/// and the one above it.
pub const SEARCHED: usize = 2;

/// What a directory has.
#[derive(Debug)]
pub struct DirEntry {
    pub is_dir: bool,
    /// What stands behind the last dot of its name.
    pub extension: Option<String>,
}

/// A directory that is searched for a texture.
#[derive(Clone, Copy, Debug, PartialEq, Eq, Structural)]
pub enum SearchPlace {
    /// One of the given directories.
    Given(usize),
    /// The entry with the given number of one of them.
    Within(usize, usize),
}

/// Whether an entry is a directory in which the media of a scene are kept.
pub open spec fn keeps_media(e: DirEntry) -> bool {
    e.is_dir && (e.extension matches Some(x) && lowercase(x@) == "fbm"@)
}

/// Those of the first `n` entries of directory `d` in which media are kept.
pub open spec fn media_within(entries: Seq<DirEntry>, d: usize, n: nat) -> Seq<SearchPlace>
    decreases n,
{
    if n == 0 {
        Seq::empty()
    } else if keeps_media(entries[n - 1]) {
        media_within(entries, d, (n - 1) as nat).push(SearchPlace::Within(d, (n - 1) as usize))
    } else {
        media_within(entries, d, (n - 1) as nat)
    }
}

/// The directories with media in the first `n` directories.
pub open spec fn all_media(dirs: Seq<Vec<DirEntry>>, n: nat) -> Seq<SearchPlace>
    decreases n,
{
    if n == 0 {
        Seq::empty()
    } else {
        all_media(dirs, (n - 1) as nat) + media_within(
            dirs[n - 1]@,
            (n - 1) as usize,
            dirs[n - 1]@.len(),
        )
    }
}

/// The number of directories that are searched, of `n`.
pub open spec fn searched(n: nat) -> nat {
    if n < SEARCHED {
        n
    } else {
        SEARCHED as nat
    }
}

/// The directories that are searched for a texture, in order: the given ones, then those
/// with media in them.
pub open spec fn places(dirs: Seq<Vec<DirEntry>>) -> Seq<SearchPlace> {
    Seq::new(searched(dirs.len()), |i: int| SearchPlace::Given(i as usize)) + all_media(
        dirs,
        searched(dirs.len()),
    )
}

/// Whether an entry is a directory in which the media of a scene are kept.
fn is_media(e: &DirEntry) -> (r: bool)
    ensures
        r == keeps_media(*e),
{
    if !e.is_dir {
        return false;
    }
    match &e.extension {
        Some(x) => to_lowercase(x.as_str()) == "fbm".to_owned(),
        None => false,
    }
}

/// The directories that are searched for a texture, in order: `dirs` are the entries of
/// the scene's directory and of those above it, from the nearest on.
pub fn search_order(dirs: &Vec<Vec<DirEntry>>) -> (r: Vec<SearchPlace>)
    ensures
        r@ == places(dirs@),
{
    let n: usize = if dirs.len() < SEARCHED {
        dirs.len()
    } else {
        SEARCHED
    };
    let ghost given = Seq::new(n as nat, |i: int| SearchPlace::Given(i as usize));
    let mut out: Vec<SearchPlace> = Vec::new();
    let mut i: usize = 0;
    while i < n
        invariant
            i <= n,
            out@ == Seq::new(i as nat, |k: int| SearchPlace::Given(k as usize)),
        decreases n - i,
    {
        out.push(SearchPlace::Given(i));
        i = i + 1;
        proof {
            assert(out@ =~= Seq::new(i as nat, |k: int| SearchPlace::Given(k as usize)));
        }
    }
    let mut d: usize = 0;
    proof {
        assert(out@ =~= given + all_media(dirs@, 0));
    }
    while d < n
        invariant
            d <= n,
            n <= dirs@.len(),
            out@ == given + all_media(dirs@, d as nat),
        decreases n - d,
    {
        let entries: &Vec<DirEntry> = &dirs[d];
        let ghost start = out@;
        let mut e: usize = 0;
        proof {
            assert(out@ =~= start + media_within(entries@, d, 0));
        }
        while e < entries.len()
            invariant
                e <= entries@.len(),
                out@ == start + media_within(entries@, d, e as nat),
            decreases entries@.len() - e,
        {
            let ghost before = media_within(entries@, d, e as nat);
            if is_media(&entries[e]) {
                out.push(SearchPlace::Within(d, e));
                proof {
                    assert(out@ =~= start + before.push(SearchPlace::Within(d, e)));
                }
            }
            e = e + 1;
        }
        d = d + 1;
        proof {
            assert(out@ =~= given + all_media(dirs@, d as nat));
        }
    }
    out
}

/// A directory in which a texture is looked for.
#[derive(Debug)]
pub struct Listing {
    /// Whether it has a file of the texture's very name.
    pub exact: bool,
    /// The names of its files.
    pub names: Vec<String>,
}

/// Where a texture was found.
#[derive(Clone, Copy, Debug, PartialEq, Eq, Structural)]
pub enum Found {
    /// In a directory under its very name.
    Exact(usize),
    /// In a directory as the entry with the given number.
    Entry(usize, usize),
}

/// Whether entry `k` of a directory has the name `base`, but for upper and lower case.
pub open spec fn matches_name(l: Listing, base: Seq<char>, k: int) -> bool {
    lowercase(l.names@[k]@) == lowercase(base)
}

/// Whether none of the first `n` entries has the name `base`.
pub open spec fn none_match(l: Listing, base: Seq<char>, n: int) -> bool {
    forall|k: int| 0 <= k < n ==> !#[trigger] matches_name(l, base, k)
}

/// Whether a directory does not have the texture.
pub open spec fn lacks(l: Listing, base: Seq<char>) -> bool {
    !l.exact && none_match(l, base, l.names@.len() as int)
}

/// Whether `f` is the first place where the texture `base` is: in the first directory
/// that has it, under its very name if it is there, otherwise as the first entry whose
/// name differs in case alone.
pub open spec fn is_first(listings: Seq<Listing>, base: Seq<char>, f: Found) -> bool {
    match f {
        Found::Exact(d) => d < listings.len() && listings[d as int].exact && forall|k: int|
            0 <= k < d ==> lacks(#[trigger] listings[k], base),
        Found::Entry(d, e) => d < listings.len() && !listings[d as int].exact && e
            < listings[d as int].names@.len() && matches_name(listings[d as int], base, e as int)
            && none_match(listings[d as int], base, e as int) && forall|k: int|
            0 <= k < d ==> lacks(#[trigger] listings[k], base),
    }
}

/// Where the texture with the file name `base` is, in the first of the directories that
/// has it.
pub fn choose_texture(listings: &Vec<Listing>, base: &str) -> (r: Option<Found>)
    ensures
        match r {
            Some(f) => is_first(listings@, base@, f),
            None => forall|d: int|
                0 <= d < listings@.len() ==> lacks(#[trigger] listings@[d], base@),
        },
{
    let low: String = to_lowercase(base);
    let mut d: usize = 0;
    while d < listings.len()
        invariant
            d <= listings@.len(),
            low@ == lowercase(base@),
            forall|k: int| 0 <= k < d ==> lacks(#[trigger] listings@[k], base@),
        decreases listings@.len() - d,
    {
        let l: &Listing = &listings[d];
        if l.exact {
            return Some(Found::Exact(d));
        }
        let mut e: usize = 0;
        while e < l.names.len()
            invariant
                e <= l.names@.len(),
                d < listings@.len(),
                *l == listings@[d as int],
                !l.exact,
                low@ == lowercase(base@),
                forall|k: int| 0 <= k < d ==> lacks(#[trigger] listings@[k], base@),
                none_match(*l, base@, e as int),
            decreases l.names@.len() - e,
        {
            if to_lowercase(l.names[e].as_str()) == low {
                proof {
                    assert(matches_name(*l, base@, e as int));
                }
                return Some(Found::Entry(d, e));
            }
            e = e + 1;
        }
        d = d + 1;
    }
    None
}

} // verus!
