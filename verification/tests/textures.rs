use tile3d::texture::{
    choose_texture, fit_image, has_translucent, process_image, process_texture, reduce_size,
    search_order, texture_cache, texture_file_has_alpha, DirEntry, Encoded, Found, Listing,
    SearchPlace,
};

/// A PNG file of one colour.
fn png(w: u32, h: u32, pixel: [u8; 4]) -> Vec<u8> {
    let img = image::RgbaImage::from_pixel(w, h, image::Rgba(pixel));
    let mut out = std::io::Cursor::new(Vec::new());
    image::DynamicImage::ImageRgba8(img).write_to(&mut out, image::ImageFormat::Png).unwrap();
    out.into_inner()
}

#[test]
fn the_longest_side_becomes_256() {
    assert_eq!(reduce_size(256, 256), None);
    assert_eq!(reduce_size(1, 0), None);
    assert_eq!(reduce_size(512, 512), Some((256, 256)));
    assert_eq!(reduce_size(1024, 512), Some((256, 128)));
    assert_eq!(reduce_size(257, 100), Some((256, 100)));
    assert_eq!(reduce_size(3, 4096), Some((1, 256)));
    assert_eq!(reduce_size(0, 1000), Some((1, 256)));
    for w in [257_u32, 300, 511, 513, 1000, 4097, 65535, 16777217, u32::MAX] {
        for h in [1_u32, 2, 255, 256, 257, 999, 65536, u32::MAX] {
            let (a, b) = reduce_size(w, h).unwrap();
            let s = 256.0_f32 / w.max(h) as f32;
            assert_eq!(a, ((w as f32 * s).round() as u32).max(1));
            assert_eq!(b, ((h as f32 * s).round() as u32).max(1));
            assert_eq!(a.max(b), 256);
            assert!(a >= 1 && b >= 1);
        }
    }
}

#[test]
fn a_translucent_pixel_is_seen() {
    assert!(!has_translucent(&vec![]));
    assert!(!has_translucent(&vec![0, 0, 0, 250, 9, 9, 9, 255]));
    assert!(has_translucent(&vec![0, 0, 0, 250, 9, 9, 9, 249]));
}

#[test]
fn a_large_image_is_made_to_fit() {
    let img = image::load_from_memory(&png(600, 300, [10, 20, 30, 255])).unwrap();
    let small = fit_image(img);
    assert_eq!((small.width(), small.height()), (256, 128));
    let img = image::load_from_memory(&png(20, 30, [10, 20, 30, 255])).unwrap();
    let same = fit_image(img);
    assert_eq!((same.width(), same.height()), (20, 30));
}

#[test]
fn an_opaque_texture_becomes_jpeg() {
    let t = process_texture(&png(300, 10, [200, 100, 50, 255])).unwrap();
    assert_eq!(t.mime, "image/jpeg");
    assert!(!t.has_alpha);
    assert_eq!(&t.bytes[0..3], &[0xff, 0xd8, 0xff]);
    let back = image::load_from_memory(&t.bytes).unwrap();
    assert_eq!((back.width(), back.height()), (256, 9));
    let p = back.to_rgb8().get_pixel(100, 4).0;
    assert!(p[0].abs_diff(200) < 8 && p[1].abs_diff(100) < 8 && p[2].abs_diff(50) < 8);
}

#[test]
fn a_translucent_texture_stays_png() {
    let t = process_texture(&png(16, 16, [200, 100, 50, 128])).unwrap();
    assert_eq!(t.mime, "image/png");
    assert!(t.has_alpha);
    let back = image::load_from_memory(&t.bytes).unwrap();
    assert_eq!(back.to_rgba8().get_pixel(3, 3).0, [200, 100, 50, 128]);
}

#[test]
fn an_image_is_processed_as_its_file_is() {
    for pixel in [[1, 2, 3, 255], [1, 2, 3, 9]] {
        let file = png(400, 40, pixel);
        let from_image = process_image(image::load_from_memory(&file).unwrap()).unwrap();
        let from_file = process_texture(&file).unwrap();
        assert_eq!(from_image.bytes, from_file.bytes);
        assert_eq!(from_image.mime, from_file.mime);
        assert_eq!(from_image.has_alpha, pixel[3] < 250);
        let back = image::load_from_memory(&from_image.bytes).unwrap();
        assert_eq!((back.width(), back.height()), (256, 26));
    }
}

#[test]
fn what_is_no_image_is_not_processed() {
    assert!(process_texture(&vec![]).is_none());
    assert!(process_texture(&vec![1, 2, 3, 4]).is_none());
}

#[test]
fn a_texture_is_made_ready_once() {
    let mut cache = texture_cache();
    assert!(cache.find("a.png").is_none());
    let a = cache.insert("a.png", &png(4, 4, [1, 2, 3, 255]));
    let b = cache.insert("b.bin", &vec![7, 7]);
    assert_eq!(cache.find("a.png"), Some(a));
    // The second time the bytes are not looked at.
    assert_eq!(cache.insert("a.png", &vec![]), a);
    assert_eq!(cache.get(a).mime, "image/jpeg");
    assert_eq!(cache.get(b).mime, "application/octet-stream");
    assert_eq!(cache.get(b).bytes, vec![7, 7]);
    assert!(!cache.get(b).has_alpha);
    assert!(cache.find("A.png").is_none());
}

#[test]
fn what_is_ready_is_kept() {
    let mut cache = texture_cache();
    let ready = Encoded { bytes: vec![5], mime: "image/png".to_string(), has_alpha: true };
    let a = cache.keep("a", &vec![1, 2], Some(ready));
    let b = cache.keep("b", &vec![1, 2], None);
    assert_eq!((a, b), (0, 1));
    assert_eq!((&cache.get(a).bytes, cache.get(a).has_alpha), (&vec![5], true));
    assert_eq!(cache.get(b).bytes, vec![1, 2]);
    assert_eq!(cache.get(b).mime, "application/octet-stream");
    // What is there stays.
    assert_eq!(cache.keep("a", &vec![9], None), a);
    assert_eq!(cache.get(a).bytes, vec![5]);
}

fn entry(is_dir: bool, extension: &str) -> DirEntry {
    let extension = if extension.is_empty() { None } else { Some(extension.to_string()) };
    DirEntry { is_dir, extension }
}

#[test]
fn directories_with_media_are_searched_last() {
    let dirs = vec![
        vec![entry(true, "fbm"), entry(true, ""), entry(false, "fbm")],
        vec![entry(true, "png"), entry(true, "FBM")],
        vec![entry(true, "fbm")],
    ];
    assert_eq!(
        search_order(&dirs),
        vec![
            SearchPlace::Given(0),
            SearchPlace::Given(1),
            SearchPlace::Within(0, 0),
            SearchPlace::Within(1, 1),
        ]
    );
    assert_eq!(search_order(&vec![vec![]]), vec![SearchPlace::Given(0)]);
    assert!(search_order(&vec![]).is_empty());
}

/// The beginning of a PNG file of the given colour type, with chunks behind it.
fn head(kind: u8, chunks: &[(&[u8; 4], usize)]) -> Vec<u8> {
    let mut b = vec![0x89, b'P', b'N', b'G', 0x0d, 0x0a, 0x1a, 0x0a, 0, 0, 0, 13];
    b.extend_from_slice(b"IHDR");
    b.extend_from_slice(&[0, 0, 0, 1, 0, 0, 0, 1, 8, kind, 0, 0, 0, 1, 2, 3, 4]);
    for (tag, len) in chunks {
        b.extend_from_slice(&(*len as u32).to_be_bytes());
        b.extend_from_slice(*tag);
        b.extend_from_slice(&vec![0; len + 4]);
    }
    b
}

fn asks(file: &Vec<u8>) -> bool {
    let first: Vec<u8> = file.iter().take(64).copied().collect();
    texture_file_has_alpha(&first, file)
}

#[test]
fn the_head_of_a_file_tells_alpha() {
    assert!(asks(&head(6, &[])));
    assert!(asks(&head(4, &[])));
    assert!(!asks(&head(2, &[(b"tRNS", 6)])));
    assert!(!asks(&head(0, &[])));
    assert!(!asks(&head(3, &[(b"PLTE", 12), (b"IDAT", 4)])));
    assert!(asks(&head(3, &[(b"PLTE", 12), (b"tRNS", 4)])));
    // Behind the data it does not count, however long what is before them.
    assert!(!asks(&head(3, &[(b"PLTE", 12), (b"IDAT", 4), (b"tRNS", 4)])));
    assert!(asks(&head(3, &[(b"PLTE", 5000), (b"tRNS", 4)])));
    assert!(!asks(&vec![0xff; 100]));
    assert!(!asks(&head(6, &[]).into_iter().take(25).collect()));
    // What `image` writes is told in the same way.
    assert!(asks(&png(2, 2, [1, 2, 3, 4])));
}

fn listing(exact: bool, names: &[&str]) -> Listing {
    Listing { exact, names: names.iter().map(|s| s.to_string()).collect() }
}

#[test]
fn textures_are_found_by_name() {
    let dirs = vec![
        listing(false, &["roof.png"]),
        listing(false, &["x", "WALL.JPG", "wall.jpg"]),
        listing(true, &[]),
    ];
    assert_eq!(choose_texture(&dirs, "wall.jpg"), Some(Found::Entry(1, 1)));
    assert_eq!(choose_texture(&dirs, "ROOF.PNG"), Some(Found::Entry(0, 0)));
    assert_eq!(choose_texture(&dirs, "other"), Some(Found::Exact(2)));
    assert_eq!(choose_texture(&dirs[0..2].iter().map(|l| Listing { exact: l.exact, names: l.names.clone() }).collect(), "other"), None);
    // A very name comes before other entries of its directory.
    assert_eq!(choose_texture(&vec![listing(true, &["WALL.JPG"])], "wall.jpg"), Some(Found::Exact(0)));
    assert_eq!(choose_texture(&vec![listing(false, &["\u{c4}.png"])], "\u{e4}.PNG"), Some(Found::Entry(0, 0)));
}
