//! JSON documents.
//!
//! A document is put together as a [`Json`] value, in which a number with a fraction
//! stands as its bit pattern. To write it, `serde_json` is handed the same document
//! as a value of its own, with the numerals that stand for those patterns.

use crate::float::F64;
use std::collections::HashMap;
use vstd::prelude::*;

verus! {

/// A JSON document.
#[derive(Debug)]
pub enum Json {
    Null,
    Bool(bool),
    Uint(u64),
    Float(F64),
    Str(String),
    Arr(Vec<Json>),
    Obj(Vec<(String, Json)>),
}

/// What a [`Json`] document says.
#[verifier::ext_equal]
pub enum Doc {
    Null,
    Bool(bool),
    Uint(nat),
    Float(F64),
    Str(Seq<char>),
    Arr(Seq<Doc>),
    Obj(Seq<(Seq<char>, Doc)>),
}

impl Doc {
    /// An object without entries.
    pub open spec fn object() -> Doc {
        Doc::Obj(Seq::empty())
    }

    /// This object with one more entry.
    pub open spec fn with(self, key: Seq<char>, value: Doc) -> Doc {
        Doc::Obj(self->Obj_0.push((key, value)))
    }
}

/// What a document says.
pub open spec fn doc_of(j: Json) -> Doc
    decreases j,
{
    match j {
        Json::Null => Doc::Null,
        Json::Bool(b) => Doc::Bool(b),
        Json::Uint(n) => Doc::Uint(n as nat),
        Json::Float(x) => Doc::Float(x),
        Json::Str(s) => Doc::Str(s@),
        Json::Arr(v) => Doc::Arr(
            Seq::new(
                v@.len(),
                |i: int|
                    if 0 <= i < v@.len() {
                        doc_of(v@[i])
                    } else {
                        Doc::Null
                    },
            ),
        ),
        Json::Obj(v) => Doc::Obj(
            Seq::new(
                v@.len(),
                |i: int|
                    if 0 <= i < v@.len() {
                        (v@[i].0@, doc_of(v@[i].1))
                    } else {
                        (Seq::empty(), Doc::Null)
                    },
            ),
        ),
    }
}

impl View for Json {
    type V = Doc;

    open spec fn view(&self) -> Doc {
        doc_of(*self)
    }
}

/// What a value of `serde_json` holds.
pub enum Tree {
    Null,
    Bool(bool),
    /// An integer that is not negative.
    Uint(nat),
    /// Any other number, by its text.
    Number(Seq<char>),
    Str(Seq<char>),
    Arr(Seq<Tree>),
    Obj(Map<Seq<char>, Tree>),
}

/// A value of `serde_json`.
#[verifier::external_type_specification]
#[verifier::external_body]
pub struct ExValue(serde_json::Value);

/// An error of `serde_json`.
#[verifier::external_type_specification]
#[verifier::external_body]
pub struct ExError(serde_json::Error);

/// What a value of `serde_json` holds.
pub uninterp spec fn tree(v: serde_json::Value) -> Tree;

/// The text that `serde_json` writes of a value, without white space.
pub uninterp spec fn json_text(t: Tree) -> Seq<char>;

/// The text that `serde_json` writes of a value, in lines and indented.
pub uninterp spec fn json_pretty(t: Tree) -> Seq<char>;

/// The document `d` with the numerals that stand for its fractions.
pub open spec fn tree_of(d: Doc, numerals: Map<u64, serde_json::Value>) -> Tree
    decreases d, doc_len(d) + 1,
{
    match d {
        Doc::Null => Tree::Null,
        Doc::Bool(b) => Tree::Bool(b),
        Doc::Uint(n) => Tree::Uint(n),
        Doc::Float(x) => tree(numerals[x.bits]),
        Doc::Str(s) => Tree::Str(s),
        Doc::Arr(items) => Tree::Arr(
            Seq::new(
                items.len(),
                |i: int|
                    if 0 <= i < items.len() {
                        tree_of(items[i], numerals)
                    } else {
                        Tree::Null
                    },
            ),
        ),
        Doc::Obj(entries) => Tree::Obj(object_of(d, numerals, entries.len())),
    }
}

/// The number of entries of an object.
pub open spec fn doc_len(d: Doc) -> nat {
    match d {
        Doc::Obj(entries) => entries.len(),
        _ => 0,
    }
}

/// The object with the first `n` entries of `d`, a later one in place of an earlier
/// of the same key.
pub open spec fn object_of(
    d: Doc,
    numerals: Map<u64, serde_json::Value>,
    n: nat,
) -> Map<Seq<char>, Tree>
    decreases d, n,
{
    match d {
        Doc::Obj(entries) => if n == 0 || n > entries.len() {
            Map::empty()
        } else {
            object_of(d, numerals, (n - 1) as nat).insert(
                entries[n - 1].0,
                tree_of(entries[n - 1].1, numerals),
            )
        },
        _ => Map::empty(),
    }
}

/// Whether all fractions of `d` have a numeral.
pub open spec fn has_numerals(d: Doc, numerals: Map<u64, serde_json::Value>) -> bool
    decreases d,
{
    match d {
        Doc::Float(x) => numerals.contains_key(x.bits),
        Doc::Arr(items) => forall|i: int|
            0 <= i < items.len() ==> has_numerals(#[trigger] items[i], numerals),
        Doc::Obj(entries) => forall|i: int|
            0 <= i < entries.len() ==> has_numerals((#[trigger] entries[i]).1, numerals),
        _ => true,
    }
}

/// Why a document was not written.
#[derive(Clone, Copy, Debug, PartialEq, Eq, Structural)]
pub enum JsonError {
    /// A fraction has no numeral.
    MissingNumeral,
    /// `serde_json` refused the document.
    Refused,
}

/// The null of `serde_json`, `Value::Null`.
#[verifier::external_body]
fn null_value() -> (r: serde_json::Value)
    ensures
        tree(r) == Tree::Null,
{
    serde_json::Value::Null
}

/// A truth value, by `serde_json::Value::from`.
#[verifier::external_body]
fn bool_value(b: bool) -> (r: serde_json::Value)
    ensures
        tree(r) == Tree::Bool(b),
{
    serde_json::Value::from(b)
}

/// An integer, by `serde_json::Value::from`.
#[verifier::external_body]
fn uint_value(n: u64) -> (r: serde_json::Value)
    ensures
        tree(r) == Tree::Uint(n as nat),
{
    serde_json::Value::from(n)
}

/// A string, by `serde_json::Value::from`, which keeps its characters.
#[verifier::external_body]
fn str_value(s: &str) -> (r: serde_json::Value)
    ensures
        tree(r) == Tree::Str(s@),
{
    serde_json::Value::from(s)
}

/// An array, by `serde_json::Value::from`, which keeps its elements in their order.
#[verifier::external_body]
fn array_value(items: Vec<serde_json::Value>) -> (r: serde_json::Value)
    ensures
        tree(r) == Tree::Arr(Seq::new(items@.len(), |i: int| tree(items@[i]))),
{
    serde_json::Value::from(items)
}

/// An object without entries, by `serde_json::Map::new`.
#[verifier::external_body]
fn object_value() -> (r: serde_json::Value)
    ensures
        tree(r) == Tree::Obj(Map::empty()),
{
    serde_json::Value::Object(serde_json::Map::new())
}

/// Sets the entry `key` of an object, by indexing a `serde_json::Value`: the entry is
/// added, or takes the place of one of the same key.
#[verifier::external_body]
fn set_entry(v: &mut serde_json::Value, key: &str, x: serde_json::Value)
    requires
        tree(*old(v)) is Obj,
    ensures
        tree(*final(v)) == Tree::Obj(tree(*old(v))->Obj_0.insert(key@, tree(x))),
{
    v[key] = x;
}

/// A copy, by `serde_json::Value::clone`.
#[verifier::external_body]
fn copy_value(v: &serde_json::Value) -> (r: serde_json::Value)
    ensures
        tree(r) == tree(*v),
{
    v.clone()
}

/// The text of a value, by `serde_json::to_string`. A value has string keys alone and
/// is written to memory, so that writing it does not fail; the text is a function of
/// what the value holds.
#[verifier::external_body]
fn value_text(v: &serde_json::Value) -> (r: Result<String, serde_json::Error>)
    ensures
        r is Ok,
        r->Ok_0@ == json_text(tree(*v)),
{
    serde_json::to_string(v)
}

/// The indented text of a value, by `serde_json::to_string_pretty`. A value has string
/// keys alone and is written to memory, so that writing it does not fail; the text is
/// a function of what the value holds.
#[verifier::external_body]
fn value_pretty(v: &serde_json::Value) -> (r: Result<String, serde_json::Error>)
    ensures
        r is Ok,
        r->Ok_0@ == json_pretty(tree(*v)),
{
    serde_json::to_string_pretty(v)
}

/// The document as a value of `serde_json`, where all its fractions have numerals.
pub fn value_of(j: &Json, numerals: &HashMap<u64, serde_json::Value>) -> (r: Result<
    serde_json::Value,
    JsonError,
>)
    ensures
        has_numerals(j@, numerals@) ==> (r matches Ok(v) && tree(v) == tree_of(j@, numerals@)),
        !has_numerals(j@, numerals@) ==> r == Err::<serde_json::Value, JsonError>(
            JsonError::MissingNumeral,
        ),
    decreases j,
{
    broadcast use vstd::std_specs::hash::group_hash_axioms;

    match j {
        Json::Null => Ok(null_value()),
        Json::Bool(b) => Ok(bool_value(*b)),
        Json::Uint(n) => Ok(uint_value(*n)),
        Json::Float(x) => match numerals.get(&x.bits) {
            Some(v) => Ok(copy_value(v)),
            None => Err(JsonError::MissingNumeral),
        },
        Json::Str(s) => Ok(str_value(s.as_str())),
        Json::Arr(items) => {
            let ghost docs = j@->Arr_0;
            let mut out: Vec<serde_json::Value> = Vec::new();
            let mut i: usize = 0;
            while i < items.len()
                invariant
                    i <= items@.len(),
                    docs.len() == items@.len(),
                    j@ == Doc::Arr(docs),
                    *j == Json::Arr(*items),
                    forall|k: int| 0 <= k < docs.len() ==> #[trigger] docs[k] == items@[k]@,
                    out@.len() == i,
                    forall|k: int| 0 <= k < i ==> has_numerals(#[trigger] docs[k], numerals@),
                    forall|k: int|
                        0 <= k < i ==> tree(#[trigger] out@[k]) == tree_of(docs[k], numerals@),
                decreases items@.len() - i,
            {
                proof {
                    assert(docs[i as int] == items@[i as int]@);
                }
                match value_of(&items[i], numerals) {
                    Ok(v) => {
                        out.push(v);
                    },
                    Err(e) => {
                        return Err(e);
                    },
                }
                i = i + 1;
            }
            proof {
                assert(Seq::new(out@.len(), |k: int| tree(out@[k])) =~= tree_of(
                    j@,
                    numerals@,
                )->Arr_0);
            }
            Ok(array_value(out))
        },
        Json::Obj(entries) => {
            let ghost docs = j@->Obj_0;
            let mut out: serde_json::Value = object_value();
            let mut i: usize = 0;
            while i < entries.len()
                invariant
                    i <= entries@.len(),
                    docs.len() == entries@.len(),
                    j@ == Doc::Obj(docs),
                    *j == Json::Obj(*entries),
                    forall|k: int|
                        0 <= k < docs.len() ==> #[trigger] docs[k] == (entries@[k].0@, entries@[k].1@),
                    forall|k: int| 0 <= k < i ==> has_numerals((#[trigger] docs[k]).1, numerals@),
                    tree(out) == Tree::Obj(object_of(j@, numerals@, i as nat)),
                decreases entries@.len() - i,
            {
                proof {
                    assert(docs[i as int] == (entries@[i as int].0@, entries@[i as int].1@));
                }
                match value_of(&entries[i].1, numerals) {
                    Ok(v) => {
                        set_entry(&mut out, entries[i].0.as_str(), v);
                    },
                    Err(e) => {
                        return Err(e);
                    },
                }
                i = i + 1;
            }
            Ok(out)
        },
    }
}

/// The text of a document, without white space, where all its fractions have
/// numerals.
pub fn to_text(j: &Json, numerals: &HashMap<u64, serde_json::Value>) -> (r: Result<
    String,
    JsonError,
>)
    ensures
        has_numerals(j@, numerals@) ==> (r matches Ok(s) && s@ == json_text(
            tree_of(j@, numerals@),
        )),
        !has_numerals(j@, numerals@) ==> r == Err::<String, JsonError>(JsonError::MissingNumeral),
{
    match value_of(j, numerals) {
        Ok(v) => match value_text(&v) {
            Ok(s) => Ok(s),
            Err(_) => Err(JsonError::Refused),
        },
        Err(e) => Err(e),
    }
}

/// The text of a document, in lines and indented, where all its fractions have
/// numerals.
pub fn to_pretty(j: &Json, numerals: &HashMap<u64, serde_json::Value>) -> (r: Result<
    String,
    JsonError,
>)
    ensures
        has_numerals(j@, numerals@) ==> (r matches Ok(s) && s@ == json_pretty(
            tree_of(j@, numerals@),
        )),
        !has_numerals(j@, numerals@) ==> r == Err::<String, JsonError>(JsonError::MissingNumeral),
{
    match value_of(j, numerals) {
        Ok(v) => match value_pretty(&v) {
            Ok(s) => Ok(s),
            Err(_) => Err(JsonError::Refused),
        },
        Err(e) => Err(e),
    }
}

/// What the elements of an array say.
pub open spec fn docs(items: Seq<Json>) -> Seq<Doc> {
    Seq::new(items.len(), |i: int| items[i]@)
}

/// An object without entries.
pub fn object() -> (r: Json)
    ensures
        r@ == Doc::object(),
{
    let r: Json = Json::Obj(Vec::new());
    proof {
        assert(r@->Obj_0 =~= Seq::empty());
    }
    r
}

/// The object `o` with one more entry.
pub fn with(o: Json, key: &str, value: Json) -> (r: Json)
    requires
        o@ is Obj,
    ensures
        r@ == o@.with(key@, value@),
{
    let ghost before = o@->Obj_0;
    match o {
        Json::Obj(entries) => {
            let ghost old_entries = entries@;
            let mut entries: Vec<(String, Json)> = entries;
            entries.push((key.to_owned(), value));
            let r: Json = Json::Obj(entries);
            proof {
                assert(r@->Obj_0 =~= before.push((key@, value@)));
            }
            r
        },
        other => other,
    }
}

/// The array of `items`.
pub fn array(items: Vec<Json>) -> (r: Json)
    ensures
        r@ == Doc::Arr(docs(items@)),
{
    let r: Json = Json::Arr(items);
    proof {
        assert(r@->Arr_0 =~= docs(items@));
    }
    r
}

/// The array of one element.
pub fn array_of_one(item: Json) -> (r: Json)
    ensures
        r@ == Doc::Arr(seq![item@]),
{
    let mut items: Vec<Json> = Vec::new();
    items.push(item);
    proof {
        assert(docs(items@) =~= seq![item@]);
    }
    array(items)
}

/// A string.
pub fn string(s: &str) -> (r: Json)
    ensures
        r@ == Doc::Str(s@),
{
    Json::Str(s.to_owned())
}

/// What an array of fractions says.
pub open spec fn float_docs(xs: Seq<F64>) -> Doc {
    Doc::Arr(Seq::new(xs.len(), |i: int| Doc::Float(xs[i])))
}

/// The array of the fractions `xs`.
pub fn floats(xs: &Vec<F64>) -> (r: Json)
    ensures
        r@ == float_docs(xs@),
{
    let mut items: Vec<Json> = Vec::new();
    let mut i: usize = 0;
    while i < xs.len()
        invariant
            i <= xs@.len(),
            items@.len() == i,
            forall|k: int| 0 <= k < i ==> (#[trigger] items@[k])@ == Doc::Float(xs@[k]),
        decreases xs@.len() - i,
    {
        items.push(Json::Float(xs[i]));
        i = i + 1;
    }
    proof {
        assert(docs(items@) =~= Seq::new(xs@.len(), |k: int| Doc::Float(xs@[k])));
    }
    array(items)
}

/// What an array of strings says.
pub open spec fn string_docs(xs: Seq<Seq<char>>) -> Doc {
    Doc::Arr(Seq::new(xs.len(), |i: int| Doc::Str(xs[i])))
}

/// The characters of each string.
pub open spec fn texts(xs: Seq<String>) -> Seq<Seq<char>> {
    Seq::new(xs.len(), |i: int| xs[i]@)
}

/// The array of the strings `xs`.
pub fn strings(xs: &Vec<String>) -> (r: Json)
    ensures
        r@ == string_docs(texts(xs@)),
{
    let mut items: Vec<Json> = Vec::new();
    let mut i: usize = 0;
    while i < xs.len()
        invariant
            i <= xs@.len(),
            items@.len() == i,
            forall|k: int| 0 <= k < i ==> (#[trigger] items@[k])@ == Doc::Str(xs@[k]@),
        decreases xs@.len() - i,
    {
        items.push(Json::Str(xs[i].clone()));
        i = i + 1;
    }
    proof {
        assert(docs(items@) =~= string_docs(texts(xs@))->Arr_0);
    }
    array(items)
}

/// The patterns of the fractions of `d`, in order.
pub open spec fn fractions(d: Doc) -> Seq<u64>
    decreases d, child_count(d) + 1,
{
    match d {
        Doc::Float(x) => seq![x.bits],
        _ => fractions_below(d, child_count(d)),
    }
}

/// The number of elements or entries.
pub open spec fn child_count(d: Doc) -> nat {
    match d {
        Doc::Arr(items) => items.len(),
        Doc::Obj(entries) => entries.len(),
        _ => 0,
    }
}

/// The patterns of the fractions of the first `n` elements or entries.
pub open spec fn fractions_below(d: Doc, n: nat) -> Seq<u64>
    decreases d, n,
{
    match d {
        Doc::Arr(items) => if n == 0 || n > items.len() {
            Seq::empty()
        } else {
            fractions_below(d, (n - 1) as nat) + fractions(items[n - 1])
        },
        Doc::Obj(entries) => if n == 0 || n > entries.len() {
            Seq::empty()
        } else {
            fractions_below(d, (n - 1) as nat) + fractions(entries[n - 1].1)
        },
        _ => Seq::empty(),
    }
}

/// Appends the patterns of the fractions of `j` to `out`.
pub fn collect_fractions(j: &Json, out: &mut Vec<u64>)
    ensures
        final(out)@ == old(out)@ + fractions(j@),
    decreases j,
{
    let ghost start = out@;
    match j {
        Json::Float(x) => {
            out.push(x.bits);
            proof {
                assert(out@ =~= start + fractions(j@));
            }
        },
        Json::Arr(items) => {
            let mut i: usize = 0;
            proof {
                assert(out@ =~= start + fractions_below(j@, 0));
            }
            while i < items.len()
                invariant
                    i <= items@.len(),
                    *j == Json::Arr(*items),
                    out@ == start + fractions_below(j@, i as nat),
                decreases items@.len() - i,
            {
                collect_fractions(&items[i], out);
                i = i + 1;
                proof {
                    assert(j@->Arr_0[i - 1] == items@[i - 1]@);
                    assert(out@ =~= start + fractions_below(j@, i as nat));
                }
            }
        },
        Json::Obj(entries) => {
            let mut i: usize = 0;
            proof {
                assert(out@ =~= start + fractions_below(j@, 0));
            }
            while i < entries.len()
                invariant
                    i <= entries@.len(),
                    *j == Json::Obj(*entries),
                    out@ == start + fractions_below(j@, i as nat),
                decreases entries@.len() - i,
            {
                collect_fractions(&entries[i].1, out);
                i = i + 1;
                proof {
                    assert(j@->Obj_0[i - 1].1 == entries@[i - 1].1@);
                    assert(out@ =~= start + fractions_below(j@, i as nat));
                }
            }
        },
        _ => {
            proof {
                assert(out@ =~= start + fractions(j@));
            }
        },
    }
}

/// Whether all of `patterns` have a numeral.
pub open spec fn all_have(patterns: Seq<u64>, numerals: Map<u64, serde_json::Value>) -> bool {
    forall|i: int| 0 <= i < patterns.len() ==> numerals.contains_key(#[trigger] patterns[i])
}

proof fn lemma_all_have_add(a: Seq<u64>, b: Seq<u64>, numerals: Map<u64, serde_json::Value>)
    ensures
        all_have(a + b, numerals) <==> all_have(a, numerals) && all_have(b, numerals),
{
    let s = a + b;
    if all_have(s, numerals) {
        assert forall|i: int| 0 <= i < a.len() implies numerals.contains_key(#[trigger] a[i]) by {
            assert(s[i] == a[i]);
        }
        assert forall|i: int| 0 <= i < b.len() implies numerals.contains_key(#[trigger] b[i]) by {
            assert(s[a.len() + i] == b[i]);
        }
    }
}

/// A document can be written where all of its fractions, as
/// [`collect_fractions`] lists them, have numerals.
pub proof fn law_fractions(d: Doc, numerals: Map<u64, serde_json::Value>)
    ensures
        has_numerals(d, numerals) <==> all_have(fractions(d), numerals),
    decreases d, child_count(d) + 1,
{
    match d {
        Doc::Float(x) => {
            assert(fractions(d)[0] == x.bits);
        },
        Doc::Arr(items) => {
            lemma_fractions_below(d, items.len(), numerals);
        },
        Doc::Obj(entries) => {
            lemma_fractions_below(d, entries.len(), numerals);
        },
        _ => {},
    }
}

proof fn lemma_fractions_below(d: Doc, n: nat, numerals: Map<u64, serde_json::Value>)
    requires
        n <= child_count(d),
    ensures
        d matches Doc::Arr(items) ==> (all_have(fractions_below(d, n), numerals) <==> forall|i: int|
            0 <= i < n ==> has_numerals(#[trigger] items[i], numerals)),
        d matches Doc::Obj(entries) ==> (all_have(fractions_below(d, n), numerals) <==> forall|
            i: int,
        |
            0 <= i < n ==> has_numerals((#[trigger] entries[i]).1, numerals)),
    decreases d, n,
{
    if n > 0 {
        lemma_fractions_below(d, (n - 1) as nat, numerals);
        match d {
            Doc::Arr(items) => {
                law_fractions(items[n - 1], numerals);
                lemma_all_have_add(
                    fractions_below(d, (n - 1) as nat),
                    fractions(items[n - 1]),
                    numerals,
                );
            },
            Doc::Obj(entries) => {
                law_fractions(entries[n - 1].1, numerals);
                lemma_all_have_add(
                    fractions_below(d, (n - 1) as nat),
                    fractions(entries[n - 1].1),
                    numerals,
                );
            },
            _ => {},
        }
    }
}

} // verus!
