//! PDF documents: what the objects of `lopdf` hold, and the operations on
//! them that the library relies on.
use crate::decoding::{decodable, harmless};
use crate::single::Single;
use realfft::num_traits::FromBytes;
use vstd::prelude::*;
use vstd::string::*;

verus! {

/// A document, whose objects are found by their numbers.
#[verifier::external_type_specification]
#[verifier::external_body]
pub struct ExDocument(lopdf::Document);

/// An object of a document.
#[verifier::external_type_specification]
#[verifier::external_body]
pub struct ExObject(lopdf::Object);

/// A dictionary of objects.
#[verifier::external_type_specification]
#[verifier::external_body]
pub struct ExDictionary(lopdf::Dictionary);

/// Why an operation on a document failed.
#[verifier::external_type_specification]
#[verifier::external_body]
pub struct ExError(lopdf::Error);

/// How many references in a row are followed to find an object.
pub const HOPS: u32 = 128;

/// What an object is. A text is written in hexadecimal digits or not; a
/// stream has a dictionary and bytes.
#[verifier::ext_equal]
pub enum Value {
    Null,
    Boolean(bool),
    Integer(i64),
    Real(Single),
    Name(Seq<u8>),
    Text(Seq<u8>, bool),
    Array(Seq<Value>),
    Dictionary(Seq<(Seq<u8>, Value)>),
    Stream(Seq<(Seq<u8>, Value)>, Seq<u8>),
    Reference((u32, u16)),
}

/// What a document is: its objects by their numbers, the last number that
/// was given away, its trailer and its version.
#[verifier::ext_equal]
pub struct Pdf {
    pub objects: Map<(u32, u16), Value>,
    pub last: int,
    pub trailer: Seq<(Seq<u8>, Value)>,
    pub version: Seq<char>,
}

/// What an object holds.
pub uninterp spec fn value_of(object: lopdf::Object) -> Value;

/// The keys of a dictionary with their values, in order.
pub uninterp spec fn entries_of(dict: lopdf::Dictionary) -> Seq<(Seq<u8>, Value)>;

/// The objects of a document, by their numbers.
pub uninterp spec fn objects_in(doc: lopdf::Document) -> Map<(u32, u16), Value>;

/// The last number that an object of a document was given.
pub uninterp spec fn last_id(doc: lopdf::Document) -> u32;

/// The trailer of a document.
pub uninterp spec fn trailer_in(doc: lopdf::Document) -> Seq<(Seq<u8>, Value)>;

/// The version of a document.
pub uninterp spec fn version_of(doc: lopdf::Document) -> Seq<char>;

/// What the bytes of a stream with these entries are decoded to, where they
/// can be.
pub uninterp spec fn unpacked(entries: Seq<(Seq<u8>, Value)>, bytes: Seq<u8>) -> Option<Seq<u8>>;

/// The content of a page, where it can be had, in a document with these
/// objects.
pub uninterp spec fn page_content(objects: Map<(u32, u16), Value>, page: (u32, u16)) -> Option<
    Seq<u8>,
>;

/// The pages of a document with this trailer and these objects, in order.
pub uninterp spec fn page_ids(
    trailer: Seq<(Seq<u8>, Value)>,
    objects: Map<(u32, u16), Value>,
) -> Seq<(u32, u16)>;

/// What a document is.
pub open spec fn pdf(doc: lopdf::Document) -> Pdf {
    Pdf {
        objects: objects_in(doc),
        last: last_id(doc) as int,
        trailer: trailer_in(doc),
        version: version_of(doc),
    }
}

/// What the objects of a list hold.
pub open spec fn values_of(objects: Seq<lopdf::Object>) -> Seq<Value> {
    objects.map_values(|o: lopdf::Object| value_of(o))
}

/// Where a key stands first among entries; their number where it does not.
pub open spec fn position(entries: Seq<(Seq<u8>, Value)>, key: Seq<u8>) -> int
    decreases entries.len(),
{
    if entries.len() == 0 || entries[0].0 == key {
        0
    } else {
        1 + position(entries.drop_first(), key)
    }
}

/// The value that a key has among entries.
pub open spec fn lookup(entries: Seq<(Seq<u8>, Value)>, key: Seq<u8>) -> Option<Value> {
    let i = position(entries, key);
    if i < entries.len() {
        Some(entries[i].1)
    } else {
        None
    }
}

/// The entries with the value of one key replaced, or with a new entry at
/// the end.
pub open spec fn with_entry(entries: Seq<(Seq<u8>, Value)>, key: Seq<u8>, value: Value) -> Seq<
    (Seq<u8>, Value),
> {
    let i = position(entries, key);
    if i < entries.len() {
        entries.update(i, (key, value))
    } else {
        entries.push((key, value))
    }
}

/// The stream with these entries and bytes: its length stands among the
/// entries.
pub open spec fn stream_value(entries: Seq<(Seq<u8>, Value)>, bytes: Seq<u8>) -> Value {
    Value::Stream(
        with_entry(entries, "Length".spec_bytes(), Value::Integer(bytes.len() as i64)),
        bytes,
    )
}

/// The object with a number, where no more than so many references in a
/// row lead to it.
pub open spec fn found(objects: Map<(u32, u16), Value>, id: (u32, u16), hops: nat) -> Option<Value>
    decreases hops,
{
    if !objects.contains_key(id) {
        None
    } else {
        match objects[id] {
            Value::Reference(next) => if hops == 0 {
                None
            } else {
                found(objects, next, (hops - 1) as nat)
            },
            value => Some(value),
        }
    }
}

/// The object that a number stands for.
pub open spec fn resolved(objects: Map<(u32, u16), Value>, id: (u32, u16)) -> Option<Value> {
    found(objects, id, HOPS as nat)
}

impl Pdf {
    /// A new document of this version.
    pub open spec fn blank(version: Seq<char>) -> Pdf {
        Pdf { objects: Map::empty(), last: 0, trailer: Seq::empty(), version }
    }

    /// The next number.
    pub open spec fn next(self) -> (u32, u16) {
        ((self.last + 1) as u32, 0u16)
    }

    /// The document with one more object, under the next number.
    pub open spec fn with(self, value: Value) -> Pdf {
        Pdf { objects: self.objects.insert(self.next(), value), last: self.last + 1, ..self }
    }

    /// No object has a number that was not given away.
    pub open spec fn wf(self) -> bool {
        &&& 0 <= self.last <= u32::MAX
        &&& forall|id: (u32, u16)| #[trigger] self.objects.contains_key(id) ==> id.0 <= self.last
    }
}

/// A look at an object: its parts, where it has some that matter.
pub enum Node<'a> {
    Integer(i64),
    Real(Single),
    Name(&'a Vec<u8>),
    Array(&'a Vec<lopdf::Object>),
    Dictionary(&'a lopdf::Dictionary),
    Stream(&'a lopdf::Dictionary, &'a Vec<u8>),
    Reference((u32, u16)),
    Other,
}

/// What an object can be made of.
pub enum Pieces {
    Integer(i64),
    Real(Single),
    Name(Vec<u8>),
    Array(Vec<lopdf::Object>),
    Dictionary(lopdf::Dictionary),
    Reference((u32, u16)),
}

impl Pieces {
    pub open spec fn value(self) -> Value {
        match self {
            Pieces::Integer(n) => Value::Integer(n),
            Pieces::Real(x) => Value::Real(x),
            Pieces::Name(name) => Value::Name(name@),
            Pieces::Array(items) => Value::Array(values_of(items@)),
            Pieces::Dictionary(dict) => Value::Dictionary(entries_of(dict)),
            Pieces::Reference(id) => Value::Reference(id),
        }
    }
}

/// Tells the variants of `lopdf::Object` apart. Claimed is that the parts
/// that come out are those that the object holds, a stream's dictionary and
/// content among them.
#[verifier::external_body]
pub(crate) fn look_at<'a>(object: &'a lopdf::Object) -> (node: Node<'a>)
    ensures
        match node {
            Node::Integer(n) => value_of(*object) == Value::Integer(n),
            Node::Real(x) => value_of(*object) == Value::Real(x),
            Node::Name(name) => value_of(*object) == Value::Name(name@),
            Node::Array(a) => value_of(*object) == Value::Array(values_of(a@)),
            Node::Dictionary(d) => value_of(*object) == Value::Dictionary(entries_of(*d)),
            Node::Stream(d, bytes) => value_of(*object) == Value::Stream(entries_of(*d), bytes@),
            Node::Reference(id) => value_of(*object) == Value::Reference(id),
            Node::Other => match value_of(*object) {
                Value::Null | Value::Boolean(_) | Value::Text(_, _) => true,
                _ => false,
            },
        },
{
    match object {
        lopdf::Object::Integer(n) => Node::Integer(*n),
        lopdf::Object::Real(x) => Node::Real(Single { bits: x.to_bits() }),
        lopdf::Object::Name(name) => Node::Name(name),
        lopdf::Object::Array(a) => Node::Array(a),
        lopdf::Object::Dictionary(d) => Node::Dictionary(d),
        lopdf::Object::Stream(s) => Node::Stream(&s.dict, &s.content),
        lopdf::Object::Reference(id) => Node::Reference(*id),
        _ => Node::Other,
    }
}

/// Makes an object with a variant of `lopdf::Object`. Claimed is that the
/// object holds the pieces that it was made of.
#[verifier::external_body]
pub(crate) fn object_of(pieces: Pieces) -> (object: lopdf::Object)
    ensures
        value_of(object) == pieces.value(),
{
    match pieces {
        Pieces::Integer(n) => lopdf::Object::Integer(n),
        Pieces::Real(x) => lopdf::Object::Real(FromBytes::from_ne_bytes(&x.bits.to_ne_bytes())),
        Pieces::Name(name) => lopdf::Object::Name(name),
        Pieces::Array(items) => lopdf::Object::Array(items),
        Pieces::Dictionary(dict) => lopdf::Object::Dictionary(dict),
        Pieces::Reference(id) => lopdf::Object::Reference(id),
    }
}

/// Makes an object of what `Stream::new` returns. Claimed is that it holds
/// the dictionary, in which `Length` is set to the number of bytes, and the
/// bytes.
#[verifier::external_body]
pub(crate) fn stream_object(dict: lopdf::Dictionary, content: Vec<u8>) -> (object: lopdf::Object)
    ensures
        value_of(object) == stream_value(entries_of(dict), content@),
{
    lopdf::Object::Stream(lopdf::Stream::new(dict, content))
}

/// `Object::clone` copies what the object holds.
pub assume_specification[ <lopdf::Object as Clone>::clone ](object: &lopdf::Object) -> (r:
    lopdf::Object)
    ensures
        value_of(r) == value_of(*object),
;

/// `Dictionary::clone` copies the entries of the dictionary.
pub assume_specification[ <lopdf::Dictionary as Clone>::clone ](dict: &lopdf::Dictionary) -> (r:
    lopdf::Dictionary)
    ensures
        entries_of(r) == entries_of(*dict),
;

/// `Object::as_dict` hands out the dictionary of an object that is one, and
/// fails on every other object.
pub assume_specification[ lopdf::Object::as_dict ](object: &lopdf::Object) -> (r: Result<
    &lopdf::Dictionary,
    lopdf::Error,
>)
    ensures
        match r {
            Ok(dict) => value_of(*object) == Value::Dictionary(entries_of(*dict)),
            Err(_) => !(value_of(*object) is Dictionary),
        },
;

/// `Object::as_array` hands out the items of an object that is an array,
/// and fails on every other object.
pub assume_specification[ lopdf::Object::as_array ](object: &lopdf::Object) -> (r: Result<
    &Vec<lopdf::Object>,
    lopdf::Error,
>)
    ensures
        match r {
            Ok(items) => value_of(*object) == Value::Array(values_of(items@)),
            Err(_) => !(value_of(*object) is Array),
        },
;

/// `Dictionary::new` makes a dictionary without entries.
pub assume_specification[ lopdf::Dictionary::new ]() -> (dict: lopdf::Dictionary)
    ensures
        entries_of(dict) == Seq::<(Seq<u8>, Value)>::empty(),
;

/// `Dictionary::get` hands out the value of a key, and fails where there is
/// no such key.
pub assume_specification<'a>[ lopdf::Dictionary::get ](
    dict: &'a lopdf::Dictionary,
    key: &[u8],
) -> (r: Result<&'a lopdf::Object, lopdf::Error>)
    ensures
        match r {
            Ok(object) => lookup(entries_of(*dict), key@) == Some(value_of(*object)),
            Err(_) => lookup(entries_of(*dict), key@) == None::<Value>,
        },
;

/// Calls `Dictionary::set`. Claimed is that it replaces the value of a key
/// that is there, in its place, and appends one that is not.
#[verifier::external_body]
pub(crate) fn set_entry(dict: &mut lopdf::Dictionary, key: &[u8], value: lopdf::Object)
    ensures
        entries_of(*final(dict)) == with_entry(entries_of(*old(dict)), key@, value_of(value)),
{
    dict.set(key, value);
}

/// Calls `Dictionary::iter`. Claimed is that it hands out the entries in
/// order, and that no two of them have the same key.
#[verifier::external_body]
pub(crate) fn pairs_of<'a>(dict: &'a lopdf::Dictionary) -> (r: Vec<
    (&'a Vec<u8>, &'a lopdf::Object),
>)
    ensures
        r@.len() == entries_of(*dict).len(),
        forall|i: int|
            0 <= i < r@.len() ==> (#[trigger] r@[i]).0@ == entries_of(*dict)[i].0 && value_of(
                *r@[i].1,
            ) == entries_of(*dict)[i].1,
        forall|i: int, j: int|
            0 <= i < j < r@.len() ==> (#[trigger] r@[i]).0@ != (#[trigger] r@[j]).0@,
{
    dict.iter().collect()
}

/// Calls `Document::with_version`. Claimed is that the document is new: it
/// has this version, and no objects and no trailer yet.
#[verifier::external_body]
pub(crate) fn blank_document(version: &str) -> (doc: lopdf::Document)
    ensures
        pdf(doc) == Pdf::blank(version@),
        version_of(doc) == version@,
{
    lopdf::Document::with_version(version)
}

/// Reads the public field `max_id` of `lopdf::Document`.
#[verifier::external_body]
pub(crate) fn max_id(doc: &lopdf::Document) -> (r: u32)
    ensures
        r == last_id(*doc),
{
    doc.max_id
}

/// Calls `BTreeMap::keys` on the public field `objects` of
/// `lopdf::Document`. Claimed is that it hands out the numbers of the
/// document's objects, all of them and no others.
#[verifier::external_body]
pub(crate) fn ids_of(doc: &lopdf::Document) -> (r: Vec<(u32, u16)>)
    ensures
        r@.to_set() == objects_in(*doc).dom(),
{
    doc.objects.keys().copied().collect()
}

/// `Document::get_object` hands out the object with a number, following
/// references, and fails where there is none or where too many references
/// follow each other.
pub assume_specification[ lopdf::Document::get_object ](
    doc: &lopdf::Document,
    id: (u32, u16),
) -> (r: Result<&lopdf::Object, lopdf::Error>)
    ensures
        match r {
            Ok(object) => resolved(objects_in(*doc), id) == Some(value_of(*object)),
            Err(_) => resolved(objects_in(*doc), id) == None::<Value>,
        },
;

/// `Document::new_object_id` gives away the next number, and changes
/// nothing else.
pub assume_specification[ lopdf::Document::new_object_id ](doc: &mut lopdf::Document) -> (r: (
    u32,
    u16,
))
    requires
        last_id(*old(doc)) < u32::MAX,
    ensures
        r == pdf(*old(doc)).next(),
        pdf(*final(doc)) == (Pdf { last: pdf(*old(doc)).last + 1, ..pdf(*old(doc)) }),
;

/// Calls `Document::add_object`. Claimed is that the object is added under
/// the next number, which is returned, and that nothing else changes.
#[verifier::external_body]
pub(crate) fn add_object(doc: &mut lopdf::Document, object: lopdf::Object) -> (r: (u32, u16))
    requires
        last_id(*old(doc)) < u32::MAX,
    ensures
        r == pdf(*old(doc)).next(),
        pdf(*final(doc)) == pdf(*old(doc)).with(value_of(object)),
{
    doc.add_object(object)
}

/// Calls `BTreeMap::insert` on the public field `objects` of
/// `lopdf::Document`. Claimed is that the object stands under its number
/// then, and that nothing else changes.
#[verifier::external_body]
pub(crate) fn put_object(doc: &mut lopdf::Document, id: (u32, u16), object: lopdf::Object)
    ensures
        pdf(*final(doc)) == (Pdf {
            objects: objects_in(*old(doc)).insert(id, value_of(object)),
            ..pdf(*old(doc))
        }),
{
    doc.objects.insert(id, object);
}

/// Calls `Dictionary::set` on the public field `trailer` of
/// `lopdf::Document`. Claimed is that the trailer has the entry then, and
/// that nothing else changes.
#[verifier::external_body]
pub(crate) fn set_trailer(doc: &mut lopdf::Document, key: &[u8], value: lopdf::Object)
    ensures
        pdf(*final(doc)) == (Pdf {
            trailer: with_entry(trailer_in(*old(doc)), key@, value_of(value)),
            ..pdf(*old(doc))
        }),
{
    doc.trailer.set(key, value);
}

/// Calls `Document::page_iter`. Claimed is that the pages that it hands out
/// depend on the trailer and the objects alone.
#[verifier::external_body]
pub(crate) fn pages_of(doc: &lopdf::Document) -> (r: Vec<(u32, u16)>)
    ensures
        r@ == page_ids(trailer_in(*doc), objects_in(*doc)),
{
    let mut r = Vec::new();
    for id in doc.page_iter() {
        r.push(id);
    }
    r
}

/// Calls `Stream::decompressed_content` on the stream with this dictionary
/// and these bytes. Claimed is that what it returns, or that it fails,
/// depends on these two alone. The stream is asked to be one on which no
/// number of a decoder grows out of its bounds; memory is taken to suffice.
#[verifier::external_body]
pub(crate) fn decompress(dict: lopdf::Dictionary, content: Vec<u8>) -> (r: Result<
    Vec<u8>,
    lopdf::Error,
>)
    requires
        harmless(entries_of(dict), content@),
    ensures
        match r {
            Ok(bytes) => unpacked(entries_of(dict), content@) == Some(bytes@),
            Err(_) => unpacked(entries_of(dict), content@) == None::<Seq<u8>>,
        },
{
    lopdf::Stream::new(dict, content).decompressed_content()
}

/// `Document::get_page_content` joins the decoded streams of a page.
/// Claimed is that the bytes, or that there are none to be had, depend on
/// the objects of the document alone. The streams are asked to be ones on
/// which no number of a decoder grows out of its bounds; memory is taken to
/// suffice.
pub assume_specification[ lopdf::Document::get_page_content ](
    doc: &lopdf::Document,
    page: (u32, u16),
) -> (r: Result<Vec<u8>, lopdf::Error>)
    requires
        decodable(objects_in(*doc), page),
    ensures
        match r {
            Ok(bytes) => page_content(objects_in(*doc), page) == Some(bytes@),
            Err(_) => page_content(objects_in(*doc), page) == None::<Seq<u8>>,
        },
;

} // verus!
