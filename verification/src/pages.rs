//! The pages of a source document: how large they are, and how one becomes
//! a form that another document can show.
use crate::copying::{
    deep_copied, extends, lemma_deep_copy_is_faithful, lemma_deep_copy_keeps_objects,
    lemma_extends_on, lemma_position, lemma_same_among_more, lemma_with, same, tidy, try_deep_copy,
};
use crate::decoding::{can_decode, decodable};
use crate::pdf::{
    add_object, entries_of, look_at, lookup, max_id, object_of, objects_in, page_content, pdf,
    resolved, set_entry, stream_object, stream_value, value_of, values_of, with_entry, Node, Pieces,
    Pdf, Value,
};
use crate::single::{whole, Single};
use vstd::prelude::*;
use vstd::string::*;
use vstd::utf8::*;

verus! {

/// 595, the width of a page in points where a page does not say.
pub const PAGE_W: u32 = 0x4414_c000;

/// 842, the height of a page in points where a page does not say.
pub const PAGE_H: u32 = 0x4452_8000;

/// Why a part could not be made.
pub enum PartError {
    /// There is no page with the index of a strip.
    PageOutOfRange,
    /// The page has no object.
    NoPage(lopdf::Error),
    /// The page's object is no dictionary.
    NoDictionary(lopdf::Error),
    /// The page's content cannot be had.
    NoContent(lopdf::Error),
}

/// The kinds of `PartError`.
pub enum Failure {
    PageOutOfRange,
    NoPage,
    NoDictionary,
    NoContent,
}

impl PartError {
    pub open spec fn failure(self) -> Failure {
        match self {
            PartError::PageOutOfRange => Failure::PageOutOfRange,
            PartError::NoPage(_) => Failure::NoPage,
            PartError::NoDictionary(_) => Failure::NoDictionary,
            PartError::NoContent(_) => Failure::NoContent,
        }
    }
}

/// The number that a value is.
pub open spec fn number(v: Value) -> Option<Single> {
    match v {
        Value::Integer(n) => Some(
            if n < 0 {
                whole(-n).neg()
            } else {
                whole(n as int)
            },
        ),
        Value::Real(x) => Some(x),
        _ => None,
    }
}

/// The width and the height of a page: the third and the fourth number of
/// its `MediaBox`, or those of a page that does not say.
pub open spec fn dims(objects: Map<(u32, u16), Value>, page: (u32, u16)) -> (Single, Single) {
    let default = (Single { bits: PAGE_W }, Single { bits: PAGE_H });
    match resolved(objects, page) {
        Some(Value::Dictionary(entries)) => match lookup(entries, "MediaBox".spec_bytes()) {
            Some(Value::Array(items)) => if items.len() > 3 && number(items[2]) is Some && number(
                items[3],
            ) is Some {
                (number(items[2])->0, number(items[3])->0)
            } else {
                default
            },
            _ => default,
        },
        _ => default,
    }
}

/// The entries of the form that shows a page of this size, with the copy of
/// the page's resources where it has some.
pub open spec fn form_entries(width: Single, height: Single, resources: Option<Value>) -> Seq<
    (Seq<u8>, Value),
> {
    let zero = Value::Real(Single { bits: 0 });
    let entries = seq![
        ("Type".spec_bytes(), Value::Name("XObject".spec_bytes())),
        ("Subtype".spec_bytes(), Value::Name("Form".spec_bytes())),
        ("FormType".spec_bytes(), Value::Integer(1)),
        (
            "BBox".spec_bytes(),
            Value::Array(seq![zero, zero, Value::Real(width), Value::Real(height)]),
        ),
    ];
    match resources {
        None => entries,
        Some(copy) => entries.push(("Resources".spec_bytes(), copy)),
    }
}

/// A document with one more stream, where there is a number for it, and
/// that number.
pub open spec fn with_stream(entries: Seq<(Seq<u8>, Value)>, bytes: Seq<u8>, p: Pdf) -> Option<
    ((u32, u16), Pdf),
> {
    if p.last < u32::MAX {
        Some((p.next(), p.with(stream_value(entries, bytes))))
    } else {
        None
    }
}

/// The document `p` with a page added as a form, and the number of the
/// form; or why that fails. There is nothing where the page's content is
/// not to be decoded, or where numbers run out.
pub open spec fn embedded(objects: Map<(u32, u16), Value>, page: (u32, u16), p: Pdf) -> Option<
    Result<((u32, u16), Pdf), Failure>,
> {
    match resolved(objects, page) {
        None => Some(Err(Failure::NoPage)),
        Some(Value::Dictionary(entries)) => if !decodable(objects, page) {
            None
        } else {
            match page_content(objects, page) {
                None => Some(Err(Failure::NoContent)),
                Some(bytes) => {
                    let (width, height) = dims(objects, page);
                    let made = match lookup(entries, "Resources".spec_bytes()) {
                        None => with_stream(form_entries(width, height, None), bytes, p),
                        Some(resources) => match deep_copied(objects, resources, p) {
                            None => None,
                            Some((copy, q)) => with_stream(
                                form_entries(width, height, Some(copy)),
                                bytes,
                                q,
                            ),
                        },
                    };
                    match made {
                        None => None,
                        Some(r) => Some(Ok(r)),
                    }
                },
            }
        },
        Some(_) => Some(Err(Failure::NoDictionary)),
    }
}

/// Embedding a page only adds objects, the form under its number among
/// them.
pub proof fn lemma_embedding_keeps_objects(
    objects: Map<(u32, u16), Value>,
    page: (u32, u16),
    p: Pdf,
)
    requires
        p.wf(),
        embedded(objects, page, p) is Some,
        embedded(objects, page, p)->0 is Ok,
    ensures
        ({
            let (id, q) = embedded(objects, page, p)->0->Ok_0;
            &&& q.wf()
            &&& extends(q, p)
            &&& !p.objects.contains_key(id)
            &&& q.objects.contains_key(id)
            &&& q.objects[id] is Stream
        }),
{
    let entries = resolved(objects, page)->0->Dictionary_0;
    let bytes = page_content(objects, page)->0;
    let (width, height) = dims(objects, page);
    match lookup(entries, "Resources".spec_bytes()) {
        None => {
            lemma_with(p, stream_value(form_entries(width, height, None), bytes));
        },
        Some(resources) => {
            let (copy, q) = deep_copied(objects, resources, p)->0;
            lemma_deep_copy_keeps_objects(objects, resources, p);
            let v = stream_value(form_entries(width, height, Some(copy)), bytes);
            lemma_with(q, v);
            lemma_extends_on(p, q, q.with(v));
        },
    }
}

/// The form of a page shows what the page shows: it has the page's content,
/// byte for byte, and resources that mean the same as the page's, however
/// far references are followed.
pub proof fn lemma_form_is_faithful(
    objects: Map<(u32, u16), Value>,
    page: (u32, u16),
    p: Pdf,
    depth: nat,
)
    requires
        p.wf(),
        objects.dom().finite(),
        embedded(objects, page, p) is Some,
        embedded(objects, page, p)->0 is Ok,
        match lookup(resolved(objects, page)->0->Dictionary_0, "Resources".spec_bytes()) {
            Some(resources) => tidy(objects, resources, depth),
            None => true,
        },
    ensures
        ({
            let (id, q) = embedded(objects, page, p)->0->Ok_0;
            let form = q.objects[id];
            let key = "Resources".spec_bytes();
            &&& form is Stream
            &&& Some(form->Stream_1) == page_content(objects, page)
            &&& match lookup(resolved(objects, page)->0->Dictionary_0, key) {
                Some(resources) => lookup(form->Stream_0, key) is Some && same(
                    objects,
                    resources,
                    q.objects,
                    lookup(form->Stream_0, key)->0,
                    depth,
                ),
                None => lookup(form->Stream_0, key) is None,
            }
        }),
{
    let key = "Resources".spec_bytes();
    let length = "Length".spec_bytes();
    let entries = resolved(objects, page)->0->Dictionary_0;
    let bytes = page_content(objects, page)->0;
    let (width, height) = dims(objects, page);
    let (id, all) = embedded(objects, page, p)->0->Ok_0;
    let n = Value::Integer(bytes.len() as i64);
    lemma_form_keys();
    lemma_length_differs();
    match lookup(entries, key) {
        None => {
            let e = form_entries(width, height, None);
            lemma_with(p, stream_value(e, bytes));
            lemma_new_key(e, length, n);
            lemma_position(e.push((length, n)), key);
        },
        Some(resources) => {
            let (copy, q) = deep_copied(objects, resources, p)->0;
            lemma_deep_copy_keeps_objects(objects, resources, p);
            lemma_deep_copy_is_faithful(objects, resources, p, depth);
            let e = form_entries(width, height, Some(copy));
            let v = stream_value(e, bytes);
            lemma_with(q, v);
            lemma_same_among_more(objects, resources, q.objects, q.with(v).objects, copy, depth);
            lemma_new_key(e, length, n);
            let all_entries = e.push((length, n));
            assert(all_entries[4] == (key, copy));
            lemma_position(all_entries, key);
        },
    }
}

/// The key of a stream's length is none of the keys of a form.
pub(crate) proof fn lemma_length_differs()
    ensures
        "Length".spec_bytes() != "Type".spec_bytes(),
        "Length".spec_bytes() != "Subtype".spec_bytes(),
        "Length".spec_bytes() != "FormType".spec_bytes(),
        "Length".spec_bytes() != "BBox".spec_bytes(),
        "Length".spec_bytes() != "Resources".spec_bytes(),
{
    reveal_strlit("Length");
    reveal_strlit("Type");
    reveal_strlit("Subtype");
    reveal_strlit("FormType");
    reveal_strlit("BBox");
    reveal_strlit("Resources");
    assert("Length"@.len() == 6);
    assert("Type"@.len() == 4);
    assert("Subtype"@.len() == 7);
    assert("FormType"@.len() == 8);
    assert("BBox"@.len() == 4);
    assert("Resources"@.len() == 9);
    lemma_bytes_differ("Length", "Type");
    lemma_bytes_differ("Length", "Subtype");
    lemma_bytes_differ("Length", "FormType");
    lemma_bytes_differ("Length", "BBox");
    lemma_bytes_differ("Length", "Resources");
}

/// Different texts have different bytes.
pub(crate) proof fn lemma_bytes_differ(a: &str, b: &str)
    requires
        a@ != b@,
    ensures
        a.spec_bytes() != b.spec_bytes(),
{
    encode_utf8_decode_utf8(a@);
    encode_utf8_decode_utf8(b@);
}

/// A key that is new comes last.
pub(crate) proof fn lemma_new_key(entries: Seq<(Seq<u8>, Value)>, key: Seq<u8>, value: Value)
    requires
        forall|i: int| 0 <= i < entries.len() ==> (#[trigger] entries[i]).0 != key,
    ensures
        with_entry(entries, key, value) == entries.push((key, value)),
{
    lemma_position(entries, key);
}

/// The keys of a form differ.
pub(crate) proof fn lemma_form_keys()
    ensures
        "Type".spec_bytes() != "Subtype".spec_bytes(),
        "Type".spec_bytes() != "FormType".spec_bytes(),
        "Type".spec_bytes() != "BBox".spec_bytes(),
        "Type".spec_bytes() != "Resources".spec_bytes(),
        "Subtype".spec_bytes() != "FormType".spec_bytes(),
        "Subtype".spec_bytes() != "BBox".spec_bytes(),
        "Subtype".spec_bytes() != "Resources".spec_bytes(),
        "FormType".spec_bytes() != "BBox".spec_bytes(),
        "FormType".spec_bytes() != "Resources".spec_bytes(),
        "BBox".spec_bytes() != "Resources".spec_bytes(),
{
    reveal_strlit("Type");
    reveal_strlit("Subtype");
    reveal_strlit("FormType");
    reveal_strlit("BBox");
    reveal_strlit("Resources");
    assert("Type"@[0] != "BBox"@[0]);
    lemma_bytes_differ("Type", "Subtype");
    lemma_bytes_differ("Type", "FormType");
    lemma_bytes_differ("Type", "BBox");
    lemma_bytes_differ("Type", "Resources");
    lemma_bytes_differ("Subtype", "FormType");
    lemma_bytes_differ("Subtype", "BBox");
    lemma_bytes_differ("Subtype", "Resources");
    lemma_bytes_differ("FormType", "BBox");
    lemma_bytes_differ("FormType", "Resources");
    lemma_bytes_differ("BBox", "Resources");
}

/// The name object with this text.
pub(crate) fn name_object(text: &str) -> (r: lopdf::Object)
    ensures
        value_of(r) == Value::Name(text.spec_bytes()),
{
    object_of(Pieces::Name(text.as_bytes_vec()))
}

/// Reads a number.
fn read_number(object: &lopdf::Object) -> (r: Option<Single>)
    ensures
        r == number(value_of(*object)),
{
    match look_at(object) {
        Node::Integer(n) => Some(Single::from_i64(n)),
        Node::Real(x) => Some(x),
        _ => None,
    }
}

/// The width and the height of a page, in points.
pub fn page_dims(src: &lopdf::Document, page_id: (u32, u16)) -> (r: (Single, Single))
    ensures
        r == dims(objects_in(*src), page_id),
{
    let default = (Single { bits: PAGE_W }, Single { bits: PAGE_H });
    let object = match src.get_object(page_id) {
        Ok(o) => o,
        Err(_) => {
            return default;
        },
    };
    let dict = match object.as_dict() {
        Ok(d) => d,
        Err(_) => {
            return default;
        },
    };
    let media_box = match dict.get("MediaBox".as_bytes()) {
        Ok(o) => o,
        Err(_) => {
            return default;
        },
    };
    match media_box.as_array() {
        Err(_) => default,
        Ok(items) => {
            assert(values_of(items@).len() == items@.len());
            if items.len() <= 3 {
                return default;
            }
            match (read_number(&items[2]), read_number(&items[3])) {
                (Some(w), Some(h)) => (w, h),
                _ => default,
            }
        },
    }
}

/// The dictionary of the form that shows a page.
fn form_dictionary(width: Single, height: Single, resources: Option<lopdf::Object>) -> (dict:
    lopdf::Dictionary)
    ensures
        entries_of(dict) == form_entries(
            width,
            height,
            match resources {
                Some(copy) => Some(value_of(copy)),
                None => None,
            },
        ),
{
    let mut dict = lopdf::Dictionary::new();
    let mut bbox: Vec<lopdf::Object> = Vec::new();
    bbox.push(object_of(Pieces::Real(Single { bits: 0 })));
    bbox.push(object_of(Pieces::Real(Single { bits: 0 })));
    bbox.push(object_of(Pieces::Real(width)));
    bbox.push(object_of(Pieces::Real(height)));
    proof {
        lemma_form_keys();
        let zero = Value::Real(Single { bits: 0 });
        assert(values_of(bbox@) =~= seq![zero, zero, Value::Real(width), Value::Real(height)]);
    }
    let ghost e0 = entries_of(dict);
    set_entry(&mut dict, "Type".as_bytes(), name_object("XObject"));
    let ghost e1 = entries_of(dict);
    proof {
        lemma_new_key(e0, "Type".spec_bytes(), Value::Name("XObject".spec_bytes()));
    }
    set_entry(&mut dict, "Subtype".as_bytes(), name_object("Form"));
    let ghost e2 = entries_of(dict);
    proof {
        lemma_new_key(e1, "Subtype".spec_bytes(), Value::Name("Form".spec_bytes()));
    }
    set_entry(&mut dict, "FormType".as_bytes(), object_of(Pieces::Integer(1)));
    let ghost e3 = entries_of(dict);
    proof {
        lemma_new_key(e2, "FormType".spec_bytes(), Value::Integer(1));
    }
    let ghost bbox_value = Value::Array(values_of(bbox@));
    set_entry(&mut dict, "BBox".as_bytes(), object_of(Pieces::Array(bbox)));
    let ghost e4 = entries_of(dict);
    proof {
        lemma_new_key(e3, "BBox".spec_bytes(), bbox_value);
        assert(e4 =~= form_entries(width, height, None));
    }
    if let Some(copy) = resources {
        let ghost v = value_of(copy);
        set_entry(&mut dict, "Resources".as_bytes(), copy);
        proof {
            lemma_new_key(e4, "Resources".spec_bytes(), v);
        }
    }
    dict
}

/// Adds a page of `src` to `out` as a form, where this can be done.
pub fn try_embed_page(src: &lopdf::Document, src_page_id: (u32, u16), out: &mut lopdf::Document)
    -> (r: Option<Result<(u32, u16), PartError>>)
    ensures
        match embedded(objects_in(*src), src_page_id, pdf(*old(out))) {
            None => r is None,
            Some(Err(failure)) => r is Some && r->0 is Err && r->0->Err_0.failure() == failure
                && pdf(*final(out)) == pdf(*old(out)),
            Some(Ok((id, q))) => r is Some && r->0 is Ok && r->0->Ok_0 == id && pdf(*final(out))
                == q,
        },
{
    let object = match src.get_object(src_page_id) {
        Ok(o) => o,
        Err(e) => {
            return Some(Err(PartError::NoPage(e)));
        },
    };
    let dict = match object.as_dict() {
        Ok(d) => d,
        Err(e) => {
            return Some(Err(PartError::NoDictionary(e)));
        },
    };
    if !can_decode(src, src_page_id) {
        return None;
    }
    let content = match src.get_page_content(src_page_id) {
        Ok(c) => c,
        Err(e) => {
            return Some(Err(PartError::NoContent(e)));
        },
    };
    let (width, height) = page_dims(src, src_page_id);
    let resources = match dict.get("Resources".as_bytes()) {
        Err(_) => None,
        Ok(found) => match try_deep_copy(src, found, out) {
            None => {
                return None;
            },
            Some(copy) => Some(copy),
        },
    };
    let form = form_dictionary(width, height, resources);
    if max_id(out) == u32::MAX {
        return None;
    }
    let id = add_object(out, stream_object(form, content));
    Some(Ok(id))
}

/// Adds a page of `src` to `out` as a form.
pub fn embed_page_as_xobject(
    src: &lopdf::Document,
    src_page_id: (u32, u16),
    out: &mut lopdf::Document,
) -> (r: Result<(u32, u16), PartError>)
    requires
        embedded(objects_in(*src), src_page_id, pdf(*old(out))) is Some,
    ensures
        match embedded(objects_in(*src), src_page_id, pdf(*old(out)))->0 {
            Err(failure) => r is Err && r->Err_0.failure() == failure && pdf(*final(out)) == pdf(
                *old(out),
            ),
            Ok((id, q)) => r == Ok::<(u32, u16), PartError>(id) && pdf(*final(out)) == q,
        },
{
    match try_embed_page(src, src_page_id, out) {
        Some(r) => r,
        None => Err(PartError::PageOutOfRange),
    }
}

} // verus!
