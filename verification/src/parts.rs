//! Making the document of one part, and of all four.
use crate::copying::{extends, kept, lemma_with};
use crate::detect::{Band, Cut, CutView, Protrusion, StripShape};
use crate::layout::{
    compute_page_breaks, find_inner_width, find_size, group_strips, header_of, inner_width,
    lemma_page_is_open, opened, opened_at, page_breaks, page_text, paged, scaled_height, shown,
    size_of, starts, strips_in, views, whole_page, write_page, Strip, StripRef, ONE,
};
use crate::pages::{
    dims, embedded, lemma_bytes_differ, lemma_embedding_keeps_objects, lemma_new_key, name_object,
    page_dims, try_embed_page, Failure, PartError,
};
use crate::pdf::{
    add_object, blank_document, entries_of, lookup, max_id, object_of, objects_in, page_ids, pages_of, pdf, position,
    put_object, set_entry, set_trailer, stream_object, stream_value, trailer_in, value_of,
    values_of, with_entry, Pieces, Pdf, Value,
};
use crate::rounding::MAG_INF;
use crate::single::Single;
use crate::text::{form_name, lemma_names_differ, name_text};
use std::collections::BTreeMap;
use vstd::prelude::*;
use vstd::string::*;

verus! {

/// The version of the documents that are made.
pub open spec fn version() -> Seq<char> {
    "1.5"@
}

/// The number of the object that lists the pages: the first one.
pub open spec fn root_id() -> (u32, u16) {
    (1u32, 0u16)
}

/// A document under way: the forms that show source pages, by the indices
/// of these, and what it is so far.
#[verifier::ext_equal]
pub struct Draft {
    pub forms: Map<u32, (u32, u16)>,
    pub doc: Pdf,
}

/// A document in which only the number of the list of pages is given away.
pub open spec fn new_draft() -> Draft {
    Draft { forms: Map::empty(), doc: Pdf { last: 1, ..Pdf::blank(version()) } }
}

/// The draft with a form for one more source page, or why that fails.
/// There is nothing where the page cannot be embedded at all.
pub open spec fn with_page(
    objects: Map<(u32, u16), Value>,
    pages: Seq<(u32, u16)>,
    index: u32,
    draft: Draft,
) -> Option<Result<Draft, Failure>> {
    if draft.forms.contains_key(index) {
        Some(Ok(draft))
    } else if index >= pages.len() {
        Some(Err(Failure::PageOutOfRange))
    } else {
        match embedded(objects, pages[index as int], draft.doc) {
            None => None,
            Some(Err(failure)) => Some(Err(failure)),
            Some(Ok((id, doc))) => Some(
                Ok(Draft { forms: draft.forms.insert(index, id), doc }),
            ),
        }
    }
}

/// The draft with forms for the source pages of the first `k` entries, or
/// the first failure.
pub open spec fn drafted(
    objects: Map<(u32, u16), Value>,
    pages: Seq<(u32, u16)>,
    entries: Seq<(u32, CutView)>,
    k: int,
) -> Option<Result<Draft, Failure>>
    decreases k,
{
    if k <= 0 {
        Some(Ok(new_draft()))
    } else {
        match drafted(objects, pages, entries, k - 1) {
            Some(Ok(draft)) => with_page(objects, pages, entries[k - 1].0, draft),
            other => other,
        }
    }
}

/// How much larger a source page is shown: it fills the width of a page.
pub open spec fn scale_of(objects: Map<(u32, u16), Value>, page: (u32, u16)) -> Single {
    inner_width().over(dims(objects, page).0)
}

/// The entries, by what their cuts say.
pub open spec fn cuts(entries: Seq<(u32, Cut)>) -> Seq<(u32, CutView)> {
    entries.map_values(|e: (u32, Cut)| (e.0, e.1@))
}

/// The strip of an entry: its shape, as large as the width of a page asks
/// for; or the whole source page as it is.
pub open spec fn strip_of(
    objects: Map<(u32, u16), Value>,
    pages: Seq<(u32, u16)>,
    forms: Map<u32, (u32, u16)>,
    entry: (u32, CutView),
) -> Strip {
    let page = pages[entry.0 as int];
    match entry.1 {
        CutView::Strip(band, protrusions) => {
            let scale = scale_of(objects, page);
            Strip {
                form: forms[entry.0],
                band,
                protrusions,
                scale,
                height: scaled_height(band, scale),
                page: None,
            }
        },
        CutView::Page => {
            let (width, height) = dims(objects, page);
            whole_page(forms[entry.0], width, height)
        },
    }
}

/// The strips of the first `k` entries.
pub open spec fn strips_of(
    objects: Map<(u32, u16), Value>,
    pages: Seq<(u32, u16)>,
    forms: Map<u32, (u32, u16)>,
    entries: Seq<(u32, CutView)>,
    k: int,
) -> Seq<Strip> {
    entries.take(k).map_values(|e: (u32, CutView)| strip_of(objects, pages, forms, e))
}

/// The forms of a page with these strips, numbered from `first`.
pub open spec fn page_forms(strips: Seq<Strip>, first: nat) -> Seq<(Seq<u8>, Value)> {
    Seq::new(
        strips.len(),
        |i: int| (form_name((first + i) as nat), Value::Reference(strips[i].form)),
    )
}

/// The rectangle of a page of this size.
pub open spec fn box_value(size: (Single, Single)) -> Value {
    Value::Array(
        seq![
            Value::Integer(0),
            Value::Integer(0),
            Value::Real(size.0),
            Value::Real(size.1),
        ],
    )
}

/// A page of this size. It is cropped to its own rectangle, and so are the
/// forms that it shows.
pub open spec fn page_value(
    forms: Seq<(Seq<u8>, Value)>,
    content: (u32, u16),
    size: (Single, Single),
) -> Value {
    Value::Dictionary(
        seq![
            ("Type".spec_bytes(), Value::Name("Page".spec_bytes())),
            ("Parent".spec_bytes(), Value::Reference(root_id())),
            ("MediaBox".spec_bytes(), box_value(size)),
            ("CropBox".spec_bytes(), box_value(size)),
            (
                "Resources".spec_bytes(),
                Value::Dictionary(seq![("XObject".spec_bytes(), Value::Dictionary(forms))]),
            ),
            ("Contents".spec_bytes(), Value::Reference(content)),
        ],
    )
}

/// The list of pages.
pub open spec fn pages_value(kids: Seq<(u32, u16)>) -> Value {
    Value::Dictionary(
        seq![
            ("Type".spec_bytes(), Value::Name("Pages".spec_bytes())),
            (
                "Kids".spec_bytes(),
                Value::Array(kids.map_values(|id: (u32, u16)| Value::Reference(id))),
            ),
            ("Count".spec_bytes(), Value::Integer(kids.len() as i64)),
        ],
    )
}

/// The catalog.
pub open spec fn catalog_value() -> Value {
    Value::Dictionary(
        seq![
            ("Type".spec_bytes(), Value::Name("Catalog".spec_bytes())),
            ("Pages".spec_bytes(), Value::Reference(root_id())),
        ],
    )
}

/// A document with some of its pages: what it is so far, the numbers of the
/// pages, and how many forms they show.
#[verifier::ext_equal]
pub struct Rendered {
    pub doc: Pdf,
    pub kids: Seq<(u32, u16)>,
    pub shown: nat,
}

/// The document with one more page, which shows these strips.
pub open spec fn with_strips(r: Rendered, strips: Seq<Strip>) -> Rendered {
    let content = r.doc.with(
        stream_value(Seq::empty(), page_text(strips, r.shown, strips.len() as int)),
    );
    Rendered {
        doc: content.with(
            page_value(page_forms(strips, r.shown), r.doc.next(), size_of(strips)),
        ),
        kids: r.kids.push(content.next()),
        shown: r.shown + strips.len(),
    }
}

/// The document with the first `k` of these pages, without those that show
/// nothing.
pub open spec fn rendered(groups: Seq<Seq<Strip>>, doc: Pdf, k: int) -> Rendered
    decreases k,
{
    if k <= 0 {
        Rendered { doc, kids: Seq::empty(), shown: 0 }
    } else {
        let before = rendered(groups, doc, k - 1);
        if groups[k - 1].len() == 0 {
            before
        } else {
            with_strips(before, groups[k - 1])
        }
    }
}

/// The finished document: the list of pages, the catalog and the trailer
/// are there.
pub open spec fn finished(r: Rendered) -> Pdf {
    let listed = Pdf { objects: r.doc.objects.insert(root_id(), pages_value(r.kids)), ..r.doc };
    let all = listed.with(catalog_value());
    Pdf {
        trailer: with_entry(
            all.trailer,
            "Root".spec_bytes(),
            Value::Reference(listed.next()),
        ),
        ..all
    }
}

/// The document of a part and how many pages it has, or why it cannot be
/// made. There is nothing where a page cannot be embedded at all or where
/// numbers run out.
pub open spec fn part(
    objects: Map<(u32, u16), Value>,
    pages: Seq<(u32, u16)>,
    entries: Seq<(u32, CutView)>,
    header: Option<(Band, Seq<Protrusion>)>,
    breaks: Seq<bool>,
) -> Option<Result<(Pdf, nat), Failure>> {
    let n = entries.len() as int;
    match drafted(objects, pages, entries, n) {
        None => None,
        Some(Err(failure)) => Some(Err(failure)),
        Some(Ok(draft)) => {
            let strips = strips_of(objects, pages, draft.forms, entries, n);
            let groups = paged(strips, header, breaks, n);
            let r = rendered(groups, draft.doc, groups.len() as int);
            let doc = finished(r);
            if doc.last <= u32::MAX {
                Some(Ok((doc, r.kids.len())))
            } else {
                None
            }
        },
    }
}

/// Adds an entry whose key is new.
fn add_entry(dict: &mut lopdf::Dictionary, key: &str, value: lopdf::Object)
    requires
        forall|i: int|
            0 <= i < entries_of(*old(dict)).len() ==> (#[trigger] entries_of(*old(dict))[i]).0
                != key.spec_bytes(),
    ensures
        entries_of(*final(dict)) == entries_of(*old(dict)).push(
            (key.spec_bytes(), value_of(value)),
        ),
{
    proof {
        lemma_new_key(entries_of(*dict), key.spec_bytes(), value_of(value));
    }
    set_entry(dict, key.as_bytes(), value);
}

/// The dictionary of the forms of a page.
fn forms_dictionary(strips: &Vec<StripRef>, first: usize) -> (dict: lopdf::Dictionary)
    requires
        first + strips@.len() <= usize::MAX,
    ensures
        entries_of(dict) == page_forms(strips_in(strips@), first as nat),
{
    let mut dict = lopdf::Dictionary::new();
    let mut i: usize = 0;
    while i < strips.len()
        invariant
            first + strips@.len() <= usize::MAX,
            i <= strips@.len(),
            entries_of(dict).len() == i,
            forall|k: int|
                0 <= k < i ==> #[trigger] entries_of(dict)[k] == (
                    form_name((first + k) as nat),
                    Value::Reference(strips@[k]@.form),
                ),
        decreases strips@.len() - i,
    {
        let name = name_text(first + i);
        let value = object_of(Pieces::Reference(strips[i].form));
        let ghost before = entries_of(dict);
        proof {
            assert forall|k: int| 0 <= k < before.len() implies (#[trigger] before[k]).0
                != name@ by {
                lemma_names_differ((first + k) as nat, (first + i) as nat);
            }
            lemma_new_key(before, name@, value_of(value));
        }
        set_entry(&mut dict, name.as_slice(), value);
        i = i + 1;
    }
    assert(entries_of(dict) =~= page_forms(strips_in(strips@), first as nat));
    dict
}

/// The keys of a page differ.
pub(crate) proof fn lemma_page_keys()
    ensures
        "Type".spec_bytes() != "Parent".spec_bytes(),
        "Type".spec_bytes() != "MediaBox".spec_bytes(),
        "Type".spec_bytes() != "CropBox".spec_bytes(),
        "Type".spec_bytes() != "Resources".spec_bytes(),
        "Type".spec_bytes() != "Contents".spec_bytes(),
        "Parent".spec_bytes() != "MediaBox".spec_bytes(),
        "Parent".spec_bytes() != "CropBox".spec_bytes(),
        "Parent".spec_bytes() != "Resources".spec_bytes(),
        "Parent".spec_bytes() != "Contents".spec_bytes(),
        "MediaBox".spec_bytes() != "CropBox".spec_bytes(),
        "MediaBox".spec_bytes() != "Resources".spec_bytes(),
        "MediaBox".spec_bytes() != "Contents".spec_bytes(),
        "CropBox".spec_bytes() != "Resources".spec_bytes(),
        "CropBox".spec_bytes() != "Contents".spec_bytes(),
        "Resources".spec_bytes() != "Contents".spec_bytes(),
{
    reveal_strlit("Type");
    reveal_strlit("Parent");
    reveal_strlit("MediaBox");
    reveal_strlit("CropBox");
    reveal_strlit("Resources");
    reveal_strlit("Contents");
    assert("Type"@.len() == 4);
    assert("Parent"@.len() == 6);
    assert("MediaBox"@.len() == 8);
    assert("CropBox"@.len() == 7);
    assert("Resources"@.len() == 9);
    assert("Contents"@.len() == 8);
    assert("MediaBox"@[0] != "Contents"@[0]);
    lemma_bytes_differ("Type", "Parent");
    lemma_bytes_differ("Type", "MediaBox");
    lemma_bytes_differ("Type", "CropBox");
    lemma_bytes_differ("Type", "Resources");
    lemma_bytes_differ("Type", "Contents");
    lemma_bytes_differ("Parent", "MediaBox");
    lemma_bytes_differ("Parent", "CropBox");
    lemma_bytes_differ("Parent", "Resources");
    lemma_bytes_differ("Parent", "Contents");
    lemma_bytes_differ("MediaBox", "CropBox");
    lemma_bytes_differ("MediaBox", "Resources");
    lemma_bytes_differ("MediaBox", "Contents");
    lemma_bytes_differ("CropBox", "Resources");
    lemma_bytes_differ("CropBox", "Contents");
    lemma_bytes_differ("Resources", "Contents");
}

/// Makes the rectangle of a page.
fn box_object(size: (Single, Single)) -> (r: lopdf::Object)
    ensures
        value_of(r) == box_value(size),
{
    let mut items: Vec<lopdf::Object> = Vec::new();
    items.push(object_of(Pieces::Integer(0)));
    items.push(object_of(Pieces::Integer(0)));
    items.push(object_of(Pieces::Real(size.0)));
    items.push(object_of(Pieces::Real(size.1)));
    proof {
        assert(values_of(items@) =~= box_value(size)->Array_0);
    }
    object_of(Pieces::Array(items))
}

/// Makes a page that shows these strips.
fn page_object(strips: &Vec<StripRef>, first: usize, content: (u32, u16)) -> (r: lopdf::Object)
    requires
        strips@.len() > 0,
        first + strips@.len() <= usize::MAX,
    ensures
        value_of(r) == page_value(
            page_forms(strips_in(strips@), first as nat),
            content,
            size_of(strips_in(strips@)),
        ),
{
    let size = find_size(strips);
    let forms = object_of(Pieces::Dictionary(forms_dictionary(strips, first)));
    let mut resources = lopdf::Dictionary::new();
    add_entry(&mut resources, "XObject", forms);
    proof {
        lemma_page_keys();
        assert(entries_of(resources) =~= seq![
            (
                "XObject".spec_bytes(),
                Value::Dictionary(page_forms(strips_in(strips@), first as nat)),
            ),
        ]);
    }
    let mut dict = lopdf::Dictionary::new();
    add_entry(&mut dict, "Type", name_object("Page"));
    add_entry(&mut dict, "Parent", object_of(Pieces::Reference((1, 0))));
    add_entry(&mut dict, "MediaBox", box_object(size));
    add_entry(&mut dict, "CropBox", box_object(size));
    add_entry(&mut dict, "Resources", object_of(Pieces::Dictionary(resources)));
    add_entry(&mut dict, "Contents", object_of(Pieces::Reference(content)));
    proof {
        assert(entries_of(dict) =~= page_value(
            page_forms(strips_in(strips@), first as nat),
            content,
            size,
        )->Dictionary_0);
    }
    object_of(Pieces::Dictionary(dict))
}

/// Makes the list of pages.
fn pages_object(kids: &Vec<(u32, u16)>) -> (r: lopdf::Object)
    ensures
        value_of(r) == pages_value(kids@),
{
    let mut list: Vec<lopdf::Object> = Vec::new();
    let mut i: usize = 0;
    while i < kids.len()
        invariant
            i <= kids@.len(),
            list@.len() == i,
            forall|k: int|
                0 <= k < i ==> value_of(#[trigger] list@[k]) == Value::Reference(kids@[k]),
        decreases kids@.len() - i,
    {
        list.push(object_of(Pieces::Reference(kids[i])));
        i = i + 1;
    }
    proof {
        reveal_strlit("Type");
        reveal_strlit("Kids");
        reveal_strlit("Count");
        assert("Type"@[0] != "Kids"@[0]);
        lemma_bytes_differ("Type", "Kids");
        lemma_bytes_differ("Type", "Count");
        lemma_bytes_differ("Kids", "Count");
        assert(values_of(list@) =~= kids@.map_values(|id: (u32, u16)| Value::Reference(id)));
    }
    let mut dict = lopdf::Dictionary::new();
    add_entry(&mut dict, "Type", name_object("Pages"));
    add_entry(&mut dict, "Kids", object_of(Pieces::Array(list)));
    add_entry(&mut dict, "Count", object_of(Pieces::Integer(kids.len() as i64)));
    proof {
        assert(entries_of(dict) =~= pages_value(kids@)->Dictionary_0);
    }
    object_of(Pieces::Dictionary(dict))
}

/// Makes the catalog.
fn catalog_object() -> (r: lopdf::Object)
    ensures
        value_of(r) == catalog_value(),
{
    proof {
        reveal_strlit("Type");
        reveal_strlit("Pages");
        lemma_bytes_differ("Type", "Pages");
    }
    let mut dict = lopdf::Dictionary::new();
    add_entry(&mut dict, "Type", name_object("Catalog"));
    add_entry(&mut dict, "Pages", object_of(Pieces::Reference((1, 0))));
    proof {
        assert(entries_of(dict) =~= catalog_value()->Dictionary_0);
    }
    object_of(Pieces::Dictionary(dict))
}

/// A failure stays, and so does that there is nothing.
proof fn lemma_drafted_stops(
    objects: Map<(u32, u16), Value>,
    pages: Seq<(u32, u16)>,
    entries: Seq<(u32, CutView)>,
    k: int,
    n: int,
)
    requires
        0 <= k <= n,
        !(drafted(objects, pages, entries, k) is Some && drafted(
            objects,
            pages,
            entries,
            k,
        )->0 is Ok),
    ensures
        drafted(objects, pages, entries, n) == drafted(objects, pages, entries, k),
    decreases n,
{
    if k < n {
        lemma_drafted_stops(objects, pages, entries, k, n - 1);
    }
}

/// A draft has forms of pages that are there, and one for each entry.
pub(crate) proof fn lemma_drafted_pages(
    objects: Map<(u32, u16), Value>,
    pages: Seq<(u32, u16)>,
    entries: Seq<(u32, CutView)>,
    k: int,
)
    requires
        0 <= k <= entries.len(),
        drafted(objects, pages, entries, k) is Some,
        drafted(objects, pages, entries, k)->0 is Ok,
    ensures
        forall|n: u32| #[trigger]
            drafted(objects, pages, entries, k)->0->Ok_0.forms.contains_key(n) ==> n < pages.len(),
        forall|j: int|
            0 <= j < k ==> drafted(objects, pages, entries, k)->0->Ok_0.forms.contains_key(
                (#[trigger] entries[j]).0,
            ),
    decreases k,
{
    if k > 0 {
        lemma_drafted_pages(objects, pages, entries, k - 1);
        let before = drafted(objects, pages, entries, k - 1)->0->Ok_0;
        let after = drafted(objects, pages, entries, k)->0->Ok_0;
        assert forall|n: u32| #[trigger] after.forms.contains_key(n) implies n < pages.len() by {
            assert(before.forms.contains_key(n) || n == entries[k - 1].0);
        }
        assert forall|j: int| 0 <= j < k implies after.forms.contains_key(
            (#[trigger] entries[j]).0,
        ) by {
            if j < k - 1 {
                assert(before.forms.contains_key(entries[j].0));
            }
        }
    }
}

/// The forms that a cache holds.
spec fn cached_forms(cache: Map<u32, ((u32, u16), (Single, Single))>) -> Map<u32, (u32, u16)> {
    cache.map_values(|c: ((u32, u16), (Single, Single))| c.0)
}

/// Embeds the source pages of all entries, each once, and makes the strips.
fn draft_strips<'a>(
    src: &lopdf::Document,
    src_pages: &Vec<(u32, u16)>,
    entries: &'a Vec<(u32, Cut)>,
    out: &mut lopdf::Document,
) -> (r: Option<Result<Vec<StripRef<'a>>, PartError>>)
    requires
        pdf(*old(out)) == new_draft().doc,
    ensures
        match drafted(objects_in(*src), src_pages@, cuts(entries@), entries@.len() as int) {
            None => r is None,
            Some(Err(failure)) => r is Some && r->0 is Err && r->0->Err_0.failure() == failure,
            Some(Ok(draft)) => {
                &&& r is Some
                &&& r->0 is Ok
                &&& strips_in(r->0->Ok_0@) == strips_of(
                    objects_in(*src),
                    src_pages@,
                    draft.forms,
                    cuts(entries@),
                    entries@.len() as int,
                )
                &&& pdf(*final(out)) == draft.doc
            },
        },
{
    let ghost objects = objects_in(*src);
    let ghost n = entries@.len() as int;
    let ghost list = cuts(entries@);
    let width = find_inner_width();
    let mut cache: BTreeMap<u32, ((u32, u16), (Single, Single))> = BTreeMap::new();
    let mut strips: Vec<StripRef<'a>> = Vec::new();
    let mut i: usize = 0;
    proof {
        assert(cached_forms(cache@) =~= Map::<u32, (u32, u16)>::empty());
        assert(strips_in(strips@) =~= strips_of(objects, src_pages@, cached_forms(cache@), list, 0));
    }
    while i < entries.len()
        invariant
            objects == objects_in(*src),
            n == entries@.len(),
            list == cuts(entries@),
            list.len() == n,
            width == inner_width(),
            i <= entries@.len(),
            drafted(objects, src_pages@, list, i as int) == Some(
                Ok::<Draft, Failure>(Draft { forms: cached_forms(cache@), doc: pdf(*out) }),
            ),
            forall|k: u32| #[trigger]
                cache@.contains_key(k) ==> k < src_pages@.len() && cache@[k].1 == dims(
                    objects,
                    src_pages@[k as int],
                ),
            forall|j: int| 0 <= j < i ==> cache@.contains_key((#[trigger] list[j]).0),
            strips_in(strips@) == strips_of(
                objects,
                src_pages@,
                cached_forms(cache@),
                list,
                i as int,
            ),
        decreases entries@.len() - i,
    {
        let index: u32 = entries[i].0;
        assert(list[i as int] == (index, entries@[i as int].1@));
        let ghost before = cache@;
        let cached: Option<((u32, u16), (Single, Single))> = match cache.get(&index) {
            Some(c) => Some(*c),
            None => None,
        };
        let (form, size) = match cached {
            Some(c) => c,
            None => {
                if index as usize >= src_pages.len() {
                    proof {
                        lemma_drafted_stops(objects, src_pages@, list, i + 1, n);
                    }
                    return Some(Err(PartError::PageOutOfRange));
                }
                let page = src_pages[index as usize];
                let id = match try_embed_page(src, page, out) {
                    None => {
                        proof {
                            lemma_drafted_stops(objects, src_pages@, list, i + 1, n);
                        }
                        return None;
                    },
                    Some(Err(e)) => {
                        proof {
                            lemma_drafted_stops(objects, src_pages@, list, i + 1, n);
                        }
                        return Some(Err(e));
                    },
                    Some(Ok(id)) => id,
                };
                let size = page_dims(src, page);
                cache.insert(index, (id, size));
                proof {
                    assert(cached_forms(cache@) =~= cached_forms(before).insert(index, id));
                }
                (id, size)
            },
        };
        let strip = match &entries[i].1 {
            Cut::Strip(shape) => {
                let scale = width.over(size.0);
                let height = shape.base.y_top.minus(shape.base.y_bot).times(scale);
                StripRef { form, shape: Some(shape), scale, width: size.0, height }
            },
            Cut::Page => StripRef {
                form,
                shape: None,
                scale: Single { bits: ONE },
                width: size.0,
                height: size.1,
            },
        };
        proof {
            let forms = cached_forms(cache@);
            let old_forms = cached_forms(before);
            assert(strip@ == strip_of(objects, src_pages@, forms, list[i as int]));
            let was = strips_of(objects, src_pages@, old_forms, list, i as int);
            let now = strips_of(objects, src_pages@, forms, list, i + 1);
            assert forall|j: int| 0 <= j < i implies now[j] == was[j] by {
                let key = list[j].0;
                assert(before.contains_key(key));
                assert(list.take(i + 1)[j] == list[j]);
                assert(list.take(i as int)[j] == list[j]);
                assert(old_forms[key] == forms[key]);
            }
            assert(strips_in(strips@.push(strip)) =~= strips_in(strips@).push(strip@));
            assert(strips_in(strips@).push(strip@) =~= now);
        }
        strips.push(strip);
        i = i + 1;
    }
    Some(Ok(strips))
}

/// How many strips pages have together.
pub open spec fn strip_count(groups: Seq<Seq<Strip>>) -> nat
    decreases groups.len(),
{
    if groups.len() == 0 {
        0
    } else {
        strip_count(groups.drop_last()) + groups.last().len()
    }
}

proof fn lemma_strips_in_prefix(groups: Seq<Seq<Strip>>, k: int)
    requires
        0 <= k <= groups.len(),
    ensures
        strip_count(groups.take(k)) <= strip_count(groups),
    decreases groups.len(),
{
    if k == groups.len() {
        assert(groups.take(k) =~= groups);
    } else {
        lemma_strips_in_prefix(groups.drop_last(), k);
        assert(groups.drop_last().take(k) =~= groups.take(k));
    }
}

/// There is at most one strip for each entry, and one for the header.
proof fn lemma_strips_in_paged(
    strips: Seq<Strip>,
    header: Option<(Band, Seq<Protrusion>)>,
    breaks: Seq<bool>,
    k: int,
)
    requires
        0 <= k <= strips.len(),
        opened(strips, breaks),
    ensures
        strip_count(paged(strips, header, breaks, k)) <= k + if k > 0 {
            1int
        } else {
            0
        },
    decreases k,
{
    if k > 0 {
        lemma_strips_in_paged(strips, header, breaks, k - 1);
        let before = paged(strips, header, breaks, k - 1);
        let after = paged(strips, header, breaks, k);
        let open = opened_at(strips, header, breaks, k);
        let s = strips[k - 1];
        if starts(strips, breaks, k - 1) {
            assert(open.drop_last() =~= before);
        }
        assert(strip_count(open) <= strip_count(before) + if k == 1 {
            1int
        } else {
            0
        });
        if shown(s) {
            lemma_page_is_open(strips, header, breaks, k);
            assert(after.drop_last() =~= open.drop_last());
            assert(after.last().len() == open.last().len() + 1);
        }
    }
}

/// The forms of a document are numbered through.
proof fn lemma_shown(groups: Seq<Seq<Strip>>, doc: Pdf, k: int)
    requires
        0 <= k <= groups.len(),
    ensures
        rendered(groups, doc, k).shown == strip_count(groups.take(k)),
    decreases k,
{
    if k > 0 {
        lemma_shown(groups, doc, k - 1);
        assert(groups.take(k).drop_last() =~= groups.take(k - 1));
    }
}

/// Pages never take numbers back.
proof fn lemma_rendered_grows(groups: Seq<Seq<Strip>>, doc: Pdf, k: int, n: int)
    requires
        0 <= k <= n,
    ensures
        rendered(groups, doc, k).doc.last <= rendered(groups, doc, n).doc.last,
    decreases n,
{
    if k < n {
        lemma_rendered_grows(groups, doc, k, n - 1);
    }
}

/// Adds pages that show strips, where there are numbers for them.
fn add_pages(out: &mut lopdf::Document, groups: &Vec<Vec<StripRef>>) -> (r: Option<Vec<(u32, u16)>>)
    requires
        strip_count(views(groups@)) <= usize::MAX,
    ensures
        ({
            let all = rendered(views(groups@), pdf(*old(out)), groups@.len() as int);
            match r {
                Some(kids) => kids@ == all.kids && pdf(*final(out)) == all.doc,
                None => all.doc.last > u32::MAX,
            }
        }),
{
    let ghost doc = pdf(*out);
    let ghost seqs = views(groups@);
    let ghost n = groups@.len() as int;
    let mut kids: Vec<(u32, u16)> = Vec::new();
    let mut shown: usize = 0;
    let mut i: usize = 0;
    while i < groups.len()
        invariant
            doc == pdf(*old(out)),
            seqs == views(groups@),
            seqs.len() == groups@.len(),
            n == groups@.len(),
            strip_count(seqs) <= usize::MAX,
            i <= groups@.len(),
            rendered(seqs, doc, i as int) == (Rendered {
                doc: pdf(*out),
                kids: kids@,
                shown: shown as nat,
            }),
        decreases groups@.len() - i,
    {
        let strips = &groups[i];
        proof {
            lemma_shown(seqs, doc, i as int);
            lemma_shown(seqs, doc, i + 1);
            lemma_strips_in_prefix(seqs, i + 1);
            assert(seqs.take(i + 1).drop_last() =~= seqs.take(i as int));
            assert(seqs[i as int] == strips_in(strips@));
            lemma_rendered_grows(seqs, doc, i + 1, n);
        }
        if strips.len() > 0 {
            let ghost before = rendered(seqs, doc, i as int);
            if max_id(out) >= u32::MAX - 1 {
                assert(with_strips(before, strips_in(strips@)).doc.last > u32::MAX);
                return None;
            }
            let text = write_page(strips, shown);
            let content_id = add_object(out, stream_object(lopdf::Dictionary::new(), text));
            let page = page_object(strips, shown, content_id);
            let page_id = add_object(out, page);
            kids.push(page_id);
            shown = shown + strips.len();
            assert(with_strips(before, strips_in(strips@)) =~= (Rendered {
                doc: pdf(*out),
                kids: kids@,
                shown: shown as nat,
            }));
        }
        i = i + 1;
    }
    Some(kids)
}

/// Every strip with a height comes after a page break or a whole page, or
/// with a break.
pub open spec fn breaks_cover(
    objects: Map<(u32, u16), Value>,
    pages: Seq<(u32, u16)>,
    entries: Seq<(u32, CutView)>,
    breaks: Seq<bool>,
) -> bool {
    &&& breaks.len() >= entries.len()
    &&& forall|k: int|
        0 <= k < entries.len() && (#[trigger] entries[k]).0 < pages.len() ==> match entries[k].1 {
            CutView::Strip(band, _) => (Single { bits: 0 }).lt(
                scaled_height(band, scale_of(objects, pages[entries[k].0 as int])),
            ) ==> exists|j: int| 0 <= j <= k && #[trigger] page_opens(entries, breaks, j),
            CutView::Page => true,
        }
}

/// A page is opened for entry `j`, or was for a whole page before it.
pub open spec fn page_opens(entries: Seq<(u32, CutView)>, breaks: Seq<bool>, j: int) -> bool {
    breaks[j] || entries[j].1 is Page || (j > 0 && entries[j - 1].1 is Page)
}

/// Where the breaks cover the entries, the strips find pages.
proof fn lemma_strips_find_pages(
    objects: Map<(u32, u16), Value>,
    pages: Seq<(u32, u16)>,
    entries: Seq<(u32, CutView)>,
    breaks: Seq<bool>,
    draft: Draft,
)
    requires
        breaks_cover(objects, pages, entries, breaks),
        drafted(objects, pages, entries, entries.len() as int) == Some(
            Ok::<Draft, Failure>(draft),
        ),
    ensures
        opened(strips_of(objects, pages, draft.forms, entries, entries.len() as int), breaks),
        strips_of(objects, pages, draft.forms, entries, entries.len() as int).len()
            == entries.len(),
        forall|k: int|
            0 <= k < entries.len() ==> #[trigger] strips_of(
                objects,
                pages,
                draft.forms,
                entries,
                entries.len() as int,
            )[k] == strip_of(objects, pages, draft.forms, entries[k]),
{
    let n = entries.len() as int;
    let strips = strips_of(objects, pages, draft.forms, entries, n);
    lemma_drafted_pages(objects, pages, entries, n);
    assert(entries.take(n) =~= entries);
    assert forall|k: int| 0 <= k < strips.len() && shown(#[trigger] strips[k]) implies exists|j: int|
        0 <= j <= k && #[trigger] starts(strips, breaks, j) by {
        assert(strips[k] == strip_of(objects, pages, draft.forms, entries[k]));
        assert(draft.forms.contains_key(entries[k].0));
        if strips[k].page is Some {
            assert(starts(strips, breaks, k));
        } else {
            let j = choose|j: int| 0 <= j <= k && #[trigger] page_opens(entries, breaks, j);
            assert(strips[j] == strip_of(objects, pages, draft.forms, entries[j]));
            if j > 0 {
                assert(strips[j - 1] == strip_of(objects, pages, draft.forms, entries[j - 1]));
            }
            assert(starts(strips, breaks, j));
        }
    }
}

/// Makes the document of a part, where this can be done.
pub fn try_write_part<'a>(
    src: &lopdf::Document,
    src_pages: &Vec<(u32, u16)>,
    entries: &'a Vec<(u32, Cut)>,
    header: Option<&'a StripShape>,
    breaks: &Vec<bool>,
) -> (r: Option<Result<(lopdf::Document, usize), PartError>>)
    requires
        entries@.len() < usize::MAX,
        breaks_cover(objects_in(*src), src_pages@, cuts(entries@), breaks@),
    ensures
        match part(objects_in(*src), src_pages@, cuts(entries@), header_of(header), breaks@) {
            None => r is None,
            Some(Err(failure)) => r is Some && r->0 is Err && r->0->Err_0.failure() == failure,
            Some(Ok((doc, n))) => r is Some && r->0 is Ok && pdf(r->0->Ok_0.0) == doc
                && r->0->Ok_0.1 == n,
        },
{
    let ghost objects = objects_in(*src);
    let ghost n = entries@.len() as int;
    let ghost list = cuts(entries@);
    let mut out = blank_document("1.5");
    let pages_id = out.new_object_id();
    assert(pages_id == root_id());
    let strips = match draft_strips(src, src_pages, entries, &mut out) {
        None => {
            return None;
        },
        Some(Err(e)) => {
            return Some(Err(e));
        },
        Some(Ok(strips)) => strips,
    };
    let ghost draft = drafted(objects, src_pages@, list, n)->0->Ok_0;
    proof {
        lemma_strips_find_pages(objects, src_pages@, list, breaks@, draft);
    }
    let groups = group_strips(&strips, header, breaks);
    proof {
        lemma_strips_in_paged(strips_in(strips@), header_of(header), breaks@, n);
    }
    let ghost all = rendered(views(groups@), draft.doc, groups@.len() as int);
    let kids = match add_pages(&mut out, &groups) {
        None => {
            return None;
        },
        Some(kids) => kids,
    };
    if max_id(&out) == u32::MAX {
        return None;
    }
    put_object(&mut out, pages_id, pages_object(&kids));
    let catalog_id = add_object(&mut out, catalog_object());
    set_trailer(&mut out, "Root".as_bytes(), object_of(Pieces::Reference(catalog_id)));
    assert(pdf(out) =~= finished(all));
    let count: usize = kids.len();
    Some(Ok((out, count)))
}

/// Makes the document of a part: each entry's band of its source page is a
/// strip, and the strips are laid out on pages that start at the breaks.
/// Returns it with the number of its pages.
pub fn write_one_part<'a>(
    src: &lopdf::Document,
    src_pages: &Vec<(u32, u16)>,
    entries: &'a Vec<(u32, Cut)>,
    header: Option<&'a StripShape>,
    breaks: &Vec<bool>,
) -> (r: Result<(lopdf::Document, usize), PartError>)
    requires
        entries@.len() < usize::MAX,
        breaks_cover(objects_in(*src), src_pages@, cuts(entries@), breaks@),
        part(objects_in(*src), src_pages@, cuts(entries@), header_of(header), breaks@) is Some,
    ensures
        match part(objects_in(*src), src_pages@, cuts(entries@), header_of(header), breaks@)->0 {
            Err(failure) => r is Err && r->Err_0.failure() == failure,
            Ok((doc, n)) => r is Ok && pdf(r->Ok_0.0) == doc && r->Ok_0.1 == n,
        },
{
    match try_write_part(src, src_pages, entries, header, breaks) {
        Some(r) => r,
        None => Err(PartError::PageOutOfRange),
    }
}

/// The height of the header on a page, where it has one: that of its band,
/// scaled as the source page with this index is.
pub open spec fn header_height(
    objects: Map<(u32, u16), Value>,
    pages: Seq<(u32, u16)>,
    header: Option<(Band, Seq<Protrusion>)>,
    index: u32,
) -> Option<Single> {
    match header {
        None => None,
        Some((band, _)) => if index < pages.len() {
            let height = scaled_height(band, scale_of(objects, pages[index as int]));
            if (Single { bits: 0 }).lt(height) {
                Some(height)
            } else {
                None
            }
        } else {
            None
        },
    }
}

/// The heights by which the strips of entries are put on pages. A whole
/// page leaves no room for others.
pub open spec fn strip_heights(
    objects: Map<(u32, u16), Value>,
    pages: Seq<(u32, u16)>,
    entries: Seq<(u32, CutView)>,
) -> Seq<Single> {
    entries.map_values(
        |e: (u32, CutView)|
            if e.0 < pages.len() {
                match e.1 {
                    CutView::Strip(band, _) => scaled_height(
                        band,
                        scale_of(objects, pages[e.0 as int]),
                    ).max(Single { bits: 0 }),
                    CutView::Page => Single { bits: MAG_INF },
                }
            } else {
                Single { bits: 0 }
            },
    )
}

/// The entries of all parts.
pub open spec fn lists(all: [Vec<(u32, Cut)>; 4]) -> Seq<Seq<(u32, CutView)>> {
    all@.map_values(|v: Vec<(u32, Cut)>| cuts(v@))
}

/// Part `k` of the parts with these entries, as `part` has it. The header
/// is that of the first part's first entry.
pub open spec fn nth_part(
    objects: Map<(u32, u16), Value>,
    pages: Seq<(u32, u16)>,
    all: Seq<Seq<(u32, CutView)>>,
    header: Option<(Band, Seq<Protrusion>)>,
    k: int,
) -> Option<Result<(Pdf, nat), Failure>> {
    part_below(
        objects,
        pages,
        all[k],
        header,
        header_height(objects, pages, header, all[0][0].0),
    )
}

/// The part with these entries, whose first page has a header of this
/// height.
#[verifier::opaque]
pub open spec fn part_below(
    objects: Map<(u32, u16), Value>,
    pages: Seq<(u32, u16)>,
    entries: Seq<(u32, CutView)>,
    header: Option<(Band, Seq<Protrusion>)>,
    top: Option<Single>,
) -> Option<Result<(Pdf, nat), Failure>> {
    part(
        objects,
        pages,
        entries,
        header,
        page_breaks(strip_heights(objects, pages, entries), top),
    )
}

/// A part that was made: its document, and how many pages that has.
pub struct Part {
    pub doc: lopdf::Document,
    pub pages: usize,
}

/// The parts that were made, up to the first that could not be.
pub struct Outcome {
    pub parts: Vec<Part>,
    pub error: Option<PartError>,
}

/// The outcome for these entries: the parts in order; all four, or those
/// before the first failure, and the failure.
pub open spec fn is_outcome(
    outcome: &Outcome,
    objects: Map<(u32, u16), Value>,
    pages: Seq<(u32, u16)>,
    all: Seq<Seq<(u32, CutView)>>,
    header: Option<(Band, Seq<Protrusion>)>,
) -> bool {
    let n = outcome.parts@.len() as int;
    &&& n <= 4
    &&& forall|k: int|
        0 <= k < n ==> nth_part(objects, pages, all, header, k) == Some(
            Ok::<(Pdf, nat), Failure>(
                (pdf((#[trigger] outcome.parts@[k]).doc), outcome.parts@[k].pages as nat),
            ),
        )
    &&& match outcome.error {
        None => n == 4,
        Some(e) => n < 4 && nth_part(objects, pages, all, header, n) == Some(
            Err::<(Pdf, nat), Failure>(e.failure()),
        ),
    }
}

/// How the making of parts ended.
pub enum Ending {
    /// All parts were made.
    Complete,
    /// The next part could not be made.
    Failed(PartError),
    /// The next part has a page that is not to be decoded, or numbers ran
    /// out.
    Stopped,
}

/// The parts that were made, and how that ended.
pub struct Attempt {
    pub parts: Vec<Part>,
    pub ending: Ending,
}

/// The attempt for these entries: the parts in order; all four, or those
/// before the first failure or stop.
pub open spec fn is_attempt(
    attempt: &Attempt,
    objects: Map<(u32, u16), Value>,
    pages: Seq<(u32, u16)>,
    all: Seq<Seq<(u32, CutView)>>,
    header: Option<(Band, Seq<Protrusion>)>,
) -> bool {
    let n = attempt.parts@.len() as int;
    &&& n <= 4
    &&& forall|k: int|
        0 <= k < n ==> nth_part(objects, pages, all, header, k) == Some(
            Ok::<(Pdf, nat), Failure>(
                (pdf((#[trigger] attempt.parts@[k]).doc), attempt.parts@[k].pages as nat),
            ),
        )
    &&& match attempt.ending {
        Ending::Complete => n == 4,
        Ending::Failed(e) => n < 4 && nth_part(objects, pages, all, header, n) == Some(
            Err::<(Pdf, nat), Failure>(e.failure()),
        ),
        Ending::Stopped => n < 4 && nth_part(objects, pages, all, header, n) is None,
    }
}

/// The parts up to the first failure can be made or fail, all of them.
pub open spec fn all_decided(
    objects: Map<(u32, u16), Value>,
    pages: Seq<(u32, u16)>,
    all: Seq<Seq<(u32, CutView)>>,
    header: Option<(Band, Seq<Protrusion>)>,
) -> bool {
    forall|k: int|
        0 <= k < 4 && (forall|j: int|
            0 <= j < k ==> nth_part(objects, pages, all, header, j) is Some && (#[trigger] nth_part(
                objects,
                pages,
                all,
                header,
                j,
            ))->0 is Ok) ==> (#[trigger] nth_part(objects, pages, all, header, k)) is Some
}

/// The heights by which the strips of entries are put on pages.
fn find_strip_heights(
    src: &lopdf::Document,
    src_pages: &Vec<(u32, u16)>,
    entries: &Vec<(u32, Cut)>,
) -> (r: Vec<Single>)
    ensures
        r@ == strip_heights(objects_in(*src), src_pages@, cuts(entries@)),
{
    let width = find_inner_width();
    let mut r: Vec<Single> = Vec::new();
    let mut i: usize = 0;
    while i < entries.len()
        invariant
            width == inner_width(),
            i <= entries@.len(),
            r@.len() == i,
            forall|k: int|
                0 <= k < i ==> #[trigger] r@[k] == strip_heights(
                    objects_in(*src),
                    src_pages@,
                    cuts(entries@),
                )[k],
        decreases entries@.len() - i,
    {
        let index: u32 = entries[i].0;
        assert(cuts(entries@)[i as int] == (index, entries@[i as int].1@));
        if (index as usize) < src_pages.len() {
            match &entries[i].1 {
                Cut::Strip(shape) => {
                    let (page_width, _) = page_dims(src, src_pages[index as usize]);
                    let band = shape.base;
                    let height = band.y_top.minus(band.y_bot).times(width.over(page_width));
                    r.push(height.max(Single { bits: 0 }));
                },
                Cut::Page => {
                    r.push(Single { bits: MAG_INF });
                },
            }
        } else {
            r.push(Single { bits: 0 });
        }
        i = i + 1;
    }
    assert(r@ =~= strip_heights(objects_in(*src), src_pages@, cuts(entries@)));
    r
}

/// The height of the header on a page.
fn find_header_height(
    src: &lopdf::Document,
    src_pages: &Vec<(u32, u16)>,
    header: Option<&StripShape>,
    index: u32,
) -> (r: Option<Single>)
    ensures
        r == header_height(objects_in(*src), src_pages@, header_of(header), index),
{
    match header {
        None => None,
        Some(shape) => {
            let band = shape.base;
            if index as usize >= src_pages.len() {
                return None;
            }
            let (page_width, _) = page_dims(src, src_pages[index as usize]);
            let scale = find_inner_width().over(page_width);
            let height = band.y_top.minus(band.y_bot).times(scale);
            if Single::lt(Single { bits: 0 }, height) {
                Some(height)
            } else {
                None
            }
        },
    }
}

/// Makes the document of a part whose first page has a header of this
/// height.
fn try_write_below<'a>(
    src: &lopdf::Document,
    src_pages: &Vec<(u32, u16)>,
    entries: &'a Vec<(u32, Cut)>,
    header: Option<&'a StripShape>,
    top: Option<Single>,
) -> (r: Option<Result<Part, PartError>>)
    requires
        entries@.len() < usize::MAX,
    ensures
        part_below(objects_in(*src), src_pages@, cuts(entries@), header_of(header), top) == (match r {
            None => None,
            Some(Err(e)) => Some(Err::<(Pdf, nat), Failure>(e.failure())),
            Some(Ok(p)) => Some(Ok::<(Pdf, nat), Failure>((pdf(p.doc), p.pages as nat))),
        }),
{
    reveal(part_below);
    let ghost objects = objects_in(*src);
    let heights = find_strip_heights(src, src_pages, entries);
    let breaks = compute_page_breaks(&heights, top);
    proof {
        let list = cuts(entries@);
        assert forall|k: int|
            0 <= k < list.len() && (#[trigger] list[k]).0 < src_pages@.len() implies match list[k].1 {
            CutView::Strip(band, _) => (Single { bits: 0 }).lt(
                scaled_height(band, scale_of(objects, src_pages@[list[k].0 as int])),
            ) ==> exists|j: int| 0 <= j <= k && #[trigger] page_opens(list, breaks@, j),
            CutView::Page => true,
        } by {
            assert(page_opens(list, breaks@, 0));
        }
    }
    match try_write_part(src, src_pages, entries, header, &breaks) {
        None => None,
        Some(Err(e)) => Some(Err(e)),
        Some(Ok((doc, pages))) => Some(Ok(Part { doc, pages })),
    }
}

/// Makes the documents of all parts, as far as this can be done.
pub fn try_write_parts(
    src: &lopdf::Document,
    all_entries: &[Vec<(u32, Cut)>; 4],
    header: Option<&StripShape>,
) -> (r: Attempt)
    requires
        header is Some ==> all_entries@[0]@.len() > 0,
        forall|k: int| 0 <= k < 4 ==> (#[trigger] all_entries@[k])@.len() < usize::MAX,
    ensures
        is_attempt(
            &r,
            objects_in(*src),
            page_ids(trailer_in(*src), objects_in(*src)),
            lists(*all_entries),
            header_of(header),
        ),
{
    let ghost objects = objects_in(*src);
    let ghost all = lists(*all_entries);
    let src_pages = pages_of(src);
    let ghost pages = src_pages@;
    let top = match header {
        None => None,
        Some(_) => find_header_height(src, &src_pages, header, all_entries[0][0].0),
    };
    let mut parts: Vec<Part> = Vec::new();
    let mut k: usize = 0;
    while k < 4
        invariant
            objects == objects_in(*src),
            all == lists(*all_entries),
            pages == src_pages@,
            pages == page_ids(trailer_in(*src), objects),
            top == header_height(objects, pages, header_of(header), all[0][0].0),
            forall|j: int| 0 <= j < 4 ==> (#[trigger] all_entries@[j])@.len() < usize::MAX,
            k <= 4,
            parts@.len() == k,
            forall|j: int|
                0 <= j < k ==> nth_part(objects, pages, all, header_of(header), j) == Some(
                    Ok::<(Pdf, nat), Failure>(
                        (pdf((#[trigger] parts@[j]).doc), parts@[j].pages as nat),
                    ),
                ),
        decreases 4 - k,
    {
        let entries = &all_entries[k];
        assert(all[k as int] == cuts(entries@));
        match try_write_below(src, &src_pages, entries, header, top) {
            None => {
                return Attempt { parts, ending: Ending::Stopped };
            },
            Some(Err(e)) => {
                return Attempt { parts, ending: Ending::Failed(e) };
            },
            Some(Ok(p)) => {
                parts.push(p);
            },
        }
        k = k + 1;
    }
    Attempt { parts, ending: Ending::Complete }
}

/// Makes one document per instrument, from the bands that each has on the
/// pages of `src`. The header is the band above the first system.
pub fn write_parts(
    src: &lopdf::Document,
    all_entries: &[Vec<(u32, Cut)>; 4],
    header: Option<&StripShape>,
) -> (r: Outcome)
    requires
        header is Some ==> all_entries@[0]@.len() > 0,
        forall|k: int| 0 <= k < 4 ==> (#[trigger] all_entries@[k])@.len() < usize::MAX,
        all_decided(
            objects_in(*src),
            page_ids(trailer_in(*src), objects_in(*src)),
            lists(*all_entries),
            header_of(header),
        ),
    ensures
        is_outcome(
            &r,
            objects_in(*src),
            page_ids(trailer_in(*src), objects_in(*src)),
            lists(*all_entries),
            header_of(header),
        ),
{
    let ghost objects = objects_in(*src);
    let ghost pages = page_ids(trailer_in(*src), objects);
    let ghost all = lists(*all_entries);
    let Attempt { parts, ending } = try_write_parts(src, all_entries, header);
    match ending {
        Ending::Complete => Outcome { parts, error: None },
        Ending::Failed(e) => Outcome { parts, error: Some(e) },
        Ending::Stopped => {
            proof {
                let n = parts@.len() as int;
                assert forall|j: int| 0 <= j < n implies nth_part(
                    objects,
                    pages,
                    all,
                    header_of(header),
                    j,
                ) is Some && (#[trigger] nth_part(
                    objects,
                    pages,
                    all,
                    header_of(header),
                    j,
                ))->0 is Ok by {
                    let made = parts@[j];
                    assert(nth_part(objects, pages, all, header_of(header), j) == Some(
                        Ok::<(Pdf, nat), Failure>((pdf(made.doc), made.pages as nat)),
                    ));
                }
                assert(nth_part(objects, pages, all, header_of(header), n) is Some);
            }
            Outcome { parts, error: None }
        },
    }
}

/// A stream stands under a number.
pub open spec fn has_stream(doc: Pdf, id: (u32, u16)) -> bool {
    doc.objects.contains_key(id) && doc.objects[id] is Stream
}

/// A page stands under a number, with its content and with all the forms
/// that it shows.
pub open spec fn has_page(doc: Pdf, id: (u32, u16)) -> bool {
    &&& doc.objects.contains_key(id)
    &&& exists|forms: Seq<(Seq<u8>, Value)>, content: (u32, u16), size: (Single, Single)|
        doc.objects[id] == #[trigger] page_value(forms, content, size) && has_stream(
            doc,
            content,
        ) && (
        forall|i: int|
            0 <= i < forms.len() ==> (#[trigger] forms[i]).1 is Reference && has_stream(
                doc,
                forms[i].1->Reference_0,
            ))
}

/// A document that holds together: from the trailer to the catalog, the
/// list of pages, each of the pages, and what these show, every reference
/// that the library makes leads to what it is meant for.
pub open spec fn holds_together(doc: Pdf, n: nat) -> bool {
    &&& exists|kids: Seq<(u32, u16)>|
        kids.len() == n && doc.objects.contains_key(root_id()) && doc.objects[root_id()]
            == #[trigger] pages_value(kids) && (forall|i: int|
            0 <= i < kids.len() ==> has_page(doc, #[trigger] kids[i]))
    &&& exists|id: (u32, u16)|
        lookup(doc.trailer, "Root".spec_bytes()) == Some(Value::Reference(id))
            && #[trigger] doc.objects.contains_key(id) && doc.objects[id] == catalog_value()
}

/// A draft has the forms that it speaks of, and nothing stands where the
/// list of pages will.
pub open spec fn sound(draft: Draft) -> bool {
    &&& draft.doc.wf()
    &&& draft.doc.last >= 1
    &&& draft.doc.trailer == Seq::<(Seq<u8>, Value)>::empty()
    &&& !draft.doc.objects.contains_key(root_id())
    &&& forall|k: u32| #[trigger]
        draft.forms.contains_key(k) ==> has_stream(draft.doc, draft.forms[k])
}

/// Drafts are sound.
pub(crate) proof fn lemma_drafts_are_sound(
    objects: Map<(u32, u16), Value>,
    pages: Seq<(u32, u16)>,
    entries: Seq<(u32, CutView)>,
    k: int,
)
    requires
        0 <= k <= entries.len(),
        drafted(objects, pages, entries, k) is Some,
        drafted(objects, pages, entries, k)->0 is Ok,
    ensures
        sound(drafted(objects, pages, entries, k)->0->Ok_0),
    decreases k,
{
    if k > 0 {
        lemma_drafts_are_sound(objects, pages, entries, k - 1);
        let before = drafted(objects, pages, entries, k - 1)->0->Ok_0;
        let after = drafted(objects, pages, entries, k)->0->Ok_0;
        let index = entries[k - 1].0;
        if !before.forms.contains_key(index) {
            let page = pages[index as int];
            lemma_embedding_keeps_objects(objects, page, before.doc);
            let (id, doc) = embedded(objects, page, before.doc)->0->Ok_0;
            assert forall|n: u32| #[trigger] after.forms.contains_key(n) implies has_stream(
                after.doc,
                after.forms[n],
            ) by {
                if n != index {
                    assert(before.forms.contains_key(n));
                    assert(before.doc.objects.contains_key(before.forms[n]));
                }
            }
        }
    }
}

/// Every strip on a page shows the form of some strip.
proof fn lemma_forms_of_pages(
    strips: Seq<Strip>,
    header: Option<(Band, Seq<Protrusion>)>,
    breaks: Seq<bool>,
    k: int,
    g: int,
    i: int,
)
    requires
        0 <= k <= strips.len(),
        opened(strips, breaks),
        0 <= g < paged(strips, header, breaks, k).len(),
        0 <= i < paged(strips, header, breaks, k)[g].len(),
    ensures
        exists|j: int|
            0 <= j < k && (#[trigger] strips[j]).form == paged(strips, header, breaks, k)[g][i].form,
    decreases k,
{
    let before = paged(strips, header, breaks, k - 1);
    if shown(strips[k - 1]) {
        lemma_page_is_open(strips, header, breaks, k);
    }
    if g < before.len() && i < before[g].len() {
        lemma_forms_of_pages(strips, header, breaks, k - 1, g, i);
        let j = choose|j: int|
            0 <= j < k - 1 && (#[trigger] strips[j]).form == before[g][i].form;
        assert(strips[j].form == paged(strips, header, breaks, k)[g][i].form);
    } else {
        assert(strips[k - 1].form == paged(strips, header, breaks, k)[g][i].form);
    }
}

/// A page that stands keeps standing where objects are only added.
proof fn lemma_page_stays(small: Pdf, big: Pdf, id: (u32, u16))
    requires
        has_page(small, id),
        kept(small.objects, big.objects),
    ensures
        has_page(big, id),
{
    let (forms, content, size) = choose|
        forms: Seq<(Seq<u8>, Value)>,
        content: (u32, u16),
        size: (Single, Single),
    |
        small.objects[id] == #[trigger] page_value(forms, content, size) && has_stream(
            small,
            content,
        ) && (forall|i: int|
            0 <= i < forms.len() ==> (#[trigger] forms[i]).1 is Reference && has_stream(
                small,
                forms[i].1->Reference_0,
            ));
    assert(big.objects[id] == page_value(forms, content, size));
    assert(small.objects.contains_key(content));
    assert forall|i: int| 0 <= i < forms.len() implies (#[trigger] forms[i]).1 is Reference
        && has_stream(big, forms[i].1->Reference_0) by {
        assert(small.objects.contains_key(forms[i].1->Reference_0));
    }
}

/// Pages that are rendered stand.
proof fn lemma_rendered_stands(groups: Seq<Seq<Strip>>, doc: Pdf, k: int)
    requires
        0 <= k <= groups.len(),
        doc.wf(),
        doc.last >= 1,
        !doc.objects.contains_key(root_id()),
        forall|g: int, i: int|
            0 <= g < groups.len() && 0 <= i < groups[g].len() ==> has_stream(
                doc,
                (#[trigger] groups[g][i]).form,
            ),
        rendered(groups, doc, k).doc.last <= u32::MAX,
    ensures
        rendered(groups, doc, k).doc.wf(),
        extends(rendered(groups, doc, k).doc, doc),
        !rendered(groups, doc, k).doc.objects.contains_key(root_id()),
        forall|i: int|
            0 <= i < rendered(groups, doc, k).kids.len() ==> has_page(
                rendered(groups, doc, k).doc,
                #[trigger] rendered(groups, doc, k).kids[i],
            ),
    decreases k,
{
    if k > 0 {
        lemma_rendered_grows(groups, doc, k - 1, k);
        lemma_rendered_stands(groups, doc, k - 1);
        let before = rendered(groups, doc, k - 1);
        let strips = groups[k - 1];
        if strips.len() > 0 {
            let after = rendered(groups, doc, k);
            let text = stream_value(
                Seq::empty(),
                page_text(strips, before.shown, strips.len() as int),
            );
            let mid = before.doc.with(text);
            let forms = page_forms(strips, before.shown);
            let page = page_value(forms, before.doc.next(), size_of(strips));
            lemma_with(before.doc, text);
            lemma_with(mid, page);
            assert(after.doc == mid.with(page));
            assert(kept(before.doc.objects, after.doc.objects)) by {
                assert forall|id: (u32, u16)| #[trigger]
                    before.doc.objects.contains_key(id) implies after.doc.objects.contains_key(id)
                    && after.doc.objects[id] == before.doc.objects[id] by {
                    assert(mid.objects.contains_key(id));
                }
            }
            assert(kept(doc.objects, after.doc.objects)) by {
                assert forall|id: (u32, u16)| #[trigger] doc.objects.contains_key(id) implies
                    after.doc.objects.contains_key(id) && after.doc.objects[id]
                    == doc.objects[id] by {
                    assert(before.doc.objects.contains_key(id));
                }
            }
            assert(mid.objects.contains_key(before.doc.next()));
            assert(has_stream(after.doc, before.doc.next()));
            assert forall|i: int| 0 <= i < forms.len() implies (#[trigger] forms[i]).1 is Reference
                && has_stream(after.doc, forms[i].1->Reference_0) by {
                assert(has_stream(doc, groups[k - 1][i].form));
                assert(doc.objects.contains_key(strips[i].form));
            }
            assert(has_page(after.doc, mid.next()));
            assert forall|i: int| 0 <= i < after.kids.len() implies has_page(
                after.doc,
                #[trigger] after.kids[i],
            ) by {
                if i < before.kids.len() {
                    assert(has_page(before.doc, before.kids[i]));
                    lemma_page_stays(before.doc, after.doc, before.kids[i]);
                }
            }
        }
    }
}

/// The document of a part holds together.
pub proof fn lemma_part_holds_together(
    objects: Map<(u32, u16), Value>,
    pages: Seq<(u32, u16)>,
    entries: Seq<(u32, CutView)>,
    header: Option<(Band, Seq<Protrusion>)>,
    breaks: Seq<bool>,
)
    requires
        breaks_cover(objects, pages, entries, breaks),
        part(objects, pages, entries, header, breaks) is Some,
        part(objects, pages, entries, header, breaks)->0 is Ok,
    ensures
        ({
            let (doc, n) = part(objects, pages, entries, header, breaks)->0->Ok_0;
            doc.wf() && holds_together(doc, n)
        }),
{
    let n = entries.len() as int;
    let draft = drafted(objects, pages, entries, n)->0->Ok_0;
    lemma_drafts_are_sound(objects, pages, entries, n);
    lemma_drafted_pages(objects, pages, entries, n);
    lemma_strips_find_pages(objects, pages, entries, breaks, draft);
    let strips = strips_of(objects, pages, draft.forms, entries, n);
    let groups = paged(strips, header, breaks, n);
    assert forall|g: int, i: int|
        0 <= g < groups.len() && 0 <= i < groups[g].len() implies has_stream(
        draft.doc,
        (#[trigger] groups[g][i]).form,
    ) by {
        lemma_forms_of_pages(strips, header, breaks, n, g, i);
        let j = choose|j: int| 0 <= j < n && (#[trigger] strips[j]).form == groups[g][i].form;
        assert(strips[j] == strip_of(objects, pages, draft.forms, entries[j]));
        assert(draft.forms.contains_key(entries[j].0));
    }
    let r = rendered(groups, draft.doc, groups.len() as int);
    lemma_rendered_stands(groups, draft.doc, groups.len() as int);
    let doc = finished(r);
    let listed = Pdf { objects: r.doc.objects.insert(root_id(), pages_value(r.kids)), ..r.doc };
    assert forall|id: (u32, u16)| #[trigger] listed.objects.contains_key(id) implies id.0
        <= listed.last by {
        if id != root_id() {
            assert(r.doc.objects.contains_key(id));
        }
    }
    lemma_with(listed, catalog_value());
    assert(kept(r.doc.objects, doc.objects)) by {
        assert forall|id: (u32, u16)| #[trigger] r.doc.objects.contains_key(id) implies
            doc.objects.contains_key(id) && doc.objects[id] == r.doc.objects[id] by {
            assert(listed.objects.contains_key(id));
        }
    }
    assert forall|i: int| 0 <= i < r.kids.len() implies has_page(doc, #[trigger] r.kids[i]) by {
        lemma_page_stays(r.doc, doc, r.kids[i]);
    }
    assert(listed.objects.contains_key(root_id()));
    assert(doc.objects[root_id()] == pages_value(r.kids));
    let root = "Root".spec_bytes();
    let trailer = doc.trailer;
    assert(trailer == with_entry(Seq::empty(), root, Value::Reference(listed.next())));
    assert(trailer =~= seq![(root, Value::Reference(listed.next()))]);
    assert(position(trailer, root) == 0);
    assert(doc.objects.contains_key(listed.next()));
}

} // verus!
