//! What the forms of a part show, and by which names its pages call them.
use crate::bounds::lemma_whole_exact;
use crate::copying::{
    deep_copied, extends, lemma_deep_copy_keeps_objects, lemma_position, lemma_with,
};
use crate::detect::CutView;
use crate::fitting::lemma_page_in_points;
use crate::layout::{clip_of, page_text, placement_of, size_of, Strip};
use crate::pages::{
    dims, embedded, form_entries, lemma_embedding_keeps_objects, lemma_form_keys,
    lemma_length_differs, lemma_new_key, number, Failure,
};
use crate::parts::{
    drafted, lemma_drafted_pages, lemma_drafts_are_sound, lemma_page_keys, page_forms, page_value,
    rendered, strip_of, strips_of, Draft,
};
use crate::pdf::{lookup, page_content, position, resolved, stream_value, Pdf, Value};
use crate::rounding::lemma_units_at;
use crate::single::{one_units, whole, Single};
use crate::text::{form_name, lemma_names_differ};
use vstd::arithmetic::power2::*;
use vstd::prelude::*;
use vstd::string::*;

verus! {

/// A form is as large as its page and has the page's content, byte for
/// byte.
pub proof fn lemma_form_is_its_page(objects: Map<(u32, u16), Value>, page: (u32, u16), p: Pdf)
    requires
        p.wf(),
        embedded(objects, page, p) is Some,
        embedded(objects, page, p)->0 is Ok,
    ensures
        ({
            let (id, q) = embedded(objects, page, p)->0->Ok_0;
            let form = q.objects[id];
            let (width, height) = dims(objects, page);
            let zero = Value::Real(Single { bits: 0 });
            &&& form is Stream
            &&& Some(form->Stream_1) == page_content(objects, page)
            &&& lookup(form->Stream_0, "Type".spec_bytes()) == Some(
                Value::Name("XObject".spec_bytes()),
            )
            &&& lookup(form->Stream_0, "Subtype".spec_bytes()) == Some(
                Value::Name("Form".spec_bytes()),
            )
            &&& lookup(form->Stream_0, "BBox".spec_bytes()) == Some(
                Value::Array(seq![zero, zero, Value::Real(width), Value::Real(height)]),
            )
        }),
{
    let length = "Length".spec_bytes();
    let entries = resolved(objects, page)->0->Dictionary_0;
    let bytes = page_content(objects, page)->0;
    let (width, height) = dims(objects, page);
    let n = Value::Integer(bytes.len() as i64);
    lemma_form_keys();
    lemma_length_differs();
    let e = match lookup(entries, "Resources".spec_bytes()) {
        None => {
            let e = form_entries(width, height, None);
            lemma_with(p, stream_value(e, bytes));
            e
        },
        Some(resources) => {
            let (copy, q) = deep_copied(objects, resources, p)->0;
            lemma_deep_copy_keeps_objects(objects, resources, p);
            let e = form_entries(width, height, Some(copy));
            lemma_with(q, stream_value(e, bytes));
            e
        },
    };
    lemma_new_key(e, length, n);
    let all = e.push((length, n));
    assert(all[0].0 == "Type".spec_bytes());
    assert(all[1].0 == "Subtype".spec_bytes());
    assert(all[3].0 == "BBox".spec_bytes());
    lemma_position(all, "Type".spec_bytes());
    lemma_position(all, "Subtype".spec_bytes());
    lemma_position(all, "BBox".spec_bytes());
}

/// A form under this number shows a page.
pub open spec fn shows(doc: Pdf, id: (u32, u16), objects: Map<(u32, u16), Value>, page: (u32, u16))
    -> bool {
    let (width, height) = dims(objects, page);
    let zero = Value::Real(Single { bits: 0 });
    &&& doc.objects.contains_key(id)
    &&& doc.objects[id] is Stream
    &&& Some(doc.objects[id]->Stream_1) == page_content(objects, page)
    &&& lookup(doc.objects[id]->Stream_0, "BBox".spec_bytes()) == Some(
        Value::Array(seq![zero, zero, Value::Real(width), Value::Real(height)]),
    )
}

/// Each form of a part shows the source page that it was made for.
pub proof fn lemma_forms_show_their_pages(
    objects: Map<(u32, u16), Value>,
    pages: Seq<(u32, u16)>,
    entries: Seq<(u32, CutView)>,
    k: int,
    draft: Draft,
    n: u32,
)
    requires
        0 <= k <= entries.len(),
        drafted(objects, pages, entries, k) == Some(Ok::<Draft, Failure>(draft)),
        draft.forms.contains_key(n),
    ensures
        n < pages.len(),
        shows(draft.doc, draft.forms[n], objects, pages[n as int]),
    decreases k,
{
    let before = drafted(objects, pages, entries, k - 1)->0->Ok_0;
    let index = entries[k - 1].0;
    lemma_drafts_are_sound(objects, pages, entries, k - 1);
    if before.forms.contains_key(index) {
        assert(draft == before);
        lemma_forms_show_their_pages(objects, pages, entries, k - 1, before, n);
    } else {
        lemma_embedding_keeps_objects(objects, pages[index as int], before.doc);
        lemma_form_is_its_page(objects, pages[index as int], before.doc);
        let (id, doc) = embedded(objects, pages[index as int], before.doc)->0->Ok_0;
        assert(draft.doc == doc);
        assert(draft.forms == before.forms.insert(index, id));
        if n != index {
            assert(before.forms.contains_key(n));
            lemma_forms_show_their_pages(objects, pages, entries, k - 1, before, n);
            assert(extends(doc, before.doc));
        }
    }
}

/// Every strip of a part shows its own source page: the form that it draws
/// has the content of the page with the strip's index.
pub proof fn lemma_strips_show_their_pages(
    objects: Map<(u32, u16), Value>,
    pages: Seq<(u32, u16)>,
    entries: Seq<(u32, CutView)>,
    draft: Draft,
    i: int,
)
    requires
        0 <= i < entries.len(),
        drafted(objects, pages, entries, entries.len() as int) == Some(
            Ok::<Draft, Failure>(draft),
        ),
    ensures
        ({
            let strip = strips_of(objects, pages, draft.forms, entries, entries.len() as int)[i];
            &&& entries[i].0 < pages.len()
            &&& shows(draft.doc, strip.form, objects, pages[entries[i].0 as int])
            &&& match entries[i].1 {
                CutView::Strip(band, protrusions) => strip.page is None && strip.band == band
                    && strip.protrusions == protrusions,
                CutView::Page => strip.page == Some(dims(objects, pages[entries[i].0 as int])),
            }
        }),
{
    let n = entries.len() as int;
    assert(entries.take(n) =~= entries);
    lemma_drafted_pages(objects, pages, entries, n);
    assert(draft.forms.contains_key(entries[i].0));
    lemma_forms_show_their_pages(objects, pages, entries, n, draft, entries[i].0);
    assert(strips_of(objects, pages, draft.forms, entries, n)[i] == strip_of(
        objects,
        pages,
        draft.forms,
        entries[i],
    ));
}

/// The name by which a page calls a form is bound to the form of the strip
/// that is drawn by that name.
pub proof fn lemma_names_are_bound(strips: Seq<Strip>, first: nat, i: int)
    requires
        0 <= i < strips.len(),
    ensures
        lookup(page_forms(strips, first), form_name((first + i) as nat)) == Some(
            Value::Reference(strips[i].form),
        ),
{
    let forms = page_forms(strips, first);
    let name = form_name((first + i) as nat);
    lemma_position(forms, name);
    assert(forms[i].0 == name);
    let j = position(forms, name);
    if j < i {
        lemma_names_differ((first + j) as nat, (first + i) as nat);
        assert(forms[j].0 == form_name((first + j) as nat));
    }
}

/// A page that says how large it is has that width and height: the third
/// and the fourth number of its `MediaBox`.
pub proof fn lemma_pages_have_their_size(
    objects: Map<(u32, u16), Value>,
    page: (u32, u16),
    entries: Seq<(Seq<u8>, Value)>,
    items: Seq<Value>,
    width: int,
    height: int,
)
    requires
        resolved(objects, page) == Some(Value::Dictionary(entries)),
        lookup(entries, "MediaBox".spec_bytes()) == Some(Value::Array(items)),
        items.len() >= 4,
        0 <= width <= 0x100_0000,
        0 <= height <= 0x100_0000,
        items[2] == Value::Integer(width as i64) || (items[2] is Real && items[2]->Real_0 == whole(
            width,
        )),
        items[3] == Value::Integer(height as i64) || (items[3] is Real && items[3]->Real_0
            == whole(height)),
    ensures
        dims(objects, page).0.value() == width * one_units(),
        dims(objects, page).1.value() == height * one_units(),
{
    lemma_whole_exact(width);
    lemma_whole_exact(height);
    assert(number(items[2]) == Some(whole(width)));
    assert(number(items[3]) == Some(whole(height)));
}

/// A page of strips is 595 points wide and 842 high; one that shows a whole
/// source page is as large as that.
pub proof fn lemma_pages_have_the_usual_size(strips: Seq<Strip>)
    requires
        strips.len() > 0,
    ensures
        match strips[0].page {
            Some(size) => size_of(strips) == size,
            None => size_of(strips).0.value() == 595 * one_units() && size_of(strips).1.value()
                == 842 * one_units(),
        },
{
    lemma_page_in_points();
}

/// A whole source page is shown as it is: not scaled, not moved, and clipped
/// to its own size.
pub proof fn lemma_whole_pages_are_shown_as_they_are(
    objects: Map<(u32, u16), Value>,
    pages: Seq<(u32, u16)>,
    forms: Map<u32, (u32, u16)>,
    index: u32,
)
    ensures
        ({
            let strip = strip_of(objects, pages, forms, (index, CutView::Page));
            let group = seq![strip];
            let at = placement_of(group, 0);
            let (width, height) = dims(objects, pages[index as int]);
            &&& at.scale.value() == one_units()
            &&& at.move_x.value() == 0
            &&& at.move_y.value() == 0
            &&& clip_of(group, 0).len() == 1
            &&& clip_of(group, 0)[0].left.value() == 0
            &&& clip_of(group, 0)[0].bottom.value() == 0
            &&& clip_of(group, 0)[0].width == width
            &&& clip_of(group, 0)[0].height == height
            &&& size_of(group) == (width, height)
        }),
{
    let strip = strip_of(objects, pages, forms, (index, CutView::Page));
    assert(seq![strip][0] == strip);
    lemma_page_in_points();
    lemma_units_at(0, 0);
    lemma2_to64();
}

/// How many of the first `k` groups have strips.
pub open spec fn filled_groups(groups: Seq<Seq<Strip>>, k: int) -> int
    decreases k,
{
    if k <= 0 {
        0
    } else {
        filled_groups(groups, k - 1) + if groups[k - 1].len() > 0 {
            1int
        } else {
            0int
        }
    }
}

/// A page of a document shows these strips, with its content under a number
/// and its forms numbered from `first`.
pub open spec fn page_shows_from(
    doc: Pdf,
    id: (u32, u16),
    strips: Seq<Strip>,
    first: nat,
    content: (u32, u16),
) -> bool {
    &&& doc.objects.contains_key(id)
    &&& doc.objects.contains_key(content)
    &&& doc.objects[id] == page_value(page_forms(strips, first), content, size_of(strips))
    &&& doc.objects[content] == stream_value(
        Seq::empty(),
        page_text(strips, first, strips.len() as int),
    )
}

/// A page of a document shows these strips: its size is theirs, its content
/// is the text that draws them, and the names in that text are bound to
/// their forms.
pub open spec fn page_shows(doc: Pdf, id: (u32, u16), strips: Seq<Strip>) -> bool {
    exists|first: nat, content: (u32, u16)| #[trigger]
        page_shows_from(doc, id, strips, first, content)
}

/// The pages of a document show the groups of strips that they were made
/// for, in order; a group without strips has no page.
pub proof fn lemma_pages_show_their_groups(groups: Seq<Seq<Strip>>, doc: Pdf, k: int, g: int)
    requires
        0 <= g < k <= groups.len(),
        doc.wf(),
        groups[g].len() > 0,
        rendered(groups, doc, k).doc.last <= u32::MAX,
    ensures
        ({
            let r = rendered(groups, doc, k);
            let n = filled_groups(groups, g);
            &&& 0 <= n < r.kids.len()
            &&& r.kids.len() == filled_groups(groups, k)
            &&& page_shows(r.doc, r.kids[n], groups[g])
        }),
    decreases k,
{
    let r = rendered(groups, doc, k);
    let before = rendered(groups, doc, k - 1);
    let strips = groups[k - 1];
    lemma_rendered_counts(groups, doc, k - 1);
    lemma_filled_groups(groups, g, k - 1);
    if strips.len() > 0 {
        let text = stream_value(Seq::empty(), page_text(strips, before.shown, strips.len() as int));
        let mid = before.doc.with(text);
        let page = page_value(
            page_forms(strips, before.shown),
            before.doc.next(),
            size_of(strips),
        );
        assert(r.doc == mid.with(page));
        lemma_with(before.doc, text);
        lemma_with(mid, page);
        if g < k - 1 {
            lemma_pages_show_their_groups(groups, doc, k - 1, g);
            let n = filled_groups(groups, g);
            let id = before.kids[n];
            let (first, content) = choose|first: nat, content: (u32, u16)| #[trigger]
                page_shows_from(before.doc, id, groups[g], first, content);
            assert(mid.objects.contains_key(id) && mid.objects.contains_key(content));
            assert(r.kids[n] == id);
            assert(page_shows_from(r.doc, id, groups[g], first, content));
        } else {
            assert(r.kids[before.kids.len() as int] == mid.next());
            assert(r.doc.objects[mid.next()] == page);
            assert(mid.objects.contains_key(before.doc.next()));
            assert(page_shows_from(r.doc, mid.next(), strips, before.shown, before.doc.next()));
        }
    } else {
        lemma_pages_show_their_groups(groups, doc, k - 1, g);
    }
}

/// Documents grow page by page.
proof fn lemma_rendered_counts(groups: Seq<Seq<Strip>>, doc: Pdf, k: int)
    requires
        0 <= k <= groups.len(),
        doc.wf(),
    ensures
        rendered(groups, doc, k).kids.len() == filled_groups(groups, k),
        rendered(groups, doc, k).doc.last >= doc.last,
        rendered(groups, doc, k).doc.last <= u32::MAX ==> rendered(groups, doc, k).doc.wf(),
    decreases k,
{
    if k > 0 {
        lemma_rendered_counts(groups, doc, k - 1);
        let before = rendered(groups, doc, k - 1);
        let strips = groups[k - 1];
        if strips.len() > 0 && rendered(groups, doc, k).doc.last <= u32::MAX {
            let text = stream_value(
                Seq::empty(),
                page_text(strips, before.shown, strips.len() as int),
            );
            lemma_with(before.doc, text);
            lemma_with(
                before.doc.with(text),
                page_value(page_forms(strips, before.shown), before.doc.next(), size_of(strips)),
            );
        }
    }
}

proof fn lemma_filled_groups(groups: Seq<Seq<Strip>>, g: int, k: int)
    requires
        0 <= g <= k <= groups.len(),
    ensures
        0 <= filled_groups(groups, g) <= filled_groups(groups, k),
        g < k && groups[g].len() > 0 ==> filled_groups(groups, g) < filled_groups(groups, k),
    decreases k,
{
    if g < k {
        lemma_filled_groups(groups, g, k - 1);
    } else if k > 0 {
        lemma_filled_groups(groups, k - 1, k - 1);
    }
}

/// A page says what it is: a page of the list of pages, as large as its
/// strips ask for, cropped to nothing less, with its content and its forms.
pub proof fn lemma_pages_say_what_they_are(
    forms: Seq<(Seq<u8>, Value)>,
    content: (u32, u16),
    size: (Single, Single),
)
    ensures
        ({
            let page = page_value(forms, content, size);
            let area = Value::Array(
                seq![
                    Value::Integer(0),
                    Value::Integer(0),
                    Value::Real(size.0),
                    Value::Real(size.1),
                ],
            );
            &&& page is Dictionary
            &&& lookup(page->Dictionary_0, "Type".spec_bytes()) == Some(
                Value::Name("Page".spec_bytes()),
            )
            &&& lookup(page->Dictionary_0, "Parent".spec_bytes()) == Some(
                Value::Reference((1u32, 0u16)),
            )
            &&& lookup(page->Dictionary_0, "MediaBox".spec_bytes()) == Some(area)
            &&& lookup(page->Dictionary_0, "CropBox".spec_bytes()) == Some(area)
            &&& lookup(page->Dictionary_0, "Contents".spec_bytes()) == Some(
                Value::Reference(content),
            )
            &&& lookup(page->Dictionary_0, "Resources".spec_bytes()) == Some(
                Value::Dictionary(seq![("XObject".spec_bytes(), Value::Dictionary(forms))]),
            )
        }),
{
    let entries = page_value(forms, content, size)->Dictionary_0;
    lemma_page_keys();
    assert(entries[0].0 == "Type".spec_bytes());
    assert(entries[1].0 == "Parent".spec_bytes());
    assert(entries[2].0 == "MediaBox".spec_bytes());
    assert(entries[3].0 == "CropBox".spec_bytes());
    assert(entries[4].0 == "Resources".spec_bytes());
    assert(entries[5].0 == "Contents".spec_bytes());
    lemma_position(entries, "Type".spec_bytes());
    lemma_position(entries, "Parent".spec_bytes());
    lemma_position(entries, "MediaBox".spec_bytes());
    lemma_position(entries, "CropBox".spec_bytes());
    lemma_position(entries, "Resources".spec_bytes());
    lemma_position(entries, "Contents".spec_bytes());
}

} // verus!
