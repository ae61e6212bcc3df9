//! What stands on the pages of a part, and how much room it takes there.
use crate::bounds::{lemma_nonneg_value, nonneg};
use crate::detect::{Band, CutView, Protrusion};
use crate::fitting::{
    lemma_endless_strips_stand_alone, lemma_pages_are_not_overfull, need, on_one_page,
    upright_heights,
};
use crate::layout::{
    header_strip, in_sequence, lemma_nothing_is_lost, lemma_paged_len,
    lemma_strips_on_pages_are_shown, opened, opened_at, page_breaks, paged, scaled_height, shown,
    starts, visible, Strip,
};
use crate::monotone::lemma_units_nonneg;
use crate::pages::Failure;
use crate::parts::{
    drafted, finished, header_height, lemma_drafted_pages, part_below, rendered, strip_heights,
    strip_of, strips_of, Draft,
};
use crate::pdf::{Pdf, Value};
use crate::positions::lemma_bands_keep_their_height;
use crate::rounding::lemma_units_at;
use crate::single::{one_units, Single};
use crate::sums::speck;
use vstd::arithmetic::power2::*;
use vstd::prelude::*;

verus! {

/// The room that strips take on a page, in units: their heights, and ten
/// points between each two.
pub open spec fn room(group: Seq<Strip>) -> int
    decreases group.len(),
{
    if group.len() == 0 {
        0
    } else if group.len() == 1 {
        group[0].height.value()
    } else {
        room(group.drop_last()) + 10 * one_units() + group.last().height.value()
    }
}

/// The strips of a page fit between its margins, which leave 770 points,
/// but for a sixteenth of a point that rounding may add.
pub open spec fn fits(group: Seq<Strip>) -> bool {
    16 * room(group) <= 16 * (770 * one_units()) + one_units()
}

/// Heights by which strips are put on pages: each is the height at which
/// its strip is shown, and nothing else fits beside a whole page.
pub open spec fn measured(strips: Seq<Strip>, heights: Seq<Single>) -> bool {
    &&& heights.len() == strips.len()
    &&& forall|i: int|
        0 <= i < strips.len() ==> nonneg(#[trigger] heights[i]) && (if strips[i].page is Some {
            !heights[i].finite()
        } else {
            shown(strips[i]) ==> heights[i] == strips[i].height
        })
}

/// The height that is kept free for the header is the one at which it is
/// shown.
pub open spec fn headed(
    strips: Seq<Strip>,
    header: Option<(Band, Seq<Protrusion>)>,
    top: Option<Single>,
) -> bool {
    &&& top is Some ==> nonneg(top->0)
    &&& strips.len() > 0 && header_strip(header, strips[0]).len() > 0 ==> top == Some(
        header_strip(header, strips[0])[0].height,
    )
}

/// The strip with which the page of strip `k - 1` starts.
spec fn first_of_page(breaks: Seq<bool>, k: int) -> int
    decreases k,
{
    if k <= 1 || breaks[k - 1] {
        k - 1
    } else {
        first_of_page(breaks, k - 1)
    }
}

proof fn lemma_first_of_page(breaks: Seq<bool>, k: int)
    requires
        0 < k <= breaks.len(),
        breaks[0],
    ensures
        on_one_page(breaks, first_of_page(breaks, k), k - 1),
    decreases k,
{
    if k > 1 && !breaks[k - 1] {
        lemma_first_of_page(breaks, k - 1);
    }
}

/// Pages start where the heights ask for it.
proof fn lemma_starts_are_breaks(strips: Seq<Strip>, heights: Seq<Single>, top: Option<Single>, k: int)
    requires
        measured(strips, heights),
        top is Some ==> nonneg(top->0),
        0 <= k < strips.len(),
    ensures
        starts(strips, page_breaks(heights, top), k) == page_breaks(heights, top)[k],
{
    if strips[k].page is Some {
        assert(!heights[k].finite());
        lemma_endless_strips_stand_alone(heights, top, k);
    }
    if k > 0 && strips[k - 1].page is Some {
        assert(!heights[k - 1].finite());
        lemma_endless_strips_stand_alone(heights, top, k - 1);
    }
}

/// What is on the last page so far takes no more room than what was counted
/// for it.
proof fn lemma_last_page(
    strips: Seq<Strip>,
    header: Option<(Band, Seq<Protrusion>)>,
    heights: Seq<Single>,
    top: Option<Single>,
    k: int,
)
    requires
        measured(strips, heights),
        headed(strips, header, top),
        0 < k <= strips.len(),
    ensures
        ({
            let breaks = page_breaks(heights, top);
            let s = first_of_page(breaks, k);
            let groups = paged(strips, header, breaks, k);
            let last = groups.last();
            &&& groups.len() > 0
            &&& on_one_page(breaks, s, k - 1)
            &&& s == 0 ==> groups.len() == 1
            &&& last.len() > 0 && (forall|j: int|
                s <= j < k ==> (#[trigger] strips[j]).page is None) ==> room(last) <= need(
                heights,
                top,
                s,
                k - 1,
            )
            &&& 0 <= need(heights, top, s, k - 1)
            &&& s == k - 1 ==> last.len() <= 1 || (s == 0 && last.len() <= 1 + header_strip(
                header,
                strips[0],
            ).len())
        }),
    decreases k,
{
    let breaks = page_breaks(heights, top);
    let s = first_of_page(breaks, k);
    let before = paged(strips, header, breaks, k - 1);
    let open = opened_at(strips, header, breaks, k);
    let groups = paged(strips, header, breaks, k);
    let last = groups.last();
    let x = strips[k - 1];
    let one = one_units();
    lemma_pow2_pos(149);
    assert(breaks[0]);
    lemma_first_of_page(breaks, k);
    lemma_starts_are_breaks(strips, heights, top, k - 1);
    assert(nonneg(heights[k - 1]));
    lemma_nonneg_value(heights[k - 1]);
    if top is Some {
        lemma_nonneg_value(top->0);
    }
    if breaks[k - 1] {
        assert(s == k - 1);
        assert(open.drop_last() =~= before);
        assert(open.len() == before.len() + 1);
        assert(groups.len() == open.len());
        let start = open.last();
        assert(!shown(x) ==> last == start);
        if k == 1 {
            assert(start == header_strip(header, x));
            assert(before.len() == 0);
            if start.len() > 0 {
                assert(start.len() == 1);
                assert(x.page is None);
                assert(room(start) == start[0].height.value());
            }
        } else {
            assert(start.len() == 0);
        }
        if shown(x) {
            assert(last == start.push(x));
            assert(last.drop_last() =~= start);
            assert(last.last() == x);
            assert(last.len() == 1 ==> last[0] == x);
        }
    } else {
        lemma_last_page(strips, header, heights, top, k - 1);
        assert(s == first_of_page(breaks, k - 1));
        assert(open == before);
        assert(x.page is None);
        if shown(x) {
            assert(last == before.last().push(x));
            assert(last.drop_last() =~= before.last());
            assert(last.last() == x);
            assert(last.len() == 1 ==> last[0] == x);
        }
        assert(!shown(x) ==> groups == before);
        assert(groups.len() == before.len());
    }
}

/// No page of a part is overfull: the strips on it fit between the margins,
/// where there are more than one, and more than the header and one strip
/// below it on the first page.
pub proof fn lemma_strips_fit_their_pages(
    strips: Seq<Strip>,
    header: Option<(Band, Seq<Protrusion>)>,
    heights: Seq<Single>,
    top: Option<Single>,
    k: int,
    g: int,
)
    requires
        measured(strips, heights),
        headed(strips, header, top),
        0 <= k <= strips.len(),
        0 <= g < paged(strips, header, page_breaks(heights, top), k).len(),
    ensures
        ({
            let group = paged(strips, header, page_breaks(heights, top), k)[g];
            ||| group.len() <= 1
            ||| g == 0 && group.len() <= 1 + header_strip(header, strips[0]).len()
            ||| fits(group)
        }),
    decreases k,
{
    let breaks = page_breaks(heights, top);
    let groups = paged(strips, header, breaks, k);
    let before = paged(strips, header, breaks, k - 1);
    let open = opened_at(strips, header, breaks, k);
    assert(k > 0);
    assert(starts(strips, breaks, 0));
    lemma_paged_len(strips, header, breaks, k);
    if starts(strips, breaks, k - 1) {
        assert(open.len() == before.len() + 1);
        assert(open.drop_last() =~= before);
    } else {
        assert(open == before);
    }
    assert(groups.len() == open.len());
    lemma_last_page(strips, header, heights, top, k);
    if g < groups.len() - 1 {
        assert(groups[g] == open[g]);
        assert(open[g] == before[g]);
        lemma_strips_fit_their_pages(strips, header, heights, top, k - 1, g);
    } else {
        let s = first_of_page(breaks, k);
        if s < k - 1 {
            assert(upright_heights(heights, top));
            lemma_pages_are_not_overfull(heights, top, s, k - 1);
            assert forall|j: int| s <= j < k implies (#[trigger] strips[j]).page is None by {
                assert(heights[j].finite());
            }
        }
    }
}

/// The heights by which the strips of a part are put on pages are those at
/// which they are shown.
pub proof fn lemma_strips_are_measured(
    objects: Map<(u32, u16), Value>,
    pages: Seq<(u32, u16)>,
    forms: Map<u32, (u32, u16)>,
    entries: Seq<(u32, CutView)>,
)
    requires
        forall|i: int| 0 <= i < entries.len() ==> (#[trigger] entries[i]).0 < pages.len(),
    ensures
        measured(
            strips_of(objects, pages, forms, entries, entries.len() as int),
            strip_heights(objects, pages, entries),
        ),
{
    let n = entries.len() as int;
    let strips = strips_of(objects, pages, forms, entries, n);
    let heights = strip_heights(objects, pages, entries);
    assert(entries.take(n) =~= entries);
    assert forall|i: int| 0 <= i < strips.len() implies nonneg(#[trigger] heights[i]) && (if strips[i].page is Some {
        !heights[i].finite()
    } else {
        shown(strips[i]) ==> heights[i] == strips[i].height
    }) by {
        assert(entries[i].0 < pages.len());
        assert(strips[i] == strip_of(objects, pages, forms, entries[i]));
    }
}

/// The header of a part takes the height that is kept free for it, where it
/// is scaled as the part's first strip is.
pub proof fn lemma_header_is_measured(
    objects: Map<(u32, u16), Value>,
    pages: Seq<(u32, u16)>,
    forms: Map<u32, (u32, u16)>,
    entries: Seq<(u32, CutView)>,
    header: Option<(Band, Seq<Protrusion>)>,
)
    requires
        entries.len() > 0,
        entries[0].0 < pages.len(),
    ensures
        headed(
            strips_of(objects, pages, forms, entries, entries.len() as int),
            header,
            header_height(objects, pages, header, entries[0].0),
        ),
{
    let n = entries.len() as int;
    let strips = strips_of(objects, pages, forms, entries, n);
    assert(entries.take(n) =~= entries);
    assert(strips[0] == strip_of(objects, pages, forms, entries[0]));
}

/// The pages of a part: they show the header and then every strip of the
/// part, in order, none is overfull, and the document is made of them.
pub proof fn lemma_parts_fit_their_pages(
    objects: Map<(u32, u16), Value>,
    pages: Seq<(u32, u16)>,
    entries: Seq<(u32, CutView)>,
    header: Option<(Band, Seq<Protrusion>)>,
    doc: Pdf,
    n: nat,
) -> (r: (Draft, Seq<Seq<Strip>>))
    requires
        entries.len() > 0,
        part_below(
            objects,
            pages,
            entries,
            header,
            header_height(objects, pages, header, entries[0].0),
        ) == Some(Ok::<(Pdf, nat), Failure>((doc, n))),
    ensures
        ({
            let (draft, groups) = r;
            let strips = strips_of(objects, pages, draft.forms, entries, entries.len() as int);
            &&& drafted(objects, pages, entries, entries.len() as int) == Some(
                Ok::<Draft, Failure>(draft),
            )
            &&& doc == finished(rendered(groups, draft.doc, groups.len() as int))
            &&& in_sequence(groups) == header_strip(header, strips[0]) + visible(strips)
            &&& forall|g: int|
                0 <= g < groups.len() ==> (#[trigger] groups[g]).len() <= 1 || (g == 0
                    && groups[g].len() <= 1 + header_strip(header, strips[0]).len()) || fits(
                    groups[g],
                )
        }),
{
    reveal(part_below);
    let k = entries.len() as int;
    let draft = drafted(objects, pages, entries, k)->0->Ok_0;
    let strips = strips_of(objects, pages, draft.forms, entries, k);
    let top = header_height(objects, pages, header, entries[0].0);
    let heights = strip_heights(objects, pages, entries);
    let breaks = page_breaks(heights, top);
    let groups = paged(strips, header, breaks, k);
    lemma_drafted_pages(objects, pages, entries, k);
    assert(entries.take(k) =~= entries);
    assert forall|i: int| 0 <= i < entries.len() implies (#[trigger] entries[i]).0 < pages.len() by {
        assert(draft.forms.contains_key(entries[i].0));
    }
    lemma_strips_are_measured(objects, pages, draft.forms, entries);
    lemma_header_is_measured(objects, pages, draft.forms, entries, header);
    lemma_nothing_is_lost(strips, header, breaks, k);
    assert(strips.take(k) =~= strips);
    assert forall|g: int| 0 <= g < groups.len() implies (#[trigger] groups[g]).len() <= 1 || (g == 0
        && groups[g].len() <= 1 + header_strip(header, strips[0]).len()) || fits(groups[g]) by {
        lemma_strips_fit_their_pages(strips, header, heights, top, k, g);
    }
    (draft, groups)
}

/// What passes a test stays when a sequence is sifted by it.
proof fn lemma_sifted(strips: Seq<Strip>, j: int)
    requires
        0 <= j < strips.len(),
        shown(strips[j]),
    ensures
        visible(strips).contains(strips[j]),
    decreases strips.len(),
{
    reveal(Seq::filter);
    let rest = strips.drop_last();
    if j < strips.len() - 1 {
        assert(rest[j] == strips[j]);
        lemma_sifted(rest, j);
        let n = choose|n: int| 0 <= n < visible(rest).len() && visible(rest)[n] == strips[j];
        assert(visible(strips)[n] == strips[j]);
    } else {
        assert(visible(strips).last() == strips[j]);
    }
}

/// A strip is on a page if and only if there is something to show: it has a
/// height above zero, or is a whole page.
pub proof fn lemma_strips_with_height_are_shown(
    strips: Seq<Strip>,
    header: Option<(Band, Seq<Protrusion>)>,
    breaks: Seq<bool>,
    g: int,
    i: int,
    j: int,
)
    requires
        breaks.len() >= strips.len(),
        strips.len() > 0 ==> breaks[0],
        opened(strips, breaks),
    ensures
        ({
            let groups = paged(strips, header, breaks, strips.len() as int);
            &&& 0 <= g < groups.len() && 0 <= i < groups[g].len() ==> groups[g][i].page is Some
                || 0 < groups[g][i].height.rank()
            &&& 0 <= j < strips.len() && !strips[j].height.nan() && 0 < strips[j].height.rank()
                ==> in_sequence(groups).contains(strips[j])
            &&& 0 <= j < strips.len() && strips[j].page is Some ==> in_sequence(groups).contains(
                strips[j],
            )
        }),
{
    let k = strips.len() as int;
    let groups = paged(strips, header, breaks, k);
    if 0 <= g < groups.len() && 0 <= i < groups[g].len() {
        lemma_strips_on_pages_are_shown(strips, header, breaks, k, g, i);
    }
    if 0 <= j < strips.len() && shown(strips[j]) {
        lemma_nothing_is_lost(strips, header, breaks, k);
        assert(strips.take(k) =~= strips);
        lemma_sifted(strips, j);
        let n = choose|n: int| 0 <= n < visible(strips).len() && visible(strips)[n] == strips[j];
        let first = header_strip(header, strips[0]);
        assert(in_sequence(groups)[first.len() + n] == strips[j]);
    }
}

/// The header is on the first page if and only if there is something to
/// show of it and the page is not a whole one; it has the scale of the strip
/// below it.
pub proof fn lemma_header_is_shown(header: Option<(Band, Seq<Protrusion>)>, s: Strip)
    ensures
        header is None || s.page is Some ==> header_strip(header, s).len() == 0,
        header_strip(header, s).len() > 0 ==> header_strip(header, s).len() == 1 && header_strip(
            header,
            s,
        )[0].band == (header->0).0 && header_strip(header, s)[0].scale == s.scale && 0
            < header_strip(header, s)[0].height.rank(),
        header is Some && s.page is None && s.scale.finite() && !s.scale.negative()
            && s.scale.value() >= one_units() && (header->0).0.y_top.finite()
            && (header->0).0.y_bot.finite() && (header->0).0.y_top.value()
            - (header->0).0.y_bot.value() >= one_units() && (header->0).0.y_top.value()
            - (header->0).0.y_bot.value() <= 2047 * one_units() && (
        (header->0).0.y_top.value() - (header->0).0.y_bot.value() + speck()) * s.scale.value()
            <= 2048 * one_units() * one_units() ==> header_strip(header, s).len() == 1,
{
    if header is Some && s.page is None && s.scale.finite() && !s.scale.negative()
        && s.scale.value() >= one_units() && (header->0).0.y_top.finite()
        && (header->0).0.y_bot.finite() && (header->0).0.y_top.value()
        - (header->0).0.y_bot.value() >= one_units() && (header->0).0.y_top.value()
        - (header->0).0.y_bot.value() <= 2047 * one_units() && (
    (header->0).0.y_top.value() - (header->0).0.y_bot.value() + speck()) * s.scale.value() <= 2048
        * one_units() * one_units() {
        let (band, _) = header->0;
        let one = one_units();
        let p = speck();
        lemma_pow2_pos(149);
        lemma_pow2_pos(136);
        lemma2_to64();
        lemma_pow2_adds(136, 13);
        lemma_bands_keep_their_height(band, s.scale);
        let h = scaled_height(band, s.scale);
        let x = band.y_top.value() - band.y_bot.value();
        let v = s.scale.value();
        assert(h.value() > 0) by (nonlinear_arith)
            requires
                h.value() * one >= x * v - p * (one + v),
                x >= one,
                v >= one,
                one == 8192 * p,
                p > 0,
        ;
        lemma_units_at(0, 0);
        lemma_units_nonneg(h.mag());
    }
}

} // verus!
