//! How much of a page is filled, in points.
use crate::bounds::{
    lemma_nonneg_value, lemma_order_is_by_value, lemma_plus_nonneg, lemma_whole_exact, nonneg,
};
use crate::layout::{
    filled, inner_height, inner_width, page_breaks, starts_page, MARGIN, MAX_GAP, MIN_GAP, ONE,
};
use crate::pages::{PAGE_H, PAGE_W};
use crate::rounding::{lemma_nearest_ge, lemma_nearest_le, lemma_units_at, units};
use crate::signal::TWO;
use crate::single::{one_units, whole, Single};
use crate::sums::{lemma_plus_is_near, speck};
use vstd::arithmetic::power2::*;
use vstd::prelude::*;

verus! {

/// The product of two whole numbers is exact.
pub(crate) proof fn lemma_whole_product(x: Single, y: Single, a: int, b: int)
    requires
        x.finite(),
        y.finite(),
        !x.negative(),
        !y.negative(),
        0 <= a,
        0 <= b,
        x.value() == a * one_units(),
        y.value() == b * one_units(),
        a * b <= 0x100_0000,
    ensures
        x.times(y) == whole(a * b),
{
    let one = one_units();
    lemma_pow2_pos(149);
    let n = (a * one) * (b * one);
    assert(0 <= a * b) by (nonlinear_arith)
        requires
            0 <= a,
            0 <= b,
    ;
    lemma_whole_exact(a * b);
    let m = whole(a * b).mag();
    assert(n == ((a * b) * one) * one) by (nonlinear_arith)
        requires
            n == (a * one) * (b * one),
    ;
    lemma_nearest_ge(m, n, one);
    lemma_nearest_le(m, n, one);
}

/// The difference of two whole numbers is exact.
pub(crate) proof fn lemma_whole_difference(x: Single, y: Single, a: int, b: int)
    requires
        x.finite(),
        y.finite(),
        0 <= b < a <= 0x100_0000,
        x.value() == a * one_units(),
        y.value() == b * one_units(),
    ensures
        x.minus(y) == whole(a - b),
{
    let one = one_units();
    lemma_pow2_pos(149);
    lemma_whole_exact(a - b);
    let m = whole(a - b).mag();
    let n = (a - b) * one;
    assert(n == a * one - b * one && n > 0) by (nonlinear_arith)
        requires
            n == (a - b) * one,
            a > b,
            one > 0,
    ;
    assert(y.neg().mag() == y.mag());
    assert(y.neg().value() == -y.value());
    assert(units(m) * 1 == n);
    lemma_nearest_ge(m, n, 1);
    lemma_nearest_le(m, n, 1);
}

/// The constants of a page, in points.
pub proof fn lemma_page_in_points()
    ensures
        (Single { bits: PAGE_W }).value() == 595 * one_units(),
        (Single { bits: PAGE_H }).value() == 842 * one_units(),
        (Single { bits: MARGIN }).value() == 36 * one_units(),
        (Single { bits: MIN_GAP }).value() == 10 * one_units(),
        (Single { bits: MAX_GAP }).value() == 25 * one_units(),
        (Single { bits: ONE }).value() == one_units(),
        inner_width() == whole(523),
        inner_height() == whole(770),
        inner_width().value() == 523 * one_units(),
        inner_height().value() == 770 * one_units(),
        inner_width().finite(),
        inner_height().finite(),
{
    lemma_units_at(135, 0x94_c000);
    lemma_units_at(135, 0xd2_8000);
    lemma_units_at(131, 0x90_0000);
    lemma_units_at(129, 0xa0_0000);
    lemma_units_at(130, 0xc8_0000);
    lemma_units_at(126, 0x80_0000);
    lemma_units_at(127, 0x80_0000);
    lemma2_to64();
    lemma_pow2_adds(135, 14);
    lemma_pow2_adds(131, 18);
    lemma_pow2_adds(129, 20);
    lemma_pow2_adds(130, 19);
    lemma_pow2_adds(126, 23);
    lemma_pow2_adds(127, 22);
    assert((Single { bits: TWO }).value() == 2 * one_units());
    lemma_whole_product(Single { bits: TWO }, Single { bits: MARGIN }, 2, 36);
    lemma_whole_exact(72);
    lemma_whole_difference(Single { bits: PAGE_W }, whole(72), 595, 72);
    lemma_whole_difference(Single { bits: PAGE_H }, whole(72), 842, 72);
    lemma_whole_exact(523);
    lemma_whole_exact(770);
}

/// What strips `s..=k` come to, in units: their heights, ten points between
/// each two, and, with the first strip of all, a header and ten points.
pub open spec fn need(heights: Seq<Single>, header: Option<Single>, s: int, k: int) -> int
    decreases k - s,
{
    if k < s {
        0
    } else if k == s {
        heights[s].value() + match header {
            Some(h) => if s == 0 {
                h.value() + 10 * one_units()
            } else {
                0
            },
            None => 0,
        }
    } else {
        need(heights, header, s, k - 1) + 10 * one_units() + heights[k].value()
    }
}

/// Strips `s..=k` stand on one page: a page starts with the first of them,
/// and none of the others starts one.
pub open spec fn on_one_page(breaks: Seq<bool>, s: int, k: int) -> bool {
    &&& 0 <= s <= k < breaks.len()
    &&& breaks[s]
    &&& forall|j: int| s < j <= k ==> !#[trigger] breaks[j]
}

/// Heights that are numbers, and not below zero.
pub open spec fn upright_heights(heights: Seq<Single>, header: Option<Single>) -> bool {
    &&& forall|i: int| 0 <= i < heights.len() ==> nonneg(#[trigger] heights[i])
    &&& header is Some ==> nonneg(header->0)
}

proof fn lemma_filled_nonneg(heights: Seq<Single>, header: Option<Single>, k: int)
    requires
        upright_heights(heights, header),
        0 <= k <= heights.len(),
    ensures
        nonneg(filled(heights, header, k)),
    decreases k,
{
    let gap = Single { bits: MIN_GAP };
    assert(nonneg(gap));
    if k == 0 {
        if header is Some {
            lemma_plus_nonneg(header->0, gap);
        }
    } else {
        let h = heights[k - 1];
        assert(nonneg(h));
        lemma_filled_nonneg(heights, header, k - 1);
        let before = filled(heights, header, k - 1);
        lemma_plus_nonneg(before, h);
        lemma_plus_nonneg(gap, h);
        lemma_plus_nonneg(before, gap.plus(h));
    }
}

/// A strip that fits leaves everything small.
proof fn lemma_fits_small(before: Single, h: Single)
    requires
        nonneg(before),
        nonneg(h),
        !inner_height().lt(before.plus(Single { bits: MIN_GAP }).plus(h)),
    ensures
        before.finite(),
        h.finite(),
        0 <= before.value() <= 770 * one_units(),
        0 <= h.value() <= 770 * one_units(),
        before.value() + 10 * one_units() + h.value() <= 770 * one_units() + 2 * speck(),
{
    let one = one_units();
    let gap = Single { bits: MIN_GAP };
    lemma_page_in_points();
    lemma_pow2_pos(149);
    let a = before.plus(gap);
    let b = a.plus(h);
    lemma_plus_nonneg(before, gap);
    lemma_plus_nonneg(a, h);
    lemma_nonneg_value(before);
    lemma_nonneg_value(h);
    lemma_nonneg_value(a);
    lemma_nonneg_value(b);
    lemma_nonneg_value(inner_height());
    assert(b.rank() <= inner_height().rank());
    lemma_order_is_by_value(before, inner_height());
    lemma_order_is_by_value(h, inner_height());
    lemma_order_is_by_value(a, inner_height());
    lemma_order_is_by_value(b, inner_height());
    lemma_plus_is_near(before, gap);
    lemma_plus_is_near(a, h);
}

/// What is filled is what the strips come to, but for rounding.
proof fn lemma_filled_is_need(heights: Seq<Single>, header: Option<Single>, s: int, k: int)
    requires
        upright_heights(heights, header),
        on_one_page(page_breaks(heights, header), s, k),
        heights[s].finite(),
        s == 0 && header is Some ==> header->0.finite(),
        need(heights, header, s, s) <= 1024 * one_units(),
    ensures
        filled(heights, header, k + 1).finite(),
        forall|j: int| s <= j <= k ==> (#[trigger] heights[j]).finite(),
        -(2 * (k - s + 1) * speck()) <= filled(heights, header, k + 1).value() - need(
            heights,
            header,
            s,
            k,
        ) <= 2 * (k - s + 1) * speck(),
        need(heights, header, s, k) >= 10 * (k - s) * one_units(),
        k > s ==> need(heights, header, s, k) <= 770 * one_units() + 2 * (k - s + 1) * speck(),
        k - s <= 77,
    decreases k - s,
{
    let one = one_units();
    let gap = Single { bits: MIN_GAP };
    let breaks = page_breaks(heights, header);
    lemma_pow2_pos(149);
    lemma_pow2_pos(136);
    lemma2_to64();
    lemma_pow2_adds(136, 13);
    assert(one == 8192 * speck());
    lemma_page_in_points();
    assert(nonneg(gap));
    if s == k {
        let h = heights[s];
        assert(nonneg(h));
        lemma_nonneg_value(h);
        if s == 0 {
            match header {
                Some(top) => {
                    lemma_nonneg_value(top);
                    lemma_plus_is_near(top, gap);
                    lemma_plus_is_near(top.plus(gap), h);
                },
                None => {
                    lemma_units_at(0, 0);
                    lemma_plus_is_near(Single { bits: 0 }, h);
                },
            }
            assert(filled(heights, header, 1) == filled(heights, header, 0).plus(h));
        } else {
            assert(starts_page(heights, header, s));
            assert(filled(heights, header, s + 1) == h);
        }
        assert(10 * (k - s) * one == 0) by (nonlinear_arith)
            requires
                k == s,
        ;
    } else {
        lemma_filled_is_need(heights, header, s, k - 1);
        lemma_filled_nonneg(heights, header, k);
        let before = filled(heights, header, k);
        let h = heights[k];
        assert(nonneg(h));
        assert(!breaks[k]);
        lemma_fits_small(before, h);
        lemma_plus_is_near(gap, h);
        lemma_plus_is_near(before, gap.plus(h));
        assert(filled(heights, header, k + 1) == before.plus(gap.plus(h)));
        let c = k - s;
        let p = speck();
        assert(2 * (c + 1) * p == 2 * c * p + 2 * p) by (nonlinear_arith);
        assert(10 * c * one == 10 * (c - 1) * one + 10 * one) by (nonlinear_arith);
        assert(c <= 77) by (nonlinear_arith)
            requires
                10 * c * one <= 770 * one + 2 * (c + 1) * p,
                one == 8192 * p,
                p > 0,
        ;
    }
}

/// No page is overfull: the strips of a page, with ten points between each
/// two and the header above them, take no more than the 770 points that a
/// page has, but for a sixteenth of a point that rounding may add. Only
/// what stands alone on a page, or alone below the header, may be larger.
pub proof fn lemma_pages_are_not_overfull(
    heights: Seq<Single>,
    header: Option<Single>,
    s: int,
    k: int,
)
    requires
        upright_heights(heights, header),
        on_one_page(page_breaks(heights, header), s, k),
        s < k,
    ensures
        forall|j: int| s <= j <= k ==> (#[trigger] heights[j]).finite(),
        s == 0 && header is Some ==> header->0.finite(),
        16 * need(heights, header, s, k) <= 16 * (770 * one_units()) + one_units(),
{
    lemma_first_is_small(heights, header, s, k);
    lemma_filled_is_need(heights, header, s, k);
    lemma_pow2_pos(136);
    lemma2_to64();
    lemma_pow2_adds(136, 13);
    let c = k - s;
    let p = speck();
    assert(2 * (c + 1) * p <= 156 * p) by (nonlinear_arith)
        requires
            c <= 77,
            p > 0,
    ;
}

/// What another strip follows on its page is small.
proof fn lemma_first_is_small(heights: Seq<Single>, header: Option<Single>, s: int, k: int)
    requires
        upright_heights(heights, header),
        on_one_page(page_breaks(heights, header), s, k),
        s < k,
    ensures
        heights[s].finite(),
        s == 0 && header is Some ==> header->0.finite(),
        need(heights, header, s, s) <= 1024 * one_units(),
        0 <= need(heights, header, s, s),
{
    let one = one_units();
    let gap = Single { bits: MIN_GAP };
    lemma_pow2_pos(149);
    lemma_pow2_pos(136);
    lemma2_to64();
    lemma_pow2_adds(136, 13);
    lemma_page_in_points();
    let h = heights[s];
    let next = heights[s + 1];
    assert(nonneg(h) && nonneg(next) && nonneg(gap));
    assert(!page_breaks(heights, header)[s + 1]);
    lemma_filled_nonneg(heights, header, s + 1);
    let f = filled(heights, header, s + 1);
    lemma_fits_small(f, next);
    lemma_nonneg_value(h);
    if s == 0 {
        let before = filled(heights, header, 0);
        lemma_filled_nonneg(heights, header, 0);
        assert(f == before.plus(h));
        lemma_plus_nonneg(before, h);
        lemma_nonneg_value(before);
        lemma_nonneg_value(f);
        lemma_order_is_by_value(before, f);
        lemma_order_is_by_value(h, f);
        lemma_plus_is_near(before, h);
        if header is Some {
            let top = header->0;
            lemma_nonneg_value(top);
            lemma_plus_nonneg(top, gap);
            lemma_order_is_by_value(top, before);
            lemma_plus_is_near(top, gap);
        } else {
            lemma_units_at(0, 0);
        }
    } else {
        assert(starts_page(heights, header, s));
        assert(f == h);
    }
}

/// No page is left early: with the strip that starts the next page, a page
/// would come to more than its 770 points, but for a sixteenth of a point
/// that rounding may take.
pub proof fn lemma_pages_are_not_left_early(
    heights: Seq<Single>,
    header: Option<Single>,
    s: int,
    k: int,
)
    requires
        upright_heights(heights, header),
        0 <= s < k < heights.len(),
        on_one_page(page_breaks(heights, header), s, k - 1),
        page_breaks(heights, header)[k],
        forall|j: int| s <= j <= k ==> (#[trigger] heights[j]).finite(),
        s == 0 && header is Some ==> header->0.finite(),
    ensures
        16 * need(heights, header, s, k) >= 16 * (770 * one_units()) - one_units(),
{
    let one = one_units();
    let gap = Single { bits: MIN_GAP };
    lemma_pow2_pos(149);
    lemma_pow2_pos(136);
    lemma2_to64();
    lemma_pow2_adds(136, 13);
    lemma_page_in_points();
    let h = heights[k];
    assert(nonneg(h) && nonneg(gap));
    lemma_nonneg_value(h);
    assert(nonneg(heights[s]));
    lemma_nonneg_value(heights[s]);
    if header is Some {
        lemma_nonneg_value(header->0);
    }
    lemma_need_grows(heights, header, s, k - 1);
    if need(heights, header, s, k) < 770 * one {
        lemma_filled_is_need(heights, header, s, k - 1);
        let f = filled(heights, header, k);
        let c = k - 1 - s;
        let p = speck();
        assert(2 * (c + 1) * p <= 156 * p) by (nonlinear_arith)
            requires
                c <= 77,
                p > 0,
        ;
        lemma_filled_nonneg(heights, header, k);
        lemma_nonneg_value(f);
        lemma_plus_is_near(f, gap);
        let a = f.plus(gap);
        lemma_plus_is_near(a, h);
        lemma_plus_nonneg(f, gap);
        lemma_plus_nonneg(a, h);
        assert(starts_page(heights, header, k));
        lemma_nonneg_value(a.plus(h));
        lemma_order_is_by_value(inner_height(), a.plus(h));
    }
}

/// More strips come to no less.
proof fn lemma_need_grows(heights: Seq<Single>, header: Option<Single>, s: int, k: int)
    requires
        upright_heights(heights, header),
        0 <= s <= k < heights.len(),
    ensures
        need(heights, header, s, s) <= need(heights, header, s, k),
        0 <= need(heights, header, s, s),
    decreases k - s,
{
    lemma_pow2_pos(149);
    assert(nonneg(heights[k]));
    lemma_nonneg_value(heights[k]);
    if header is Some {
        lemma_nonneg_value(header->0);
    }
    if s < k {
        lemma_need_grows(heights, header, s, k - 1);
    }
}

/// What has no height that a page could hold stands on a page of its own.
pub proof fn lemma_endless_strips_stand_alone(heights: Seq<Single>, header: Option<Single>, k: int)
    requires
        upright_heights(heights, header),
        0 <= k < heights.len(),
        !heights[k].finite(),
    ensures
        page_breaks(heights, header)[k],
        k + 1 < heights.len() ==> page_breaks(heights, header)[k + 1],
{
    lemma_filled_nonneg(heights, header, k);
    if !page_breaks(heights, header)[k] {
        assert(nonneg(heights[k]));
        lemma_fits_small(filled(heights, header, k), heights[k]);
    }
    if k + 1 < heights.len() && !page_breaks(heights, header)[k + 1] {
        assert(on_one_page(page_breaks(heights, header), k, k + 1));
        lemma_first_is_small(heights, header, k, k + 1);
    }
}

} // verus!
