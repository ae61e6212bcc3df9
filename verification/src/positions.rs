//! Where strips stand on a page, in points.
use crate::bounds::{lemma_nonneg_value, lemma_order_is_by_value, lemma_whole_exact, nonneg};
use crate::detect::{Band, Protrusion};
use crate::drawn::{fits, room};
use crate::fitting::{lemma_page_in_points, lemma_whole_difference};
use crate::layout::{
    bottom_of, clip_of, gap_of, heights, inner_height, placed, placement_of, scaled_height, top_of,
    Strip, MARGIN, MAX_GAP, MIN_GAP,
};
use crate::monotone::lemma_units_nonneg;
use crate::order::sum;
use crate::pages::{dims, PAGE_H};
use crate::parts::scale_of;
use crate::pdf::Value;
use crate::rounding::{lemma_units_at, nearest, units};
use crate::single::{one_units, whole, Single};
use crate::sums::{lemma_minus_is_near, lemma_plus_is_near, lemma_rounding_is_small, speck};
use crate::text::Placement;
use vstd::arithmetic::power2::*;
use vstd::prelude::*;

verus! {

/// A source page is shown as wide as a page between its margins: scaled, its
/// width comes to 523 points, but for rounding.
pub proof fn lemma_pages_fill_the_width(objects: Map<(u32, u16), Value>, page: (u32, u16))
    requires
        dims(objects, page).0.finite(),
        one_units() <= dims(objects, page).0.value() <= 2048 * one_units(),
    ensures
        ({
            let width = dims(objects, page).0.value();
            let scale = scale_of(objects, page);
            &&& scale.finite()
            &&& !scale.negative()
            &&& -speck() * width <= scale.value() * width - 523 * one_units() * one_units()
                <= speck() * width
        }),
{
    let one = one_units();
    let w = dims(objects, page).0;
    let u = w.value();
    lemma_pow2_pos(149);
    lemma_page_in_points();
    lemma_whole_exact(523);
    lemma_units_nonneg(w.mag());
    assert(!w.negative());
    let n = (523 * one) * one;
    assert(0 <= n <= 2048 * one * u) by (nonlinear_arith)
        requires
            n == (523 * one) * one,
            one <= u,
            one > 0,
    ;
    lemma_units_at(0, 0);
    lemma2_to64();
    lemma_rounding_is_small(n, u);
    assert(523 * one * one == n);
}

/// A strip is shown as high as its band is, scaled, but for rounding.
pub proof fn lemma_bands_keep_their_height(band: Band, scale: Single)
    requires
        band.y_top.finite(),
        band.y_bot.finite(),
        scale.finite(),
        !scale.negative(),
        0 <= band.y_top.value() - band.y_bot.value() <= 2047 * one_units(),
        (band.y_top.value() - band.y_bot.value() + speck()) * scale.value() <= 2048 * one_units()
            * one_units(),
    ensures
        ({
            let exact = (band.y_top.value() - band.y_bot.value()) * scale.value();
            let slack = speck() * (one_units() + scale.value());
            &&& scaled_height(band, scale).finite()
            &&& -slack <= scaled_height(band, scale).value() * one_units() - exact <= slack
        }),
{
    let one = one_units();
    let d = band.y_top.minus(band.y_bot);
    let x = band.y_top.value() - band.y_bot.value();
    let s = scale.value();
    let p = speck();
    lemma_pow2_pos(149);
    lemma_pow2_pos(136);
    lemma2_to64();
    lemma_pow2_adds(136, 13);
    lemma_minus_is_near(band.y_top, band.y_bot);
    lemma_units_nonneg(d.mag());
    lemma_units_nonneg(scale.mag());
    let e = units(d.mag());
    let n = e * s;
    assert(-p <= d.value() - x <= p);
    assert(0 <= e <= x + p);
    assert(0 <= n <= (x + p) * s) by (nonlinear_arith)
        requires
            n == e * s,
            0 <= e <= x + p,
            s >= 0,
    ;
    lemma_rounding_is_small(n, one);
    let r = scaled_height(band, scale);
    assert(r.mag() == nearest(n, one));
    // A difference below zero is one of rounding alone.
    assert(d.value() * s - x * s <= p * s && d.value() * s - x * s >= -(p * s)) by (nonlinear_arith)
        requires
            -p <= d.value() - x <= p,
            s >= 0,
    ;
    assert(-p * one == -(p * one)) by (nonlinear_arith);
    assert(p * (one + s) == p * one + p * s) by (nonlinear_arith);
    assert(r.value() * one == if d.negative() {
        -(units(r.mag()) * one)
    } else {
        units(r.mag()) * one
    }) by {
        assert((-units(r.mag())) * one == -(units(r.mag()) * one)) by (nonlinear_arith);
    }
    assert(d.value() * s == if d.negative() {
        -n
    } else {
        n
    }) by {
        assert((-e) * s == -(e * s)) by (nonlinear_arith);
    }
}

/// The heights of the first `i` strips together, in units.
pub open spec fn stacked(strips: Seq<Strip>, i: int) -> int
    decreases i,
{
    if i <= 0 {
        0
    } else {
        stacked(strips, i - 1) + strips[i - 1].height.value()
    }
}

/// Strips whose heights are numbers, and not below zero.
pub open spec fn upright_strips(strips: Seq<Strip>) -> bool {
    forall|i: int|
        0 <= i < strips.len() ==> (#[trigger] strips[i]).height.finite() && nonneg(strips[i].height)
}

proof fn lemma_stacked_nonneg(strips: Seq<Strip>, i: int, j: int)
    requires
        upright_strips(strips),
        0 <= i <= j <= strips.len(),
    ensures
        0 <= stacked(strips, i) <= stacked(strips, j),
    decreases j,
{
    if j > 0 {
        assert(nonneg(strips[j - 1].height));
        lemma_nonneg_value(strips[j - 1].height);
        if i < j {
            lemma_stacked_nonneg(strips, i, j - 1);
        } else {
            lemma_stacked_nonneg(strips, i - 1, j - 1);
        }
    }
}

proof fn lemma_stacked_prefix(a: Seq<Strip>, b: Seq<Strip>, i: int)
    requires
        0 <= i <= a.len(),
        i <= b.len(),
        forall|j: int| 0 <= j < i ==> a[j] == b[j],
    ensures
        stacked(a, i) == stacked(b, i),
    decreases i,
{
    if i > 0 {
        lemma_stacked_prefix(a, b, i - 1);
    }
}

/// The room that strips take is their heights and ten points between each
/// two.
proof fn lemma_room_is_stacked(strips: Seq<Strip>)
    requires
        strips.len() > 0,
    ensures
        room(strips) == stacked(strips, strips.len() as int) + 10 * (strips.len() - 1)
            * one_units(),
    decreases strips.len(),
{
    let n = strips.len() as int;
    let one = one_units();
    if n > 1 {
        let t = strips.drop_last();
        lemma_room_is_stacked(t);
        lemma_stacked_prefix(t, strips, n - 1);
        assert(10 * (n - 1) * one == 10 * (n - 2) * one + 10 * one) by (nonlinear_arith);
    } else {
        assert(stacked(strips, 0) == 0);
        assert(10 * (n - 1) * one == 0) by (nonlinear_arith)
            requires
                n == 1,
        ;
    }
}

/// The sum of heights is near what they come to.
proof fn lemma_heights_sum(strips: Seq<Strip>)
    requires
        upright_strips(strips),
        stacked(strips, strips.len() as int) <= 1024 * one_units(),
        strips.len() <= 100,
    ensures
        sum(heights(strips)).finite(),
        -(strips.len() * speck()) <= sum(heights(strips)).value() - stacked(
            strips,
            strips.len() as int,
        ) <= strips.len() * speck(),
    decreases strips.len(),
{
    let n = strips.len() as int;
    let p = speck();
    lemma_pow2_pos(136);
    lemma_pow2_pos(149);
    lemma2_to64();
    lemma_pow2_adds(136, 13);
    lemma_units_at(0, 0);
    if n > 0 {
        let t = strips.drop_last();
        assert(upright_strips(t)) by {
            assert forall|i: int| 0 <= i < t.len() implies (#[trigger] t[i]).height.finite()
                && nonneg(t[i].height) by {
                assert(t[i] == strips[i]);
            }
        }
        lemma_stacked_prefix(t, strips, n - 1);
        lemma_stacked_nonneg(strips, n - 1, n);
        lemma_heights_sum(t);
        assert(heights(strips).drop_last() =~= heights(t));
        let h = strips[n - 1].height;
        assert(nonneg(h));
        lemma_nonneg_value(h);
        assert(n * p == (n - 1) * p + p) by (nonlinear_arith);
        assert(0 <= n * p <= 100 * p) by (nonlinear_arith)
            requires
                0 <= n <= 100,
                p > 0,
        ;
        lemma_plus_is_near(sum(heights(t)), h);
        assert(sum(heights(strips)) == sum(heights(t)).plus(h));
    } else {
        assert(0 * p == 0);
    }
}

/// The distance between the strips of a page is at least ten points and at
/// most twenty-five. It fills the page, or is the greatest: the strips never
/// come to more than the 770 points between the margins, and to less only
/// where they are twenty-five points apart, but for an eighth of a point.
pub proof fn lemma_strips_are_spread(strips: Seq<Strip>)
    requires
        strips.len() > 1,
        upright_strips(strips),
        fits(strips),
    ensures
        strips.len() <= 78,
        gap_of(strips).finite(),
        10 * one_units() <= gap_of(strips).value() <= 25 * one_units(),
        ({
            let used = stacked(strips, strips.len() as int) + (strips.len() - 1) * gap_of(
                strips,
            ).value();
            &&& 8 * used <= 8 * (770 * one_units()) + one_units()
            &&& gap_of(strips).value() < 25 * one_units() ==> 8 * used >= 8 * (770 * one_units())
                - one_units()
        }),
{
    let one = one_units();
    let p = speck();
    let n = strips.len() as int;
    let t = stacked(strips, n);
    lemma_pow2_pos(136);
    lemma_pow2_pos(149);
    lemma2_to64();
    lemma_pow2_adds(136, 13);
    lemma_units_at(0, 0);
    lemma_page_in_points();
    lemma_room_is_stacked(strips);
    lemma_stacked_nonneg(strips, 0, n);
    assert(n <= 78) by (nonlinear_arith)
        requires
            16 * (t + 10 * (n - 1) * one) <= 16 * (770 * one) + one,
            t >= 0,
            one > 0,
    ;
    assert(10 * (n - 1) * one >= 10 * one) by (nonlinear_arith)
        requires
            n >= 2,
            one > 0,
    ;
    lemma_heights_sum(strips);
    let total = sum(heights(strips));
    assert(0 <= n * p <= 78 * p) by (nonlinear_arith)
        requires
            0 <= n <= 78,
            p > 0,
    ;
    let avail = inner_height().minus(total);
    lemma_minus_is_near(inner_height(), total);
    assert(avail.value() > 0);
    lemma_units_nonneg(avail.mag());
    assert(!avail.negative());
    let k = n - 1;
    lemma_whole_exact(k);
    let d = k * one;
    let a = avail.value();
    assert(d >= one) by (nonlinear_arith)
        requires
            d == k * one,
            k >= 1,
            one > 0,
    ;
    assert(0 <= a * one <= 2048 * one * d) by (nonlinear_arith)
        requires
            0 <= a <= 2048 * one,
            d >= one,
            one > 0,
    ;
    lemma_rounding_is_small(a * one, d);
    let q = avail.over(whole(k));
    assert(units(whole(k).mag()) == d);
    assert(q.mag() == nearest(a * one, d));
    let v = q.value();
    assert(v == units(q.mag()));
    assert(-(p * k) <= v * k - a <= p * k) by (nonlinear_arith)
        requires
            -p * d <= v * d - a * one <= p * d,
            d == k * one,
            one > 0,
    ;
    assert(0 <= p * k <= 77 * p) by (nonlinear_arith)
        requires
            0 <= k <= 77,
            p > 0,
    ;
    let lo = Single { bits: MIN_GAP };
    let hi = Single { bits: MAX_GAP };
    lemma_order_is_by_value(q, lo);
    lemma_order_is_by_value(lo, q);
    lemma_order_is_by_value(hi, q);
    lemma_order_is_by_value(q, hi);
    let g = gap_of(strips);
    let u = g.value();
    assert(g == q.clamp(lo, hi));
    if q.lt(lo) {
        assert(u == 10 * one);
        assert(k * u == 10 * (n - 1) * one) by (nonlinear_arith)
            requires
                u == 10 * one,
                k == n - 1,
        ;
        assert(v * k <= k * u) by (nonlinear_arith)
            requires
                v <= u,
                k >= 1,
        ;
    } else if hi.lt(q) {
        assert(u == 25 * one);
        assert(k * u <= v * k) by (nonlinear_arith)
            requires
                u <= v,
                k >= 1,
        ;
    } else {
        assert(u == v);
        assert(k * u == v * k) by (nonlinear_arith)
            requires
                u == v,
        ;
    }
}

/// Where strip `i` ends: below all heights and distances before it, from the
/// upper margin down, but for rounding.
proof fn lemma_bottom_is_near(strips: Seq<Strip>, i: int)
    requires
        strips.len() > 1,
        upright_strips(strips),
        fits(strips),
        0 <= i < strips.len(),
    ensures
        top_of(strips, i).finite(),
        bottom_of(strips, i).finite(),
        -(2 * i * speck()) <= top_of(strips, i).value() - (806 * one_units() - stacked(strips, i)
            - i * gap_of(strips).value()) <= 2 * i * speck(),
        -((2 * i + 1) * speck()) <= bottom_of(strips, i).value() - (806 * one_units() - stacked(
            strips,
            i + 1,
        ) - i * gap_of(strips).value()) <= (2 * i + 1) * speck(),
        0 <= i * gap_of(strips).value() + stacked(strips, i + 1) <= 771 * one_units(),
    decreases i,
{
    let one = one_units();
    let p = speck();
    let n = strips.len() as int;
    let g = gap_of(strips);
    let u = g.value();
    lemma_pow2_pos(136);
    lemma_pow2_pos(149);
    lemma2_to64();
    lemma_pow2_adds(136, 13);
    lemma_page_in_points();
    lemma_strips_are_spread(strips);
    lemma_stacked_nonneg(strips, 0, i);
    lemma_stacked_nonneg(strips, i, i + 1);
    lemma_stacked_nonneg(strips, i + 1, n);
    assert(0 <= i * u <= (n - 1) * u) by (nonlinear_arith)
        requires
            0 <= i <= n - 1,
            u >= 0,
    ;
    assert(0 <= 2 * i * p && (2 * i + 1) * p <= 155 * p && 2 * i * p <= 155 * p) by (nonlinear_arith)
        requires
            0 <= i <= 77,
            p > 0,
    ;
    assert((2 * i + 1) * p == 2 * i * p + p) by (nonlinear_arith);
    let h = strips[i].height;
    assert(h.finite() && nonneg(h));
    lemma_nonneg_value(h);
    if i == 0 {
        lemma_whole_difference(Single { bits: PAGE_H }, Single { bits: MARGIN }, 842, 36);
        lemma_whole_exact(806);
        assert(i * u == 0) by (nonlinear_arith)
            requires
                i == 0,
        ;
        assert(2 * i * p == 0) by (nonlinear_arith)
            requires
                i == 0,
        ;
    } else {
        lemma_bottom_is_near(strips, i - 1);
        let b = bottom_of(strips, i - 1);
        assert((2 * (i - 1) + 1) * p + p == 2 * i * p) by (nonlinear_arith);
        assert(i * u == (i - 1) * u + u) by (nonlinear_arith);
        lemma_minus_is_near(b, g);
        assert(top_of(strips, i) == b.minus(g));
    }
    lemma_minus_is_near(top_of(strips, i), h);
}

/// The strips of a page stand between its margins, one below the other: the
/// first starts at the upper margin, 806 points above the bottom of the
/// page, each ends by its height lower and the next starts by the distance
/// lower, and none reaches below the lower margin, 36 points above the
/// bottom, but for a quarter of a point.
pub proof fn lemma_strips_stay_between_margins(strips: Seq<Strip>, i: int)
    requires
        strips.len() > 1,
        upright_strips(strips),
        fits(strips),
        0 <= i < strips.len(),
    ensures
        top_of(strips, 0).value() == 806 * one_units(),
        4 * bottom_of(strips, i).value() >= 4 * (36 * one_units()) - one_units(),
        ({
            let start = 806 * one_units() - stacked(strips, i) - i * gap_of(strips).value();
            &&& -one_units() <= 16 * (top_of(strips, i).value() - start) <= one_units()
            &&& -one_units() <= 16 * (bottom_of(strips, i).value() - (start
                - strips[i].height.value())) <= one_units()
        }),
        i == strips.len() - 1 && gap_of(strips).value() < 25 * one_units() ==> 4 * bottom_of(
            strips,
            i,
        ).value() <= 4 * (36 * one_units()) + one_units(),
{
    let p = speck();
    let n = strips.len() as int;
    let u = gap_of(strips).value();
    lemma_pow2_pos(136);
    lemma_pow2_pos(149);
    lemma2_to64();
    lemma_pow2_adds(136, 13);
    lemma_page_in_points();
    lemma_strips_are_spread(strips);
    lemma_bottom_is_near(strips, i);
    lemma_stacked_nonneg(strips, i + 1, n);
    lemma_whole_difference(Single { bits: PAGE_H }, Single { bits: MARGIN }, 842, 36);
    lemma_whole_exact(806);
    assert(0 <= 2 * i * p && (2 * i + 1) * p <= 155 * p && 2 * i * p <= 155 * p) by (nonlinear_arith)
        requires
            0 <= i <= 77,
            p > 0,
    ;
    assert(0 <= i * u <= (n - 1) * u) by (nonlinear_arith)
        requires
            0 <= i <= n - 1,
            u >= 0,
    ;
    assert(i == n - 1 ==> i * u == (n - 1) * u);
}

/// Where a length lands, scaled and moved, is rounded by little.
proof fn lemma_lands_near(a: Single, scale: Single, shift: Single)
    requires
        a.finite(),
        scale.finite(),
        shift.finite(),
        !scale.negative(),
        -1000 * one_units() <= shift.value() <= 1000 * one_units(),
        -1000 * one_units() * one_units() <= a.value() * scale.value() <= 1000 * one_units()
            * one_units(),
    ensures
        a.times(scale).finite(),
        -speck() * one_units() <= a.times(scale).value() * one_units() - a.value() * scale.value()
            <= speck() * one_units(),
        -1001 * one_units() <= a.times(scale).value() <= 1001 * one_units(),
        shift.plus(a.times(scale)).finite(),
        -2 * speck() * one_units() <= shift.plus(a.times(scale)).value() * one_units() - (
        shift.value() * one_units() + a.value() * scale.value()) <= 2 * speck() * one_units(),
{
    let one = one_units();
    let p = speck();
    let u = units(a.mag());
    let s = scale.value();
    let n = u * s;
    lemma_pow2_pos(149);
    lemma_pow2_pos(136);
    lemma2_to64();
    lemma_pow2_adds(136, 13);
    lemma_units_nonneg(a.mag());
    lemma_units_nonneg(scale.mag());
    assert(a.value() * s == if a.negative() {
        -n
    } else {
        n
    }) by {
        assert((-u) * s == -(u * s)) by (nonlinear_arith);
    }
    assert(n >= 0) by (nonlinear_arith)
        requires
            n == u * s,
            u >= 0,
            s >= 0,
    ;
    assert(1000 * one * one <= 2048 * one * one) by (nonlinear_arith)
        requires
            one > 0,
    ;
    assert(-1000 * one * one == -(1000 * one * one)) by (nonlinear_arith);
    lemma_rounding_is_small(n, one);
    let t = a.times(scale);
    assert(t.mag() == nearest(n, one));
    let m = units(t.mag());
    assert(t.value() * one == if a.negative() {
        -(m * one)
    } else {
        m * one
    }) by {
        assert((-m) * one == -(m * one)) by (nonlinear_arith);
    }
    assert(-p * one == -(p * one)) by (nonlinear_arith);
    assert(m <= 1001 * one) by (nonlinear_arith)
        requires
            m * one <= n + p * one,
            n <= 1000 * one * one,
            one == p * 8192,
            p > 0,
    ;
    assert(-1001 * one <= t.value() <= 1001 * one);
    lemma_plus_is_near(shift, t);
    let r = shift.plus(t).value();
    assert(-(p * one) <= r * one - (shift.value() * one + t.value() * one) <= p * one) by (
        nonlinear_arith)
        requires
            -p <= r - (shift.value() + t.value()) <= p,
            one > 0,
    ;
    assert(2 * p * one == p * one + p * one) by (nonlinear_arith);
    assert(-2 * p * one == -(2 * p * one)) by (nonlinear_arith);
}

/// A strip lands where it stands on the page: what was at the lower edge of
/// its band comes to where the strip ends, what was at the left edge of its
/// source page comes to the margin, 36 points from the left, and it is
/// clipped there to its own height and to the 523 points between the
/// margins.
pub proof fn lemma_strips_land_in_place(strips: Seq<Strip>, i: int)
    requires
        0 <= i < strips.len(),
        strips[i].page is None,
        strips[i].scale.finite(),
        !strips[i].scale.negative(),
        strips[i].band.y_bot.finite(),
        bottom_of(strips, i).finite(),
        -1000 * one_units() <= bottom_of(strips, i).value() <= 1000 * one_units(),
        -1000 * one_units() * one_units() <= strips[i].band.y_bot.value() * strips[i].scale.value()
            <= 1000 * one_units() * one_units(),
    ensures
        ({
            let at = placement_of(strips, i);
            let landed = at.move_y.value() * one_units() + strips[i].band.y_bot.value()
                * at.scale.value();
            &&& at.scale == strips[i].scale
            &&& at.move_x.value() == 36 * one_units()
            &&& at.move_y.finite()
            &&& -2 * speck() * one_units() <= landed - bottom_of(strips, i).value() * one_units()
                <= 2 * speck() * one_units()
        }),
        clip_of(strips, i).len() == 1 + strips[i].protrusions.len(),
        clip_of(strips, i)[0].left.value() == 36 * one_units(),
        clip_of(strips, i)[0].width.value() == 523 * one_units(),
        clip_of(strips, i)[0].bottom == bottom_of(strips, i),
        clip_of(strips, i)[0].height == strips[i].height,
{
    let one = one_units();
    let p = speck();
    let s = strips[i];
    let b = bottom_of(strips, i);
    let t = s.band.y_bot.times(s.scale);
    lemma_pow2_pos(149);
    lemma_pow2_pos(136);
    lemma_page_in_points();
    lemma_lands_near(s.band.y_bot, s.scale, b);
    lemma_minus_is_near(b, t);
    let m = b.minus(t).value();
    assert(-(p * one) <= m * one - (b.value() * one - t.value() * one) <= p * one) by (
        nonlinear_arith)
        requires
            -p <= m - (b.value() - t.value()) <= p,
            one > 0,
    ;
    assert(-p * one == -(p * one)) by (nonlinear_arith);
    assert(2 * p * one == p * one + p * one) by (nonlinear_arith);
    assert(-2 * p * one == -(2 * p * one)) by (nonlinear_arith);
}

/// A length of one direction, from `a` to `b`, that is scaled and moved: its
/// start lands where it should, and so does its end.
proof fn lemma_span_lands(a: Single, b: Single, scale: Single, shift: Single)
    requires
        a.finite(),
        b.finite(),
        scale.finite(),
        shift.finite(),
        !scale.negative(),
        -1000 * one_units() <= shift.value() <= 1000 * one_units(),
        -1000 * one_units() <= b.value() - a.value() <= 1000 * one_units(),
        -1000 * one_units() * one_units() <= a.value() * scale.value() <= 1000 * one_units()
            * one_units(),
        -999 * one_units() * one_units() <= (b.value() - a.value()) * scale.value() <= 999
            * one_units() * one_units(),
        scale.value() <= 8 * one_units(),
    ensures
        shift.plus(a.times(scale)).finite(),
        b.minus(a).times(scale).finite(),
        -2 * speck() * one_units() <= shift.plus(a.times(scale)).value() * one_units() - (
        shift.value() * one_units() + a.value() * scale.value()) <= 2 * speck() * one_units(),
        -12 * speck() * one_units() <= (shift.plus(a.times(scale)).value() + b.minus(a).times(
            scale,
        ).value()) * one_units() - (shift.value() * one_units() + b.value() * scale.value()) <= 12
            * speck() * one_units(),
{
    let one = one_units();
    let p = speck();
    let s = scale.value();
    lemma_pow2_pos(149);
    lemma_pow2_pos(136);
    lemma2_to64();
    lemma_pow2_adds(136, 13);
    lemma_units_nonneg(scale.mag());
    lemma_lands_near(a, scale, shift);
    lemma_minus_is_near(b, a);
    let d = b.minus(a);
    let x = b.value() - a.value();
    let e = d.value();
    assert(x * s - p * s <= e * s <= x * s + p * s) by (nonlinear_arith)
        requires
            x - p <= e <= x + p,
            s >= 0,
    ;
    assert(0 <= p * s <= 8 * (p * one)) by (nonlinear_arith)
        requires
            0 <= s <= 8 * one,
            p > 0,
    ;
    assert(8 * (p * one) <= one * one) by (nonlinear_arith)
        requires
            one == p * 8192,
            p > 0,
    ;
    assert(1000 * one * one == 999 * one * one + one * one) by (nonlinear_arith);
    assert(-1000 * one * one == -(1000 * one * one)) by (nonlinear_arith);
    assert(-999 * one * one == -(999 * one * one)) by (nonlinear_arith);
    lemma_lands_near(d, scale, shift);
    let start = shift.plus(a.times(scale)).value();
    let width = d.times(scale).value();
    assert((start + width) * one == start * one + width * one) by (nonlinear_arith);
    assert(x * s == b.value() * s - a.value() * s) by (nonlinear_arith)
        requires
            x == b.value() - a.value(),
    ;
    assert(-p * one == -(p * one)) by (nonlinear_arith);
    assert(2 * p * one == p * one + p * one) by (nonlinear_arith);
    assert(-2 * p * one == -(2 * p * one)) by (nonlinear_arith);
    assert(12 * p * one == 12 * (p * one)) by (nonlinear_arith);
    assert(-12 * p * one == -(12 * (p * one))) by (nonlinear_arith);
}

/// A rectangle of ordinary size, under an ordinary scale.
pub open spec fn ordinary(p: Protrusion, at: Placement) -> bool {
    let one = one_units();
    let s = at.scale.value();
    &&& p.x_left.finite() && p.x_right.finite() && p.y_top.finite() && p.y_bot.finite()
    &&& at.scale.finite() && !at.scale.negative() && s <= 8 * one
    &&& at.move_x.finite() && -1000 * one <= at.move_x.value() <= 1000 * one
    &&& at.move_y.finite() && -1000 * one <= at.move_y.value() <= 1000 * one
    &&& -1000 * one <= p.x_right.value() - p.x_left.value() <= 1000 * one
    &&& -1000 * one <= p.y_top.value() - p.y_bot.value() <= 1000 * one
    &&& -1000 * one * one <= p.x_left.value() * s <= 1000 * one * one
    &&& -1000 * one * one <= p.y_bot.value() * s <= 1000 * one * one
    &&& -999 * one * one <= (p.x_right.value() - p.x_left.value()) * s <= 999 * one * one
    &&& -999 * one * one <= (p.y_top.value() - p.y_bot.value()) * s <= 999 * one * one
}

/// What reaches out of a band lands where its strip does: each edge of its
/// rectangle comes to where the strip's scale and shift bring it, but for
/// rounding.
pub proof fn lemma_protrusions_land_in_place(p: Protrusion, at: Placement)
    requires
        ordinary(p, at),
    ensures
        ({
            let one = one_units();
            let s = at.scale.value();
            let r = placed(p, at);
            let slack = 12 * speck() * one;
            &&& -slack <= r.left.value() * one - (at.move_x.value() * one + p.x_left.value() * s)
                <= slack
            &&& -slack <= (r.left.value() + r.width.value()) * one - (at.move_x.value() * one
                + p.x_right.value() * s) <= slack
            &&& -slack <= r.bottom.value() * one - (at.move_y.value() * one + p.y_bot.value() * s)
                <= slack
            &&& -slack <= (r.bottom.value() + r.height.value()) * one - (at.move_y.value() * one
                + p.y_top.value() * s) <= slack
        }),
{
    let one = one_units();
    let k = speck();
    lemma_pow2_pos(149);
    lemma_pow2_pos(136);
    lemma_span_lands(p.x_left, p.x_right, at.scale, at.move_x);
    lemma_span_lands(p.y_bot, p.y_top, at.scale, at.move_y);
    assert(2 * k * one <= 12 * k * one && -2 * k * one >= -(12 * k * one) && -12 * k * one == -(12
        * k * one)) by (nonlinear_arith)
        requires
            k > 0,
            one > 0,
    ;
}

} // verus!
