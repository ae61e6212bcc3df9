//! Pixels, points and grey values, in numbers.
use crate::bounds::{
    lemma_nonneg_value, lemma_order_is_by_value, lemma_plus_nonneg, lemma_shifted_pattern,
    lemma_whole_exact,
};
use crate::detect::{box_in_points, height_in_points, PageScale, INCH};
use crate::fitting::lemma_whole_product;
use crate::image::{spec_luma, BLUE_WEIGHT, GREEN_WEIGHT, RED_WEIGHT};
use crate::monotone::{
    lemma_nearest_mono, lemma_rounded_rank, lemma_times_mono, lemma_truncated_mono,
    lemma_units_nonneg,
};
use crate::picture::pixel_at;
use crate::pipeline::pixels_for;
use crate::protrusions::PixelBox;
use crate::rounding::{
    lemma_nearest_ge, lemma_nearest_le, lemma_nearest_rounds, lemma_units_at, lemma_units_mono,
    nearest, units, MAG_INF,
};
use crate::single::{one_units, whole, Single};
use crate::sums::{
    lemma_minus_is_near, lemma_plus_is_near, lemma_rounding_is_relative, lemma_rounding_is_small,
    speck,
};
use vstd::arithmetic::div_mod::*;
use vstd::arithmetic::power2::*;
use vstd::prelude::*;

verus! {

/// An inch has 72 points.
proof fn lemma_inch()
    ensures
        (Single { bits: INCH }).value() == 72 * one_units(),
        (Single { bits: INCH }).finite(),
{
    lemma2_to64();
    lemma_units_at(132, 0x90_0000);
    lemma_pow2_adds(132, 17);
}

/// A number of pixels at a resolution comes to so many seventy-second parts
/// of an inch, but for rounding.
proof fn lemma_pixels_in_points(y: Single, dpi: u32)
    requires
        y.finite(),
        !y.negative(),
        0 < dpi <= 0x100_0000,
        72 * y.value() <= 1000 * one_units() * dpi,
    ensures
        ({
            let t = y.times((Single { bits: INCH }).over(whole(dpi as int)));
            &&& t.finite()
            &&& !t.negative()
            &&& -(2 * (speck() * dpi)) <= t.value() * dpi - 72 * y.value() <= 2 * (speck() * dpi)
        }),
{
    let one = one_units();
    let p = speck();
    let r = dpi as int;
    let inch = Single { bits: INCH };
    lemma_pow2_pos(149);
    lemma_pow2_pos(136);
    lemma2_to64();
    lemma_pow2_adds(136, 13);
    lemma_inch();
    lemma_whole_exact(r);
    // The points to a pixel.
    let n = (72 * one) * one;
    let d = r * one;
    lemma_pow2_adds(48, 101);
    lemma_pow2_pos(101);
    lemma_pow2_adds(24, 24);
    let big = pow2(48) as int;
    let rest = pow2(101) as int;
    let part = pow2(24) as int;
    assert(one >= 0x100_0000 * 0x100_0000) by (nonlinear_arith)
        requires
            one == big * rest,
            big == part * part,
            part == 0x100_0000,
            rest >= 1,
    ;
    assert(d > 0 && n >= 0x80_0000 * d && n <= 2048 * one * d) by (nonlinear_arith)
        requires
            n == (72 * one) * one,
            d == r * one,
            0 < r <= 0x100_0000,
            one >= 0x100_0000 * 0x100_0000,
    ;
    lemma_rounding_is_relative(n, d);
    lemma_rounding_is_small(n, d);
    let pp = inch.over(whole(r));
    let u = units(nearest(n, d));
    assert(pp.mag() == nearest(n, d));
    assert(!pp.negative());
    let ur = u * r;
    assert(-ur <= 0x100_0000 * (ur - 72 * one) <= ur) by (nonlinear_arith)
        requires
            -(u * d) <= 0x100_0000 * (u * d - n) <= u * d,
            ur == u * r,
            n == (72 * one) * one,
            d == r * one,
            one > 0,
    ;
    // The product.
    let v = y.value();
    lemma_units_nonneg(y.mag());
    let m = v * u;
    let e = v * ur;
    assert(-e <= 0x100_0000 * (e - 72 * (v * one)) <= e) by (nonlinear_arith)
        requires
            -ur <= 0x100_0000 * (ur - 72 * one) <= ur,
            e == v * ur,
            v >= 0,
    ;
    let c = (one * one) * r;
    assert(72 * (v * one) <= 1000 * c) by (nonlinear_arith)
        requires
            72 * v <= 1000 * one * r,
            c == (one * one) * r,
            one > 0,
    ;
    assert(c >= 0) by (nonlinear_arith)
        requires
            c == (one * one) * r,
            r > 0,
    ;
    assert(e <= 1001 * c);
    assert(e == m * r) by (nonlinear_arith)
        requires
            e == v * ur,
            m == v * u,
            ur == u * r,
    ;
    assert(0 <= m <= 1001 * (one * one)) by (nonlinear_arith)
        requires
            m == v * u,
            v >= 0,
            u >= 0,
            m * r <= 1001 * ((one * one) * r),
            r > 0,
    ;
    assert(1001 * (one * one) <= 2048 * one * one) by (nonlinear_arith)
        requires
            one > 0,
    ;
    lemma_rounding_is_small(m, one);
    let t = y.times(pp);
    let w = units(nearest(m, one));
    assert(t.mag() == nearest(m, one));
    assert(t.value() == w);
    let pr = p * r;
    let pc = pr * one;
    assert(-pc <= (w * r) * one - e <= pc) by (nonlinear_arith)
        requires
            -p * one <= w * one - m <= p * one,
            e == m * r,
            pr == p * r,
            pc == pr * one,
            r > 0,
    ;
    assert(c == 8192 * pc) by (nonlinear_arith)
        requires
            c == (one * one) * r,
            pc == pr * one,
            pr == p * r,
            one == 8192 * p,
    ;
    assert(-(2 * pc) <= (w * r) * one - 72 * (v * one) <= 2 * pc);
    assert(-(2 * pr) <= w * r - 72 * v <= 2 * pr) by (nonlinear_arith)
        requires
            -(2 * pc) <= (w * r) * one - 72 * (v * one) <= 2 * pc,
            pc == pr * one,
            one > 0,
    ;
}

/// A row of pixels, counted from the top of a page, lies as many points
/// above its bottom as the height of the page leaves: 72 points are as many
/// pixels as the resolution says. Rows below the page lie at its bottom. It
/// is rounded by little.
pub proof fn lemma_rows_in_points(y: Single, height: Single, dpi: u32, pad: Single)
    requires
        y.finite(),
        !y.negative(),
        0 < dpi <= 0x100_0000,
        72 * y.value() <= 1000 * one_units() * dpi,
        height.finite(),
        !height.negative(),
        height.value() <= 1000 * one_units(),
    ensures
        ({
            let scale = PageScale {
                height,
                per_pixel: (Single { bits: INCH }).over(whole(dpi as int)),
                pad,
            };
            let h = height_in_points(y, scale);
            let exact = height.value() * dpi - 72 * y.value();
            &&& h.finite()
            &&& 0 <= h.value() <= height.value()
            &&& exact >= 0 ==> -(3 * (speck() * dpi)) <= h.value() * dpi - exact <= 3 * (speck()
                * dpi)
            &&& exact <= 0 ==> h.value() <= 3 * speck()
        }),
{
    let p = speck();
    let r = dpi as int;
    let one = one_units();
    let scale = PageScale {
        height,
        per_pixel: (Single { bits: INCH }).over(whole(dpi as int)),
        pad,
    };
    let zero = Single { bits: 0 };
    lemma_pow2_pos(149);
    lemma_pow2_pos(136);
    lemma2_to64();
    lemma_pow2_adds(136, 13);
    lemma_units_at(0, 0);
    lemma_pixels_in_points(y, dpi);
    let t = y.times(scale.per_pixel);
    let pr = p * r;
    lemma_units_nonneg(t.mag());
    lemma_units_nonneg(height.mag());
    assert(t.value() <= 1001 * one) by (nonlinear_arith)
        requires
            t.value() * r - 72 * y.value() <= 2 * pr,
            72 * y.value() <= 1000 * one * r,
            pr == p * r,
            one == 8192 * p,
            r > 0,
            p > 0,
    ;
    lemma_minus_is_near(height, t);
    let x = height.minus(t);
    lemma_order_is_by_value(x, zero);
    lemma_order_is_by_value(height, x);
    let h = height_in_points(y, scale);
    let a = x.value();
    let exact = height.value() * r - 72 * y.value();
    assert(-(3 * pr) <= a * r - exact <= 3 * pr) by (nonlinear_arith)
        requires
            -p <= a - (height.value() - t.value()) <= p,
            -(2 * pr) <= t.value() * r - 72 * y.value() <= 2 * pr,
            exact == height.value() * r - 72 * y.value(),
            pr == p * r,
            r > 0,
    ;
    let v = h.value();
    if x.lt(zero) {
        assert(v == 0);
        assert(v * r == 0 && a * r <= 0) by (nonlinear_arith)
            requires
                v == 0,
                a <= 0,
                r > 0,
        ;
    } else if height.lt(x) {
        assert(v == height.value());
        assert(v * r <= a * r && 72 * y.value() >= 0) by (nonlinear_arith)
            requires
                v <= a,
                r > 0,
                y.value() >= 0,
        ;
        if exact <= 0 {
            assert(v <= 3 * p) by (nonlinear_arith)
                requires
                    v <= a,
                    a * r <= exact + 3 * pr,
                    exact <= 0,
                    pr == p * r,
                    r > 0,
            ;
        }
    } else {
        if exact <= 0 {
            assert(v <= 3 * p) by (nonlinear_arith)
                requires
                    v == a,
                    a * r <= exact + 3 * pr,
                    exact <= 0,
                    pr == p * r,
                    r > 0,
            ;
        }
    }
}

/// A column of pixels lies as far from the left edge of a page in points as
/// the resolution says.
pub proof fn lemma_columns_in_points(b: PixelBox, height: Single, dpi: u32, pad: Single)
    requires
        0 < dpi <= 0x100_0000,
        b.x_left <= b.x_right <= 0x10_0000,
        72 * b.x_right <= 1000 * dpi,
    ensures
        ({
            let scale = PageScale {
                height,
                per_pixel: (Single { bits: INCH }).over(whole(dpi as int)),
                pad,
            };
            let r = box_in_points(b, scale);
            let slack = 2 * (speck() * dpi);
            &&& -slack <= r.x_left.value() * dpi - 72 * (b.x_left * one_units()) <= slack
            &&& -slack <= r.x_right.value() * dpi - 72 * (b.x_right * one_units()) <= slack
        }),
{
    let one = one_units();
    let r = dpi as int;
    lemma_pow2_pos(149);
    lemma_whole_exact(b.x_left as int);
    lemma_whole_exact(b.x_right as int);
    assert(72 * (b.x_left * one) <= 1000 * one * r && 72 * (b.x_right * one) <= 1000 * one * r) by (
        nonlinear_arith)
        requires
            72 * b.x_right <= 1000 * r,
            b.x_left <= b.x_right,
            one > 0,
    ;
    lemma_pixels_in_points(whole(b.x_left as int), dpi);
    lemma_pixels_in_points(whole(b.x_right as int), dpi);
}

/// A page of whole points is rendered with as many whole pixels as the
/// resolution gives: 72 points are an inch, and what is left of a pixel is
/// dropped.
pub proof fn lemma_pages_are_rendered_at_resolution(points: int, dpi: u32)
    requires
        0 <= points,
        0 < dpi <= 0x80_0000,
        points * dpi <= 0x80_0000,
    ensures
        72 * pixels_for(whole(points), dpi) <= points * dpi < 72 * (pixels_for(whole(points), dpi)
            + 1),
{
    let one = one_units();
    let r = dpi as int;
    let n = points * r;
    let inch = Single { bits: INCH };
    lemma_pow2_pos(149);
    lemma2_to64();
    lemma_inch();
    assert(points <= 0x80_0000 && n >= 0) by (nonlinear_arith)
        requires
            n == points * r,
            n <= 0x80_0000,
            r >= 1,
            points >= 0,
    ;
    lemma_whole_exact(points);
    lemma_whole_exact(r);
    lemma_whole_exact(n);
    lemma_whole_product(whole(points), whole(r), points, r);
    let k = n / 72;
    lemma_whole_exact(k);
    let a = (n * one) * one;
    let d = 72 * one;
    assert(units(whole(k).mag()) * d <= a) by (nonlinear_arith)
        requires
            units(whole(k).mag()) == k * one,
            a == (n * one) * one,
            d == 72 * one,
            72 * k <= n,
            one > 0,
    ;
    assert(a >= 0) by (nonlinear_arith)
        requires
            a == (n * one) * one,
            n >= 0,
            one > 0,
    ;
    lemma_nearest_ge(whole(k).mag(), a, d);
    let e = pow2(142) as int;
    lemma_pow2_pos(142);
    lemma_pow2_adds(7, 142);
    assert(one == 128 * e);
    let j = 128 * (k + 1) - 1;
    let m = lemma_shifted_pattern(j, 142);
    assert(a <= units(m) * d) by (nonlinear_arith)
        requires
            a == (n * one) * one,
            d == 72 * one,
            units(m) == j * e,
            j == 128 * (k + 1) - 1,
            one == 128 * e,
            n <= 72 * (k + 1) - 1,
            e > 0,
    ;
    lemma_nearest_le(m, a, d);
    let q = nearest(a, d);
    if whole(k).mag() < q {
        lemma_units_mono(whole(k).mag(), q);
    }
    if q < m {
        lemma_units_mono(q, m);
    }
    lemma_whole_exact(k + 1);
    assert(units(m) < (k + 1) * one) by (nonlinear_arith)
        requires
            units(m) == j * e,
            j == 128 * (k + 1) - 1,
            one == 128 * e,
            e > 0,
    ;
    if m >= whole(k + 1).mag() {
        if m > whole(k + 1).mag() {
            lemma_units_mono(whole(k + 1).mag(), m);
        }
    }
    let x = whole(n).over(inch);
    assert(x.mag() == q);
    assert(!x.negative());
    let u = units(q);
    lemma_fundamental_div_mod(u, one);
    lemma_mod_bound(u, one);
    let z = u / one;
    assert(z == k) by (nonlinear_arith)
        requires
            u == one * z + u % one,
            0 <= u % one < one,
            k * one <= u < (k + 1) * one,
            one > 0,
    ;
}

/// A longer page is never rendered with fewer pixels.
pub proof fn lemma_longer_pages_have_more_pixels(a: Single, b: Single, dpi: u32)
    requires
        a.le(b),
        b.finite(),
        !a.negative(),
        !b.negative(),
        0 < dpi <= 0x100_0000,
    ensures
        pixels_for(a, dpi) <= pixels_for(b, dpi),
{
    let one = one_units();
    let inch = Single { bits: INCH };
    let r = whole(dpi as int);
    lemma_pow2_pos(149);
    lemma_inch();
    lemma_whole_exact(dpi as int);
    lemma_units_at(0, 0);
    lemma2_to64();
    lemma_times_mono(a, b, r);
    let x = a.times(r);
    let y = b.times(r);
    lemma_units_nonneg(a.mag());
    lemma_units_nonneg(b.mag());
    lemma_units_nonneg(r.mag());
    assert(units(a.mag()) * units(r.mag()) >= 0 && units(b.mag()) * units(r.mag()) >= 0) by (
        nonlinear_arith)
        requires
            units(a.mag()) >= 0,
            units(b.mag()) >= 0,
            units(r.mag()) >= 0,
    ;
    lemma_nearest_rounds(units(a.mag()) * units(r.mag()), one);
    lemma_nearest_rounds(units(b.mag()) * units(r.mag()), one);
    assert(!x.negative() && !y.negative());
    lemma_units_nonneg(x.mag());
    lemma_units_nonneg(y.mag());
    if x.mag() < y.mag() {
        lemma_units_mono(x.mag(), y.mag());
    }
    let d = units(inch.mag());
    let m = units(x.mag()) * one;
    let n = units(y.mag()) * one;
    assert(0 <= m <= n) by (nonlinear_arith)
        requires
            m == units(x.mag()) * one,
            n == units(y.mag()) * one,
            0 <= units(x.mag()) <= units(y.mag()),
            one > 0,
    ;
    lemma_nearest_mono(m, n, d);
    let p = x.over(inch);
    let q = y.over(inch);
    if y.finite() {
        lemma_rounded_rank(false, m, d);
        lemma_rounded_rank(false, n, d);
        assert(p.le(q));
    } else {
        assert(q.rank() == MAG_INF);
        if x.finite() {
            lemma_rounded_rank(false, m, d);
        }
        assert(p.le(q));
    }
    lemma_truncated_mono(p, q, i32::MIN as int, i32::MAX as int);
}

/// A part of a colour, weighed.
proof fn lemma_weighed(weight: Single, v: u8)
    requires
        weight.finite(),
        !weight.negative(),
        weight.value() <= one_units(),
    ensures
        weight.times(whole(v as int)).finite(),
        !weight.times(whole(v as int)).negative(),
        -speck() <= weight.times(whole(v as int)).value() - weight.value() * v <= speck(),
{
    let one = one_units();
    let p = speck();
    let w = weight.value();
    lemma_pow2_pos(149);
    lemma_pow2_pos(136);
    lemma_units_nonneg(weight.mag());
    lemma_whole_exact(v as int);
    let n = w * (v * one);
    assert(0 <= n <= 2048 * one * one) by (nonlinear_arith)
        requires
            n == w * (v * one),
            0 <= w <= one,
            0 <= v <= 255,
            one > 0,
    ;
    lemma_rounding_is_small(n, one);
    let x = weight.times(whole(v as int));
    let m = units(nearest(n, one));
    assert(x.mag() == nearest(n, one));
    assert(x.value() == m);
    assert(-p <= m - w * v <= p) by (nonlinear_arith)
        requires
            -p * one <= m * one - n <= p * one,
            n == w * (v * one),
            one > 0,
    ;
}

/// The grey value of a colour is 0.299 of its red, 0.587 of its green and
/// 0.114 of its blue together, cut to a whole number.
pub proof fn lemma_grey_is_weighted(r: u8, g: u8, b: u8)
    ensures
        ({
            let sum = 299 * r + 587 * g + 114 * b;
            &&& 0 <= spec_luma(r, g, b) <= 255
            &&& 1000 * spec_luma(r, g, b) <= sum + 1
            &&& sum - 1 < 1000 * (spec_luma(r, g, b) + 1)
        }),
{
    let one = one_units();
    let p = speck();
    lemma_pow2_pos(149);
    lemma_pow2_pos(136);
    lemma_pow2_pos(122);
    lemma2_to64();
    lemma_pow2_adds(136, 13);
    lemma_units_at(124, 0x99_1687);
    lemma_units_at(125, 0x96_45a2);
    lemma_units_at(122, 0xe9_78d5);
    assert(124 * 0x80_0000 + 0x99_1687 == 0x3e99_1687);
    assert(125 * 0x80_0000 + 0x96_45a2 == 0x3f16_45a2);
    assert(122 * 0x80_0000 + 0xe9_78d5 == 0x3de9_78d5);
    lemma_pow2_adds(122, 2);
    lemma_pow2_adds(122, 3);
    lemma_pow2_adds(122, 27);
    lemma_pow2_adds(122, 14);
    let e = pow2(122) as int;
    assert(one == 0x800_0000 * e && p == 0x4000 * e);
    let x = Single { bits: RED_WEIGHT };
    let y = Single { bits: GREEN_WEIGHT };
    let z = Single { bits: BLUE_WEIGHT };
    assert(pow2(124) == 4 * e && pow2(125) == 8 * e);
    assert(x.value() == 0x99_1687 * pow2(124));
    assert(y.value() == 0x96_45a2 * pow2(125));
    assert(x.value() == 0x264_5a1c * e);
    assert(y.value() == 0x4b2_2d10 * e);
    assert(z.value() == 0xe9_78d5 * e);
    lemma_weighed(x, r);
    lemma_weighed(y, g);
    lemma_weighed(z, b);
    let red = x.times(whole(r as int));
    let green = y.times(whole(g as int));
    let blue = z.times(whole(b as int));
    let rv: int = r as int;
    let gv: int = g as int;
    let bv: int = b as int;
    assert(x.value() * r == 0x264_5a1c * (e * rv)) by (nonlinear_arith)
        requires
            x.value() == 0x264_5a1c * e,
            rv == r,
    ;
    assert(y.value() * g == 0x4b2_2d10 * (e * gv)) by (nonlinear_arith)
        requires
            y.value() == 0x4b2_2d10 * e,
            gv == g,
    ;
    assert(z.value() * b == 0xe9_78d5 * (e * bv)) by (nonlinear_arith)
        requires
            z.value() == 0xe9_78d5 * e,
            bv == b,
    ;
    let er = e * rv;
    let eg = e * gv;
    let eb = e * bv;
    assert(0 <= er <= 255 * e && 0 <= eg <= 255 * e && 0 <= eb <= 255 * e) by (nonlinear_arith)
        requires
            er == e * rv,
            eg == e * gv,
            eb == e * bv,
            0 <= rv <= 255,
            0 <= gv <= 255,
            0 <= bv <= 255,
            e > 0,
    ;
    lemma_units_nonneg(red.mag());
    lemma_units_nonneg(green.mag());
    lemma_units_nonneg(blue.mag());
    lemma_plus_is_near(red, green);
    let two = red.plus(green);
    lemma_plus_is_near(two, blue);
    let all = two.plus(blue);
    let v = all.value();
    let sum = 299 * rv + 587 * gv + 114 * bv;
    let es = e * sum;
    assert(es == 299 * er + 587 * eg + 114 * eb) by (nonlinear_arith)
        requires
            es == e * sum,
            sum == 299 * rv + 587 * gv + 114 * bv,
            er == e * rv,
            eg == e * gv,
            eb == e * bv,
    ;
    // In thousandths, the sum is off by less than one.
    assert(1000 * v <= 0x800_0000 * es + one);
    assert(1000 * v >= 0x800_0000 * es - one);
    assert(!all.negative()) by {
        lemma_plus_nonneg(red, green);
        lemma_plus_nonneg(two, blue);
        lemma_nonneg_value(all);
        if all.negative() {
            assert(all.mag() == 0);
            assert(two.negative() && blue.negative());
        }
    }
    assert(0x800_0000 * es == sum * one) by (nonlinear_arith)
        requires
            es == e * sum,
            one == 0x800_0000 * e,
    ;
    lemma_fundamental_div_mod(v, one);
    lemma_mod_bound(v, one);
    let q = v / one;
    assert(q >= 0 && 1000 * q <= sum + 1 && sum - 1 < 1000 * (q + 1)) by (nonlinear_arith)
        requires
            v == one * q + v % one,
            0 <= v % one < one,
            v >= 0,
            sum * one - one <= 1000 * v <= sum * one + one,
            one > 0,
    ;
    lemma_units_nonneg(all.mag());
}

/// Rounding to a whole number gives the nearest one, and of two equally near
/// ones the larger.
pub proof fn lemma_nearest_whole_is_nearest(x: Single, hi: int)
    requires
        x.finite(),
        !x.negative(),
        x.value() < hi * one_units(),
    ensures
        -one_units() < 2 * (x.nearest_whole(hi) * one_units() - x.value()) <= one_units(),
{
    let one = one_units();
    lemma_pow2_pos(149);
    lemma_units_nonneg(x.mag());
    let u = units(x.mag());
    let n = 2 * u + one;
    let d = 2 * one;
    lemma_fundamental_div_mod(n, d);
    lemma_mod_bound(n, d);
    let q = n / d;
    assert(0 <= q <= hi && -one < 2 * (q * one - u) <= one) by (nonlinear_arith)
        requires
            n == d * q + n % d,
            0 <= n % d < d,
            n == 2 * u + one,
            d == 2 * one,
            0 <= u < hi * one,
            one > 0,
    ;
}

/// Cutting to a whole number gives the largest one that is not above, and
/// rounding up the smallest that is not below.
pub proof fn lemma_cutting_and_rounding_up(x: Single, hi: int)
    requires
        x.finite(),
        !x.negative(),
        x.value() <= hi * one_units(),
    ensures
        x.truncated(0, hi) * one_units() <= x.value() < (x.truncated(0, hi) + 1) * one_units(),
        x.value() <= x.ceiling(hi) * one_units() < x.value() + one_units(),
{
    let one = one_units();
    lemma_pow2_pos(149);
    lemma_units_nonneg(x.mag());
    let u = units(x.mag());
    lemma_fundamental_div_mod(u, one);
    lemma_mod_bound(u, one);
    let q = u / one;
    assert(0 <= q <= hi && q * one <= u < (q + 1) * one) by (nonlinear_arith)
        requires
            u == one * q + u % one,
            0 <= u % one < one,
            0 <= u <= hi * one,
            one > 0,
    ;
    let n = u + one - 1;
    lemma_fundamental_div_mod(n, one);
    lemma_mod_bound(n, one);
    let c = n / one;
    assert(0 <= c <= hi && u <= c * one < u + one) by (nonlinear_arith)
        requires
            n == one * c + n % one,
            0 <= n % one < one,
            n == u + one - 1,
            0 <= u <= hi * one,
            one > 0,
    ;
}

/// A row that was turned into points is found again in a picture of the
/// page: its mark lies on the very row.
pub proof fn lemma_rows_are_found_again(n: int, height: Single, dpi: u32, pad: Single, size: u32)
    requires
        0 <= n < size <= 0x1_0000,
        0 < dpi <= 0x4000,
        72 * n <= 1000 * dpi,
        height.finite(),
        !height.negative(),
        72 * (n * one_units()) <= height.value() * dpi,
        height.value() <= 1000 * one_units(),
    ensures
        ({
            let per_pixel = (Single { bits: INCH }).over(whole(dpi as int));
            let scale = PageScale { height, per_pixel, pad };
            pixel_at(
                height.minus(height_in_points(whole(n), scale)),
                per_pixel,
                size,
            ) == n
        }),
{
    let one = one_units();
    let p = speck();
    let r = dpi as int;
    let inch = Single { bits: INCH };
    let pp = inch.over(whole(r));
    let scale = PageScale { height, per_pixel: pp, pad };
    lemma_pow2_pos(149);
    lemma_pow2_pos(136);
    lemma2_to64();
    lemma_pow2_adds(136, 13);
    lemma_units_at(0, 0);
    lemma_whole_exact(n);
    assert(72 * (n * one) <= 1000 * one * r) by (nonlinear_arith)
        requires
            72 * n <= 1000 * r,
            one > 0,
    ;
    lemma_rows_in_points(whole(n), height, dpi, pad);
    let h = height_in_points(whole(n), scale);
    let pr = p * r;
    let v = n * one;
    lemma_minus_is_near(height, h);
    let d = height.minus(h);
    let x = d.value();
    lemma_order_is_by_value(h, height);
    assert(!d.negative()) by {
        assert(h.neg().mag() == h.mag());
        assert(h.neg().value() == -h.value());
        if height.value() - h.value() > 0 {
            lemma_nearest_rounds(height.value() - h.value(), 1);
        }
    }
    assert(-(4 * pr) <= x * r - 72 * v <= 4 * pr) by (nonlinear_arith)
        requires
            -p <= x - (height.value() - h.value()) <= p,
            -(3 * pr) <= h.value() * r - (height.value() * r - 72 * v) <= 3 * pr,
            pr == p * r,
            r > 0,
    ;
    // The points to a pixel.
    lemma_inch();
    lemma_whole_exact(r);
    let a = (72 * one) * one;
    let b = r * one;
    lemma_pow2_adds(48, 101);
    lemma_pow2_pos(101);
    lemma_pow2_adds(24, 24);
    let big = pow2(48) as int;
    let rest = pow2(101) as int;
    let part = pow2(24) as int;
    assert(one >= 0x100_0000 * 0x100_0000) by (nonlinear_arith)
        requires
            one == big * rest,
            big == part * part,
            part == 0x100_0000,
            rest >= 1,
    ;
    assert(b > 0 && a >= 0x80_0000 * b && a <= 2048 * one * b) by (nonlinear_arith)
        requires
            a == (72 * one) * one,
            b == r * one,
            0 < r <= 0x100_0000,
            one >= 0x100_0000 * 0x100_0000,
    ;
    lemma_rounding_is_relative(a, b);
    lemma_rounding_is_small(a, b);
    let u = units(nearest(a, b));
    assert(pp.mag() == nearest(a, b));
    assert(!pp.negative());
    let ur = u * r;
    assert(-ur <= 0x100_0000 * (ur - 72 * one) <= ur) by (nonlinear_arith)
        requires
            -(u * b) <= 0x100_0000 * (u * b - a) <= u * b,
            ur == u * r,
            a == (72 * one) * one,
            b == r * one,
            one > 0,
    ;
    assert(u > 0) by (nonlinear_arith)
        requires
            ur == u * r,
            ur > 0,
            r > 0,
    ;
    // Back to pixels: the quotient is near the row.
    lemma_units_nonneg(d.mag());
    let m = x * one;
    let q = d.over(pp);
    let xr = x * r;
    let mr = m * r;
    assert(mr == xr * one) by (nonlinear_arith)
        requires
            mr == m * r,
            m == x * one,
            xr == x * r,
    ;
    assert(pr <= 0x4000 * p) by (nonlinear_arith)
        requires
            pr == p * r,
            r <= 0x4000,
            p > 0,
    ;
    assert(xr <= 72 * v + 8 * one && xr >= 72 * v - 8 * one);
    assert(0 <= v <= 0x1_0000 * one) by (nonlinear_arith)
        requires
            v == n * one,
            0 <= n <= 0x1_0000,
            one > 0,
    ;
    // Twice the quotient is above twice the row less one, and below twice
    // the row and one.
    lemma_whole_exact(4 * n + 1);
    lemma_row_halves(n, m, u, r, xr, ur);
    lemma_nearest_rounds(m, u);
    let hi = lemma_shifted_pattern(4 * n + 1, 147);
    lemma_pow2_adds(2, 147);
    let e = pow2(147) as int;
    assert(one == 4 * e);
    lemma_nearest_le(hi, m, u);
    let w = units(nearest(m, u));
    if nearest(m, u) < hi {
        lemma_units_mono(nearest(m, u), hi);
    }
    lemma_whole_exact(n + 1);
    assert((4 * n + 1) * e <= (n + 1) * one) by (nonlinear_arith)
        requires
            one == 4 * e,
            e > 0,
            n >= 0,
    ;
    if nearest(m, u) > whole(n + 1).mag() {
        lemma_units_mono(whole(n + 1).mag(), nearest(m, u));
    }
    assert(q.mag() == nearest(m, u));
    assert(!q.negative());
    assert(4 * w <= (4 * n + 1) * one) by (nonlinear_arith)
        requires
            w <= (4 * n + 1) * e,
            one == 4 * e,
    ;
    if n > 0 {
        let lo = lemma_shifted_pattern(4 * n - 1, 147);
        lemma_nearest_ge(lo, m, u);
        if lo < nearest(m, u) {
            lemma_units_mono(lo, nearest(m, u));
        }
        assert(4 * w >= (4 * n - 1) * one) by (nonlinear_arith)
            requires
                w >= (4 * n - 1) * e,
                one == 4 * e,
        ;
    } else {
        lemma_units_nonneg(nearest(m, u));
        assert(4 * w >= (4 * n - 1) * one) by (nonlinear_arith)
            requires
                w >= 0,
                n == 0,
                one > 0,
        ;
    }
    let z = 2 * w + one;
    let f = 2 * one;
    lemma_fundamental_div_mod(z, f);
    lemma_mod_bound(z, f);
    let g = z / f;
    assert(g == n) by (nonlinear_arith)
        requires
            z == f * g + z % f,
            0 <= z % f < f,
            z == 2 * w + one,
            f == 2 * one,
            (4 * n - 1) * one <= 4 * w <= (4 * n + 1) * one,
            one > 0,
    ;
}

/// A quotient lies within a quarter of a row.
proof fn lemma_row_halves(n: int, m: int, u: int, r: int, xr: int, ur: int)
    requires
        0 <= n <= 0x1_0000,
        u > 0,
        r > 0,
        ur == u * r,
        m * r == xr * one_units(),
        72 * (n * one_units()) - 8 * one_units() <= xr <= 72 * (n * one_units()) + 8 * one_units(),
        -ur <= 0x100_0000 * (ur - 72 * one_units()) <= ur,
    ensures
        m <= ((4 * n + 1) * pow2(147)) * u,
        m >= ((4 * n - 1) * pow2(147)) * u,
{
    let one = one_units();
    lemma_pow2_pos(149);
    lemma_pow2_pos(147);
    lemma2_to64();
    lemma_pow2_adds(2, 147);
    let e = pow2(147) as int;
    assert(one == 4 * e);
    // 4 xr is at most 72 (4 n + 1) one, with room to spare.
    let nu = n * ur;
    let no = n * one;
    assert(0 <= no <= 0x1_0000 * one) by (nonlinear_arith)
        requires
            no == n * one,
            0 <= n <= 0x1_0000,
            one > 0,
    ;
    assert(-nu <= 0x100_0000 * (nu - 72 * no) <= nu) by (nonlinear_arith)
        requires
            -ur <= 0x100_0000 * (ur - 72 * one) <= ur,
            nu == n * ur,
            no == n * one,
            n >= 0,
    ;
    assert(4 * xr <= 4 * nu + ur);
    assert(4 * xr >= 4 * nu - ur);
    assert(((4 * n + 1) * e) * ur == (4 * nu + ur) * e && ((4 * n - 1) * e) * ur == (4 * nu - ur)
        * e) by (nonlinear_arith)
        requires
            nu == n * ur,
    ;
    assert((4 * xr) * e <= (4 * nu + ur) * e && (4 * xr) * e >= (4 * nu - ur) * e) by (
        nonlinear_arith)
        requires
            4 * xr <= 4 * nu + ur,
            4 * xr >= 4 * nu - ur,
            e > 0,
    ;
    assert((4 * xr) * e == m * r) by (nonlinear_arith)
        requires
            m * r == xr * one,
            one == 4 * e,
    ;
    let top = (4 * n + 1) * e;
    let low = (4 * n - 1) * e;
    assert(m * r <= (top * u) * r && m * r >= (low * u) * r) by (nonlinear_arith)
        requires
            m * r <= top * ur,
            m * r >= low * ur,
            ur == u * r,
    ;
    assert(m <= top * u && m >= low * u) by (nonlinear_arith)
        requires
            m * r <= (top * u) * r,
            m * r >= (low * u) * r,
            r > 0,
    ;
}

} // verus!
