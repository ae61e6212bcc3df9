//! The bands around staves, in rows and line distances.
use crate::bounds::{lemma_order_is_by_value, lemma_power, lemma_whole_exact, power};
use crate::detect::{
    band_bot, band_top, column_width, header_end, header_scan_end, lines, lower_limit, staff_bot,
    staff_span, upper_limit, usable, whole_systems, BAND_PAD, FOUR, HEADER_PAD, TOP_PAD,
};
use crate::image::GrayImage;
use crate::placing::{on_rows, row_of};
use crate::rounding::{
    lemma_nearest_ge, lemma_nearest_le, lemma_nearest_rounds, lemma_units_at, lemma_units_mono,
    nearest, units, MAG_INF,
};
use crate::signal::THREE;
use crate::single::{one_units, whole, Single};
use crate::sums::{lemma_rounding_is_relative, lemma_rounding_is_small, speck};
use vstd::arithmetic::power2::*;
use vstd::prelude::*;

verus! {

/// Numbers of ordinary rows are rounded by little: by less than a
/// sixty-fourth of a row.
proof fn lemma_row_rounding(n: int)
    requires
        0 <= n <= 0x2_0000 * one_units(),
    ensures
        0 <= nearest(n, 1) < MAG_INF,
        -one_units() <= 64 * (units(nearest(n, 1)) - n) <= one_units(),
{
    let one = one_units();
    lemma_pow2_pos(149);
    lemma2_to64();
    lemma_power(17);
    lemma_pow2_adds(17, 149);
    lemma_nearest_le(power(17), n, 1);
    lemma_nearest_rounds(n, 1);
    if n >= 0x80_0000 {
        lemma_rounding_is_relative(n, 1);
        if nearest(n, 1) < power(17) {
            lemma_units_mono(nearest(n, 1), power(17));
        }
    } else {
        lemma_units_at(0, n);
        assert(units(n) * 1 == n);
        lemma_nearest_ge(n, n, 1);
        lemma_nearest_le(n, n, 1);
    }
}

/// Sums of ordinary rows are rounded by little.
proof fn lemma_row_sum(a: Single, b: Single)
    requires
        a.finite(),
        b.finite(),
        -0x2_0000 * one_units() <= a.value() + b.value() <= 0x2_0000 * one_units(),
    ensures
        a.plus(b).finite(),
        -one_units() <= 64 * (a.plus(b).value() - (a.value() + b.value())) <= one_units(),
{
    let n = a.value() + b.value();
    lemma_pow2_pos(149);
    lemma_units_at(0, 0);
    lemma2_to64();
    if n > 0 {
        lemma_row_rounding(n);
    } else if n < 0 {
        lemma_row_rounding(-n);
    }
}

proof fn lemma_row_difference(a: Single, b: Single)
    requires
        a.finite(),
        b.finite(),
        -0x2_0000 * one_units() <= a.value() - b.value() <= 0x2_0000 * one_units(),
    ensures
        a.minus(b).finite(),
        -one_units() <= 64 * (a.minus(b).value() - (a.value() - b.value())) <= one_units(),
{
    assert(b.neg().mag() == b.mag());
    assert(b.neg().value() == -b.value());
    lemma_row_sum(a, b.neg());
}

/// The distances that are measured in line distances, by their halves: the
/// height of a staff is four, a band keeps two and a half around it, the
/// header ends four and a half above the first staff and its ink one and a
/// half, and the last band may reach three down.
proof fn lemma_distances()
    ensures
        2 * (Single { bits: FOUR }).value() == 8 * one_units(),
        2 * (Single { bits: BAND_PAD }).value() == 5 * one_units(),
        2 * (Single { bits: TOP_PAD }).value() == 9 * one_units(),
        2 * (Single { bits: HEADER_PAD }).value() == 3 * one_units(),
        2 * (Single { bits: THREE }).value() == 6 * one_units(),
{
    lemma2_to64();
    lemma_units_at(128, 0x80_0000);
    lemma_units_at(127, 0xa0_0000);
    lemma_units_at(128, 0x90_0000);
    lemma_units_at(126, 0xc0_0000);
    lemma_units_at(127, 0xc0_0000);
    lemma_pow2_adds(128, 21);
    lemma_pow2_adds(127, 22);
    lemma_pow2_adds(126, 23);
}

/// The line distance is between 1 and 128 rows.
proof fn lemma_spacing_value(spacing: Single)
    requires
        usable(spacing),
    ensures
        spacing.finite(),
        one_units() <= spacing.value() <= 128 * one_units(),
        spacing.value() == units(spacing.mag()),
{
    lemma2_to64();
    lemma_pow2_pos(149);
    lemma_power(0);
    lemma_power(7);
    lemma_pow2_adds(7, 149);
    if power(0) < spacing.mag() {
        lemma_units_mono(power(0), spacing.mag());
    }
    if spacing.mag() < power(7) {
        lemma_units_mono(spacing.mag(), power(7));
    }
}

/// A number of line distances, given by its halves, comes to so many rows,
/// but for rounding.
proof fn lemma_lines_near(k: u32, halves: int, spacing: Single)
    requires
        usable(spacing),
        k < MAG_INF,
        2 * (Single { bits: k }).value() == halves * one_units(),
        0 < halves <= 10,
    ensures
        lines(k, spacing).finite(),
        -(2 * speck()) <= 2 * lines(k, spacing).value() - halves * spacing.value() <= 2 * speck(),
{
    let one = one_units();
    let p = speck();
    let x = Single { bits: k };
    let c = x.value();
    let s = spacing.value();
    lemma_pow2_pos(149);
    lemma_pow2_pos(136);
    lemma_spacing_value(spacing);
    let n = c * s;
    assert(0 <= n <= 2048 * one * one && 2 * n == (halves * s) * one) by (nonlinear_arith)
        requires
            n == c * s,
            2 * c == halves * one,
            0 < halves <= 10,
            one <= s <= 128 * one,
            one > 0,
    ;
    lemma_rounding_is_small(n, one);
    let l = lines(k, spacing);
    let v = units(nearest(n, one));
    assert(l.mag() == nearest(n, one));
    assert(l.value() == v);
    assert(-(2 * p) <= 2 * v - halves * s <= 2 * p) by (nonlinear_arith)
        requires
            -p * one <= v * one - n <= p * one,
            2 * n == (halves * s) * one,
            one > 0,
    ;
}

/// Two numbers of rows are the same, but for an eighth of a row.
pub open spec fn near(a: int, b: int) -> bool {
    -one_units() <= 8 * (a - b) <= one_units()
}

/// The bottom of a staff lies four line distances below its top.
pub proof fn lemma_staves_span_four_distances(tops: Seq<Single>, spacing: Single, h: int, k: int)
    requires
        usable(spacing),
        0 < h <= 0x1_0000,
        on_rows(tops, h),
        0 <= k < tops.len(),
    ensures
        staff_bot(tops, spacing, k).finite(),
        near(
            staff_bot(tops, spacing, k).value(),
            row_of(tops[k]) * one_units() + 4 * spacing.value(),
        ),
{
    let one = one_units();
    let n = row_of(tops[k]);
    lemma_pow2_pos(149);
    lemma_pow2_pos(136);
    lemma2_to64();
    lemma_pow2_adds(136, 13);
    lemma_distances();
    lemma_spacing_value(spacing);
    lemma_lines_near(FOUR, 8, spacing);
    assert(staff_span(spacing) == lines(FOUR, spacing));
    assert(0 <= row_of(tops[k]) < h && tops[k] == whole(row_of(tops[k])));
    lemma_whole_exact(n);
    assert(0 <= n * one <= 0x1_0000 * one) by (nonlinear_arith)
        requires
            0 <= n <= 0x1_0000,
            one > 0,
    ;
    lemma_row_sum(tops[k], staff_span(spacing));
}

/// The band of a staff starts at its upper limit, but no more than two and
/// a half line distances above the staff.
pub proof fn lemma_bands_start_near_their_staves(
    img: &GrayImage,
    tops: Seq<Single>,
    spacing: Single,
    k: int,
)
    requires
        usable(spacing),
        0 < img.height <= 0x1_0000,
        on_rows(tops, img.height as int),
        0 <= k < tops.len(),
        upper_limit(img, tops, spacing, k).finite(),
    ensures
        ({
            let start = band_top(img, tops, spacing, k);
            let limit = upper_limit(img, tops, spacing, k);
            let farthest = 2 * (row_of(tops[k]) * one_units()) - 5 * spacing.value();
            &&& start.finite()
            &&& limit.value() <= start.value()
            &&& start == limit || near(2 * start.value(), farthest)
            &&& 8 * (2 * limit.value() - farthest) > one_units() ==> start == limit
            &&& 8 * (2 * start.value() - farthest) >= -one_units()
        }),
{
    let one = one_units();
    let n = row_of(tops[k]);
    lemma_pow2_pos(149);
    lemma_pow2_pos(136);
    lemma2_to64();
    lemma_pow2_adds(136, 13);
    lemma_distances();
    lemma_spacing_value(spacing);
    lemma_lines_near(BAND_PAD, 5, spacing);
    assert(0 <= row_of(tops[k]) < img.height && tops[k] == whole(row_of(tops[k])));
    lemma_whole_exact(n);
    assert(0 <= n * one <= 0x1_0000 * one) by (nonlinear_arith)
        requires
            0 <= n <= 0x1_0000,
            one > 0,
    ;
    let pad = lines(BAND_PAD, spacing);
    lemma_row_difference(tops[k], pad);
    let tight = tops[k].minus(pad);
    let limit = upper_limit(img, tops, spacing, k);
    lemma_order_is_by_value(limit, tight);
}

/// The band of a staff ends at its lower limit, but no more than two and a
/// half line distances below the staff, which is four of them high.
pub proof fn lemma_bands_end_near_their_staves(
    img: &GrayImage,
    tops: Seq<Single>,
    spacing: Single,
    k: int,
)
    requires
        usable(spacing),
        0 < img.height <= 0x1_0000,
        on_rows(tops, img.height as int),
        0 <= k < tops.len(),
        lower_limit(img, tops, spacing, k).finite(),
    ensures
        ({
            let end = band_bot(img, tops, spacing, k);
            let limit = lower_limit(img, tops, spacing, k);
            let farthest = 2 * (row_of(tops[k]) * one_units()) + 13 * spacing.value();
            &&& end.finite()
            &&& end.value() <= limit.value()
            &&& end == limit || near(2 * end.value(), farthest)
            &&& 8 * (farthest - 2 * limit.value()) > one_units() ==> end == limit
            &&& 8 * (farthest - 2 * end.value()) >= -one_units()
        }),
{
    let one = one_units();
    let n = row_of(tops[k]);
    lemma_pow2_pos(149);
    lemma_pow2_pos(136);
    lemma2_to64();
    lemma_pow2_adds(136, 13);
    lemma_distances();
    lemma_spacing_value(spacing);
    lemma_lines_near(BAND_PAD, 5, spacing);
    lemma_lines_near(FOUR, 8, spacing);
    assert(staff_span(spacing) == lines(FOUR, spacing));
    assert(0 <= row_of(tops[k]) < img.height && tops[k] == whole(row_of(tops[k])));
    lemma_whole_exact(n);
    assert(0 <= n * one <= 0x1_0000 * one) by (nonlinear_arith)
        requires
            0 <= n <= 0x1_0000,
            one > 0,
    ;
    lemma_row_sum(tops[k], staff_span(spacing));
    let bot = staff_bot(tops, spacing, k);
    let pad = lines(BAND_PAD, spacing);
    lemma_row_sum(bot, pad);
    let tight = bot.plus(pad);
    let limit = lower_limit(img, tops, spacing, k);
    lemma_order_is_by_value(tight, limit);
}

/// The header ends four and a half line distances above the first staff, or
/// at the top of the page where that is nearer; ink belongs to it up to one
/// and a half line distances above the staff.
pub proof fn lemma_header_ends_above_first_staff(tops: Seq<Single>, spacing: Single, h: int)
    requires
        usable(spacing),
        0 < h <= 0x1_0000,
        on_rows(tops, h),
        tops.len() > 0,
    ensures
        ({
            let top = 2 * (row_of(tops[0]) * one_units());
            let end = header_end(tops, spacing);
            let last = header_scan_end(tops, spacing);
            &&& end.finite()
            &&& end.value() >= 0
            &&& top >= 9 * spacing.value() ==> near(2 * end.value(), top - 9 * spacing.value())
            &&& top <= 9 * spacing.value() ==> 8 * end.value() <= one_units()
            &&& last.finite()
            &&& top >= 3 * spacing.value() ==> near(2 * last.value(), top - 3 * spacing.value())
            &&& end.value() <= last.value()
        }),
{
    let one = one_units();
    let n = row_of(tops[0]);
    let zero = Single { bits: 0 };
    lemma_pow2_pos(149);
    lemma_pow2_pos(136);
    lemma2_to64();
    lemma_pow2_adds(136, 13);
    lemma_units_at(0, 0);
    lemma_distances();
    lemma_spacing_value(spacing);
    lemma_lines_near(TOP_PAD, 9, spacing);
    lemma_lines_near(HEADER_PAD, 3, spacing);
    assert(0 <= row_of(tops[0]) < h && tops[0] == whole(row_of(tops[0])));
    lemma_whole_exact(n);
    assert(0 <= n * one <= 0x1_0000 * one) by (nonlinear_arith)
        requires
            0 <= n <= 0x1_0000,
            one > 0,
    ;
    lemma_row_difference(tops[0], lines(TOP_PAD, spacing));
    lemma_row_difference(tops[0], lines(HEADER_PAD, spacing));
    let a = tops[0].minus(lines(TOP_PAD, spacing));
    let b = tops[0].minus(lines(HEADER_PAD, spacing));
    lemma_order_is_by_value(a, zero);
    let end = header_end(tops, spacing);
    lemma_order_is_by_value(b, end);
}

/// The last band of a page may reach down three line distances below its
/// staff, and no farther than the page.
pub proof fn lemma_last_band_reaches_down(
    img: &GrayImage,
    tops: Seq<Single>,
    spacing: Single,
)
    requires
        usable(spacing),
        0 < img.height <= 0x1_0000,
        on_rows(tops, img.height as int),
        tops.len() > 0,
    ensures
        ({
            let k = tops.len() - 1;
            let limit = lower_limit(img, tops, spacing, k);
            let end = row_of(tops[k]) * one_units() + 7 * spacing.value();
            let page = img.height * one_units();
            &&& limit.finite()
            &&& end <= page ==> near(limit.value(), end)
            &&& end >= page ==> near(limit.value(), page)
            &&& limit.value() <= page
        }),
{
    let one = one_units();
    let k = tops.len() - 1;
    let h = img.height as int;
    let n = row_of(tops[k]);
    lemma_pow2_pos(149);
    lemma_pow2_pos(136);
    lemma2_to64();
    lemma_pow2_adds(136, 13);
    lemma_distances();
    lemma_spacing_value(spacing);
    lemma_lines_near(THREE, 6, spacing);
    lemma_lines_near(FOUR, 8, spacing);
    assert(staff_span(spacing) == lines(FOUR, spacing));
    assert(0 <= row_of(tops[k]) < img.height && tops[k] == whole(row_of(tops[k])));
    lemma_whole_exact(n);
    lemma_whole_exact(h);
    assert(0 <= n * one <= 0x1_0000 * one && 0 <= h * one <= 0x1_0000 * one) by (nonlinear_arith)
        requires
            0 <= n <= 0x1_0000,
            0 <= h <= 0x1_0000,
            one > 0,
    ;
    lemma_row_sum(tops[k], staff_span(spacing));
    let bot = staff_bot(tops, spacing, k);
    lemma_row_sum(bot, lines(THREE, spacing));
    let low = bot.plus(lines(THREE, spacing));
    lemma_order_is_by_value(whole(h), low);
}

/// Ink is looked for in columns as wide as the line distance, rounded to a
/// whole number of pixels, but no narrower than four.
pub proof fn lemma_columns_are_a_line_distance_wide(spacing: Single)
    requires
        usable(spacing),
    ensures
        ({
            let w = column_width(spacing);
            &&& w >= 4
            &&& w > 4 ==> -one_units() <= 2 * (w * one_units() - spacing.value()) <= one_units()
            &&& 2 * spacing.value() <= 9 * one_units() - 1 ==> w == 4
        }),
{
    let one = one_units();
    lemma_pow2_pos(149);
    lemma_spacing_value(spacing);
    let u = spacing.value();
    let n = 2 * u + one;
    let d = 2 * one;
    vstd::arithmetic::div_mod::lemma_fundamental_div_mod(n, d);
    vstd::arithmetic::div_mod::lemma_mod_bound(n, d);
    let q = n / d;
    assert(0 <= q <= 128 && -one <= 2 * (q * one - u) <= one && (2 * u < 9 * one ==> q <= 4)) by (
        nonlinear_arith)
        requires
            n == d * q + n % d,
            0 <= n % d < d,
            n == 2 * u + one,
            d == 2 * one,
            one <= u <= 128 * one,
            one > 0,
    ;
}

/// The staves that are used make whole systems: they come in fours, from
/// the top of the page, and fewer than four are left out.
pub proof fn lemma_systems_have_four_staves(tops: Seq<Single>)
    ensures
        whole_systems(tops).len() % 4 == 0,
        tops.len() - 4 < whole_systems(tops).len() <= tops.len(),
        forall|k: int|
            0 <= k < whole_systems(tops).len() ==> #[trigger] whole_systems(tops)[k] == tops[k],
{
}

} // verus!
