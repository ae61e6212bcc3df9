//! What the padding does to the rectangles around ink: it moves their far
//! edges, and nothing else.
use crate::bounds::{lemma_whole_exact, lemma_whole_mono, lemma_whole_range};
use crate::image::GrayImage;
use crate::monotone::{
    lemma_minus_anti, lemma_plus_commutes, lemma_plus_mono, lemma_times_mono, lemma_truncated_mono,
};
use crate::protrusions::{
    boxes, column_edge, columns, farthest, group_box, group_end, lemma_reach_stops_at_whitespace,
    max_gap, protrusion_boxes, reach, reach_from, scan_ink, scan_row, ColInk, PixelBox, Region,
    GAP_SHARE, LEAST_GAP,
};
use crate::single::{whole, Single};
use crate::whitespace::{ink_left, ink_right, row_above, row_below};
use vstd::prelude::*;

verus! {

/// Rectangles span the same columns.
pub open spec fn same_columns(a: Seq<PixelBox>, b: Seq<PixelBox>) -> bool {
    &&& a.len() == b.len()
    &&& forall|k: int|
        0 <= k < a.len() ==> (#[trigger] a[k]).x_left == b[k].x_left && a[k].x_right == b[k].x_right
}

/// Rectangles lie inside others.
pub open spec fn contained(a: Seq<PixelBox>, b: Seq<PixelBox>) -> bool {
    forall|k: int|
        0 <= k < a.len() ==> b[k].y_top.le((#[trigger] a[k]).y_top) && a[k].y_bot.le(b[k].y_bot)
}

/// Columns with ink at the same places.
spec fn same_places(a: Seq<ColInk>, b: Seq<ColInk>) -> bool {
    &&& a.len() == b.len()
    &&& forall|k: int|
        0 <= k < a.len() ==> (#[trigger] a[k]).x_left == b[k].x_left && a[k].x_right == b[k].x_right
}

/// Ink of some columns that reaches at least as far as that of others.
spec fn reaches_farther(a: Seq<ColInk>, b: Seq<ColInk>, upwards: bool) -> bool {
    forall|k: int|
        0 <= k < a.len() ==> if upwards {
            b[k].ink_edge <= (#[trigger] a[k]).ink_edge
        } else {
            a[k].ink_edge <= b[k].ink_edge
        }
}

/// Whether ink is reached does not depend on how much whitespace is
/// jumped.
proof fn lemma_reach_some(ink: Seq<bool>, a: int, b: int)
    requires
        a >= 0,
        b >= 0,
    ensures
        reach(ink, a) is Some <==> reach(ink, b) is Some,
{
    lemma_reach_stops_at_whitespace(ink, a);
    lemma_reach_stops_at_whitespace(ink, b);
}

/// Ink that was reached stays reached.
proof fn lemma_reach_at_least(ink: Seq<bool>, gap: int, i: int, j: int)
    requires
        j < i,
    ensures
        reach_from(ink, gap, i, Some(j)) is Some,
        reach_from(ink, gap, i, Some(j))->0 >= j,
    decreases ink.len() - i,
{
    if i < ink.len() {
        if ink[i] {
            lemma_reach_at_least(ink, gap, i + 1, i);
        } else if i - j <= gap {
            lemma_reach_at_least(ink, gap, i + 1, j);
        }
    }
}

/// Jumping more whitespace reaches at least as far.
proof fn lemma_reach_from_mono(ink: Seq<bool>, a: int, b: int, i: int, last: Option<int>)
    requires
        a <= b,
        last is Some ==> last->0 < i,
    ensures
        match reach_from(ink, a, i, last) {
            Some(j) => reach_from(ink, b, i, last) is Some && j <= reach_from(ink, b, i, last)->0,
            None => true,
        },
    decreases ink.len() - i,
{
    if i < ink.len() {
        if ink[i] {
            lemma_reach_from_mono(ink, a, b, i + 1, Some(i));
        } else {
            match last {
                Some(j) => {
                    if i - j > a {
                        lemma_reach_at_least(ink, b, i, j);
                    } else {
                        lemma_reach_from_mono(ink, a, b, i + 1, last);
                    }
                },
                None => {
                    lemma_reach_from_mono(ink, a, b, i + 1, last);
                },
            }
        }
    }
}

/// More padding jumps at least as much whitespace.
proof fn lemma_gap_mono(a: Single, b: Single)
    requires
        a.le(b),
    ensures
        max_gap(a) <= max_gap(b),
{
    let share = Single { bits: GAP_SHARE };
    let least = Single { bits: LEAST_GAP };
    lemma_times_mono(a, b, share);
    let x = a.times(share);
    let y = b.times(share);
    assert(x.max(least).le(y.max(least)));
    lemma_truncated_mono(x.max(least), y.max(least), 0, u32::MAX as int);
}

/// The columns with ink are the same whatever the padding.
proof fn lemma_same_places(
    img: &GrayImage,
    x: int,
    x_end: int,
    r_top: int,
    r_bot: int,
    a: Region,
    b: Region,
)
    requires
        b == (Region { pad: b.pad, ..a }),
    ensures
        same_places(
            columns(img, x, x_end, r_top, r_bot, a),
            columns(img, x, x_end, r_top, r_bot, b),
        ),
    decreases x_end - x,
{
    if x < x_end && a.col_width > 0 {
        let right = if x + a.col_width < x_end {
            x + a.col_width
        } else {
            x_end
        };
        lemma_same_places(img, right, x_end, r_top, r_bot, a, b);
        let ink = scan_ink(img, x, right, r_top, r_bot, a.upwards);
        lemma_reach_some(ink, max_gap(a.pad), max_gap(b.pad));
        let ca = columns(img, x, x_end, r_top, r_bot, a);
        let cb = columns(img, x, x_end, r_top, r_bot, b);
        let ra = columns(img, right, x_end, r_top, r_bot, a);
        let rb = columns(img, right, x_end, r_top, r_bot, b);
        assert forall|k: int| 0 <= k < ca.len() implies (#[trigger] ca[k]).x_left == cb[k].x_left
            && ca[k].x_right == cb[k].x_right by {
            if reach(ink, max_gap(a.pad)) is Some {
                if k > 0 {
                    assert(ca[k] == ra[k - 1]);
                    assert(cb[k] == rb[k - 1]);
                }
            } else {
                assert(ca[k] == ra[k]);
                assert(cb[k] == rb[k]);
            }
        }
    }
}

/// The ink of a column is followed at least as far with more padding.
proof fn lemma_columns_reach_farther(
    img: &GrayImage,
    x: int,
    x_end: int,
    r_top: int,
    r_bot: int,
    a: Region,
    b: Region,
)
    requires
        b == (Region { pad: b.pad, ..a }),
        a.pad.le(b.pad),
        0 <= r_top < r_bot <= u32::MAX,
    ensures
        reaches_farther(
            columns(img, x, x_end, r_top, r_bot, a),
            columns(img, x, x_end, r_top, r_bot, b),
            a.upwards,
        ),
    decreases x_end - x,
{
    if x < x_end && a.col_width > 0 {
        let right = if x + a.col_width < x_end {
            x + a.col_width
        } else {
            x_end
        };
        lemma_columns_reach_farther(img, right, x_end, r_top, r_bot, a, b);
        lemma_same_places(img, right, x_end, r_top, r_bot, a, b);
        let ink = scan_ink(img, x, right, r_top, r_bot, a.upwards);
        let ga = max_gap(a.pad);
        let gb = max_gap(b.pad);
        lemma_gap_mono(a.pad, b.pad);
        lemma_reach_some(ink, ga, gb);
        lemma_reach_from_mono(ink, ga, gb, 0, None);
        lemma_reach_stops_at_whitespace(ink, ga);
        lemma_reach_stops_at_whitespace(ink, gb);
        let ca = columns(img, x, x_end, r_top, r_bot, a);
        let cb = columns(img, x, x_end, r_top, r_bot, b);
        let ra = columns(img, right, x_end, r_top, r_bot, a);
        let rb = columns(img, right, x_end, r_top, r_bot, b);
        assert forall|k: int| 0 <= k < ca.len() implies if a.upwards {
            cb[k].ink_edge <= (#[trigger] ca[k]).ink_edge
        } else {
            ca[k].ink_edge <= cb[k].ink_edge
        } by {
            if reach(ink, ga) is Some {
                if k > 0 {
                    assert(ca[k] == ra[k - 1]);
                    assert(cb[k] == rb[k - 1]);
                } else {
                    let ya = scan_row(r_top, r_bot, a.upwards, reach(ink, ga)->0);
                    let yb = scan_row(r_top, r_bot, a.upwards, reach(ink, gb)->0);
                    assert(column_edge(img, x, right, r_top, r_bot, a.upwards, ga) == Some(ya));
                    assert(column_edge(img, x, right, r_top, r_bot, a.upwards, gb) == Some(yb));
                    assert(0 <= ya < r_bot && 0 <= yb < r_bot);
                    assert(ca[0].ink_edge == ya as u32);
                    assert(cb[0].ink_edge == yb as u32);
                }
            } else {
                assert(ca[k] == ra[k]);
                assert(cb[k] == rb[k]);
            }
        }
    }
}

proof fn lemma_same_group_end(a: Seq<ColInk>, b: Seq<ColInk>, i: int, col_width: int)
    requires
        same_places(a, b),
        0 <= i < a.len(),
    ensures
        group_end(a, i, col_width) == group_end(b, i, col_width),
        i <= group_end(a, i, col_width) < a.len(),
    decreases a.len() - i,
{
    assert(a[i].x_right == b[i].x_right);
    if i + 1 < a.len() {
        assert(a[i + 1].x_left == b[i + 1].x_left);
        if a[i + 1].x_left - a[i].x_right <= col_width {
            lemma_same_group_end(a, b, i + 1, col_width);
        }
    }
}

proof fn lemma_farthest_mono(a: Seq<ColInk>, b: Seq<ColInk>, i: int, e: int, upwards: bool)
    requires
        a.len() == b.len(),
        reaches_farther(a, b, upwards),
        0 <= i <= e < a.len(),
    ensures
        0 <= farthest(a, i, e, upwards) <= u32::MAX,
        0 <= farthest(b, i, e, upwards) <= u32::MAX,
        upwards ==> farthest(b, i, e, upwards) <= farthest(a, i, e, upwards),
        !upwards ==> farthest(a, i, e, upwards) <= farthest(b, i, e, upwards),
    decreases e - i,
{
    assert(if upwards {
        b[e].ink_edge <= a[e].ink_edge
    } else {
        a[e].ink_edge <= b[e].ink_edge
    });
    if i < e {
        lemma_farthest_mono(a, b, i, e - 1, upwards);
    }
}

/// The number of a row is finite.
proof fn lemma_row_number(n: int)
    requires
        0 <= n <= u32::MAX,
    ensures
        whole(n).finite(),
        !whole(n).nan(),
{
    if n == 0 {
        lemma_whole_exact(0);
    } else {
        lemma_whole_range(n);
    }
}

/// Rectangles span the same columns whatever the padding, from column `i`
/// on.
proof fn lemma_boxes_same_columns(
    img: &GrayImage,
    ca: Seq<ColInk>,
    cb: Seq<ColInk>,
    i: int,
    a: Region,
    b: Region,
)
    requires
        b == (Region { pad: b.pad, ..a }),
        same_places(ca, cb),
        0 <= i,
    ensures
        same_columns(boxes(img, ca, i, a), boxes(img, cb, i, b)),
    decreases ca.len() - i,
{
    if i < ca.len() {
        lemma_same_group_end(ca, cb, i, a.col_width as int);
        let e = group_end(ca, i, a.col_width as int);
        lemma_boxes_same_columns(img, ca, cb, e + 1, a, b);
        assert(ca[i].x_left == cb[i].x_left);
        assert(ca[e].x_right == cb[e].x_right);
        let ba = boxes(img, ca, i, a);
        let bb = boxes(img, cb, i, b);
        let ra = boxes(img, ca, e + 1, a);
        let rb = boxes(img, cb, e + 1, b);
        assert forall|k: int| 0 <= k < ba.len() implies (#[trigger] ba[k]).x_left == bb[k].x_left
            && ba[k].x_right == bb[k].x_right by {
            if k > 0 {
                assert(ba[k] == ra[k - 1]);
                assert(bb[k] == rb[k - 1]);
            }
        }
    }
}

/// One rectangle lies inside the one with more padding.
proof fn lemma_group_box_grows(
    img: &GrayImage,
    ca: Seq<ColInk>,
    cb: Seq<ColInk>,
    i: int,
    e: int,
    a: Region,
    b: Region,
)
    requires
        b == (Region { pad: b.pad, ..a }),
        !a.top.nan(),
        !a.bot.nan(),
        a.pad.finite(),
        b.pad.finite(),
        a.pad.le(b.pad),
        same_places(ca, cb),
        reaches_farther(ca, cb, a.upwards),
        0 <= i <= e < ca.len(),
    ensures
        group_box(img, cb, i, e, b).y_top.le(group_box(img, ca, i, e, a).y_top),
        group_box(img, ca, i, e, a).y_bot.le(group_box(img, cb, i, e, b).y_bot),
{
    lemma_farthest_mono(ca, cb, i, e, a.upwards);
    let fa = farthest(ca, i, e, a.upwards);
    let fb = farthest(cb, i, e, a.upwards);
    let x = whole(fa);
    let y = whole(fb);
    lemma_row_number(fa);
    lemma_row_number(fb);
    lemma_row_number(img.height as int);
    if a.upwards {
        lemma_whole_mono(fb, fa);
        assert(y.le(x));
        lemma_minus_anti(y, a.pad, b.pad);
        lemma_plus_mono(y, x, a.pad.neg());
        assert(y.minus(b.pad).le(x.minus(a.pad)));
    } else {
        lemma_whole_mono(fa, fb);
        assert(x.le(y));
        lemma_plus_mono(x, y, a.pad);
        lemma_plus_commutes(y, a.pad);
        lemma_plus_commutes(y, b.pad);
        lemma_plus_mono(a.pad, b.pad, y);
        assert(x.plus(a.pad).le(y.plus(b.pad)));
    }
}

/// Rectangles lie inside those with more padding, from column `i` on.
proof fn lemma_boxes_grow(
    img: &GrayImage,
    ca: Seq<ColInk>,
    cb: Seq<ColInk>,
    i: int,
    a: Region,
    b: Region,
)
    requires
        b == (Region { pad: b.pad, ..a }),
        !a.top.nan(),
        !a.bot.nan(),
        a.pad.finite(),
        b.pad.finite(),
        a.pad.le(b.pad),
        same_places(ca, cb),
        reaches_farther(ca, cb, a.upwards),
        0 <= i,
    ensures
        contained(boxes(img, ca, i, a), boxes(img, cb, i, b)),
    decreases ca.len() - i,
{
    if i < ca.len() {
        lemma_same_group_end(ca, cb, i, a.col_width as int);
        let e = group_end(ca, i, a.col_width as int);
        lemma_boxes_grow(img, ca, cb, e + 1, a, b);
        lemma_boxes_same_columns(img, ca, cb, e + 1, a, b);
        lemma_group_box_grows(img, ca, cb, i, e, a, b);
        let ba = boxes(img, ca, i, a);
        let bb = boxes(img, cb, i, b);
        let ra = boxes(img, ca, e + 1, a);
        let rb = boxes(img, cb, e + 1, b);
        assert forall|k: int| 0 <= k < ba.len() implies bb[k].y_top.le((#[trigger] ba[k]).y_top)
            && ba[k].y_bot.le(bb[k].y_bot) by {
            if k > 0 {
                assert(ba[k] == ra[k - 1]);
                assert(bb[k] == rb[k - 1]);
            }
        }
    }
}

/// How many rectangles there are in a region, and which columns they span,
/// does not depend on the padding.
pub proof fn lemma_columns_ignore_padding(img: &GrayImage, a: Region, b: Region)
    requires
        b == (Region { pad: b.pad, ..a }),
    ensures
        same_columns(protrusion_boxes(img, a), protrusion_boxes(img, b)),
{
    let r_top = row_below(img, a.top);
    let r_bot = row_above(img, a.bot);
    let (l, r) = (ink_left(img), ink_right(img));
    lemma_same_places(img, l, r, r_top, r_bot, a, b);
    lemma_boxes_same_columns(
        img,
        columns(img, l, r, r_top, r_bot, a),
        columns(img, l, r, r_top, r_bot, b),
        0,
        a,
        b,
    );
}

/// More padding never gives less clearance: there are as many rectangles,
/// at the same columns, and each contains the one with less padding.
pub proof fn lemma_padding_gives_clearance(img: &GrayImage, a: Region, b: Region)
    requires
        img.height > 0,
        b == (Region { pad: b.pad, ..a }),
        !a.top.nan(),
        !a.bot.nan(),
        a.pad.finite(),
        b.pad.finite(),
        a.pad.le(b.pad),
    ensures
        same_columns(protrusion_boxes(img, a), protrusion_boxes(img, b)),
        contained(protrusion_boxes(img, a), protrusion_boxes(img, b)),
{
    lemma_columns_ignore_padding(img, a, b);
    let r_top = row_below(img, a.top);
    let r_bot = row_above(img, a.bot);
    let (l, r) = (ink_left(img), ink_right(img));
    if r_top < r_bot {
        lemma_same_places(img, l, r, r_top, r_bot, a, b);
        lemma_columns_reach_farther(img, l, r, r_top, r_bot, a, b);
        lemma_boxes_grow(
            img,
            columns(img, l, r, r_top, r_bot, a),
            columns(img, l, r, r_top, r_bot, b),
            0,
            a,
            b,
        );
    }
}

} // verus!
