//! Ink that reaches out of a stave's band.
//!
//! Beyond the edge of a band the page is cut into narrow columns. In each
//! column the ink is followed away from the band until a stretch of empty
//! rows shows that what comes next belongs to a neighbour. Neighbouring
//! columns with ink make one rectangle.
use crate::image::GrayImage;
use crate::single::{whole, Single};
use crate::whitespace::{
    count_dark, dark_count, first_row_below, ink_left, ink_right, last_row_above, row_above,
    row_below,
};
use vstd::prelude::*;

verus! {

/// 0.75, the share of the padding that ends a stretch of ink.
pub const GAP_SHARE: u32 = 0x3f40_0000;

/// 4, the least number of empty rows that ends a stretch of ink.
pub const LEAST_GAP: u32 = 0x4080_0000;

/// How many dark pixels make a row of a column inked.
pub const INK_PIXELS: u32 = 2;

/// A rectangle on a page, in pixels.
#[derive(Clone, Copy, Debug, PartialEq, Eq, Structural)]
pub struct PixelBox {
    pub x_left: u32,
    pub x_right: u32,
    pub y_top: Single,
    pub y_bot: Single,
}

/// A column with ink, and the row its ink reaches.
#[derive(Clone, Copy, Debug, PartialEq, Eq, Structural)]
pub struct ColInk {
    pub x_left: u32,
    pub x_right: u32,
    pub ink_edge: u32,
}

/// A region beyond the edge of a band, and how it is looked through.
#[derive(Clone, Copy, Debug, PartialEq, Eq, Structural)]
pub struct Region {
    pub top: Single,
    pub bot: Single,
    pub col_width: u32,
    pub pad: Single,
    pub upwards: bool,
}

/// How many empty rows in succession end a stretch of ink, less one.
pub open spec fn max_gap(pad: Single) -> int {
    pad.times(Single { bits: GAP_SHARE }).max(Single { bits: LEAST_GAP }).truncated(
        0,
        u32::MAX as int,
    )
}

/// The row that is looked at in step `i`, away from the band.
pub open spec fn scan_row(r_top: int, r_bot: int, upwards: bool, i: int) -> int {
    if upwards {
        r_bot - 1 - i
    } else {
        r_top + i
    }
}

/// Which rows of a column are inked, in the order they are looked at.
pub open spec fn scan_ink(
    img: &GrayImage,
    x0: int,
    x1: int,
    r_top: int,
    r_bot: int,
    upwards: bool,
) -> Seq<bool> {
    Seq::new(
        (r_bot - r_top) as nat,
        |i: int|
            dark_count(img, scan_row(r_top, r_bot, upwards, i), x0, x1) >= INK_PIXELS,
    )
}

/// The last inked step, when steps `i..` are still to be looked at and
/// `last` is the last inked one so far: the search ends where more than
/// `gap` steps after it were empty.
pub open spec fn reach_from(ink: Seq<bool>, gap: int, i: int, last: Option<int>) -> Option<int>
    decreases ink.len() - i,
{
    if i >= ink.len() {
        last
    } else if ink[i] {
        reach_from(ink, gap, i + 1, Some(i))
    } else {
        match last {
            Some(j) => if i - j > gap {
                last
            } else {
                reach_from(ink, gap, i + 1, last)
            },
            None => reach_from(ink, gap, i + 1, last),
        }
    }
}

/// The last step that connected ink reaches.
pub open spec fn reach(ink: Seq<bool>, gap: int) -> Option<int> {
    reach_from(ink, gap, 0, None)
}

/// Nothing between two inked steps, from the first one up to `j`, is empty
/// for more than `gap` steps.
pub open spec fn connected(ink: Seq<bool>, gap: int, j: int) -> bool {
    forall|a: int, b: int|
        0 <= a < b <= j && #[trigger] ink[a] && #[trigger] ink[b] && (forall|c: int|
            a < c < b ==> !#[trigger] ink[c]) ==> b - a <= gap + 1
}

proof fn lemma_reach_from(ink: Seq<bool>, gap: int, i: int, last: Option<int>)
    requires
        gap >= 0,
        0 <= i <= ink.len(),
        match last {
            Some(j) => {
                &&& 0 <= j < i
                &&& ink[j]
                &&& i - j <= gap + 1
                &&& connected(ink, gap, j)
                &&& forall|c: int| j < c < i ==> !#[trigger] ink[c]
            },
            None => forall|c: int| 0 <= c < i ==> !#[trigger] ink[c],
        },
    ensures
        match reach_from(ink, gap, i, last) {
            Some(j) => {
                &&& 0 <= j < ink.len()
                &&& ink[j]
                &&& connected(ink, gap, j)
                &&& forall|c: int| j < c <= j + gap + 1 && c < ink.len() ==> !#[trigger] ink[c]
            },
            None => forall|c: int| 0 <= c < ink.len() ==> !#[trigger] ink[c],
        },
    decreases ink.len() - i,
{
    if i < ink.len() {
        if ink[i] {
            assert forall|a: int, b: int|
                0 <= a < b <= i && #[trigger] ink[a] && #[trigger] ink[b] && (forall|c: int|
                    a < c < b ==> !#[trigger] ink[c]) implies b - a <= gap + 1 by {
                match last {
                    Some(j) => {
                        if b == i {
                            if a < j {
                                assert(!ink[j]);
                            }
                        } else if b > j {
                            assert(!ink[b]);
                        }
                    },
                    None => {
                        assert(!ink[a]);
                    },
                }
            }
            lemma_reach_from(ink, gap, i + 1, Some(i));
        } else {
            match last {
                Some(j) => {
                    if i - j <= gap {
                        lemma_reach_from(ink, gap, i + 1, last);
                    }
                },
                None => {
                    lemma_reach_from(ink, gap, i + 1, last);
                },
            }
        }
    }
}

/// What is reached is connected ink, and whitespace lies behind it: no
/// stretch of more than `gap` empty steps is jumped, and none of the next
/// steps that would have counted is inked. Only a column without ink
/// reaches nothing.
pub proof fn lemma_reach_stops_at_whitespace(ink: Seq<bool>, gap: int)
    requires
        gap >= 0,
    ensures
        match reach(ink, gap) {
            Some(j) => {
                &&& 0 <= j < ink.len()
                &&& ink[j]
                &&& connected(ink, gap, j)
                &&& forall|c: int| j < c <= j + gap + 1 && c < ink.len() ==> !#[trigger] ink[c]
            },
            None => forall|c: int| 0 <= c < ink.len() ==> !#[trigger] ink[c],
        },
{
    lemma_reach_from(ink, gap, 0, None);
}

/// The row that the ink of a column reaches.
pub open spec fn column_edge(
    img: &GrayImage,
    x0: int,
    x1: int,
    r_top: int,
    r_bot: int,
    upwards: bool,
    gap: int,
) -> Option<int> {
    match reach(scan_ink(img, x0, x1, r_top, r_bot, upwards), gap) {
        Some(i) => Some(scan_row(r_top, r_bot, upwards, i)),
        None => None,
    }
}

/// Follows the ink of a column away from the band.
fn find_column_edge(
    img: &GrayImage,
    x0: u32,
    x1: u32,
    r_top: u32,
    r_bot: u32,
    upwards: bool,
    gap: u32,
) -> (r: Option<u32>)
    requires
        img.wf(),
        x0 <= x1 <= img.width,
        r_top <= r_bot < img.height,
    ensures
        match r {
            Some(y) => column_edge(
                img,
                x0 as int,
                x1 as int,
                r_top as int,
                r_bot as int,
                upwards,
                gap as int,
            ) == Some(y as int) && y < img.height,
            None => column_edge(
                img,
                x0 as int,
                x1 as int,
                r_top as int,
                r_bot as int,
                upwards,
                gap as int,
            ) is None,
        },
{
    let ghost ink = scan_ink(img, x0 as int, x1 as int, r_top as int, r_bot as int, upwards);
    let n: u32 = r_bot - r_top;
    let mut last: Option<u32> = None;
    let ghost mut last_step: Option<int> = None;
    let mut gap_count: u32 = 0;
    let mut i: u32 = 0;
    while i < n
        invariant_except_break
            match (last, last_step) {
                (Some(y), Some(j)) => y == scan_row(r_top as int, r_bot as int, upwards, j) && 0
                    <= j < i && gap_count == i - 1 - j && y < img.height,
                (None, None) => gap_count == i,
                _ => false,
            },
        invariant
            img.wf(),
            x0 <= x1 <= img.width,
            r_top <= r_bot < img.height,
            n == r_bot - r_top,
            i <= n,
            ink == scan_ink(img, x0 as int, x1 as int, r_top as int, r_bot as int, upwards),
            reach_from(ink, gap as int, i as int, last_step) == reach(ink, gap as int),
        ensures
            last_step == reach(ink, gap as int),
            match (last, last_step) {
                (Some(y), Some(j)) => y == scan_row(r_top as int, r_bot as int, upwards, j) && y
                    < img.height,
                (None, None) => true,
                _ => false,
            },
        decreases n - i,
    {
        let y: u32 = if upwards {
            r_bot - 1 - i
        } else {
            r_top + i
        };
        let has_ink: bool = count_dark(img, y, x0, x1) >= INK_PIXELS;
        assert(ink[i as int] == has_ink);
        if has_ink {
            last = Some(y);
            gap_count = 0;
            proof {
                last_step = Some(i as int);
            }
        } else {
            gap_count = gap_count + 1;
            if last.is_some() && gap_count > gap {
                break;
            }
        }
        i = i + 1;
    }
    last
}

/// The columns with ink, from column `x` on.
pub open spec fn columns(
    img: &GrayImage,
    x: int,
    x_end: int,
    r_top: int,
    r_bot: int,
    region: Region,
) -> Seq<ColInk>
    decreases x_end - x,
{
    if x >= x_end || region.col_width == 0 {
        Seq::empty()
    } else {
        let right = if x + region.col_width < x_end {
            x + region.col_width
        } else {
            x_end
        };
        let rest = columns(img, right, x_end, r_top, r_bot, region);
        match column_edge(img, x, right, r_top, r_bot, region.upwards, max_gap(region.pad)) {
            Some(y) => seq![
                ColInk { x_left: x as u32, x_right: right as u32, ink_edge: y as u32 },
            ] + rest,
            None => rest,
        }
    }
}

/// Columns follow each other from left to right without overlapping.
pub open spec fn in_order(cols: Seq<ColInk>, lo: int, hi: int) -> bool {
    &&& forall|i: int|
        0 <= i < cols.len() ==> lo <= (#[trigger] cols[i]).x_left <= cols[i].x_right <= hi
    &&& forall|i: int, j: int|
        0 <= i < j < cols.len() ==> (#[trigger] cols[i]).x_right <= (#[trigger] cols[j]).x_left
}

fn find_columns(
    img: &GrayImage,
    x_start: u32,
    x_end: u32,
    r_top: u32,
    r_bot: u32,
    region: Region,
) -> (cols: Vec<ColInk>)
    requires
        img.wf(),
        x_start <= x_end <= img.width,
        r_top <= r_bot < img.height,
        region.col_width > 0,
    ensures
        cols@ == columns(img, x_start as int, x_end as int, r_top as int, r_bot as int, region),
        in_order(cols@, x_start as int, x_end as int),
{
    let gap: u32 = region.pad.times(Single { bits: GAP_SHARE }).max(
        Single { bits: LEAST_GAP },
    ).to_u32();
    let mut cols: Vec<ColInk> = Vec::new();
    let mut x: u32 = x_start;
    assert(Seq::<ColInk>::empty() + columns(
        img,
        x as int,
        x_end as int,
        r_top as int,
        r_bot as int,
        region,
    ) =~= columns(img, x as int, x_end as int, r_top as int, r_bot as int, region));
    while x < x_end
        invariant
            img.wf(),
            x_start <= x <= x_end <= img.width,
            r_top <= r_bot < img.height,
            region.col_width > 0,
            gap == max_gap(region.pad),
            cols@ + columns(img, x as int, x_end as int, r_top as int, r_bot as int, region)
                == columns(img, x_start as int, x_end as int, r_top as int, r_bot as int, region),
            in_order(cols@, x_start as int, x as int),
        decreases x_end - x,
    {
        let right: u32 = if region.col_width < x_end - x {
            x + region.col_width
        } else {
            x_end
        };
        let ghost before = cols@;
        let ghost rest = columns(
            img,
            right as int,
            x_end as int,
            r_top as int,
            r_bot as int,
            region,
        );
        match find_column_edge(img, x, right, r_top, r_bot, region.upwards, gap) {
            Some(y) => {
                let c = ColInk { x_left: x, x_right: right, ink_edge: y };
                cols.push(c);
                assert(before + (seq![c] + rest) =~= before.push(c) + rest);
            },
            None => {},
        }
        x = right;
    }
    assert(cols@ + Seq::<ColInk>::empty() =~= cols@);
    cols
}

/// The last column of the group that column `i` opens: each next one is no
/// more than a column's width away.
pub open spec fn group_end(cols: Seq<ColInk>, i: int, col_width: int) -> int
    decreases cols.len() - i,
{
    if i + 1 < cols.len() && cols[i + 1].x_left - cols[i].x_right <= col_width {
        group_end(cols, i + 1, col_width)
    } else {
        i
    }
}

/// The row farthest from the band that columns `i..=e` reach.
pub open spec fn farthest(cols: Seq<ColInk>, i: int, e: int, upwards: bool) -> int
    decreases e - i,
{
    if e <= i {
        cols[i].ink_edge as int
    } else {
        let f = farthest(cols, i, e - 1, upwards);
        let y = cols[e].ink_edge as int;
        if upwards == (y < f) {
            y
        } else {
            f
        }
    }
}

/// The rectangle of the group of columns `i..=e`: from the edge of the band
/// to the padded edge of the ink.
pub open spec fn group_box(img: &GrayImage, cols: Seq<ColInk>, i: int, e: int, region: Region)
    -> PixelBox {
    let half = region.col_width as int / 2;
    let ink = whole(farthest(cols, i, e, region.upwards));
    let left = cols[i].x_left - half;
    let right = cols[e].x_right + half;
    PixelBox {
        x_left: (if left < 0 {
            0
        } else {
            left
        }) as u32,
        x_right: (if right < img.width {
            right
        } else {
            img.width as int
        }) as u32,
        y_top: if region.upwards {
            ink.minus(region.pad).max(Single { bits: 0 })
        } else {
            region.top
        },
        y_bot: if region.upwards {
            region.bot
        } else {
            ink.plus(region.pad).min(whole(img.height as int))
        },
    }
}

/// The rectangles of the groups from column `i` on.
pub open spec fn boxes(img: &GrayImage, cols: Seq<ColInk>, i: int, region: Region) -> Seq<PixelBox>
    decreases cols.len() - i,
{
    if i >= cols.len() {
        Seq::empty()
    } else {
        let e = group_end(cols, i, region.col_width as int);
        if e < i || e >= cols.len() {
            Seq::empty()
        } else {
            seq![group_box(img, cols, i, e, region)] + boxes(img, cols, e + 1, region)
        }
    }
}

/// The rectangles of ink in a region beyond a band.
pub open spec fn protrusion_boxes(img: &GrayImage, region: Region) -> Seq<PixelBox> {
    let r_top = row_below(img, region.top);
    let r_bot = row_above(img, region.bot);
    if r_top >= r_bot {
        Seq::empty()
    } else {
        boxes(img, columns(img, ink_left(img), ink_right(img), r_top, r_bot, region), 0, region)
    }
}

/// Looks through a region beyond the edge of a band for ink that belongs to
/// the band.
pub fn scan_protrusions_in_region(img: &GrayImage, region: Region) -> (r: Vec<PixelBox>)
    requires
        img.wf(),
        img.height > 0,
        region.col_width > 0,
    ensures
        r@ == protrusion_boxes(img, region),
{
    let mut found: Vec<PixelBox> = Vec::new();
    let r_top: u32 = first_row_below(img, region.top);
    let r_bot: u32 = last_row_above(img, region.bot);
    if r_top >= r_bot {
        return found;
    }
    let x_start: u32 = img.width / 20;
    let x_end: u32 = img.width - x_start;
    let cols = find_columns(img, x_start, x_end, r_top, r_bot, region);
    let half: u32 = region.col_width / 2;
    let mut i: usize = 0;
    assert(Seq::<PixelBox>::empty() + boxes(img, cols@, 0, region) =~= boxes(
        img,
        cols@,
        0,
        region,
    ));
    while i < cols.len()
        invariant
            i <= cols@.len(),
            in_order(cols@, x_start as int, x_end as int),
            x_start <= x_end <= img.width,
            half == region.col_width / 2,
            found@ + boxes(img, cols@, i as int, region) == boxes(img, cols@, 0, region),
        decreases cols@.len() - i,
    {
        let mut e: usize = i;
        let mut far: u32 = cols[i].ink_edge;
        while e + 1 < cols.len()
            invariant
                i <= e < cols@.len() == cols.len(),
                in_order(cols@, x_start as int, x_end as int),
                group_end(cols@, i as int, region.col_width as int) == group_end(
                    cols@,
                    e as int,
                    region.col_width as int,
                ),
                far == farthest(cols@, i as int, e as int, region.upwards),
            ensures
                i <= e < cols@.len(),
                e == group_end(cols@, i as int, region.col_width as int),
                far == farthest(cols@, i as int, e as int, region.upwards),
            decreases cols@.len() - e,
        {
            let next = cols[e + 1];
            proof {
                assert(cols@[e as int].x_right <= cols@[e + 1].x_left);
            }
            if next.x_left - cols[e].x_right <= region.col_width {
                e = e + 1;
                if region.upwards == (next.ink_edge < far) {
                    far = next.ink_edge;
                }
            } else {
                break;
            }
        }
        let ink = Single::from_u32(far);
        let first = cols[i];
        let last = cols[e];
        proof {
            assert(cols@[i as int].x_left <= x_end);
            assert(cols@[e as int].x_right <= x_end);
        }
        let x_left: u32 = if first.x_left < half {
            0
        } else {
            first.x_left - half
        };
        let x_right: u32 = if half < img.width - last.x_right {
            last.x_right + half
        } else {
            img.width
        };
        let b = if region.upwards {
            PixelBox {
                x_left,
                x_right,
                y_top: ink.minus(region.pad).max(Single { bits: 0 }),
                y_bot: region.bot,
            }
        } else {
            PixelBox {
                x_left,
                x_right,
                y_top: region.top,
                y_bot: ink.plus(region.pad).min(Single::from_u32(img.height)),
            }
        };
        let ghost before = found@;
        let ghost rest = boxes(img, cols@, e + 1, region);
        found.push(b);
        proof {
            assert(b == group_box(img, cols@, i as int, e as int, region));
            assert(before + (seq![b] + rest) =~= before.push(b) + rest);
        }
        i = e + 1;
    }
    assert(found@ + Seq::<PixelBox>::empty() =~= found@);
    found
}

} // verus!
