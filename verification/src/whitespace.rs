//! The widest stretch of empty rows between two staves.
use crate::image::GrayImage;
use crate::signal::TWO;
use crate::single::{whole, Single};
use vstd::prelude::*;

verus! {

/// A grey value below this is ink.
pub const DARK: u8 = 200;

/// How many pixels of row `y` in columns `x0..x1` are ink.
pub open spec fn dark_count(img: &GrayImage, y: int, x0: int, x1: int) -> nat
    decreases x1 - x0,
{
    if x1 <= x0 {
        0
    } else {
        dark_count(img, y, x0, x1 - 1) + if img.pixel(x1 - 1, y) < DARK {
            1nat
        } else {
            0nat
        }
    }
}

pub proof fn lemma_dark_count_bound(img: &GrayImage, y: int, x0: int, x1: int)
    requires
        x0 <= x1,
    ensures
        dark_count(img, y, x0, x1) <= x1 - x0,
    decreases x1 - x0,
{
    if x0 < x1 {
        lemma_dark_count_bound(img, y, x0, x1 - 1);
    }
}

/// Counts the ink in a stretch of a row.
pub fn count_dark(img: &GrayImage, y: u32, x0: u32, x1: u32) -> (n: u32)
    requires
        img.wf(),
        y < img.height,
        x0 <= x1 <= img.width,
    ensures
        n == dark_count(img, y as int, x0 as int, x1 as int),
        n <= x1 - x0,
{
    let mut n: u32 = 0;
    let mut x: u32 = x0;
    while x < x1
        invariant
            img.wf(),
            y < img.height,
            x0 <= x <= x1 <= img.width,
            n == dark_count(img, y as int, x0 as int, x as int),
            n <= x - x0,
        decreases x1 - x,
    {
        if img.get(x, y) < DARK {
            n = n + 1;
        }
        x = x + 1;
    }
    n
}

/// The first column that is looked at for ink: a twentieth is left out on
/// either side.
pub open spec fn ink_left(img: &GrayImage) -> int {
    img.width as int / 20
}

/// The end of the columns that are looked at for ink.
pub open spec fn ink_right(img: &GrayImage) -> int {
    img.width - img.width as int / 20
}

/// The ink in each of the rows `start..=end`.
pub open spec fn row_counts(img: &GrayImage, start: int, end: int) -> Seq<nat> {
    Seq::new(
        (end + 1 - start) as nat,
        |i: int| dark_count(img, start + i, ink_left(img), ink_right(img)),
    )
}

/// The sum of `counts[lo..hi]`.
pub open spec fn total(counts: Seq<nat>, lo: int, hi: int) -> nat
    decreases hi - lo,
{
    if hi <= lo {
        0
    } else {
        total(counts, lo, hi - 1) + counts[hi - 1]
    }
}

/// The window of two rows on either side begins here.
pub open spec fn window_lo(i: int) -> int {
    if i < 2 {
        0
    } else {
        i - 2
    }
}

/// The window ends here, in `n` rows.
pub open spec fn window_hi(i: int, n: int) -> int {
    if i + 3 < n {
        i + 3
    } else {
        n
    }
}

/// Whether a row counts as inked: the mean around it exceeds two pixels.
pub open spec fn inked(counts: Seq<nat>, i: int) -> bool {
    let lo = window_lo(i);
    let hi = window_hi(i, counts.len() as int);
    Single { bits: TWO }.lt(whole(total(counts, lo, hi) as int).over(whole(hi - lo)))
}

pub open spec fn ink_rows(counts: Seq<nat>) -> Seq<bool> {
    Seq::new(counts.len(), |i: int| inked(counts, i))
}

/// Rows `s..s + l` are all empty, and there is at least one.
pub open spec fn is_run(ink: Seq<bool>, s: int, l: int) -> bool {
    &&& 0 <= s
    &&& 0 < l
    &&& s + l <= ink.len()
    &&& forall|i: int| s <= i < s + l ==> !#[trigger] ink[i]
}

/// Rows `s..s + l` are the widest run of empty rows, and the topmost of
/// those.
pub open spec fn is_widest(ink: Seq<bool>, s: int, l: int) -> bool {
    &&& is_run(ink, s, l)
    &&& forall|s2: int, l2: int| #[trigger]
        is_run(ink, s2, l2) ==> l2 <= l && (l2 == l ==> s <= s2)
}

/// The widest run of empty rows: its start and its length.
pub open spec fn widest(ink: Seq<bool>) -> (int, int) {
    choose|p: (int, int)| is_widest(ink, p.0, p.1)
}

pub open spec fn all_inked(ink: Seq<bool>) -> bool {
    forall|i: int| 0 <= i < ink.len() ==> #[trigger] ink[i]
}

/// Where the run of empty rows starts that ends with row `i`.
proof fn lemma_run_start(ink: Seq<bool>, i: int) -> (s: int)
    requires
        0 <= i < ink.len(),
        !ink[i],
    ensures
        0 <= s <= i,
        forall|j: int| s <= j <= i ==> !#[trigger] ink[j],
        s > 0 ==> ink[s - 1],
    decreases i,
{
    if i > 0 && !ink[i - 1] {
        lemma_run_start(ink, i - 1)
    } else {
        i
    }
}

/// Among the first `n` rows, where some are empty, there is a widest run.
proof fn lemma_some_widest(ink: Seq<bool>, n: int) -> (p: (int, int))
    requires
        0 <= n <= ink.len(),
        exists|i: int| 0 <= i < n && !#[trigger] ink[i],
    ensures
        is_run(ink, p.0, p.1),
        p.0 + p.1 <= n,
        forall|s: int, l: int| #[trigger]
            is_run(ink, s, l) && s + l <= n ==> l <= p.1 && (l == p.1 ==> p.0 <= s),
    decreases n,
{
    let i = n - 1;
    if ink[i] {
        let p = lemma_some_widest(ink, i);
        assert forall|s: int, l: int| #[trigger] is_run(ink, s, l) && s + l <= n implies l <= p.1
            && (l == p.1 ==> p.0 <= s) by {
            if s + l == n {
                assert(!ink[i]);
            }
        }
        p
    } else {
        let start = lemma_run_start(ink, i);
        let len = n - start;
        assert(is_run(ink, start, len));
        assert forall|s: int, l: int| #[trigger] is_run(ink, s, l) && s + l == n implies s
            >= start by {
            if s < start {
                assert(!ink[start - 1]);
            }
        }
        if exists|j: int| 0 <= j < i && !#[trigger] ink[j] {
            let p = lemma_some_widest(ink, i);
            if p.1 >= len {
                p
            } else {
                (start, len)
            }
        } else {
            assert forall|s: int, l: int| #[trigger] is_run(ink, s, l) && s + l < n implies l
                <= 0 by {
                if l > 0 {
                    assert(!ink[s]);
                }
            }
            (start, len)
        }
    }
}

/// Where some rows are empty, the widest run of empty rows lies among the
/// rows.
pub proof fn lemma_widest(ink: Seq<bool>)
    requires
        !all_inked(ink),
    ensures
        is_widest(ink, widest(ink).0, widest(ink).1),
{
    let p = lemma_some_widest(ink, ink.len() as int);
    assert(is_widest(ink, p.0, p.1));
}

/// Finds the widest run of empty rows; its length is zero if there is none.
pub fn find_widest(ink: &Vec<bool>) -> (r: (usize, usize))
    ensures
        r.1 == 0 <==> all_inked(ink@),
        r.1 > 0 ==> is_widest(ink@, r.0 as int, r.1 as int) && widest(ink@) == (
            r.0 as int,
            r.1 as int,
        ),
{
    let mut best_start: usize = 0;
    let mut best_len: usize = 0;
    let mut run_len: usize = 0;
    let mut i: usize = 0;
    while i < ink.len()
        invariant
            i <= ink@.len(),
            run_len <= i,
            forall|j: int| i - run_len <= j < i ==> !#[trigger] ink@[j],
            run_len < i ==> ink@[i - run_len - 1],
            best_len >= run_len,
            best_len > 0 ==> is_run(ink@, best_start as int, best_len as int),
            best_start + best_len <= i,
            best_len == 0 ==> forall|j: int| 0 <= j < i ==> #[trigger] ink@[j],
            forall|s: int, l: int| #[trigger]
                is_run(ink@, s, l) && s + l <= i ==> l <= best_len && (l == best_len ==> best_start
                    <= s),
        decreases ink@.len() - i,
    {
        let ghost old_run = run_len;
        if ink[i] {
            run_len = 0;
        } else {
            run_len = run_len + 1;
            if run_len > best_len {
                best_len = run_len;
                best_start = i + 1 - run_len;
            }
        }
        proof {
            assert forall|s: int, l: int| #[trigger]
                is_run(ink@, s, l) && s + l <= i + 1 implies l <= best_len && (l == best_len
                ==> best_start <= s) by {
                if s + l == i + 1 {
                    assert(!ink@[i as int]);
                    if l > run_len {
                        assert(ink@[i - old_run - 1]);
                    }
                }
            }
        }
        i = i + 1;
    }
    proof {
        if best_len > 0 {
            assert(is_widest(ink@, best_start as int, best_len as int));
            assert(is_widest(ink@, (best_start as int, best_len as int).0, (
                best_start as int,
                best_len as int,
            ).1));
            let p = widest(ink@);
            assert(is_widest(ink@, p.0, p.1));
            assert(!ink@[best_start as int]);
        }
    }
    (best_start, best_len)
}

/// The middle between two heights.
pub open spec fn midpoint(a: Single, b: Single) -> Single {
    a.plus(b).over(Single { bits: TWO })
}

/// The row at or below a height, inside the image.
pub open spec fn row_below(img: &GrayImage, y: Single) -> int {
    let r = y.ceiling(u32::MAX as int);
    if r < img.height - 1 {
        r
    } else {
        img.height - 1
    }
}

/// The row at or above a height, inside the image.
pub open spec fn row_above(img: &GrayImage, y: Single) -> int {
    let r = y.truncated(0, u32::MAX as int);
    if r < img.height - 1 {
        r
    } else {
        img.height - 1
    }
}

/// The edges of the widest stretch of empty rows between the bottom of one
/// staff and the top of the next; where there is none, the middle twice.
pub open spec fn gap_edges(img: &GrayImage, staff_bot: Single, next_top: Single) -> (
    Single,
    Single,
) {
    let start = row_below(img, staff_bot);
    let end = row_above(img, next_top);
    let ink = ink_rows(row_counts(img, start, end));
    let mid = midpoint(staff_bot, next_top);
    if start >= end || all_inked(ink) {
        (mid, mid)
    } else {
        let top = whole(start).plus(whole(widest(ink).0));
        (top, top.plus(whole(widest(ink).1)))
    }
}

/// The row at or below a height, inside the image.
pub fn first_row_below(img: &GrayImage, y: Single) -> (r: u32)
    requires
        img.height > 0,
    ensures
        r == row_below(img, y),
        r < img.height,
{
    let r: u32 = y.ceil_to_u32();
    if r < img.height - 1 {
        r
    } else {
        img.height - 1
    }
}

/// The row at or above a height, inside the image.
pub fn last_row_above(img: &GrayImage, y: Single) -> (r: u32)
    requires
        img.height > 0,
    ensures
        r == row_above(img, y),
        r < img.height,
{
    let r: u32 = y.to_u32();
    if r < img.height - 1 {
        r
    } else {
        img.height - 1
    }
}

fn is_inked(counts: &Vec<u32>, i: usize) -> (r: bool)
    requires
        i < counts@.len(),
    ensures
        r == inked(counts@.map_values(|c: u32| c as nat), i as int),
{
    let n: usize = counts.len();
    let ghost cs = counts@.map_values(|c: u32| c as nat);
    let lo: usize = if i < 2 {
        0
    } else {
        i - 2
    };
    let hi: usize = if n - i > 3 {
        i + 3
    } else {
        n
    };
    let mut t: u64 = 0;
    let mut k: usize = lo;
    while k < hi
        invariant
            lo <= k <= hi <= n,
            hi - lo <= 5,
            n == counts@.len(),
            cs == counts@.map_values(|c: u32| c as nat),
            t == total(cs, lo as int, k as int),
            t <= (k - lo) * u32::MAX,
        decreases hi - k,
    {
        proof {
            assert(cs[k as int] == counts@[k as int]);
        }
        t = t + counts[k] as u64;
        k = k + 1;
    }
    Single { bits: TWO }.lt(Single::from_u64(t).over(Single::from_usize(hi - lo)))
}

/// Finds the widest stretch of empty rows between two neighbouring staves.
pub fn find_gap_edges(img: &GrayImage, staff_bot: Single, next_staff_top: Single) -> (r: (
    Single,
    Single,
))
    requires
        img.wf(),
        img.height > 0,
    ensures
        r == gap_edges(img, staff_bot, next_staff_top),
{
    let start: u32 = first_row_below(img, staff_bot);
    let end: u32 = last_row_above(img, next_staff_top);
    let mid = staff_bot.plus(next_staff_top).over(Single { bits: TWO });
    if start >= end {
        return (mid, mid);
    }
    let x0: u32 = img.width / 20;
    let x1: u32 = img.width - x0;
    let mut counts: Vec<u32> = Vec::new();
    let mut y: u32 = start;
    while y <= end
        invariant
            img.wf(),
            x0 == ink_left(img),
            x1 == ink_right(img),
            x0 <= x1 <= img.width,
            start <= y <= end + 1,
            end < img.height,
            counts@.len() == y - start,
            forall|j: int|
                0 <= j < counts@.len() ==> #[trigger] counts@[j] == dark_count(
                    img,
                    start + j,
                    ink_left(img),
                    ink_right(img),
                ),
        decreases end + 1 - y,
    {
        counts.push(count_dark(img, y, x0, x1));
        y = y + 1;
    }
    let ghost cs = counts@.map_values(|c: u32| c as nat);
    assert(cs =~= row_counts(img, start as int, end as int));
    let mut ink: Vec<bool> = Vec::new();
    let mut i: usize = 0;
    while i < counts.len()
        invariant
            i <= counts@.len(),
            cs == counts@.map_values(|c: u32| c as nat),
            ink@.len() == i,
            forall|j: int| 0 <= j < i ==> #[trigger] ink@[j] == inked(cs, j),
        decreases counts@.len() - i,
    {
        ink.push(is_inked(&counts, i));
        i = i + 1;
    }
    assert(ink@ =~= ink_rows(cs));
    let (best_start, best_len) = find_widest(&ink);
    if best_len == 0 {
        return (mid, mid);
    }
    let top = Single::from_u32(start).plus(Single::from_usize(best_start));
    (top, top.plus(Single::from_usize(best_len)))
}

/// The ink of a row, counted in two pictures that have it at the same
/// places.
proof fn lemma_same_dark_count(a: &GrayImage, b: &GrayImage, y: int, x0: int, x1: int)
    requires
        forall|x: int| x0 <= x < x1 ==> (#[trigger] a.pixel(x, y) < DARK <==> b.pixel(x, y) < DARK),
    ensures
        dark_count(a, y, x0, x1) == dark_count(b, y, x0, x1),
    decreases x1 - x0,
{
    if x0 < x1 {
        lemma_same_dark_count(a, b, y, x0, x1 - 1);
        assert(a.pixel(x1 - 1, y) < DARK <==> b.pixel(x1 - 1, y) < DARK);
    }
}

/// What is found between two staves depends only on which pixels between
/// the side margins are ink: neither the margins nor the shades matter.
pub proof fn lemma_gap_depends_on_ink(
    a: &GrayImage,
    b: &GrayImage,
    staff_bot: Single,
    next_top: Single,
)
    requires
        a.width == b.width,
        a.height == b.height,
        a.height > 0,
        forall|x: int, y: int|
            ink_left(a) <= x < ink_right(a) && 0 <= y < a.height ==> (#[trigger] a.pixel(x, y) < DARK
                <==> b.pixel(x, y) < DARK),
    ensures
        gap_edges(a, staff_bot, next_top) == gap_edges(b, staff_bot, next_top),
{
    let start = row_below(a, staff_bot);
    let end = row_above(a, next_top);
    lemma_rows_inside(a, staff_bot, next_top);
    if start < end {
        assert forall|i: int| 0 <= i < end + 1 - start implies #[trigger] row_counts(
            a,
            start,
            end,
        )[i] == row_counts(b, start, end)[i] by {
            lemma_same_dark_count(a, b, start + i, ink_left(a), ink_right(a));
        }
        assert(row_counts(a, start, end) =~= row_counts(b, start, end));
    }
}

/// Rows that are looked at lie inside the picture.
pub(crate) proof fn lemma_rows_inside(img: &GrayImage, upper: Single, lower: Single)
    requires
        img.height > 0,
    ensures
        0 <= row_below(img, upper) < img.height,
        0 <= row_above(img, lower) < img.height,
{
}

} // verus!
