//! Removing what was mistaken for a stave.
//!
//! A page of quartet music has four staves to a system. Where the number of
//! staves found is no multiple of four, lines above the music, titles and
//! the like have been taken for staves, and the most anomalous one goes.
use crate::order::{all_numbers, find_first_min, first_min, lemma_sorted, sort, sorted};
use crate::single::Single;
use vstd::prelude::*;

verus! {

/// 0.75, below which share of the median a gap is too small.
pub const SMALL_GAP: u32 = 0x3f40_0000;

/// 0.5, below which share of the median a score is too weak.
pub const WEAK_SCORE: u32 = 0x3f00_0000;

/// 1.6, above which multiple of the median a gap is too large.
pub const LARGE_GAP: u32 = 0x3fcc_cccd;

/// Every element is a finite number.
pub open spec fn all_finite(s: Seq<Single>) -> bool {
    forall|i: int| 0 <= i < s.len() ==> (#[trigger] s[i]).finite()
}

/// The distances between neighbouring staves.
pub open spec fn gaps(tops: Seq<Single>) -> Seq<Single> {
    Seq::new((tops.len() - 1) as nat, |i: int| tops[i + 1].minus(tops[i]))
}

/// How strongly the comb filter answered at a stave's top.
pub open spec fn score(conv: Seq<Single>, top: Single) -> Single {
    let i = top.truncated(0, usize::MAX as int);
    if i < conv.len() {
        conv[i]
    } else {
        Single { bits: 0 }
    }
}

pub open spec fn scores(conv: Seq<Single>, tops: Seq<Single>) -> Seq<Single> {
    tops.map_values(|t: Single| score(conv, t))
}

/// The upper median.
pub open spec fn median(s: Seq<Single>) -> Single {
    sorted(s)[s.len() as int / 2]
}

/// The stave to drop, where the smallest gap is too small: the weaker one
/// of the two that it separates.
pub open spec fn crowded(tops: Seq<Single>, conv: Seq<Single>) -> int {
    let k = first_min(gaps(tops));
    if score(conv, tops[k]).le(score(conv, tops[k + 1])) {
        k
    } else {
        k + 1
    }
}

/// The stave to drop at the front or the back: one with a weak score, or
/// else one that stands far off.
pub open spec fn remote(tops: Seq<Single>, conv: Seq<Single>) -> Option<int> {
    let gap = gaps(tops);
    let sc = scores(conv, tops);
    let weak = median(sc).times(Single { bits: WEAK_SCORE });
    let large = Single { bits: LARGE_GAP };
    let last = tops.len() - 1;
    if sc[0].lt(weak) && sc[0].le(sc[last]) {
        Some(0)
    } else if sc[last].lt(weak) {
        Some(last)
    } else if large.lt(gap[0].over(median(gap))) && gap[last - 1].le(gap[0]) {
        Some(0)
    } else if large.lt(gap[last - 1].over(median(gap))) {
        Some(last)
    } else {
        None
    }
}

/// The stave that does not belong, if there is a clear one.
pub open spec fn outlier(tops: Seq<Single>, conv: Seq<Single>) -> Option<int> {
    let gap = gaps(tops);
    if gap[first_min(gap)].over(median(gap)).lt(Single { bits: SMALL_GAP }) {
        Some(crowded(tops, conv))
    } else {
        remote(tops, conv)
    }
}

/// The staves that remain when outliers are dropped one at a time, until
/// their number is a multiple of four, or four are left, or none is clear.
pub open spec fn pruned(tops: Seq<Single>, conv: Seq<Single>) -> Seq<Single>
    decreases tops.len(),
{
    if tops.len() > 4 && tops.len() % 4 != 0 {
        match outlier(tops, conv) {
            Some(k) => if 0 <= k < tops.len() {
                pruned(tops.remove(k), conv)
            } else {
                tops
            },
            None => tops,
        }
    } else {
        tops
    }
}

/// A difference of finite numbers is a number.
pub proof fn lemma_minus_number(a: Single, b: Single)
    requires
        a.finite(),
        b.finite(),
    ensures
        !a.minus(b).nan(),
{
    assert(b.neg().mag() == b.mag());
    let n = a.value() + b.neg().value();
    if n != 0 {
        let v = if n < 0 {
            -n
        } else {
            n
        };
        crate::rounding::lemma_nearest_rounds(v, 1);
    }
}

fn score_at(conv: &Vec<Single>, top: Single) -> (r: Single)
    ensures
        r == score(conv@, top),
{
    let i: usize = top.to_usize();
    if i < conv.len() {
        conv[i]
    } else {
        Single { bits: 0 }
    }
}

/// Finds the stave that does not belong.
fn find_outlier(tops: &Vec<Single>, conv: &Vec<Single>) -> (r: Option<usize>)
    requires
        tops@.len() > 4,
        all_finite(tops@),
        all_numbers(conv@),
    ensures
        match r {
            Some(k) => k < tops@.len() && outlier(tops@, conv@) == Some(k as int),
            None => outlier(tops@, conv@) is None,
        },
{
    let n: usize = tops.len();
    let mut gap: Vec<Single> = Vec::new();
    let mut sc: Vec<Single> = Vec::new();
    let mut i: usize = 0;
    while i < n
        invariant
            n == tops@.len(),
            n > 4,
            all_finite(tops@),
            all_numbers(conv@),
            i <= n,
            sc@.len() == i,
            gap@.len() == (if i < n {
                i as int
            } else {
                n - 1
            }),
            forall|j: int| 0 <= j < sc@.len() ==> #[trigger] sc@[j] == score(conv@, tops@[j]),
            forall|j: int|
                0 <= j < gap@.len() ==> #[trigger] gap@[j] == tops@[j + 1].minus(tops@[j]),
            all_numbers(gap@),
            all_numbers(sc@),
        decreases n - i,
    {
        if i + 1 < n {
            proof {
                assert(tops@[i as int].finite());
                assert(tops@[i + 1].finite());
                lemma_minus_number(tops@[i + 1], tops@[i as int]);
            }
            gap.push(tops[i + 1].minus(tops[i]));
        }
        sc.push(score_at(conv, tops[i]));
        i = i + 1;
    }
    proof {
        assert(gap@ =~= gaps(tops@));
        assert(sc@ =~= scores(conv@, tops@));
        lemma_sorted(gap@);
        lemma_sorted(sc@);
    }
    let sorted_gaps = sort(&gap);
    let mid = sorted_gaps[gap.len() / 2];
    let k: usize = find_first_min(&gap);
    if gap[k].over(mid).lt(Single { bits: SMALL_GAP }) {
        if sc[k].le(sc[k + 1]) {
            return Some(k);
        }
        return Some(k + 1);
    }
    let sorted_scores = sort(&sc);
    let weak = sorted_scores[n / 2].times(Single { bits: WEAK_SCORE });
    let first = sc[0];
    let last = sc[n - 1];
    let first_gap = gap[0];
    let last_gap = gap[n - 2];
    let large = Single { bits: LARGE_GAP };
    if first.lt(weak) && first.le(last) {
        Some(0)
    } else if last.lt(weak) {
        Some(n - 1)
    } else if large.lt(first_gap.over(mid)) && last_gap.le(first_gap) {
        Some(0)
    } else if large.lt(last_gap.over(mid)) {
        Some(n - 1)
    } else {
        None
    }
}

/// Drops what is no stave.
pub fn remove_false_staves(tops: Vec<Single>, conv: &Vec<Single>) -> (r: Vec<Single>)
    requires
        all_finite(tops@),
        all_numbers(conv@),
    ensures
        r@ == pruned(tops@, conv@),
{
    let mut rest: Vec<Single> = tops;
    while rest.len() > 4 && rest.len() % 4 != 0
        invariant
            all_finite(rest@),
            all_numbers(conv@),
            pruned(rest@, conv@) == pruned(tops@, conv@),
        ensures
            rest@ == pruned(tops@, conv@),
        decreases rest@.len(),
    {
        match find_outlier(&rest, conv) {
            Some(k) => {
                let ghost before = rest@;
                rest.remove(k);
                proof {
                    assert(rest@ =~= before.remove(k as int));
                    assert forall|i: int| 0 <= i < rest@.len() implies (
                    #[trigger] rest@[i]).finite() by {
                        assert(rest@[i] == before[if i < k {
                            i
                        } else {
                            i + 1
                        }]);
                    }
                }
            },
            None => {
                break;
            },
        }
    }
    rest
}

/// Pruning only drops staves: what remains was there, in the same order.
pub proof fn lemma_pruned_is_a_selection(tops: Seq<Single>, conv: Seq<Single>) -> (kept: Seq<int>)
    ensures
        kept.len() == pruned(tops, conv).len(),
        forall|i: int| 0 <= i < kept.len() ==> 0 <= #[trigger] kept[i] < tops.len(),
        forall|i: int, j: int|
            0 <= i < j < kept.len() ==> #[trigger] kept[i] < #[trigger] kept[j],
        forall|i: int|
            0 <= i < kept.len() ==> pruned(tops, conv)[i] == tops[#[trigger] kept[i]],
        tops.len() >= 4 ==> kept.len() >= 4,
    decreases tops.len(),
{
    let all = Seq::new(tops.len(), |i: int| i);
    if tops.len() > 4 && tops.len() % 4 != 0 {
        match outlier(tops, conv) {
            Some(k) => if 0 <= k < tops.len() {
                let inner = lemma_pruned_is_a_selection(tops.remove(k), conv);
                let skip = |i: int|
                    if i < k {
                        i
                    } else {
                        i + 1
                    };
                inner.map_values(skip)
            } else {
                all
            },
            None => all,
        }
    } else {
        all
    }
}

} // verus!
