//! From the darkness of rows to the tops of staves.
use crate::order::{
    all_numbers, find_last_max, is_last_max, last_max, sort, sorted, sum, sum_range,
};
use crate::signal::TWO;
use crate::single::{whole, Single};
use vstd::prelude::*;

verus! {

/// A number above zero.
pub open spec fn above_zero(x: Single) -> bool {
    Single { bits: 0 }.lt(x)
}

/// The signal at a place, zero past its end.
pub open spec fn tap(signal: Seq<Single>, i: int) -> Single {
    if i < signal.len() {
        signal[i]
    } else {
        Single { bits: 0 }
    }
}

/// The darkness of five lines, `s` apart, from row `i` down.
pub open spec fn comb(signal: Seq<Single>, s: int, i: int) -> Single {
    sum(
        seq![
            tap(signal, i),
            tap(signal, i + s),
            tap(signal, i + 2 * s),
            tap(signal, i + 3 * s),
            tap(signal, i + 4 * s),
        ],
    )
}

/// The comb filter over a whole signal.
pub open spec fn combed(signal: Seq<Single>, spacing: Single) -> Seq<Single> {
    Seq::new(
        signal.len(),
        |i: int| comb(signal, spacing.nearest_whole(usize::MAX as int), i),
    )
}

fn tap_at(signal: &Vec<Single>, i: usize) -> (r: Single)
    ensures
        r == tap(signal@, i as int),
{
    if i < signal.len() {
        signal[i]
    } else {
        Single { bits: 0 }
    }
}

/// Filters a signal with a comb of five lines.
pub fn comb_convolve(signal: &Vec<Single>, line_spacing: Single) -> (r: Vec<Single>)
    requires
        signal@.len() + 4 * line_spacing.nearest_whole(usize::MAX as int) <= usize::MAX,
    ensures
        r@ == combed(signal@, line_spacing),
{
    let n: usize = signal.len();
    let s: usize = line_spacing.round_to_usize();
    let mut r: Vec<Single> = Vec::new();
    let mut i: usize = 0;
    while i < n
        invariant
            n == signal@.len(),
            s == line_spacing.nearest_whole(usize::MAX as int),
            n + 4 * s <= usize::MAX,
            i <= n,
            r@.len() == i,
            forall|j: int| 0 <= j < i ==> #[trigger] r@[j] == comb(signal@, s as int, j),
        decreases n - i,
    {
        let taps: Vec<Single> = vec![
            tap_at(signal, i),
            tap_at(signal, i + s),
            tap_at(signal, i + 2 * s),
            tap_at(signal, i + 3 * s),
            tap_at(signal, i + 4 * s),
        ];
        let v = sum_range(&taps, 0, 5);
        proof {
            assert(taps@.subrange(0, 5) =~= seq![
                tap(signal@, i as int),
                tap(signal@, i + s),
                tap(signal@, i + 2 * s),
                tap(signal@, i + 3 * s),
                tap(signal@, i + 4 * s),
            ]);
        }
        r.push(v);
        i = i + 1;
    }
    assert(r@ =~= combed(signal@, line_spacing));
    r
}

/// Twice the mean of a signal.
pub open spec fn peak_threshold(conv: Seq<Single>) -> Single {
    sum(conv).over(whole(conv.len() as int)).times(Single { bits: TWO })
}

/// The sequence with `lo..hi` set to zero.
pub open spec fn zeroed(buf: Seq<Single>, lo: int, hi: int) -> Seq<Single> {
    Seq::new(
        buf.len(),
        |j: int|
            if lo <= j < hi {
                Single { bits: 0 }
            } else {
                buf[j]
            },
    )
}

/// The sequence with everything nearer to `i` than `r` set to zero.
pub open spec fn silenced(buf: Seq<Single>, i: int, r: int) -> Seq<Single> {
    zeroed(
        buf,
        if i < r {
            0
        } else {
            i - r
        },
        if i + r < buf.len() {
            i + r
        } else {
            buf.len() as int
        },
    )
}

/// The places of the peaks, strongest first: the last largest element while
/// it reaches the threshold, everything around it silenced each time. At
/// most `most` of them.
pub open spec fn peaks(buf: Seq<Single>, r: int, threshold: Single, most: nat) -> Seq<int>
    decreases most,
{
    let i = last_max(buf);
    if most == 0 || buf[i].lt(threshold) {
        Seq::empty()
    } else {
        seq![i] + peaks(silenced(buf, i, r), r, threshold, (most - 1) as nat)
    }
}

/// The search for peaks comes to an end: no peak at all, or each one that
/// is found falls silent, below the threshold.
pub open spec fn peaks_end(conv: Seq<Single>, r: int) -> bool {
    ||| conv[last_max(conv)].lt(peak_threshold(conv))
    ||| above_zero(peak_threshold(conv)) && r >= 1
}

/// All peaks of a signal, strongest first.
pub open spec fn peaks_of(conv: Seq<Single>, radius: Single) -> Seq<int> {
    peaks(conv, radius.nearest_whole(usize::MAX as int), peak_threshold(conv), conv.len())
}

/// How many of the first `k` elements reach the threshold.
spec fn loud(buf: Seq<Single>, threshold: Single, k: int) -> nat
    decreases k,
{
    if k <= 0 {
        0
    } else {
        loud(buf, threshold, k - 1) + if buf[k - 1].lt(threshold) {
            0nat
        } else {
            1nat
        }
    }
}

proof fn lemma_loud_bound(buf: Seq<Single>, threshold: Single, k: int)
    requires
        k >= 0,
    ensures
        loud(buf, threshold, k) <= k,
    decreases k,
{
    if k > 0 {
        lemma_loud_bound(buf, threshold, k - 1);
    }
}

proof fn lemma_loud_silenced(buf: Seq<Single>, r: int, i: int, threshold: Single, k: int)
    requires
        0 <= i < buf.len(),
        0 <= k <= buf.len(),
        r >= 1,
        above_zero(threshold),
        !buf[i].lt(threshold),
    ensures
        loud(silenced(buf, i, r), threshold, k) + (if i < k {
            1int
        } else {
            0int
        }) <= loud(buf, threshold, k),
    decreases k,
{
    if k > 0 {
        lemma_loud_silenced(buf, r, i, threshold, k - 1);
    }
}

proof fn lemma_loud_found(buf: Seq<Single>, threshold: Single, i: int, k: int)
    requires
        0 <= i < k <= buf.len(),
        !buf[i].lt(threshold),
    ensures
        loud(buf, threshold, k) >= 1,
    decreases k,
{
    if i < k - 1 {
        lemma_loud_found(buf, threshold, i, k - 1);
    }
}

/// Finds the peaks of a signal and lists their places from the top down.
pub fn non_max_suppress(conv: &Vec<Single>, radius: Single) -> (r: Vec<Single>)
    requires
        conv@.len() > 0,
        all_numbers(conv@),
        conv@.len() + radius.nearest_whole(usize::MAX as int) <= usize::MAX,
        peaks_end(conv@, radius.nearest_whole(usize::MAX as int)),
    ensures
        r@ == sorted(peaks_of(conv@, radius).map_values(|i: int| whole(i))),
{
    let n: usize = conv.len();
    let rad: usize = radius.round_to_usize();
    let mut buf: Vec<Single> = Vec::new();
    let mut i: usize = 0;
    while i < n
        invariant
            n == conv@.len(),
            i <= n,
            buf@ == conv@.take(i as int),
        decreases n - i,
    {
        buf.push(conv[i]);
        assert(conv@.take(i + 1) =~= conv@.take(i as int).push(conv@[i as int]));
        i = i + 1;
    }
    assert(conv@.take(n as int) =~= conv@);
    let threshold = sum_range(conv, 0, n).over(Single::from_usize(n)).times(Single { bits: TWO });
    assert(conv@.subrange(0, n as int) =~= conv@);
    let mut found: Vec<Single> = Vec::new();
    let ghost mut places: Seq<int> = Seq::empty();
    let ghost mut most: nat = n as nat;
    let ghost num = |i: int| whole(i);
    proof {
        assert(found@ =~= places.map_values(num));
        assert(Seq::<int>::empty() + peaks_of(conv@, radius) =~= peaks_of(conv@, radius));
        lemma_loud_bound(buf@, threshold, n as int);
    }
    loop
        invariant
            n > 0,
            buf@.len() == n == conv@.len(),
            all_numbers(buf@),
            rad == radius.nearest_whole(usize::MAX as int),
            n + rad <= usize::MAX,
            threshold == peak_threshold(conv@),
            peaks_end(conv@, rad as int),
            buf@ == conv@ || (above_zero(threshold) && rad >= 1),
            num == (|i: int| whole(i)),
            found@ == places.map_values(num),
            places + peaks(buf@, rad as int, threshold, most) == peaks_of(conv@, radius),
            loud(buf@, threshold, n as int) <= most,
        ensures
            found@ == peaks_of(conv@, radius).map_values(num),
        decreases loud(buf@, threshold, n as int),
    {
        let idx: usize = find_last_max(&buf);
        if buf[idx].lt(threshold) {
            proof {
                assert(places + Seq::<int>::empty() =~= places);
            }
            break;
        }
        proof {
            lemma_loud_found(buf@, threshold, idx as int, n as int);
            lemma_loud_silenced(buf@, rad as int, idx as int, threshold, n as int);
        }
        let ghost before = buf@;
        found.push(Single::from_usize(idx));
        let lo: usize = if idx < rad {
            0
        } else {
            idx - rad
        };
        let hi: usize = if idx + rad < n {
            idx + rad
        } else {
            n
        };
        let mut k: usize = lo;
        while k < hi
            invariant
                lo <= k,
                lo <= hi <= n,
                k <= hi,
                buf@.len() == n == before.len(),
                buf@ == zeroed(before, lo as int, k as int),
            decreases hi - k,
        {
            buf.set(k, Single { bits: 0 });
            assert(buf@ =~= zeroed(before, lo as int, k + 1));
            k = k + 1;
        }
        proof {
            assert(buf@ =~= silenced(before, idx as int, rad as int));
            let rest = peaks(buf@, rad as int, threshold, (most - 1) as nat);
            assert(peaks(before, rad as int, threshold, most) == seq![idx as int] + rest);
            assert(places + (seq![idx as int] + rest) =~= places.push(idx as int) + rest);
            assert(found@ =~= places.push(idx as int).map_values(num));
            places = places.push(idx as int);
            most = (most - 1) as nat;
        }
    }
    sort(&found)
}

/// Every peak lies inside the signal and reaches the threshold, and two
/// peaks are never nearer to each other than the radius.
pub proof fn lemma_peaks_apart(buf: Seq<Single>, r: int, threshold: Single, most: nat)
    requires
        buf.len() > 0,
        all_numbers(buf),
        r >= 1,
        above_zero(threshold),
    ensures
        forall|a: int|
            0 <= a < peaks(buf, r, threshold, most).len() ==> 0 <= #[trigger] peaks(
                buf,
                r,
                threshold,
                most,
            )[a] < buf.len() && !buf[peaks(buf, r, threshold, most)[a]].lt(threshold),
        forall|a: int, b: int|
            0 <= a < b < peaks(buf, r, threshold, most).len() ==> {
                let p = #[trigger] peaks(buf, r, threshold, most)[a];
                let q = #[trigger] peaks(buf, r, threshold, most)[b];
                p + r <= q || q + r <= p
            },
    decreases most,
{
    lemma_has_last_max(buf, buf.len() as int);
    let i = last_max(buf);
    if most > 0 && !buf[i].lt(threshold) {
        let quiet = silenced(buf, i, r);
        let rest = peaks(quiet, r, threshold, (most - 1) as nat);
        lemma_peaks_apart(quiet, r, threshold, (most - 1) as nat);
        let all = peaks(buf, r, threshold, most);
        assert(all == seq![i] + rest);
        assert forall|a: int| 0 <= a < rest.len() implies {
            let q = #[trigger] rest[a];
            i + r <= q || q + r <= i
        } && quiet[rest[a]] == buf[rest[a]] by {
            let q = rest[a];
            assert(!quiet[q].lt(threshold));
        }
        assert forall|a: int| 0 <= a < all.len() implies 0 <= #[trigger] all[a] < buf.len()
            && !buf[all[a]].lt(threshold) by {
            if a > 0 {
                assert(all[a] == rest[a - 1]);
            }
        }
        assert forall|a: int, b: int| 0 <= a < b < all.len() implies {
            let p = #[trigger] all[a];
            let q = #[trigger] all[b];
            p + r <= q || q + r <= p
        } by {
            assert(all[b] == rest[b - 1]);
            if a > 0 {
                assert(all[a] == rest[a - 1]);
            }
        }
    }
}

/// Nothing loud is missed: what reaches the threshold lies near a peak that
/// is at least as loud.
pub(crate) proof fn lemma_peaks_near(
    buf: Seq<Single>,
    r: int,
    threshold: Single,
    most: nat,
    j: int,
) -> (a: int)
    requires
        all_numbers(buf),
        r >= 1,
        above_zero(threshold),
        0 <= j < buf.len(),
        !buf[j].lt(threshold),
        most >= buf.len(),
    ensures
        0 <= a < peaks(buf, r, threshold, most).len(),
        peaks(buf, r, threshold, most)[a] - r <= j < peaks(buf, r, threshold, most)[a] + r,
        0 <= peaks(buf, r, threshold, most)[a] < buf.len(),
        buf[j].rank() <= buf[peaks(buf, r, threshold, most)[a]].rank(),
{
    lemma_loud_bound(buf, threshold, buf.len() as int);
    lemma_near(buf, r, threshold, most, j)
}

proof fn lemma_near(buf: Seq<Single>, r: int, threshold: Single, most: nat, j: int) -> (a: int)
    requires
        all_numbers(buf),
        r >= 1,
        above_zero(threshold),
        0 <= j < buf.len(),
        !buf[j].lt(threshold),
        most >= loud(buf, threshold, buf.len() as int),
    ensures
        0 <= a < peaks(buf, r, threshold, most).len(),
        peaks(buf, r, threshold, most)[a] - r <= j < peaks(buf, r, threshold, most)[a] + r,
        0 <= peaks(buf, r, threshold, most)[a] < buf.len(),
        buf[j].rank() <= buf[peaks(buf, r, threshold, most)[a]].rank(),
    decreases most,
{
    lemma_has_last_max(buf, buf.len() as int);
    lemma_loud_found(buf, threshold, j, buf.len() as int);
    let i = last_max(buf);
    let quiet = silenced(buf, i, r);
    let less = (most - 1) as nat;
    assert(buf[j].rank() <= buf[i].rank());
    assert(!buf[i].nan() && !buf[j].nan());
    assert(peaks(buf, r, threshold, most) == seq![i] + peaks(quiet, r, threshold, less));
    if i - r <= j < i + r {
        0
    } else {
        lemma_loud_silenced(buf, r, i, threshold, buf.len() as int);
        assert(quiet[j] == buf[j]);
        let a = lemma_near(quiet, r, threshold, less, j);
        let p = peaks(quiet, r, threshold, less)[a];
        assert(quiet[p] == buf[p]);
        assert(peaks(buf, r, threshold, most)[a + 1] == p);
        a + 1
    }
}

/// The first `k` elements have a last largest one; for a whole sequence it
/// is the one that `last_max` names.
proof fn lemma_has_last_max(s: Seq<Single>, k: int)
    requires
        0 < k <= s.len(),
    ensures
        exists|i: int| is_last_max(s.take(k), i),
        k == s.len() ==> is_last_max(s, last_max(s)),
    decreases k,
{
    if k == 1 {
        assert(is_last_max(s.take(k), 0));
    } else {
        lemma_has_last_max(s, k - 1);
        let t = s.take(k - 1);
        let i = choose|i: int| is_last_max(t, i);
        assert forall|j: int| 0 <= j < k - 1 implies #[trigger] s.take(k)[j] == t[j] by {}
        if t[i].rank() <= s[k - 1].rank() {
            assert(is_last_max(s.take(k), k - 1));
        } else {
            assert(is_last_max(s.take(k), i));
        }
    }
    if k == s.len() {
        assert(s.take(k) =~= s);
    }
}

} // verus!
