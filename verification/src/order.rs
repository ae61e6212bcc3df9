//! Sums and orders over sequences of numbers.
use crate::single::Single;
use vstd::prelude::*;

verus! {

/// The sum of no numbers: negative zero, which changes nothing it is added
/// to.
pub const EMPTY_SUM: u32 = 0x8000_0000;

/// The sum of a sequence, taken from its front.
pub open spec fn sum(s: Seq<Single>) -> Single
    decreases s.len(),
{
    if s.len() == 0 {
        Single { bits: EMPTY_SUM }
    } else {
        sum(s.drop_last()).plus(s.last())
    }
}

/// The sum of `v[lo..hi]`, taken from its front.
pub fn sum_range(v: &Vec<Single>, lo: usize, hi: usize) -> (r: Single)
    requires
        lo <= hi <= v@.len(),
    ensures
        r == sum(v@.subrange(lo as int, hi as int)),
{
    let mut r = Single { bits: EMPTY_SUM };
    let mut i: usize = lo;
    assert(v@.subrange(lo as int, lo as int) =~= Seq::<Single>::empty());
    while i < hi
        invariant
            lo <= i <= hi <= v@.len(),
            r == sum(v@.subrange(lo as int, i as int)),
        decreases hi - i,
    {
        assert(v@.subrange(lo as int, i + 1).drop_last() =~= v@.subrange(lo as int, i as int));
        r = r.plus(v[i]);
        i = i + 1;
    }
    r
}

/// No element fails to be a number.
pub open spec fn all_numbers(s: Seq<Single>) -> bool {
    forall|i: int| 0 <= i < s.len() ==> !(#[trigger] s[i]).nan()
}

/// Each element is at most the next.
pub open spec fn ascending(s: Seq<Single>) -> bool {
    forall|i: int, j: int|
        0 <= i <= j < s.len() ==> (#[trigger] s[i]).rank() <= (#[trigger] s[j]).rank()
}

/// The sequence with `x` put in behind every element that is not above it,
/// counted from the front.
pub open spec fn insert_in_order(s: Seq<Single>, x: Single) -> Seq<Single>
    decreases s.len(),
{
    if s.len() == 0 || !x.lt(s.last()) {
        s.push(x)
    } else {
        insert_in_order(s.drop_last(), x).push(s.last())
    }
}

/// The elements in ascending order; equal ones keep their order.
pub open spec fn sorted(s: Seq<Single>) -> Seq<Single>
    decreases s.len(),
{
    if s.len() == 0 {
        s
    } else {
        insert_in_order(sorted(s.drop_last()), s.last())
    }
}

proof fn lemma_insert(s: Seq<Single>, x: Single)
    requires
        ascending(s),
        all_numbers(s),
        !x.nan(),
    ensures
        ascending(insert_in_order(s, x)),
        all_numbers(insert_in_order(s, x)),
        insert_in_order(s, x).len() == s.len() + 1,
        insert_in_order(s, x).to_multiset() == s.to_multiset().insert(x),
        forall|i: int|
            0 <= i < insert_in_order(s, x).len() ==> {
                let y = #[trigger] insert_in_order(s, x)[i];
                y == x || s.contains(y)
            },
    decreases s.len(),
{
    broadcast use vstd::seq_lib::group_to_multiset_ensures;

    if s.len() == 0 || !x.lt(s.last()) {
        let t = s.push(x);
        assert forall|i: int, j: int| 0 <= i <= j < t.len() implies (#[trigger] t[i]).rank()
            <= (#[trigger] t[j]).rank() by {
            if j == s.len() && i < s.len() {
                assert(s[i].rank() <= s.last().rank());
            }
        }
    } else {
        let front = s.drop_last();
        let t = insert_in_order(front, x);
        lemma_insert(front, x);
        assert(forall|i: int| 0 <= i < front.len() ==> (#[trigger] front[i]).rank() <= s.last().rank());
        assert(s =~= front.push(s.last()));
        assert(front.push(s.last()).to_multiset() == front.to_multiset().insert(s.last()));
        assert(t.push(s.last()).to_multiset() == t.to_multiset().insert(s.last()));
        assert(front.to_multiset().insert(x).insert(s.last()) =~= front.to_multiset().insert(
            s.last(),
        ).insert(x));
        let full = t.push(s.last());
        assert forall|i: int| 0 <= i < full.len() implies {
            let y = #[trigger] full[i];
            y == x || s.contains(y)
        } by {
            if i < t.len() {
                if t[i] != x {
                    let j = choose|j: int| 0 <= j < front.len() && front[j] == t[i];
                    assert(s[j] == t[i]);
                }
            } else {
                assert(s[s.len() - 1] == full[i]);
            }
        }
        assert forall|i: int, j: int| 0 <= i <= j < full.len() implies (#[trigger] full[i]).rank()
            <= (#[trigger] full[j]).rank() by {
            if j == t.len() && i < t.len() && t[i] != x {
                let k = choose|k: int| 0 <= k < front.len() && front[k] == t[i];
                assert(s[k].rank() <= s[s.len() - 1].rank());
            }
        }
    }
}

/// Sorting yields the same elements in ascending order.
pub proof fn lemma_sorted(s: Seq<Single>)
    requires
        all_numbers(s),
    ensures
        ascending(sorted(s)),
        all_numbers(sorted(s)),
        sorted(s).len() == s.len(),
        sorted(s).to_multiset() == s.to_multiset(),
    decreases s.len(),
{
    broadcast use vstd::seq_lib::group_to_multiset_ensures;

    if s.len() > 0 {
        let front = s.drop_last();
        assert forall|i: int| 0 <= i < front.len() implies !(#[trigger] front[i]).nan() by {
            assert(front[i] == s[i]);
        }
        lemma_sorted(front);
        assert(!s[s.len() - 1].nan());
        lemma_insert(sorted(front), s.last());
        assert(s =~= front.push(s.last()));
    }
}

/// Sorts numbers into ascending order.
pub fn sort(v: &Vec<Single>) -> (r: Vec<Single>)
    ensures
        r@ == sorted(v@),
{
    let mut r: Vec<Single> = Vec::new();
    let mut i: usize = 0;
    assert(v@.subrange(0, 0) =~= Seq::<Single>::empty());
    while i < v.len()
        invariant
            i <= v@.len(),
            r@ == sorted(v@.subrange(0, i as int)),
        decreases v@.len() - i,
    {
        let x: Single = v[i];
        let ghost before = r@;
        let mut k: usize = r.len();
        assert(before.subrange(0, k as int) =~= before);
        assert(insert_in_order(before, x) =~= insert_in_order(before.subrange(0, k as int), x)
            + before.subrange(k as int, before.len() as int));
        while k > 0 && x.lt(r[k - 1])
            invariant
                k <= r@.len(),
                r@ == before,
                insert_in_order(before, x) == insert_in_order(before.subrange(0, k as int), x)
                    + before.subrange(k as int, before.len() as int),
            decreases k,
        {
            proof {
                let p = before.subrange(0, k as int);
                assert(p.drop_last() =~= before.subrange(0, k - 1));
                assert(p.last() == before[k - 1]);
                assert(insert_in_order(p, x) == insert_in_order(before.subrange(0, k - 1), x).push(
                    before[k - 1],
                ));
                assert(insert_in_order(p, x) + before.subrange(k as int, before.len() as int)
                    =~= insert_in_order(before.subrange(0, k - 1), x) + before.subrange(
                    k - 1,
                    before.len() as int,
                ));
            }
            k = k - 1;
        }
        r.insert(k, x);
        proof {
            let p = before.subrange(0, k as int);
            assert(insert_in_order(p, x) == p.push(x));
            assert(r@ =~= p.push(x) + before.subrange(k as int, before.len() as int));
            assert(v@.subrange(0, i + 1).drop_last() =~= v@.subrange(0, i as int));
        }
        i = i + 1;
    }
    assert(v@.subrange(0, i as int) =~= v@);
    r
}

/// Position `i` holds a largest element, and none behind it is as large.
pub open spec fn is_last_max(s: Seq<Single>, i: int) -> bool {
    &&& 0 <= i < s.len()
    &&& forall|j: int| 0 <= j < s.len() ==> (#[trigger] s[j]).rank() <= s[i].rank()
    &&& forall|j: int| i < j < s.len() ==> (#[trigger] s[j]).rank() < s[i].rank()
}

/// The position of the last largest element.
pub open spec fn last_max(s: Seq<Single>) -> int {
    choose|i: int| is_last_max(s, i)
}

/// Position `i` holds a smallest element, and none before it is as small.
pub open spec fn is_first_min(s: Seq<Single>, i: int) -> bool {
    &&& 0 <= i < s.len()
    &&& forall|j: int| 0 <= j < s.len() ==> s[i].rank() <= (#[trigger] s[j]).rank()
    &&& forall|j: int| 0 <= j < i ==> s[i].rank() < (#[trigger] s[j]).rank()
}

/// The position of the first smallest element.
pub open spec fn first_min(s: Seq<Single>) -> int {
    choose|i: int| is_first_min(s, i)
}

/// Finds the last largest element.
pub fn find_last_max(v: &Vec<Single>) -> (r: usize)
    requires
        v@.len() > 0,
        all_numbers(v@),
    ensures
        r == last_max(v@),
        is_last_max(v@, r as int),
{
    let mut best: usize = 0;
    let mut i: usize = 1;
    while i < v.len()
        invariant
            0 <= best < i <= v@.len(),
            all_numbers(v@),
            forall|j: int| 0 <= j < i ==> (#[trigger] v@[j]).rank() <= v@[best as int].rank(),
            forall|j: int| best < j < i ==> (#[trigger] v@[j]).rank() < v@[best as int].rank(),
        decreases v@.len() - i,
    {
        if v[best].le(v[i]) {
            best = i;
        }
        i = i + 1;
    }
    assert(is_last_max(v@, best as int));
    proof {
        let c = last_max(v@);
        assert(is_last_max(v@, c));
        assert(v@[c].rank() <= v@[best as int].rank());
        assert(v@[best as int].rank() <= v@[c].rank());
    }
    best
}

/// Finds the first smallest element.
pub fn find_first_min(v: &Vec<Single>) -> (r: usize)
    requires
        v@.len() > 0,
        all_numbers(v@),
    ensures
        r == first_min(v@),
        is_first_min(v@, r as int),
{
    let mut best: usize = 0;
    let mut i: usize = 1;
    while i < v.len()
        invariant
            0 <= best < i <= v@.len(),
            all_numbers(v@),
            forall|j: int| 0 <= j < i ==> v@[best as int].rank() <= (#[trigger] v@[j]).rank(),
            forall|j: int| 0 <= j < best ==> v@[best as int].rank() < (#[trigger] v@[j]).rank(),
        decreases v@.len() - i,
    {
        if v[i].lt(v[best]) {
            best = i;
        }
        i = i + 1;
    }
    assert(is_first_min(v@, best as int));
    proof {
        let c = first_min(v@);
        assert(is_first_min(v@, c));
        assert(v@[c].rank() <= v@[best as int].rank());
        assert(v@[best as int].rank() <= v@[c].rank());
    }
    best
}

} // verus!
