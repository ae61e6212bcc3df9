//! Copying objects among which references lead in circles: each object is
//! copied once, and the copies refer to each other as the objects do.
use crate::copying::{
    distinct_keys, extends, lemma_extends_on, lemma_found, lemma_position, lemma_same_stream,
    lemma_with, same, tidy,
};
use crate::pdf::{
    add_object, entries_of, look_at, max_id, object_of, objects_in, pairs_of, pdf, position,
    resolved, set_entry, stream_object, stream_value, value_of, values_of, with_entry, Node, Pieces,
    Pdf, Value, HOPS,
};
use vstd::prelude::*;
use vstd::seq_lib::*;
use vstd::set_lib::*;

verus! {

/// A list of numbers, and after them those that a value refers to and that
/// lead somewhere, each once.
pub open spec fn referred(
    objects: Map<(u32, u16), Value>,
    v: Value,
    seen: Seq<(u32, u16)>,
) -> Seq<(u32, u16)>
    decreases v,
{
    match v {
        Value::Reference(id) => if resolved(objects, id) is None || seen.contains(id) {
            seen
        } else {
            seen.push(id)
        },
        Value::Array(items) => referred_items(objects, items, seen),
        Value::Dictionary(entries) => referred_entries(objects, entries, seen),
        Value::Stream(entries, _) => referred_entries(objects, entries, seen),
        _ => seen,
    }
}

/// A list of numbers, and after them those that the items of an array refer
/// to.
pub open spec fn referred_items(
    objects: Map<(u32, u16), Value>,
    items: Seq<Value>,
    seen: Seq<(u32, u16)>,
) -> Seq<(u32, u16)>
    decreases items,
{
    if items.len() == 0 {
        seen
    } else {
        referred(objects, items.last(), referred_items(objects, items.drop_last(), seen))
    }
}

/// A list of numbers, and after them those that the entries of a dictionary
/// refer to.
pub open spec fn referred_entries(
    objects: Map<(u32, u16), Value>,
    entries: Seq<(Seq<u8>, Value)>,
    seen: Seq<(u32, u16)>,
) -> Seq<(u32, u16)>
    decreases entries,
{
    if entries.len() == 0 {
        seen
    } else {
        referred(
            objects,
            entries.last().1,
            referred_entries(objects, entries.drop_last(), seen),
        )
    }
}

/// A list of numbers, and after them those that its objects refer to, and
/// those that these refer to in turn. The first `k` objects were looked at
/// before; so many more are looked at.
pub open spec fn reached(
    objects: Map<(u32, u16), Value>,
    seen: Seq<(u32, u16)>,
    k: nat,
    more: nat,
) -> Seq<(u32, u16)>
    decreases more,
{
    if more == 0 || k >= seen.len() {
        seen
    } else {
        let target = resolved(objects, seen[k as int])->0;
        reached(objects, referred(objects, target, seen), k + 1, (more - 1) as nat)
    }
}

/// The numbers of all objects that references lead to from a value, each
/// once.
pub open spec fn all_reached(objects: Map<(u32, u16), Value>, v: Value) -> Seq<(u32, u16)> {
    reached(objects, referred(objects, v, Seq::empty()), 0, objects.dom().len())
}

/// A value in which each number of a list is replaced by the one that comes
/// as many after `base` as it stands in the list.
pub open spec fn renamed(v: Value, order: Seq<(u32, u16)>, base: int) -> Value
    decreases v,
{
    match v {
        Value::Reference(id) => if order.contains(id) {
            Value::Reference(((base + 1 + order.index_of(id)) as u32, 0u16))
        } else {
            v
        },
        Value::Array(items) => Value::Array(renamed_items(items, order, base)),
        Value::Dictionary(entries) => Value::Dictionary(renamed_entries(entries, order, base)),
        Value::Stream(entries, bytes) => stream_value(
            renamed_entries(entries, order, base),
            bytes,
        ),
        _ => v,
    }
}

/// The items of an array with the numbers replaced.
pub open spec fn renamed_items(items: Seq<Value>, order: Seq<(u32, u16)>, base: int) -> Seq<Value>
    decreases items,
{
    if items.len() == 0 {
        Seq::empty()
    } else {
        renamed_items(items.drop_last(), order, base).push(renamed(items.last(), order, base))
    }
}

/// The entries of a dictionary with the numbers replaced.
pub open spec fn renamed_entries(
    entries: Seq<(Seq<u8>, Value)>,
    order: Seq<(u32, u16)>,
    base: int,
) -> Seq<(Seq<u8>, Value)>
    decreases entries,
{
    if entries.len() == 0 {
        Seq::empty()
    } else {
        with_entry(
            renamed_entries(entries.drop_last(), order, base),
            entries.last().0,
            renamed(entries.last().1, order, base),
        )
    }
}

/// A document with the copies of the first `n` objects of a list.
pub open spec fn with_all(
    objects: Map<(u32, u16), Value>,
    order: Seq<(u32, u16)>,
    p: Pdf,
    n: nat,
) -> Pdf
    decreases n,
{
    if n == 0 {
        p
    } else {
        let target = resolved(objects, order[n - 1])->0;
        with_all(objects, order, p, (n - 1) as nat).with(renamed(target, order, p.last))
    }
}

/// The copy of a value, and the document `p` with the copies of all objects
/// that references lead to, each once.
pub open spec fn copied_once(objects: Map<(u32, u16), Value>, v: Value, p: Pdf) -> (Value, Pdf) {
    let order = all_reached(objects, v);
    (renamed(v, order, p.last), with_all(objects, order, p, order.len()))
}

/// The references of a value that lead somewhere are in a list.
spec fn covered(objects: Map<(u32, u16), Value>, v: Value, order: Seq<(u32, u16)>) -> bool
    decreases v,
{
    match v {
        Value::Reference(id) => resolved(objects, id) is Some ==> order.contains(id),
        Value::Array(items) => forall|i: int|
            0 <= i < items.len() ==> covered(objects, #[trigger] items[i], order),
        Value::Dictionary(entries) => forall|i: int|
            0 <= i < entries.len() ==> covered(objects, (#[trigger] entries[i]).1, order),
        Value::Stream(entries, _) => forall|i: int|
            0 <= i < entries.len() ==> covered(objects, (#[trigger] entries[i]).1, order),
        _ => true,
    }
}

/// A list of numbers that all lead somewhere, each once.
spec fn sound(objects: Map<(u32, u16), Value>, seen: Seq<(u32, u16)>) -> bool {
    &&& seen.no_duplicates()
    &&& forall|j: int| 0 <= j < seen.len() ==> resolved(objects, #[trigger] seen[j]) is Some
}

/// The first `k` objects of a list refer to objects of the list only.
spec fn closed_upto(objects: Map<(u32, u16), Value>, seen: Seq<(u32, u16)>, k: int) -> bool {
    forall|j: int|
        0 <= j < k ==> covered(objects, resolved(objects, #[trigger] seen[j])->0, seen)
}

/// One list starts with another.
spec fn starts_with(longer: Seq<(u32, u16)>, seen: Seq<(u32, u16)>) -> bool {
    &&& seen.len() <= longer.len()
    &&& forall|j: int| 0 <= j < seen.len() ==> longer[j] == #[trigger] seen[j]
}

proof fn lemma_covered_by_more(
    objects: Map<(u32, u16), Value>,
    v: Value,
    seen: Seq<(u32, u16)>,
    longer: Seq<(u32, u16)>,
)
    requires
        covered(objects, v, seen),
        starts_with(longer, seen),
    ensures
        covered(objects, v, longer),
    decreases v,
{
    match v {
        Value::Reference(id) => {
            if seen.contains(id) {
                let j = choose|j: int| 0 <= j < seen.len() && seen[j] == id;
                assert(longer[j] == seen[j]);
            }
        },
        Value::Array(items) => {
            assert forall|i: int| 0 <= i < items.len() implies covered(
                objects,
                #[trigger] items[i],
                longer,
            ) by {
                lemma_covered_by_more(objects, items[i], seen, longer);
            }
        },
        Value::Dictionary(entries) => {
            assert forall|i: int| 0 <= i < entries.len() implies covered(
                objects,
                (#[trigger] entries[i]).1,
                longer,
            ) by {
                lemma_covered_by_more(objects, entries[i].1, seen, longer);
            }
        },
        Value::Stream(entries, _) => {
            assert forall|i: int| 0 <= i < entries.len() implies covered(
                objects,
                (#[trigger] entries[i]).1,
                longer,
            ) by {
                lemma_covered_by_more(objects, entries[i].1, seen, longer);
            }
        },
        _ => {},
    }
}

/// Looking at a value adds what it refers to.
proof fn lemma_referred(objects: Map<(u32, u16), Value>, v: Value, seen: Seq<(u32, u16)>)
    requires
        sound(objects, seen),
    ensures
        sound(objects, referred(objects, v, seen)),
        starts_with(referred(objects, v, seen), seen),
        covered(objects, v, referred(objects, v, seen)),
    decreases v,
{
    match v {
        Value::Reference(id) => {
            if resolved(objects, id) is Some && !seen.contains(id) {
                let longer = seen.push(id);
                assert(longer[seen.len() as int] == id);
                assert forall|j: int| 0 <= j < longer.len() implies resolved(
                    objects,
                    #[trigger] longer[j],
                ) is Some by {
                    if j < seen.len() {
                        assert(longer[j] == seen[j]);
                    }
                }
            }
        },
        Value::Array(items) => {
            lemma_referred_items(objects, items, seen);
        },
        Value::Dictionary(entries) => {
            lemma_referred_entries(objects, entries, seen);
        },
        Value::Stream(entries, _) => {
            lemma_referred_entries(objects, entries, seen);
        },
        _ => {},
    }
}

proof fn lemma_referred_items(
    objects: Map<(u32, u16), Value>,
    items: Seq<Value>,
    seen: Seq<(u32, u16)>,
)
    requires
        sound(objects, seen),
    ensures
        sound(objects, referred_items(objects, items, seen)),
        starts_with(referred_items(objects, items, seen), seen),
        forall|i: int|
            0 <= i < items.len() ==> covered(
                objects,
                #[trigger] items[i],
                referred_items(objects, items, seen),
            ),
    decreases items,
{
    if items.len() > 0 {
        let front = items.drop_last();
        let before = referred_items(objects, front, seen);
        let all = referred_items(objects, items, seen);
        lemma_referred_items(objects, front, seen);
        lemma_referred(objects, items.last(), before);
        assert forall|i: int| 0 <= i < items.len() implies covered(
            objects,
            #[trigger] items[i],
            all,
        ) by {
            if i < front.len() {
                assert(front[i] == items[i]);
                lemma_covered_by_more(objects, front[i], before, all);
            }
        }
        assert forall|j: int| 0 <= j < seen.len() implies all[j] == #[trigger] seen[j] by {
            assert(before[j] == seen[j]);
        }
    }
}

proof fn lemma_referred_entries(
    objects: Map<(u32, u16), Value>,
    entries: Seq<(Seq<u8>, Value)>,
    seen: Seq<(u32, u16)>,
)
    requires
        sound(objects, seen),
    ensures
        sound(objects, referred_entries(objects, entries, seen)),
        starts_with(referred_entries(objects, entries, seen), seen),
        forall|i: int|
            0 <= i < entries.len() ==> covered(
                objects,
                (#[trigger] entries[i]).1,
                referred_entries(objects, entries, seen),
            ),
    decreases entries,
{
    if entries.len() > 0 {
        let front = entries.drop_last();
        let before = referred_entries(objects, front, seen);
        let all = referred_entries(objects, entries, seen);
        lemma_referred_entries(objects, front, seen);
        lemma_referred(objects, entries.last().1, before);
        assert forall|i: int| 0 <= i < entries.len() implies covered(
            objects,
            (#[trigger] entries[i]).1,
            all,
        ) by {
            if i < front.len() {
                assert(front[i] == entries[i]);
                lemma_covered_by_more(objects, front[i].1, before, all);
            }
        }
        assert forall|j: int| 0 <= j < seen.len() implies all[j] == #[trigger] seen[j] by {
            assert(before[j] == seen[j]);
        }
    }
}

/// A list of numbers that lead somewhere is no longer than there are
/// objects.
proof fn lemma_sound_len(objects: Map<(u32, u16), Value>, seen: Seq<(u32, u16)>)
    requires
        objects.dom().finite(),
        sound(objects, seen),
    ensures
        seen.len() <= objects.dom().len(),
{
    seen.unique_seq_to_set();
    assert forall|x: (u32, u16)| seen.to_set().contains(x) implies objects.dom().contains(x) by {
        let j = choose|j: int| 0 <= j < seen.len() && seen[j] == x;
        assert(resolved(objects, seen[j]) is Some);
    }
    lemma_len_subset(seen.to_set(), objects.dom());
}

/// Looking at one more object of a list keeps what is known of the list.
proof fn lemma_step(objects: Map<(u32, u16), Value>, seen: Seq<(u32, u16)>, k: int)
    requires
        sound(objects, seen),
        0 <= k < seen.len(),
        closed_upto(objects, seen, k),
    ensures
        ({
            let longer = referred(objects, resolved(objects, seen[k])->0, seen);
            &&& sound(objects, longer)
            &&& starts_with(longer, seen)
            &&& closed_upto(objects, longer, k + 1)
        }),
{
    let target = resolved(objects, seen[k])->0;
    let longer = referred(objects, target, seen);
    lemma_referred(objects, target, seen);
    assert forall|j: int| 0 <= j < k + 1 implies covered(
        objects,
        resolved(objects, #[trigger] longer[j])->0,
        longer,
    ) by {
        assert(longer[j] == seen[j]);
        if j < k {
            lemma_covered_by_more(objects, resolved(objects, seen[j])->0, seen, longer);
        }
    }
}

/// Everything is reached: the list refers to nothing outside of it.
proof fn lemma_reached(
    objects: Map<(u32, u16), Value>,
    seen: Seq<(u32, u16)>,
    k: nat,
    more: nat,
)
    requires
        objects.dom().finite(),
        sound(objects, seen),
        k <= seen.len(),
        closed_upto(objects, seen, k as int),
        objects.dom().len() <= k + more,
    ensures
        ({
            let all = reached(objects, seen, k, more);
            &&& sound(objects, all)
            &&& starts_with(all, seen)
            &&& closed_upto(objects, all, all.len() as int)
        }),
    decreases more,
{
    lemma_sound_len(objects, seen);
    if k < seen.len() {
        let longer = referred(objects, resolved(objects, seen[k as int])->0, seen);
        lemma_step(objects, seen, k as int);
        lemma_reached(objects, longer, k + 1, (more - 1) as nat);
        let all = reached(objects, seen, k, more);
        assert forall|j: int| 0 <= j < seen.len() implies all[j] == #[trigger] seen[j] by {
            assert(longer[j] == seen[j]);
        }
    }
}

/// What is known of the numbers of all objects that references lead to.
proof fn lemma_all_reached(objects: Map<(u32, u16), Value>, v: Value)
    requires
        objects.dom().finite(),
    ensures
        ({
            let all = all_reached(objects, v);
            &&& sound(objects, all)
            &&& closed_upto(objects, all, all.len() as int)
            &&& covered(objects, v, all)
        }),
{
    let none = Seq::<(u32, u16)>::empty();
    let first = referred(objects, v, none);
    lemma_referred(objects, v, none);
    lemma_reached(objects, first, 0, objects.dom().len());
    lemma_covered_by_more(objects, v, first, all_reached(objects, v));
}

/// The copies of the objects of a list stand under the numbers after the
/// last one.
proof fn lemma_with_all(
    objects: Map<(u32, u16), Value>,
    order: Seq<(u32, u16)>,
    p: Pdf,
    n: nat,
)
    requires
        p.wf(),
        n <= order.len(),
        p.last + n <= u32::MAX,
    ensures
        ({
            let q = with_all(objects, order, p, n);
            &&& q.wf()
            &&& q.last == p.last + n
            &&& extends(q, p)
            &&& forall|j: int|
                0 <= j < n ==> {
                    let id = ((p.last + 1 + j) as u32, 0u16);
                    &&& q.objects.contains_key(id)
                    &&& q.objects[id] == renamed(
                        resolved(objects, #[trigger] order[j])->0,
                        order,
                        p.last,
                    )
                }
        }),
    decreases n,
{
    if n > 0 {
        let before = with_all(objects, order, p, (n - 1) as nat);
        let q = with_all(objects, order, p, n);
        let c = renamed(resolved(objects, order[n - 1])->0, order, p.last);
        lemma_with_all(objects, order, p, (n - 1) as nat);
        lemma_with(before, c);
        lemma_extends_on(p, before, q);
        assert forall|j: int| 0 <= j < n implies {
            let id = ((p.last + 1 + j) as u32, 0u16);
            &&& q.objects.contains_key(id)
            &&& q.objects[id] == renamed(
                resolved(objects, #[trigger] order[j])->0,
                order,
                p.last,
            )
        } by {
            let id = ((p.last + 1 + j) as u32, 0u16);
            if j < n - 1 {
                assert(before.objects.contains_key(id));
            } else {
                assert(id == before.next());
            }
        }
    }
}

/// So many numbers are given away as there are objects.
proof fn lemma_with_all_last(
    objects: Map<(u32, u16), Value>,
    order: Seq<(u32, u16)>,
    p: Pdf,
    n: nat,
)
    ensures
        with_all(objects, order, p, n).last == p.last + n,
    decreases n,
{
    if n > 0 {
        lemma_with_all_last(objects, order, p, (n - 1) as nat);
    }
}

/// Copying each object once only adds objects.
pub(crate) proof fn lemma_copied_once_keeps_objects(
    objects: Map<(u32, u16), Value>,
    v: Value,
    p: Pdf,
)
    requires
        p.wf(),
        copied_once(objects, v, p).1.last <= u32::MAX,
    ensures
        copied_once(objects, v, p).1.wf(),
        extends(copied_once(objects, v, p).1, p),
{
    let order = all_reached(objects, v);
    lemma_with_all_last(objects, order, p, order.len());
    lemma_with_all(objects, order, p, order.len());
}

/// Copying each object once takes no more numbers than there are objects.
pub(crate) proof fn lemma_copied_once_last(objects: Map<(u32, u16), Value>, v: Value, p: Pdf)
    requires
        objects.dom().finite(),
    ensures
        copied_once(objects, v, p).1.last <= p.last + objects.dom().len(),
{
    let order = all_reached(objects, v);
    lemma_all_reached(objects, v);
    lemma_sound_len(objects, order);
    lemma_with_all_last(objects, order, p, order.len());
}

/// Replacing numbers keeps the keys of a dictionary.
proof fn lemma_renamed_keys(
    entries: Seq<(Seq<u8>, Value)>,
    order: Seq<(u32, u16)>,
    base: int,
)
    requires
        distinct_keys(entries),
    ensures
        renamed_entries(entries, order, base).len() == entries.len(),
        forall|i: int|
            0 <= i < entries.len() ==> (#[trigger] entries[i]).0 == renamed_entries(
                entries,
                order,
                base,
            )[i].0 && renamed_entries(entries, order, base)[i].1 == renamed(
                entries[i].1,
                order,
                base,
            ),
    decreases entries.len(),
{
    if entries.len() > 0 {
        let front = entries.drop_last();
        assert forall|i: int, j: int| 0 <= i < j < front.len() implies (#[trigger] front[i]).0 != (
        #[trigger] front[j]).0 by {
            assert(entries[i].0 != entries[j].0);
        }
        lemma_renamed_keys(front, order, base);
        let before = renamed_entries(front, order, base);
        let key = entries.last().0;
        lemma_position(before, key);
        let at = position(before, key);
        if at < before.len() {
            assert(front[at].0 == before[at].0);
            assert(entries[at].0 != entries[entries.len() - 1].0);
        }
        assert forall|i: int| 0 <= i < entries.len() implies (#[trigger] entries[i]).0
            == renamed_entries(entries, order, base)[i].0 && renamed_entries(
            entries,
            order,
            base,
        )[i].1 == renamed(entries[i].1, order, base) by {
            if i < front.len() {
                assert(front[i] == entries[i]);
            }
        }
    }
}

proof fn lemma_renamed_items(items: Seq<Value>, order: Seq<(u32, u16)>, base: int)
    ensures
        renamed_items(items, order, base).len() == items.len(),
        forall|i: int|
            0 <= i < items.len() ==> renamed_items(items, order, base)[i] == renamed(
                #[trigger] items[i],
                order,
                base,
            ),
    decreases items.len(),
{
    if items.len() > 0 {
        let front = items.drop_last();
        lemma_renamed_items(front, order, base);
        assert forall|i: int| 0 <= i < items.len() implies renamed_items(items, order, base)[i]
            == renamed(#[trigger] items[i], order, base) by {
            if i < front.len() {
                assert(front[i] == items[i]);
            }
        }
    }
}

/// A value with the numbers replaced means the same among the copies as the
/// value does among the objects.
proof fn lemma_renamed_is_faithful(
    objects: Map<(u32, u16), Value>,
    v: Value,
    order: Seq<(u32, u16)>,
    p: Pdf,
    n: nat,
)
    requires
        p.wf(),
        sound(objects, order),
        closed_upto(objects, order, order.len() as int),
        p.last + order.len() <= u32::MAX,
        covered(objects, v, order),
        tidy(objects, v, n),
    ensures
        same(
            objects,
            v,
            with_all(objects, order, p, order.len()).objects,
            renamed(v, order, p.last),
            n,
        ),
    decreases n, v,
{
    let q = with_all(objects, order, p, order.len());
    let w = renamed(v, order, p.last);
    match v {
        Value::Reference(id) => {
            match resolved(objects, id) {
                None => {
                    if order.contains(id) {
                        let j = choose|j: int| 0 <= j < order.len() && order[j] == id;
                        assert(resolved(objects, order[j]) is Some);
                    }
                },
                Some(target) => {
                    let j = order.index_of(id);
                    assert(order[j] == id);
                    lemma_with_all(objects, order, p, order.len());
                    lemma_found(objects, id, HOPS as nat);
                    let c = renamed(target, order, p.last);
                    let to = ((p.last + 1 + j) as u32, 0u16);
                    assert(w == Value::Reference(to));
                    assert(q.objects[to] == c);
                    assert(resolved(q.objects, to) == Some(c));
                    if n > 0 {
                        assert(covered(objects, resolved(objects, order[j])->0, order));
                        lemma_renamed_is_faithful(objects, target, order, p, (n - 1) as nat);
                    }
                },
            }
        },
        Value::Array(items) => {
            lemma_renamed_items(items, order, p.last);
            assert forall|i: int| 0 <= i < items.len() implies same(
                objects,
                #[trigger] items[i],
                q.objects,
                w->Array_0[i],
                n,
            ) by {
                lemma_renamed_is_faithful(objects, items[i], order, p, n);
            }
        },
        Value::Dictionary(entries) => {
            lemma_renamed_keys(entries, order, p.last);
            assert forall|i: int| 0 <= i < entries.len() implies same(
                objects,
                (#[trigger] entries[i]).1,
                q.objects,
                w->Dictionary_0[i].1,
                n,
            ) by {
                lemma_renamed_is_faithful(objects, entries[i].1, order, p, n);
            }
        },
        Value::Stream(entries, bytes) => {
            let c = renamed_entries(entries, order, p.last);
            lemma_renamed_keys(entries, order, p.last);
            assert forall|i: int| 0 <= i < entries.len() implies same(
                objects,
                (#[trigger] entries[i]).1,
                q.objects,
                c[i].1,
                n,
            ) by {
                lemma_renamed_is_faithful(objects, entries[i].1, order, p, n);
            }
            lemma_same_stream(objects, entries, bytes, q.objects, c, n);
        },
        _ => {},
    }
}

/// A copy that was made of each object once means the same as the value.
pub(crate) proof fn lemma_copied_once_is_faithful(
    objects: Map<(u32, u16), Value>,
    v: Value,
    p: Pdf,
    n: nat,
)
    requires
        p.wf(),
        objects.dom().finite(),
        tidy(objects, v, n),
        copied_once(objects, v, p).1.last <= u32::MAX,
    ensures
        same(
            objects,
            v,
            copied_once(objects, v, p).1.objects,
            copied_once(objects, v, p).0,
            n,
        ),
{
    let order = all_reached(objects, v);
    lemma_all_reached(objects, v);
    lemma_with_all_last(objects, order, p, order.len());
    lemma_renamed_is_faithful(objects, v, order, p, n);
}

/// Where a number stands in a list.
fn place_of(order: &Vec<(u32, u16)>, id: (u32, u16)) -> (r: Option<usize>)
    ensures
        match r {
            Some(i) => i < order@.len() && order@[i as int] == id,
            None => !order@.contains(id),
        },
{
    let mut i: usize = 0;
    while i < order.len()
        invariant
            i <= order@.len(),
            forall|j: int| 0 <= j < i ==> order@[j] != id,
        decreases order@.len() - i,
    {
        if order[i].0 == id.0 && order[i].1 == id.1 {
            return Some(i);
        }
        i = i + 1;
    }
    None
}

/// Adds the numbers that an object refers to to a list.
fn refer(src: &lopdf::Document, object: &lopdf::Object, seen: &mut Vec<(u32, u16)>)
    ensures
        final(seen)@ == referred(objects_in(*src), value_of(*object), old(seen)@),
    decreases value_of(*object), 0nat,
{
    let ghost v = value_of(*object);
    match look_at(object) {
        Node::Reference(id) => {
            if let Ok(_) = src.get_object(id) {
                match place_of(seen, id) {
                    Some(i) => {
                        assert(seen@[i as int] == id);
                    },
                    None => {
                        seen.push(id);
                    },
                }
            }
        },
        Node::Dictionary(dict) => {
            assert(decreases_to!(v => v->Dictionary_0));
            refer_entries(src, dict, seen);
        },
        Node::Stream(dict, _) => {
            assert(decreases_to!(v => v->Stream_0));
            refer_entries(src, dict, seen);
        },
        Node::Array(items) => {
            assert(decreases_to!(v => v->Array_0));
            refer_items(src, items, seen);
        },
        _ => {},
    }
}

/// Adds the numbers that the entries of a dictionary refer to to a list.
fn refer_entries(src: &lopdf::Document, dict: &lopdf::Dictionary, seen: &mut Vec<(u32, u16)>)
    ensures
        final(seen)@ == referred_entries(objects_in(*src), entries_of(*dict), old(seen)@),
    decreases entries_of(*dict), 0nat,
{
    let ghost objects = objects_in(*src);
    let ghost entries = entries_of(*dict);
    let pairs = pairs_of(dict);
    let mut i: usize = 0;
    assert(entries.take(0) =~= Seq::<(Seq<u8>, Value)>::empty());
    while i < pairs.len()
        invariant
            objects == objects_in(*src),
            entries == entries_of(*dict),
            pairs@.len() == entries.len(),
            forall|k: int|
                0 <= k < pairs@.len() ==> (#[trigger] pairs@[k]).0@ == entries[k].0 && value_of(
                    *pairs@[k].1,
                ) == entries[k].1,
            i <= pairs@.len(),
            seen@ == referred_entries(objects, entries.take(i as int), old(seen)@),
        decreases pairs@.len() - i,
    {
        let (_, object) = pairs[i];
        let ghost part = entries[i as int].1;
        proof {
            assert(entries[i as int].1 == part);
            let next = entries.take(i + 1);
            assert(next.drop_last() =~= entries.take(i as int));
            assert(next.last() == entries[i as int]);
        }
        refer(src, object, seen);
        i = i + 1;
    }
    assert(entries.take(i as int) =~= entries);
}

/// Adds the numbers that the items of an array refer to to a list.
fn refer_items(src: &lopdf::Document, items: &Vec<lopdf::Object>, seen: &mut Vec<(u32, u16)>)
    ensures
        final(seen)@ == referred_items(objects_in(*src), values_of(items@), old(seen)@),
    decreases values_of(items@), 0nat,
{
    let ghost objects = objects_in(*src);
    let ghost values = values_of(items@);
    let mut i: usize = 0;
    assert(values.take(0) =~= Seq::<Value>::empty());
    while i < items.len()
        invariant
            objects == objects_in(*src),
            values == values_of(items@),
            values.len() == items@.len(),
            i <= items@.len(),
            seen@ == referred_items(objects, values.take(i as int), old(seen)@),
        decreases items@.len() - i,
    {
        let ghost part = values[i as int];
        proof {
            assert(part == value_of(items@[i as int]));
            let next = values.take(i + 1);
            assert(next.drop_last() =~= values.take(i as int));
            assert(next.last() == values[i as int]);
        }
        refer(src, &items[i], seen);
        i = i + 1;
    }
    assert(values.take(i as int) =~= values);
}

/// Finds the numbers of all objects that references lead to from an object.
fn find_all(src: &lopdf::Document, object: &lopdf::Object) -> (order: Vec<(u32, u16)>)
    requires
        objects_in(*src).dom().finite(),
    ensures
        order@ == all_reached(objects_in(*src), value_of(*object)),
{
    let ghost objects = objects_in(*src);
    let ghost v = value_of(*object);
    let mut order: Vec<(u32, u16)> = Vec::new();
    proof {
        lemma_referred(objects, v, order@);
        assert(order@ =~= Seq::<(u32, u16)>::empty());
    }
    refer(src, object, &mut order);
    let mut k: usize = 0;
    let ghost mut more = objects.dom().len();
    proof {
        lemma_sound_len(objects, order@);
    }
    while k < order.len()
        invariant
            objects == objects_in(*src),
            objects.dom().finite(),
            k <= order@.len() <= objects.dom().len(),
            k + more == objects.dom().len(),
            sound(objects, order@),
            closed_upto(objects, order@, k as int),
            reached(objects, order@, k as nat, more) == all_reached(objects, v),
        decreases objects.dom().len() - k,
    {
        let id = order[k];
        proof {
            assert(resolved(objects, order@[k as int]) is Some);
            lemma_step(objects, order@, k as int);
            let longer = referred(objects, resolved(objects, id)->0, order@);
            lemma_sound_len(objects, longer);
        }
        if let Ok(target) = src.get_object(id) {
            refer(src, target, &mut order);
        }
        proof {
            more = (more - 1) as nat;
        }
        k = k + 1;
    }
    order
}

/// An object with the numbers of a list replaced.
fn rename(object: &lopdf::Object, order: &Vec<(u32, u16)>, base: u32) -> (r: lopdf::Object)
    requires
        order@.no_duplicates(),
        base + order@.len() <= u32::MAX,
    ensures
        value_of(r) == renamed(value_of(*object), order@, base as int),
    decreases value_of(*object), 0nat,
{
    let ghost v = value_of(*object);
    match look_at(object) {
        Node::Reference(id) => match place_of(order, id) {
            Some(i) => {
                assert(order@[i as int] == id);
                object_of(Pieces::Reference((base + 1 + i as u32, 0)))
            },
            None => object.clone(),
        },
        Node::Dictionary(dict) => {
            assert(decreases_to!(v => v->Dictionary_0));
            object_of(Pieces::Dictionary(rename_entries(dict, order, base)))
        },
        Node::Stream(dict, bytes) => {
            assert(decreases_to!(v => v->Stream_0));
            stream_object(rename_entries(dict, order, base), bytes.clone())
        },
        Node::Array(items) => {
            assert(decreases_to!(v => v->Array_0));
            object_of(Pieces::Array(rename_items(items, order, base)))
        },
        _ => object.clone(),
    }
}

/// The entries of a dictionary with the numbers of a list replaced.
fn rename_entries(dict: &lopdf::Dictionary, order: &Vec<(u32, u16)>, base: u32) -> (r:
    lopdf::Dictionary)
    requires
        order@.no_duplicates(),
        base + order@.len() <= u32::MAX,
    ensures
        entries_of(r) == renamed_entries(entries_of(*dict), order@, base as int),
    decreases entries_of(*dict), 0nat,
{
    let ghost entries = entries_of(*dict);
    let pairs = pairs_of(dict);
    let mut copy = lopdf::Dictionary::new();
    let mut i: usize = 0;
    assert(entries.take(0) =~= Seq::<(Seq<u8>, Value)>::empty());
    while i < pairs.len()
        invariant
            order@.no_duplicates(),
            base + order@.len() <= u32::MAX,
            entries == entries_of(*dict),
            pairs@.len() == entries.len(),
            forall|k: int|
                0 <= k < pairs@.len() ==> (#[trigger] pairs@[k]).0@ == entries[k].0 && value_of(
                    *pairs@[k].1,
                ) == entries[k].1,
            i <= pairs@.len(),
            entries_of(copy) == renamed_entries(entries.take(i as int), order@, base as int),
        decreases pairs@.len() - i,
    {
        let (key, object) = pairs[i];
        let ghost part = entries[i as int].1;
        proof {
            assert(entries[i as int].1 == part);
            let next = entries.take(i + 1);
            assert(next.drop_last() =~= entries.take(i as int));
            assert(next.last() == entries[i as int]);
        }
        let c = rename(object, order, base);
        set_entry(&mut copy, key.as_slice(), c);
        i = i + 1;
    }
    assert(entries.take(i as int) =~= entries);
    copy
}

/// The items of an array with the numbers of a list replaced.
fn rename_items(items: &Vec<lopdf::Object>, order: &Vec<(u32, u16)>, base: u32) -> (r: Vec<
    lopdf::Object,
>)
    requires
        order@.no_duplicates(),
        base + order@.len() <= u32::MAX,
    ensures
        values_of(r@) == renamed_items(values_of(items@), order@, base as int),
    decreases values_of(items@), 0nat,
{
    let ghost values = values_of(items@);
    let mut copy: Vec<lopdf::Object> = Vec::new();
    let mut i: usize = 0;
    assert(values.take(0) =~= Seq::<Value>::empty());
    assert(values_of(copy@) =~= Seq::<Value>::empty());
    while i < items.len()
        invariant
            order@.no_duplicates(),
            base + order@.len() <= u32::MAX,
            values == values_of(items@),
            values.len() == items@.len(),
            i <= items@.len(),
            values_of(copy@) == renamed_items(values.take(i as int), order@, base as int),
        decreases items@.len() - i,
    {
        let ghost part = values[i as int];
        proof {
            assert(part == value_of(items@[i as int]));
            let next = values.take(i + 1);
            assert(next.drop_last() =~= values.take(i as int));
            assert(next.last() == values[i as int]);
        }
        let c = rename(&items[i], order, base);
        assert(values_of(copy@.push(c)) =~= values_of(copy@).push(value_of(c)));
        copy.push(c);
        i = i + 1;
    }
    assert(values.take(i as int) =~= values);
    copy
}

/// Copies an object and, each once, all objects that references lead to
/// from it, unless numbers run out.
pub(crate) fn copy_once(
    src: &lopdf::Document,
    object: &lopdf::Object,
    out: &mut lopdf::Document,
) -> (r: Option<lopdf::Object>)
    requires
        objects_in(*src).dom().finite(),
    ensures
        match r {
            Some(c) => copied_once(objects_in(*src), value_of(*object), pdf(*old(out))) == (
                value_of(c),
                pdf(*final(out)),
            ) && pdf(*final(out)).last <= u32::MAX,
            None => copied_once(objects_in(*src), value_of(*object), pdf(*old(out))).1.last
                > u32::MAX,
        },
{
    let ghost objects = objects_in(*src);
    let ghost v = value_of(*object);
    let ghost p = pdf(*out);
    let order = find_all(src, object);
    proof {
        lemma_all_reached(objects, v);
        lemma_with_all_last(objects, order@, p, order@.len());
    }
    let base: u32 = max_id(out);
    if order.len() > (u32::MAX - base) as usize {
        return None;
    }
    let mut k: usize = 0;
    while k < order.len()
        invariant
            objects == objects_in(*src),
            sound(objects, order@),
            p == pdf(*old(out)),
            base == p.last,
            base + order@.len() <= u32::MAX,
            k <= order@.len(),
            pdf(*out) == with_all(objects, order@, p, k as nat),
            pdf(*out).last == base + k,
        decreases order@.len() - k,
    {
        assert(resolved(objects, order@[k as int]) is Some);
        if let Ok(target) = src.get_object(order[k]) {
            let c = rename(target, &order, base);
            add_object(out, c);
        }
        k = k + 1;
    }
    Some(rename(object, &order, base))
}

} // verus!
