//! Copying an object, with all that it refers to, into another document.
use crate::cycles::{
    copied_once, copy_once, lemma_copied_once_is_faithful, lemma_copied_once_keeps_objects,
    lemma_copied_once_last,
};
use crate::pdf::{
    add_object, entries_of, found, ids_of, look_at, max_id, object_of, objects_in, pairs_of, pdf,
    position, resolved, set_entry, stream_object, stream_value, value_of, values_of, with_entry,
    Node, Pieces, Pdf, Value, HOPS,
};
use vstd::prelude::*;
use vstd::seq_lib::*;
use vstd::set_lib::*;
use vstd::string::*;

verus! {

/// References lead no deeper than so far from a value: following them ends.
pub open spec fn unfolds(objects: Map<(u32, u16), Value>, v: Value, depth: nat) -> bool
    decreases depth, v,
{
    match v {
        Value::Reference(id) => match resolved(objects, id) {
            None => true,
            Some(target) => depth > 0 && unfolds(objects, target, (depth - 1) as nat),
        },
        Value::Array(items) => forall|i: int|
            0 <= i < items.len() ==> unfolds(objects, #[trigger] items[i], depth),
        Value::Dictionary(entries) => forall|i: int|
            0 <= i < entries.len() ==> unfolds(objects, (#[trigger] entries[i]).1, depth),
        Value::Stream(entries, _) => forall|i: int|
            0 <= i < entries.len() ==> unfolds(objects, (#[trigger] entries[i]).1, depth),
        _ => true,
    }
}

/// The copy of a value, and the document `p` with all the objects that the
/// copy refers to. A reference that leads nowhere is kept as it is.
pub open spec fn copied(objects: Map<(u32, u16), Value>, v: Value, p: Pdf, depth: nat) -> (
    Value,
    Pdf,
)
    decreases depth, v,
{
    match v {
        Value::Reference(id) => match resolved(objects, id) {
            None => (v, p),
            Some(target) => if depth == 0 {
                (v, p)
            } else {
                let (c, q) = copied(objects, target, p, (depth - 1) as nat);
                (Value::Reference(q.next()), q.with(c))
            },
        },
        Value::Array(items) => {
            let (c, q) = copied_items(objects, items, p, depth);
            (Value::Array(c), q)
        },
        Value::Dictionary(entries) => {
            let (c, q) = copied_entries(objects, entries, p, depth);
            (Value::Dictionary(c), q)
        },
        Value::Stream(entries, bytes) => {
            let (c, q) = copied_entries(objects, entries, p, depth);
            (stream_value(c, bytes), q)
        },
        _ => (v, p),
    }
}

/// The copies of the items of an array, made one after the other.
pub open spec fn copied_items(
    objects: Map<(u32, u16), Value>,
    items: Seq<Value>,
    p: Pdf,
    depth: nat,
) -> (Seq<Value>, Pdf)
    decreases depth, items,
{
    if items.len() == 0 {
        (Seq::empty(), p)
    } else {
        let (before, q) = copied_items(objects, items.drop_last(), p, depth);
        let (c, r) = copied(objects, items.last(), q, depth);
        (before.push(c), r)
    }
}

/// The copies of the entries of a dictionary, made one after the other.
pub open spec fn copied_entries(
    objects: Map<(u32, u16), Value>,
    entries: Seq<(Seq<u8>, Value)>,
    p: Pdf,
    depth: nat,
) -> (Seq<(Seq<u8>, Value)>, Pdf)
    decreases depth, entries,
{
    if entries.len() == 0 {
        (Seq::empty(), p)
    } else {
        let (before, q) = copied_entries(objects, entries.drop_last(), p, depth);
        let (c, r) = copied(objects, entries.last().1, q, depth);
        (with_entry(before, entries.last().0, c), r)
    }
}

/// Following the references of a value ends.
pub open spec fn ends(objects: Map<(u32, u16), Value>, v: Value) -> bool {
    exists|depth: nat| unfolds(objects, v, depth)
}

/// The copy of a value, where there are numbers enough for the objects that
/// it refers to. Where following its references ends, each reference leads
/// to an object of its own; where it does not, each object is copied once.
pub open spec fn deep_copied(objects: Map<(u32, u16), Value>, v: Value, p: Pdf) -> Option<
    (Value, Pdf),
> {
    let r = if ends(objects, v) {
        copied(objects, v, p, choose|depth: nat| unfolds(objects, v, depth))
    } else {
        copied_once(objects, v, p)
    };
    if r.1.last <= u32::MAX {
        Some(r)
    } else {
        None
    }
}

/// Going deeper than needed makes no difference.
proof fn lemma_deeper(objects: Map<(u32, u16), Value>, v: Value, p: Pdf, d: nat, e: nat)
    requires
        unfolds(objects, v, d),
        d <= e,
    ensures
        unfolds(objects, v, e),
        copied(objects, v, p, e) == copied(objects, v, p, d),
    decreases d, v,
{
    match v {
        Value::Reference(id) => {
            if let Some(target) = resolved(objects, id) {
                lemma_deeper(objects, target, p, (d - 1) as nat, (e - 1) as nat);
            }
        },
        Value::Array(items) => {
            lemma_deeper_items(objects, items, p, d, e);
        },
        Value::Dictionary(entries) => {
            lemma_deeper_entries(objects, entries, p, d, e);
        },
        Value::Stream(entries, _) => {
            lemma_deeper_entries(objects, entries, p, d, e);
        },
        _ => {},
    }
}

proof fn lemma_deeper_items(objects: Map<(u32, u16), Value>, items: Seq<Value>, p: Pdf, d: nat, e: nat)
    requires
        forall|i: int| 0 <= i < items.len() ==> unfolds(objects, #[trigger] items[i], d),
        d <= e,
    ensures
        forall|i: int| 0 <= i < items.len() ==> unfolds(objects, #[trigger] items[i], e),
        copied_items(objects, items, p, e) == copied_items(objects, items, p, d),
    decreases d, items,
{
    if items.len() > 0 {
        let front = items.drop_last();
        assert forall|i: int| 0 <= i < front.len() implies unfolds(
            objects,
            #[trigger] front[i],
            d,
        ) by {
            assert(front[i] == items[i]);
        }
        lemma_deeper_items(objects, front, p, d, e);
        let q = copied_items(objects, front, p, d).1;
        lemma_deeper(objects, items.last(), q, d, e);
        assert forall|i: int| 0 <= i < items.len() implies unfolds(
            objects,
            #[trigger] items[i],
            e,
        ) by {
            if i < front.len() {
                assert(front[i] == items[i]);
            }
        }
    }
}

proof fn lemma_deeper_entries(
    objects: Map<(u32, u16), Value>,
    entries: Seq<(Seq<u8>, Value)>,
    p: Pdf,
    d: nat,
    e: nat,
)
    requires
        forall|i: int| 0 <= i < entries.len() ==> unfolds(objects, (#[trigger] entries[i]).1, d),
        d <= e,
    ensures
        forall|i: int| 0 <= i < entries.len() ==> unfolds(objects, (#[trigger] entries[i]).1, e),
        copied_entries(objects, entries, p, e) == copied_entries(objects, entries, p, d),
    decreases d, entries,
{
    if entries.len() > 0 {
        let front = entries.drop_last();
        assert forall|i: int| 0 <= i < front.len() implies unfolds(
            objects,
            (#[trigger] front[i]).1,
            d,
        ) by {
            assert(front[i] == entries[i]);
        }
        lemma_deeper_entries(objects, front, p, d, e);
        let q = copied_entries(objects, front, p, d).1;
        lemma_deeper(objects, entries.last().1, q, d, e);
        assert forall|i: int| 0 <= i < entries.len() implies unfolds(
            objects,
            (#[trigger] entries[i]).1,
            e,
        ) by {
            if i < front.len() {
                assert(front[i] == entries[i]);
            }
        }
    }
}

/// Where following references ends, any depth that suffices gives the copy.
pub proof fn lemma_deep_copied(objects: Map<(u32, u16), Value>, v: Value, p: Pdf, depth: nat)
    requires
        unfolds(objects, v, depth),
    ensures
        deep_copied(objects, v, p) == (if copied(objects, v, p, depth).1.last <= u32::MAX {
            Some(copied(objects, v, p, depth))
        } else {
            None
        }),
{
    let other = choose|d: nat| unfolds(objects, v, d);
    if other <= depth {
        lemma_deeper(objects, v, p, other, depth);
    } else {
        lemma_deeper(objects, v, p, depth, other);
    }
}

/// One document has all the objects of another, and others only under
/// numbers that the other did not give away.
pub open spec fn extends(big: Pdf, small: Pdf) -> bool {
    &&& big.last >= small.last
    &&& big.trailer == small.trailer
    &&& big.version == small.version
    &&& kept(small.objects, big.objects)
    &&& forall|id: (u32, u16)| #[trigger]
        big.objects.contains_key(id) ==> small.objects.contains_key(id) || id.0 > small.last
}

/// Everything that is in one map of objects is in the other.
pub open spec fn kept(small: Map<(u32, u16), Value>, big: Map<(u32, u16), Value>) -> bool {
    forall|id: (u32, u16)| #[trigger]
        small.contains_key(id) ==> big.contains_key(id) && big[id] == small[id]
}

/// One more object leaves the others as they were.
pub proof fn lemma_with(p: Pdf, v: Value)
    requires
        p.wf(),
        p.last < u32::MAX,
    ensures
        p.with(v).wf(),
        extends(p.with(v), p),
        !p.objects.contains_key(p.next()),
        p.with(v).objects.contains_key(p.next()),
        p.with(v).objects[p.next()] == v,
{
    assert(p.next().0 == p.last + 1);
    assert forall|id: (u32, u16)| #[trigger] p.with(v).objects.contains_key(id) implies id.0
        <= p.with(v).last by {
        if id != p.next() {
            assert(p.objects.contains_key(id));
        }
    }
}

pub(crate) proof fn lemma_extends_on(a: Pdf, b: Pdf, c: Pdf)
    requires
        extends(b, a),
        extends(c, b),
    ensures
        extends(c, a),
{
    assert forall|id: (u32, u16)| #[trigger] a.objects.contains_key(id) implies c.objects.contains_key(
        id,
    ) && c.objects[id] == a.objects[id] by {
        assert(b.objects.contains_key(id));
    }
    assert forall|id: (u32, u16)| #[trigger] c.objects.contains_key(id) implies a.objects.contains_key(
        id,
    ) || id.0 > a.last by {
        assert(b.objects.contains_key(id) || id.0 > b.last);
    }
}

/// Copying only adds objects: what the document held, it holds still, and
/// no number is used that was not given away.
proof fn lemma_copy_keeps_objects(objects: Map<(u32, u16), Value>, v: Value, p: Pdf, depth: nat)
    requires
        p.wf(),
        copied(objects, v, p, depth).1.last <= u32::MAX,
    ensures
        copied(objects, v, p, depth).1.wf(),
        extends(copied(objects, v, p, depth).1, p),
    decreases depth, v,
{
    lemma_last_grows(objects, v, p, depth);
    match v {
        Value::Reference(id) => {
            if let Some(target) = resolved(objects, id) {
                if depth > 0 {
                    let (c, q) = copied(objects, target, p, (depth - 1) as nat);
                    lemma_copy_keeps_objects(objects, target, p, (depth - 1) as nat);
                    lemma_with(q, c);
                    lemma_extends_on(p, q, q.with(c));
                }
            }
        },
        Value::Array(items) => {
            lemma_items_keep_objects(objects, items, p, depth);
        },
        Value::Dictionary(entries) => {
            lemma_entries_keep_objects(objects, entries, p, depth);
        },
        Value::Stream(entries, _) => {
            lemma_entries_keep_objects(objects, entries, p, depth);
        },
        _ => {},
    }
}

proof fn lemma_items_keep_objects(
    objects: Map<(u32, u16), Value>,
    items: Seq<Value>,
    p: Pdf,
    depth: nat,
)
    requires
        p.wf(),
        copied_items(objects, items, p, depth).1.last <= u32::MAX,
    ensures
        copied_items(objects, items, p, depth).1.wf(),
        extends(copied_items(objects, items, p, depth).1, p),
    decreases depth, items,
{
    if items.len() > 0 {
        let q = copied_items(objects, items.drop_last(), p, depth).1;
        lemma_last_grows(objects, items.last(), q, depth);
        lemma_items_keep_objects(objects, items.drop_last(), p, depth);
        lemma_copy_keeps_objects(objects, items.last(), q, depth);
        lemma_extends_on(p, q, copied_items(objects, items, p, depth).1);
    }
}

proof fn lemma_entries_keep_objects(
    objects: Map<(u32, u16), Value>,
    entries: Seq<(Seq<u8>, Value)>,
    p: Pdf,
    depth: nat,
)
    requires
        p.wf(),
        copied_entries(objects, entries, p, depth).1.last <= u32::MAX,
    ensures
        copied_entries(objects, entries, p, depth).1.wf(),
        extends(copied_entries(objects, entries, p, depth).1, p),
    decreases depth, entries,
{
    if entries.len() > 0 {
        let q = copied_entries(objects, entries.drop_last(), p, depth).1;
        lemma_last_grows(objects, entries.last().1, q, depth);
        lemma_entries_keep_objects(objects, entries.drop_last(), p, depth);
        lemma_copy_keeps_objects(objects, entries.last().1, q, depth);
        lemma_extends_on(p, q, copied_entries(objects, entries, p, depth).1);
    }
}

/// Copying never takes numbers back.
pub(crate) proof fn lemma_last_grows(objects: Map<(u32, u16), Value>, v: Value, p: Pdf, depth: nat)
    ensures
        copied(objects, v, p, depth).1.last >= p.last,
    decreases depth, v,
{
    match v {
        Value::Reference(id) => {
            if let Some(target) = resolved(objects, id) {
                if depth > 0 {
                    lemma_last_grows(objects, target, p, (depth - 1) as nat);
                }
            }
        },
        Value::Array(items) => {
            lemma_items_grow(objects, items, p, depth);
        },
        Value::Dictionary(entries) => {
            lemma_entries_grow(objects, entries, p, depth);
        },
        Value::Stream(entries, _) => {
            lemma_entries_grow(objects, entries, p, depth);
        },
        _ => {},
    }
}

proof fn lemma_items_grow(objects: Map<(u32, u16), Value>, items: Seq<Value>, p: Pdf, depth: nat)
    ensures
        copied_items(objects, items, p, depth).1.last >= p.last,
    decreases depth, items,
{
    if items.len() > 0 {
        lemma_items_grow(objects, items.drop_last(), p, depth);
        let q = copied_items(objects, items.drop_last(), p, depth).1;
        lemma_last_grows(objects, items.last(), q, depth);
    }
}

proof fn lemma_entries_grow(
    objects: Map<(u32, u16), Value>,
    entries: Seq<(Seq<u8>, Value)>,
    p: Pdf,
    depth: nat,
)
    ensures
        copied_entries(objects, entries, p, depth).1.last >= p.last,
    decreases depth, entries,
{
    if entries.len() > 0 {
        lemma_entries_grow(objects, entries.drop_last(), p, depth);
        let q = copied_entries(objects, entries.drop_last(), p, depth).1;
        lemma_last_grows(objects, entries.last().1, q, depth);
    }
}

/// No two entries have the same key.
pub open spec fn distinct_keys(entries: Seq<(Seq<u8>, Value)>) -> bool {
    forall|i: int, j: int|
        0 <= i < j < entries.len() ==> (#[trigger] entries[i]).0 != (#[trigger] entries[j]).0
}

/// Keys stand in a dictionary once, as far as so many references lead.
pub open spec fn tidy(objects: Map<(u32, u16), Value>, v: Value, depth: nat) -> bool
    decreases depth, v,
{
    match v {
        Value::Reference(id) => match resolved(objects, id) {
            None => true,
            Some(target) => depth > 0 ==> tidy(objects, target, (depth - 1) as nat),
        },
        Value::Array(items) => forall|i: int|
            0 <= i < items.len() ==> tidy(objects, #[trigger] items[i], depth),
        Value::Dictionary(entries) => distinct_keys(entries) && forall|i: int|
            0 <= i < entries.len() ==> tidy(objects, (#[trigger] entries[i]).1, depth),
        Value::Stream(entries, _) => distinct_keys(entries) && forall|i: int|
            0 <= i < entries.len() ==> tidy(objects, (#[trigger] entries[i]).1, depth),
        _ => true,
    }
}

/// A value among some objects and another among others mean the same, as
/// far as so many references lead: they are alike, and where one refers to
/// an object the other does too, and these mean the same. A reference that
/// leads nowhere is kept. A stream's length is that of its bytes, whatever
/// the first one says.
pub open spec fn same(
    objects: Map<(u32, u16), Value>,
    v: Value,
    others: Map<(u32, u16), Value>,
    w: Value,
    depth: nat,
) -> bool
    decreases depth, v,
{
    match v {
        Value::Reference(id) => match resolved(objects, id) {
            None => w == v,
            Some(target) => {
                &&& w is Reference
                &&& resolved(others, w->Reference_0) is Some
                &&& depth > 0 ==> same(
                    objects,
                    target,
                    others,
                    resolved(others, w->Reference_0)->0,
                    (depth - 1) as nat,
                )
            },
        },
        Value::Array(items) => {
            &&& w is Array
            &&& w->Array_0.len() == items.len()
            &&& forall|i: int|
                0 <= i < items.len() ==> same(
                    objects,
                    #[trigger] items[i],
                    others,
                    w->Array_0[i],
                    depth,
                )
        },
        Value::Dictionary(entries) => {
            &&& w is Dictionary
            &&& w->Dictionary_0.len() == entries.len()
            &&& forall|i: int|
                0 <= i < entries.len() ==> (#[trigger] entries[i]).0 == w->Dictionary_0[i].0
                    && same(objects, entries[i].1, others, w->Dictionary_0[i].1, depth)
        },
        Value::Stream(entries, bytes) => {
            let length = "Length".spec_bytes();
            let n = Value::Integer(bytes.len() as i64);
            &&& w is Stream
            &&& w->Stream_1 == bytes
            &&& forall|i: int|
                0 <= i < entries.len() ==> i < w->Stream_0.len() && (#[trigger] entries[i]).0
                    == w->Stream_0[i].0 && (if entries[i].0 == length {
                    w->Stream_0[i].1 == n
                } else {
                    same(objects, entries[i].1, others, w->Stream_0[i].1, depth)
                })
            &&& if exists|i: int| 0 <= i < entries.len() && (#[trigger] entries[i]).0 == length {
                w->Stream_0.len() == entries.len()
            } else {
                w->Stream_0 == w->Stream_0.take(entries.len() as int).push((length, n))
            }
        },
        _ => w == v,
    }
}

/// A key that stands nowhere has no position, and one that stands once has
/// that one.
pub(crate) proof fn lemma_position(entries: Seq<(Seq<u8>, Value)>, key: Seq<u8>)
    ensures
        0 <= position(entries, key) <= entries.len(),
        position(entries, key) < entries.len() ==> entries[position(entries, key)].0 == key,
        forall|i: int|
            0 <= i < position(entries, key) ==> (#[trigger] entries[i]).0 != key,
    decreases entries.len(),
{
    if entries.len() > 0 && entries[0].0 != key {
        let rest = entries.drop_first();
        lemma_position(rest, key);
        assert forall|i: int| 0 <= i < position(entries, key) implies (#[trigger] entries[i]).0
            != key by {
            if i > 0 {
                assert(rest[i - 1] == entries[i]);
            }
        }
    }
}

/// Copying the entries of a dictionary keeps its keys.
proof fn lemma_copied_keys(
    objects: Map<(u32, u16), Value>,
    entries: Seq<(Seq<u8>, Value)>,
    p: Pdf,
    depth: nat,
)
    requires
        distinct_keys(entries),
    ensures
        copied_entries(objects, entries, p, depth).0.len() == entries.len(),
        forall|i: int|
            0 <= i < entries.len() ==> (#[trigger] entries[i]).0 == copied_entries(
                objects,
                entries,
                p,
                depth,
            ).0[i].0,
        entries.len() > 0 ==> copied_entries(objects, entries, p, depth).0 == copied_entries(
            objects,
            entries.drop_last(),
            p,
            depth,
        ).0.push(
            (
                entries.last().0,
                copied(
                    objects,
                    entries.last().1,
                    copied_entries(objects, entries.drop_last(), p, depth).1,
                    depth,
                ).0,
            ),
        ),
    decreases entries.len(),
{
    if entries.len() > 0 {
        let front = entries.drop_last();
        assert forall|i: int, j: int| 0 <= i < j < front.len() implies (#[trigger] front[i]).0 != (
        #[trigger] front[j]).0 by {
            assert(entries[i].0 != entries[j].0);
        }
        lemma_copied_keys(objects, front, p, depth);
        let before = copied_entries(objects, front, p, depth).0;
        let key = entries.last().0;
        lemma_position(before, key);
        let at = position(before, key);
        if at < before.len() {
            assert(front[at].0 == before[at].0);
            assert(entries[at].0 != entries[entries.len() - 1].0);
        }
        assert forall|i: int| 0 <= i < entries.len() implies (#[trigger] entries[i]).0
            == copied_entries(objects, entries, p, depth).0[i].0 by {
            if i < front.len() {
                assert(front[i] == entries[i]);
            }
        }
    }
}

/// An object that was found is no reference.
pub(crate) proof fn lemma_found(objects: Map<(u32, u16), Value>, id: (u32, u16), hops: nat)
    ensures
        found(objects, id, hops) is Some ==> !(found(objects, id, hops)->0 is Reference),
    decreases hops,
{
    if objects.contains_key(id) {
        if let Value::Reference(next) = objects[id] {
            if hops > 0 {
                lemma_found(objects, next, (hops - 1) as nat);
            }
        }
    }
}

/// What was found among some objects is found among more.
proof fn lemma_found_among_more(
    small: Map<(u32, u16), Value>,
    big: Map<(u32, u16), Value>,
    id: (u32, u16),
    hops: nat,
)
    requires
        kept(small, big),
        found(small, id, hops) is Some,
    ensures
        found(big, id, hops) == found(small, id, hops),
    decreases hops,
{
    if let Value::Reference(next) = small[id] {
        lemma_found_among_more(small, big, next, (hops - 1) as nat);
    }
}

/// What means the same among some objects does among more.
pub(crate) proof fn lemma_same_among_more(
    objects: Map<(u32, u16), Value>,
    v: Value,
    small: Map<(u32, u16), Value>,
    big: Map<(u32, u16), Value>,
    w: Value,
    depth: nat,
)
    requires
        kept(small, big),
        same(objects, v, small, w, depth),
    ensures
        same(objects, v, big, w, depth),
    decreases depth, v,
{
    match v {
        Value::Reference(id) => {
            if let Some(target) = resolved(objects, id) {
                lemma_found_among_more(small, big, w->Reference_0, HOPS as nat);
                if depth > 0 {
                    lemma_same_among_more(
                        objects,
                        target,
                        small,
                        big,
                        resolved(small, w->Reference_0)->0,
                        (depth - 1) as nat,
                    );
                }
            }
        },
        Value::Array(items) => {
            assert forall|i: int| 0 <= i < items.len() implies same(
                objects,
                #[trigger] items[i],
                big,
                w->Array_0[i],
                depth,
            ) by {
                lemma_same_among_more(objects, items[i], small, big, w->Array_0[i], depth);
            }
        },
        Value::Dictionary(entries) => {
            assert forall|i: int| 0 <= i < entries.len() implies (#[trigger] entries[i]).0
                == w->Dictionary_0[i].0 && same(
                objects,
                entries[i].1,
                big,
                w->Dictionary_0[i].1,
                depth,
            ) by {
                lemma_same_among_more(
                    objects,
                    entries[i].1,
                    small,
                    big,
                    w->Dictionary_0[i].1,
                    depth,
                );
            }
        },
        Value::Stream(entries, bytes) => {
            let length = "Length".spec_bytes();
            assert forall|i: int|
                0 <= i < entries.len() && (#[trigger] entries[i]).0 != length implies same(
                objects,
                entries[i].1,
                big,
                w->Stream_0[i].1,
                depth,
            ) by {
                lemma_same_among_more(objects, entries[i].1, small, big, w->Stream_0[i].1, depth);
            }
        },
        _ => {},
    }
}

/// A stream means the same as another with the same bytes, whose entries
/// mean the same.
pub(crate) proof fn lemma_same_stream(
    objects: Map<(u32, u16), Value>,
    entries: Seq<(Seq<u8>, Value)>,
    bytes: Seq<u8>,
    others: Map<(u32, u16), Value>,
    c: Seq<(Seq<u8>, Value)>,
    n: nat,
)
    requires
        distinct_keys(entries),
        c.len() == entries.len(),
        forall|i: int| 0 <= i < entries.len() ==> (#[trigger] entries[i]).0 == c[i].0,
        forall|i: int|
            0 <= i < entries.len() ==> same(objects, (#[trigger] entries[i]).1, others, c[i].1, n),
    ensures
        same(objects, Value::Stream(entries, bytes), others, stream_value(c, bytes), n),
{
    let length = "Length".spec_bytes();
    lemma_position(c, length);
    let at = position(c, length);
    let w = stream_value(c, bytes)->Stream_0;
    if at < c.len() {
        assert(entries[at].0 == length);
        assert forall|i: int| 0 <= i < entries.len() && (#[trigger] entries[i]).0
            == length implies i == at by {
            if i < at {
                assert(entries[i].0 != entries[at].0);
            } else if at < i {
                assert(entries[at].0 != entries[i].0);
            }
        }
    } else {
        assert forall|i: int| 0 <= i < entries.len() implies (#[trigger] entries[i]).0
            != length by {
            assert(c[i].0 != length);
        }
        assert(w.take(entries.len() as int) =~= c);
    }
}

/// A copy means the same in the document that it was made for as the value
/// does where it came from.
proof fn lemma_copy_is_faithful(
    objects: Map<(u32, u16), Value>,
    v: Value,
    p: Pdf,
    depth: nat,
    n: nat,
)
    requires
        p.wf(),
        unfolds(objects, v, depth),
        tidy(objects, v, n),
        copied(objects, v, p, depth).1.last <= u32::MAX,
    ensures
        same(
            objects,
            v,
            copied(objects, v, p, depth).1.objects,
            copied(objects, v, p, depth).0,
            n,
        ),
    decreases depth, v,
{
    match v {
        Value::Reference(id) => {
            if let Some(target) = resolved(objects, id) {
                let d = (depth - 1) as nat;
                let (c, q) = copied(objects, target, p, d);
                lemma_last_grows(objects, target, p, d);
                lemma_copy_keeps_objects(objects, target, p, d);
                lemma_with(q, c);
                lemma_found(objects, id, HOPS as nat);
                assert(resolved(q.with(c).objects, q.next()) == Some(c));
                if n > 0 {
                    let m = (n - 1) as nat;
                    lemma_copy_is_faithful(objects, target, p, d, m);
                    lemma_same_among_more(objects, target, q.objects, q.with(c).objects, c, m);
                }
            }
        },
        Value::Array(items) => {
            lemma_items_are_faithful(objects, items, p, depth, n);
        },
        Value::Dictionary(entries) => {
            lemma_entries_are_faithful(objects, entries, p, depth, n);
            lemma_copied_keys(objects, entries, p, depth);
        },
        Value::Stream(entries, bytes) => {
            let (c, q) = copied_entries(objects, entries, p, depth);
            lemma_entries_are_faithful(objects, entries, p, depth, n);
            lemma_copied_keys(objects, entries, p, depth);
            lemma_same_stream(objects, entries, bytes, q.objects, c, n);
        },
        _ => {},
    }
}

proof fn lemma_items_are_faithful(
    objects: Map<(u32, u16), Value>,
    items: Seq<Value>,
    p: Pdf,
    depth: nat,
    n: nat,
)
    requires
        p.wf(),
        forall|i: int|
            0 <= i < items.len() ==> unfolds(objects, #[trigger] items[i], depth) && tidy(
                objects,
                items[i],
                n,
            ),
        copied_items(objects, items, p, depth).1.last <= u32::MAX,
    ensures
        copied_items(objects, items, p, depth).0.len() == items.len(),
        forall|i: int|
            0 <= i < items.len() ==> same(
                objects,
                #[trigger] items[i],
                copied_items(objects, items, p, depth).1.objects,
                copied_items(objects, items, p, depth).0[i],
                n,
            ),
    decreases depth, items,
{
    if items.len() > 0 {
        let front = items.drop_last();
        let (before, q) = copied_items(objects, front, p, depth);
        let (c, r) = copied(objects, items.last(), q, depth);
        lemma_last_grows(objects, items.last(), q, depth);
        assert forall|i: int| 0 <= i < front.len() implies unfolds(
            objects,
            #[trigger] front[i],
            depth,
        ) && tidy(objects, front[i], n) by {
            assert(front[i] == items[i]);
        }
        lemma_items_are_faithful(objects, front, p, depth, n);
        lemma_items_keep_objects(objects, front, p, depth);
        lemma_copy_is_faithful(objects, items.last(), q, depth, n);
        lemma_copy_keeps_objects(objects, items.last(), q, depth);
        assert forall|i: int| 0 <= i < items.len() implies same(
            objects,
            #[trigger] items[i],
            r.objects,
            before.push(c)[i],
            n,
        ) by {
            if i < front.len() {
                assert(front[i] == items[i]);
                lemma_same_among_more(objects, front[i], q.objects, r.objects, before[i], n);
            }
        }
    }
}

proof fn lemma_entries_are_faithful(
    objects: Map<(u32, u16), Value>,
    entries: Seq<(Seq<u8>, Value)>,
    p: Pdf,
    depth: nat,
    n: nat,
)
    requires
        p.wf(),
        distinct_keys(entries),
        forall|i: int|
            0 <= i < entries.len() ==> unfolds(objects, (#[trigger] entries[i]).1, depth) && tidy(
                objects,
                entries[i].1,
                n,
            ),
        copied_entries(objects, entries, p, depth).1.last <= u32::MAX,
    ensures
        forall|i: int|
            0 <= i < entries.len() ==> same(
                objects,
                (#[trigger] entries[i]).1,
                copied_entries(objects, entries, p, depth).1.objects,
                copied_entries(objects, entries, p, depth).0[i].1,
                n,
            ),
    decreases depth, entries,
{
    if entries.len() > 0 {
        let front = entries.drop_last();
        let (before, q) = copied_entries(objects, front, p, depth);
        let (c, r) = copied(objects, entries.last().1, q, depth);
        lemma_last_grows(objects, entries.last().1, q, depth);
        assert forall|i: int, j: int| 0 <= i < j < front.len() implies (#[trigger] front[i]).0 != (
        #[trigger] front[j]).0 by {
            assert(entries[i].0 != entries[j].0);
        }
        assert forall|i: int| 0 <= i < front.len() implies unfolds(
            objects,
            (#[trigger] front[i]).1,
            depth,
        ) && tidy(objects, front[i].1, n) by {
            assert(front[i] == entries[i]);
        }
        lemma_entries_are_faithful(objects, front, p, depth, n);
        lemma_entries_keep_objects(objects, front, p, depth);
        lemma_copy_is_faithful(objects, entries.last().1, q, depth, n);
        lemma_copy_keeps_objects(objects, entries.last().1, q, depth);
        lemma_copied_keys(objects, entries, p, depth);
        lemma_copied_keys(objects, front, p, depth);
        assert forall|i: int| 0 <= i < entries.len() implies same(
            objects,
            (#[trigger] entries[i]).1,
            r.objects,
            copied_entries(objects, entries, p, depth).0[i].1,
            n,
        ) by {
            if i < front.len() {
                assert(front[i] == entries[i]);
                lemma_same_among_more(objects, front[i].1, q.objects, r.objects, before[i].1, n);
            }
        }
    }
}

/// A deep copy only adds objects: what the document held, it holds still,
/// and no number is used that was given away.
pub proof fn lemma_deep_copy_keeps_objects(objects: Map<(u32, u16), Value>, v: Value, p: Pdf)
    requires
        p.wf(),
        deep_copied(objects, v, p) is Some,
    ensures
        ({
            let (_, q) = deep_copied(objects, v, p)->0;
            q.wf() && extends(q, p)
        }),
{
    if ends(objects, v) {
        lemma_copy_keeps_objects(objects, v, p, choose|depth: nat| unfolds(objects, v, depth));
    } else {
        lemma_copied_once_keeps_objects(objects, v, p);
    }
}

/// A deep copy means the same in the document that it was made for as the
/// value does where it came from, however far references are followed.
pub proof fn lemma_deep_copy_is_faithful(
    objects: Map<(u32, u16), Value>,
    v: Value,
    p: Pdf,
    n: nat,
)
    requires
        p.wf(),
        objects.dom().finite(),
        tidy(objects, v, n),
        deep_copied(objects, v, p) is Some,
    ensures
        ({
            let (w, q) = deep_copied(objects, v, p)->0;
            same(objects, v, q.objects, w, n)
        }),
{
    if ends(objects, v) {
        let depth = choose|depth: nat| unfolds(objects, v, depth);
        lemma_copy_is_faithful(objects, v, p, depth, n);
    } else {
        lemma_copied_once_is_faithful(objects, v, p, n);
    }
}

/// Objects among which references lead in circles can be copied: it takes
/// no more numbers than there are objects.
pub proof fn lemma_circles_are_copied(objects: Map<(u32, u16), Value>, v: Value, p: Pdf)
    requires
        objects.dom().finite(),
        !ends(objects, v),
        p.last + objects.dom().len() <= u32::MAX,
    ensures
        deep_copied(objects, v, p) == Some(copied_once(objects, v, p)),
        copied_once(objects, v, p).1.last <= p.last + objects.dom().len(),
{
    lemma_copied_once_last(objects, v, p);
}

/// The numbers of the objects that a value lies inside of: they differ, and
/// references lead deeper from each of them than from the value.
spec fn around(objects: Map<(u32, u16), Value>, path: Seq<(u32, u16)>, v: Value) -> bool {
    &&& path.no_duplicates()
    &&& forall|j: int| 0 <= j < path.len() ==> objects.contains_key(#[trigger] path[j])
    &&& forall|j: int, d: nat|
        0 <= j < path.len() && #[trigger] unfolds(objects, Value::Reference(path[j]), d)
            ==> exists|e: nat| e < d && #[trigger] unfolds(objects, v, e)
}

/// There is no endless descent.
proof fn lemma_no_descent(objects: Map<(u32, u16), Value>, v: Value, d: nat)
    requires
        forall|d: nat| #[trigger]
            unfolds(objects, v, d) ==> exists|e: nat| e < d && #[trigger] unfolds(objects, v, e),
    ensures
        !unfolds(objects, v, d),
    decreases d,
{
    if unfolds(objects, v, d) {
        let e = choose|e: nat| e < d && #[trigger] unfolds(objects, v, e);
        lemma_no_descent(objects, v, e);
    }
}

/// What lies around a value lies around its parts.
proof fn lemma_around_part(
    objects: Map<(u32, u16), Value>,
    path: Seq<(u32, u16)>,
    v: Value,
    part: Value,
)
    requires
        around(objects, path, v),
        forall|d: nat| #[trigger] unfolds(objects, v, d) ==> unfolds(objects, part, d),
    ensures
        around(objects, path, part),
{
    assert forall|j: int, d: nat|
        0 <= j < path.len() && #[trigger] unfolds(
            objects,
            Value::Reference(path[j]),
            d,
        ) implies exists|e: nat| e < d && #[trigger] unfolds(objects, part, e) by {
        let e = choose|e: nat| e < d && #[trigger] unfolds(objects, v, e);
        assert(unfolds(objects, part, e));
    }
}

/// What lies around a reference lies around its target, and so does the
/// reference itself, which makes the path longer than before but no longer
/// than there are objects.
proof fn lemma_around_target(
    objects: Map<(u32, u16), Value>,
    path: Seq<(u32, u16)>,
    id: (u32, u16),
    target: Value,
)
    requires
        objects.dom().finite(),
        around(objects, path, Value::Reference(id)),
        resolved(objects, id) == Some(target),
        !path.contains(id),
    ensures
        around(objects, path.push(id), target),
        path.len() < objects.dom().len(),
{
    let longer = path.push(id);
    assert forall|j: int, d: nat|
        0 <= j < longer.len() && #[trigger] unfolds(
            objects,
            Value::Reference(longer[j]),
            d,
        ) implies exists|e: nat| e < d && #[trigger] unfolds(objects, target, e) by {
        if j < path.len() {
            assert(longer[j] == path[j]);
            let e = choose|e: nat|
                e < d && #[trigger] unfolds(objects, Value::Reference(id), e);
            assert(unfolds(objects, target, (e - 1) as nat));
        } else {
            assert(unfolds(objects, target, (d - 1) as nat));
        }
    }
    assert forall|j: int| 0 <= j < longer.len() implies objects.contains_key(
        #[trigger] longer[j],
    ) by {
        if j < path.len() {
            assert(longer[j] == path[j]);
        }
    }
    longer.unique_seq_to_set();
    assert forall|x: (u32, u16)| longer.to_set().contains(x) implies objects.dom().contains(x) by {
        let j = choose|j: int| 0 <= j < longer.len() && longer[j] == x;
        assert(objects.contains_key(longer[j]));
    }
    lemma_len_subset(longer.to_set(), objects.dom());
}

/// Whether a number stands in a list.
fn listed(path: &Vec<(u32, u16)>, id: (u32, u16)) -> (r: bool)
    ensures
        r == path@.contains(id),
{
    let mut i: usize = 0;
    while i < path.len()
        invariant
            i <= path@.len(),
            forall|j: int| 0 <= j < i ==> path@[j] != id,
        decreases path@.len() - i,
    {
        if path[i].0 == id.0 && path[i].1 == id.1 {
            assert(path@[i as int] == id);
            return true;
        }
        i = i + 1;
    }
    false
}

/// Whether following the references of an object ends, which they do not
/// where they lead back to an object that it lies inside of.
fn ends_inside(src: &lopdf::Document, object: &lopdf::Object, path: &mut Vec<(u32, u16)>) -> (r:
    bool)
    requires
        objects_in(*src).dom().finite(),
        around(objects_in(*src), old(path)@, value_of(*object)),
    ensures
        final(path)@ == old(path)@,
        r == ends(objects_in(*src), value_of(*object)),
    decreases objects_in(*src).dom().len() - old(path)@.len(), value_of(*object), 0nat,
{
    let ghost objects = objects_in(*src);
    let ghost v = value_of(*object);
    match look_at(object) {
        Node::Reference(id) => {
            match src.get_object(id) {
                Err(_) => {
                    assert(unfolds(objects, v, 0));
                    true
                },
                Ok(target) => {
                    let ghost t = value_of(*target);
                    if listed(path, id) {
                        proof {
                            let j = choose|j: int| 0 <= j < path@.len() && path@[j] == id;
                            assert(path@[j] == id);
                            assert forall|d: nat| !#[trigger] unfolds(objects, v, d) by {
                                lemma_no_descent(objects, v, d);
                            }
                        }
                        return false;
                    }
                    proof {
                        lemma_around_target(objects, path@, id, t);
                    }
                    path.push(id);
                    let r = ends_inside(src, target, path);
                    path.pop();
                    proof {
                        assert(path@ =~= old(path)@);
                        if r {
                            let d = choose|d: nat| unfolds(objects, t, d);
                            assert(unfolds(objects, v, d + 1));
                        } else if ends(objects, v) {
                            let d = choose|d: nat| unfolds(objects, v, d);
                            assert(unfolds(objects, t, (d - 1) as nat));
                        }
                    }
                    r
                },
            }
        },
        Node::Dictionary(dict) => {
            assert(decreases_to!(v => v->Dictionary_0));
            entries_end(src, dict, path, Ghost(v))
        },
        Node::Stream(dict, _) => {
            assert(decreases_to!(v => v->Stream_0));
            entries_end(src, dict, path, Ghost(v))
        },
        Node::Array(items) => {
            assert(decreases_to!(v => v->Array_0));
            items_end(src, items, path, Ghost(v))
        },
        _ => {
            assert(unfolds(objects, v, 0));
            true
        },
    }
}

/// Whether following the references of a dictionary's entries ends. The
/// dictionary is that of `whole`.
fn entries_end(
    src: &lopdf::Document,
    dict: &lopdf::Dictionary,
    path: &mut Vec<(u32, u16)>,
    Ghost(whole): Ghost<Value>,
) -> (r: bool)
    requires
        objects_in(*src).dom().finite(),
        around(objects_in(*src), old(path)@, whole),
        match whole {
            Value::Dictionary(entries) => entries == entries_of(*dict),
            Value::Stream(entries, _) => entries == entries_of(*dict),
            _ => false,
        },
    ensures
        final(path)@ == old(path)@,
        r == ends(objects_in(*src), whole),
    decreases objects_in(*src).dom().len() - old(path)@.len(), entries_of(*dict), 0nat,
{
    let ghost objects = objects_in(*src);
    let ghost entries = entries_of(*dict);
    let ghost mut d: nat = 0;
    let pairs = pairs_of(dict);
    let mut i: usize = 0;
    while i < pairs.len()
        invariant
            objects == objects_in(*src),
            objects.dom().finite(),
            around(objects, path@, whole),
            path@ == old(path)@,
            entries == entries_of(*dict),
            match whole {
                Value::Dictionary(e) => e == entries,
                Value::Stream(e, _) => e == entries,
                _ => false,
            },
            pairs@.len() == entries.len(),
            forall|k: int|
                0 <= k < pairs@.len() ==> (#[trigger] pairs@[k]).0@ == entries[k].0 && value_of(
                    *pairs@[k].1,
                ) == entries[k].1,
            i <= pairs@.len(),
            forall|k: int| 0 <= k < i ==> unfolds(objects, (#[trigger] entries[k]).1, d),
        decreases pairs@.len() - i,
    {
        let (_, object) = pairs[i];
        let ghost part = entries[i as int].1;
        proof {
            assert forall|e: nat| #[trigger] unfolds(objects, whole, e) implies unfolds(
                objects,
                part,
                e,
            ) by {
                assert(unfolds(objects, entries[i as int].1, e));
            }
            lemma_around_part(objects, path@, whole, part);
            assert(entries[i as int].1 == part);
        }
        if !ends_inside(src, object, path) {
            assert(!ends(objects, whole)) by {
                if ends(objects, whole) {
                    let e = choose|e: nat| unfolds(objects, whole, e);
                    assert(unfolds(objects, part, e));
                }
            }
            return false;
        }
        proof {
            let e = choose|e: nat| unfolds(objects, part, e);
            let both = if d <= e {
                e
            } else {
                d
            };
            assert forall|k: int| 0 <= k < i + 1 implies unfolds(
                objects,
                (#[trigger] entries[k]).1,
                both,
            ) by {
                lemma_deeper(
                    objects,
                    entries[k].1,
                    Pdf::blank(Seq::empty()),
                    if k < i {
                        d
                    } else {
                        e
                    },
                    both,
                );
            }
            d = both;
        }
        i = i + 1;
    }
    assert(unfolds(objects, whole, d));
    true
}

/// Whether following the references of an array's items ends. The array is
/// `whole`.
fn items_end(
    src: &lopdf::Document,
    items: &Vec<lopdf::Object>,
    path: &mut Vec<(u32, u16)>,
    Ghost(whole): Ghost<Value>,
) -> (r: bool)
    requires
        objects_in(*src).dom().finite(),
        around(objects_in(*src), old(path)@, whole),
        whole == Value::Array(values_of(items@)),
    ensures
        final(path)@ == old(path)@,
        r == ends(objects_in(*src), whole),
    decreases objects_in(*src).dom().len() - old(path)@.len(), values_of(items@), 0nat,
{
    let ghost objects = objects_in(*src);
    let ghost values = values_of(items@);
    let ghost mut d: nat = 0;
    let mut i: usize = 0;
    while i < items.len()
        invariant
            objects == objects_in(*src),
            objects.dom().finite(),
            around(objects, path@, whole),
            path@ == old(path)@,
            values == values_of(items@),
            values.len() == items@.len(),
            whole is Array,
            whole->Array_0 == values,
            i <= items@.len(),
            forall|k: int| 0 <= k < i ==> unfolds(objects, #[trigger] values[k], d),
        decreases items@.len() - i,
    {
        let ghost part = values[i as int];
        proof {
            assert forall|e: nat| #[trigger] unfolds(objects, whole, e) implies unfolds(
                objects,
                part,
                e,
            ) by {
                assert(unfolds(objects, whole->Array_0[i as int], e));
            }
            lemma_around_part(objects, path@, whole, part);
        }
        if !ends_inside(src, &items[i], path) {
            assert(!ends(objects, whole)) by {
                if ends(objects, whole) {
                    let e = choose|e: nat| unfolds(objects, whole, e);
                    assert(unfolds(objects, part, e));
                }
            }
            return false;
        }
        proof {
            let e = choose|e: nat| unfolds(objects, part, e);
            let both = if d <= e {
                e
            } else {
                d
            };
            assert forall|k: int| 0 <= k < i + 1 implies unfolds(
                objects,
                #[trigger] values[k],
                both,
            ) by {
                lemma_deeper(
                    objects,
                    values[k],
                    Pdf::blank(Seq::empty()),
                    if k < i {
                        d
                    } else {
                        e
                    },
                    both,
                );
            }
            d = both;
        }
        i = i + 1;
    }
    assert(unfolds(objects, whole, d));
    true
}

/// Copies an object, whose references lead no deeper than so far, unless
/// numbers run out.
fn copy_inside(
    src: &lopdf::Document,
    object: &lopdf::Object,
    out: &mut lopdf::Document,
    Ghost(depth): Ghost<nat>,
) -> (r: Option<lopdf::Object>)
    requires
        unfolds(objects_in(*src), value_of(*object), depth),
    ensures
        match r {
            Some(c) => copied(objects_in(*src), value_of(*object), pdf(*old(out)), depth) == (
                value_of(c),
                pdf(*final(out)),
            ),
            None => copied(
                objects_in(*src),
                value_of(*object),
                pdf(*old(out)),
                depth,
            ).1.last > u32::MAX,
        },
    decreases depth, value_of(*object), 0nat,
{
    let ghost v = value_of(*object);
    match look_at(object) {
        Node::Reference(id) => {
            match src.get_object(id) {
                Err(_) => Some(object.clone()),
                Ok(target) => {
                    let ghost less = (depth - 1) as nat;
                    match copy_inside(src, target, out, Ghost(less)) {
                        None => None,
                        Some(c) => {
                            if max_id(out) == u32::MAX {
                                return None;
                            }
                            let new_id = add_object(out, c);
                            Some(object_of(Pieces::Reference(new_id)))
                        },
                    }
                },
            }
        },
        Node::Dictionary(dict) => {
            assert(decreases_to!(v => v->Dictionary_0));
            match copy_entries(src, dict, out, Ghost(depth)) {
                Some(copy) => Some(object_of(Pieces::Dictionary(copy))),
                None => None,
            }
        },
        Node::Stream(dict, bytes) => {
            assert(decreases_to!(v => v->Stream_0));
            match copy_entries(src, dict, out, Ghost(depth)) {
                Some(copy) => Some(stream_object(copy, bytes.clone())),
                None => None,
            }
        },
        Node::Array(items) => {
            assert(decreases_to!(v => v->Array_0));
            match copy_items(src, items, out, Ghost(depth)) {
                Some(copy) => Some(object_of(Pieces::Array(copy))),
                None => None,
            }
        },
        _ => Some(object.clone()),
    }
}

/// Copies the entries of a dictionary one after the other.
fn copy_entries(
    src: &lopdf::Document,
    dict: &lopdf::Dictionary,
    out: &mut lopdf::Document,
    Ghost(depth): Ghost<nat>,
) -> (r: Option<lopdf::Dictionary>)
    requires
        forall|i: int|
            0 <= i < entries_of(*dict).len() ==> unfolds(
                objects_in(*src),
                (#[trigger] entries_of(*dict)[i]).1,
                depth,
            ),
    ensures
        match r {
            Some(c) => copied_entries(
                objects_in(*src),
                entries_of(*dict),
                pdf(*old(out)),
                depth,
            ) == (entries_of(c), pdf(*final(out))),
            None => copied_entries(
                objects_in(*src),
                entries_of(*dict),
                pdf(*old(out)),
                depth,
            ).1.last > u32::MAX,
        },
    decreases depth, entries_of(*dict), 0nat,
{
    let ghost objects = objects_in(*src);
    let ghost entries = entries_of(*dict);
    let ghost p = pdf(*out);
    let pairs = pairs_of(dict);
    let mut copy = lopdf::Dictionary::new();
    let mut i: usize = 0;
    assert(entries.take(0) =~= Seq::<(Seq<u8>, Value)>::empty());
    while i < pairs.len()
        invariant
            objects == objects_in(*src),
            p == pdf(*old(out)),
            entries == entries_of(*dict),
            pairs@.len() == entries.len(),
            forall|k: int|
                0 <= k < pairs@.len() ==> (#[trigger] pairs@[k]).0@ == entries[k].0 && value_of(
                    *pairs@[k].1,
                ) == entries[k].1,
            i <= pairs@.len(),
            forall|k: int|
                0 <= k < entries.len() ==> unfolds(objects, (#[trigger] entries[k]).1, depth),
            copied_entries(objects, entries.take(i as int), p, depth) == (
                entries_of(copy),
                pdf(*out),
            ),
        decreases pairs@.len() - i,
    {
        let (key, object) = pairs[i];
        let ghost part = entries[i as int].1;
        assert(entries[i as int].1 == part);
        match copy_inside(src, object, out, Ghost(depth)) {
            None => {
                proof {
                    lemma_entry_beyond(objects, entries, p, depth, i as int);
                }
                return None;
            },
            Some(c) => {
                proof {
                    let next = entries.take(i + 1);
                    assert(next.drop_last() =~= entries.take(i as int));
                    assert(next.last() == entries[i as int]);
                }
                set_entry(&mut copy, key.as_slice(), c);
            },
        }
        i = i + 1;
    }
    assert(entries.take(i as int) =~= entries);
    Some(copy)
}

/// Copies the items of an array one after the other.
fn copy_items(
    src: &lopdf::Document,
    items: &Vec<lopdf::Object>,
    out: &mut lopdf::Document,
    Ghost(depth): Ghost<nat>,
) -> (r: Option<Vec<lopdf::Object>>)
    requires
        forall|i: int|
            0 <= i < values_of(items@).len() ==> unfolds(
                objects_in(*src),
                #[trigger] values_of(items@)[i],
                depth,
            ),
    ensures
        match r {
            Some(c) => copied_items(
                objects_in(*src),
                values_of(items@),
                pdf(*old(out)),
                depth,
            ) == (values_of(c@), pdf(*final(out))),
            None => copied_items(
                objects_in(*src),
                values_of(items@),
                pdf(*old(out)),
                depth,
            ).1.last > u32::MAX,
        },
    decreases depth, values_of(items@), 0nat,
{
    let ghost objects = objects_in(*src);
    let ghost values = values_of(items@);
    let ghost p = pdf(*out);
    let mut copy: Vec<lopdf::Object> = Vec::new();
    let mut i: usize = 0;
    assert(values.take(0) =~= Seq::<Value>::empty());
    assert(values_of(copy@) =~= Seq::<Value>::empty());
    while i < items.len()
        invariant
            objects == objects_in(*src),
            p == pdf(*old(out)),
            values == values_of(items@),
            values.len() == items@.len(),
            i <= items@.len(),
            forall|k: int| 0 <= k < values.len() ==> unfolds(objects, #[trigger] values[k], depth),
            copied_items(objects, values.take(i as int), p, depth) == (
                values_of(copy@),
                pdf(*out),
            ),
        decreases items@.len() - i,
    {
        let ghost part = values[i as int];
        assert(part == value_of(items@[i as int]));
        match copy_inside(src, &items[i], out, Ghost(depth)) {
            None => {
                proof {
                    lemma_item_beyond(objects, values, p, depth, i as int);
                }
                return None;
            },
            Some(c) => {
                proof {
                    let next = values.take(i + 1);
                    assert(next.drop_last() =~= values.take(i as int));
                    assert(next.last() == values[i as int]);
                    assert(values_of(copy@.push(c)) =~= values_of(copy@).push(value_of(c)));
                }
                copy.push(c);
            },
        }
        i = i + 1;
    }
    assert(values.take(i as int) =~= values);
    Some(copy)
}

/// Where there are not numbers enough for one entry, there are not for all.
proof fn lemma_entry_beyond(
    objects: Map<(u32, u16), Value>,
    entries: Seq<(Seq<u8>, Value)>,
    p: Pdf,
    depth: nat,
    i: int,
)
    requires
        0 <= i < entries.len(),
        copied(
            objects,
            entries[i].1,
            copied_entries(objects, entries.take(i), p, depth).1,
            depth,
        ).1.last > u32::MAX,
    ensures
        copied_entries(objects, entries, p, depth).1.last > u32::MAX,
    decreases entries.len(),
{
    let less = entries.drop_last();
    if i == entries.len() - 1 {
        assert(less =~= entries.take(i));
    } else {
        assert(less.take(i) =~= entries.take(i));
        lemma_entry_beyond(objects, less, p, depth, i);
        let q = copied_entries(objects, less, p, depth).1;
        lemma_last_grows(objects, entries.last().1, q, depth);
    }
}

/// Where there are not numbers enough for one item, there are not for all.
proof fn lemma_item_beyond(
    objects: Map<(u32, u16), Value>,
    items: Seq<Value>,
    p: Pdf,
    depth: nat,
    i: int,
)
    requires
        0 <= i < items.len(),
        copied(objects, items[i], copied_items(objects, items.take(i), p, depth).1, depth).1.last
            > u32::MAX,
    ensures
        copied_items(objects, items, p, depth).1.last > u32::MAX,
    decreases items.len(),
{
    let less = items.drop_last();
    if i == items.len() - 1 {
        assert(less =~= items.take(i));
    } else {
        assert(less.take(i) =~= items.take(i));
        lemma_item_beyond(objects, less, p, depth, i);
        let q = copied_items(objects, less, p, depth).1;
        lemma_last_grows(objects, items.last(), q, depth);
    }
}

/// Copies an object and all objects that it refers to from `src` into
/// `out`, where there are numbers enough.
pub fn try_deep_copy(src: &lopdf::Document, object: &lopdf::Object, out: &mut lopdf::Document)
    -> (r: Option<lopdf::Object>)
    ensures
        match r {
            Some(c) => deep_copied(objects_in(*src), value_of(*object), pdf(*old(out))) == Some(
                (value_of(c), pdf(*final(out))),
            ),
            None => deep_copied(objects_in(*src), value_of(*object), pdf(*old(out))) is None,
        },
{
    let ghost objects = objects_in(*src);
    let ghost v = value_of(*object);
    let ids = ids_of(src);
    proof {
        seq_to_set_is_finite(ids@);
    }
    let mut path: Vec<(u32, u16)> = Vec::new();
    if ends_inside(src, object, &mut path) {
        let ghost depth = choose|depth: nat| unfolds(objects, v, depth);
        copy_inside(src, object, out, Ghost(depth))
    } else {
        copy_once(src, object, out)
    }
}

/// Copies an object and all objects that it refers to from `src` into
/// `out`.
pub fn deep_copy_object(src: &lopdf::Document, object: &lopdf::Object, out: &mut lopdf::Document)
    -> (r: lopdf::Object)
    requires
        deep_copied(objects_in(*src), value_of(*object), pdf(*old(out))) is Some,
    ensures
        deep_copied(objects_in(*src), value_of(*object), pdf(*old(out))) == Some(
            (value_of(r), pdf(*final(out))),
        ),
{
    match try_deep_copy(src, object, out) {
        Some(c) => c,
        None => object.clone(),
    }
}

} // verus!
