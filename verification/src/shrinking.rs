//! What taking values and branches out of a tree keeps, and what it changes.
use vstd::prelude::*;
use crate::bytes::starts_with;
use crate::descent::{lemma_rejoin, lemma_slot, lemma_slot_unique, lemma_step};
use crate::tree::{slot, Tree, MAX_LABEL_LEN};

verus! {

/// Keys see of a label only that it is there: with another one in front of the same value and
/// children, what follows it leads to the same values.
pub proof fn lemma_lookup_relabel<V>(a: Tree<V>, b: Tree<V>, x: Seq<u8>, y: Seq<u8>, q: Seq<u8>)
    requires
        a.value == b.value,
        a.children == b.children,
        starts_with(a.label, x),
        starts_with(b.label, y),
        a.label.skip(x.len() as int) == b.label.skip(y.len() as int),
    ensures
        a.lookup(x + q) == b.lookup(y + q),
{
    let tail = a.label.skip(x.len() as int);
    if starts_with(q, tail) {
        assert((x + q).skip(a.label.len() as int) =~= q.skip(tail.len() as int));
        assert((y + q).skip(b.label.len() as int) =~= q.skip(tail.len() as int));
    }
}

/// Children in ascending order have no first byte twice.
pub proof fn lemma_ordered_distinct<V>(t: Tree<V>)
    requires
        t.ordered(),
    ensures
        t.distinct(),
    decreases t,
{
    assert forall|i: int| 0 <= i < t.children.len() implies (
    #[trigger] t.children[i]).distinct() by {
        lemma_ordered_distinct(t.children[i]);
    }
}

/// A child that shares its first byte with no other is found by it.
pub proof fn lemma_slot_distinct<V>(t: Tree<V>, i: int)
    requires
        t.distinct(),
        0 <= i < t.children.len(),
    ensures
        slot(t.children, t.children[i].label[0]) == i,
{
    lemma_slot_unique(t.children, t.children[i].label[0], i as nat);
}

/// Drawing an only child into its parent keeps the tree well-formed and every value in its place.
pub proof fn lemma_merged<V>(t: Tree<V>, room: int)
    requires
        t.fits(room),
    ensures
        t.merged().fits(room),
        t.ordered() ==> t.merged().ordered(),
        t.distinct() ==> t.merged().distinct(),
        starts_with(t.merged().label, t.label),
        forall|q: Seq<u8>| #[trigger] t.merged().lookup(q) == t.lookup(q),
{
    let m = t.merged();
    if m != t {
        let child = t.children[0];
        assert(child.fits(room - t.label.len()));
        assert(t.ordered() ==> child.ordered());
        assert(t.distinct() ==> child.distinct());
        assert(m.label.skip(t.label.len() as int) =~= child.label);
        assert(child.label.skip(0) =~= child.label);
        assert forall|q: Seq<u8>| #[trigger] m.lookup(q) == t.lookup(q) by {
            if starts_with(q, t.label) {
                let rest = q.skip(t.label.len() as int);
                lemma_rejoin(q, t.label);
                lemma_lookup_relabel(m, child, t.label, Seq::empty(), rest);
            }
        }
    }
}

/// Without the branch for a first byte no key with that byte leads anywhere, and the other keys
/// lead where they did.
pub proof fn lemma_lookup_without_child<V>(t: Tree<V>, i: int, q: Seq<u8>)
    requires
        t.distinct(),
        0 <= i < t.children.len(),
    ensures
        t.without_child(i).lookup(t.label + q) == if q.len() > 0 && q[0]
            == t.children[i].label[0] {
            None
        } else {
            t.lookup(t.label + q)
        },
{
    let w = t.without_child(i);
    if q.len() > 0 {
        let s = slot(t.children, q[0]) as int;
        lemma_slot(t.children, q[0]);
        let place = if s == i {
            w.children.len() as int
        } else if s < i {
            s
        } else {
            s - 1
        };
        lemma_slot_unique(w.children, q[0], place as nat);
    }
}

/// With the branch for a first byte exchanged, keys with that byte lead where they lead in the new
/// branch, and the other keys where they did.
pub proof fn lemma_lookup_with_child<V>(t: Tree<V>, i: int, child: Tree<V>, q: Seq<u8>)
    requires
        t.distinct(),
        0 <= i < t.children.len(),
        child.label[0] == t.children[i].label[0],
    ensures
        t.with_child(i, child).lookup(t.label + q) == if q.len() > 0 && q[0] == child.label[0] {
            child.lookup(q)
        } else {
            t.lookup(t.label + q)
        },
{
    let w = t.with_child(i, child);
    let key = t.label + q;
    assert(key.skip(t.label.len() as int) =~= q);
    if q.len() > 0 {
        let s = slot(t.children, q[0]) as int;
        lemma_slot(t.children, q[0]);
        lemma_slot_unique(w.children, q[0], s as nat);
    }
}

/// Taking a value out keeps the tree well-formed, and its label.
pub proof fn lemma_prune<V>(t: Tree<V>, rest: Seq<u8>, room: int)
    requires
        t.fits(room),
    ensures
        t.prune(rest).fits(room),
        t.prune(rest).label == t.label,
        t.ordered() ==> t.prune(rest).ordered(),
        t.distinct() ==> t.prune(rest).distinct(),
    decreases t,
{
    if rest.len() > 0 {
        let i = slot(t.children, rest[0]) as int;
        if i < t.children.len() && starts_with(rest, t.children[i].label) {
            let child = t.children[i];
            let tail = rest.skip(child.label.len() as int);
            if tail.len() > 0 || child.children.len() > 0 {
                lemma_prune(child, tail, room - t.label.len());
                lemma_merged(child.prune(tail), room - t.label.len());
            }
        }
    }
}

/// Taking the value at a key out leaves every other value in its place.
pub proof fn lemma_lookup_prune<V>(t: Tree<V>, rest: Seq<u8>, q: Seq<u8>, room: int)
    requires
        t.fits(room),
        t.distinct(),
    ensures
        t.prune(rest).lookup(t.label + q) == if q == rest {
            None
        } else {
            t.lookup(t.label + q)
        },
    decreases t,
{
    let i = slot(t.children, rest[0]) as int;
    if rest.len() == 0 {
        if q.len() == 0 {
            assert(q =~= rest);
        }
    } else if i < t.children.len() && !starts_with(rest, t.children[i].label) {
        lemma_step(t, rest);
    } else if i < t.children.len() {
        let child = t.children[i];
        let tail = rest.skip(child.label.len() as int);
        let inner = q.skip(child.label.len() as int);
        let same = q.len() > 0 && q[0] == rest[0];
        lemma_rejoin(rest, child.label);
        if same {
            lemma_step(t, q);
            if starts_with(q, child.label) {
                lemma_rejoin(q, child.label);
            }
        }
        if tail.len() == 0 && child.children.len() == 0 {
            lemma_lookup_without_child(t, i, q);
        } else {
            let below = child.prune(tail);
            lemma_prune(child, tail, room - t.label.len());
            lemma_merged(below, room - t.label.len());
            lemma_lookup_with_child(t, i, below.merged(), q);
            if same && starts_with(q, child.label) {
                lemma_lookup_prune(child, tail, inner, room - t.label.len());
            }
        }
    }
}

/// [`lemma_lookup_prune`] for all keys at once.
pub proof fn lemma_entries_remove<V>(t: Tree<V>, key: Seq<u8>)
    requires
        t.valid(),
        t.distinct(),
    ensures
        t.remove(key).entries() == t.entries().remove(key),
{
    let r = t.remove(key);
    let rest = key.skip(t.label.len() as int);
    assert forall|q: Seq<u8>| #[trigger]
        r.lookup(q) == if q == key {
            None
        } else {
            t.lookup(q)
        } by {
        if starts_with(key, t.label) {
            lemma_rejoin(key, t.label);
            if starts_with(q, t.label) {
                lemma_rejoin(q, t.label);
                lemma_lookup_prune(t, rest, q.skip(t.label.len() as int), usize::MAX as int);
            }
        }
    }
}

/// What [`Tree::detach`] gives is well-formed, as long as the label of the part that goes fits.
pub proof fn lemma_detach<V>(t: Tree<V>, i: int, rest: Seq<u8>, key: Seq<u8>, room: int)
    requires
        t.fits(room),
        0 <= i < t.children.len(),
        room <= usize::MAX,
        rest.len() <= t.children[i].label.len(),
        key.len() == usize::MAX - room + t.label.len() + rest.len(),
        t.detach(i, rest, key).0.label.len() <= MAX_LABEL_LEN,
    ensures
        t.detach(i, rest, key).0.valid(),
        t.detach(i, rest, key).1.fits(room),
        starts_with(t.detach(i, rest, key).1.label, t.label),
        t.ordered() ==> t.detach(i, rest, key).0.ordered() && t.detach(i, rest, key).1.ordered(),
        t.distinct() ==> t.detach(i, rest, key).0.distinct() && t.detach(
            i,
            rest,
            key,
        ).1.distinct(),
{
    let child = t.children[i];
    assert(child.fits(room - t.label.len()));
    assert(t.ordered() ==> child.ordered());
    assert(t.distinct() ==> child.distinct());
    lemma_merged(t.without_child(i), room);
}

/// What [`Tree::split_below`] gives is well-formed, as long as the label of the part that goes
/// fits.
pub proof fn lemma_split_below<V>(t: Tree<V>, rest: Seq<u8>, key: Seq<u8>, room: int)
    requires
        t.fits(room),
        room <= usize::MAX,
        rest.len() > 0,
        key.len() == usize::MAX - room + t.label.len() + rest.len(),
        t.split_below(rest, key).0 matches Some(part) ==> part.label.len() <= MAX_LABEL_LEN,
    ensures
        t.split_below(rest, key).0 matches Some(part) ==> part.valid(),
        t.split_below(rest, key).1.fits(room),
        starts_with(t.split_below(rest, key).1.label, t.label),
        t.ordered() ==> {
            &&& t.split_below(rest, key).0 matches Some(part) ==> part.ordered()
            &&& t.split_below(rest, key).1.ordered()
        },
        t.distinct() ==> {
            &&& t.split_below(rest, key).0 matches Some(part) ==> part.distinct()
            &&& t.split_below(rest, key).1.distinct()
        },
    decreases t,
{
    let i = slot(t.children, rest[0]) as int;
    if i < t.children.len() {
        let child = t.children[i];
        if starts_with(child.label, rest) {
            lemma_detach(t, i, rest, key, room);
        } else if starts_with(rest, child.label) {
            let inner = rest.skip(child.label.len() as int);
            lemma_split_below(child, inner, key, room - t.label.len());
        }
    }
}

/// What [`Tree::split`] gives is well-formed, as long as the label of the part that goes fits.
pub proof fn lemma_split<V>(t: Tree<V>, key: Seq<u8>)
    requires
        t.valid(),
        t.split(key).0 matches Some(part) ==> part.label.len() <= MAX_LABEL_LEN,
    ensures
        t.split(key).0 matches Some(part) ==> part.valid(),
        t.split(key).1.valid(),
        t.ordered() ==> {
            &&& t.split(key).0 matches Some(part) ==> part.ordered()
            &&& t.split(key).1.ordered()
        },
        t.distinct() ==> {
            &&& t.split(key).0 matches Some(part) ==> part.distinct()
            &&& t.split(key).1.distinct()
        },
{
    if starts_with(key, t.label) && key.len() > t.label.len() {
        lemma_split_below(t, key.skip(t.label.len() as int), key, usize::MAX as int);
    }
}

/// Below the label of the top, a split parts the keys that begin with `rest` from the others: the
/// former lead, behind `key`, to the same values in the part that goes, the latter to the same
/// values in what stays.
pub proof fn lemma_lookup_split_below<V>(
    t: Tree<V>,
    rest: Seq<u8>,
    key: Seq<u8>,
    q: Seq<u8>,
    room: int,
)
    requires
        t.fits(room),
        t.distinct(),
        rest.len() > 0,
    ensures
        ({
            let (part, left) = t.split_below(rest, key);
            &&& left.lookup(t.label + q) == if starts_with(q, rest) {
                None
            } else {
                t.lookup(t.label + q)
            }
            &&& starts_with(left.label, t.label)
            &&& part is Some <==> t.cover(t.label + rest) is Some
            &&& match part {
                Some(part) => {
                    &&& starts_with(part.label, key)
                    &&& part.lookup(key + q) == t.lookup(t.label + (rest + q))
                },
                None => left == t && t.lookup(t.label + (rest + q)) is None,
            }
        }),
    decreases t,
{
    let i = slot(t.children, rest[0]) as int;
    let same = q.len() > 0 && q[0] == rest[0];
    if i < t.children.len() {
        let child = t.children[i];
        lemma_step(t, rest);
        lemma_step(t, rest + q);
        if same {
            lemma_step(t, q);
        }
        if starts_with(child.label, rest) {
            lemma_lookup_without_child(t, i, q);
            lemma_merged(t.without_child(i), room);
            let part = t.split_below(rest, key).0->0;
            let tail = child.label.skip(rest.len() as int);
            assert(part.label.skip(key.len() as int) =~= tail);
            lemma_lookup_relabel(part, child, key, rest, q);
        } else if starts_with(rest, child.label) {
            let inner = rest.skip(child.label.len() as int);
            let inner_q = q.skip(child.label.len() as int);
            let left = child.split_below(inner, key).1;
            lemma_rejoin(rest, child.label);
            lemma_lookup_split_below(child, inner, key, q, room - t.label.len());
            assert(rest + q =~= child.label + (inner + q));
            lemma_lookup_with_child(t, i, left, q);
            assert(t.children.update(i, child) =~= t.children);
            if same && starts_with(q, child.label) {
                lemma_lookup_split_below(child, inner, key, inner_q, room - t.label.len());
                lemma_rejoin(q, child.label);
            }
        }
    }
}

} // verus!
