//! How what a tree holds determines the tree.
use vstd::prelude::*;
use crate::bytes::starts_with;
use crate::descent::{lemma_here, lemma_slot, lemma_step};
use crate::shrinking::{lemma_ordered_distinct, lemma_slot_distinct};
use crate::tree::{slot, Tree};

verus! {

/// The first bytes of the children of `t`.
spec fn firsts<V>(t: Tree<V>) -> Seq<u8> {
    Seq::new(t.children.len(), |i: int| t.children[i].label[0])
}

/// Whether two trees hold the same values at the same keys.
spec fn agree<V>(a: Tree<V>, b: Tree<V>) -> bool {
    forall|q: Seq<u8>| #[trigger] a.lookup(q) == b.lookup(q)
}

/// Below a needed node there is a value, or at it.
proof fn lemma_inhabited<V>(t: Tree<V>) -> (key: Seq<u8>)
    requires
        t.bounded(),
        t.distinct(),
        t.compact(),
        t.needed(),
    ensures
        starts_with(key, t.label),
        t.lookup(key) is Some,
{
    if t.value is Some {
        lemma_here(t);
        t.label
    } else {
        lemma_inhabited_child(t, 0)
    }
}

/// Below every child of a tree without needless nodes there is a value.
proof fn lemma_inhabited_child<V>(t: Tree<V>, i: int) -> (key: Seq<u8>)
    requires
        t.bounded(),
        t.distinct(),
        t.compact(),
        0 <= i < t.children.len(),
    ensures
        starts_with(key, t.label),
        key.len() > t.label.len(),
        key[t.label.len() as int] == t.children[i].label[0],
        t.lookup(key) is Some,
    decreases t,
{
    let room = choose|room: int| #[trigger] t.fits(room);
    let child = t.children[i];
    assert(child.fits(room - t.label.len()));
    assert(child.needed() && child.compact());
    let rest = if child.value is Some {
        lemma_here(child);
        child.label
    } else {
        lemma_inhabited_child(child, 0)
    };
    assert(rest[0] == child.label[0]);
    lemma_slot_distinct(t, i);
    lemma_step(t, rest);
    t.label + rest
}

/// Two strictly ascending rows of the same bytes are the same row.
proof fn lemma_ascending_unique(x: Seq<u8>, y: Seq<u8>)
    requires
        forall|i: int, j: int| 0 <= i < j < x.len() ==> x[i] < x[j],
        forall|i: int, j: int| 0 <= i < j < y.len() ==> y[i] < y[j],
        forall|b: u8| #[trigger] x.contains(b) <==> y.contains(b),
    ensures
        x == y,
    decreases x.len(),
{
    if x.len() == 0 {
        if y.len() > 0 {
            assert(y.contains(y[0]));
            assert(x.contains(y[0]));
        }
    } else {
        assert(x.contains(x.last()));
        assert(y.len() > 0);
        assert(y.contains(y.last()));
        assert(x.contains(y.last()));
        assert(x.last() == y.last());
        let p = x.drop_last();
        let q = y.drop_last();
        assert forall|b: u8| #[trigger] p.contains(b) <==> q.contains(b) by {
            if p.contains(b) {
                let i = choose|i: int| 0 <= i < p.len() && p[i] == b;
                assert(x[i] == b);
                assert(x.contains(b));
                let j = choose|j: int| 0 <= j < y.len() && y[j] == b;
                assert(q[j] == b);
            }
            if q.contains(b) {
                let i = choose|i: int| 0 <= i < q.len() && q[i] == b;
                assert(y[i] == b);
                assert(x.contains(b));
                let j = choose|j: int| 0 <= j < x.len() && x[j] == b;
                assert(p[j] == b);
            }
        }
        lemma_ascending_unique(p, q);
        assert(x =~= p.push(x.last()));
        assert(y =~= q.push(y.last()));
    }
}

/// Trees with the same label that hold the same have children with the same first bytes.
proof fn lemma_same_firsts<V>(a: Tree<V>, b: Tree<V>, c: u8)
    requires
        a.bounded(),
        a.distinct(),
        a.compact(),
        a.label == b.label,
        agree(a, b),
        firsts(a).contains(c),
    ensures
        firsts(b).contains(c),
{
    let i = choose|i: int| 0 <= i < firsts(a).len() && firsts(a)[i] == c;
    let key = lemma_inhabited_child(a, i);
    assert(b.lookup(key) is Some);
    let rest = key.skip(b.label.len() as int);
    let j = slot(b.children, rest[0]) as int;
    lemma_slot(b.children, rest[0]);
    assert(firsts(b)[j] == c);
}

/// The label of a needed node is no longer than that of one that holds the same.
proof fn lemma_label_no_longer<V>(a: Tree<V>, b: Tree<V>)
    requires
        a.bounded(),
        a.distinct(),
        a.compact(),
        a.needed(),
        agree(a, b),
    ensures
        b.label.len() <= a.label.len(),
{
    if a.value is Some {
        lemma_here(a);
        assert(a.lookup(a.label) is Some);
    } else {
        let x = lemma_inhabited_child(a, 0);
        let y = lemma_inhabited_child(a, 1);
        assert(b.lookup(x) is Some);
        assert(b.lookup(y) is Some);
        assert(a.children[0].label[0] != a.children[1].label[0]);
        let n = a.label.len() as int;
        if n < b.label.len() {
            assert(x[n] == b.label[n] && y[n] == b.label[n]);
        }
    }
}

/// A tree without needless nodes whose children stand in order is determined by its label and by
/// what it holds.
pub proof fn lemma_unique<V>(a: Tree<V>, b: Tree<V>)
    requires
        a.bounded(),
        b.bounded(),
        a.ordered(),
        b.ordered(),
        a.compact(),
        b.compact(),
        a.label == b.label,
        forall|q: Seq<u8>| #[trigger] a.lookup(q) == b.lookup(q),
    ensures
        a == b,
    decreases a,
{
    let room_a = choose|room: int| #[trigger] a.fits(room);
    let room_b = choose|room: int| #[trigger] b.fits(room);
    lemma_ordered_distinct(a);
    lemma_ordered_distinct(b);
    lemma_here(a);
    lemma_here(b);
    assert(a.lookup(a.label) == b.lookup(a.label));
    assert(a.value == b.value);
    assert forall|c: u8| #[trigger] firsts(a).contains(c) <==> firsts(b).contains(c) by {
        if firsts(a).contains(c) {
            lemma_same_firsts(a, b, c);
        }
        if firsts(b).contains(c) {
            lemma_same_firsts(b, a, c);
        }
    }
    lemma_ascending_unique(firsts(a), firsts(b));
    assert(a.children.len() == firsts(a).len() && b.children.len() == firsts(b).len());
    assert forall|i: int| 0 <= i < a.children.len() implies #[trigger] a.children[i]
        == b.children[i] by {
        let x = a.children[i];
        let y = b.children[i];
        assert(x.fits(room_a - a.label.len()));
        assert(y.fits(room_b - b.label.len()));
        assert(x.needed() && x.compact() && x.ordered());
        assert(y.needed() && y.compact() && y.ordered());
        assert(firsts(a)[i] == firsts(b)[i]);
        let c = x.label[0];
        assert(y.label[0] == c);
        lemma_slot_distinct(a, i);
        lemma_slot_distinct(b, i);
        assert forall|q: Seq<u8>| #[trigger] x.lookup(q) == y.lookup(q) by {
            if q.len() > 0 && q[0] == c {
                lemma_step(a, q);
                lemma_step(b, q);
                assert(a.lookup(a.label + q) == b.lookup(b.label + q));
            }
        }
        lemma_label_no_longer(x, y);
        lemma_label_no_longer(y, x);
        let key = lemma_inhabited(x);
        assert(y.lookup(key) is Some);
        assert(x.label =~= y.label);
        lemma_unique(x, y);
    }
    assert(a.children =~= b.children);
}

} // verus!
