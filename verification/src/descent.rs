//! What the model does on one step from a node to one of its children.
use vstd::prelude::*;
use crate::bytes::{lcp, lemma_lcp, starts_with};
use crate::tree::{gap, slot, Tree};

verus! {

/// `slot` is the first position with the byte asked for.
pub proof fn lemma_slot<V>(ts: Seq<Tree<V>>, b: u8)
    ensures
        slot(ts, b) <= ts.len(),
        slot(ts, b) < ts.len() ==> ts[slot(ts, b) as int].label[0] == b,
        forall|i: int| 0 <= i < slot(ts, b) ==> (#[trigger] ts[i]).label[0] != b,
    decreases ts.len(),
{
    if ts.len() > 0 && ts[0].label[0] != b {
        let rest = ts.skip(1);
        lemma_slot(rest, b);
        assert forall|i: int| 0 <= i < slot(ts, b) implies (#[trigger] ts[i]).label[0] != b by {
            if i > 0 {
                assert(rest[i - 1] == ts[i]);
            }
        }
    }
}

/// Only `slot` has the properties that `lemma_slot` gives to it.
pub proof fn lemma_slot_unique<V>(ts: Seq<Tree<V>>, b: u8, n: nat)
    requires
        n <= ts.len(),
        n < ts.len() ==> ts[n as int].label[0] == b,
        forall|i: int| 0 <= i < n ==> (#[trigger] ts[i]).label[0] != b,
    ensures
        slot(ts, b) == n,
{
    lemma_slot(ts, b);
}

/// `gap` is the first position with the byte asked for or a greater one.
pub proof fn lemma_gap<V>(ts: Seq<Tree<V>>, b: u8)
    ensures
        gap(ts, b) <= ts.len(),
        gap(ts, b) < ts.len() ==> ts[gap(ts, b) as int].label[0] >= b,
        forall|i: int| 0 <= i < gap(ts, b) ==> (#[trigger] ts[i]).label[0] < b,
    decreases ts.len(),
{
    if ts.len() > 0 && ts[0].label[0] < b {
        let rest = ts.skip(1);
        lemma_gap(rest, b);
        assert forall|i: int| 0 <= i < gap(ts, b) implies (#[trigger] ts[i]).label[0] < b by {
            if i > 0 {
                assert(rest[i - 1] == ts[i]);
            }
        }
    }
}

/// Only `gap` has the properties that `lemma_gap` gives to it.
pub proof fn lemma_gap_unique<V>(ts: Seq<Tree<V>>, b: u8, n: nat)
    requires
        n <= ts.len(),
        n < ts.len() ==> ts[n as int].label[0] >= b,
        forall|i: int| 0 <= i < n ==> (#[trigger] ts[i]).label[0] < b,
    ensures
        gap(ts, b) == n,
{
    lemma_gap(ts, b);
}

/// A key that begins with a label has the whole label in common with it.
pub proof fn lemma_lcp_label(label: Seq<u8>, key: Seq<u8>)
    ensures
        starts_with(key, label) <==> lcp(label, key) == label.len(),
        starts_with(label, key) <==> lcp(label, key) == key.len(),
{
    lemma_lcp(label, key);
}

/// Below the label of the top, a key is a key of the child with its first byte.
pub proof fn lemma_step<V>(t: Tree<V>, rest: Seq<u8>)
    requires
        rest.len() > 0,
        slot(t.children, rest[0]) < t.children.len(),
    ensures
        ({
            let i = slot(t.children, rest[0]) as int;
            &&& t.find(t.label + rest) == t.children[i].find(rest)
            &&& t.spot(t.label + rest) == t.children[i].spot(rest)
            &&& t.has_room(t.label + rest) == t.children[i].has_room(rest)
            &&& t.cover(t.label + rest) == match t.children[i].cover(rest) {
                Some((path, node)) => Some((t.label + path, node)),
                None => None,
            }
            &&& forall|node: Tree<V>| #[trigger]
                t.graft(t.label + rest, node) == t.with_child(i, t.children[i].graft(rest, node))
        }),
{
    let key = t.label + rest;
    lemma_lcp_label(t.label, key);
    assert(key.skip(t.label.len() as int) =~= rest);
}

/// The label of the top is the key of the top.
pub proof fn lemma_here<V>(t: Tree<V>)
    ensures
        t.find(t.label) == Some(t),
        t.spot(t.label) == t,
        t.has_room(t.label),
        forall|node: Tree<V>| #[trigger] t.graft(t.label, node) == node,
{
    lemma_lcp_label(t.label, t.label);
}

/// A key splits into the label that it begins with and the rest.
pub proof fn lemma_rejoin(key: Seq<u8>, label: Seq<u8>)
    requires
        starts_with(key, label),
    ensures
        key == label + key.skip(label.len() as int),
{
}

/// Where a node ends, that node is the place for the key, and putting it there changes nothing.
pub proof fn lemma_found<V>(t: Tree<V>, key: Seq<u8>)
    requires
        t.find(key) is Some,
    ensures
        t.spot(key) == t.find(key)->0,
        t.graft(key, t.find(key)->0) == t,
        t.has_room(key),
    decreases t,
{
    let rest = key.skip(t.label.len() as int);
    lemma_rejoin(key, t.label);
    if rest.len() == 0 {
        lemma_here(t);
    } else {
        let i = slot(t.children, rest[0]) as int;
        lemma_step(t, rest);
        lemma_found(t.children[i], rest);
        assert(t.children.update(i, t.children[i]) =~= t.children);
    }
}

/// The path that `cover` gives begins with the key and leads to the node that it gives.
pub proof fn lemma_cover<V>(t: Tree<V>, key: Seq<u8>)
    requires
        t.cover(key) is Some,
    ensures
        starts_with((t.cover(key)->0).0, key),
        starts_with((t.cover(key)->0).0, t.label),
        t.find((t.cover(key)->0).0) == Some((t.cover(key)->0).1),
    decreases t,
{
    if !starts_with(t.label, key) {
        let rest = key.skip(t.label.len() as int);
        let i = slot(t.children, rest[0]) as int;
        lemma_cover(t.children[i], rest);
        let path = (t.children[i].cover(rest)->0).0;
        lemma_step(t, path);
    }
}

} // verus!
