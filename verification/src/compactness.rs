//! How trees stay free of nodes that nothing needs.
use vstd::prelude::*;
use crate::bytes::{lcp, lemma_lcp, starts_with};
use crate::descent::{lemma_gap, lemma_lcp_label};
use crate::growth::{lemma_fits_wider, lemma_graft, lemma_lookup_graft, lemma_spot_fits};
use crate::shrinking::lemma_prune;
use crate::tree::{slot, Tree, MAX_LABEL_LEN};

verus! {

/// With a short key and a needed node for it, a tree has no more nodes that nothing needs than
/// before.
pub proof fn lemma_compact_graft<V>(t: Tree<V>, key: Seq<u8>, value: V)
    requires
        t.compact(),
        t.needed() || starts_with(key, t.label),
        key.len() <= MAX_LABEL_LEN,
    ensures
        t.insert(key, value).compact(),
        t.needed() ==> t.insert(key, value).needed(),
    decreases t,
{
    let node = t.spot(key).with_value(Some(value));
    let n = lcp(t.label, key) as int;
    let out = t.graft(key, node);
    lemma_lcp(t.label, key);
    if n < t.label.len() {
        assert forall|i: int| 0 <= i < out.children.len() implies (
        #[trigger] out.children[i]).needed() && out.children[i].compact() by {}
    } else if n < key.len() {
        let rest = key.skip(n);
        let i = slot(t.children, rest[0]) as int;
        if i < t.children.len() {
            lemma_compact_graft(t.children[i], rest, value);
        } else {
            lemma_gap(t.children, rest[0]);
            assert forall|j: int| 0 <= j < out.children.len() implies (
            #[trigger] out.children[j]).needed() && out.children[j].compact() by {}
        }
    }
}

/// Drawing an only child into a node leaves one that is needed, unless there was nothing to draw
/// in.
proof fn lemma_compact_merged<V>(t: Tree<V>)
    requires
        t.compact(),
        t.value is Some || t.children.len() > 0,
        t.fits(MAX_LABEL_LEN as int),
    ensures
        t.merged().compact(),
        t.merged().needed(),
{
    if t.value is None && t.children.len() == 1 {
        let child = t.children[0];
        assert(child.fits(MAX_LABEL_LEN - t.label.len()));
        assert(child.needed() && child.compact());
    }
}

/// Taking a value out of a tree of short keys leaves no node that nothing needs.
pub proof fn lemma_compact_prune<V>(t: Tree<V>, rest: Seq<u8>, room: int)
    requires
        t.fits(room),
        room <= MAX_LABEL_LEN,
        t.compact(),
    ensures
        t.prune(rest).compact(),
        t.prune(rest).children.len() >= t.children.len() - 1,
        rest.len() == 0 ==> t.prune(rest).children == t.children,
        rest.len() > 0 ==> t.prune(rest).value == t.value,
    decreases t,
{
    if rest.len() > 0 {
        let i = slot(t.children, rest[0]) as int;
        if i < t.children.len() && starts_with(rest, t.children[i].label) {
            let child = t.children[i];
            let tail = rest.skip(child.label.len() as int);
            if tail.len() > 0 || child.children.len() > 0 {
                let below = child.prune(tail);
                lemma_compact_prune(child, tail, room - t.label.len());
                lemma_prune(child, tail, room - t.label.len());
                lemma_fits_wider(below, room - t.label.len(), MAX_LABEL_LEN as int);
                lemma_compact_merged(below);
            }
        }
    }
}

/// Inserting a key that fits into one label keeps a tree tidy, and its label if the key begins
/// with it.
pub proof fn lemma_tidy_insert<V>(t: Tree<V>, key: Seq<u8>, value: V)
    requires
        t.tidy(),
        t.has_room(key),
        t.needed() || starts_with(key, t.label),
        key.len() <= MAX_LABEL_LEN,
    ensures
        t.insert(key, value).tidy(),
        starts_with(key, t.label) ==> t.insert(key, value).label == t.label,
{
    let room = MAX_LABEL_LEN as int;
    let node = t.spot(key).with_value(Some(value));
    lemma_spot_fits(t, key, room);
    lemma_graft(t, key, node, room);
    lemma_compact_graft(t, key, value);
    lemma_lcp_label(t.label, key);
}

/// Removing keeps a tree tidy, and its label.
pub proof fn lemma_tidy_remove<V>(t: Tree<V>, key: Seq<u8>)
    requires
        t.tidy(),
    ensures
        t.remove(key).tidy(),
        t.remove(key).label == t.label,
{
    let rest = key.skip(t.label.len() as int);
    lemma_compact_prune(t, rest, MAX_LABEL_LEN as int);
    lemma_prune(t, rest, MAX_LABEL_LEN as int);
}

/// Pairs that can be inserted without the last one.
proof fn lemma_buildable_front<V>(pairs: Seq<(Seq<u8>, V)>)
    requires
        Tree::buildable(pairs),
        pairs.len() > 0,
    ensures
        Tree::buildable(pairs.drop_last()),
        Tree::built(pairs.drop_last()).has_room(pairs.last().0),
{
    let front = pairs.drop_last();
    assert forall|i: int| 0 <= i < front.len() implies Tree::built(front.take(i)).has_room(
        (#[trigger] front[i]).0,
    ) by {
        assert(pairs[i] == front[i]);
        assert(front.take(i) =~= pairs.take(i));
    }
    assert(pairs.take(pairs.len() - 1) =~= front);
    assert(Tree::built(pairs.take(pairs.len() - 1)).has_room(pairs[pairs.len() - 1].0));
}

/// A tree that is built from keys that fit into one label is tidy.
pub proof fn lemma_built<V>(pairs: Seq<(Seq<u8>, V)>)
    requires
        Tree::buildable(pairs),
        forall|i: int| 0 <= i < pairs.len() ==> (#[trigger] pairs[i]).0.len() <= MAX_LABEL_LEN,
    ensures
        Tree::built(pairs).tidy(),
        Tree::built(pairs).label == Seq::<u8>::empty(),
    decreases pairs.len(),
{
    if pairs.len() > 0 {
        let front = pairs.drop_last();
        lemma_buildable_front(pairs);
        lemma_built(front);
        lemma_tidy_insert(Tree::built(front), pairs.last().0, pairs.last().1);
    }
}

/// A tree that is built from pairs with different keys holds these pairs and no others.
pub proof fn lemma_built_lookup<V>(pairs: Seq<(Seq<u8>, V)>, q: Seq<u8>, v: V)
    requires
        Tree::buildable(pairs),
        forall|i: int| 0 <= i < pairs.len() ==> (#[trigger] pairs[i]).0.len() <= MAX_LABEL_LEN,
        forall|i: int, j: int|
            0 <= i < j < pairs.len() ==> (#[trigger] pairs[i]).0 != (#[trigger] pairs[j]).0,
    ensures
        Tree::built(pairs).lookup(q) == Some(v) <==> pairs.contains((q, v)),
    decreases pairs.len(),
{
    if pairs.len() > 0 {
        let n = pairs.len() - 1;
        let front = pairs.drop_last();
        let (key, value) = pairs.last();
        let below = Tree::built(front);
        lemma_buildable_front(pairs);
        lemma_built(front);
        lemma_built_lookup(front, q, v);
        lemma_lookup_graft(
            below,
            key,
            below.spot(key).with_value(Some(value)),
            q,
            MAX_LABEL_LEN as int,
        );
        if pairs.contains((q, v)) {
            let i = choose|i: int| 0 <= i < pairs.len() && pairs[i] == (q, v);
            if i < n {
                assert(front[i] == (q, v));
                assert(pairs[i].0 != pairs[n].0);
            }
        }
        if q == key && v == value {
            assert(pairs[n] == (q, v));
        }
        if front.contains((q, v)) {
            let i = choose|i: int| 0 <= i < front.len() && front[i] == (q, v);
            assert(pairs[i] == (q, v));
        }
    }
}

} // verus!
