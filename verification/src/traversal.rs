//! The orders in which the nodes of a tree are visited.
use vstd::prelude::*;
use crate::bytes::starts_with;
use crate::tree::Tree;

verus! {

/// The nodes of `t` in depth first order, each before what is below it, with their levels; the top
/// is on `level`.
pub open spec fn preorder<V>(t: Tree<V>, level: nat) -> Seq<(nat, Tree<V>)>
    decreases t,
{
    seq![(level, t)] + preorder_all(t.children, level + 1)
}

/// The nodes of `ts` in depth first order, one tree after the other.
pub open spec fn preorder_all<V>(ts: Seq<Tree<V>>, level: nat) -> Seq<(nat, Tree<V>)>
    decreases ts,
{
    if ts.len() == 0 {
        Seq::empty()
    } else {
        preorder(ts[0], level) + preorder_all(ts.drop_first(), level)
    }
}

/// The nodes of the trees on a stack in depth first order, beginning with the tree on its top.
pub open spec fn unwound<V>(stack: Seq<(nat, Tree<V>)>) -> Seq<(nat, Tree<V>)>
    decreases stack.len(),
{
    if stack.len() == 0 {
        Seq::empty()
    } else {
        preorder(stack.last().1, stack.last().0) + unwound(stack.drop_last())
    }
}

/// The nodes of `t` in depth first order with their keys; `above` is the key up to the label of
/// the top.
pub open spec fn walk<V>(t: Tree<V>, above: Seq<u8>) -> Seq<(Seq<u8>, Tree<V>)>
    decreases t,
{
    seq![(above + t.label, t)] + walk_all(t.children, above + t.label)
}

/// The nodes of `ts` in depth first order with their keys, one tree after the other.
pub open spec fn walk_all<V>(ts: Seq<Tree<V>>, above: Seq<u8>) -> Seq<(Seq<u8>, Tree<V>)>
    decreases ts,
{
    if ts.len() == 0 {
        Seq::empty()
    } else {
        walk(ts[0], above) + walk_all(ts.drop_first(), above)
    }
}

/// The nodes of the trees on a stack in depth first order with their keys, beginning with the tree
/// on its top.
pub open spec fn walked<V>(stack: Seq<(Seq<u8>, Tree<V>)>) -> Seq<(Seq<u8>, Tree<V>)>
    decreases stack.len(),
{
    if stack.len() == 0 {
        Seq::empty()
    } else {
        walk(stack.last().1, stack.last().0) + walked(stack.drop_last())
    }
}

/// `ts` with the level that they are on.
pub open spec fn row<V>(ts: Seq<Tree<V>>, level: nat) -> Seq<(nat, Tree<V>)> {
    Seq::new(ts.len(), |i: int| (level, ts[i]))
}

/// The children of all the nodes in a queue, in order, one level further down.
pub open spec fn offspring<V>(queue: Seq<(nat, Tree<V>)>) -> Seq<(nat, Tree<V>)>
    decreases queue.len(),
{
    if queue.len() == 0 {
        Seq::empty()
    } else {
        row(queue[0].1.children, queue[0].0 + 1) + offspring(queue.drop_first())
    }
}

/// The nodes of the trees in a queue in breadth first order: first the queue itself, then all that
/// is one level further down, and so on.
pub open spec fn breadth_first<V>(queue: Seq<(nat, Tree<V>)>) -> Seq<(nat, Tree<V>)>
    decreases weight(queue),
{
    if queue.len() == 0 {
        Seq::empty()
    } else {
        proof {
            lemma_offspring_weight(queue);
        }
        queue + breadth_first(offspring(queue))
    }
}

/// The number of nodes in the trees of a queue.
pub open spec fn weight<V>(queue: Seq<(nat, Tree<V>)>) -> nat
    decreases queue.len(),
{
    if queue.len() == 0 {
        0
    } else {
        preorder(queue[0].1, 0).len() + weight(queue.drop_first())
    }
}

/// Whether a node of a listing is on level `k`.
pub open spec fn at_level<V>(k: nat) -> spec_fn((nat, Tree<V>)) -> bool {
    |item: (nat, Tree<V>)| item.0 == k
}

/// The nodes of a listing that are on level `k`, in the order of the listing.
pub open spec fn on_level<V>(listing: Seq<(nat, Tree<V>)>, k: nat) -> Seq<(nat, Tree<V>)> {
    listing.filter(at_level(k))
}

/// Whether a tree on `level` goes down to a level that a machine can count to.
pub open spec fn countable<V>(level: int, t: Tree<V>) -> bool {
    exists|room: int| #[trigger] t.fits(room) && level + room - t.label.len() <= usize::MAX
}

/// [`weight`] adds up over two queues in a row.
pub proof fn lemma_weight_add<V>(a: Seq<(nat, Tree<V>)>, b: Seq<(nat, Tree<V>)>)
    ensures
        weight(a + b) == weight(a) + weight(b),
    decreases a.len(),
{
    if a.len() > 0 {
        assert((a + b).drop_first() =~= a.drop_first() + b);
        lemma_weight_add(a.drop_first(), b);
    }
}

/// The number of nodes in a row of trees, whatever level they are counted from.
pub proof fn lemma_weight_row<V>(ts: Seq<Tree<V>>, level: nat, other: nat)
    ensures
        weight(row(ts, level)) == preorder_all(ts, other).len(),
    decreases ts, 0int,
{
    if ts.len() > 0 {
        assert(row(ts, level).drop_first() =~= row(ts.drop_first(), level));
        lemma_weight_row(ts.drop_first(), level, other);
        lemma_preorder_len(ts[0], other);
    }
}

/// The number of nodes in a tree does not depend on the level that its top is on.
pub proof fn lemma_preorder_len<V>(t: Tree<V>, level: nat)
    ensures
        preorder(t, level).len() == preorder(t, 0).len(),
        preorder(t, level).len() == 1 + weight(row(t.children, level + 1)),
    decreases t, 1int,
{
    lemma_weight_row(t.children, level + 1, level + 1);
    lemma_weight_row(t.children, level + 1, 1);
}

/// Below the nodes of a queue there are as many nodes as the trees have, without those of the
/// queue.
pub proof fn lemma_offspring_weight<V>(queue: Seq<(nat, Tree<V>)>)
    ensures
        weight(offspring(queue)) + queue.len() == weight(queue),
    decreases queue.len(),
{
    if queue.len() > 0 {
        let (level, t) = queue[0];
        lemma_offspring_weight(queue.drop_first());
        lemma_weight_add(row(t.children, level + 1), offspring(queue.drop_first()));
        lemma_weight_row(t.children, level + 1, 1);
    }
}

/// [`offspring`] adds up over two queues in a row.
pub proof fn lemma_offspring_add<V>(a: Seq<(nat, Tree<V>)>, b: Seq<(nat, Tree<V>)>)
    ensures
        offspring(a + b) == offspring(a) + offspring(b),
    decreases a.len(),
{
    if a.len() > 0 {
        assert((a + b).drop_first() =~= a.drop_first() + b);
        lemma_offspring_add(a.drop_first(), b);
    }
}

/// To visit the front of a queue first and to add what is below it at the end does not change the
/// order.
pub proof fn lemma_breadth_first_rotate<V>(a: Seq<(nat, Tree<V>)>, b: Seq<(nat, Tree<V>)>)
    ensures
        breadth_first(a + b) == a + breadth_first(b + offspring(a)),
    decreases weight(a + b),
{
    if a.len() > 0 {
        let x = offspring(a);
        let y = offspring(b);
        lemma_offspring_add(a, b);
        lemma_offspring_weight(a + b);
        lemma_breadth_first_rotate(x, y);
        lemma_offspring_add(b, x);
    }
}

/// The first of a queue is visited first, and then the rest of the queue with its children behind.
pub proof fn lemma_breadth_first_step<V>(queue: Seq<(nat, Tree<V>)>)
    requires
        queue.len() > 0,
    ensures
        breadth_first(queue) == seq![queue[0]] + breadth_first(
            queue.drop_first() + row(queue[0].1.children, queue[0].0 + 1),
        ),
{
    let a = seq![queue[0]];
    let b = queue.drop_first();
    assert(a + b =~= queue);
    lemma_breadth_first_rotate(a, b);
    let down = row(queue[0].1.children, queue[0].0 + 1);
    assert(offspring(a) == down + offspring(a.drop_first()));
}

/// A row of trees put on a stack from its end is visited before what is under it.
proof fn lemma_unwound_row<V>(stack: Seq<(nat, Tree<V>)>, ts: Seq<Tree<V>>, level: nat)
    ensures
        unwound(stack + row(ts, level).reverse()) == preorder_all(ts, level) + unwound(stack),
    decreases ts.len(),
{
    let all = stack + row(ts, level).reverse();
    if ts.len() > 0 {
        let rest = ts.drop_first();
        lemma_unwound_row(stack, rest, level);
        assert(all.drop_last() =~= stack + row(rest, level).reverse());
    }
}

/// The tree on the top of a stack is visited first, and then its children, put on the stack from
/// the last to the first, with what is below them.
pub proof fn lemma_unwound_step<V>(stack: Seq<(nat, Tree<V>)>)
    requires
        stack.len() > 0,
    ensures
        unwound(stack) == seq![stack.last()] + unwound(
            stack.drop_last() + row(stack.last().1.children, stack.last().0 + 1).reverse(),
        ),
{
    let (level, t) = stack.last();
    lemma_unwound_row(stack.drop_last(), t.children, level + 1);
}

/// One level down a machine can still count.
pub proof fn lemma_countable_child<V>(level: int, t: Tree<V>, i: int)
    requires
        countable(level, t),
        0 <= i < t.children.len(),
    ensures
        level < usize::MAX,
        countable(level + 1, t.children[i]),
        t.children[i].label.len() > 0,
{
    let room = choose|room: int| #[trigger]
        t.fits(room) && level + room - t.label.len() <= usize::MAX;
    let child = t.children[i];
    assert(child.fits(room - t.label.len()));
}

/// Every key in a tree begins with the label of its top.
pub proof fn lemma_walk_keys<V>(t: Tree<V>, above: Seq<u8>, i: int)
    requires
        t.bounded(),
        0 <= i < walk(t, above).len(),
    ensures
        starts_with(walk(t, above)[i].0, above + t.label),
        i > 0 ==> walk(t, above)[i].0.len() > (above + t.label).len(),
    decreases t, 0int,
{
    let room = choose|room: int| #[trigger] t.fits(room);
    if i > 0 {
        let ts = t.children;
        assert forall|j: int| 0 <= j < ts.len() implies (#[trigger] ts[j]).label.len() > 0
            && ts[j].bounded() by {
            assert(ts[j].fits(room - t.label.len()));
        }
        lemma_walk_all_keys(ts, above + t.label, i - 1);
    }
}

/// Every key in a row of trees that have labels goes on after the key above them.
pub proof fn lemma_walk_all_keys<V>(ts: Seq<Tree<V>>, above: Seq<u8>, i: int)
    requires
        forall|j: int|
            0 <= j < ts.len() ==> (#[trigger] ts[j]).label.len() > 0 && ts[j].bounded(),
        0 <= i < walk_all(ts, above).len(),
    ensures
        starts_with(walk_all(ts, above)[i].0, above),
        walk_all(ts, above)[i].0.len() > above.len(),
    decreases ts, 1int,
{
    let first = walk(ts[0], above);
    let rest = ts.drop_first();
    if i < first.len() {
        lemma_walk_keys(ts[0], above, i);
    } else {
        lemma_walk_all_keys(rest, above, i - first.len());
    }
}

} // verus!
