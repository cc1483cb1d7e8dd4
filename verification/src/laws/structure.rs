//! What well-formedness and the order of children come down to for the single nodes of a tree, and
//! what a traversal lists.
use vstd::prelude::*;
use crate::descent::{lemma_here, lemma_slot_unique, lemma_step};
use crate::listing::{lemma_walk_all_contains, lemma_walk_all_from, lemma_walk_preorder};
use crate::node::{views, Node};
use crate::traversal::{preorder, preorder_all, walk, walk_all};
use crate::tree::{slot, Tree, MAX_LABEL_LEN};

verus! {

/// A label has at most 255 bytes, and a node at most 255 children.
pub proof fn law_limit()
    ensures
        MAX_LABEL_LEN == 255,
{
}

/// The children of a node stand for the trees below it, one by one and in order.
pub proof fn law_views<V>(nodes: Seq<Node<V>>, i: int)
    ensures
        views(nodes).len() == nodes.len(),
        0 <= i < nodes.len() ==> views(nodes)[i] == nodes[i]@,
{
}

/// To change one part of a tree is to leave the others.
pub proof fn law_parts<V>(t: Tree<V>, value: Option<V>, i: int, child: Tree<V>)
    requires
        0 <= i < t.children.len(),
    ensures
        t.with_value(value) == (Tree { label: t.label, value, children: t.children }),
        t.with_child(i, child) == (Tree {
            label: t.label,
            value: t.value,
            children: t.children.update(i, child),
        }),
        t.without_child(i) == (Tree {
            label: t.label,
            value: t.value,
            children: t.children.remove(i),
        }),
{
}

/// A label that is cut keeps its front at the top and takes the rest down, with everything else; a
/// second child comes before the rest or behind it, as their first bytes do.
pub proof fn law_cut<V>(t: Tree<V>, n: int, b: u8, twig: Tree<V>)
    requires
        0 <= n < t.label.len(),
    ensures
        t.cut(n) == (Tree {
            label: t.label.take(n),
            value: None,
            children: seq![Tree { label: t.label.skip(n), value: t.value, children: t.children }],
        }),
        t.fork(n, b, twig).label == t.label.take(n),
        t.fork(n, b, twig).value is None,
        t.fork(n, b, twig).children == if b < t.label[n] {
            seq![twig, t.cut(n).children[0]]
        } else {
            seq![t.cut(n).children[0], twig]
        },
{
}

/// An empty tree has no value and no children.
pub proof fn law_leaf<V>(label: Seq<u8>)
    ensures
        Tree::<V>::leaf(label) == (Tree { label, value: None::<V>, children: Seq::empty() }),
{
}

/// A traversal in depth first order lists a tree and then, one after the other, all that is listed
/// for its children, one level further down.
pub proof fn law_preorder<V>(t: Tree<V>, level: nat)
    ensures
        preorder(t, level) == seq![(level, t)] + Seq::new(
            t.children.len(),
            |c: int| preorder(t.children[c], level + 1),
        ).flatten(),
{
    lemma_preorder_flatten(t.children, level + 1);
}

proof fn lemma_preorder_flatten<V>(ts: Seq<Tree<V>>, level: nat)
    ensures
        preorder_all(ts, level) == Seq::new(
            ts.len(),
            |c: int| preorder(ts[c], level),
        ).flatten(),
    decreases ts.len(),
{
    let all = Seq::new(ts.len(), |c: int| preorder(ts[c], level));
    if ts.len() > 0 {
        let rest = ts.drop_first();
        lemma_preorder_flatten(rest, level);
        assert(all.drop_first() =~= Seq::new(rest.len(), |c: int| preorder(rest[c], level)));
    }
}

/// The key of a node is that of its parent and its label: a traversal with keys lists a tree with
/// the key above it and its label and then, one after the other, all that is listed for its
/// children under that key.
pub proof fn law_walk<V>(t: Tree<V>, above: Seq<u8>)
    ensures
        walk(t, above) == seq![(above + t.label, t)] + Seq::new(
            t.children.len(),
            |c: int| walk(t.children[c], above + t.label),
        ).flatten(),
{
    lemma_walk_flatten(t.children, above + t.label);
}

proof fn lemma_walk_flatten<V>(ts: Seq<Tree<V>>, above: Seq<u8>)
    ensures
        walk_all(ts, above) == Seq::new(ts.len(), |c: int| walk(ts[c], above)).flatten(),
    decreases ts.len(),
{
    let all = Seq::new(ts.len(), |c: int| walk(ts[c], above));
    if ts.len() > 0 {
        let rest = ts.drop_first();
        lemma_walk_flatten(rest, above);
        assert(all.drop_first() =~= Seq::new(rest.len(), |c: int| walk(rest[c], above)));
    }
}

/// Every node but the top is met behind its parent, one level below it, and its key is the key of
/// its parent and its label.
pub proof fn law_parent<V>(t: Tree<V>, i: int) -> (parent: (int, int))
    requires
        0 < i < preorder(t, 0).len(),
    ensures
        preorder(t, 0).len() == walk(t, Seq::empty()).len(),
        0 <= parent.0 < i,
        0 <= parent.1 < preorder(t, 0)[parent.0].1.children.len(),
        preorder(t, 0)[i].1 == preorder(t, 0)[parent.0].1.children[parent.1],
        preorder(t, 0)[i].0 == preorder(t, 0)[parent.0].0 + 1,
        walk(t, Seq::empty())[i].1 == preorder(t, 0)[i].1,
        walk(t, Seq::empty())[i].0 == walk(t, Seq::empty())[parent.0].0 + preorder(t, 0)[i].1.label,
{
    lemma_walk_preorder(t, Seq::empty(), 0);
    lemma_parent(t, Seq::empty(), 0, i)
}

proof fn lemma_parent<V>(t: Tree<V>, above: Seq<u8>, level: nat, i: int) -> (parent: (int, int))
    requires
        0 < i < preorder(t, level).len(),
    ensures
        0 <= parent.0 < i,
        0 <= parent.1 < preorder(t, level)[parent.0].1.children.len(),
        preorder(t, level)[i].1 == preorder(t, level)[parent.0].1.children[parent.1],
        preorder(t, level)[i].0 == preorder(t, level)[parent.0].0 + 1,
        walk(t, above)[i].0 == walk(t, above)[parent.0].0 + preorder(t, level)[i].1.label,
    decreases t, 1int, 0int,
{
    lemma_walk_preorder(t, above, level);
    assert(t.children.skip(0) =~= t.children);
    lemma_parent_all(t, above, level, 0, i - 1)
}

/// [`lemma_parent`] for the children from the `n`-th on; `i` counts what is listed for these.
proof fn lemma_parent_all<V>(t: Tree<V>, above: Seq<u8>, level: nat, n: int, i: int) -> (parent: (
    int,
    int,
))
    requires
        0 <= n <= t.children.len(),
        0 <= i < preorder_all(t.children.skip(n), level + 1).len(),
    ensures
        walk_all(t.children.skip(n), above + t.label).len() == preorder_all(
            t.children.skip(n),
            level + 1,
        ).len(),
        ({
            let listed = preorder_all(t.children.skip(n), level + 1);
            let keyed = walk_all(t.children.skip(n), above + t.label);
            let at = parent.0 - 1;
            if parent.0 == 0 {
                &&& 0 <= parent.1 < t.children.len()
                &&& listed[i].1 == t.children[parent.1]
                &&& listed[i].0 == level + 1
                &&& keyed[i].0 == above + t.label + listed[i].1.label
            } else {
                &&& 0 <= at < i
                &&& 0 <= parent.1 < listed[at].1.children.len()
                &&& listed[i].1 == listed[at].1.children[parent.1]
                &&& listed[i].0 == listed[at].0 + 1
                &&& keyed[i].0 == keyed[at].0 + listed[i].1.label
            }
        }),
    decreases t, 0int, t.children.len() - n,
{
    let ts = t.children.skip(n);
    let here = above + t.label;
    let first = ts[0];
    let listed = preorder_all(ts, level + 1);
    let keyed = walk_all(ts, here);
    lemma_walk_preorder(first, here, level + 1);
    assert(ts.drop_first() =~= t.children.skip(n + 1));
    let m = preorder(first, level + 1).len() as int;
    let rest = t.children.skip(n + 1);
    lemma_lengths(rest, here, level + 1);
    if i >= m {
        let (p, c) = lemma_parent_all(t, above, level, n + 1, i - m);
        if p == 0 {
            (0, c)
        } else {
            assert(listed[p - 1 + m] == preorder_all(rest, level + 1)[p - 1]);
            assert(keyed[p - 1 + m] == walk_all(rest, here)[p - 1]);
            (p + m, c)
        }
    } else if i == 0 {
        assert(listed[0] == (level + 1, first));
        assert(first == t.children[n]);
        (0, n)
    } else {
        assert(decreases_to!(t => t.children[n]));
        let (p, c) = lemma_parent(t.children[n], here, level + 1, i);
        assert(listed[p] == preorder(first, level + 1)[p]);
        assert(keyed[p] == walk(first, here)[p]);
        assert(listed[i] == preorder(first, level + 1)[i]);
        assert(keyed[i] == walk(first, here)[i]);
        (p + 1, c)
    }
}

proof fn lemma_lengths<V>(ts: Seq<Tree<V>>, above: Seq<u8>, level: nat)
    ensures
        walk_all(ts, above).len() == preorder_all(ts, level).len(),
    decreases ts.len(),
{
    if ts.len() > 0 {
        lemma_walk_preorder(ts[0], above, level);
        lemma_lengths(ts.drop_first(), above, level);
    }
}

/// The level from which a traversal counts does not matter to what it lists.
pub proof fn law_level<V>(t: Tree<V>, level: nat, i: int)
    ensures
        preorder(t, level).len() == preorder(t, 0).len(),
        0 <= i < preorder(t, 0).len() ==> preorder(t, level)[i] == (
            level + preorder(t, 0)[i].0,
            preorder(t, 0)[i].1,
        ),
{
    lemma_level(t, level, 0, i);
}

proof fn lemma_level<V>(t: Tree<V>, level: nat, other: nat, i: int)
    ensures
        preorder(t, level).len() == preorder(t, other).len(),
        0 <= i < preorder(t, other).len() ==> {
            &&& preorder(t, level)[i].0 - level == preorder(t, other)[i].0 - other
            &&& preorder(t, level)[i].1 == preorder(t, other)[i].1
        },
    decreases t, 0int,
{
    lemma_level_all(t.children, level + 1, other + 1, i - 1);
}

proof fn lemma_level_all<V>(ts: Seq<Tree<V>>, level: nat, other: nat, i: int)
    ensures
        preorder_all(ts, level).len() == preorder_all(ts, other).len(),
        0 <= i < preorder_all(ts, other).len() ==> {
            &&& preorder_all(ts, level)[i].0 - level == preorder_all(ts, other)[i].0 - other
            &&& preorder_all(ts, level)[i].1 == preorder_all(ts, other)[i].1
        },
    decreases ts, 1int,
{
    if ts.len() > 0 {
        lemma_level(ts[0], level, other, i);
        lemma_level_all(ts.drop_first(), level, other, i - preorder(ts[0], other).len());
    }
}

/// What is listed for a child is listed for its parent, behind the parent.
proof fn lemma_down<V>(t: Tree<V>, above: Seq<u8>, c: int, j: int) -> (i: int)
    requires
        0 <= c < t.children.len(),
        0 <= j < walk(t.children[c], above + t.label).len(),
    ensures
        0 < i < walk(t, above).len(),
        walk(t, above)[i] == walk(t.children[c], above + t.label)[j],
{
    let item = walk(t.children[c], above + t.label)[j];
    let down = walk_all(t.children, above + t.label);
    lemma_walk_all_contains(t.children, above + t.label, c, item);
    let k = choose|k: int| 0 <= k < down.len() && down[k] == item;
    k + 1
}

/// What is listed behind a node is listed for one of its children.
proof fn lemma_up<V>(t: Tree<V>, above: Seq<u8>, i: int) -> (place: (int, int))
    requires
        0 < i < walk(t, above).len(),
    ensures
        0 <= place.0 < t.children.len(),
        0 <= place.1 < walk(t.children[place.0], above + t.label).len(),
        walk(t, above)[i] == walk(t.children[place.0], above + t.label)[place.1],
{
    let c = lemma_walk_all_from(t.children, above + t.label, i - 1);
    let item = walk(t, above)[i];
    let below = walk(t.children[c], above + t.label);
    assert(below.contains(item));
    let j = choose|j: int| 0 <= j < below.len() && below[j] == item;
    (c, j)
}

/// Whether the `i`-th node of a listing is within its limits, its key too.
spec fn within_limits<V>(listing: Seq<(Seq<u8>, Tree<V>)>, i: int, room: int) -> bool {
    &&& listing[i].1.label.len() <= 255
    &&& listing[i].1.children.len() <= 255
    &&& i > 0 ==> listing[i].1.label.len() > 0
    &&& listing[i].0.len() <= room
}

proof fn lemma_fits_nodes<V>(t: Tree<V>, above: Seq<u8>, room: int, most: int)
    requires
        most == above.len() + room,
    ensures
        t.fits(room) <==> forall|i: int|
            0 <= i < walk(t, above).len() ==> #[trigger] within_limits(walk(t, above), i, most),
    decreases t,
{
    let all = walk(t, above);
    let here = above + t.label;
    assert(all[0] == (here, t));
    if t.fits(room) {
        assert forall|i: int| 0 <= i < all.len() implies #[trigger] within_limits(
            all,
            i,
            most,
        ) by {
            if i > 0 {
                let (c, j) = lemma_up(t, above, i);
                let child = t.children[c];
                lemma_fits_nodes(child, here, room - t.label.len(), most);
                assert(child.fits(room - t.label.len()));
                assert(within_limits(walk(child, here), j, most));
                assert(walk(child, here)[0] == (here + child.label, child));
            }
        }
    }
    if forall|i: int| 0 <= i < all.len() ==> #[trigger] within_limits(all, i, most) {
        assert(within_limits(all, 0, most));
        assert forall|c: int| 0 <= c < t.children.len() implies {
            &&& (#[trigger] t.children[c]).label.len() > 0
            &&& t.children[c].fits(room - t.label.len())
        } by {
            let child = t.children[c];
            let below = walk(child, here);
            assert(below[0] == (here + child.label, child));
            let k = lemma_down(t, above, c, 0);
            assert(within_limits(all, k, most));
            assert forall|j: int| 0 <= j < below.len() implies #[trigger] within_limits(
                below,
                j,
                most,
            ) by {
                let i = lemma_down(t, above, c, j);
                assert(within_limits(all, i, most));
            }
            lemma_fits_nodes(child, here, room - t.label.len(), most);
        }
    }
}

/// A tree has the room that it needs exactly if no node has a label of more than 255 bytes or more
/// than 255 children, none but the top has an empty label, and no key is longer than `room`.
pub proof fn law_fits<V>(t: Tree<V>, room: int)
    ensures
        t.fits(room) <==> forall|i: int|
            0 <= i < walk(t, Seq::empty()).len() ==> {
                let (key, node) = #[trigger] walk(t, Seq::empty())[i];
                &&& node.label.len() <= 255
                &&& node.children.len() <= 255
                &&& i > 0 ==> node.label.len() > 0
                &&& key.len() <= room
            },
{
    let all = walk(t, Seq::empty());
    lemma_fits_nodes(t, Seq::empty(), room, room);
    if t.fits(room) {
        assert forall|i: int| 0 <= i < all.len() implies {
            let (key, node) = #[trigger] all[i];
            &&& node.label.len() <= 255
            &&& node.children.len() <= 255
            &&& i > 0 ==> node.label.len() > 0
            &&& key.len() <= room
        } by {
            assert(within_limits(all, i, room));
        }
    }
    if forall|i: int|
        0 <= i < all.len() ==> {
            let (key, node) = #[trigger] all[i];
            &&& node.label.len() <= 255
            &&& node.children.len() <= 255
            &&& i > 0 ==> node.label.len() > 0
            &&& key.len() <= room
        } {
        assert forall|i: int| 0 <= i < all.len() implies #[trigger] within_limits(all, i, room) by {
            let (key, node) = all[i];
        }
    }
}

/// A tree is well-formed exactly if no node has a label of more than 255 bytes or more than 255
/// children, none but the top has an empty label, and no key is longer than a machine can count.
pub proof fn law_valid<V>(t: Tree<V>)
    ensures
        t.valid() <==> forall|i: int|
            0 <= i < walk(t, Seq::empty()).len() ==> {
                let (key, node) = #[trigger] walk(t, Seq::empty())[i];
                &&& node.label.len() <= 255
                &&& node.children.len() <= 255
                &&& i > 0 ==> node.label.len() > 0
                &&& key.len() <= usize::MAX
            },
{
    law_fits(t, usize::MAX as int);
}

/// Whether the children of a node ascend in their first bytes.
spec fn ascends<V>(node: Tree<V>) -> bool {
    forall|a: int, b: int|
        0 <= a < b < node.children.len() ==> (#[trigger] node.children[a]).label[0] < (
        #[trigger] node.children[b]).label[0]
}

/// Whether the children of a node differ in their first bytes.
spec fn differs<V>(node: Tree<V>) -> bool {
    forall|a: int, b: int|
        0 <= a < b < node.children.len() ==> (#[trigger] node.children[a]).label[0] != (
        #[trigger] node.children[b]).label[0]
}

proof fn lemma_hereditary<V>(t: Tree<V>, above: Seq<u8>)
    ensures
        t.ordered() <==> forall|i: int|
            0 <= i < walk(t, above).len() ==> ascends((#[trigger] walk(t, above)[i]).1),
        t.distinct() <==> forall|i: int|
            0 <= i < walk(t, above).len() ==> differs((#[trigger] walk(t, above)[i]).1),
        t.compact() <==> forall|i: int|
            0 < i < walk(t, above).len() ==> (#[trigger] walk(t, above)[i]).1.needed(),
        t.roomy() <==> forall|i: int|
            0 <= i < walk(t, above).len() ==> (#[trigger] walk(t, above)[i]).1.children.len() < 255,
    decreases t,
{
    let all = walk(t, above);
    let here = above + t.label;
    assert(all[0] == (here, t));
    assert forall|c: int| 0 <= c < t.children.len() implies ({
        let child = #[trigger] t.children[c];
        let below = walk(child, here);
        &&& below.len() > 0 && below[0].1 == child
        &&& child.ordered() <==> forall|j: int|
            0 <= j < below.len() ==> ascends((#[trigger] below[j]).1)
        &&& child.distinct() <==> forall|j: int|
            0 <= j < below.len() ==> differs((#[trigger] below[j]).1)
        &&& child.compact() <==> forall|j: int|
            0 < j < below.len() ==> (#[trigger] below[j]).1.needed()
        &&& child.roomy() <==> forall|j: int|
            0 <= j < below.len() ==> (#[trigger] below[j]).1.children.len() < 255
    }) by {
        lemma_hereditary(t.children[c], here);
        assert(walk(t.children[c], here)[0].1 == t.children[c]);
    }
    assert forall|i: int| 0 < i < all.len() implies ({
        let node = (#[trigger] all[i]).1;
        &&& t.ordered() ==> ascends(node)
        &&& t.distinct() ==> differs(node)
        &&& t.compact() ==> node.needed()
        &&& t.roomy() ==> node.children.len() < 255
    }) by {
        let (c, j) = lemma_up(t, above, i);
        let below = walk(t.children[c], here);
        assert(all[i] == below[j]);
    }
    assert forall|c: int| 0 <= c < t.children.len() implies ({
        let child = #[trigger] t.children[c];
        &&& (forall|i: int| 0 <= i < all.len() ==> ascends((#[trigger] all[i]).1))
            ==> child.ordered()
        &&& (forall|i: int| 0 <= i < all.len() ==> differs((#[trigger] all[i]).1))
            ==> child.distinct()
        &&& (forall|i: int| 0 < i < all.len() ==> (#[trigger] all[i]).1.needed())
            ==> child.compact() && child.needed()
        &&& (forall|i: int| 0 <= i < all.len() ==> (#[trigger] all[i]).1.children.len() < 255)
            ==> child.roomy()
    }) by {
        let below = walk(t.children[c], here);
        assert forall|j: int| 0 <= j < below.len() implies exists|i: int|
            0 < i < all.len() && #[trigger] all[i] == #[trigger] below[j] by {
            let i = lemma_down(t, above, c, j);
            assert(all[i] == below[j]);
        }
        let k = lemma_down(t, above, c, 0);
        assert(all[k].1 == t.children[c]);
    }
}

/// The children of a tree are in order exactly if, below every node, the first bytes ascend.
pub proof fn law_ordered<V>(t: Tree<V>)
    ensures
        t.ordered() <==> forall|i: int, a: int, b: int|
            0 <= i < walk(t, Seq::empty()).len() && 0 <= a < b < walk(
                t,
                Seq::empty(),
            )[i].1.children.len() ==> (#[trigger] walk(t, Seq::empty())[i].1.children[a]).label[0]
                < (#[trigger] walk(t, Seq::empty())[i].1.children[b]).label[0],
{
    lemma_hereditary(t, Seq::empty());
    let all = walk(t, Seq::empty());
    if forall|i: int, a: int, b: int|
        0 <= i < all.len() && 0 <= a < b < all[i].1.children.len() ==> (
        #[trigger] all[i].1.children[a]).label[0] < (#[trigger] all[i].1.children[b]).label[0] {
        assert forall|i: int| 0 <= i < all.len() implies ascends((#[trigger] all[i]).1) by {}
    }
}

/// No first byte is there twice exactly if that holds below every node.
pub proof fn law_distinct<V>(t: Tree<V>)
    ensures
        t.distinct() <==> forall|i: int, a: int, b: int|
            0 <= i < walk(t, Seq::empty()).len() && 0 <= a < b < walk(
                t,
                Seq::empty(),
            )[i].1.children.len() ==> (#[trigger] walk(t, Seq::empty())[i].1.children[a]).label[0]
                != (#[trigger] walk(t, Seq::empty())[i].1.children[b]).label[0],
{
    lemma_hereditary(t, Seq::empty());
    let all = walk(t, Seq::empty());
    if forall|i: int, a: int, b: int|
        0 <= i < all.len() && 0 <= a < b < all[i].1.children.len() ==> (
        #[trigger] all[i].1.children[a]).label[0] != (#[trigger] all[i].1.children[b]).label[0] {
        assert forall|i: int| 0 <= i < all.len() implies differs((#[trigger] all[i]).1) by {}
    }
}

/// A tree is compact exactly if every node but the top has a value or two children, and roomy
/// exactly if no node has 255 children.
pub proof fn law_compact<V>(t: Tree<V>)
    ensures
        t.compact() <==> forall|i: int|
            0 < i < walk(t, Seq::empty()).len() ==> (#[trigger] walk(t, Seq::empty())[i]).1.value
                is Some || walk(t, Seq::empty())[i].1.children.len() > 1,
        t.roomy() <==> forall|i: int|
            0 <= i < walk(t, Seq::empty()).len() ==> (#[trigger] walk(
                t,
                Seq::empty(),
            )[i]).1.children.len() < 255,
{
    lemma_hereditary(t, Seq::empty());
}

/// The label of a tree leads to its top, and no key that does not begin with it leads anywhere.
pub proof fn law_find_top<V>(t: Tree<V>, key: Seq<u8>)
    ensures
        t.find(t.label) == Some(t),
        key.len() < t.label.len() || key.take(t.label.len() as int) != t.label ==> t.find(key)
            is None,
{
    lemma_here(t);
    if key.len() >= t.label.len() && t.find(key) is Some {
        assert(key.take(t.label.len() as int) =~= t.label);
    }
}

/// Behind the label of the top, a key leads where it leads in the first child whose label begins
/// with its next byte, and nowhere if there is none.
pub proof fn law_find_below<V>(t: Tree<V>, rest: Seq<u8>, i: int)
    requires
        rest.len() > 0,
        0 <= i <= t.children.len(),
        forall|j: int| 0 <= j < i ==> (#[trigger] t.children[j]).label[0] != rest[0],
        i < t.children.len() ==> t.children[i].label[0] == rest[0],
    ensures
        t.find(t.label + rest) == if i < t.children.len() {
            t.children[i].find(rest)
        } else {
            None
        },
        slot(t.children, rest[0]) == i,
{
    lemma_slot_unique(t.children, rest[0], i as nat);
    if i < t.children.len() {
        lemma_step(t, rest);
    } else {
        assert((t.label + rest).skip(t.label.len() as int) =~= rest);
    }
}

/// A key has the value of the node that it leads to, and a tree holds exactly the keys that have
/// one.
pub proof fn law_lookup<V>(t: Tree<V>, key: Seq<u8>)
    ensures
        t.lookup(key) == match t.find(key) {
            Some(node) => node.value,
            None => None,
        },
        t.entries().dom().contains(key) <==> t.lookup(key) is Some,
        t.lookup(key) is Some ==> t.entries()[key] == t.lookup(key)->0,
{
}

/// The longest key that a key begins with is a front of it that has a value, and no longer front
/// has one.
pub proof fn law_longest_match<V>(t: Tree<V>, key: Seq<u8>, n: int, front: Seq<u8>)
    ensures
        t.longest_match(key, n) ==> {
            &&& 0 <= n <= key.len()
            &&& t.lookup(key.take(n)) is Some
            &&& front.len() > n && (exists|rest: Seq<u8>| #[trigger] (front + rest) == key)
                ==> t.lookup(front) is None
        },
        t.no_match(key) && (exists|rest: Seq<u8>| #[trigger] (front + rest) == key) ==> t.lookup(
            front,
        ) is None,
{
    if exists|rest: Seq<u8>| #[trigger] (front + rest) == key {
        assert(key.take(front.len() as int) =~= front);
    }
}

} // verus!
