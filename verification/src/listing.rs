//! Which nodes a traversal meets, and in which order.
use vstd::prelude::*;
use crate::bytes::{lemma_lcp_unique, precedes, starts_with};
use crate::descent::lemma_step;
use crate::equality::{alike, same_listing, same_value};
use crate::shrinking::lemma_slot_distinct;
use crate::traversal::{
    at_level, breadth_first, lemma_offspring_weight, lemma_walk_all_keys, lemma_walk_keys,
    offspring, on_level, preorder, preorder_all, row, walk, walk_all, weight,
};
use crate::tree::{slot, Tree};

verus! {

/// A part that is visited in one of the trees of a row is visited in the row.
pub proof fn lemma_walk_all_contains<V>(
    ts: Seq<Tree<V>>,
    above: Seq<u8>,
    i: int,
    item: (Seq<u8>, Tree<V>),
)
    requires
        0 <= i < ts.len(),
        walk(ts[i], above).contains(item),
    ensures
        walk_all(ts, above).contains(item),
    decreases ts.len(),
{
    let first = walk(ts[0], above);
    let rest = ts.drop_first();
    if i == 0 {
        let k = choose|k: int| 0 <= k < first.len() && first[k] == item;
        assert(walk_all(ts, above)[k] == item);
    } else {
        lemma_walk_all_contains(rest, above, i - 1, item);
        let tail = walk_all(rest, above);
        let k = choose|k: int| 0 <= k < tail.len() && tail[k] == item;
        assert(walk_all(ts, above)[first.len() + k] == item);
    }
}

/// What is visited in a row of trees is visited in one of them.
pub proof fn lemma_walk_all_from<V>(ts: Seq<Tree<V>>, above: Seq<u8>, i: int) -> (j: int)
    requires
        0 <= i < walk_all(ts, above).len(),
    ensures
        0 <= j < ts.len(),
        walk(ts[j], above).contains(walk_all(ts, above)[i]),
    decreases ts.len(),
{
    let first = walk(ts[0], above);
    let rest = ts.drop_first();
    if i < first.len() {
        0
    } else {
        let j = lemma_walk_all_from(rest, above, i - first.len());
        j + 1
    }
}

/// Every node that a key leads to is visited, with that key.
pub proof fn lemma_found_listed<V>(t: Tree<V>, above: Seq<u8>, key: Seq<u8>)
    requires
        t.find(key) is Some,
    ensures
        walk(t, above).contains((above + key, t.find(key)->0)),
    decreases t,
{
    let rest = key.skip(t.label.len() as int);
    if rest.len() == 0 {
        assert(walk(t, above)[0] == (above + key, t));
    } else {
        let i = slot(t.children, rest[0]) as int;
        lemma_found_listed(t.children[i], above + t.label, rest);
        let item = ((above + t.label) + rest, t.find(key)->0);
        assert((above + t.label) + rest =~= above + key);
        lemma_walk_all_contains(t.children, above + t.label, i, item);
        let below = walk_all(t.children, above + t.label);
        let k = choose|k: int| 0 <= k < below.len() && below[k] == item;
        assert(walk(t, above)[k + 1] == item);
    }
}

/// Every node that is visited is the one that its key leads to.
pub proof fn lemma_listed_found<V>(t: Tree<V>, above: Seq<u8>, i: int)
    requires
        t.bounded(),
        t.distinct(),
        0 <= i < walk(t, above).len(),
    ensures
        starts_with(walk(t, above)[i].0, above),
        t.find(walk(t, above)[i].0.skip(above.len() as int)) == Some(walk(t, above)[i].1),
    decreases t,
{
    let (key, node) = walk(t, above)[i];
    let here = above + t.label;
    let q = key.skip(above.len() as int);
    if i > 0 {
        let room = choose|room: int| #[trigger] t.fits(room);
        let j = lemma_walk_all_from(t.children, here, i - 1);
        let child = t.children[j];
        assert(child.fits(room - t.label.len()));
        let k = choose|k: int| 0 <= k < walk(child, here).len() && walk(child, here)[k] == (
            key,
            node,
        );
        lemma_listed_found(child, here, k);
        let rest = key.skip(here.len() as int);
        assert(q =~= t.label + rest);
        lemma_slot_distinct(t, j);
        lemma_step(t, rest);
    }
}

/// In a row of trees whose first bytes are all greater than `b`, so is the byte at the place of
/// those first bytes in every key.
proof fn lemma_walk_all_above<V>(ts: Seq<Tree<V>>, above: Seq<u8>, b: u8, i: int)
    requires
        forall|j: int|
            0 <= j < ts.len() ==> (#[trigger] ts[j]).label.len() > 0 && ts[j].bounded()
                && ts[j].label[0] > b,
        0 <= i < walk_all(ts, above).len(),
    ensures
        starts_with(walk_all(ts, above)[i].0, above),
        walk_all(ts, above)[i].0.len() > above.len(),
        walk_all(ts, above)[i].0[above.len() as int] > b,
{
    let j = lemma_walk_all_from(ts, above, i);
    let item = walk_all(ts, above)[i];
    let k = choose|k: int| 0 <= k < walk(ts[j], above).len() && walk(ts[j], above)[k] == item;
    lemma_walk_keys(ts[j], above, k);
}

/// The nodes of an ordered tree are visited in ascending order of their keys.
pub proof fn lemma_walk_ascending<V>(t: Tree<V>, above: Seq<u8>, i: int, j: int)
    requires
        t.bounded(),
        t.ordered(),
        0 <= i < j < walk(t, above).len(),
    ensures
        precedes(walk(t, above)[i].0, walk(t, above)[j].0),
    decreases t, 0int,
{
    let room = choose|room: int| #[trigger] t.fits(room);
    let here = above + t.label;
    let ts = t.children;
    assert forall|k: int| 0 <= k < ts.len() implies (#[trigger] ts[k]).label.len() > 0
        && ts[k].bounded() by {
        assert(ts[k].fits(room - t.label.len()));
    }
    if i == 0 {
        let key = walk(t, above)[j].0;
        lemma_walk_all_keys(ts, here, j - 1);
        lemma_lcp_unique(here, key, here.len());
    } else {
        lemma_walk_all_ascending(ts, here, i - 1, j - 1);
    }
}

/// The nodes of a row of ordered trees, itself in ascending order of first bytes, are visited in
/// ascending order of their keys.
proof fn lemma_walk_all_ascending<V>(ts: Seq<Tree<V>>, above: Seq<u8>, i: int, j: int)
    requires
        forall|k: int|
            0 <= k < ts.len() ==> (#[trigger] ts[k]).label.len() > 0 && ts[k].bounded(),
        forall|k: int| 0 <= k < ts.len() ==> (#[trigger] ts[k]).ordered(),
        forall|k: int, l: int|
            0 <= k < l < ts.len() ==> (#[trigger] ts[k]).label[0] < (#[trigger] ts[l]).label[0],
        0 <= i < j < walk_all(ts, above).len(),
    ensures
        precedes(walk_all(ts, above)[i].0, walk_all(ts, above)[j].0),
    decreases ts, 1int,
{
    let first = walk(ts[0], above);
    let rest = ts.drop_first();
    let n = first.len() as int;
    if j < n {
        lemma_walk_ascending(ts[0], above, i, j);
    } else if i >= n {
        lemma_walk_all_ascending(rest, above, i - n, j - n);
    } else {
        let a = walk_all(ts, above)[i].0;
        let b = walk_all(ts, above)[j].0;
        lemma_walk_keys(ts[0], above, i);
        lemma_walk_all_above(rest, above, ts[0].label[0], j - n);
        lemma_lcp_unique(a, b, above.len());
    }
}

/// What is left of an ascending listing is ascending.
pub proof fn lemma_filter_ascending<V>(
    found: Seq<(Seq<u8>, Tree<V>)>,
    pred: spec_fn((Seq<u8>, Tree<V>)) -> bool,
    i: int,
    j: int,
)
    requires
        forall|k: int, l: int|
            0 <= k < l < found.len() ==> precedes((#[trigger] found[k]).0, (#[trigger] found[l]).0),
        0 <= i < j < found.filter(pred).len(),
    ensures
        precedes(found.filter(pred)[i].0, found.filter(pred)[j].0),
    decreases found.len(),
{
    reveal(Seq::filter);
    let shorter = found.drop_last();
    let kept = shorter.filter(pred);
    if j < kept.len() {
        lemma_filter_ascending(shorter, pred, i, j);
    } else {
        shorter.lemma_filter_contains_rev(pred, kept[i]);
    }
}

/// The nodes of the trees in a queue in depth first order, one tree after the other.
spec fn flat<V>(queue: Seq<(nat, Tree<V>)>) -> Seq<(nat, Tree<V>)>
    decreases queue.len(),
{
    if queue.len() == 0 {
        Seq::empty()
    } else {
        preorder(queue[0].1, queue[0].0) + flat(queue.drop_first())
    }
}

proof fn lemma_flat_add<V>(a: Seq<(nat, Tree<V>)>, b: Seq<(nat, Tree<V>)>)
    ensures
        flat(a + b) == flat(a) + flat(b),
    decreases a.len(),
{
    if a.len() > 0 {
        assert((a + b).drop_first() =~= a.drop_first() + b);
        lemma_flat_add(a.drop_first(), b);
    }
}

proof fn lemma_flat_row<V>(ts: Seq<Tree<V>>, level: nat)
    ensures
        flat(row(ts, level)) == preorder_all(ts, level),
    decreases ts.len(),
{
    if ts.len() > 0 {
        assert(row(ts, level).drop_first() =~= row(ts.drop_first(), level));
        lemma_flat_row(ts.drop_first(), level);
    }
}

/// One level of the trees in a queue, and then the levels below it, are all of their nodes.
proof fn lemma_flat_level<V>(queue: Seq<(nat, Tree<V>)>)
    ensures
        flat(queue).to_multiset() == queue.to_multiset().add(flat(offspring(queue)).to_multiset()),
    decreases queue.len(),
{
    broadcast use vstd::seq_lib::group_to_multiset_ensures;

    if queue.len() > 0 {
        let (level, t) = queue[0];
        let rest = queue.drop_first();
        let head = seq![queue[0]];
        let down = preorder_all(t.children, level + 1);
        lemma_flat_level(rest);
        lemma_flat_row(t.children, level + 1);
        lemma_flat_add(row(t.children, level + 1), offspring(rest));
        assert(queue =~= head + rest);
        assert(flat(queue) =~= head + (down + flat(rest)));
        vstd::seq_lib::lemma_multiset_commutative(head, rest);
        vstd::seq_lib::lemma_multiset_commutative(head, down + flat(rest));
        vstd::seq_lib::lemma_multiset_commutative(down, flat(rest));
        vstd::seq_lib::lemma_multiset_commutative(down, flat(offspring(rest)));
    }
}

/// Both orders visit the same nodes on the same levels, each as often.
proof fn lemma_same_nodes<V>(queue: Seq<(nat, Tree<V>)>)
    ensures
        breadth_first(queue).to_multiset() == flat(queue).to_multiset(),
    decreases weight(queue),
{
    if queue.len() > 0 {
        lemma_offspring_weight(queue);
        lemma_same_nodes(offspring(queue));
        lemma_flat_level(queue);
        vstd::seq_lib::lemma_multiset_commutative(queue, breadth_first(offspring(queue)));
    }
}

/// [`lemma_same_nodes`] for a single tree.
pub proof fn lemma_same_nodes_tree<V>(t: Tree<V>, level: nat)
    ensures
        breadth_first(seq![(level, t)]).to_multiset() == preorder(t, level).to_multiset(),
{
    let queue = seq![(level, t)];
    lemma_same_nodes(queue);
    assert(flat(queue.drop_first()) =~= Seq::empty());
}

/// Below a queue on one level everything is one level further down.
proof fn lemma_offspring_level<V>(queue: Seq<(nat, Tree<V>)>, level: nat)
    requires
        forall|k: int| 0 <= k < queue.len() ==> (#[trigger] queue[k]).0 == level,
    ensures
        forall|k: int|
            0 <= k < offspring(queue).len() ==> (#[trigger] offspring(queue)[k]).0 == level + 1,
    decreases queue.len(),
{
    if queue.len() > 0 {
        let rest = queue.drop_first();
        lemma_offspring_level(rest, level);
        let front = row(queue[0].1.children, level + 1);
        assert forall|k: int| 0 <= k < offspring(queue).len() implies (
        #[trigger] offspring(queue)[k]).0 == level + 1 by {
            if k >= front.len() {
                assert(offspring(queue)[k] == offspring(rest)[k - front.len()]);
            }
        }
    }
}

/// From a queue on one level, a traversal in breadth first order goes down level by level.
pub proof fn lemma_levels<V>(queue: Seq<(nat, Tree<V>)>, level: nat, i: int, j: int)
    requires
        forall|k: int| 0 <= k < queue.len() ==> (#[trigger] queue[k]).0 == level,
        0 <= i <= j < breadth_first(queue).len(),
    ensures
        level <= breadth_first(queue)[i].0 <= breadth_first(queue)[j].0,
    decreases weight(queue),
{
    let n = queue.len() as int;
    let below = offspring(queue);
    lemma_offspring_weight(queue);
    lemma_offspring_level(queue, level);
    if j >= n {
        if i >= n {
            lemma_levels(below, level + 1, i - n, j - n);
        } else {
            lemma_levels(below, level + 1, j - n, j - n);
        }
    }
}

/// The keys with which the nodes are visited do not change which nodes are, and when.
pub proof fn lemma_walk_preorder<V>(t: Tree<V>, above: Seq<u8>, level: nat)
    ensures
        walk(t, above).len() == preorder(t, level).len(),
        forall|i: int|
            0 <= i < walk(t, above).len() ==> (#[trigger] walk(t, above)[i]).1 == preorder(
                t,
                level,
            )[i].1,
    decreases t, 0int,
{
    lemma_walk_preorder_all(t.children, above + t.label, level + 1);
}

proof fn lemma_walk_preorder_all<V>(ts: Seq<Tree<V>>, above: Seq<u8>, level: nat)
    ensures
        walk_all(ts, above).len() == preorder_all(ts, level).len(),
        forall|i: int|
            0 <= i < walk_all(ts, above).len() ==> (#[trigger] walk_all(ts, above)[i]).1
                == preorder_all(ts, level)[i].1,
    decreases ts, 1int,
{
    if ts.len() > 0 {
        lemma_walk_preorder(ts[0], above, level);
        lemma_walk_preorder_all(ts.drop_first(), above, level);
    }
}

/// The top of a tree is on its level, and everything below it further down.
pub proof fn lemma_preorder_levels<V>(t: Tree<V>, level: nat, i: int)
    requires
        0 <= i < preorder(t, level).len(),
    ensures
        i == 0 ==> preorder(t, level)[i].0 == level,
        i > 0 ==> preorder(t, level)[i].0 > level,
    decreases t, 0int,
{
    if i > 0 {
        lemma_preorder_all_levels(t.children, level + 1, i - 1);
    }
}

/// Nothing in a row of trees is above the level of the row.
proof fn lemma_preorder_all_levels<V>(ts: Seq<Tree<V>>, level: nat, i: int)
    requires
        0 <= i < preorder_all(ts, level).len(),
    ensures
        preorder_all(ts, level)[i].0 >= level,
    decreases ts, 1int,
{
    let n = preorder(ts[0], level).len();
    if i < n {
        lemma_preorder_levels(ts[0], level, i);
    } else {
        lemma_preorder_all_levels(ts.drop_first(), level, i - n);
    }
}

/// Behind the first tree of a row the next one begins on the level of the row, or nothing does.
pub proof fn lemma_next_tree<V>(ts: Seq<Tree<V>>, level: nat)
    requires
        ts.len() > 0,
        preorder(ts[0], level).len() < preorder_all(ts, level).len(),
    ensures
        preorder_all(ts, level)[preorder(ts[0], level).len() as int].0 == level,
{
    let rest = ts.drop_first();
    assert(preorder_all(ts, level) == preorder(ts[0], level) + preorder_all(rest, level));
    assert(preorder_all(rest, level).len() > 0);
    let n = preorder(ts[0], level).len() as int;
    assert(preorder_all(ts, level)[n] == preorder_all(rest, level)[0]);
    assert(preorder_all(rest, level)[0] == preorder(rest[0], level)[0]);
}

/// Trees that are alike have listings that agree.
pub proof fn lemma_alike_listing<V: PartialEq>(a: Tree<V>, b: Tree<V>, level: nat)
    requires
        alike(a, b),
    ensures
        same_listing(preorder(a, level), preorder(b, level)),
    decreases a, 0int,
{
    lemma_alike_listing_all(a.children, b.children, level + 1);
    let x = preorder(a, level);
    let y = preorder(b, level);
    let p = preorder_all(a.children, level + 1);
    let q = preorder_all(b.children, level + 1);
    assert forall|i: int| 0 <= i < x.len() implies {
        &&& (#[trigger] x[i]).0 == (#[trigger] y[i]).0
        &&& x[i].1.label == y[i].1.label
        &&& same_value(x[i].1.value, y[i].1.value)
    } by {
        if i > 0 {
            assert(x[i] == p[i - 1] && y[i] == q[i - 1]);
        }
    }
}

proof fn lemma_alike_listing_all<V: PartialEq>(ts: Seq<Tree<V>>, us: Seq<Tree<V>>, level: nat)
    requires
        ts.len() == us.len(),
        forall|i: int| 0 <= i < ts.len() ==> alike(#[trigger] ts[i], #[trigger] us[i]),
    ensures
        same_listing(preorder_all(ts, level), preorder_all(us, level)),
    decreases ts, 1int,
{
    if ts.len() > 0 {
        let t_rest = ts.drop_first();
        let u_rest = us.drop_first();
        assert(alike(ts[0], us[0]));
        lemma_alike_listing(ts[0], us[0], level);
        assert forall|i: int| 0 <= i < t_rest.len() implies alike(
            #[trigger] t_rest[i],
            #[trigger] u_rest[i],
        ) by {
            assert(alike(ts[i + 1], us[i + 1]));
        }
        lemma_alike_listing_all(t_rest, u_rest, level);
        let x = preorder_all(ts, level);
        let y = preorder_all(us, level);
        let n = preorder(ts[0], level).len() as int;
        assert forall|i: int| 0 <= i < x.len() implies {
            &&& (#[trigger] x[i]).0 == (#[trigger] y[i]).0
            &&& x[i].1.label == y[i].1.label
            &&& same_value(x[i].1.value, y[i].1.value)
        } by {
            if i < n {
                assert(x[i] == preorder(ts[0], level)[i] && y[i] == preorder(us[0], level)[i]);
            } else {
                assert(x[i] == preorder_all(t_rest, level)[i - n]);
                assert(y[i] == preorder_all(u_rest, level)[i - n]);
            }
        }
    }
}

/// Trees whose listings agree are alike.
pub proof fn lemma_listing_alike<V: PartialEq>(a: Tree<V>, b: Tree<V>, level: nat)
    requires
        same_listing(preorder(a, level), preorder(b, level)),
    ensures
        alike(a, b),
    decreases a, 0int,
{
    let x = preorder(a, level);
    let y = preorder(b, level);
    let p = preorder_all(a.children, level + 1);
    let q = preorder_all(b.children, level + 1);
    assert(x[0].0 == y[0].0);
    assert forall|i: int| 0 <= i < p.len() implies {
        &&& (#[trigger] p[i]).0 == (#[trigger] q[i]).0
        &&& p[i].1.label == q[i].1.label
        &&& same_value(p[i].1.value, q[i].1.value)
    } by {
        assert(x[i + 1] == p[i] && y[i + 1] == q[i]);
    }
    lemma_listing_alike_all(a.children, b.children, level + 1);
}

proof fn lemma_listing_alike_all<V: PartialEq>(ts: Seq<Tree<V>>, us: Seq<Tree<V>>, level: nat)
    requires
        same_listing(preorder_all(ts, level), preorder_all(us, level)),
    ensures
        ts.len() == us.len(),
        forall|i: int| 0 <= i < ts.len() ==> alike(#[trigger] ts[i], #[trigger] us[i]),
    decreases ts, 1int,
{
    let x = preorder_all(ts, level);
    let y = preorder_all(us, level);
    if ts.len() > 0 && us.len() > 0 {
        let s = preorder(ts[0], level);
        let r = preorder(us[0], level);
        if s.len() < r.len() {
            lemma_next_tree(ts, level);
            lemma_preorder_levels(us[0], level, s.len() as int);
            assert(x[s.len() as int].0 == y[s.len() as int].0);
        } else if r.len() < s.len() {
            lemma_next_tree(us, level);
            lemma_preorder_levels(ts[0], level, r.len() as int);
            assert(x[r.len() as int].0 == y[r.len() as int].0);
        }
        let n = s.len() as int;
        let t_rest = ts.drop_first();
        let u_rest = us.drop_first();
        let p = preorder_all(t_rest, level);
        let q = preorder_all(u_rest, level);
        assert forall|i: int| 0 <= i < n implies {
            &&& (#[trigger] s[i]).0 == (#[trigger] r[i]).0
            &&& s[i].1.label == r[i].1.label
            &&& same_value(s[i].1.value, r[i].1.value)
        } by {
            assert(x[i] == s[i] && y[i] == r[i]);
        }
        lemma_listing_alike(ts[0], us[0], level);
        assert forall|i: int| 0 <= i < p.len() implies {
            &&& (#[trigger] p[i]).0 == (#[trigger] q[i]).0
            &&& p[i].1.label == q[i].1.label
            &&& same_value(p[i].1.value, q[i].1.value)
        } by {
            assert(x[i + n] == p[i] && y[i + n] == q[i]);
        }
        lemma_listing_alike_all(t_rest, u_rest, level);
        assert forall|i: int| 0 <= i < ts.len() implies alike(
            #[trigger] ts[i],
            #[trigger] us[i],
        ) by {
            if i > 0 {
                assert(alike(t_rest[i - 1], u_rest[i - 1]));
            }
        }
    } else if ts.len() > 0 {
        assert(preorder(ts[0], level).len() > 0);
    } else if us.len() > 0 {
        assert(preorder(us[0], level).len() > 0);
    }
}

/// The nodes of a row of trees that are on a level above it: none.
proof fn lemma_filter_above<V>(ts: Seq<Tree<V>>, level: nat, k: nat)
    requires
        k < level,
    ensures
        on_level(preorder_all(ts, level), k) == Seq::<(nat, Tree<V>)>::empty(),
{
    let all = preorder_all(ts, level);
    let pred = at_level::<V>(k);
    assert forall|i: int| 0 <= i < all.len() implies !pred(all[i]) by {
        lemma_preorder_all_levels(ts, level, i);
    }
    all.lemma_all_neg_filter_empty(pred);
}

proof fn lemma_on_level_add<V>(a: Seq<(nat, Tree<V>)>, b: Seq<(nat, Tree<V>)>, k: nat)
    ensures
        on_level(a + b, k) == on_level(a, k) + on_level(b, k),
{
    Seq::filter_distributes_over_add(a, b, at_level(k));
}

proof fn lemma_on_level_one<V>(item: (nat, Tree<V>), k: nat)
    ensures
        on_level(seq![item], k) == if item.0 == k {
            seq![item]
        } else {
            Seq::empty()
        },
{
    reveal(Seq::filter);
    let one = seq![item];
    let pred = at_level::<V>(k);
    assert(one.drop_last() =~= Seq::empty());
    assert(one.drop_last().filter(pred) =~= Seq::empty());
    assert(one.filter(pred) =~= if item.0 == k {
        one
    } else {
        Seq::empty()
    });
}

/// On each level, the nodes of trees in a queue come in the order of the queue and, further down,
/// in the order of their parents.
proof fn lemma_flat_on_level<V>(queue: Seq<(nat, Tree<V>)>, level: nat, k: nat)
    requires
        forall|i: int| 0 <= i < queue.len() ==> (#[trigger] queue[i]).0 == level,
    ensures
        on_level(flat(queue), k) == on_level(queue, k) + on_level(flat(offspring(queue)), k),
        k != level ==> on_level(queue, k).len() == 0,
        k == level ==> on_level(flat(offspring(queue)), k).len() == 0,
    decreases queue.len(),
{
    reveal(Seq::filter);
    if queue.len() > 0 {
        let t = queue[0].1;
        let rest = queue.drop_first();
        let head = seq![queue[0]];
        let down = preorder_all(t.children, level + 1);
        assert(queue[0].0 == level);
        assert forall|i: int| 0 <= i < rest.len() implies (#[trigger] rest[i]).0 == level by {
            assert(rest[i] == queue[i + 1]);
        }
        lemma_flat_on_level(rest, level, k);
        lemma_flat_row(t.children, level + 1);
        lemma_flat_add(row(t.children, level + 1), offspring(rest));
        assert(flat(queue) =~= head + (down + flat(rest)));
        assert(queue =~= head + rest);
        lemma_on_level_add(head, down + flat(rest), k);
        lemma_on_level_add(down, flat(rest), k);
        lemma_on_level_add(head, rest, k);
        lemma_on_level_add(down, flat(offspring(rest)), k);
        lemma_on_level_one(queue[0], k);
        if k == level {
            lemma_filter_above(t.children, level + 1, k);
        }
        assert(on_level(flat(queue), k) =~= on_level(queue, k) + on_level(
            flat(offspring(queue)),
            k,
        ));
    }
}

/// On each level, breadth first order is depth first order.
proof fn lemma_levels_in_order<V>(queue: Seq<(nat, Tree<V>)>, level: nat, k: nat)
    requires
        forall|i: int| 0 <= i < queue.len() ==> (#[trigger] queue[i]).0 == level,
    ensures
        on_level(breadth_first(queue), k) == on_level(flat(queue), k),
    decreases weight(queue),
{
    if queue.len() > 0 {
        let below = offspring(queue);
        lemma_offspring_weight(queue);
        lemma_offspring_level(queue, level);
        lemma_levels_in_order(below, level + 1, k);
        lemma_flat_on_level(queue, level, k);
        lemma_on_level_add(queue, breadth_first(below), k);
    }
}

/// [`lemma_levels_in_order`] for a single tree.
pub proof fn lemma_levels_in_order_tree<V>(t: Tree<V>, level: nat, k: nat)
    ensures
        on_level(breadth_first(seq![(level, t)]), k) == on_level(preorder(t, level), k),
{
    let queue = seq![(level, t)];
    lemma_levels_in_order(queue, level, k);
    assert(queue.drop_first() =~= Seq::empty());
    assert(flat(queue.drop_first()) =~= Seq::empty());
    assert(flat(queue) =~= preorder(t, level));
}

} // verus!
