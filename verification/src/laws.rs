//! What holds of a tree as a whole, whatever is done to it.
//!
//! The laws here relate operations to one another. Those in [`keys`], [`patterns`], [`structure`],
//! [`changes`] and [`drawing`] say what the words that they use come down to: which bytes a key
//! has, what a pattern matches, what a traversal lists, which tree comes out of a change, and what
//! a drawing shows.
pub mod changes;
pub mod drawing;
pub mod keys;
pub mod patterns;
pub mod structure;

use vstd::prelude::*;
use vstd::std_specs::cmp::PartialEqSpec;
use crate::bytes::{lcp, lemma_lcp, precedes, starts_with};
use crate::canonical::lemma_unique;
use crate::common_prefixes::{lemma_stops, stops};
use crate::compactness::{
    lemma_built, lemma_built_lookup, lemma_compact_graft, lemma_compact_prune, lemma_tidy_insert,
    lemma_tidy_remove,
};
use crate::descent::{lemma_cover, lemma_found, lemma_rejoin};
use crate::equality::{alike, copied, same_listing};
use crate::growth::{
    lemma_entries_graft, lemma_fits_wider, lemma_found_len, lemma_graft, lemma_lookup_graft,
    lemma_value_at,
};
use crate::listing::{
    lemma_alike_listing, lemma_filter_ascending, lemma_found_listed, lemma_levels,
    lemma_levels_in_order_tree, lemma_listed_found, lemma_listing_alike, lemma_same_nodes_tree,
    lemma_walk_ascending, lemma_walk_preorder,
};
use crate::node::Node;
use crate::pattern::{glob, lemma_at_literal, lemma_at_one, plain, sound, Segment, ANY};
use crate::rewriting::{
    breadth_first_run, depth_first_run, laters, lemma_breadth_first_lists,
    lemma_breadth_first_rewritten, lemma_depth_first_lists, lemma_depth_first_rewritten,
    lemma_rewritten_find, lemma_rewritten_form, nows, related, rewritten, Lent,
};
use crate::shrinking::{
    lemma_entries_remove, lemma_lookup_split_below, lemma_merged, lemma_ordered_distinct,
    lemma_prune, lemma_split,
};
use crate::traversal::{
    at_level, breadth_first, lemma_breadth_first_step, lemma_unwound_step, preorder, row, unwound,
    walk,
};
use crate::tree::{slot, Tree, MAX_LABEL_LEN};
use crate::wildcard::{matching, verdict};

verus! {

/// Inserting puts a value at one key and leaves all other keys alone.
pub proof fn law_insert<V>(t: Tree<V>, key: Seq<u8>, value: V, q: Seq<u8>)
    requires
        t.valid(),
    ensures
        t.insert(key, value).lookup(q) == if q == key {
            Some(value)
        } else {
            t.lookup(q)
        },
{
    lemma_lookup_graft(t, key, t.spot(key).with_value(Some(value)), q, usize::MAX as int);
}

/// Inserting keeps a tree well-formed and its children in order.
pub proof fn law_insert_valid<V>(t: Tree<V>, key: Seq<u8>, value: V)
    requires
        t.valid(),
        t.has_room(key),
        key.len() <= usize::MAX,
    ensures
        t.insert(key, value).valid(),
        t.ordered() ==> t.insert(key, value).ordered(),
        t.distinct() ==> t.insert(key, value).distinct(),
{
    lemma_value_at(t, key, Some(value));
}

/// A place for a key can be made wherever no node has as many children as it may have.
pub proof fn law_room<V>(t: Tree<V>, key: Seq<u8>)
    requires
        t.roomy(),
    ensures
        t.has_room(key),
    decreases t,
{
    let rest = key.skip(lcp(t.label, key) as int);
    let i = slot(t.children, rest[0]) as int;
    if i < t.children.len() {
        law_room(t.children[i], rest);
    }
}

/// Children in ascending order have no first byte twice.
pub proof fn law_ordered_distinct<V>(t: Tree<V>)
    requires
        t.ordered(),
    ensures
        t.distinct(),
{
    lemma_ordered_distinct(t);
}

/// Of two values inserted at one key, the later one stays.
pub proof fn law_insert_replaces<V>(t: Tree<V>, key: Seq<u8>, first: V, second: V)
    requires
        t.valid(),
        t.has_room(key),
        key.len() <= usize::MAX,
    ensures
        t.insert(key, first).insert(key, second).entries() == t.insert(key, second).entries(),
{
    law_insert_valid(t, key, first);
    lemma_entries_graft(t, key, Some(first));
    lemma_entries_graft(t, key, Some(second));
    lemma_entries_graft(t.insert(key, first), key, Some(second));
}

/// The order in which two keys are inserted does not matter to what the tree holds.
pub proof fn law_insert_commutes<V>(t: Tree<V>, k1: Seq<u8>, v1: V, k2: Seq<u8>, v2: V)
    requires
        t.valid(),
        k1 != k2,
        k1.len() <= usize::MAX,
        k2.len() <= usize::MAX,
        t.has_room(k1),
        t.has_room(k2),
    ensures
        t.insert(k1, v1).insert(k2, v2).entries() == t.insert(k2, v2).insert(k1, v1).entries(),
{
    law_insert_valid(t, k1, v1);
    law_insert_valid(t, k2, v2);
    lemma_entries_graft(t, k1, Some(v1));
    lemma_entries_graft(t, k2, Some(v2));
    lemma_entries_graft(t.insert(k1, v1), k2, Some(v2));
    lemma_entries_graft(t.insert(k2, v2), k1, Some(v1));
}

/// Removing takes the value from one key and leaves all other keys alone.
pub proof fn law_remove<V>(t: Tree<V>, key: Seq<u8>, q: Seq<u8>)
    requires
        t.valid(),
        t.distinct(),
    ensures
        t.remove(key).lookup(q) == if q == key {
            None
        } else {
            t.lookup(q)
        },
{
    lemma_entries_remove(t, key);
    assert(t.remove(key).entries().dom().contains(q) <==> t.entries().remove(key).dom().contains(
        q,
    ));
    assert(t.lookup(q) is Some && q != key ==> t.remove(key).entries()[q] == t.entries()[q]);
}

/// Removing keeps a tree well-formed and its children in order.
pub proof fn law_remove_valid<V>(t: Tree<V>, key: Seq<u8>)
    requires
        t.valid(),
    ensures
        t.remove(key).valid(),
        t.ordered() ==> t.remove(key).ordered(),
        t.distinct() ==> t.remove(key).distinct(),
{
    lemma_prune(t, key.skip(t.label.len() as int), usize::MAX as int);
}

/// Removing what was inserted at a new key gives back what the tree held.
pub proof fn law_insert_remove<V>(t: Tree<V>, key: Seq<u8>, value: V)
    requires
        t.valid(),
        t.distinct(),
        t.has_room(key),
        key.len() <= usize::MAX,
        t.lookup(key) is None,
    ensures
        t.insert(key, value).remove(key).entries() == t.entries(),
{
    law_insert_valid(t, key, value);
    lemma_entries_graft(t, key, Some(value));
    lemma_entries_remove(t.insert(key, value), key);
}

/// Inserting a key that fits into one label leaves no node below the top that has no value and
/// fewer than two children. A top that is such a node itself must not be pushed down.
pub proof fn law_insert_compact<V>(t: Tree<V>, key: Seq<u8>, value: V)
    requires
        t.compact(),
        t.needed() || starts_with(key, t.label),
        key.len() <= MAX_LABEL_LEN,
    ensures
        t.insert(key, value).compact(),
{
    lemma_compact_graft(t, key, value);
}

/// Removing from a tree whose keys fit into one label leaves no node below the top that has no
/// value and fewer than two children.
pub proof fn law_remove_compact<V>(t: Tree<V>, key: Seq<u8>)
    requires
        t.fits(MAX_LABEL_LEN as int),
        t.compact(),
    ensures
        t.remove(key).compact(),
{
    lemma_compact_prune(t, key.skip(t.label.len() as int), MAX_LABEL_LEN as int);
}

/// Inserting a key that fits into one label keeps a tree tidy, and its label if the key begins
/// with it.
pub proof fn law_insert_tidy<V>(t: Tree<V>, key: Seq<u8>, value: V)
    requires
        t.tidy(),
        t.has_room(key),
        t.needed() || starts_with(key, t.label),
        key.len() <= MAX_LABEL_LEN,
    ensures
        t.insert(key, value).tidy(),
        starts_with(key, t.label) ==> t.insert(key, value).label == t.label,
{
    lemma_tidy_insert(t, key, value);
}

/// Removing keeps a tree tidy, and its label.
pub proof fn law_remove_tidy<V>(t: Tree<V>, key: Seq<u8>)
    requires
        t.tidy(),
    ensures
        t.remove(key).tidy(),
        t.remove(key).label == t.label,
{
    lemma_tidy_remove(t, key);
}

/// A tidy tree is determined by its label and by what it holds.
pub proof fn law_tidy_unique<V>(a: Tree<V>, b: Tree<V>)
    requires
        a.tidy(),
        b.tidy(),
        a.label == b.label,
        forall|q: Seq<u8>| #[trigger] a.lookup(q) == b.lookup(q),
    ensures
        a == b,
{
    lemma_unique(a, b);
}

/// The order in which keys that fit into one label are inserted does not matter to the tree:
/// pairs of keys and values, no key twice, build the same tree in any order, with the same labels,
/// values and children.
pub proof fn law_insert_order<V>(ps: Seq<(Seq<u8>, V)>, qs: Seq<(Seq<u8>, V)>)
    requires
        forall|i: int| 0 <= i < ps.len() ==> (#[trigger] ps[i]).0.len() <= MAX_LABEL_LEN,
        forall|i: int, j: int|
            0 <= i < j < ps.len() ==> (#[trigger] ps[i]).0 != (#[trigger] ps[j]).0,
        ps.to_multiset() == qs.to_multiset(),
        Tree::buildable(ps),
        Tree::buildable(qs),
    ensures
        Tree::built(ps) == Tree::built(qs),
{
    let a = Tree::built(ps);
    let b = Tree::built(qs);
    ps.to_multiset_ensures();
    qs.to_multiset_ensures();
    assert forall|x: (Seq<u8>, V)| ps.contains(x) <==> #[trigger] qs.contains(x) by {
        assert(ps.contains(x) <==> ps.to_multiset().count(x) > 0);
        assert(qs.contains(x) <==> qs.to_multiset().count(x) > 0);
    }
    ps.lemma_multiset_has_no_duplicates();
    qs.lemma_multiset_has_no_duplicates_conv();
    assert forall|i: int| 0 <= i < qs.len() implies (#[trigger] qs[i]).0.len()
        <= MAX_LABEL_LEN by {
        assert(qs.contains(qs[i]));
    }
    assert forall|i: int, j: int| 0 <= i < j < qs.len() implies (#[trigger] qs[i]).0 != (
    #[trigger] qs[j]).0 by {
        assert(qs.contains(qs[i]) && qs.contains(qs[j]));
        let k = choose|k: int| 0 <= k < ps.len() && ps[k] == qs[i];
        let l = choose|l: int| 0 <= l < ps.len() && ps[l] == qs[j];
        assert(qs[i] != qs[j]);
        assert(k < l || l < k);
    }
    lemma_built(ps);
    lemma_built(qs);
    assert forall|q: Seq<u8>| #[trigger] a.lookup(q) == b.lookup(q) by {
        if a.lookup(q) is Some {
            lemma_built_lookup(ps, q, a.lookup(q)->0);
            lemma_built_lookup(qs, q, a.lookup(q)->0);
        }
        if b.lookup(q) is Some {
            lemma_built_lookup(ps, q, b.lookup(q)->0);
            lemma_built_lookup(qs, q, b.lookup(q)->0);
        }
    }
    lemma_unique(a, b);
}

/// Removing a key that was inserted as a new one gives back the very same tree, for keys that fit
/// into one label.
pub proof fn law_insert_remove_same<V>(t: Tree<V>, key: Seq<u8>, value: V)
    requires
        t.tidy(),
        t.has_room(key),
        starts_with(key, t.label),
        key.len() <= MAX_LABEL_LEN,
        t.lookup(key) is None,
    ensures
        t.insert(key, value).lookup(key) == Some(value),
        t.insert(key, value).remove(key) == t,
{
    let max = usize::MAX as int;
    let more = t.insert(key, value);
    let back = more.remove(key);
    lemma_tidy_insert(t, key, value);
    lemma_tidy_remove(more, key);
    lemma_fits_wider(t, MAX_LABEL_LEN as int, max);
    lemma_fits_wider(more, MAX_LABEL_LEN as int, max);
    lemma_ordered_distinct(more);
    assert forall|q: Seq<u8>| #[trigger] back.lookup(q) == t.lookup(q) by {
        law_insert(t, key, value, q);
        law_remove(more, key, q);
    }
    law_insert(t, key, value, key);
    lemma_unique(back, t);
}

/// Asking for an entry that has a value leaves the tree as it is.
pub proof fn law_entry_occupied<V>(t: Tree<V>, key: Seq<u8>)
    requires
        t.lookup(key) is Some,
    ensures
        t.graft(key, t.spot(key)) == t,
{
    lemma_found(t, key);
}

/// Giving a value to an entry is inserting it.
pub proof fn law_entry_insert<V>(t: Tree<V>, key: Seq<u8>, value: V)
    ensures
        t.graft(key, t.spot(key).with_value(Some(value))) == t.insert(key, value),
{
}

/// Making a place for an entry and leaving it without a value changes nothing that the tree holds.
pub proof fn law_entry_vacant<V>(t: Tree<V>, key: Seq<u8>)
    requires
        t.valid(),
        t.lookup(key) is None,
    ensures
        t.graft(key, t.spot(key)).entries() == t.entries(),
{
    let spot = t.spot(key);
    let room = usize::MAX as int;
    assert forall|q: Seq<u8>| #[trigger]
        t.graft(key, spot.with_value(spot.value)).lookup(q) == t.lookup(q) by {
        lemma_lookup_graft(t, key, spot.with_value(spot.value), q, room);
        if q == key {
            lemma_spot_value(t, key);
        }
    }
}

/// The place for a key has the value that the key has.
pub proof fn lemma_spot_value<V>(t: Tree<V>, key: Seq<u8>)
    ensures
        t.spot(key).value == t.lookup(key),
    decreases t,
{
    lemma_lcp(t.label, key);
    let n = lcp(t.label, key) as int;
    if n == t.label.len() && n < key.len() {
        let rest = key.skip(n);
        let i = slot(t.children, rest[0]) as int;
        if i < t.children.len() {
            lemma_spot_value(t.children[i], rest);
        }
    }
}

/// A node that differs from the one in the place for a key by its value and by what is below it
/// leaves the tree well-formed, as long as it is so itself and no path becomes too long.
pub proof fn law_node_change_valid<V>(t: Tree<V>, key: Seq<u8>, node: Tree<V>)
    requires
        t.valid(),
        t.has_room(key),
        key.len() <= usize::MAX,
        node.label == t.spot(key).label,
        node.fits(usize::MAX - key.len() + node.label.len()),
    ensures
        t.graft(key, node).valid(),
        t.ordered() && node.ordered() ==> t.graft(key, node).ordered(),
        t.distinct() && node.distinct() ==> t.graft(key, node).distinct(),
{
    lemma_graft(t, key, node, usize::MAX as int);
}

/// A key that leads to a node needs no new room, and another value for that node changes what the
/// tree holds at this key alone.
pub proof fn law_found_value_change<V>(t: Tree<V>, key: Seq<u8>, value: Option<V>)
    requires
        t.valid(),
        t.find(key) is Some,
    ensures
        t.has_room(key),
        ({
            let out = t.graft(key, (t.find(key)->0).with_value(value));
            &&& out.valid()
            &&& t.ordered() ==> out.ordered()
            &&& t.distinct() ==> out.distinct()
            &&& out.entries() == match value {
                Some(v) => t.entries().insert(key, v),
                None => t.entries().remove(key),
            }
        }),
{
    lemma_found(t, key);
    lemma_found_len(t, key, usize::MAX as int);
    lemma_value_at(t, key, value);
}

/// Drawing an only child into its parent changes nothing that the tree holds.
pub proof fn law_merge<V>(t: Tree<V>, q: Seq<u8>)
    requires
        t.valid(),
    ensures
        t.merged().valid(),
        t.ordered() ==> t.merged().ordered(),
        t.distinct() ==> t.merged().distinct(),
        t.merged().lookup(q) == t.lookup(q),
{
    lemma_merged(t, usize::MAX as int);
}

/// A split parts the keys that begin with the prefix from the others, and loses none and re-keys
/// none. It splits something off exactly if some node stands at or below the prefix and that node
/// is not the top.
pub proof fn law_split<V>(t: Tree<V>, key: Seq<u8>, q: Seq<u8>)
    requires
        t.valid(),
        t.distinct(),
    ensures
        ({
            let (part, left) = t.split(key);
            &&& part is Some <==> t.cover(key) is Some && !starts_with(t.label, key)
            &&& match part {
                Some(part) => {
                    &&& starts_with(part.label, key)
                    &&& part.lookup(q) == if starts_with(q, key) {
                        t.lookup(q)
                    } else {
                        None
                    }
                    &&& left.lookup(q) == if starts_with(q, key) {
                        None
                    } else {
                        t.lookup(q)
                    }
                },
                None => left == t,
            }
        }),
{
    let room = usize::MAX as int;
    if starts_with(key, t.label) && key.len() > t.label.len() {
        let rest = key.skip(t.label.len() as int);
        lemma_rejoin(key, t.label);
        let inner = q.skip(t.label.len() as int);
        lemma_lookup_split_below(t, rest, key, inner, room);
        if starts_with(q, t.label) {
            lemma_rejoin(q, t.label);
        }
        if starts_with(q, key) {
            let tail = q.skip(key.len() as int);
            lemma_rejoin(q, key);
            lemma_lookup_split_below(t, rest, key, tail, room);
            assert(q =~= t.label + (rest + tail));
        }
    }
}

/// A split that finds nothing to split off leaves no key that begins with the prefix behind but
/// those of a top whose own label does.
pub proof fn law_split_none<V>(t: Tree<V>, key: Seq<u8>, q: Seq<u8>)
    requires
        t.valid(),
        t.distinct(),
        t.split(key).0 is None,
        !starts_with(t.label, key),
        starts_with(q, key),
    ensures
        t.find(q) is None,
{
    law_split(t, key, q);
    law_prefix_node(t, key, q);
}

/// A split leaves two well-formed trees, with their children in order.
pub proof fn law_split_valid<V>(t: Tree<V>, key: Seq<u8>)
    requires
        t.valid(),
        t.split(key).0 matches Some(part) ==> part.label.len() <= MAX_LABEL_LEN,
    ensures
        t.split(key).0 matches Some(part) ==> part.valid() && (t.ordered() ==> part.ordered()) && (
        t.distinct() ==> part.distinct()),
        t.split(key).1.valid(),
        t.ordered() ==> t.split(key).1.ordered(),
        t.distinct() ==> t.split(key).1.distinct(),
{
    lemma_split(t, key);
}

/// The node that stands for a prefix is there if and only if some key that begins with the prefix
/// leads to a node, and all such keys run through it.
pub proof fn law_prefix_node<V>(t: Tree<V>, key: Seq<u8>, q: Seq<u8>)
    ensures
        t.find(q) is Some && starts_with(q, key) ==> t.cover(key) is Some && starts_with(
            q,
            (t.cover(key)->0).0,
        ),
        t.cover(key) is Some ==> {
            &&& starts_with((t.cover(key)->0).0, key)
            &&& t.find((t.cover(key)->0).0) == Some((t.cover(key)->0).1)
        },
    decreases t,
{
    if t.cover(key) is Some {
        lemma_cover(t, key);
    }
    if t.find(q) is Some && starts_with(q, key) && !starts_with(t.label, key) && starts_with(
        key,
        t.label,
    ) {
        let rest = key.skip(t.label.len() as int);
        let inner = q.skip(t.label.len() as int);
        let i = slot(t.children, rest[0]) as int;
        law_prefix_node(t.children[i], rest, inner);
    }
}

/// The nodes along a key are exactly those that the front parts of the key lead to.
pub proof fn law_common_prefixes<V>(t: Tree<V>, key: Seq<u8>, n: nat, node: Tree<V>)
    requires
        t.valid(),
    ensures
        stops(t, key, 0).contains((n, node)) <==> n <= key.len() && t.find(key.take(n as int))
            == Some(node),
{
    lemma_stops(t, key, 0, n, node);
}

/// The nodes along a key come from the top down, each once.
pub proof fn law_common_prefixes_ascend<V>(t: Tree<V>, key: Seq<u8>, i: int, j: int)
    requires
        t.valid(),
        0 <= i < j < stops(t, key, 0).len(),
    ensures
        stops(t, key, 0)[i].0 < stops(t, key, 0)[j].0,
{
    lemma_stops(t, key, 0, 0, t);
}

/// A traversal in depth first order meets exactly the nodes that keys lead to.
pub proof fn law_walk_complete<V>(t: Tree<V>, key: Seq<u8>, node: Tree<V>)
    requires
        t.valid(),
        t.distinct(),
    ensures
        walk(t, Seq::empty()).contains((key, node)) <==> t.find(key) == Some(node),
{
    let all = walk(t, Seq::empty());
    if all.contains((key, node)) {
        let i = choose|i: int| 0 <= i < all.len() && all[i] == (key, node);
        lemma_listed_found(t, Seq::empty(), i);
        assert(key.skip(0) =~= key);
    }
    if t.find(key) == Some(node) {
        lemma_found_listed(t, Seq::empty(), key);
    }
}

/// A traversal in depth first order meets the nodes in ascending order of their keys.
pub proof fn law_walk_ascends<V>(t: Tree<V>, i: int, j: int)
    requires
        t.valid(),
        t.ordered(),
        0 <= i < j < walk(t, Seq::empty()).len(),
    ensures
        precedes(walk(t, Seq::empty())[i].0, walk(t, Seq::empty())[j].0),
{
    lemma_walk_ascending(t, Seq::empty(), i, j);
}

/// With or without keys, a traversal in depth first order meets the same nodes.
pub proof fn law_walk_preorder<V>(t: Tree<V>, i: int)
    ensures
        walk(t, Seq::empty()).len() == preorder(t, 0).len(),
        0 <= i < preorder(t, 0).len() ==> walk(t, Seq::empty())[i].1 == preorder(t, 0)[i].1,
{
    lemma_walk_preorder(t, Seq::empty(), 0);
}

/// Both orders of traversal meet the same nodes on the same levels, each as often.
pub proof fn law_orders_agree<V>(t: Tree<V>)
    ensures
        breadth_first(seq![(0nat, t)]).to_multiset() == preorder(t, 0).to_multiset(),
{
    lemma_same_nodes_tree(t, 0);
}

/// On every level, breadth first order meets the nodes in the order in which depth first order
/// does. With [`law_levels_ascend`]: it is depth first order, sorted by level, and stably so.
pub proof fn law_levels_in_order<V>(t: Tree<V>, level: nat)
    ensures
        breadth_first(seq![(0nat, t)]).filter(|item: (nat, Tree<V>)| item.0 == level) == preorder(
            t,
            0,
        ).filter(|item: (nat, Tree<V>)| item.0 == level),
{
    lemma_levels_in_order_tree(t, 0, level);
    assert(at_level::<V>(level) =~= (|item: (nat, Tree<V>)| item.0 == level));
}

/// A traversal in depth first order takes the tree from the top of a stack and puts its children
/// there. This holds of the trees as they are when they are taken and, read over the trees that
/// mutable references leave behind, of what a traversal for writing makes of them.
pub proof fn law_depth_first_step<V>(stack: Seq<(nat, Tree<V>)>)
    requires
        stack.len() > 0,
    ensures
        unwound(stack) == seq![stack.last()] + unwound(
            stack.drop_last() + row(stack.last().1.children, stack.last().0 + 1).reverse(),
        ),
{
    lemma_unwound_step(stack);
}

/// A traversal in breadth first order takes the tree from the front of a queue and puts its
/// children at its end. This too holds of the trees before and after they are written to.
pub proof fn law_breadth_first_step<V>(queue: Seq<(nat, Tree<V>)>)
    requires
        queue.len() > 0,
    ensures
        breadth_first(queue) == seq![queue[0]] + breadth_first(
            queue.drop_first() + row(queue[0].1.children, queue[0].0 + 1),
        ),
{
    lemma_breadth_first_step(queue);
}

/// A traversal in breadth first order never goes back up a level.
pub proof fn law_levels_ascend<V>(t: Tree<V>, i: int, j: int)
    requires
        0 <= i <= j < breadth_first(seq![(0nat, t)]).len(),
    ensures
        breadth_first(seq![(0nat, t)])[i].0 <= breadth_first(seq![(0nat, t)])[j].0,
{
    lemma_levels(seq![(0nat, t)], 0, i, j);
}

/// A traversal for writing in depth first order that leaves each value in some relation to what it
/// was makes of a tree one of the same shape, with the same labels, in which every value is so
/// related to the one in its place. A step is what [`IterMut::next`](crate::IterMut::next) does to
/// its stack.
pub proof fn law_iter_mut<V>(
    stacks: Seq<Seq<Lent<V>>>,
    t: Tree<V>,
    u: Tree<V>,
    rel: spec_fn(V, V) -> bool,
)
    requires
        depth_first_run(stacks, t, u),
        forall|k: int|
            0 <= k < stacks.len() - 1 ==> related(
                (#[trigger] stacks[k]).last().now.value,
                stacks[k].last().later.value,
                rel,
            ),
    ensures
        rewritten(t, u, rel),
{
    lemma_depth_first_rewritten(stacks, t, u, rel, 0);
    let first = stacks[0][0];
    assert(rewritten(first.now, first.later, rel));
}

/// The same of a traversal for writing in breadth first order. A step is what
/// [`IterMutBfs::next`](crate::IterMutBfs::next) does to its queue.
pub proof fn law_iter_mut_bfs<V>(
    queues: Seq<Seq<Lent<V>>>,
    t: Tree<V>,
    u: Tree<V>,
    rel: spec_fn(V, V) -> bool,
)
    requires
        breadth_first_run(queues, t, u),
        forall|k: int|
            0 <= k < queues.len() - 1 ==> related(
                (#[trigger] queues[k])[0].now.value,
                queues[k][0].later.value,
                rel,
            ),
    ensures
        rewritten(t, u, rel),
{
    lemma_breadth_first_rewritten(queues, t, u, rel, 0);
    let first = queues[0][0];
    assert(rewritten(first.now, first.later, rel));
}

/// A traversal for writing in depth first order takes every node once, in that order, and what it
/// leaves at its `k`-th step is what the tree has in its `k`-th place afterwards.
pub proof fn law_iter_mut_places<V>(
    stacks: Seq<Seq<Lent<V>>>,
    t: Tree<V>,
    u: Tree<V>,
    k: int,
)
    requires
        depth_first_run(stacks, t, u),
        0 <= k < stacks.len() - 1,
    ensures
        preorder(t, 0).len() == stacks.len() - 1,
        preorder(u, 0).len() == stacks.len() - 1,
        preorder(t, 0)[k] == (stacks[k].last().level, stacks[k].last().now),
        preorder(u, 0)[k] == (stacks[k].last().level, stacks[k].last().later),
{
    lemma_depth_first_lists(stacks, t, u, 0, k);
    let first = stacks[0];
    assert(unwound(nows(first).drop_last()) =~= Seq::empty());
    assert(unwound(laters(first).drop_last()) =~= Seq::empty());
    assert(unwound(nows(first)) =~= preorder(t, 0));
    assert(unwound(laters(first)) =~= preorder(u, 0));
}

/// The same of a traversal for writing in breadth first order.
pub proof fn law_iter_mut_bfs_places<V>(
    queues: Seq<Seq<Lent<V>>>,
    t: Tree<V>,
    u: Tree<V>,
    k: int,
)
    requires
        breadth_first_run(queues, t, u),
        0 <= k < queues.len() - 1,
    ensures
        breadth_first(seq![(0nat, t)]).len() == queues.len() - 1,
        breadth_first(seq![(0nat, u)]).len() == queues.len() - 1,
        breadth_first(seq![(0nat, t)])[k] == (queues[k][0].level, queues[k][0].now),
        breadth_first(seq![(0nat, u)])[k] == (queues[k][0].level, queues[k][0].later),
{
    lemma_breadth_first_lists(queues, t, u, 0, k);
    assert(nows(queues[0]) =~= seq![(0nat, t)]);
    assert(laters(queues[0]) =~= seq![(0nat, u)]);
}

/// In a tree whose values were rewritten the same keys have values, each related to the one
/// before, and the tree keeps its form.
pub proof fn law_rewritten<V>(
    t: Tree<V>,
    u: Tree<V>,
    rel: spec_fn(V, V) -> bool,
    key: Seq<u8>,
)
    requires
        rewritten(t, u, rel),
    ensures
        related(t.lookup(key), u.lookup(key), rel),
        t.valid() <==> u.valid(),
        t.ordered() <==> u.ordered(),
        t.distinct() <==> u.distinct(),
        t.compact() <==> u.compact(),
{
    lemma_rewritten_find(t, u, rel, key);
    lemma_rewritten_form(t, u, rel, usize::MAX as int);
}

/// To apply a function to every value of a tree is to apply it to what each key looks up.
pub proof fn law_rewritten_by<V>(t: Tree<V>, u: Tree<V>, f: spec_fn(V) -> V, key: Seq<u8>)
    requires
        rewritten(t, u, |x: V, y: V| y == f(x)),
    ensures
        u.lookup(key) == match t.lookup(key) {
            Some(value) => Some(f(value)),
            None => None,
        },
{
    law_rewritten(t, u, |x: V, y: V| y == f(x), key);
}

/// A search by pattern meets exactly the nodes whose keys the pattern matches.
pub proof fn law_wildcard_complete<V>(t: Tree<V>, pattern: Seq<u8>, key: Seq<u8>, node: Tree<V>)
    requires
        t.valid(),
        t.distinct(),
    ensures
        matching(walk(t, Seq::empty()), pattern).contains((key, node)) <==> t.find(key) == Some(
            node,
        ) && glob(pattern, key),
{
    let all = walk(t, Seq::empty());
    let pred = |item: (Seq<u8>, Tree<V>)| glob(pattern, item.0);
    let hits = all.filter(pred);
    law_walk_complete(t, key, node);
    if hits.contains((key, node)) {
        all.lemma_filter_contains_rev(pred, (key, node));
    }
}

/// A search by pattern meets the nodes in ascending order of their keys, each once.
pub proof fn law_wildcard_ascends<V>(t: Tree<V>, pattern: Seq<u8>, i: int, j: int)
    requires
        t.valid(),
        t.ordered(),
        0 <= i < j < matching(walk(t, Seq::empty()), pattern).len(),
    ensures
        precedes(
            matching(walk(t, Seq::empty()), pattern)[i].0,
            matching(walk(t, Seq::empty()), pattern)[j].0,
        ),
{
    let all = walk(t, Seq::empty());
    assert forall|k: int, l: int| 0 <= k < l < all.len() implies precedes(
        (#[trigger] all[k]).0,
        (#[trigger] all[l]).0,
    ) by {
        law_walk_ascends(t, k, l);
    }
    lemma_filter_ascending(all, |item: (Seq<u8>, Tree<V>)| glob(pattern, item.0), i, j);
}

/// Where a literal of a pattern is met in full, what comes behind it decides, on both sides.
pub proof fn law_verdict_literal(bytes: Seq<u8>, rest: Seq<Segment>, key: Seq<u8>)
    requires
        bytes.len() > 0,
        sound(rest),
    ensures
        verdict(seq![Segment::Literal(bytes)] + rest, bytes + key) == verdict(rest, key),
{
    let whole = seq![Segment::Literal(bytes)] + rest;
    assert forall|i: int| 0 <= i < whole.len() implies ((#[trigger] whole[i]) matches
        Segment::Literal(literal) ==> literal.len() > 0) by {
        assert(i > 0 ==> whole[i] == rest[i - 1]);
    }
    lemma_at_literal(whole, bytes, bytes + key);
    assert(whole.skip(1) =~= rest);
    assert((bytes + key).skip(bytes.len() as int) =~= key);
    assert((bytes + key).take(bytes.len() as int) =~= bytes);
}

/// Behind a `?` and the byte that it takes up, what comes next decides, on both sides.
pub proof fn law_verdict_one(b: u8, rest: Seq<Segment>, key: Seq<u8>)
    ensures
        verdict(seq![Segment::One] + rest, seq![b] + key) == verdict(rest, key),
{
    let whole = seq![Segment::One] + rest;
    lemma_at_one(whole, seq![b] + key);
    assert(whole.skip(1) =~= rest);
    assert((seq![b] + key).skip(1) =~= key);
}

/// A pattern without special bytes matches itself and nothing else.
pub proof fn law_glob_plain(pattern: Seq<u8>, key: Seq<u8>)
    requires
        forall|i: int| 0 <= i < pattern.len() ==> plain(#[trigger] pattern[i]),
    ensures
        glob(pattern, key) <==> pattern == key,
    decreases pattern.len(),
{
    if pattern.len() == 0 {
        assert(key.len() == 0 ==> key =~= pattern);
    } else if key.len() > 0 {
        let rest = pattern.skip(1);
        law_glob_plain(rest, key.skip(1));
        if pattern[0] == key[0] && rest == key.skip(1) {
            assert(pattern =~= seq![pattern[0]] + rest);
            assert(key =~= seq![key[0]] + key.skip(1));
        }
    }
}

/// `*` at the end of a pattern takes up any rest of a key, an empty one too.
pub proof fn law_glob_trailing_any(pattern: Seq<u8>, key: Seq<u8>)
    requires
        forall|i: int| 0 <= i < pattern.len() ==> plain(#[trigger] pattern[i]),
    ensures
        glob(pattern.push(ANY), key) <==> starts_with(key, pattern),
    decreases pattern.len(),
{
    let whole = pattern.push(ANY);
    if pattern.len() == 0 {
        let end = key.skip(key.len() as int);
        assert(glob(whole.skip(1), end));
    } else {
        if key.len() > 0 {
            let rest = pattern.skip(1);
            assert(whole.skip(1) =~= rest.push(ANY));
            law_glob_trailing_any(rest, key.skip(1));
            let head = seq![pattern[0]];
            if key[0] == pattern[0] {
                assert(head + key.skip(1) =~= key);
            }
        }
    }
}

/// Trees compare as equal exactly if they are, wherever values do.
pub proof fn law_equality<V: PartialEq>(a: Tree<V>, b: Tree<V>)
    requires
        forall|x: V, y: V| #[trigger] x.eq_spec(&y) <==> x == y,
    ensures
        alike(a, b) <==> a == b,
    decreases a,
{
    if a.children.len() == b.children.len() {
        assert forall|i: int| 0 <= i < a.children.len() implies (alike(
            #[trigger] a.children[i],
            #[trigger] b.children[i],
        ) <==> a.children[i] == b.children[i]) by {
            law_equality(a.children[i], b.children[i]);
        }
        if alike(a, b) {
            assert(a.children =~= b.children);
        }
    }
}

/// Trees compare as equal exactly if their listings in depth first order agree in levels, labels
/// and values.
pub proof fn law_equality_listing<V: PartialEq>(a: Tree<V>, b: Tree<V>)
    ensures
        alike(a, b) <==> {
            let (x, y) = (preorder(a, 0), preorder(b, 0));
            &&& x.len() == y.len()
            &&& forall|i: int|
                0 <= i < x.len() ==> {
                    &&& (#[trigger] x[i]).0 == (#[trigger] y[i]).0
                    &&& x[i].1.label == y[i].1.label
                    &&& match (x[i].1.value, y[i].1.value) {
                        (Some(v), Some(w)) => v.eq_spec(&w),
                        (None, None) => true,
                        _ => false,
                    }
                }
        },
{
    if alike(a, b) {
        lemma_alike_listing(a, b, 0);
    }
    if same_listing(preorder(a, 0), preorder(b, 0)) {
        lemma_listing_alike(a, b, 0);
    }
}

/// Nodes compare as equal exactly if the trees that they stand for do, wherever values can be
/// compared.
pub proof fn law_node_equality<V: PartialEq>(a: Node<V>, b: Node<V>)
    ensures
        a.eq_spec(&b) <==> alike(a@, b@),
        Node::<V>::obeys_eq_spec() <==> V::obeys_eq_spec(),
{
}

/// A copy of a tree is the same tree, wherever a copy of a value is the same value.
pub proof fn law_copy<V: Clone>(a: Tree<V>, b: Tree<V>)
    requires
        forall|x: V, y: V| #[trigger] cloned(x, y) ==> x == y,
        copied(a, b),
    ensures
        a == b,
    decreases a,
{
    assert forall|i: int| 0 <= i < a.children.len() implies #[trigger] a.children[i]
        == b.children[i] by {
        law_copy(a.children[i], b.children[i]);
    }
    assert(a.children =~= b.children);
}

} // verus!
