//! Which tree an operation makes of another, node by node.
use vstd::prelude::*;
use crate::bytes::{lcp, lemma_lcp, lemma_lcp_unique, starts_with};
use crate::canonical::lemma_unique;
use crate::compactness::lemma_tidy_remove;
use crate::descent::{
    lemma_gap, lemma_gap_unique, lemma_here, lemma_rejoin, lemma_slot, lemma_slot_unique,
    lemma_step,
};
use crate::equality::copied;
use crate::growth::{lemma_fits_wider, lemma_value_at};
use crate::laws::{law_remove, lemma_spot_value};
use crate::laws::structure::law_level;
use crate::rewriting::{lemma_rewritten_find, rewritten};
use crate::shrinking::lemma_ordered_distinct;
use crate::traversal::{preorder, preorder_all};
use crate::tree::{chain, gap, last_piece, slot, Tree, MAX_LABEL_LEN};

verus! {

/// Whether `twig` is a row of nodes, each the only child of the one before it, that carry `key` in
/// pieces of 255 bytes, with what is left of it in the last one; and `value` is there and nowhere
/// else.
pub open spec fn stretches<V>(twig: Tree<V>, key: Seq<u8>, value: V) -> bool {
    let nodes = preorder(twig, 0);
    &&& nodes.len() == (key.len() + 254) / 255
    &&& forall|j: int|
        0 <= j < nodes.len() ==> {
            let (level, node) = #[trigger] nodes[j];
            let last = j == nodes.len() - 1;
            &&& level == j
            &&& node.label == key.subrange(
                255 * j,
                if last {
                    key.len() as int
                } else {
                    255 * j + 255
                },
            )
            &&& node.value == if last {
                Some(value)
            } else {
                None
            }
            &&& node.children.len() == if last {
                0nat
            } else {
                1
            }
        }
}

proof fn lemma_stretches<V>(key: Seq<u8>, value: V)
    requires
        key.len() > 0,
    ensures
        stretches(chain(key, Tree::leaf(last_piece(key)).with_value(Some(value))), key, value),
    decreases key.len(),
{
    let end = Tree::leaf(last_piece(key)).with_value(Some(value));
    let twig = chain(key, end);
    let nodes = preorder(twig, 0);
    if key.len() <= MAX_LABEL_LEN {
        assert(preorder_all(twig.children, 1) =~= Seq::empty());
        assert(nodes =~= seq![(0nat, twig)]);
        assert(key.subrange(0, key.len() as int) =~= key);
    } else {
        let rest = key.skip(MAX_LABEL_LEN as int);
        lemma_stretches(rest, value);
        let lower = chain(rest, end);
        let below = preorder(lower, 0);
        assert(twig.children =~= seq![lower]);
        assert(twig.children.drop_first() =~= Seq::empty());
        assert(preorder_all(twig.children.drop_first(), 1) =~= Seq::empty());
        assert(preorder_all(twig.children, 1) =~= preorder(lower, 1));
        law_level(lower, 1, 0);
        assert(key.take(255) =~= key.subrange(0, 255));
        assert forall|j: int| 0 <= j < nodes.len() implies {
            let (level, node) = #[trigger] nodes[j];
            let last = j == nodes.len() - 1;
            &&& level == j
            &&& node.label == key.subrange(
                255 * j,
                if last {
                    key.len() as int
                } else {
                    255 * j + 255
                },
            )
            &&& node.value == if last {
                Some(value)
            } else {
                None
            }
            &&& node.children.len() == if last {
                0nat
            } else {
                1
            }
        } by {
            if j > 0 {
                law_level(lower, 1, j - 1);
                let (level, node) = below[j - 1];
                assert(nodes[j] == (level + 1, node));
                let stop = if j == nodes.len() - 1 {
                    key.len() as int
                } else {
                    255 * j + 255
                };
                assert(rest.subrange(255 * (j - 1), stop - 255) =~= key.subrange(255 * j, stop));
            }
        }
    }
}

/// A value inserted at the key of the top goes there.
pub proof fn law_insert_here<V>(t: Tree<V>, value: V)
    ensures
        t.insert(t.label, value) == (Tree { value: Some(value), ..t }),
{
    lemma_here(t);
}

/// A key that ends within the label of the top gets a node above the rest of the label.
pub proof fn law_insert_within<V>(t: Tree<V>, n: int, value: V)
    requires
        0 <= n < t.label.len(),
    ensures
        t.insert(t.label.take(n), value) == (Tree {
            label: t.label.take(n),
            value: Some(value),
            children: seq![Tree { label: t.label.skip(n), ..t }],
        }),
{
    lemma_lcp_unique(t.label, t.label.take(n), n as nat);
}

/// A key that parts from the label of the top gets a branch of its own there, beside the rest of
/// the label, and the two stand in ascending order of their first bytes.
pub proof fn law_insert_fork<V>(t: Tree<V>, n: int, rest: Seq<u8>, value: V)
    requires
        0 <= n < t.label.len(),
        rest.len() > 0,
        rest[0] != t.label[n],
    ensures
        ({
            let out = t.insert(t.label.take(n) + rest, value);
            let (stem, twig) = if rest[0] < t.label[n] {
                (out.children[1], out.children[0])
            } else {
                (out.children[0], out.children[1])
            };
            &&& out.label == t.label.take(n)
            &&& out.value is None
            &&& out.children.len() == 2
            &&& stem == (Tree { label: t.label.skip(n), ..t })
            &&& stretches(twig, rest, value)
        }),
{
    let key = t.label.take(n) + rest;
    lemma_lcp_unique(t.label, key, n as nat);
    assert(key.skip(n) =~= rest);
    lemma_stretches(rest, value);
}

/// A key that runs through the label of the top and on with the first byte of a child is inserted
/// into that child.
pub proof fn law_insert_below<V>(t: Tree<V>, rest: Seq<u8>, i: int, value: V)
    requires
        rest.len() > 0,
        0 <= i < t.children.len(),
        t.children[i].label[0] == rest[0],
        forall|j: int| 0 <= j < i ==> (#[trigger] t.children[j]).label[0] != rest[0],
    ensures
        t.insert(t.label + rest, value) == (Tree {
            children: t.children.update(i, t.children[i].insert(rest, value)),
            ..t
        }),
{
    lemma_slot_unique(t.children, rest[0], i as nat);
    lemma_step(t, rest);
}

/// A key that runs through the label of the top and on with a byte that no child has gets a branch
/// of its own, before the first child with a greater byte.
pub proof fn law_insert_beside<V>(t: Tree<V>, rest: Seq<u8>, at: int, value: V)
    requires
        rest.len() > 0,
        forall|j: int| 0 <= j < t.children.len() ==> (#[trigger] t.children[j]).label[0] != rest[0],
        0 <= at <= t.children.len(),
        forall|j: int| 0 <= j < at ==> (#[trigger] t.children[j]).label[0] < rest[0],
        at < t.children.len() ==> t.children[at].label[0] > rest[0],
    ensures
        ({
            let out = t.insert(t.label + rest, value);
            &&& out.label == t.label
            &&& out.value == t.value
            &&& out.children.len() == t.children.len() + 1
            &&& out.children.remove(at) == t.children
            &&& stretches(out.children[at], rest, value)
        }),
{
    let key = t.label + rest;
    let n = t.label.len();
    lemma_slot_unique(t.children, rest[0], t.children.len());
    lemma_gap_unique(t.children, rest[0], at as nat);
    lemma_lcp_unique(t.label, key, n);
    assert(key.skip(n as int) =~= rest);
    lemma_stretches(rest, value);
    assert(t.insert(key, value).children.remove(at) =~= t.children);
}

/// There is room for a key exactly if the tree is still well-formed when it has been inserted.
pub proof fn law_room_exact<V>(t: Tree<V>, key: Seq<u8>, value: V)
    requires
        t.valid(),
        key.len() <= usize::MAX,
    ensures
        t.has_room(key) <==> t.insert(key, value).valid(),
{
    if t.has_room(key) {
        lemma_value_at(t, key, Some(value));
    } else {
        lemma_no_room(t, key, value, usize::MAX as int);
    }
}

proof fn lemma_no_room<V>(t: Tree<V>, key: Seq<u8>, value: V, room: int)
    requires
        !t.has_room(key),
    ensures
        !t.insert(key, value).fits(room),
    decreases t,
{
    let n = lcp(t.label, key) as int;
    let rest = key.skip(n);
    let i = slot(t.children, rest[0]) as int;
    let out = t.insert(key, value);
    lemma_lcp(t.label, key);
    if i < t.children.len() {
        let child = t.children[i];
        assert(out.children[i] == child.insert(rest, value));
        lemma_no_room(child, rest, value, room - t.label.len());
    } else {
        lemma_gap(t.children, rest[0]);
        assert(out.children.len() == t.children.len() + 1);
    }
}

/// What stands in the place for a key is what the key leads to once it has a value, but for that
/// value; and before, it has the value that the key has.
pub proof fn law_entry_node<V>(t: Tree<V>, key: Seq<u8>, value: V)
    requires
        t.valid(),
    ensures
        t.insert(key, value).find(key) == Some(Tree { value: Some(value), ..t.spot(key) }),
        t.spot(key).value == t.lookup(key),
{
    lemma_graft_find(t, key, t.spot(key).with_value(Some(value)), usize::MAX as int);
    lemma_spot_value(t, key);
}

/// A chain leads to its end.
proof fn lemma_chain_find<V>(key: Seq<u8>, end: Tree<V>)
    requires
        key.len() > 0,
        end.label == last_piece(key),
    ensures
        chain(key, end).find(key) == Some(end),
        chain(key, end).label.len() > 0,
        chain(key, end).label[0] == key[0],
    decreases key.len(),
{
    let twig = chain(key, end);
    if key.len() <= MAX_LABEL_LEN {
        lemma_here(end);
    } else {
        let rest = key.skip(MAX_LABEL_LEN as int);
        lemma_chain_find(rest, end);
        lemma_slot_unique(twig.children, rest[0], 0);
    }
}

proof fn lemma_graft_find<V>(t: Tree<V>, key: Seq<u8>, node: Tree<V>, room: int)
    requires
        t.fits(room),
        node.label == t.spot(key).label,
    ensures
        t.graft(key, node).find(key) == Some(node),
        key.len() > 0 && t.label.len() > 0 && key[0] == t.label[0] ==> t.graft(
            key,
            node,
        ).label.len() > 0 && t.graft(key, node).label[0] == key[0],
    decreases t,
{
    let n = lcp(t.label, key) as int;
    lemma_lcp(t.label, key);
    let out = t.graft(key, node);
    if n < t.label.len() {
        if n < key.len() {
            let rest = key.skip(n);
            lemma_chain_find(rest, node);
            let at: nat = if rest[0] < t.label[n] {
                0
            } else {
                1
            };
            assert(out.children[1 - at].label[0] == t.label[n]);
            lemma_slot_unique(out.children, rest[0], at);
            assert(starts_with(key, out.label));
            if n == 0 && key.len() > 0 && key[0] == t.label[0] {
                assert(false);
            }
        } else {
            assert(t.label.take(n) =~= key);
            lemma_here(node);
        }
    } else if n == key.len() {
        assert(t.label =~= key);
        lemma_here(node);
    } else {
        let rest = key.skip(n);
        let i = slot(t.children, rest[0]) as int;
        lemma_slot(t.children, rest[0]);
        if i < t.children.len() {
            let child = t.children[i];
            assert(child.fits(room - t.label.len()));
            lemma_graft_find(child, rest, node, room - t.label.len());
            assert forall|j: int| 0 <= j < i implies (#[trigger] out.children[j]).label[0]
                != rest[0] by {
                assert(out.children[j] == t.children[j]);
            }
            lemma_slot_unique(out.children, rest[0], i as nat);
        } else {
            lemma_chain_find(rest, node);
            let at = gap(t.children, rest[0]);
            lemma_gap(t.children, rest[0]);
            assert forall|j: int| 0 <= j < at implies (#[trigger] out.children[j]).label[0]
                != rest[0] by {
                assert(out.children[j] == t.children[j]);
            }
            lemma_slot_unique(out.children, rest[0], at);
        }
    }
}

/// A node that is changed, but for its label, is found in its place with all that is below it now,
/// and every key that does not run through it has the value that it had.
pub proof fn law_node_change<V>(t: Tree<V>, key: Seq<u8>, node: Tree<V>, q: Seq<u8>)
    requires
        t.find(key) is Some,
        node.label == (t.find(key)->0).label,
    ensures
        t.graft(key, node).find(key + q) == node.find(node.label + q),
        !starts_with(q, key) ==> t.graft(key, node).lookup(q) == t.lookup(q),
    decreases t,
{
    let out = t.graft(key, node);
    let rest = key.skip(t.label.len() as int);
    lemma_rejoin(key, t.label);
    if rest.len() == 0 {
        lemma_here(t);
        assert(key =~= t.label);
    } else {
        let i = slot(t.children, rest[0]) as int;
        let child = t.children[i];
        lemma_slot(t.children, rest[0]);
        lemma_step(t, rest);
        law_node_change(child, rest, node, q);
        let lower = child.graft(rest, node);
        assert(out == t.with_child(i, lower));
        lemma_graft_label(child, rest, node);
        assert forall|b: u8| slot(t.children, b) == #[trigger] slot(out.children, b) by {
            lemma_slot(t.children, b);
            let k = slot(t.children, b);
            assert forall|j: int| 0 <= j < out.children.len() implies (
            #[trigger] out.children[j]).label == t.children[j].label by {}
            lemma_slot_unique(out.children, b, k);
        }
        assert(key + q =~= t.label + (rest + q));
        assert((rest + q)[0] == rest[0]);
        assert(slot(out.children, (rest + q)[0]) == i);
        lemma_step(out, rest + q);
        if !starts_with(q, key) && starts_with(q, t.label) && q.len() > t.label.len() {
            let tail = q.skip(t.label.len() as int);
            lemma_rejoin(q, t.label);
            let k = slot(t.children, tail[0]) as int;
            if k < t.children.len() {
                lemma_step(t, tail);
                lemma_step(out, tail);
                if k == i {
                    if starts_with(tail, rest) {
                        assert forall|m: int| 0 <= m < key.len() implies q[m] == key[m] by {
                            if m >= t.label.len() {
                                assert(tail[m - t.label.len()] == rest[m - t.label.len()]);
                            }
                        }
                    }
                    law_node_change(child, rest, node, tail);
                }
            }
        }
    }
}

proof fn lemma_graft_label<V>(t: Tree<V>, key: Seq<u8>, node: Tree<V>)
    requires
        t.find(key) is Some,
        node.label == (t.find(key)->0).label,
    ensures
        t.graft(key, node).label == t.label,
{
    let rest = key.skip(t.label.len() as int);
    lemma_rejoin(key, t.label);
    if rest.len() == 0 {
        assert(key =~= t.label);
        lemma_here(t);
    } else {
        lemma_step(t, rest);
    }
}

/// Another node in the place of one that is there takes its place and leaves all that is beside the
/// way to it.
pub proof fn law_node_place<V>(t: Tree<V>, rest: Seq<u8>, i: int, node: Tree<V>)
    requires
        rest.len() > 0,
        0 <= i < t.children.len(),
        t.children[i].label[0] == rest[0],
        forall|j: int| 0 <= j < i ==> (#[trigger] t.children[j]).label[0] != rest[0],
    ensures
        t.graft(t.label, node) == node,
        t.graft(t.label + rest, node) == (Tree {
            children: t.children.update(i, t.children[i].graft(rest, node)),
            ..t
        }),
{
    lemma_here(t);
    lemma_slot_unique(t.children, rest[0], i as nat);
    lemma_step(t, rest);
}

/// The place that is made for a key is the same one, whatever goes there: it is where a value goes
/// that is inserted.
pub proof fn law_entry_place<V>(t: Tree<V>, key: Seq<u8>, value: V, node: Tree<V>)
    requires
        t.valid(),
        node.label == t.spot(key).label,
    ensures
        t.graft(key, node) == t.insert(key, value).graft(key, node),
{
    lemma_graft_again(t, key, t.spot(key).with_value(Some(value)), node, usize::MAX as int);
}

proof fn lemma_chain_again<V>(key: Seq<u8>, end: Tree<V>, node: Tree<V>)
    requires
        key.len() > 0,
        end.label == last_piece(key),
    ensures
        chain(key, end).graft(key, node) == chain(key, node),
        chain(key, end).label.len() > 0,
        chain(key, end).label[0] == key[0],
    decreases key.len(),
{
    let twig = chain(key, end);
    if key.len() <= MAX_LABEL_LEN {
        lemma_here(end);
    } else {
        let rest = key.skip(MAX_LABEL_LEN as int);
        lemma_chain_again(rest, end, node);
        lemma_slot_unique(twig.children, rest[0], 0);
        lemma_rejoin(key, twig.label);
        lemma_step(twig, rest);
        assert(twig.children.update(0, chain(rest, node)) =~= seq![chain(rest, node)]);
    }
}

proof fn lemma_graft_again<V>(
    t: Tree<V>,
    key: Seq<u8>,
    first: Tree<V>,
    node: Tree<V>,
    room: int,
)
    requires
        t.fits(room),
        first.label == t.spot(key).label,
    ensures
        t.graft(key, first).graft(key, node) == t.graft(key, node),
    decreases t,
{
    let n = lcp(t.label, key) as int;
    lemma_lcp(t.label, key);
    let out = t.graft(key, first);
    if n < t.label.len() {
        if n < key.len() {
            let rest = key.skip(n);
            lemma_chain_again(rest, first, node);
            let at: nat = if rest[0] < t.label[n] {
                0
            } else {
                1
            };
            assert(out.children[1 - at].label[0] == t.label[n]);
            lemma_slot_unique(out.children, rest[0], at);
            assert(out.label + rest =~= key);
            lemma_step(out, rest);
            assert(out.children.update(at as int, chain(rest, node)) =~= t.graft(
                key,
                node,
            ).children);
        } else {
            assert(t.label.take(n) =~= key);
            lemma_here(first);
        }
    } else if n == key.len() {
        assert(t.label =~= key);
        lemma_here(first);
    } else {
        let rest = key.skip(n);
        let i = slot(t.children, rest[0]) as int;
        lemma_slot(t.children, rest[0]);
        assert(t.label + rest =~= key);
        if i < t.children.len() {
            let child = t.children[i];
            assert(child.fits(room - t.label.len()));
            lemma_graft_again(child, rest, first, node, room - t.label.len());
            lemma_graft_find(child, rest, first, room - t.label.len());
            assert forall|j: int| 0 <= j < i implies (#[trigger] out.children[j]).label[0]
                != rest[0] by {
                assert(out.children[j] == t.children[j]);
            }
            lemma_slot_unique(out.children, rest[0], i as nat);
            lemma_step(out, rest);
            assert(out.children.update(i, child.graft(rest, node)) =~= t.children.update(
                i,
                child.graft(rest, node),
            ));
        } else {
            lemma_chain_again(rest, first, node);
            let at = gap(t.children, rest[0]);
            lemma_gap(t.children, rest[0]);
            assert forall|j: int| 0 <= j < at implies (#[trigger] out.children[j]).label[0]
                != rest[0] by {
                assert(out.children[j] == t.children[j]);
            }
            lemma_slot_unique(out.children, rest[0], at);
            lemma_step(out, rest);
            assert(out.children.update(at as int, chain(rest, node)) =~= t.children.insert(
                at as int,
                chain(rest, node),
            ));
        }
    }
}

/// An only child is drawn into its parent exactly if the parent has no value and the two labels,
/// one behind the other, have at most 255 bytes; everything else stays.
pub proof fn law_merged<V>(t: Tree<V>)
    ensures
        t.merged() == if t.value is None && t.children.len() == 1 && t.label.len()
            + t.children[0].label.len() <= 255 {
            Tree {
                label: t.label + t.children[0].label,
                value: t.children[0].value,
                children: t.children[0].children,
            }
        } else {
            t
        },
{
}

/// Removing the key of the top takes its value and nothing else, and removing a key that does not
/// begin with the label of the top does nothing.
pub proof fn law_remove_here<V>(t: Tree<V>, key: Seq<u8>)
    ensures
        t.remove(t.label) == (Tree { value: None, ..t }),
        !starts_with(key, t.label) ==> t.remove(key) == t,
{
}

/// Removing a key below the label of the top goes on in the first child that begins with its next
/// byte, if the key runs through the label of that child. A child that has nothing below it goes
/// with its key; from any other the key is removed, and then an only child drawn into it.
pub proof fn law_remove_below<V>(t: Tree<V>, rest: Seq<u8>, i: int)
    requires
        rest.len() > 0,
        0 <= i <= t.children.len(),
        forall|j: int| 0 <= j < i ==> (#[trigger] t.children[j]).label[0] != rest[0],
        i < t.children.len() ==> t.children[i].label[0] == rest[0],
    ensures
        t.remove(t.label + rest) == if i < t.children.len() && starts_with(
            rest,
            t.children[i].label,
        ) {
            if rest == t.children[i].label && t.children[i].children.len() == 0 {
                Tree { children: t.children.remove(i), ..t }
            } else {
                Tree { children: t.children.update(i, t.children[i].remove(rest).merged()), ..t }
            }
        } else {
            t
        },
{
    lemma_slot_unique(t.children, rest[0], i as nat);
    assert((t.label + rest).skip(t.label.len() as int) =~= rest);
    if i < t.children.len() && starts_with(rest, t.children[i].label) {
        let tail = rest.skip(t.children[i].label.len() as int);
        if tail.len() == 0 {
            assert(rest =~= t.children[i].label);
        }
    }
}

/// Removing a key that has no value leaves a tidy tree as it is.
pub proof fn law_remove_absent<V>(t: Tree<V>, key: Seq<u8>)
    requires
        t.tidy(),
        t.lookup(key) is None,
    ensures
        t.remove(key) == t,
{
    lemma_tidy_remove(t, key);
    lemma_fits_wider(t, MAX_LABEL_LEN as int, usize::MAX as int);
    lemma_ordered_distinct(t);
    assert forall|q: Seq<u8>| #[trigger] t.remove(key).lookup(q) == t.lookup(q) by {
        law_remove(t, key, q);
    }
    lemma_unique(t.remove(key), t);
}

/// What is split off is the highest node at or below the prefix, with its value and all that is
/// below it, under its whole key as its label.
pub proof fn law_split_part<V>(t: Tree<V>, key: Seq<u8>)
    ensures
        match t.split(key).0 {
            Some(part) => t.cover(key) is Some && part == (Tree {
                label: (t.cover(key)->0).0,
                value: (t.cover(key)->0).1.value,
                children: (t.cover(key)->0).1.children,
            }),
            None => t.cover(key) is None || starts_with(t.label, key),
        },
{
    if starts_with(key, t.label) && key.len() > t.label.len() {
        lemma_rejoin(key, t.label);
        assert(Seq::<u8>::empty() + t.label + key.skip(t.label.len() as int) =~= key);
        lemma_split_part(t, key.skip(t.label.len() as int), key, Seq::empty());
        match t.cover(key) {
            Some((path, node)) => {
                assert(Seq::<u8>::empty() + path =~= path);
            },
            None => {},
        }
    }
}

proof fn lemma_split_part<V>(t: Tree<V>, rest: Seq<u8>, key: Seq<u8>, above: Seq<u8>)
    requires
        rest.len() > 0,
        key == above + t.label + rest,
    ensures
        t.split_below(rest, key).0 == match t.cover(t.label + rest) {
            Some((path, node)) => Some(Tree { label: above + path, ..node }),
            None => None,
        },
    decreases t,
{
    let i = slot(t.children, rest[0]) as int;
    if i < t.children.len() {
        let child = t.children[i];
        lemma_step(t, rest);
        if starts_with(child.label, rest) {
            assert(key + child.label.skip(rest.len() as int) =~= above + (t.label + child.label));
        } else if starts_with(rest, child.label) {
            let tail = rest.skip(child.label.len() as int);
            lemma_rejoin(rest, child.label);
            assert(key =~= above + t.label + child.label + tail);
            lemma_split_part(child, tail, key, above + t.label);
            match child.cover(rest) {
                Some((path, node)) => {
                    assert(above + t.label + path =~= above + (t.label + path));
                },
                None => {},
            }
        }
    } else {
        assert((t.label + rest).skip(t.label.len() as int) =~= rest);
        if starts_with(t.label, t.label + rest) {
            assert(false);
        }
    }
}

/// A split below the label of the top goes on in the first child that begins with the next byte of
/// the prefix. That child goes as a whole if the prefix ends within its label or with it, and in
/// the latter case an only child that is left is drawn into the parent; if the prefix runs on, the
/// child itself is split. Everything else stays.
pub proof fn law_split_left<V>(t: Tree<V>, rest: Seq<u8>, i: int)
    requires
        rest.len() > 0,
        0 <= i <= t.children.len(),
        forall|j: int| 0 <= j < i ==> (#[trigger] t.children[j]).label[0] != rest[0],
        i < t.children.len() ==> t.children[i].label[0] == rest[0],
    ensures
        t.split(t.label + rest).1 == if i == t.children.len() {
            t
        } else if starts_with(t.children[i].label, rest) {
            if rest.len() < t.children[i].label.len() {
                Tree { children: t.children.remove(i), ..t }
            } else {
                (Tree { children: t.children.remove(i), ..t }).merged()
            }
        } else {
            Tree { children: t.children.update(i, t.children[i].split(rest).1), ..t }
        },
{
    let key = t.label + rest;
    lemma_slot_unique(t.children, rest[0], i as nat);
    assert(key.skip(t.label.len() as int) =~= rest);
    if i < t.children.len() {
        let child = t.children[i];
        if !starts_with(child.label, rest) && starts_with(rest, child.label) {
            if rest.len() == child.label.len() {
                assert(rest =~= child.label);
            }
            lemma_left_same(child, rest.skip(child.label.len() as int), key, rest);
        } else if !starts_with(child.label, rest) {
            assert(t.children.update(i, child) =~= t.children);
        }
    }
}

proof fn lemma_left_same<V>(t: Tree<V>, rest: Seq<u8>, a: Seq<u8>, b: Seq<u8>)
    ensures
        t.split_below(rest, a).1 == t.split_below(rest, b).1,
    decreases t,
{
    let i = slot(t.children, rest[0]) as int;
    if i < t.children.len() {
        let child = t.children[i];
        if !starts_with(child.label, rest) && starts_with(rest, child.label) {
            lemma_left_same(child, rest.skip(child.label.len() as int), a, b);
        }
    }
}

/// A prefix that is no longer than the label of the top, or parts from it, splits nothing off.
pub proof fn law_split_here<V>(t: Tree<V>, key: Seq<u8>)
    requires
        starts_with(t.label, key) || !starts_with(key, t.label),
    ensures
        t.split(key).0 is None,
        t.split(key).1 == t,
{
}

/// In a copy of a tree every key leads to a node with the same label and as many children, which
/// has a copy of the value that was there, if any was.
pub proof fn law_copied<V: Clone>(a: Tree<V>, b: Tree<V>, key: Seq<u8>)
    requires
        copied(a, b),
    ensures
        match (a.find(key), b.find(key)) {
            (Some(x), Some(y)) => {
                &&& x.label == y.label
                &&& x.children.len() == y.children.len()
                &&& match (x.value, y.value) {
                    (Some(v), Some(w)) => cloned(v, w),
                    (None, None) => true,
                    _ => false,
                }
            },
            (None, None) => true,
            _ => false,
        },
        match (a.lookup(key), b.lookup(key)) {
            (Some(v), Some(w)) => cloned(v, w),
            (None, None) => true,
            _ => false,
        },
{
    let rel = |x: V, y: V| cloned(x, y);
    lemma_copied_rewritten(a, b, rel);
    lemma_rewritten_find(a, b, rel, key);
}

proof fn lemma_copied_rewritten<V: Clone>(a: Tree<V>, b: Tree<V>, rel: spec_fn(V, V) -> bool)
    requires
        copied(a, b),
        forall|x: V, y: V| cloned(x, y) ==> #[trigger] rel(x, y),
    ensures
        rewritten(a, b, rel),
    decreases a,
{
    assert forall|i: int| 0 <= i < a.children.len() implies rewritten(
        #[trigger] a.children[i],
        #[trigger] b.children[i],
        rel,
    ) by {
        lemma_copied_rewritten(a.children[i], b.children[i], rel);
    }
}

/// A tree whose values were rewritten has the same nodes: every key leads to one with the same
/// label and as many children, if it led to any.
pub proof fn law_rewritten_shape<V>(
    t: Tree<V>,
    u: Tree<V>,
    rel: spec_fn(V, V) -> bool,
    key: Seq<u8>,
)
    requires
        rewritten(t, u, rel),
    ensures
        match (t.find(key), u.find(key)) {
            (Some(x), Some(y)) => {
                &&& x.label == y.label
                &&& x.children.len() == y.children.len()
                &&& match (x.value, y.value) {
                    (Some(v), Some(w)) => rel(v, w),
                    (None, None) => true,
                    _ => false,
                }
            },
            (None, None) => true,
            _ => false,
        },
{
    lemma_rewritten_find(t, u, rel, key);
}

} // verus!
