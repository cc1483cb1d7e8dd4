//! What making a place in a tree keeps, and what it changes.
use vstd::prelude::*;
use crate::bytes::{lcp, lemma_lcp, starts_with};
use crate::descent::{lemma_gap, lemma_rejoin, lemma_slot, lemma_slot_unique};
use crate::tree::{chain, gap, last_piece, slot, Tree, MAX_LABEL_LEN};

verus! {

/// More room never hurts.
pub proof fn lemma_fits_wider<V>(t: Tree<V>, room: int, wider: int)
    requires
        t.fits(room),
        room <= wider,
    ensures
        t.fits(wider),
    decreases t,
{
    assert forall|i: int| 0 <= i < t.children.len() implies (
    #[trigger] t.children[i]).label.len() > 0 && t.children[i].fits(wider - t.label.len()) by {
        lemma_fits_wider(t.children[i], room - t.label.len(), wider - t.label.len());
    }
}

/// The last piece of a key is neither too long nor, unless the key is, empty.
pub proof fn lemma_last_piece(key: Seq<u8>)
    ensures
        last_piece(key).len() <= MAX_LABEL_LEN,
        last_piece(key).len() <= key.len(),
        key.len() > 0 ==> last_piece(key).len() > 0,
    decreases key.len(),
{
    if key.len() > MAX_LABEL_LEN {
        lemma_last_piece(key.skip(MAX_LABEL_LEN as int));
    }
}

/// A chain for a key begins with the key's first byte and takes as much room as its end asks for.
pub proof fn lemma_chain<V>(key: Seq<u8>, end: Tree<V>, room: int)
    requires
        end.label == last_piece(key),
        key.len() > 0,
    ensures
        chain(key, end).label.len() > 0,
        chain(key, end).label[0] == key[0],
        key.len() <= room && end.fits(room - key.len() + end.label.len()) ==> chain(key, end).fits(
            room,
        ),
        end.ordered() ==> chain(key, end).ordered(),
        end.distinct() ==> chain(key, end).distinct(),
    decreases key.len(),
{
    if key.len() > MAX_LABEL_LEN {
        lemma_chain(key.skip(MAX_LABEL_LEN as int), end, room - MAX_LABEL_LEN);
    }
}

/// The parts into which a label is cut take no more room than before.
pub proof fn lemma_stem<V>(t: Tree<V>, n: int, room: int)
    requires
        0 <= n <= t.label.len(),
    ensures
        t.fits(room) ==> t.stem(n).fits(room - n),
        t.ordered() ==> t.stem(n).ordered(),
        t.distinct() ==> t.stem(n).distinct(),
{
}

/// The place for a key takes no more room than its key asks for.
pub proof fn lemma_spot_fits<V>(t: Tree<V>, key: Seq<u8>, room: int)
    requires
        t.fits(room),
        key.len() <= room,
    ensures
        t.spot(key).fits(room - key.len() + t.spot(key).label.len()),
        t.ordered() ==> t.spot(key).ordered(),
        t.distinct() ==> t.spot(key).distinct(),
    decreases t,
{
    lemma_lcp(t.label, key);
    let n = lcp(t.label, key) as int;
    if n < t.label.len() {
        if n < key.len() {
            lemma_last_piece(key.skip(n));
        } else {
            lemma_stem(t, n, room);
        }
    } else if n < key.len() {
        let rest = key.skip(n);
        let i = slot(t.children, rest[0]) as int;
        if i < t.children.len() {
            lemma_spot_fits(t.children[i], rest, room - n);
        } else {
            lemma_last_piece(rest);
        }
    }
}

/// A tree with a node in the place for a key takes no more room than the tree and the node, and
/// keeps its first byte if the key has it.
proof fn lemma_graft_fits<V>(t: Tree<V>, key: Seq<u8>, node: Tree<V>, room: int)
    requires
        t.fits(room),
        t.has_room(key),
        key.len() <= room,
        node.label == t.spot(key).label,
        node.fits(room - key.len() + node.label.len()),
    ensures
        t.graft(key, node).fits(room),
        t.label.len() > 0 && key.len() > 0 && t.label[0] == key[0] ==> {
            &&& t.graft(key, node).label.len() > 0
            &&& t.graft(key, node).label[0] == t.label[0]
        },
    decreases t,
{
    lemma_lcp(t.label, key);
    let n = lcp(t.label, key) as int;
    if n < t.label.len() {
        if n < key.len() {
            lemma_chain(key.skip(n), node, room - n);
            lemma_stem(t, n, room);
        }
    } else if n < key.len() {
        let rest = key.skip(n);
        let i = slot(t.children, rest[0]) as int;
        lemma_slot(t.children, rest[0]);
        if i < t.children.len() {
            lemma_graft_fits(t.children[i], rest, node, room - n);
        } else {
            lemma_gap(t.children, rest[0]);
            lemma_chain(rest, node, room - n);
        }
    }
}

/// A tree with a node in the place for a key has its children in order if the tree and the node
/// have.
proof fn lemma_graft_ordered<V>(t: Tree<V>, key: Seq<u8>, node: Tree<V>, room: int)
    requires
        t.fits(room),
        t.has_room(key),
        key.len() <= room,
        node.label == t.spot(key).label,
        node.fits(room - key.len() + node.label.len()),
        t.ordered(),
        node.ordered(),
    ensures
        t.graft(key, node).ordered(),
    decreases t,
{
    lemma_lcp(t.label, key);
    let n = lcp(t.label, key) as int;
    if n < t.label.len() {
        if n < key.len() {
            lemma_chain(key.skip(n), node, room - n);
            lemma_stem(t, n, room);
        }
    } else if n < key.len() {
        let rest = key.skip(n);
        let i = slot(t.children, rest[0]) as int;
        lemma_slot(t.children, rest[0]);
        if i < t.children.len() {
            lemma_graft_ordered(t.children[i], rest, node, room - n);
        } else {
            lemma_gap(t.children, rest[0]);
            lemma_chain(rest, node, room - n);
        }
    }
}

/// A tree with a node in the place for a key has no first byte twice if the tree and the node have
/// none.
proof fn lemma_graft_distinct<V>(t: Tree<V>, key: Seq<u8>, node: Tree<V>, room: int)
    requires
        t.fits(room),
        t.has_room(key),
        key.len() <= room,
        node.label == t.spot(key).label,
        node.fits(room - key.len() + node.label.len()),
        t.distinct(),
        node.distinct(),
    ensures
        t.graft(key, node).distinct(),
    decreases t,
{
    lemma_lcp(t.label, key);
    let n = lcp(t.label, key) as int;
    if n < t.label.len() {
        if n < key.len() {
            lemma_chain(key.skip(n), node, room - n);
            lemma_stem(t, n, room);
        }
    } else if n < key.len() {
        let rest = key.skip(n);
        let i = slot(t.children, rest[0]) as int;
        lemma_slot(t.children, rest[0]);
        if i < t.children.len() {
            lemma_graft_distinct(t.children[i], rest, node, room - n);
        } else {
            lemma_gap(t.children, rest[0]);
            lemma_chain(rest, node, room - n);
        }
    }
}

/// A tree with a node in the place for a key is as well-formed as the tree and the node.
pub proof fn lemma_graft<V>(t: Tree<V>, key: Seq<u8>, node: Tree<V>, room: int)
    requires
        t.fits(room),
        t.has_room(key),
        key.len() <= room,
        node.label == t.spot(key).label,
        node.fits(room - key.len() + node.label.len()),
    ensures
        t.graft(key, node).fits(room),
        t.ordered() && node.ordered() ==> t.graft(key, node).ordered(),
        t.distinct() && node.distinct() ==> t.graft(key, node).distinct(),
{
    lemma_graft_fits(t, key, node, room);
    if t.ordered() && node.ordered() {
        lemma_graft_ordered(t, key, node, room);
    }
    if t.distinct() && node.distinct() {
        lemma_graft_distinct(t, key, node, room);
    }
}

/// The only key that leads through a chain to a value is the chain's own.
pub proof fn lemma_lookup_chain<V>(key: Seq<u8>, end: Tree<V>, q: Seq<u8>)
    requires
        key.len() > 0,
        end.label == last_piece(key),
        end.children.len() == 0,
    ensures
        chain(key, end).lookup(q) == if q == key {
            end.value
        } else {
            None
        },
    decreases key.len(),
{
    if key.len() > MAX_LABEL_LEN {
        let label = key.take(MAX_LABEL_LEN as int);
        let below = key.skip(MAX_LABEL_LEN as int);
        assert(key =~= label + below);
        if starts_with(q, label) {
            lemma_rejoin(q, label);
            let rest = q.skip(MAX_LABEL_LEN as int);
            lemma_lookup_chain(below, end, rest);
        }
    } else {
        if starts_with(q, key) {
            lemma_rejoin(q, key);
        }
    }
}

/// Below the part of a label that is cut off, keys are what they were.
pub proof fn lemma_lookup_stem<V>(t: Tree<V>, n: int, q: Seq<u8>)
    requires
        0 <= n < t.label.len(),
    ensures
        t.stem(n).lookup(q) == t.lookup(t.label.take(n) + q),
{
    let key = t.label.take(n) + q;
    let stem = t.stem(n);
    if starts_with(q, stem.label) {
        assert(key.skip(t.label.len() as int) =~= q.skip(stem.label.len() as int));
    }
}

/// Putting into the place for `key` a node that differs from what belongs there by its value alone
/// changes the value at `key` and no other.
pub proof fn lemma_lookup_graft<V>(
    t: Tree<V>,
    key: Seq<u8>,
    node: Tree<V>,
    q: Seq<u8>,
    room: int,
)
    requires
        t.fits(room),
        node == t.spot(key).with_value(node.value),
    ensures
        t.graft(key, node).lookup(q) == if q == key {
            node.value
        } else {
            t.lookup(q)
        },
    decreases t,
{
    lemma_lcp(t.label, key);
    let n = lcp(t.label, key) as int;
    let all = t.graft(key, node);
    if n < t.label.len() {
        let front = t.label.take(n);
        if starts_with(q, front) {
            lemma_rejoin(q, front);
        }
        if starts_with(key, front) {
            lemma_rejoin(key, front);
        }
        let rest = q.skip(n);
        if n < key.len() {
            let below = key.skip(n);
            lemma_lookup_chain(below, node, rest);
            lemma_lookup_stem(t, n, rest);
            if starts_with(q, front) && rest.len() > 0 {
                if rest[0] != all.children[0].label[0] && rest[0] == all.children[1].label[0] {
                    lemma_slot_unique(all.children, rest[0], 1);
                }
            }
        } else {
            lemma_lookup_stem(t, n, rest);
        }
    } else if n == key.len() {
        assert(key =~= t.label);
        if starts_with(q, t.label) {
            lemma_rejoin(q, t.label);
        }
    } else {
        let below = key.skip(n);
        let rest = q.skip(n);
        let i = slot(t.children, below[0]) as int;
        lemma_slot(t.children, below[0]);
        lemma_rejoin(key, t.label);
        if starts_with(q, t.label) {
            lemma_rejoin(q, t.label);
        }
        if starts_with(q, t.label) && rest.len() > 0 {
            lemma_slot(t.children, rest[0]);
            let j = slot(t.children, rest[0]) as int;
            if i < t.children.len() {
                let child = t.children[i];
                let room2 = room - n;
                lemma_lookup_graft(child, below, node, rest, room2);
                if j == i {
                    lemma_slot_unique(all.children, rest[0], i as nat);
                } else {
                    lemma_slot_unique(all.children, rest[0], j as nat);
                }
            } else {
                let g = gap(t.children, below[0]) as int;
                lemma_gap(t.children, below[0]);
                lemma_lookup_chain(below, node, rest);
                if rest[0] == below[0] {
                    lemma_slot_unique(all.children, rest[0], g as nat);
                } else {
                    let k2 = if j < g {
                        j
                    } else {
                        j + 1
                    };
                    lemma_slot_unique(all.children, rest[0], k2 as nat);
                }
            }
        }
    }
}

/// [`lemma_lookup_graft`] for all keys at once.
pub proof fn lemma_entries_graft<V>(t: Tree<V>, key: Seq<u8>, value: Option<V>)
    requires
        t.valid(),
    ensures
        t.graft(key, t.spot(key).with_value(value)).entries() == match value {
            Some(v) => t.entries().insert(key, v),
            None => t.entries().remove(key),
        },
{
    let node = t.spot(key).with_value(value);
    let all = t.graft(key, node);
    assert forall|q: Seq<u8>| #[trigger]
        all.lookup(q) == if q == key {
            value
        } else {
            t.lookup(q)
        } by {
        lemma_lookup_graft(t, key, node, q, usize::MAX as int);
    }
}

/// With another value in the place for a key, a tree is as well-formed as before and holds that
/// value and all the others.
pub proof fn lemma_value_at<V>(t: Tree<V>, key: Seq<u8>, value: Option<V>)
    requires
        t.valid(),
        t.has_room(key),
        key.len() <= usize::MAX,
    ensures
        t.graft(key, t.spot(key).with_value(value)).valid(),
        t.ordered() ==> t.graft(key, t.spot(key).with_value(value)).ordered(),
        t.distinct() ==> t.graft(key, t.spot(key).with_value(value)).distinct(),
        t.graft(key, t.spot(key).with_value(value)).entries() == match value {
            Some(v) => t.entries().insert(key, v),
            None => t.entries().remove(key),
        },
{
    let room = usize::MAX as int;
    let spot = t.spot(key);
    lemma_spot_fits(t, key, room);
    lemma_graft(t, key, spot.with_value(value), room);
    lemma_entries_graft(t, key, value);
}

/// A key that leads to a node is no longer than a path may be.
pub proof fn lemma_found_len<V>(t: Tree<V>, key: Seq<u8>, room: int)
    requires
        t.fits(room),
        t.find(key) is Some,
    ensures
        key.len() <= room,
    decreases t,
{
    let rest = key.skip(t.label.len() as int);
    if rest.len() > 0 {
        let i = slot(t.children, rest[0]) as int;
        lemma_found_len(t.children[i], rest, room - t.label.len());
    }
}

} // verus!
