//! Iterators over the nodes on the way along a key.
use vstd::prelude::*;
use crate::bytes::{starts_with, strip_prefix, BorrowedBytes};
use crate::descent::lemma_step;
use crate::node::Node;
use crate::tree::{slot, Tree};

verus! {

/// The nodes that end along `rest`, from the top down, each with the number of bytes up to its
/// end; `above` bytes come before `rest`.
pub open spec fn stops<V>(t: Tree<V>, rest: Seq<u8>, above: nat) -> Seq<(nat, Tree<V>)>
    decreases t,
{
    if !starts_with(rest, t.label) {
        Seq::empty()
    } else {
        let end = above + t.label.len();
        let tail = rest.skip(t.label.len() as int);
        let i = slot(t.children, tail[0]) as int;
        seq![(end, t)] + if tail.len() > 0 && i < t.children.len() {
            stops(t.children[i], tail, end)
        } else {
            Seq::empty()
        }
    }
}

/// [`stops`] for a node that may not be there, `offset` bytes into `key`.
pub open spec fn stops_from<V>(key: Seq<u8>, at: Option<(usize, &Node<V>)>) -> Seq<(nat, Tree<V>)> {
    match at {
        Some((offset, node)) => stops(node@, key.skip(offset as int), offset as nat),
        None => Seq::empty(),
    }
}

/// Whether a walk along `key` can go on at a node, if there is one.
pub open spec fn walkable<V>(key: Seq<u8>, at: Option<(usize, &Node<V>)>) -> bool {
    match at {
        Some((offset, node)) => offset <= key.len() && node@.bounded(),
        None => true,
    }
}

/// The nodes along a key are those that its front parts lead to, and come in ascending order of
/// the lengths of those parts.
pub proof fn lemma_stops<V>(t: Tree<V>, rest: Seq<u8>, above: nat, n: nat, node: Tree<V>)
    requires
        t.bounded(),
    ensures
        stops(t, rest, above).contains((n, node)) <==> above <= n <= above + rest.len() && t.find(
            rest.take(n - above),
        ) == Some(node),
        forall|i: int|
            0 <= i < stops(t, rest, above).len() ==> above + t.label.len() <= (#[trigger] stops(
                t,
                rest,
                above,
            )[i]).0,
        forall|i: int, j: int|
            0 <= i < j < stops(t, rest, above).len() ==> (#[trigger] stops(t, rest, above)[i]).0 < (
            #[trigger] stops(t, rest, above)[j]).0,
    decreases t,
{
    let room = choose|room: int| #[trigger] t.fits(room);
    let all = stops(t, rest, above);
    let front = rest.take(n - above);
    if starts_with(rest, t.label) {
        let end = above + t.label.len();
        let tail = rest.skip(t.label.len() as int);
        let i = slot(t.children, tail[0]) as int;
        let down = if tail.len() > 0 && i < t.children.len() {
            stops(t.children[i], tail, end)
        } else {
            Seq::empty()
        };
        if tail.len() > 0 && i < t.children.len() {
            assert(t.children[i].fits(room - t.label.len()));
            lemma_stops(t.children[i], tail, end, n, node);
        }
        assert(all[0] == (end, t));
        let sought = above <= n <= above + rest.len() && t.find(front) == Some(node);
        if sought {
            if n != end {
                let inner = front.skip(t.label.len() as int);
                assert(inner =~= tail.take(n - end));
                if i < t.children.len() {
                    let k = choose|k: int| 0 <= k < down.len() && down[k] == (n, node);
                    assert(all[k + 1] == (n, node));
                }
            }
        }
        if all.contains((n, node)) {
            let k = choose|k: int| 0 <= k < all.len() && all[k] == (n, node);
            if k > 0 {
                let inner = tail.take(n - end);
                assert(front =~= t.label + inner);
                lemma_step(t, inner);
            }
        }
    }
}

/// An iterator over entries in that collects all values up to
/// until the key stops matching.
#[derive(Debug)]
pub struct CommonPrefixesIter<'a, 'b, K: ?Sized, V> {
    key: &'b K,
    at: Option<(usize, &'a Node<V>)>,
}

/// An iterator over entries in that collects all values up to
/// until the key stops matching.
#[derive(Debug)]
pub struct CommonPrefixesIterOwned<'a, K, V> {
    key: K,
    at: Option<(usize, &'a Node<V>)>,
}

/// Returns the node at which a walk along `key` stops next, with the number of bytes up to its
/// end, and where the walk goes on.
fn step<'a, V>(key: &[u8], at: Option<(usize, &'a Node<V>)>) -> (stop: (
    Option<(usize, &'a Node<V>)>,
    Option<(usize, &'a Node<V>)>,
))
    requires
        walkable(key@, at),
    ensures
        walkable(key@, stop.1),
        stop.0 is Some <==> stops_from(key@, at).len() > 0,
        stop.0 is None ==> stops_from(key@, stop.1).len() == 0,
        stop.0 is Some ==> {
            &&& stops_from(key@, at)[0] == ((stop.0->0).0 as nat, (stop.0->0).1@)
            &&& stops_from(key@, stop.1) == stops_from(key@, at).drop_first()
        },
{
    match at {
        None => (None, None),
        Some((offset, node)) => {
            let ghost t = node@;
            let ghost room = choose|room: int| #[trigger] t.fits(room);
            let rest = vstd::slice::slice_subrange(key, offset, key.len());
            match strip_prefix(rest, node.label()) {
                None => (None, None),
                Some(tail) => {
                    let end: usize = offset + node.label_len();
                    let mut next: Option<(usize, &Node<V>)> = None;
                    if tail.len() > 0 {
                        if let Some(child) = node.child_with_first(tail[0]) {
                            next = Some((end, child));
                            proof {
                                let i = slot(t.children, tail@[0]) as int;
                                assert(t.children[i].fits(room - t.label.len()));
                                assert(tail@ =~= key@.skip(end as int));
                            }
                        }
                    }
                    (Some((end, node)), next)
                },
            }
        },
    }
}

impl<V> Node<V> {
    /// Gets an iterator over the nodes along `key`.
    pub fn common_prefixes<'a, 'b, K>(&'a self, key: &'b K) -> (iter: CommonPrefixesIter<
        'a,
        'b,
        K,
        V,
    >) where K: ?Sized + BorrowedBytes
        requires
            self@.valid(),
        ensures
            iter.wf(),
            iter.remaining() == stops(self@, key.bytes(), 0),
    {
        let iter = CommonPrefixesIter { key, at: Some((0, self)) };
        assert(key.bytes().skip(0) =~= key.bytes());
        iter
    }

    /// Gets an iterator over the nodes along `key` that keeps the key.
    pub fn common_prefixes_owned<K: BorrowedBytes>(&self, key: K) -> (iter: CommonPrefixesIterOwned<
        '_,
        K,
        V,
    >)
        requires
            self@.valid(),
        ensures
            iter.wf(),
            iter.remaining() == stops(self@, key.bytes(), 0),
    {
        let iter = CommonPrefixesIterOwned { key, at: Some((0, self)) };
        assert(iter.key.bytes().skip(0) =~= iter.key.bytes());
        iter
    }
}

impl<'a, 'b, K: ?Sized + BorrowedBytes, V> CommonPrefixesIter<'a, 'b, K, V> {
    /// Whether the walk can go on.
    pub closed spec fn wf(self) -> bool {
        walkable(self.key.bytes(), self.at)
    }

    /// The nodes to come, with the numbers of bytes up to their ends.
    pub closed spec fn remaining(self) -> Seq<(nat, Tree<V>)> {
        stops_from(self.key.bytes(), self.at)
    }

    /// Returns the next node along the key and the number of bytes up to its end.
    pub fn next(&mut self) -> (item: Option<(usize, &'a Node<V>)>)
        requires
            old(self).wf(),
        ensures
            final(self).wf(),
            item is Some <==> old(self).remaining().len() > 0,
            item is Some ==> {
                &&& old(self).remaining()[0] == ((item->0).0 as nat, (item->0).1@)
                &&& final(self).remaining() == old(self).remaining().drop_first()
            },
            item is None ==> final(self).remaining() == old(self).remaining(),
    {
        let (item, at) = step(self.key.as_bytes(), self.at);
        self.at = at;
        item
    }
}

impl<'a, K: BorrowedBytes, V> CommonPrefixesIterOwned<'a, K, V> {
    /// Whether the walk can go on.
    pub closed spec fn wf(self) -> bool {
        walkable(self.key.bytes(), self.at)
    }

    /// The nodes to come, with the numbers of bytes up to their ends.
    pub closed spec fn remaining(self) -> Seq<(nat, Tree<V>)> {
        stops_from(self.key.bytes(), self.at)
    }

    /// Returns the next node along the key and the number of bytes up to its end.
    pub fn next(&mut self) -> (item: Option<(usize, &'a Node<V>)>)
        requires
            old(self).wf(),
        ensures
            final(self).wf(),
            item is Some <==> old(self).remaining().len() > 0,
            item is Some ==> {
                &&& old(self).remaining()[0] == ((item->0).0 as nat, (item->0).1@)
                &&& final(self).remaining() == old(self).remaining().drop_first()
            },
            item is None ==> final(self).remaining() == old(self).remaining(),
    {
        let (item, at) = step(self.key.as_bytes(), self.at);
        self.at = at;
        item
    }
}

} // verus!
