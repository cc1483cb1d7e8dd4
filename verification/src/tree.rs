//! The mathematical model of a radix tree.
use vstd::prelude::*;
use crate::bytes::{lcp, starts_with};

verus! {

/// The greatest number of bytes in one label, and of children below one node.
pub const MAX_LABEL_LEN: usize = 255;

/// What a [`Node`](crate::Node) stands for: a label, an optional value and the trees below it.
#[verifier::ext_equal]
pub ghost struct Tree<V> {
    pub label: Seq<u8>,
    pub value: Option<V>,
    pub children: Seq<Tree<V>>,
}

/// The position of the first tree whose label begins with `b`, or `ts.len()` if there is none.
pub open spec fn slot<V>(ts: Seq<Tree<V>>, b: u8) -> nat
    decreases ts.len(),
{
    if ts.len() == 0 || ts[0].label[0] == b {
        0
    } else {
        1 + slot(ts.skip(1), b)
    }
}

/// The position at which a tree whose label begins with `b` belongs: that of the first tree whose
/// label begins with `b` or a greater byte, or `ts.len()` if there is none.
pub open spec fn gap<V>(ts: Seq<Tree<V>>, b: u8) -> nat
    decreases ts.len(),
{
    if ts.len() == 0 || ts[0].label[0] >= b {
        0
    } else {
        1 + gap(ts.skip(1), b)
    }
}

/// The last of the pieces of at most [`MAX_LABEL_LEN`] bytes that `key` is cut into.
pub open spec fn last_piece(key: Seq<u8>) -> Seq<u8>
    decreases key.len(),
{
    if key.len() <= MAX_LABEL_LEN {
        key
    } else {
        last_piece(key.skip(MAX_LABEL_LEN as int))
    }
}

/// `end` at the end of `key`: a row of nodes without values that carry the pieces of `key` before
/// the last one, each below the one before it, with `end` below them all.
pub open spec fn chain<V>(key: Seq<u8>, end: Tree<V>) -> Tree<V>
    decreases key.len(),
{
    if key.len() <= MAX_LABEL_LEN {
        end
    } else {
        Tree {
            label: key.take(MAX_LABEL_LEN as int),
            value: None,
            children: seq![chain(key.skip(MAX_LABEL_LEN as int), end)],
        }
    }
}

impl<V> Tree<V> {
    /// A node without a value and without children.
    pub open spec fn leaf(label: Seq<u8>) -> Self {
        Tree { label, value: None, children: Seq::empty() }
    }

    /// This tree with another value at its top.
    pub open spec fn with_value(self, value: Option<V>) -> Self {
        Tree { value, ..self }
    }

    /// This tree with its `i`-th child replaced.
    pub open spec fn with_child(self, i: int, child: Self) -> Self {
        Tree { children: self.children.update(i, child), ..self }
    }

    /// This tree without its `i`-th child.
    pub open spec fn without_child(self, i: int) -> Self {
        Tree { children: self.children.remove(i), ..self }
    }

    /// The part of this tree that stands below the first `n` bytes of its label.
    pub open spec fn stem(self, n: int) -> Self {
        Tree { label: self.label.skip(n), ..self }
    }

    /// This tree with its label cut after `n` bytes: the top keeps those bytes and nothing else,
    /// and the rest of the label, the value and the children move one level down.
    pub open spec fn cut(self, n: int) -> Self {
        Tree { label: self.label.take(n), value: None, children: seq![self.stem(n)] }
    }

    /// This tree cut after `n` bytes, with `twig` as a second child, in the place of a child whose
    /// label begins with `b`.
    pub open spec fn fork(self, n: int, b: u8, twig: Self) -> Self {
        Tree {
            label: self.label.take(n),
            value: None,
            children: if b < self.label[n] {
                seq![twig, self.stem(n)]
            } else {
                seq![self.stem(n), twig]
            },
        }
    }

    /// Whether this tree can stand in memory: labels and numbers of children are within
    /// [`MAX_LABEL_LEN`], only the top may have an empty label, and no path from the top is longer
    /// than `room` bytes.
    pub open spec fn fits(self, room: int) -> bool
        decreases self,
    {
        &&& self.label.len() <= MAX_LABEL_LEN
        &&& self.label.len() <= room
        &&& self.children.len() <= MAX_LABEL_LEN
        &&& forall|i: int|
            0 <= i < self.children.len() ==> {
                &&& (#[trigger] self.children[i]).label.len() > 0
                &&& self.children[i].fits(room - self.label.len())
            }
    }

    /// The well-formedness of a tree: what every operation needs and keeps.
    pub open spec fn valid(self) -> bool {
        self.fits(usize::MAX as int)
    }

    /// The well-formedness of a part of a tree: paths have a limit, wherever it is.
    pub open spec fn bounded(self) -> bool {
        exists|room: int| #[trigger] self.fits(room)
    }

    /// Whether the children of every node stand in ascending order of their first bytes, no two of
    /// which are equal.
    pub open spec fn ordered(self) -> bool
        decreases self,
    {
        &&& forall|i: int, j: int|
            0 <= i < j < self.children.len() ==> (#[trigger] self.children[i]).label[0] < (
            #[trigger] self.children[j]).label[0]
        &&& forall|i: int|
            0 <= i < self.children.len() ==> (#[trigger] self.children[i]).ordered()
    }

    /// Whether no two children of any node have the same first byte, in whatever order they stand.
    pub open spec fn distinct(self) -> bool
        decreases self,
    {
        &&& forall|i: int, j: int|
            0 <= i < j < self.children.len() ==> (#[trigger] self.children[i]).label[0] != (
            #[trigger] self.children[j]).label[0]
        &&& forall|i: int|
            0 <= i < self.children.len() ==> (#[trigger] self.children[i]).distinct()
    }

    /// Whether a node has a reason to be there: it has a value, or the ways part at it.
    pub open spec fn needed(self) -> bool {
        self.value is Some || self.children.len() > 1
    }

    /// Whether every node below the top has a reason to be there.
    pub open spec fn compact(self) -> bool
        decreases self,
    {
        forall|i: int|
            0 <= i < self.children.len() ==> (#[trigger] self.children[i]).needed()
                && self.children[i].compact()
    }

    /// The form that a tree has which inserting and removing keys that fit into one label have
    /// made: children in order, no needless nodes, and no path longer than a label may be.
    pub open spec fn tidy(self) -> bool {
        &&& self.ordered()
        &&& self.compact()
        &&& self.fits(MAX_LABEL_LEN as int)
    }

    /// The tree that inserting `pairs` of keys and values makes of an empty one.
    pub open spec fn built(pairs: Seq<(Seq<u8>, V)>) -> Self
        decreases pairs.len(),
    {
        if pairs.len() == 0 {
            Self::leaf(Seq::empty())
        } else {
            Self::built(pairs.drop_last()).insert(pairs.last().0, pairs.last().1)
        }
    }

    /// Whether `pairs` can be inserted one after the other: there is room for each key when its
    /// turn comes.
    pub open spec fn buildable(pairs: Seq<(Seq<u8>, V)>) -> bool {
        forall|i: int|
            0 <= i < pairs.len() ==> Self::built(pairs.take(i)).has_room((#[trigger] pairs[i]).0)
    }

    /// The node at the end of `key`, if some node ends there. As everywhere, a key runs through
    /// the label of the top.
    pub open spec fn find(self, key: Seq<u8>) -> Option<Self>
        decreases self,
    {
        if !starts_with(key, self.label) {
            None
        } else {
            let rest = key.skip(self.label.len() as int);
            if rest.len() == 0 {
                Some(self)
            } else {
                let i = slot(self.children, rest[0]) as int;
                if i < self.children.len() {
                    self.children[i].find(rest)
                } else {
                    None
                }
            }
        }
    }

    /// The value at `key`.
    pub open spec fn lookup(self, key: Seq<u8>) -> Option<V> {
        match self.find(key) {
            Some(node) => node.value,
            None => None,
        }
    }

    /// The map from keys to values that this tree holds.
    pub open spec fn entries(self) -> Map<Seq<u8>, V> {
        Map::new(|key: Seq<u8>| self.lookup(key) is Some, |key: Seq<u8>| self.lookup(key)->0)
    }

    /// The highest node whose path begins with `key`, and that path, if there is such a node.
    pub open spec fn cover(self, key: Seq<u8>) -> Option<(Seq<u8>, Self)>
        decreases self,
    {
        if starts_with(self.label, key) {
            Some((self.label, self))
        } else if !starts_with(key, self.label) {
            None
        } else {
            let rest = key.skip(self.label.len() as int);
            let i = slot(self.children, rest[0]) as int;
            if i < self.children.len() {
                match self.children[i].cover(rest) {
                    Some((path, node)) => Some((self.label + path, node)),
                    None => None,
                }
            } else {
                None
            }
        }
    }

    /// Whether the first `n` bytes of `key` are the longest part of it, from its front, that has a
    /// value.
    pub open spec fn longest_match(self, key: Seq<u8>, n: int) -> bool {
        &&& 0 <= n <= key.len()
        &&& self.lookup(key.take(n)) is Some
        &&& forall|m: int| n < m <= key.len() ==> self.lookup(#[trigger] key.take(m)) is None
    }

    /// Whether no part of `key`, from its front, has a value.
    pub open spec fn no_match(self, key: Seq<u8>) -> bool {
        forall|m: int| 0 <= m <= key.len() ==> self.lookup(#[trigger] key.take(m)) is None
    }

    /// The node that stands for `key` once a node for it exists: the one that is there, or else
    /// the one that has to be made, without a value.
    pub open spec fn spot(self, key: Seq<u8>) -> Self
        decreases self,
    {
        let n = lcp(self.label, key);
        if n < self.label.len() {
            if n < key.len() {
                Self::leaf(last_piece(key.skip(n as int)))
            } else {
                self.cut(n as int)
            }
        } else if n == key.len() {
            self
        } else {
            let rest = key.skip(n as int);
            let i = slot(self.children, rest[0]) as int;
            if i < self.children.len() {
                self.children[i].spot(rest)
            } else {
                Self::leaf(last_piece(rest))
            }
        }
    }

    /// This tree with `node` in the place for `key`. Where a label runs on past `key`, or differs
    /// from it, the label is cut there; what is left of `key` then becomes a new chain.
    pub open spec fn graft(self, key: Seq<u8>, node: Self) -> Self
        decreases self,
    {
        let n = lcp(self.label, key);
        if n < self.label.len() {
            if n < key.len() {
                self.fork(n as int, key[n as int], chain(key.skip(n as int), node))
            } else {
                node
            }
        } else if n == key.len() {
            node
        } else {
            let rest = key.skip(n as int);
            let i = slot(self.children, rest[0]) as int;
            if i < self.children.len() {
                self.with_child(i, self.children[i].graft(rest, node))
            } else {
                Tree {
                    children: self.children.insert(
                        gap(self.children, rest[0]) as int,
                        chain(rest, node),
                    ),
                    ..self
                }
            }
        }
    }

    /// This tree with `value` at `key`.
    pub open spec fn insert(self, key: Seq<u8>, value: V) -> Self {
        self.graft(key, self.spot(key).with_value(Some(value)))
    }

    /// Whether the place for `key` can be made: the node that would get a new child for it, if
    /// any, does not have [`MAX_LABEL_LEN`] children yet.
    pub open spec fn has_room(self, key: Seq<u8>) -> bool
        decreases self,
    {
        let n = lcp(self.label, key);
        if n < self.label.len() || n == key.len() {
            true
        } else {
            let rest = key.skip(n as int);
            let i = slot(self.children, rest[0]) as int;
            if i < self.children.len() {
                self.children[i].has_room(rest)
            } else {
                self.children.len() < MAX_LABEL_LEN
            }
        }
    }

    /// Whether every node could get another child.
    pub open spec fn roomy(self) -> bool
        decreases self,
    {
        &&& self.children.len() < MAX_LABEL_LEN
        &&& forall|i: int| 0 <= i < self.children.len() ==> (#[trigger] self.children[i]).roomy()
    }

    /// This tree with its only child drawn into its top, if the top has no value and the two
    /// labels fit into one.
    pub open spec fn merged(self) -> Self {
        if self.value is None && self.children.len() == 1 && self.label.len()
            + self.children[0].label.len() <= MAX_LABEL_LEN {
            Tree { label: self.label + self.children[0].label, ..self.children[0] }
        } else {
            self
        }
    }

    /// This tree without the value at `rest` below the label of its top.
    pub open spec fn prune(self, rest: Seq<u8>) -> Self
        decreases self,
    {
        if rest.len() == 0 {
            self.with_value(None)
        } else {
            let i = slot(self.children, rest[0]) as int;
            if i < self.children.len() && starts_with(rest, self.children[i].label) {
                let child = self.children[i];
                let tail = rest.skip(child.label.len() as int);
                if tail.len() == 0 && child.children.len() == 0 {
                    self.without_child(i)
                } else {
                    self.with_child(i, child.prune(tail).merged())
                }
            } else {
                self
            }
        }
    }

    /// This tree without the value at `key`.
    pub open spec fn remove(self, key: Seq<u8>) -> Self {
        if starts_with(key, self.label) {
            self.prune(key.skip(self.label.len() as int))
        } else {
            self
        }
    }

    /// What is split off, and what stays, if the `i`-th child goes to a tree of its own under
    /// `key`, whose last `rest.len()` bytes are the front of the child's label.
    pub open spec fn detach(self, i: int, rest: Seq<u8>, key: Seq<u8>) -> (Self, Self) {
        let child = self.children[i];
        (
            Tree { label: key + child.label.skip(rest.len() as int), ..child },
            if rest.len() < child.label.len() {
                self.without_child(i)
            } else {
                self.without_child(i).merged()
            },
        )
    }

    /// [`Tree::split`] below the label of the top, where `rest` is what is left of `key`.
    pub open spec fn split_below(self, rest: Seq<u8>, key: Seq<u8>) -> (Option<Self>, Self)
        decreases self,
    {
        let i = slot(self.children, rest[0]) as int;
        if i < self.children.len() {
            let child = self.children[i];
            if starts_with(child.label, rest) {
                let (part, left) = self.detach(i, rest, key);
                (Some(part), left)
            } else if starts_with(rest, child.label) {
                let (part, left) = child.split_below(rest.skip(child.label.len() as int), key);
                (part, self.with_child(i, left))
            } else {
                (None, self)
            }
        } else {
            (None, self)
        }
    }

    /// What is split off this tree at `key`, and what stays. The top itself is never split off:
    /// where its label begins with `key`, everything stays.
    pub open spec fn split(self, key: Seq<u8>) -> (Option<Self>, Self) {
        if starts_with(key, self.label) && key.len() > self.label.len() {
            self.split_below(key.skip(self.label.len() as int), key)
        } else {
            (None, self)
        }
    }
}

} // verus!
