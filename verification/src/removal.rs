//! Taking values and branches out of a tree.
use vstd::prelude::*;
use crate::bytes::{strip_prefix, BorrowedBytes};
use crate::descent::{lemma_rejoin, lemma_step};
use crate::node::Node;
use crate::shrinking::{lemma_entries_remove, lemma_merged, lemma_prune, lemma_split};
use crate::tree::MAX_LABEL_LEN;

verus! {

impl<V> Node<V> {
    /// merge child if we only have one child
    ///
    /// Nothing happens if this node has a value, or if the two labels do not fit into one.
    pub fn try_merge_child(&mut self)
        ensures
            final(self)@ == old(self)@.merged(),
            old(self)@.valid() ==> final(self)@.valid() && final(self)@.entries() == old(
                self,
            )@.entries(),
            old(self)@.valid() && old(self)@.ordered() ==> final(self)@.ordered(),
            old(self)@.valid() && old(self)@.distinct() ==> final(self)@.distinct(),
    {
        proof {
            if self@.valid() {
                lemma_merged(self@, usize::MAX as int);
            }
        }
        if self.value().is_some() || self.children_len() != 1 {
            return;
        }
        let n: usize = self.label_len();
        let m: usize = self.child(0).label_len();
        if n > MAX_LABEL_LEN || m > MAX_LABEL_LEN - n {
            return;
        }
        let mut child = self.remove_child(0);
        child.prefix_label(self.label());
        *self = child;
    }

    /// remove the value at `key` and return it, merging the tree with its children
    /// if necessary.
    ///
    /// as with `get`, the key includes this node's label, so trees whose root carries
    /// a non-empty label (e.g. the detached nodes returned by
    /// [`split_by_prefix`](Node::split_by_prefix)) resolve keys the same way lookups do
    pub fn remove<K: ?Sized + BorrowedBytes>(&mut self, key: &K) -> (value: Option<V>)
        requires
            old(self)@.valid(),
        ensures
            value == old(self)@.lookup(key.bytes()),
            final(self)@ == old(self)@.remove(key.bytes()),
            final(self)@.valid(),
            old(self)@.ordered() ==> final(self)@.ordered(),
            old(self)@.distinct() ==> {
                &&& final(self)@.distinct()
                &&& final(self)@.entries() == old(self)@.entries().remove(key.bytes())
            },
    {
        proof {
            if self@.distinct() {
                lemma_entries_remove(self@, key.bytes());
            }
            lemma_prune(self@, key.bytes().skip(self@.label.len() as int), usize::MAX as int);
        }
        match strip_prefix(key.as_bytes(), self.label()) {
            None => None,
            Some(rest) => {
                proof {
                    lemma_rejoin(key.bytes(), self@.label);
                }
                self.remove_suffix(rest)
            },
        }
    }

    /// remove with `key` relative to the end of this node's label
    fn remove_suffix(&mut self, key: &[u8]) -> (value: Option<V>)
        requires
            old(self)@.bounded(),
        ensures
            value == old(self)@.lookup(old(self)@.label + key@),
            final(self)@ == old(self)@.prune(key@),
        decreases old(self)@,
    {
        let ghost top = self@;
        let ghost room = choose|room: int| self@.fits(room);
        if key.len() == 0 {
            // key ends at this node
            return self.take_value();
        }
        let i: usize = match self.child_index_with_first(key[0]) {
            None => {
                return None;
            },
            Some(i) => i,
        };
        let ghost below = top.children[i as int];
        proof {
            lemma_step(top, key@);
        }
        let child = self.child_mut(i);
        let remaining = match strip_prefix(key, child.label()) {
            None => {
                assert(top.children.update(i as int, below) =~= top.children);
                return None;
            },
            Some(remaining) => remaining,
        };
        proof {
            lemma_rejoin(key@, below.label);
            assert(below.fits(room - top.label.len()));
        }
        if remaining.len() == 0 {
            assert(below.prune(remaining@) == below.with_value(None));
            let value = child.take_value();
            if child.children_len() == 0 {
                // the child is a leaf so remove
                let _ = self.remove_child(i);
                proof {
                    assert(self@.children =~= top.children.remove(i as int));
                }
            } else {
                // there are children, call try_merge
                child.try_merge_child();
            }
            value
        } else {
            // go deeper, recursively call remove on child with remaining
            let value = child.remove_suffix(remaining);
            child.try_merge_child();
            value
        }
    }

    /// Whether [`split_by_prefix`](Node::split_by_prefix) can give a label to the part that it
    /// would split off at `key`, if any.
    pub fn can_split_by_prefix<K: ?Sized + BorrowedBytes>(&self, key: &K) -> (fits: bool)
        requires
            self@.valid(),
        ensures
            fits <==> (self@.split(key.bytes()).0 matches Some(part) ==> part.label.len()
                <= MAX_LABEL_LEN),
    {
        let bytes = key.as_bytes();
        let ghost full = key.bytes();
        let mut rest = match strip_prefix(bytes, self.label()) {
            None => {
                return true;
            },
            Some(rest) => {
                if rest.len() == 0 {
                    return true;
                }
                rest
            },
        };
        let mut cur = self;
        loop
            invariant
                cur@.bounded(),
                rest@.len() > 0,
                bytes@ == full,
                full == key.bytes(),
                cur@.split_below(rest@, full).0 == self@.split(full).0,
            decreases cur@,
        {
            let ghost room = choose|room: int| cur@.fits(room);
            let i: usize = match cur.child_index_with_first(rest[0]) {
                None => {
                    return true;
                },
                Some(i) => i,
            };
            let child = cur.child(i);
            assert(child@.fits(room - cur@.label.len()));
            match strip_prefix(rest, child.label()) {
                None => {
                    if strip_prefix(child.label(), rest).is_none() {
                        return true;
                    }
                    let n: usize = child.label_len() - rest.len();
                    return bytes.len() <= MAX_LABEL_LEN - n;
                },
                Some(next) => {
                    if next.len() == 0 {
                        return bytes.len() <= MAX_LABEL_LEN;
                    }
                    cur = child;
                    rest = next;
                },
            }
        }
    }

    /// split the node by the prefix into two distinct nodes
    ///
    /// The part that is split off is returned, under a label that begins with `key`. This node
    /// itself is never split off: nothing happens if its own label begins with `key`.
    pub fn split_by_prefix<K: ?Sized + BorrowedBytes>(&mut self, key: &K) -> (part: Option<Self>)
        requires
            old(self)@.valid(),
            old(self)@.split(key.bytes()).0 matches Some(part) ==> part.label.len()
                <= MAX_LABEL_LEN,
        ensures
            part is Some <==> old(self)@.split(key.bytes()).0 is Some,
            part is Some ==> {
                &&& part->0@ == old(self)@.split(key.bytes()).0->0
                &&& part->0@.valid()
            },
            final(self)@ == old(self)@.split(key.bytes()).1,
            final(self)@.valid(),
            old(self)@.ordered() ==> {
                &&& part is Some ==> part->0@.ordered()
                &&& final(self)@.ordered()
            },
            old(self)@.distinct() ==> {
                &&& part is Some ==> part->0@.distinct()
                &&& final(self)@.distinct()
            },
    {
        let bytes = key.as_bytes();
        let ghost full = key.bytes();
        let ghost top = self@;
        proof {
            lemma_split(top, full);
        }
        let mut rest = match strip_prefix(bytes, self.label()) {
            None => {
                return None;
            },
            Some(rest) => {
                if rest.len() == 0 {
                    return None;
                }
                rest
            },
        };
        let mut cur = self;
        loop
            invariant
                cur@.bounded(),
                rest@.len() > 0,
                bytes@ == full,
                full == key.bytes(),
                top == old(self)@,
                cur@.split_below(rest@, full).0 == top.split(full).0,
                top.split(full).0 matches Some(part) ==> part.label.len() <= MAX_LABEL_LEN,
                final(cur)@ == cur@.split_below(rest@, full).1 ==> final(self)@ == top.split(
                    full,
                ).1,
                top.split(full).0 matches Some(part) ==> part.valid(),
                top.split(full).1.valid(),
                top.ordered() ==> {
                    &&& top.split(full).0 matches Some(part) ==> part.ordered()
                    &&& top.split(full).1.ordered()
                },
                top.distinct() ==> {
                    &&& top.split(full).0 matches Some(part) ==> part.distinct()
                    &&& top.split(full).1.distinct()
                },
            decreases cur@,
        {
            let ghost room = choose|room: int| cur@.fits(room);
            let i: usize = match cur.child_index_with_first(rest[0]) {
                None => {
                    return None;
                },
                Some(i) => i,
            };
            let child = cur.child(i);
            assert(child@.fits(room - cur@.label.len()));
            match strip_prefix(rest, child.label()) {
                None => {
                    if strip_prefix(child.label(), rest).is_none() {
                        return None;
                    }
                    return Some(cur.detach_child(i, rest, bytes));
                },
                Some(next) => {
                    if next.len() == 0 {
                        return Some(cur.detach_child(i, rest, bytes));
                    }
                    cur = cur.child_mut(i);
                    rest = next;
                },
            }
        }
    }

    /// Takes the `i`-th child out of this node and puts it under `key`, whose last `rest.len()`
    /// bytes are the front of the child's label.
    fn detach_child(&mut self, i: usize, rest: &[u8], key: &[u8]) -> (part: Self)
        requires
            i < old(self)@.children.len(),
            rest@.len() <= old(self)@.children[i as int].label.len(),
            old(self)@.detach(i as int, rest@, key@).0.label.len() <= MAX_LABEL_LEN,
        ensures
            part@ == old(self)@.detach(i as int, rest@, key@).0,
            final(self)@ == old(self)@.detach(i as int, rest@, key@).1,
    {
        let m: usize = rest.len();
        let mut child = self.remove_child(i);
        if m < child.label_len() {
            // the prefix ends within the label, which is split there
            child.split_at(m, None);
            let mut part = child.remove_child(0);
            part.prefix_label(key);
            part
        } else {
            // full match on the child
            assert(key@ + child@.label.skip(m as int) =~= key@);
            child.replace_label(key);
            self.try_merge_child();
            child
        }
    }
}

} // verus!
