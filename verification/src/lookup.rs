//! Finding nodes and values by key.
use vstd::prelude::*;
use crate::bytes::{strip_prefix, BorrowedBytes};
use crate::descent::{lemma_found, lemma_here, lemma_rejoin, lemma_slot_unique, lemma_step};
use crate::growth::{lemma_found_len, lemma_value_at};
use crate::node::Node;
use crate::tree::{slot, Tree};

verus! {

impl<V> Node<V> {
    /// return the first byte of each childs label
    pub fn children_first_bytes(&self) -> (bytes: Vec<u8>)
        requires
            forall|i: int|
                0 <= i < self@.children.len() ==> (#[trigger] self@.children[i]).label.len() > 0,
        ensures
            bytes@ == Seq::new(self@.children.len(), |i: int| self@.children[i].label[0]),
    {
        let n: usize = self.children_len();
        let mut bytes: Vec<u8> = Vec::new();
        let mut i: usize = 0;
        while i < n
            invariant
                i <= n,
                n == self@.children.len(),
                forall|i: int|
                    0 <= i < self@.children.len() ==> (#[trigger] self@.children[i]).label.len()
                        > 0,
                bytes@.len() == i,
                forall|j: int| 0 <= j < i ==> bytes@[j] == self@.children[j].label[0],
            decreases n - i,
        {
            bytes.push(self.child(i).label()[0]);
            i = i + 1;
        }
        bytes
    }

    /// Returns the position of the first child whose label begins with `byte`.
    pub fn child_index_with_first(&self, byte: u8) -> (i: Option<usize>)
        requires
            forall|i: int|
                0 <= i < self@.children.len() ==> (#[trigger] self@.children[i]).label.len() > 0,
        ensures
            i is Some <==> slot(self@.children, byte) < self@.children.len(),
            i is Some ==> i->0 == slot(self@.children, byte),
    {
        let n: usize = self.children_len();
        let mut i: usize = 0;
        while i < n
            invariant
                i <= n,
                n == self@.children.len(),
                forall|i: int|
                    0 <= i < self@.children.len() ==> (#[trigger] self@.children[i]).label.len()
                        > 0,
                forall|j: int| 0 <= j < i ==> (#[trigger] self@.children[j]).label[0] != byte,
            decreases n - i,
        {
            if self.child(i).label()[0] == byte {
                proof {
                    lemma_slot_unique(self@.children, byte, i as nat);
                }
                return Some(i);
            }
            i = i + 1;
        }
        proof {
            lemma_slot_unique(self@.children, byte, i as nat);
        }
        None
    }

    /// Returns the first child whose label begins with `byte`.
    pub fn child_with_first(&self, byte: u8) -> (child: Option<&Self>)
        requires
            forall|i: int|
                0 <= i < self@.children.len() ==> (#[trigger] self@.children[i]).label.len() > 0,
        ensures
            child is Some <==> slot(self@.children, byte) < self@.children.len(),
            child is Some ==> child->0@ == self@.children[slot(self@.children, byte) as int],
    {
        match self.child_index_with_first(byte) {
            None => None,
            Some(i) => Some(self.child(i)),
        }
    }

    /// Returns the first child whose label begins with `byte`, for writing.
    pub fn child_with_first_mut(&mut self, byte: u8) -> (child: Option<&mut Self>)
        requires
            forall|i: int|
                0 <= i < old(self)@.children.len() ==> (#[trigger] old(
                    self,
                )@.children[i]).label.len() > 0,
        ensures
            child is Some <==> slot(old(self)@.children, byte) < old(self)@.children.len(),
            child is Some ==> {
                let i = slot(old(self)@.children, byte) as int;
                &&& child->0@ == old(self)@.children[i]
                &&& final(self)@ == old(self)@.with_child(i, final(child->0)@)
            },
            child is None ==> final(self)@ == old(self)@,
    {
        match self.child_index_with_first(byte) {
            None => None,
            Some(i) => Some(self.child_mut(i)),
        }
    }

    /// Returns the value at `key`.
    pub fn get<K: ?Sized + BorrowedBytes>(&self, key: &K) -> (value: Option<&V>)
        requires
            self@.valid(),
        ensures
            value is Some <==> self@.lookup(key.bytes()) is Some,
            value is Some ==> *value->0 == self@.lookup(key.bytes())->0,
            value is Some <==> self@.entries().contains_key(key.bytes()),
            value is Some ==> *value->0 == self@.entries()[key.bytes()],
    {
        match self.get_node(key) {
            None => None,
            Some(node) => node.value(),
        }
    }

    /// Returns the node at `key`.
    pub fn get_node<K: ?Sized + BorrowedBytes>(&self, key: &K) -> (node: Option<&Self>)
        requires
            self@.valid(),
        ensures
            node is Some <==> self@.find(key.bytes()) is Some,
            node is Some ==> node->0@ == self@.find(key.bytes())->0,
    {
        let mut cur = self;
        let mut remaining = key.as_bytes();
        let ghost mut room: int = usize::MAX as int;
        loop
            invariant
                cur@.fits(room),
                self@.find(key.bytes()) == cur@.find(remaining@),
            decreases cur@,
        {
            match strip_prefix(remaining, cur.label()) {
                None => {
                    return None;
                },
                Some(rest) => {
                    remaining = rest;
                },
            }
            if remaining.len() == 0 {
                return Some(cur);
            }
            match cur.child_with_first(remaining[0]) {
                None => {
                    return None;
                },
                Some(child) => {
                    proof {
                        room = room - cur@.label.len();
                    }
                    cur = child;
                },
            }
        }
    }

    /// descend the node with the key and get a mutable reference to the matching element
    pub fn get_node_mut<K: ?Sized + BorrowedBytes>(&mut self, key: &K) -> (node: Option<&mut Self>)
        requires
            old(self)@.valid(),
        ensures
            node is Some <==> old(self)@.find(key.bytes()) is Some,
            node is Some ==> {
                &&& node->0@ == old(self)@.find(key.bytes())->0
                &&& final(self)@ == old(self)@.graft(key.bytes(), final(node->0)@)
            },
            node is None ==> final(self)@ == old(self)@,
    {
        let mut cur = self;
        let mut remaining = key.as_bytes();
        let ghost mut room: int = usize::MAX as int;
        loop
            invariant
                cur@.fits(room),
                old(self)@.find(key.bytes()) == cur@.find(remaining@),
                final(cur)@ == cur@ ==> final(self)@ == old(self)@,
                forall|node: Tree<V>|
                    final(cur)@ == #[trigger] cur@.graft(remaining@, node) ==> final(self)@ == old(
                        self,
                    )@.graft(key.bytes(), node),
            decreases cur@,
        {
            let ghost path = remaining@;
            match strip_prefix(remaining, cur.label()) {
                None => {
                    return None;
                },
                Some(rest) => {
                    proof {
                        lemma_rejoin(remaining@, cur@.label);
                    }
                    remaining = rest;
                },
            }
            if remaining.len() == 0 {
                proof {
                    lemma_here(cur@);
                    assert(final(cur)@ == cur@.graft(path, final(cur)@));
                }
                return Some(cur);
            }
            match cur.child_index_with_first(remaining[0]) {
                None => {
                    return None;
                },
                Some(i) => {
                    let ghost above = cur@;
                    let ghost above_final = final(cur)@;
                    proof {
                        lemma_step(cur@, remaining@);
                        room = room - cur@.label.len();
                    }
                    cur = cur.child_mut(i);
                    proof {
                        assert(above.children.update(i as int, cur@) =~= above.children);
                        assert forall|node: Tree<V>|
                            final(cur)@ == #[trigger] cur@.graft(
                                remaining@,
                                node,
                            ) implies final(self)@ == old(self)@.graft(key.bytes(), node) by {
                            assert(above_final == above.graft(path, node));
                        }
                    }
                },
            }
        }
    }

    /// Returns the value at `key` for writing.
    pub fn get_mut<K: ?Sized + BorrowedBytes>(&mut self, key: &K) -> (value: Option<&mut V>)
        requires
            old(self)@.valid(),
        ensures
            value is Some <==> old(self)@.lookup(key.bytes()) is Some,
            value is Some ==> {
                &&& *value->0 == old(self)@.lookup(key.bytes())->0
                &&& final(self)@ == old(self)@.insert(key.bytes(), *final(value->0))
                &&& final(self)@.valid()
                &&& old(self)@.ordered() ==> final(self)@.ordered()
                &&& old(self)@.distinct() ==> final(self)@.distinct()
                &&& final(self)@.entries() == old(self)@.entries().insert(
                    key.bytes(),
                    *final(value->0),
                )
            },
            value is None ==> final(self)@ == old(self)@,
    {
        let ghost top = self@;
        let ghost full = key.bytes();
        proof {
            if top.find(full) is Some {
                lemma_found(top, full);
                lemma_found_len(top, full, usize::MAX as int);
                assert forall|v: V| {
                    let out = #[trigger] top.insert(full, v);
                    &&& out.valid()
                    &&& top.ordered() ==> out.ordered()
                    &&& top.distinct() ==> out.distinct()
                    &&& out.entries() == top.entries().insert(full, v)
                } by {
                    lemma_value_at(top, full, Some(v));
                }
            }
        }
        match self.get_node_mut(key) {
            None => None,
            Some(node) => node.value_mut(),
        }
    }
}

} // verus!
