//! Making places for keys, and putting values there.
use vstd::prelude::*;
use crate::bytes::{common_prefix_len, lemma_lcp, BorrowedBytes};
use crate::descent::{lemma_gap, lemma_gap_unique};
use crate::entry::{Entry, OccupiedEntry, VacantEntry};
use crate::growth::lemma_value_at;
use crate::node::{views, Node};
use crate::tree::{chain, gap, last_piece, Tree, MAX_LABEL_LEN};

verus! {

impl<V> Node<V> {
    /// Returns the position at which a child whose label begins with `byte` belongs.
    fn insert_index(&self, byte: u8) -> (i: usize)
        requires
            forall|i: int|
                0 <= i < self@.children.len() ==> (#[trigger] self@.children[i]).label.len() > 0,
        ensures
            i == gap(self@.children, byte),
    {
        let n: usize = self.children_len();
        let mut i: usize = 0;
        while i < n && self.child(i).label()[0] < byte
            invariant
                i <= n,
                n == self@.children.len(),
                forall|i: int|
                    0 <= i < self@.children.len() ==> (#[trigger] self@.children[i]).label.len()
                        > 0,
                forall|j: int| 0 <= j < i ==> (#[trigger] self@.children[j]).label[0] < byte,
            decreases n - i,
        {
            i = i + 1;
        }
        proof {
            lemma_gap_unique(self@.children, byte, i as nat);
        }
        i
    }

    /// Makes the nodes for `key`: one if the key fits into a label, else one for each piece of it,
    /// each below the one before it, and the last one with the value.
    fn new_chain(key: &[u8], value: Option<V>) -> (node: Self)
        ensures
            node@ == chain(key@, Tree::<V>::leaf(last_piece(key@)).with_value(value)),
    {
        let n: usize = key.len();
        let ghost end = Tree::leaf(last_piece(key@)).with_value(value);
        let mut at: usize = 0;
        assert(key@.skip(0) =~= key@);
        while n - at > MAX_LABEL_LEN
            invariant
                n == key@.len(),
                at <= n,
                at > 0 ==> at < n,
                at % MAX_LABEL_LEN == 0,
                last_piece(key@.skip(at as int)) == last_piece(key@),
            decreases n - at,
        {
            assert(key@.skip(at as int).skip(MAX_LABEL_LEN as int) =~= key@.skip(
                at + MAX_LABEL_LEN,
            ));
            at = at + MAX_LABEL_LEN;
        }
        let mut node = Node::new(vstd::slice::slice_subrange(key, at, n), Vec::new(), value);
        proof {
            assert(views(Seq::<Node<V>>::empty()) =~= Seq::empty());
        }
        while at > 0
            invariant
                n == key@.len(),
                at <= n,
                at > 0 ==> at < n,
                at % MAX_LABEL_LEN == 0,
                node@ == chain(key@.skip(at as int), end),
            decreases at,
        {
            let below: usize = at;
            at = at - MAX_LABEL_LEN;
            let ghost child = node@;
            let mut children: Vec<Node<V>> = Vec::new();
            children.push(node);
            assert(views(children@) =~= seq![child]);
            node = Node::new(vstd::slice::slice_subrange(key, at, below), children, None);
            proof {
                let rest = key@.skip(at as int);
                assert(rest.skip(MAX_LABEL_LEN as int) =~= key@.skip(below as int));
            }
        }
        node
    }

    /// Returns whether there is room for `key`: a node that would get a new child for it must not
    /// have `MAX_LABEL_LEN` children yet.
    pub fn has_room<K: ?Sized + BorrowedBytes>(&self, key: &K) -> (room: bool)
        requires
            self@.valid(),
        ensures
            room == self@.has_room(key.bytes()),
    {
        let mut cur = self;
        let mut remaining = key.as_bytes();
        let ghost full = key.bytes();
        let ghost mut room: int = usize::MAX as int;
        loop
            invariant
                full == key.bytes(),
                cur@.fits(room),
                self@.has_room(full) == cur@.has_room(remaining@),
            decreases cur@,
        {
            let n: usize = common_prefix_len(cur.label(), remaining);
            proof {
                lemma_lcp(cur@.label, remaining@);
            }
            if n < cur.label_len() || n == remaining.len() {
                return true;
            }
            remaining = vstd::slice::slice_subrange(remaining, n, remaining.len());
            match cur.child_with_first(remaining[0]) {
                None => {
                    return cur.children_len() < MAX_LABEL_LEN;
                },
                Some(child) => {
                    proof {
                        room = room - cur@.label.len();
                    }
                    cur = child;
                },
            }
        }
    }

    /// insert key and value into node, replacing value if key exists
    ///
    /// Returns the value that was there before.
    pub fn insert<K: ?Sized + BorrowedBytes>(&mut self, key: &K, value: V) -> (replaced: Option<V>)
        requires
            old(self)@.valid(),
            old(self)@.has_room(key.bytes()),
        ensures
            replaced == old(self)@.lookup(key.bytes()),
            final(self)@ == old(self)@.insert(key.bytes(), value),
            final(self)@.valid(),
            old(self)@.ordered() ==> final(self)@.ordered(),
            old(self)@.distinct() ==> final(self)@.distinct(),
            final(self)@.entries() == old(self)@.entries().insert(key.bytes(), value),
    {
        let mut cur = self;
        let mut remaining = key.as_bytes();
        let ghost full = key.bytes();
        let ghost mut room: int = usize::MAX as int;
        proof {
            assert(remaining.len() == full.len());
            lemma_value_at(old(self)@, full, Some(value));
        }
        loop
            invariant
                full == key.bytes(),
                old(self)@.insert(full, value).valid(),
                old(self)@.ordered() ==> old(self)@.insert(full, value).ordered(),
                old(self)@.distinct() ==> old(self)@.insert(full, value).distinct(),
                old(self)@.insert(full, value).entries() == old(self)@.entries().insert(
                    full,
                    value,
                ),
                cur@.fits(room),
                cur@.has_room(remaining@),
                old(self)@.lookup(full) == cur@.lookup(remaining@),
                old(self)@.spot(full) == cur@.spot(remaining@),
                forall|node: Tree<V>|
                    final(cur)@ == #[trigger] cur@.graft(remaining@, node) ==> final(self)@ == old(
                        self,
                    )@.graft(full, node),
            decreases cur@,
        {
            let n: usize = common_prefix_len(cur.label(), remaining);
            let ghost node = cur@.spot(remaining@).with_value(Some(value));
            proof {
                lemma_lcp(cur@.label, remaining@);
            }
            if n < cur.label_len() {
                if n < remaining.len() {
                    // the label and the key part after n bytes
                    let suffix = vstd::slice::slice_subrange(remaining, n, remaining.len());
                    proof {
                        assert(final(cur)@ == cur@.graft(remaining@, node) ==> final(self)@ == old(
                            self,
                        )@.graft(full, node));
                    }
                    let new_child = Self::new_chain(suffix, Some(value));
                    cur.split_at(n, Some(new_child));
                } else {
                    // the key ends within the label
                    cur.split_at(n, None);
                    cur.set_value(value);
                }
                return None;
            }
            if n == remaining.len() {
                // key and node are equal, replace data
                let replaced = cur.take_value();
                cur.set_value(value);
                return replaced;
            }
            // prefix match but key is longer, so we need to insert into a child

            let ghost path = remaining@;
            remaining = vstd::slice::slice_subrange(remaining, n, remaining.len());
            match cur.child_index_with_first(remaining[0]) {
                Some(i) => {
                    let ghost above = cur@;
                    let ghost above_final = final(cur)@;
                    proof {
                        room = room - cur@.label.len();
                    }
                    cur = cur.child_mut(i);
                    proof {
                        assert forall|node: Tree<V>|
                            final(cur)@ == #[trigger] cur@.graft(
                                remaining@,
                                node,
                            ) implies final(self)@ == old(self)@.graft(full, node) by {
                            assert(above_final == above.graft(path, node));
                        }
                    }
                },
                None => {
                    let i: usize = cur.insert_index(remaining[0]);
                    proof {
                        lemma_gap(cur@.children, remaining@[0]);
                    }
                    let child = Self::new_chain(remaining, Some(value));
                    cur.add_child(child, i);
                    return None;
                },
            }
        }
    }

    /// Returns the last node of a chain that was made for `key` without a value.
    fn chain_end(&mut self, key: &[u8]) -> (end: &mut Self)
        requires
            old(self)@ == chain(key@, Tree::<V>::leaf(last_piece(key@))),
        ensures
            end@ == Tree::<V>::leaf(last_piece(key@)),
            final(self)@ == chain(key@, final(end)@),
    {
        let mut cur = self;
        let mut remaining = key;
        while remaining.len() > MAX_LABEL_LEN
            invariant
                cur@ == chain(remaining@, Tree::<V>::leaf(last_piece(remaining@))),
                last_piece(remaining@) == last_piece(key@),
                forall|end: Tree<V>|
                    final(cur)@ == #[trigger] chain(remaining@, end) ==> final(self)@ == chain(
                        key@,
                        end,
                    ),
            decreases remaining@.len(),
        {
            let ghost path = remaining@;
            let ghost above_final = final(cur)@;
            remaining = vstd::slice::slice_subrange(remaining, MAX_LABEL_LEN, remaining.len());
            cur = cur.child_mut(0);
            proof {
                assert forall|end: Tree<V>|
                    final(cur)@ == #[trigger] chain(remaining@, end) implies final(self)@ == chain(
                    key@,
                    end,
                ) by {
                    assert(above_final.children =~= seq![chain(remaining@, end)]);
                    assert(above_final == chain(path, end));
                }
            }
        }
        proof {
            assert(final(cur)@ == chain(remaining@, final(cur)@));
        }
        cur
    }

    /// entry api for node
    ///
    /// Makes the place for `key`, with the nodes that lead there, if it is not there yet, and
    /// returns it. Whether a value is ever put there is up to the caller.
    pub fn entry<K: ?Sized + BorrowedBytes>(&mut self, key: &K) -> (entry: Entry<'_, V>)
        requires
            old(self)@.valid(),
            old(self)@.has_room(key.bytes()),
        ensures
            entry.wf(),
            entry is Occupied <==> old(self)@.lookup(key.bytes()) is Some,
            entry.node()@ == old(self)@.spot(key.bytes()),
            entry.node()@.value == old(self)@.lookup(key.bytes()),
            final(self)@ == old(self)@.graft(key.bytes(), final(entry.node())@),
            forall|value: Option<V>|
                final(entry.node())@ == #[trigger] entry.node()@.with_value(value) ==> {
                    &&& final(self)@.valid()
                    &&& old(self)@.ordered() ==> final(self)@.ordered()
                    &&& old(self)@.distinct() ==> final(self)@.distinct()
                    &&& final(self)@.entries() == match value {
                        Some(v) => old(self)@.entries().insert(key.bytes(), v),
                        None => old(self)@.entries().remove(key.bytes()),
                    }
                },
    {
        let mut cur = self;
        let mut remaining = key.as_bytes();
        let ghost full = key.bytes();
        let ghost mut room: int = usize::MAX as int;
        proof {
            assert(remaining.len() == full.len());
            assert forall|value: Option<V>| {
                let out = old(self)@.graft(
                    full,
                    #[trigger] old(self)@.spot(full).with_value(value),
                );
                &&& out.valid()
                &&& old(self)@.ordered() ==> out.ordered()
                &&& old(self)@.distinct() ==> out.distinct()
                &&& out.entries() == match value {
                    Some(v) => old(self)@.entries().insert(full, v),
                    None => old(self)@.entries().remove(full),
                }
            } by {
                lemma_value_at(old(self)@, full, value);
            }
        }
        loop
            invariant
                full == key.bytes(),
                forall|value: Option<V>| {
                    let out = old(self)@.graft(
                        full,
                        #[trigger] old(self)@.spot(full).with_value(value),
                    );
                    &&& out.valid()
                    &&& old(self)@.ordered() ==> out.ordered()
                    &&& old(self)@.distinct() ==> out.distinct()
                    &&& out.entries() == match value {
                        Some(v) => old(self)@.entries().insert(full, v),
                        None => old(self)@.entries().remove(full),
                    }
                },
                cur@.fits(room),
                cur@.has_room(remaining@),
                old(self)@.lookup(full) == cur@.lookup(remaining@),
                old(self)@.spot(full) == cur@.spot(remaining@),
                forall|node: Tree<V>|
                    final(cur)@ == #[trigger] cur@.graft(remaining@, node) ==> final(self)@ == old(
                        self,
                    )@.graft(full, node),
            decreases cur@,
        {
            let n: usize = common_prefix_len(cur.label(), remaining);
            let ghost above = cur@;
            let ghost above_final = final(cur)@;
            let ghost path = remaining@;
            proof {
                lemma_lcp(cur@.label, remaining@);
            }
            if n < cur.label_len() {
                if n < remaining.len() {
                    // the label and the key part after n bytes
                    let suffix = vstd::slice::slice_subrange(remaining, n, remaining.len());
                    let new_child = Self::new_chain(suffix, None);
                    let i: usize = cur.split_at(n, Some(new_child));
                    let child = cur.child_mut(i);
                    let node = child.chain_end(suffix);
                    proof {
                        let end = final(node)@;
                        let grown = chain(suffix@, end);
                        assert(above_final.children =~= above.fork(
                            n as int,
                            path[n as int],
                            grown,
                        ).children);
                        assert(above_final == above.graft(path, end));
                    }
                    return Entry::Vacant(VacantEntry { node });
                } else {
                    // the key ends within the label
                    cur.split_at(n, None);
                    return Entry::Vacant(VacantEntry { node: cur });
                }
            }
            if n == remaining.len() {
                proof {
                    assert(above_final == above.graft(path, above_final));
                }
                return if cur.value().is_some() {
                    Entry::Occupied(OccupiedEntry { node: cur })
                } else {
                    Entry::Vacant(VacantEntry { node: cur })
                };
            }
            // prefix match but key is longer, so we need to insert into a child

            remaining = vstd::slice::slice_subrange(remaining, n, remaining.len());
            match cur.child_index_with_first(remaining[0]) {
                Some(i) => {
                    proof {
                        room = room - cur@.label.len();
                    }
                    cur = cur.child_mut(i);
                    proof {
                        assert forall|node: Tree<V>|
                            final(cur)@ == #[trigger] cur@.graft(
                                remaining@,
                                node,
                            ) implies final(self)@ == old(self)@.graft(full, node) by {
                            assert(above_final == above.graft(path, node));
                        }
                    }
                },
                None => {
                    let i: usize = cur.insert_index(remaining[0]);
                    proof {
                        lemma_gap(cur@.children, remaining@[0]);
                    }
                    let child = Self::new_chain(remaining, None);
                    cur.add_child(child, i);
                    let child = cur.child_mut(i);
                    let node = child.chain_end(remaining);
                    proof {
                        let end = final(node)@;
                        assert(above_final.children =~= above.children.insert(
                            i as int,
                            chain(remaining@, end),
                        ));
                        assert(above_final == above.graft(path, end));
                    }
                    return Entry::Vacant(VacantEntry { node });
                },
            }
        }
    }
}

} // verus!
