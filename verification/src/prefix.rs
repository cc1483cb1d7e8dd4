//! Finding nodes by a part of their key, and by keys that run on past them.
use vstd::prelude::*;
use crate::bytes::{common_prefix_len, lemma_lcp, strip_prefix, BorrowedBytes};
use crate::descent::{lemma_here, lemma_step};
use crate::node::Node;
use crate::tree::Tree;

verus! {

impl<V> Node<V> {
    /// will get node based on prefix, so partial matches are allowed. i.e. if a node was inserted
    /// for "apples" get_prefix_node("ap") will retrieve the node "apples" and return the length of
    /// the partial match
    ///
    /// The length counts the bytes of `key` that fall into the label of the node.
    pub fn get_prefix_node<K: ?Sized + BorrowedBytes>(&self, key: &K) -> (found: Option<
        (usize, &Self),
    >)
        requires
            self@.valid(),
        ensures
            found is Some <==> self@.cover(key.bytes()) is Some,
            found is Some ==> {
                let (path, node) = self@.cover(key.bytes())->0;
                &&& (found->0).1@ == node
                &&& (found->0).0 == key.bytes().len() - (path.len() - node.label.len())
            },
    {
        let mut cur = self;
        let mut remaining = key.as_bytes();
        let ghost mut room: int = usize::MAX as int;
        let ghost mut above: Seq<u8> = Seq::empty();
        loop
            invariant
                cur@.fits(room),
                above.len() + remaining@.len() == key.bytes().len(),
                self@.cover(key.bytes()) == match cur@.cover(remaining@) {
                    Some((path, node)) => Some((above + path, node)),
                    None => None,
                },
            decreases cur@,
        {
            match strip_prefix(remaining, cur.label()) {
                None => {
                    if strip_prefix(cur.label(), remaining).is_some() {
                        return Some((remaining.len(), cur));
                    } else {
                        return None;
                    }
                },
                Some(rest) => {
                    remaining = rest;
                },
            }
            if remaining.len() == 0 {
                return Some((cur.label_len(), cur));
            }
            match cur.child_with_first(remaining[0]) {
                None => {
                    return None;
                },
                Some(child) => {
                    proof {
                        room = room - cur@.label.len();
                        above = above + cur@.label;
                    }
                    cur = child;
                },
            }
        }
    }

    /// will get mutable node based on prefix, so partial matches are allowed. i.e. if a node was
    /// inserted for "apples" get_prefix_node_mut("ap") will retrieve the node
    pub fn get_prefix_node_mut<K: ?Sized + BorrowedBytes>(&mut self, key: &K) -> (found: Option<
        (usize, &mut Self),
    >)
        requires
            old(self)@.valid(),
        ensures
            found is Some <==> old(self)@.cover(key.bytes()) is Some,
            found is Some ==> {
                let (path, node) = old(self)@.cover(key.bytes())->0;
                &&& (found->0).1@ == node
                &&& (found->0).0 == key.bytes().len() - (path.len() - node.label.len())
                &&& final(self)@ == old(self)@.graft(path, final((found->0).1)@)
            },
            found is None ==> final(self)@ == old(self)@,
    {
        let mut cur = self;
        let mut remaining = key.as_bytes();
        let ghost mut room: int = usize::MAX as int;
        let ghost mut above: Seq<u8> = Seq::empty();
        loop
            invariant
                cur@.fits(room),
                above.len() + remaining@.len() == key.bytes().len(),
                old(self)@.cover(key.bytes()) == match cur@.cover(remaining@) {
                    Some((path, node)) => Some((above + path, node)),
                    None => None,
                },
                final(cur)@ == cur@ ==> final(self)@ == old(self)@,
                cur@.cover(remaining@) is Some ==> {
                    let path = (cur@.cover(remaining@)->0).0;
                    forall|node: Tree<V>|
                        final(cur)@ == #[trigger] cur@.graft(path, node) ==> final(self)@ == old(
                            self,
                        )@.graft(above + path, node)
                },
            decreases cur@,
        {
            match strip_prefix(remaining, cur.label()) {
                None => {
                    if strip_prefix(cur.label(), remaining).is_some() {
                        proof {
                            lemma_here(cur@);
                            assert(final(cur)@ == cur@.graft(cur@.label, final(cur)@));
                        }
                        return Some((remaining.len(), cur));
                    } else {
                        return None;
                    }
                },
                Some(rest) => {
                    remaining = rest;
                },
            }
            if remaining.len() == 0 {
                proof {
                    lemma_here(cur@);
                }
                return Some((cur.label_len(), cur));
            }
            match cur.child_index_with_first(remaining[0]) {
                None => {
                    return None;
                },
                Some(i) => {
                    let ghost up = cur@;
                    let ghost up_final = final(cur)@;
                    let ghost up_above = above;
                    proof {
                        room = room - cur@.label.len();
                        above = above + cur@.label;
                    }
                    cur = cur.child_mut(i);
                    proof {
                        assert(up.children.update(i as int, cur@) =~= up.children);
                        if cur@.cover(remaining@) is Some {
                            let path = (cur@.cover(remaining@)->0).0;
                            lemma_step(up, path);
                            assert(up_above + (up.label + path) =~= above + path);
                            assert forall|node: Tree<V>|
                                final(cur)@ == #[trigger] cur@.graft(
                                    path,
                                    node,
                                ) implies final(self)@ == old(self)@.graft(above + path, node) by {
                                assert(up_final == up.graft(up.label + path, node));
                            }
                        }
                    }
                },
            }
        }
    }

    /// Returns the length of the longest part of `key`, from its front, with which the path of
    /// some node begins.
    pub fn longest_common_prefix_len<K: ?Sized + BorrowedBytes>(&self, key: &K) -> (n: usize)
        requires
            self@.valid(),
        ensures
            n <= key.bytes().len(),
            self@.cover(key.bytes().take(n as int)) is Some,
            forall|m: int|
                n < m <= key.bytes().len() ==> self@.cover(#[trigger] key.bytes().take(m)) is None,
    {
        let mut cur = self;
        let mut remaining = key.as_bytes();
        let mut matched: usize = 0;
        let ghost full = key.bytes();
        let ghost mut room: int = usize::MAX as int;
        proof {
            assert(remaining.len() == full.len());
        }
        loop
            invariant
                full == key.bytes(),
                cur@.fits(room),
                matched + remaining@.len() == full.len() <= usize::MAX,
                remaining@ == full.skip(matched as int),
                forall|m: int|
                    matched <= m <= full.len() ==> (self@.cover(#[trigger] full.take(m)) is Some)
                        == (cur@.cover(remaining@.take(m - matched)) is Some),
            decreases cur@,
        {
            let offset: usize = common_prefix_len(remaining, cur.label());
            let ghost start = remaining@;
            let ghost before = matched as int;
            proof {
                lemma_lcp(remaining@, cur@.label);
            }
            remaining = vstd::slice::slice_subrange(remaining, offset, remaining.len());
            matched = matched + offset;
            if remaining.len() == 0 || offset != cur.label_len() {
                return matched;
            }
            match cur.child_with_first(remaining[0]) {
                None => {
                    return matched;
                },
                Some(child) => {
                    proof {
                        room = room - cur@.label.len();
                        assert forall|m: int| matched <= m <= full.len() implies (self@.cover(
                            #[trigger] full.take(m),
                        ) is Some) == (child@.cover(remaining@.take(m - matched)) is Some) by {
                            let part = start.take(m - before);
                            let tail = remaining@.take(m - matched);
                            assert(part =~= cur@.label + tail);
                            if m > matched {
                                lemma_step(cur@, tail);
                            }
                        }
                    }
                    cur = child;
                },
            }
        }
    }

    /// Returns the node with the longest key that `key` begins with among those that have a
    /// value, and the length of its key.
    pub fn get_longest_common_prefix<K: ?Sized + BorrowedBytes>(&self, key: &K) -> (found: Option<
        (usize, &Self),
    >)
        requires
            self@.valid(),
        ensures
            found is None ==> self@.no_match(key.bytes()),
            found is Some ==> {
                &&& self@.longest_match(key.bytes(), (found->0).0 as int)
                &&& self@.find(key.bytes().take((found->0).0 as int)) == Some((found->0).1@)
            },
    {
        let mut cur = self;
        let mut remaining = key.as_bytes();
        let mut matched: usize = 0;
        let mut last_match: Option<(usize, &Self)> = None;
        let ghost full = key.bytes();
        let ghost mut room: int = usize::MAX as int;
        // No part of the key below this length is still to be looked at.
        let ghost mut seen: int = 0;
        proof {
            assert(remaining.len() == full.len());
        }
        loop
            invariant
                full == key.bytes(),
                cur@.fits(room),
                matched <= seen <= matched + cur@.label.len(),
                matched + remaining@.len() == full.len() <= usize::MAX,
                remaining@ == full.skip(matched as int),
                forall|m: int|
                    seen <= m <= full.len() ==> self@.find(#[trigger] full.take(m)) == cur@.find(
                        remaining@.take(m - matched),
                    ),
                last_match is None ==> forall|m: int|
                    0 <= m < seen && m <= full.len() ==> self@.lookup(
                        #[trigger] full.take(m),
                    ) is None,
                last_match is Some ==> {
                    let n = (last_match->0).0 as int;
                    &&& n < seen && n <= full.len()
                    &&& self@.find(full.take(n)) == Some((last_match->0).1@)
                    &&& (last_match->0).1@.value is Some
                    &&& forall|m: int|
                        n < m < seen && m <= full.len() ==> self@.lookup(
                            #[trigger] full.take(m),
                        ) is None
                },
            decreases cur@,
        {
            let ghost start = remaining@;
            let ghost before = matched as int;
            match strip_prefix(remaining, cur.label()) {
                None => {
                    return last_match;
                },
                Some(rest) => {
                    remaining = rest;
                },
            }
            matched = matched + cur.label_len();
            proof {
                seen = matched + 1;
            }
            if cur.value().is_some() {
                last_match = Some((matched, cur));
            }
            if remaining.len() == 0 {
                return last_match;
            }
            match cur.child_with_first(remaining[0]) {
                None => {
                    return last_match;
                },
                Some(child) => {
                    proof {
                        room = room - cur@.label.len();
                        assert forall|m: int| seen <= m <= full.len() implies self@.find(
                            #[trigger] full.take(m),
                        ) == child@.find(remaining@.take(m - matched)) by {
                            let tail = remaining@.take(m - matched);
                            assert(start.take(m - before) =~= cur@.label + tail);
                            lemma_step(cur@, tail);
                        }
                    }
                    cur = child;
                },
            }
        }
    }

    /// Returns the node with the longest key that `key` begins with among those that have a
    /// value, for writing, and the length of its key.
    pub fn get_longest_common_prefix_mut<K: ?Sized + BorrowedBytes>(
        &mut self,
        key: &K,
    ) -> (found: Option<(usize, &mut Self)>)
        requires
            old(self)@.valid(),
        ensures
            found is None ==> old(self)@.no_match(key.bytes()) && final(self)@ == old(self)@,
            found is Some ==> {
                let part = key.bytes().take((found->0).0 as int);
                &&& old(self)@.longest_match(key.bytes(), (found->0).0 as int)
                &&& old(self)@.find(part) == Some((found->0).1@)
                &&& final(self)@ == old(self)@.graft(part, final((found->0).1)@)
            },
    {
        let n: usize = match self.get_longest_common_prefix(key) {
            None => {
                return None;
            },
            Some((n, _)) => n,
        };
        let part = vstd::slice::slice_subrange(key.as_bytes(), 0, n);
        match self.get_node_mut(part) {
            None => None,
            Some(node) => Some((n, node)),
        }
    }
}

} // verus!
