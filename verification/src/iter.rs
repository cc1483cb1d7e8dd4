//! Iterators over the nodes of a tree.
use std::collections::VecDeque;
use vstd::prelude::*;
use crate::node::{views, Node};
use crate::traversal::{
    breadth_first, countable, lemma_breadth_first_step, lemma_countable_child, preorder,
    preorder_all, row, unwound,
};
use crate::tree::Tree;

verus! {

/// An iterator which traverses the nodes in a tree, in depth first order.
///
/// The first element of an item is the level of the traversing node.
#[derive(Debug)]
pub struct Iter<'a, V: 'a> {
    stack: Vec<(usize, &'a Node<V>)>,
}

/// An iterator which traverses the nodes in a tree, in breadth first order
///
/// The first element of an item is the level of the traversing node.
#[derive(Debug)]
pub struct IterBfs<'a, V: 'a> {
    queue: VecDeque<(usize, &'a Node<V>)>,
}

/// The trees that wait on a stack or in a queue, with their levels.
pub open spec fn waiting<V>(nodes: Seq<(usize, &Node<V>)>) -> Seq<(nat, Tree<V>)> {
    Seq::new(nodes.len(), |i: int| (nodes[i].0 as nat, nodes[i].1@))
}

/// Whether every tree that waits goes down to a level that can be counted to.
pub open spec fn all_countable<V>(trees: Seq<(nat, Tree<V>)>) -> bool {
    forall|i: int| 0 <= i < trees.len() ==> countable(trees[i].0 as int, (#[trigger] trees[i]).1)
}

impl<V> Node<V> {
    /// Gets an iterator which traverses the nodes in this tree, in depth first order.
    pub fn iter(&self) -> (iter: Iter<'_, V>)
        requires
            self@.valid(),
        ensures
            iter.wf(),
            iter.remaining() == preorder(self@, 0),
    {
        let mut stack: Vec<(usize, &Node<V>)> = Vec::new();
        stack.push((0, self));
        let iter = Iter { stack };
        proof {
            let trees = waiting(iter.stack@);
            assert(unwound(trees.drop_last()) =~= Seq::empty());
        }
        iter
    }

    /// Gets an iterator which traverses the nodes in this tree, in breadth first order.
    pub fn iter_bfs(&self) -> (iter: IterBfs<'_, V>)
        requires
            self@.valid(),
        ensures
            iter.wf(),
            iter.remaining() == breadth_first(seq![(0nat, self@)]),
    {
        let mut queue: VecDeque<(usize, &Node<V>)> = VecDeque::new();
        queue.push_back((0, self));
        let iter = IterBfs { queue };
        proof {
            assert(waiting(iter.queue@) =~= seq![(0nat, self@)]);
        }
        iter
    }
}

impl<'a, V: 'a> Iter<'a, V> {
    /// Whether every level to come can be counted to.
    pub closed spec fn wf(self) -> bool {
        all_countable(waiting(self.stack@))
    }

    /// The nodes to come, with their levels.
    pub closed spec fn remaining(self) -> Seq<(nat, Tree<V>)> {
        unwound(waiting(self.stack@))
    }

    /// Returns the next node and its level.
    pub fn next(&mut self) -> (item: Option<(usize, &'a Node<V>)>)
        requires
            old(self).wf(),
        ensures
            final(self).wf(),
            item is Some <==> old(self).remaining().len() > 0,
            item is Some ==> {
                &&& old(self).remaining()[0] == ((item->0).0 as nat, (item->0).1@)
                &&& final(self).remaining() == old(self).remaining().drop_first()
            },
            item is None ==> final(self).remaining() == old(self).remaining(),
    {
        let ghost before = waiting(self.stack@);
        match self.stack.pop() {
            None => None,
            Some((level, node)) => {
                let ghost t = node@;
                let ghost under = before.drop_last();
                assert(waiting(self.stack@) =~= under);
                assert(countable(before.last().0 as int, before.last().1));
                let children = node.children();
                let mut i: usize = children.len();
                while i > 0
                    invariant
                        i <= children@.len(),
                        views(children@) == t.children,
                        countable(level as int, t),
                        all_countable(waiting(self.stack@)),
                        unwound(waiting(self.stack@)) == preorder_all(
                            t.children.skip(i as int),
                            level as nat + 1,
                        ) + unwound(under),
                    decreases i,
                {
                    let ghost stack = waiting(self.stack@);
                    i = i - 1;
                    proof {
                        lemma_countable_child(level as int, t, i as int);
                    }
                    self.stack.push((level + 1, &children[i]));
                    proof {
                        let child = t.children[i as int];
                        let down = t.children.skip(i as int);
                        let item = ((level + 1) as nat, child);
                        assert(waiting(self.stack@) =~= stack.push(item));
                        assert(stack.push(item).drop_last() =~= stack);
                        assert(down.drop_first() =~= t.children.skip(i + 1));
                    }
                }
                proof {
                    assert(t.children.skip(0) =~= t.children);
                }
                Some((level, node))
            },
        }
    }
}

impl<'a, V: 'a> IterBfs<'a, V> {
    /// Whether every level to come can be counted to.
    pub closed spec fn wf(self) -> bool {
        all_countable(waiting(self.queue@))
    }

    /// The nodes to come, with their levels.
    pub closed spec fn remaining(self) -> Seq<(nat, Tree<V>)> {
        breadth_first(waiting(self.queue@))
    }

    /// Returns the next node and its level.
    pub fn next(&mut self) -> (item: Option<(usize, &'a Node<V>)>)
        requires
            old(self).wf(),
        ensures
            final(self).wf(),
            item is Some <==> old(self).remaining().len() > 0,
            item is Some ==> {
                &&& old(self).remaining()[0] == ((item->0).0 as nat, (item->0).1@)
                &&& final(self).remaining() == old(self).remaining().drop_first()
            },
            item is None ==> final(self).remaining() == old(self).remaining(),
    {
        let ghost before = waiting(self.queue@);
        match self.queue.pop_front() {
            None => None,
            Some((level, node)) => {
                let ghost t = node@;
                let ghost behind = before.drop_first();
                assert(waiting(self.queue@) =~= behind);
                assert(countable(before[0].0 as int, before[0].1));
                let children = node.children();
                let n: usize = children.len();
                let mut i: usize = 0;
                while i < n
                    invariant
                        i <= n,
                        n == children@.len(),
                        views(children@) == t.children,
                        countable(level as int, t),
                        all_countable(waiting(self.queue@)),
                        waiting(self.queue@) == behind + row(
                            t.children.take(i as int),
                            level as nat + 1,
                        ),
                    decreases n - i,
                {
                    let ghost queue = waiting(self.queue@);
                    proof {
                        lemma_countable_child(level as int, t, i as int);
                    }
                    self.queue.push_back((level + 1, &children[i]));
                    proof {
                        let item = ((level + 1) as nat, t.children[i as int]);
                        assert(waiting(self.queue@) =~= queue.push(item));
                    }
                    i = i + 1;
                }
                proof {
                    assert(t.children.take(n as int) =~= t.children);
                    lemma_breadth_first_step(before);
                }
                Some((level, node))
            },
        }
    }
}

/// An owning iterator which traverses the nodes in a tree, in depth first order.
///
/// The first element of an item is the level of the traversing node.
#[derive(Debug)]
pub struct IntoIter<V> {
    stack: Vec<(usize, Node<V>)>,
}

/// An owning iterator which traverses the nodes in a tree, in breadth first order.
///
/// The first element of an item is the level of the traversing node.
#[derive(Debug)]
pub struct IntoIterBfs<V> {
    queue: VecDeque<(usize, Node<V>)>,
}

/// The trees that wait as whole nodes on a stack or in a queue, with their levels.
pub open spec fn waiting_owned<V>(nodes: Seq<(usize, Node<V>)>) -> Seq<(nat, Tree<V>)> {
    Seq::new(nodes.len(), |i: int| (nodes[i].0 as nat, nodes[i].1@))
}

impl<V> Node<V> {
    /// Turns this tree into an iterator over its nodes, in depth first order.
    pub fn into_iter(self) -> (iter: IntoIter<V>)
        requires
            self@.valid(),
        ensures
            iter.wf(),
            iter.remaining() == preorder(self@, 0),
    {
        let mut stack: Vec<(usize, Node<V>)> = Vec::new();
        stack.push((0, self));
        let iter = IntoIter { stack };
        proof {
            let trees = waiting_owned(iter.stack@);
            assert(unwound(trees.drop_last()) =~= Seq::empty());
        }
        iter
    }

    /// construct into_iter iterates breadth first search style
    pub fn into_iter_bfs(self) -> (iter: IntoIterBfs<V>)
        requires
            self@.valid(),
        ensures
            iter.wf(),
            iter.remaining() == breadth_first(seq![(0nat, self@)]),
    {
        let ghost t = self@;
        let mut queue: VecDeque<(usize, Node<V>)> = VecDeque::new();
        queue.push_back((0, self));
        let iter = IntoIterBfs { queue };
        proof {
            assert(waiting_owned(iter.queue@) =~= seq![(0nat, t)]);
        }
        iter
    }
}

impl<V> IntoIter<V> {
    /// Whether every level to come can be counted to.
    pub closed spec fn wf(self) -> bool {
        all_countable(waiting_owned(self.stack@))
    }

    /// The nodes to come, with their levels and everything below them.
    pub closed spec fn remaining(self) -> Seq<(nat, Tree<V>)> {
        unwound(waiting_owned(self.stack@))
    }

    /// Returns the next node, without what is below it, and its level.
    pub fn next(&mut self) -> (item: Option<(usize, Node<V>)>)
        requires
            old(self).wf(),
        ensures
            final(self).wf(),
            item is Some <==> old(self).remaining().len() > 0,
            item is Some ==> {
                let (level, t) = old(self).remaining()[0];
                &&& (item->0).0 == level
                &&& (item->0).1@ == (Tree { children: Seq::empty(), ..t })
                &&& final(self).remaining() == old(self).remaining().drop_first()
            },
            item is None ==> final(self).remaining() == old(self).remaining(),
    {
        let ghost before = waiting_owned(self.stack@);
        match self.stack.pop() {
            None => None,
            Some((level, node)) => {
                let mut node = node;
                let ghost t = node@;
                let ghost under = before.drop_last();
                assert(waiting_owned(self.stack@) =~= under);
                match node.take_children() {
                    None => {},
                    Some(children) => {
                        let mut children = children;
                        while children.len() > 0
                            invariant
                                children@.len() <= t.children.len(),
                                views(children@) == t.children.take(children@.len() as int),
                                countable(level as int, t),
                                all_countable(waiting_owned(self.stack@)),
                                unwound(waiting_owned(self.stack@)) == preorder_all(
                                    t.children.skip(children@.len() as int),
                                    level as nat + 1,
                                ) + unwound(under),
                            decreases children@.len(),
                        {
                            let ghost stack = waiting_owned(self.stack@);
                            let ghost had = children@;
                            let ghost i = had.len() - 1;
                            if let Some(child) = children.pop() {
                                proof {
                                    lemma_countable_child(level as int, t, i);
                                    assert(child@ == views(had)[i]);
                                }
                                self.stack.push((level + 1, child));
                                proof {
                                    let down = t.children.skip(i);
                                    let item = ((level + 1) as nat, t.children[i]);
                                    assert(waiting_owned(self.stack@) =~= stack.push(item));
                                    assert(stack.push(item).drop_last() =~= stack);
                                    assert(down.drop_first() =~= t.children.skip(i + 1));
                                }
                            }
                        }
                        assert(t.children.skip(0) =~= t.children);
                    },
                }
                Some((level, node))
            },
        }
    }
}

impl<V> IntoIterBfs<V> {
    /// Whether every level to come can be counted to.
    pub closed spec fn wf(self) -> bool {
        all_countable(waiting_owned(self.queue@))
    }

    /// The nodes to come, with their levels and everything below them.
    pub closed spec fn remaining(self) -> Seq<(nat, Tree<V>)> {
        breadth_first(waiting_owned(self.queue@))
    }

    /// Returns the next node, without what is below it, and its level.
    pub fn next(&mut self) -> (item: Option<(usize, Node<V>)>)
        requires
            old(self).wf(),
        ensures
            final(self).wf(),
            item is Some <==> old(self).remaining().len() > 0,
            item is Some ==> {
                let (level, t) = old(self).remaining()[0];
                &&& (item->0).0 == level
                &&& (item->0).1@ == (Tree { children: Seq::empty(), ..t })
                &&& final(self).remaining() == old(self).remaining().drop_first()
            },
            item is None ==> final(self).remaining() == old(self).remaining(),
    {
        let ghost before = waiting_owned(self.queue@);
        match self.queue.pop_front() {
            None => None,
            Some((level, node)) => {
                let mut node = node;
                let ghost t = node@;
                let ghost behind = before.drop_first();
                assert(waiting_owned(self.queue@) =~= behind);
                match node.take_children() {
                    None => {},
                    Some(children) => {
                        let ghost all = children@;
                        for child in it: children.into_iter()
                            invariant
                                it.seq() == all,
                                views(all) == t.children,
                                countable(level as int, t),
                                all_countable(waiting_owned(self.queue@)),
                                waiting_owned(self.queue@) == behind + row(
                                    t.children.take(it.index() as int),
                                    level as nat + 1,
                                ),
                        {
                            let ghost queue = waiting_owned(self.queue@);
                            let ghost i = it.index() as int;
                            proof {
                                lemma_countable_child(level as int, t, i);
                            }
                            self.queue.push_back((level + 1, child));
                            proof {
                                let item = ((level + 1) as nat, t.children[i]);
                                assert(waiting_owned(self.queue@) =~= queue.push(item));
                            }
                        }
                        assert(t.children.take(all.len() as int) =~= t.children);
                    },
                }
                proof {
                    lemma_breadth_first_step(before);
                }
                Some((level, node))
            },
        }
    }
}

} // verus!
