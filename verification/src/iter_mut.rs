//! Iterators that hand out the values of a tree for writing.
use std::collections::VecDeque;
use vstd::prelude::*;
use crate::iter::all_countable;
use crate::node::{views, Node, NodeMut};
use crate::rewriting::{dequeued, popped, Lent};
use crate::traversal::{
    breadth_first, countable, lemma_breadth_first_step, lemma_countable_child, preorder,
    preorder_all, row, unwound,
};
use crate::tree::Tree;

verus! {

/// A mutable iterator which traverses the nodes in a tree, in depth first order.
///
/// The first element of an item is the level of the traversing node.
#[derive(Debug)]
pub struct IterMut<'a, V: 'a> {
    stack: Vec<(usize, &'a mut Node<V>)>,
}

/// A mutable iterator which traverses the nodes in a tree, in breadth first order.
///
/// The first element of an item is the level of the traversing node.
#[derive(Debug)]
pub struct IterMutBfs<'a, V: 'a> {
    queue: VecDeque<(usize, &'a mut Node<V>)>,
}

/// The trees that wait behind mutable references, as they are now, with their levels.
pub open spec fn waiting_mut<V>(nodes: Seq<(usize, &mut Node<V>)>) -> Seq<(nat, Tree<V>)> {
    Seq::new(nodes.len(), |i: int| (nodes[i].0 as nat, (*nodes[i].1)@))
}

impl<V> Node<V> {
    /// Gets a mutable iterator which traverses the nodes in this tree, in depth first order.
    pub fn iter_mut(&mut self) -> (iter: IterMut<'_, V>)
        requires
            old(self)@.valid(),
        ensures
            iter.wf(),
            iter.remaining() == preorder(old(self)@, 0),
            iter.pending().len() == 1,
            iter.pending()[0].0 == 0,
            *iter.pending()[0].1 == *old(self),
            *final(iter.pending()[0].1) == *final(self),
    {
        let mut stack: Vec<(usize, &mut Node<V>)> = Vec::new();
        stack.push((0, self));
        let iter = IterMut { stack };
        proof {
            let trees = waiting_mut(iter.stack@);
            assert(unwound(trees.drop_last()) =~= Seq::empty());
        }
        iter
    }

    /// Gets a mutable iterator which traverses the nodes in this tree, in breadth first order.
    pub fn iter_mut_bfs(&mut self) -> (iter: IterMutBfs<'_, V>)
        requires
            old(self)@.valid(),
        ensures
            iter.wf(),
            iter.remaining() == breadth_first(seq![(0nat, old(self)@)]),
            iter.pending().len() == 1,
            iter.pending()[0].0 == 0,
            *iter.pending()[0].1 == *old(self),
            *final(iter.pending()[0].1) == *final(self),
    {
        let ghost t = self@;
        let mut queue: VecDeque<(usize, &mut Node<V>)> = VecDeque::new();
        queue.push_back((0, self));
        let iter = IterMutBfs { queue };
        proof {
            assert(waiting_mut(iter.queue@) =~= seq![(0nat, t)]);
        }
        iter
    }
}

impl<'a, V: 'a> IterMut<'a, V> {
    /// The nodes on the stack, with their levels.
    pub closed spec fn pending(self) -> Seq<(usize, &'a mut Node<V>)> {
        self.stack@
    }

    /// Whether every level to come can be counted to.
    pub open spec fn wf(self) -> bool {
        all_countable(waiting_mut(self.pending()))
    }

    /// The nodes to come, as they are now, with their levels.
    pub open spec fn remaining(self) -> Seq<(nat, Tree<V>)> {
        unwound(waiting_mut(self.pending()))
    }

    /// Returns the label and the value of the next node, and its level.
    pub fn next(&mut self) -> (item: Option<(usize, NodeMut<'a, V>)>)
        requires
            old(self).wf(),
        ensures
            final(self).wf(),
            item is Some <==> old(self).remaining().len() > 0,
            item is None ==> final(self).pending() == old(self).pending(),
            item is Some ==> {
                let (level, parts) = item->0;
                let node = old(self).pending().last().1;
                let rest = old(self).pending().drop_last();
                let below = final(self).pending().skip(rest.len() as int);
                let n = below.len();
                &&& old(self).remaining()[0] == (level as nat, (*node)@)
                &&& popped(
                    Seq::new(
                        old(self).pending().len(),
                        |j: int|
                            Lent::on(
                                old(self).pending()[j].0,
                                (*old(self).pending()[j].1)@,
                                (*final(old(self).pending()[j].1))@,
                            ),
                    ),
                    Seq::new(
                        final(self).pending().len(),
                        |j: int|
                            Lent::on(
                                final(self).pending()[j].0,
                                (*final(self).pending()[j].1)@,
                                (*final(final(self).pending()[j].1))@,
                            ),
                    ),
                )
                &&& final(self).remaining() == old(self).remaining().drop_first()
                &&& parts.label@ == (*node)@.label
                &&& parts.value is Some <==> (*node)@.value is Some
                &&& parts.value is Some ==> *parts.value->0 == (*node)@.value->0
                &&& parts.children is None
                &&& final(self).pending().take(rest.len() as int) == rest
                &&& n == (*node)@.children.len()
                &&& forall|j: int| 0 <= j < n ==> (#[trigger] below[j]).0 == level + 1
                &&& forall|j: int|
                    0 <= j < n ==> (*(#[trigger] below[j]).1)@ == (*node)@.children[n - 1 - j]
                &&& (*final(node))@ == (Tree {
                    label: (*node)@.label,
                    value: match parts.value {
                        Some(value) => Some(*final(value)),
                        None => None,
                    },
                    children: Seq::new(n, |j: int| (*final(below[n - 1 - j].1))@),
                })
            },
    {
        let ghost before = waiting_mut(self.stack@);
        let ghost lent = Seq::new(
            self.stack@.len(),
            |j: int| Lent::on(self.stack@[j].0, (*self.stack@[j].1)@, (*final(self.stack@[j].1))@),
        );
        let ghost held = self.stack@.drop_last();
        match self.stack.pop() {
            None => None,
            Some((level, node)) => {
                let ghost t = node@;
                let ghost under = before.drop_last();
                assert(waiting_mut(self.stack@) =~= under);
                assert(countable(before.last().0 as int, before.last().1));
                let mut parts = node.as_mut();
                if let Some(children) = parts.children.take() {
                    let ghost all = children@;
                    let ghost all_final = final(children)@;
                    let mut rest = children;
                    while rest.len() > 0
                        invariant
                            rest@.len() <= all.len(),
                            rest@ == all.take(rest@.len() as int),
                            views(all) == t.children,
                            countable(level as int, t),
                            all_countable(waiting_mut(self.stack@)),
                            unwound(waiting_mut(self.stack@)) == preorder_all(
                                t.children.skip(rest@.len() as int),
                                level as nat + 1,
                            ) + unwound(under),
                            self.stack@.len() == held.len() + all.len() - rest@.len(),
                            self.stack@.take(held.len() as int) == held,
                            forall|k: int|
                                held.len() <= k < self.stack@.len() ==> {
                                    &&& (#[trigger] self.stack@[k]).0 == level + 1
                                    &&& *self.stack@[k].1 == all[held.len() + all.len() - 1 - k]
                                    &&& final(rest)@.len() == rest@.len() ==> *final(
                                    self.stack@[k].1) == all_final[held.len() + all.len() - 1 - k]
                                },
                            final(rest)@.len() == rest@.len() ==> {
                                &&& all_final.len() == all.len()
                                &&& final(rest)@ == all_final.take(rest@.len() as int)
                            },
                        decreases rest@.len(),
                    {
                        let ghost stack = waiting_mut(self.stack@);
                        let ghost rest_final = final(rest)@;
                        let n: usize = rest.len();
                        let ghost i = n - 1;
                        proof {
                            lemma_countable_child(level as int, t, i);
                        }
                        let (front, last) = rest.split_at_mut(n - 1);
                        let ghost last_final = final(last)@;
                        let child: &'a mut Node<V> = &mut last[0];
                        self.stack.push((level + 1, child));
                        rest = front;
                        assert(rest_final.len() == n ==> rest_final[i] == last_final[0]
                            && rest_final[i] == all_final.take(n as int)[i]);
                        proof {
                            let down = t.children.skip(i);
                            let item = ((level + 1) as nat, t.children[i]);
                            assert(waiting_mut(self.stack@) =~= stack.push(item));
                            assert(stack.push(item).drop_last() =~= stack);
                            assert(down.drop_first() =~= t.children.skip(i + 1));
                        }
                    }
                    assert(t.children.skip(0) =~= t.children);
                    let ghost below = self.stack@.skip(held.len() as int);
                    assert(views(all_final) =~= Seq::new(
                        below.len(),
                        |j: int| (*final(below[below.len() - 1 - j].1))@,
                    ));
                }
                let ghost kept = Seq::new(
                    self.stack@.len(),
                    |j: int|
                        Lent::on(
                            self.stack@[j].0,
                            (*self.stack@[j].1)@,
                            (*final(self.stack@[j].1))@,
                        ),
                );
                let ghost due = lent.drop_last() + lent.last().children().reverse();
                assert forall|k: int| 0 <= k < kept.len() implies kept[k] == #[trigger] due[k] by {
                    if k < held.len() {
                        assert(self.stack@.take(held.len() as int)[k] == self.stack@[k]);
                    }
                }
                assert(kept =~= due);
                Some((level, parts))
            },
        }
    }
}

impl<'a, V: 'a> IterMutBfs<'a, V> {
    /// The nodes in the queue, with their levels.
    pub closed spec fn pending(self) -> Seq<(usize, &'a mut Node<V>)> {
        self.queue@
    }

    /// Whether every level to come can be counted to.
    pub open spec fn wf(self) -> bool {
        all_countable(waiting_mut(self.pending()))
    }

    /// The nodes to come, as they are now, with their levels.
    pub open spec fn remaining(self) -> Seq<(nat, Tree<V>)> {
        breadth_first(waiting_mut(self.pending()))
    }

    /// Returns the label and the value of the next node, and its level.
    pub fn next(&mut self) -> (item: Option<(usize, NodeMut<'a, V>)>)
        requires
            old(self).wf(),
        ensures
            final(self).wf(),
            item is Some <==> old(self).remaining().len() > 0,
            item is None ==> final(self).pending() == old(self).pending(),
            item is Some ==> {
                let (level, parts) = item->0;
                let node = old(self).pending()[0].1;
                let rest = old(self).pending().drop_first();
                let below = final(self).pending().skip(rest.len() as int);
                let n = below.len();
                &&& old(self).remaining()[0] == (level as nat, (*node)@)
                &&& dequeued(
                    Seq::new(
                        old(self).pending().len(),
                        |j: int|
                            Lent::on(
                                old(self).pending()[j].0,
                                (*old(self).pending()[j].1)@,
                                (*final(old(self).pending()[j].1))@,
                            ),
                    ),
                    Seq::new(
                        final(self).pending().len(),
                        |j: int|
                            Lent::on(
                                final(self).pending()[j].0,
                                (*final(self).pending()[j].1)@,
                                (*final(final(self).pending()[j].1))@,
                            ),
                    ),
                )
                &&& final(self).remaining() == old(self).remaining().drop_first()
                &&& parts.label@ == (*node)@.label
                &&& parts.value is Some <==> (*node)@.value is Some
                &&& parts.value is Some ==> *parts.value->0 == (*node)@.value->0
                &&& parts.children is None
                &&& final(self).pending().take(rest.len() as int) == rest
                &&& n == (*node)@.children.len()
                &&& forall|j: int| 0 <= j < n ==> (#[trigger] below[j]).0 == level + 1
                &&& forall|j: int|
                    0 <= j < n ==> (*(#[trigger] below[j]).1)@ == (*node)@.children[j]
                &&& (*final(node))@ == (Tree {
                    label: (*node)@.label,
                    value: match parts.value {
                        Some(value) => Some(*final(value)),
                        None => None,
                    },
                    children: Seq::new(n, |j: int| (*final(below[j].1))@),
                })
            },
    {
        let ghost before = waiting_mut(self.queue@);
        let ghost lent = Seq::new(
            self.queue@.len(),
            |j: int| Lent::on(self.queue@[j].0, (*self.queue@[j].1)@, (*final(self.queue@[j].1))@),
        );
        let ghost held = self.queue@.drop_first();
        match self.queue.pop_front() {
            None => None,
            Some((level, node)) => {
                let ghost t = node@;
                let ghost behind = before.drop_first();
                assert(waiting_mut(self.queue@) =~= behind);
                assert(countable(before[0].0 as int, before[0].1));
                let mut parts = node.as_mut();
                if let Some(children) = parts.children.take() {
                    let ghost all = children@;
                    let ghost all_final = final(children)@;
                    let mut rest = children;
                    while rest.len() > 0
                        invariant
                            rest@.len() <= all.len(),
                            rest@ == all.skip(all.len() - rest@.len()),
                            views(all) == t.children,
                            countable(level as int, t),
                            all_countable(waiting_mut(self.queue@)),
                            waiting_mut(self.queue@) == behind + row(
                                t.children.take(all.len() - rest@.len()),
                                level as nat + 1,
                            ),
                            self.queue@.len() == held.len() + all.len() - rest@.len(),
                            self.queue@.take(held.len() as int) == held,
                            forall|k: int|
                                held.len() <= k < self.queue@.len() ==> {
                                    &&& (#[trigger] self.queue@[k]).0 == level + 1
                                    &&& *self.queue@[k].1 == all[k - held.len()]
                                    &&& final(rest)@.len() == rest@.len() ==> *final(
                                    self.queue@[k].1) == all_final[k - held.len()]
                                },
                            final(rest)@.len() == rest@.len() ==> {
                                &&& all_final.len() == all.len()
                                &&& final(rest)@ == all_final.skip(all.len() - rest@.len())
                            },
                        decreases rest@.len(),
                    {
                        let ghost queue = waiting_mut(self.queue@);
                        let ghost rest_final = final(rest)@;
                        let ghost n = rest@.len();
                        let ghost i = all.len() - n;
                        proof {
                            lemma_countable_child(level as int, t, i);
                        }
                        let (first, tail) = rest.split_at_mut(1);
                        let ghost first_final = final(first)@;
                        let child: &'a mut Node<V> = &mut first[0];
                        self.queue.push_back((level + 1, child));
                        rest = tail;
                        assert(rest_final.len() == n ==> rest_final[0] == first_final[0]
                            && rest_final[0] == all_final.skip(i)[0]);
                        assert(rest_final.skip(1) =~= final(rest)@);
                        proof {
                            let item = ((level + 1) as nat, t.children[i]);
                            assert(waiting_mut(self.queue@) =~= queue.push(item));
                        }
                    }
                    assert(t.children.take(all.len() as int) =~= t.children);
                    let ghost below = self.queue@.skip(held.len() as int);
                    assert(views(all_final) =~= Seq::new(
                        below.len(),
                        |j: int| (*final(below[j].1))@,
                    ));
                }
                proof {
                    lemma_breadth_first_step(before);
                }
                let ghost kept = Seq::new(
                    self.queue@.len(),
                    |j: int|
                        Lent::on(
                            self.queue@[j].0,
                            (*self.queue@[j].1)@,
                            (*final(self.queue@[j].1))@,
                        ),
                );
                let ghost due = lent.drop_first() + lent[0].children();
                assert forall|k: int| 0 <= k < kept.len() implies kept[k] == #[trigger] due[k] by {
                    if k < held.len() {
                        assert(self.queue@.take(held.len() as int)[k] == self.queue@[k]);
                    }
                }
                assert(kept =~= due);
                Some((level, parts))
            },
        }
    }
}

} // verus!
