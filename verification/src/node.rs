//! The executable tree and its elementary operations.
use vstd::prelude::*;
use crate::tree::{Tree, MAX_LABEL_LEN};

verus! {

/// A node of a radix tree, together with everything below it.
///
/// The key of a node is made of the labels on the way from the top to the node, both included.
pub struct Node<V> {
    label: Vec<u8>,
    value: Option<V>,
    children: Vec<Node<V>>,
}

/// The trees that `nodes` stand for.
pub open spec fn views<V>(nodes: Seq<Node<V>>) -> Seq<Tree<V>> {
    Seq::new(nodes.len(), |i: int| nodes[i]@)
}

/// A label with a mutable reference to the value of the same node, if it has one, and to its
/// children as long as those have not been taken.
pub struct NodeMut<'a, V: 'a> {
    pub label: &'a [u8],
    pub value: Option<&'a mut V>,
    pub children: Option<&'a mut [Node<V>]>,
}

impl<V> Node<V> {
    closed spec fn tree(self) -> Tree<V>
        decreases self,
    {
        Tree {
            label: self.label@,
            value: self.value,
            children: Seq::new(
                self.children@.len(),
                |i: int|
                    if 0 <= i < self.children@.len() {
                        self.children@[i].tree()
                    } else {
                        arbitrary()
                    },
            ),
        }
    }
}

impl<V> View for Node<V> {
    type V = Tree<V>;

    closed spec fn view(&self) -> Tree<V> {
        self.tree()
    }
}

proof fn lemma_view<V>(node: Node<V>)
    ensures
        node@ == (Tree { label: node.label@, value: node.value, children: views(node.children@) }),
{
    assert(node@.children =~= views(node.children@));
}

impl<V> Node<V> {
    /// Makes a node from a label, the nodes below it and an optional value.
    pub fn new(label: &[u8], children: Vec<Node<V>>, value: Option<V>) -> (node: Self)
        requires
            label@.len() <= MAX_LABEL_LEN,
            children@.len() <= MAX_LABEL_LEN,
        ensures
            node@ == (Tree { label: label@, value, children: views(children@) }),
    {
        Node::from_parts(vstd::slice::slice_to_vec(label), children, value)
    }

    /// Makes a node from the parts that it consists of.
    pub(crate) fn from_parts(label: Vec<u8>, children: Vec<Node<V>>, value: Option<V>) -> (node:
        Self)
        ensures
            node@ == (Tree { label: label@, value, children: views(children@) }),
    {
        let node = Node { label, value, children };
        proof {
            lemma_view(node);
        }
        node
    }

    /// Makes a new node which represents an empty tree.
    pub fn root() -> (node: Self)
        ensures
            node@ == Tree::<V>::leaf(Seq::empty()),
            node@.valid(),
            node@.ordered(),
            node@.distinct(),
            node@.tidy(),
            node@.entries() == Map::<Seq<u8>, V>::empty(),
    {
        let empty: [u8; 0] = [];
        let node = Node::new(empty.as_slice(), Vec::new(), None);
        assert(views(Seq::<Node<V>>::empty()) =~= Seq::empty());
        node
    }

    /// Returns the label of this node.
    pub fn label(&self) -> (label: &[u8])
        ensures
            label@ == self@.label,
    {
        self.label.as_slice()
    }

    /// Returns the bytes of the label for writing.
    pub fn label_mut(&mut self) -> (label: &mut [u8])
        ensures
            label@ == old(self)@.label,
            final(self)@ == (Tree { label: final(label)@, ..old(self)@ }),
    {
        self.label.as_mut_slice()
    }

    /// Returns the number of bytes in the label.
    pub fn label_len(&self) -> (n: usize)
        ensures
            n == self@.label.len(),
    {
        self.label.len()
    }

    /// Returns the value of this node.
    pub fn value(&self) -> (value: Option<&V>)
        ensures
            value is Some <==> self@.value is Some,
            value is Some ==> *value->0 == self@.value->0,
    {
        self.value.as_ref()
    }

    /// Returns the value of this node for writing.
    pub fn value_mut(&mut self) -> (value: Option<&mut V>)
        ensures
            value is Some <==> old(self)@.value is Some,
            value is Some ==> *value->0 == old(self)@.value->0,
            value is Some ==> final(self)@ == old(self)@.with_value(Some(*final(value->0))),
            value is None ==> final(self)@ == old(self)@,
    {
        self.value.as_mut()
    }

    /// Gives this node a value.
    pub fn set_value(&mut self, value: V)
        ensures
            final(self)@ == old(self)@.with_value(Some(value)),
    {
        self.value = Some(value);
    }

    /// Takes the value out of this node.
    pub fn take_value(&mut self) -> (value: Option<V>)
        ensures
            value == old(self)@.value,
            final(self)@ == old(self)@.with_value(None),
    {
        let value = self.value.take();
        value
    }

    /// get all children for node as slice
    pub fn children(&self) -> (children: &[Node<V>])
        ensures
            views(children@) == self@.children,
    {
        self.children.as_slice()
    }

    /// get all children for node as mut slice
    pub fn children_mut(&mut self) -> (children: &mut [Node<V>])
        ensures
            views(children@) == old(self)@.children,
            final(self)@ == (Tree { children: views(final(children)@), ..old(self)@ }),
    {
        proof {
            lemma_view(*final(self));
        }
        self.children.as_mut_slice()
    }

    /// return number of children
    pub fn children_len(&self) -> (n: usize)
        ensures
            n == self@.children.len(),
    {
        self.children.len()
    }

    /// Returns the `i`-th child.
    pub fn child(&self, i: usize) -> (child: &Self)
        requires
            i < self@.children.len(),
        ensures
            child@ == self@.children[i as int],
    {
        &self.children[i]
    }

    /// Returns the `i`-th child for writing.
    pub fn child_mut(&mut self, i: usize) -> (child: &mut Self)
        requires
            i < old(self)@.children.len(),
        ensures
            child@ == old(self)@.children[i as int],
            final(self)@ == old(self)@.with_child(i as int, final(child)@),
    {
        proof {
            lemma_view(*self);
            lemma_view(*final(self));
        }
        let ghost before = *self;
        let ghost after = *final(self);
        let child = &mut self.children[i];
        assert(views(after.children@) =~= views(before.children@).update(
            i as int,
            final(child)@,
        ));
        child
    }

    /// Makes the three parts of a node accessible at once.
    pub fn as_mut(&mut self) -> (parts: NodeMut<'_, V>)
        ensures
            parts.label@ == old(self)@.label,
            parts.value is Some <==> old(self)@.value is Some,
            parts.value is Some ==> *parts.value->0 == old(self)@.value->0,
            parts.children is Some,
            views(parts.children->0@) == old(self)@.children,
            final(self)@ == (Tree {
                label: old(self)@.label,
                value: match parts.value {
                    Some(value) => Some(*final(value)),
                    None => None,
                },
                children: views(final(parts.children->0)@),
            }),
    {
        proof {
            lemma_view(*final(self));
        }
        NodeMut {
            label: self.label.as_slice(),
            value: self.value.as_mut(),
            children: Some(self.children.as_mut_slice()),
        }
    }

    /// take all the children out of a node and return them
    pub fn take_children(&mut self) -> (children: Option<Vec<Node<V>>>)
        ensures
            children is Some <==> old(self)@.children.len() > 0,
            children is Some ==> views(children->0@) == old(self)@.children,
            final(self)@ == (Tree { children: Seq::empty(), ..old(self)@ }),
    {
        if self.children.len() == 0 {
            assert(self@.children =~= Seq::empty());
            return None;
        }
        let mut taken: Vec<Node<V>> = Vec::new();
        core::mem::swap(&mut self.children, &mut taken);
        proof {
            assert(self@.children =~= Seq::empty());
        }
        Some(taken)
    }

    /// Returns whether this tree is well-formed: whether labels and numbers of children are within
    /// their limits, no node but this one has an empty label, and no path is too long to count.
    pub fn is_valid(&self) -> (valid: bool)
        ensures
            valid == self@.valid(),
    {
        self.fits_in(usize::MAX)
    }

    /// Returns whether this tree is well-formed with no path longer than `room` bytes.
    fn fits_in(&self, room: usize) -> (fits: bool)
        ensures
            fits == self@.fits(room as int),
        decreases self@,
    {
        let n: usize = self.children_len();
        let m: usize = self.label_len();
        if m > MAX_LABEL_LEN || m > room || n > MAX_LABEL_LEN {
            return false;
        }
        let mut i: usize = 0;
        while i < n
            invariant
                i <= n,
                n == self@.children.len(),
                m == self@.label.len(),
                m <= room,
                forall|j: int|
                    0 <= j < i ==> (#[trigger] self@.children[j]).label.len() > 0
                        && self@.children[j].fits(room - m),
            decreases n - i,
        {
            let child = self.child(i);
            if child.label_len() == 0 || !child.fits_in(room - m) {
                return false;
            }
            i = i + 1;
        }
        true
    }

    /// Puts `child` at position `i` among the children of this node.
    pub fn add_child(&mut self, child: Node<V>, i: usize)
        requires
            i <= old(self)@.children.len() < MAX_LABEL_LEN,
        ensures
            final(self)@ == (Tree {
                children: old(self)@.children.insert(i as int, child@),
                ..old(self)@
            }),
    {
        proof {
            lemma_view(*self);
        }
        let ghost before = self.children@;
        self.children.insert(i, child);
        proof {
            lemma_view(*self);
            assert(views(self.children@) =~= views(before).insert(i as int, child@));
        }
    }

    /// Takes the `i`-th child out of this node.
    pub fn remove_child(&mut self, i: usize) -> (child: Node<V>)
        requires
            i < old(self)@.children.len(),
        ensures
            child@ == old(self)@.children[i as int],
            final(self)@ == old(self)@.without_child(i as int),
    {
        proof {
            lemma_view(*self);
        }
        let ghost before = self.children@;
        let child = self.children.remove(i);
        proof {
            lemma_view(*self);
            assert(views(self.children@) =~= views(before).remove(i as int));
        }
        child
    }

    /// Cuts the label after `position` bytes. What follows them moves into a child of its own,
    /// with the value and the children of this node. A `new_child` becomes a second child, in its
    /// place by first byte, and its position is returned; without one, that of the child with the
    /// rest of the label.
    pub fn split_at(&mut self, position: usize, new_child: Option<Node<V>>) -> (i: usize)
        requires
            position < old(self)@.label.len(),
            new_child is Some ==> new_child->0@.label.len() > 0,
        ensures
            new_child is None ==> i == 0 && final(self)@ == old(self)@.cut(position as int),
            new_child is Some ==> {
                &&& final(self)@ == old(self)@.fork(
                    position as int,
                    new_child->0@.label[0],
                    new_child->0@,
                )
                &&& i == if new_child->0@.label[0] < old(self)@.label[position as int] {
                    0int
                } else {
                    1
                }
            },
    {
        let ghost before = self@;
        let label = self.label.split_off(position);
        let value = self.value.take();
        let mut children: Vec<Node<V>> = Vec::new();
        core::mem::swap(&mut self.children, &mut children);
        let first: u8 = label[0];
        let stem = Node { label, value, children };
        proof {
            lemma_view(stem);
        }
        let mut i: usize = 0;
        match new_child {
            None => {
                self.children.push(stem);
                proof {
                    assert(self@.children =~= seq![before.stem(position as int)]);
                }
            },
            Some(twig) => {
                let ghost tip = twig@;
                if twig.label[0] < first {
                    self.children.push(twig);
                    self.children.push(stem);
                } else {
                    self.children.push(stem);
                    self.children.push(twig);
                    i = 1;
                }
                proof {
                    assert(self@.children =~= before.fork(
                        position as int,
                        tip.label[0],
                        tip,
                    ).children);
                }
            },
        }
        i
    }

    /// Puts `prefix` in front of the label.
    pub fn prefix_label(&mut self, prefix: &[u8])
        requires
            prefix@.len() + old(self)@.label.len() <= MAX_LABEL_LEN,
        ensures
            final(self)@ == (Tree { label: prefix@ + old(self)@.label, ..old(self)@ }),
    {
        let mut label = vstd::slice::slice_to_vec(prefix);
        label.append(&mut self.label);
        self.label = label;
    }

    /// Gives this node another label.
    pub fn replace_label(&mut self, label: &[u8])
        requires
            label@.len() <= MAX_LABEL_LEN,
        ensures
            final(self)@ == (Tree { label: label@, ..old(self)@ }),
    {
        self.label = vstd::slice::slice_to_vec(label);
    }
}

impl<'a, V: 'a> NodeMut<'a, V> {
    /// Returns the label of the node.
    pub fn label(&self) -> (label: &'a [u8])
        ensures
            label@ == self.label@,
    {
        self.label
    }

    /// Converts into a mutable reference to the value.
    pub fn into_value_mut(self) -> (value: Option<&'a mut V>)
        ensures
            value == self.value,
    {
        self.value
    }
}

} // verus!
