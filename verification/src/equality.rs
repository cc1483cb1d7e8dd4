//! Comparing and copying trees.
use vstd::prelude::*;
use vstd::std_specs::cmp::{PartialEqSpec, PartialEqSpecImpl};
use crate::bytes::strip_prefix;
use crate::node::Node;
use crate::tree::Tree;

verus! {

/// Whether two nodes both have no value, or values that compare as equal.
pub open spec fn same_value<V: PartialEq>(a: Option<V>, b: Option<V>) -> bool {
    match (a, b) {
        (Some(x), Some(y)) => x.eq_spec(&y),
        (None, None) => true,
        _ => false,
    }
}

/// Whether two listings of nodes agree in levels, labels and values.
pub open spec fn same_listing<V: PartialEq>(
    a: Seq<(nat, Tree<V>)>,
    b: Seq<(nat, Tree<V>)>,
) -> bool {
    &&& a.len() == b.len()
    &&& forall|i: int|
        0 <= i < a.len() ==> {
            &&& (#[trigger] a[i]).0 == (#[trigger] b[i]).0
            &&& a[i].1.label == b[i].1.label
            &&& same_value(a[i].1.value, b[i].1.value)
        }
}

/// Whether two trees have the same shape and labels, and values that compare as equal.
pub open spec fn alike<V: PartialEq>(a: Tree<V>, b: Tree<V>) -> bool
    decreases a,
{
    &&& a.label == b.label
    &&& same_value(a.value, b.value)
    &&& a.children.len() == b.children.len()
    &&& forall|i: int|
        0 <= i < a.children.len() ==> alike(#[trigger] a.children[i], #[trigger] b.children[i])
}

/// Whether `b` has the shape and the labels of `a`, and a copy of each of its values.
pub open spec fn copied<V: Clone>(a: Tree<V>, b: Tree<V>) -> bool
    decreases a,
{
    &&& a.label == b.label
    &&& match (a.value, b.value) {
        (Some(x), Some(y)) => cloned(x, y),
        (None, None) => true,
        _ => false,
    }
    &&& a.children.len() == b.children.len()
    &&& forall|i: int|
        0 <= i < a.children.len() ==> copied(#[trigger] a.children[i], #[trigger] b.children[i])
}

impl<V: PartialEq> Node<V> {
    /// Returns whether this node and `other` are alike, with everything below them.
    fn same(&self, other: &Self) -> (same: bool)
        ensures
            V::obeys_eq_spec() ==> same == alike(self@, other@),
        decreases self@,
    {
        let n: usize = self.children_len();
        if n != other.children_len() || self.label_len() != other.label_len() {
            return false;
        }
        if strip_prefix(self.label(), other.label()).is_none() {
            return false;
        }
        assert(self@.label =~= other@.label);
        let same_value = match (self.value(), other.value()) {
            (Some(x), Some(y)) => *x == *y,
            (None, None) => true,
            _ => false,
        };
        if !same_value {
            return false;
        }
        let mut i: usize = 0;
        while i < n
            invariant
                i <= n,
                n == self@.children.len(),
                n == other@.children.len(),
                V::obeys_eq_spec() ==> forall|j: int|
                    0 <= j < i ==> alike(
                        #[trigger] self@.children[j],
                        #[trigger] other@.children[j],
                    ),
            decreases n - i,
        {
            let child = self.child(i);
            if !child.same(other.child(i)) {
                return false;
            }
            i = i + 1;
        }
        true
    }
}

impl<V: PartialEq> PartialEq for Node<V> {
    fn eq(&self, other: &Self) -> (same: bool) {
        self.same(other)
    }
}

impl<V: PartialEq> PartialEqSpecImpl for Node<V> {
    open spec fn obeys_eq_spec() -> bool {
        V::obeys_eq_spec()
    }

    open spec fn eq_spec(&self, other: &Self) -> bool {
        alike(self@, other@)
    }
}

impl<V: Eq> Eq for Node<V> {

}

impl<V: Clone> Clone for Node<V> {
    fn clone(&self) -> (copy: Self)
        ensures
            copied(self@, copy@),
        decreases self@,
    {
        let n: usize = self.children_len();
        let mut children: Vec<Node<V>> = Vec::new();
        let mut i: usize = 0;
        while i < n
            invariant
                i <= n,
                n == self@.children.len(),
                children@.len() == i,
                forall|j: int|
                    0 <= j < i ==> copied(#[trigger] self@.children[j], (#[trigger] children@[j])@),
            decreases n - i,
        {
            let child = self.child(i);
            children.push(child.clone());
            i = i + 1;
        }
        let value = match self.value() {
            Some(value) => Some(value.clone()),
            None => None,
        };
        Node::from_parts(vstd::slice::slice_to_vec(self.label()), children, value)
    }
}

} // verus!
