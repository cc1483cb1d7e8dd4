//! The place for a key in a tree, with or without a value.
use vstd::prelude::*;
use crate::node::Node;

verus! {

/// The node for a key, which has a value.
pub struct OccupiedEntry<'a, V: 'a> {
    pub node: &'a mut Node<V>,
}

/// The node for a key, which has no value.
pub struct VacantEntry<'a, V: 'a> {
    pub node: &'a mut Node<V>,
}

/// The node for a key.
pub enum Entry<'a, V: 'a> {
    Occupied(OccupiedEntry<'a, V>),
    Vacant(VacantEntry<'a, V>),
}

impl<'a, V: 'a> Entry<'a, V> {
    /// The node for the key.
    pub open spec fn node(self) -> &'a mut Node<V> {
        match self {
            Entry::Occupied(entry) => entry.node,
            Entry::Vacant(entry) => entry.node,
        }
    }

    /// Whether the kind of entry is right for its node.
    pub open spec fn wf(self) -> bool {
        self is Occupied <==> self.node()@.value is Some
    }

    /// Lets `f` change the value, if there is one.
    pub fn and_modify<F: FnOnce(&mut V)>(self, f: F) -> (entry: Self)
        requires
            self.wf(),
            self is Occupied ==> forall|value: &mut V|
                *value == self.node()@.value->0 ==> #[trigger] call_requires(f, (value,)),
        ensures
            entry.wf(),
            self is Vacant ==> entry == self,
            self is Occupied ==> {
                &&& entry is Occupied
                &&& *final(entry.node()) == *final(self.node())
                &&& exists|value: &mut V|
                    {
                        &&& #[trigger] call_ensures(f, (value,), ())
                        &&& *value == self.node()@.value->0
                        &&& entry.node()@ == self.node()@.with_value(Some(*final(value)))
                    }
            },
    {
        match self {
            Entry::Occupied(entry) => {
                if let Some(value) = entry.node.value_mut() {
                    f(value);
                }
                Entry::Occupied(entry)
            },
            Entry::Vacant(entry) => Entry::Vacant(entry),
        }
    }

    /// Returns the value, which is `default` if there was none.
    pub fn or_insert(self, default: V) -> (value: &'a mut V)
        requires
            self.wf(),
        ensures
            *value == match self.node()@.value {
                Some(present) => present,
                None => default,
            },
            final(self.node())@ == self.node()@.with_value(Some(*final(value))),
    {
        match self {
            Entry::Occupied(entry) => entry.node.value_mut().unwrap(),
            Entry::Vacant(entry) => {
                entry.node.set_value(default);
                entry.node.value_mut().unwrap()
            },
        }
    }

    /// Returns the value, which `default` makes if there was none.
    pub fn or_insert_with<F: FnOnce() -> V>(self, default: F) -> (value: &'a mut V)
        requires
            self.wf(),
            self is Vacant ==> call_requires(default, ()),
        ensures
            self is Occupied ==> *value == self.node()@.value->0,
            self is Vacant ==> call_ensures(default, (), *value),
            final(self.node())@ == self.node()@.with_value(Some(*final(value))),
    {
        match self {
            Entry::Occupied(entry) => entry.node.value_mut().unwrap(),
            Entry::Vacant(entry) => {
                entry.node.set_value(default());
                entry.node.value_mut().unwrap()
            },
        }
    }
}

} // verus!
