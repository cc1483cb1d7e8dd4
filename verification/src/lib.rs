//! A radix tree over byte strings whose operations are proved against a mathematical model.
//!
//! [`Node`] is the executable tree, [`Tree`] the value that it stands for. Every operation on a
//! node states which tree it leaves behind. What follows for the finite map from keys to values
//! that a caller has in mind, and for the order in which nodes are met, stands in [`laws`].
pub mod bytes;
mod canonical;
pub mod common_prefixes;
mod compactness;
mod descent;
pub mod entry;
pub mod equality;
mod growth;
pub mod insertion;
pub mod iter;
pub mod iter_mut;
pub mod laws;
mod listing;
pub mod lookup;
pub mod node;
pub mod outline;
pub mod pattern;
pub mod prefix;
pub mod removal;
pub mod rewriting;
mod shrinking;
pub mod traversal;
pub mod tree;
pub mod wildcard;

pub use bytes::BorrowedBytes;
pub use common_prefixes::{CommonPrefixesIter, CommonPrefixesIterOwned};
pub use entry::{Entry, OccupiedEntry, VacantEntry};
pub use iter::{IntoIter, IntoIterBfs, Iter, IterBfs};
pub use iter_mut::{IterMut, IterMutBfs};
pub use node::{Node, NodeMut};
pub use outline::Row;
pub use tree::{Tree, MAX_LABEL_LEN};
pub use wildcard::{Pattern, WalkResult, WildcardFilter, WildcardIter, WildcardMatch};
