//! An ordered key-value map implemented as a probabilistic skip list.
//!
//! Entries are kept in strictly ascending key order on a ground-truth
//! bottom level; higher levels hold geometrically shrinking subsets of
//! the entries so that search, insertion and lookup run in expected
//! logarithmic time without any rebalancing.
//!
//! Insertion takes the list by exclusive reference, so threads sharing
//! one list serialize writes externally — typically by wrapping the list
//! in a reader-writer lock — which is also the only deployment under
//! which two racing inserts of the same new key cannot both conclude the
//! key is absent.

mod node;
mod probability;
mod rng;
mod skiplist;
mod laws;

pub use node::Node;
pub use probability::Probability;
pub use skiplist::SkipList;
pub use laws::lemma_upsert;
pub use laws::lemma_lookup_after_insert;
