//! A trie (radix tree) mapped onto a content-addressed, append-mostly
//! entry store. Words are stored as chains of tagged links between
//! immutable, globally deduplicated entries; a terminator entry at the end
//! of a chain marks a complete word. A secondary index maps
//! `(category, id)` pairs to a word's terminator, independent of trie
//! traversal.
//!
//! The store exposes the primitives of the host it stands for — commit,
//! retrieval by address, tagged link creation, removal and enumeration —
//! and the engine builds the whole structure from them: no mutable
//! in-memory tree, no cross-call state. Entries are content-addressed, so
//! independent writers creating the same node converge to one address, and
//! links are additive and set-like, so concurrent insertions never clobber
//! each other.

pub mod addressing;
pub mod entries;
pub mod store;
pub mod adt;
pub mod laws;

pub use addressing::Address;
pub use entries::{Entry, Null, NullTerm, Trie, TrieNode};
pub use store::{Store, StoreError, Tag};
pub use adt::{TrieError, create, delete, find, insert, lookup};
