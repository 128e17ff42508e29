//! The node model: the closed set of entry shapes the store holds, and the
//! derivation of each entry's content address.
//!
//! Three shapes exist: a `Trie` root (one per named vocabulary), a `TrieNode`
//! (one edge-traversal step, globally shared per symbol), and a terminator —
//! bare (`Null`) when the vocabulary is unbucketed, or carrying an opaque
//! payload (`NullTerm`) when it is bucketed.

use vstd::prelude::*;
use crate::addressing::{Address, AddrV};

verus! {

/// Root entry of one named vocabulary.
#[derive(Debug)]
pub struct Trie {
    /// The vocabulary identifier.
    pub data: String,
    /// Whether terminators carry an attached payload bucket.
    pub bucketing: bool,
}

/// One edge-traversal step at one depth. Identity is the symbol alone, so
/// nodes for the same symbol are one global entry; `level` is kept for
/// diagnostics only and takes no part in the address.
#[derive(Debug)]
pub struct TrieNode {
    /// The single character this node stands for.
    pub data: char,
    /// Depth from the root, for diagnostics.
    pub level: usize,
}

/// Bucketed terminator: marks a complete word and carries an opaque payload.
#[derive(Debug)]
pub struct NullTerm {
    /// The attached payload; the terminator's identity.
    pub data: String,
}

/// Bare terminator: a single reserved sentinel entry.
#[derive(Debug)]
pub struct Null {}

/// Spec-level form of an entry.
pub ghost enum EntryV {
    Trie { data: Seq<char>, bucketing: bool },
    Node { symbol: char, level: nat },
    NullTerm { data: Seq<char> },
    Null,
}

/// A committed entry: the closed, tagged set of node shapes, distinguished
/// by an explicit kind discriminant.
#[derive(Debug)]
pub enum Entry {
    Trie(Trie),
    Node(TrieNode),
    NullTerm(NullTerm),
    Null(Null),
}

impl View for Entry {
    type V = EntryV;

    open spec fn view(&self) -> EntryV {
        match self {
            Entry::Trie(t) => EntryV::Trie { data: t.data@, bucketing: t.bucketing },
            Entry::Node(n) => EntryV::Node { symbol: n.data, level: n.level as nat },
            Entry::NullTerm(t) => EntryV::NullTerm { data: t.data@ },
            Entry::Null(_) => EntryV::Null,
        }
    }
}

/// The address an entry's content derives: the content identity of the
/// entry, with a character node identified by its symbol alone.
pub open spec fn spec_entry_address(e: EntryV) -> AddrV {
    match e {
        EntryV::Trie { data, bucketing } => AddrV::Root { name: data, bucketing },
        EntryV::Node { symbol, .. } => AddrV::Node { symbol },
        EntryV::NullTerm { data } => AddrV::Bucket { data },
        EntryV::Null => AddrV::Term,
    }
}

impl Entry {
    /// Derives the content address of this entry, without committing it.
    pub fn entry_address(&self) -> (a: Address)
        ensures
            a@ == spec_entry_address(self@),
    {
        match self {
            Entry::Trie(t) => Address::Root { name: t.data.clone(), bucketing: t.bucketing },
            Entry::Node(n) => Address::Node { symbol: n.data },
            Entry::NullTerm(t) => Address::Bucket { data: t.data.clone() },
            Entry::Null(_) => Address::Term,
        }
    }

    /// An exact copy; entries are immutable values.
    pub fn duplicate(&self) -> (r: Entry)
        ensures
            r@ == self@,
    {
        match self {
            Entry::Trie(t) => Entry::Trie(Trie { data: t.data.clone(), bucketing: t.bucketing }),
            Entry::Node(n) => Entry::Node(TrieNode { data: n.data, level: n.level }),
            Entry::NullTerm(t) => Entry::NullTerm(NullTerm { data: t.data.clone() }),
            Entry::Null(_) => Entry::Null(Null {}),
        }
    }
}

} // verus!
