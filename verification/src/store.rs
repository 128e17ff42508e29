//! The entry store: a content-addressed, append-mostly collection of
//! immutable entries and tagged, multi-valued directed links between
//! addresses.
//!
//! This is an in-memory replica of the host store the engine runs against:
//! committing an already-present, content-identical entry is a no-op
//! success, links behave as a set of `(base, tag, target)` triples, and an
//! availability switch models an unreachable store (every primitive then
//! fails, which the engine surfaces as `StoreUnavailable`). Two replicas
//! converge by absorbing each other's entries and links; both operations
//! are additive and idempotent, so the merge is a plain union.
//!
//! The store validates the one shape rule the engine's traversal depends
//! on: a link tagged with a symbol must point at that symbol's global
//! character node. A link that breaks the rule is rejected, never stored,
//! mirroring a host that checks registered entry shapes before it commits.

use vstd::prelude::*;
use crate::addressing::{Address, AddrV};
use crate::entries::{Entry, EntryV, spec_entry_address};

verus! {

/// The tag of a link: the label under which edges from a base address are
/// grouped and enumerated.
#[derive(Clone, Copy, Debug, PartialEq, Eq)]
pub enum Tag {
    /// One character step of a word.
    Symbol { c: char },
    /// The terminator sentinel, distinct from every character tag so that a
    /// completed word cannot collide with a one-character continuation.
    Term,
    /// A secondary-index edge from a category anchor.
    Index,
}

/// Spec-level form of a link.
pub ghost struct LinkV {
    pub base: AddrV,
    pub tag: Tag,
    pub target: AddrV,
}

/// The spec-level views of a sequence of addresses.
pub open spec fn addr_views(v: Seq<Address>) -> Seq<AddrV> {
    v.map_values(|x: Address| x@)
}

/// Builds a spec-level link.
pub open spec fn mk_link(base: AddrV, tag: Tag, target: AddrV) -> LinkV {
    LinkV { base, tag, target }
}

/// A tagged, directed link between two addresses.
#[derive(Debug)]
pub struct Link {
    pub base: Address,
    pub tag: Tag,
    pub target: Address,
}

impl View for Link {
    type V = LinkV;

    open spec fn view(&self) -> LinkV {
        LinkV { base: self.base@, tag: self.tag, target: self.target@ }
    }
}

/// Errors of the store primitives.
#[derive(Debug, PartialEq, Eq)]
pub enum StoreError {
    /// The store cannot be reached. Every operation of the engine is
    /// idempotent, so the caller may simply retry.
    Unavailable,
    /// The link failed shape validation and was not stored.
    Rejected,
}

/// Tag equality.
pub fn tag_matches(a: &Tag, b: &Tag) -> (r: bool)
    ensures
        r == (*a == *b),
{
    match (a, b) {
        (Tag::Symbol { c: c1 }, Tag::Symbol { c: c2 }) => c1 == c2,
        (Tag::Term, Tag::Term) => true,
        (Tag::Index, Tag::Index) => true,
        _ => false,
    }
}

/// The shape rule the store enforces on links: a symbol-tagged link points
/// at the global character node of that symbol. Character nodes are
/// content-addressed by their symbol alone, so every writer derives the
/// same target; the store refuses the one shape no writer produces.
pub open spec fn sym_ok(l: LinkV) -> bool {
    match l.tag {
        Tag::Symbol { c } => l.target == AddrV::Node { symbol: c },
        _ => true,
    }
}

/// All links of a set obey the shape rule.
pub open spec fn links_wf(ls: Set<LinkV>) -> bool {
    forall|l: LinkV| ls.contains(l) ==> #[trigger] sym_ok(l)
}

/// The set of targets linked from `base`, under one tag or under all tags.
pub open spec fn spec_targets(ls: Set<LinkV>, base: AddrV, tag: Option<Tag>) -> Set<AddrV> {
    match tag {
        Some(t) => Set::new(|a: AddrV| ls.contains(mk_link(base, t, a))),
        None => Set::new(
            |a: AddrV| exists|l: LinkV| #[trigger] ls.contains(l) && l.base == base && l.target == a,
        ),
    }
}

/// The committed entries of a store, as a map from each entry's content
/// address to the entry.
pub open spec fn entries_as_map(s: Seq<EntryV>) -> Map<AddrV, EntryV>
    decreases s.len(),
{
    if s.len() == 0 {
        Map::empty()
    } else {
        entries_as_map(s.drop_last()).insert(spec_entry_address(s.last()), s.last())
    }
}

/// No two entries of the sequence share a content address.
pub open spec fn unique_addrs(s: Seq<EntryV>) -> bool {
    forall|i: int, j: int|
        0 <= i < j < s.len() ==> spec_entry_address(#[trigger] s[i]) != spec_entry_address(#[trigger] s[j])
}

/// Appending an element extends the set by that element.
proof fn lemma_push_to_set<A>(s: Seq<A>, x: A)
    ensures
        s.push(x).to_set() == s.to_set().insert(x),
{
    assert forall|y: A| s.push(x).to_set().contains(y) implies s.to_set().insert(x).contains(y) by {
        let i = choose|i: int| 0 <= i < s.push(x).len() && s.push(x)[i] == y;
        if i < s.len() {
            assert(s[i] == y);
        }
    }
    assert forall|y: A| s.to_set().insert(x).contains(y) implies s.push(x).to_set().contains(y) by {
        if y == x {
            assert(s.push(x)[s.len() as int] == y);
        } else {
            let i = choose|i: int| 0 <= i < s.len() && s[i] == y;
            assert(s.push(x)[i] == y);
        }
    }
    assert(s.push(x).to_set() =~= s.to_set().insert(x));
}

/// Removing the only occurrence of an element removes it from the set.
proof fn lemma_remove_to_set<A>(s: Seq<A>, i: int)
    requires
        0 <= i < s.len(),
        s.no_duplicates(),
    ensures
        s.remove(i).to_set() == s.to_set().remove(s[i]),
{
    let t = s.remove(i);
    assert forall|y: A| t.to_set().contains(y) implies s.to_set().remove(s[i]).contains(y) by {
        let j = choose|j: int| 0 <= j < t.len() && t[j] == y;
        if j < i {
            assert(s[j] == y);
        } else {
            assert(s[j + 1] == y);
        }
    }
    assert forall|y: A| s.to_set().remove(s[i]).contains(y) implies t.to_set().contains(y) by {
        let j = choose|j: int| 0 <= j < s.len() && s[j] == y;
        assert(j != i);
        if j < i {
            assert(t[j] == y);
        } else {
            assert(t[j - 1] == y);
        }
    }
    assert(t.to_set() =~= s.to_set().remove(s[i]));
}

/// Every position of an address-unique sequence is present in its map with
/// the entry at that position.
proof fn lemma_entries_map_index(s: Seq<EntryV>, i: int)
    requires
        unique_addrs(s),
        0 <= i < s.len(),
    ensures
        entries_as_map(s).contains_key(spec_entry_address(s[i])),
        entries_as_map(s)[spec_entry_address(s[i])] == s[i],
    decreases s.len(),
{
    if i == s.len() - 1 {
    } else {
        assert(unique_addrs(s.drop_last()));
        lemma_entries_map_index(s.drop_last(), i);
        assert(spec_entry_address(s[i]) != spec_entry_address(s.last()));
    }
}

/// The domain of the entry map is exactly the addresses of the sequence.
proof fn lemma_entries_map_dom(s: Seq<EntryV>)
    ensures
        forall|a: AddrV|
            entries_as_map(s).contains_key(a) <==> exists|i: int|
                0 <= i < s.len() && spec_entry_address(#[trigger] s[i]) == a,
    decreases s.len(),
{
    if s.len() > 0 {
        let d = s.drop_last();
        lemma_entries_map_dom(d);
        let la = spec_entry_address(s.last());
        assert(entries_as_map(s) == entries_as_map(d).insert(la, s.last()));
        assert forall|a: AddrV| entries_as_map(s).contains_key(a) implies exists|i: int|
            0 <= i < s.len() && spec_entry_address(#[trigger] s[i]) == a by {
            if a == la {
                assert(s[s.len() - 1] == s.last());
                assert(spec_entry_address(s[s.len() - 1]) == a);
            } else {
                assert(entries_as_map(d).contains_key(a));
                let i = choose|i: int| 0 <= i < d.len() && spec_entry_address(#[trigger] d[i]) == a;
                assert(d[i] == s[i]);
                assert(spec_entry_address(s[i]) == a);
            }
        }
        assert forall|a: AddrV|
            (exists|i: int| 0 <= i < s.len() && spec_entry_address(#[trigger] s[i]) == a) implies
            entries_as_map(s).contains_key(a) by {
            let i = choose|i: int| 0 <= i < s.len() && spec_entry_address(#[trigger] s[i]) == a;
            if i < s.len() - 1 {
                assert(d[i] == s[i]);
                assert(spec_entry_address(d[i]) == a);
                assert(entries_as_map(d).contains_key(a));
            } else {
                assert(a == la);
            }
        }
    }
}

/// Every committed entry sits at its own content address.
pub proof fn lemma_entries_map_consistent(s: Seq<EntryV>)
    ensures
        forall|a: AddrV|
            entries_as_map(s).contains_key(a) ==> spec_entry_address(
                #[trigger] entries_as_map(s)[a],
            ) == a,
    decreases s.len(),
{
    if s.len() > 0 {
        lemma_entries_map_consistent(s.drop_last());
    }
}

/// The in-memory entry store.
pub struct Store {
    entries: Vec<Entry>,
    links: Vec<Link>,
    available: bool,
}

impl Store {
    /// The committed entries, as spec-level values in commit order.
    pub closed spec fn entry_seq(self) -> Seq<EntryV> {
        self.entries@.map_values(|e: Entry| e@)
    }

    /// The stored links, as spec-level values in creation order.
    pub closed spec fn link_seq(self) -> Seq<LinkV> {
        self.links@.map_values(|l: Link| l@)
    }

    /// The set of stored links: link creation is additive and set-like.
    pub open spec fn link_set(self) -> Set<LinkV> {
        self.link_seq().to_set()
    }

    /// The committed entries, keyed by content address.
    pub open spec fn entry_map(self) -> Map<AddrV, EntryV> {
        entries_as_map(self.entry_seq())
    }

    /// Whether the store can currently be reached.
    pub closed spec fn is_available(self) -> bool {
        self.available
    }

    #[verifier::type_invariant]
    spec fn wf(self) -> bool {
        &&& self.link_seq().no_duplicates()
        &&& unique_addrs(self.entry_seq())
        &&& forall|i: int| 0 <= i < self.link_seq().len() ==> sym_ok(#[trigger] self.link_seq()[i])
    }

    proof fn lemma_wf_exposed(self)
        requires
            self.wf(),
        ensures
            links_wf(self.link_set()),
            self.link_set().finite(),
            self.link_set().len() == self.link_seq().len(),
            self.entry_map().dom().finite(),
    {
        assert forall|l: LinkV| self.link_set().contains(l) implies #[trigger] sym_ok(l) by {
            let i = choose|i: int| 0 <= i < self.link_seq().len() && self.link_seq()[i] == l;
            assert(sym_ok(self.link_seq()[i]));
        }
        self.link_seq().unique_seq_to_set();
        Self::lemma_entries_map_finite(self.entry_seq());
    }

    proof fn lemma_entries_map_finite(s: Seq<EntryV>)
        ensures
            entries_as_map(s).dom().finite(),
        decreases s.len(),
    {
        if s.len() > 0 {
            Self::lemma_entries_map_finite(s.drop_last());
        }
    }

    /// A fresh, empty, reachable store.
    pub fn new() -> (s: Store)
        ensures
            s.entry_map() == Map::<AddrV, EntryV>::empty(),
            s.link_set() == Set::<LinkV>::empty(),
            s.is_available(),
    {
        let s = Store { entries: Vec::new(), links: Vec::new(), available: true };
        proof {
            assert(s.link_seq() =~= Seq::<LinkV>::empty());
            assert(s.entry_seq() =~= Seq::<EntryV>::empty());
            assert(s.link_set() =~= Set::<LinkV>::empty());
        }
        s
    }

    /// Switches the store's reachability: a way to exercise the outage
    /// behaviour of the engine against this replica.
    pub fn set_available(&mut self, available: bool)
        ensures
            final(self).entry_map() == old(self).entry_map(),
            final(self).link_set() == old(self).link_set(),
            final(self).is_available() == available,
    {
        proof {
            use_type_invariant(&*self);
        }
        self.available = available;
    }

    /// Commits an entry: derives its content address, stores the entry if
    /// that address is new, and returns the address. Committing a
    /// content-identical entry again is a no-op success.
    pub fn commit_entry(&mut self, entry: &Entry) -> (r: Result<Address, StoreError>)
        ensures
            final(self).link_set() == old(self).link_set(),
            final(self).is_available() == old(self).is_available(),
            match r {
                Ok(a) => {
                    &&& old(self).is_available()
                    &&& a@ == spec_entry_address(entry@)
                    &&& final(self).entry_map() == if old(self).entry_map().contains_key(
                        spec_entry_address(entry@),
                    ) {
                        old(self).entry_map()
                    } else {
                        old(self).entry_map().insert(spec_entry_address(entry@), entry@)
                    }
                },
                Err(StoreError::Unavailable) => {
                    &&& !old(self).is_available()
                    &&& final(self).entry_map() == old(self).entry_map()
                },
                Err(StoreError::Rejected) => false,
            },
    {
        if !self.available {
            proof {
                use_type_invariant(&*self);
            }
            return Err(StoreError::Unavailable);
        }
        let address = entry.entry_address();
        self.push_entry_if_new(entry);
        Ok(address)
    }

    /// Stores an entry whose content address is not yet present; a no-op if
    /// it is. The replication path, below the availability switch.
    fn push_entry_if_new(&mut self, entry: &Entry)
        ensures
            final(self).link_set() == old(self).link_set(),
            final(self).is_available() == old(self).is_available(),
            final(self).entry_map() == if old(self).entry_map().contains_key(
                spec_entry_address(entry@),
            ) {
                old(self).entry_map()
            } else {
                old(self).entry_map().insert(spec_entry_address(entry@), entry@)
            },
    {
        proof {
            use_type_invariant(&*self);
        }
        let address = entry.entry_address();
        let mut i: usize = 0;
        while i < self.entries.len()
            invariant
                i <= self.entries.len(),
                forall|j: int| 0 <= j < i ==> spec_entry_address(self.entry_seq()[j]) != address@,
                address@ == spec_entry_address(entry@),
                self == old(self),
            decreases self.entries.len() - i,
        {
            let candidate = self.entries[i].entry_address();
            proof {
                assert(self.entry_seq()[i as int] == self.entries@[i as int]@);
            }
            if candidate.same(&address) {
                proof {
                    use_type_invariant(&*self);
                    lemma_entries_map_index(self.entry_seq(), i as int);
                }
                return;
            }
            i += 1;
        }
        proof {
            use_type_invariant(&*self);
            lemma_entries_map_dom(self.entry_seq());
        }
        let mut entries: Vec<Entry> = Vec::new();
        std::mem::swap(&mut entries, &mut self.entries);
        let ghost old_seq = entries@.map_values(|e: Entry| e@);
        entries.push(entry.duplicate());
        proof {
            assert(entries@.map_values(|e: Entry| e@) =~= old_seq.push(entry@));
            assert(old_seq.push(entry@).drop_last() =~= old_seq);
        }
        std::mem::swap(&mut entries, &mut self.entries);
    }

    /// Retrieves the entry committed at an address, if any.
    pub fn get_entry(&self, address: &Address) -> (r: Result<Option<Entry>, StoreError>)
        ensures
            match r {
                Ok(Some(e)) => {
                    &&& self.is_available()
                    &&& self.entry_map().contains_key(address@)
                    &&& e@ == self.entry_map()[address@]
                },
                Ok(None) => {
                    &&& self.is_available()
                    &&& !self.entry_map().contains_key(address@)
                },
                Err(StoreError::Unavailable) => !self.is_available(),
                Err(StoreError::Rejected) => false,
            },
    {
        proof {
            use_type_invariant(&*self);
        }
        if !self.available {
            return Err(StoreError::Unavailable);
        }
        let mut i: usize = 0;
        while i < self.entries.len()
            invariant
                i <= self.entries.len(),
                forall|j: int| 0 <= j < i ==> spec_entry_address(self.entry_seq()[j]) != address@,
                self.is_available(),
            decreases self.entries.len() - i,
        {
            let candidate = self.entries[i].entry_address();
            proof {
                assert(self.entry_seq()[i as int] == self.entries@[i as int]@);
            }
            if candidate.same(address) {
                proof {
                    use_type_invariant(&*self);
                    lemma_entries_map_index(self.entry_seq(), i as int);
                    assert(spec_entry_address(self.entry_seq()[i as int]) == address@);
                }
                return Ok(Some(self.entries[i].duplicate()));
            }
            i += 1;
        }
        proof {
            use_type_invariant(&*self);
            lemma_entries_map_dom(self.entry_seq());
        }
        Ok(None)
    }

    /// Creates the link `(base, target, tag)`. Links are a set: creating a
    /// link that already exists is a no-op success. A symbol-tagged link
    /// whose target is not that symbol's character node is rejected.
    pub fn link_entries(&mut self, base: &Address, target: &Address, tag: &Tag) -> (r: Result<
        (),
        StoreError,
    >)
        ensures
            final(self).entry_map() == old(self).entry_map(),
            final(self).is_available() == old(self).is_available(),
            match r {
                Ok(()) => {
                    &&& old(self).is_available()
                    &&& sym_ok(mk_link(base@, *tag, target@))
                    &&& final(self).link_set() == old(self).link_set().insert(
                        mk_link(base@, *tag, target@),
                    )
                },
                Err(StoreError::Unavailable) => {
                    &&& !old(self).is_available()
                    &&& final(self).link_set() == old(self).link_set()
                },
                Err(StoreError::Rejected) => {
                    &&& old(self).is_available()
                    &&& !sym_ok(mk_link(base@, *tag, target@))
                    &&& final(self).link_set() == old(self).link_set()
                },
            },
    {
        proof {
            use_type_invariant(&*self);
        }
        if !self.available {
            return Err(StoreError::Unavailable);
        }
        let valid = match tag {
            Tag::Symbol { c } => {
                match target {
                    Address::Node { symbol } => *c == *symbol,
                    _ => false,
                }
            },
            _ => true,
        };
        if !valid {
            return Err(StoreError::Rejected);
        }
        let link = Link { base: base.duplicate(), tag: *tag, target: target.duplicate() };
        self.push_link_if_new(link);
        return Ok(());
    }

    /// Stores a shape-valid link that is not yet present; a no-op if it is.
    /// The replication path, below the availability switch.
    fn push_link_if_new(&mut self, link: Link)
        requires
            sym_ok(link@),
        ensures
            final(self).entry_map() == old(self).entry_map(),
            final(self).is_available() == old(self).is_available(),
            final(self).link_set() == old(self).link_set().insert(link@),
    {
        proof {
            use_type_invariant(&*self);
        }
        let ghost lv = link@;
        let mut i: usize = 0;
        while i < self.links.len()
            invariant
                i <= self.links.len(),
                forall|j: int| 0 <= j < i ==> self.link_seq()[j] != lv,
                self == old(self),
                lv == link@,
            decreases self.links.len() - i,
        {
            let l = &self.links[i];
            proof {
                assert(self.link_seq()[i as int] == self.links@[i as int]@);
            }
            if l.base.same(&link.base) && tag_matches(&l.tag, &link.tag) && l.target.same(
                &link.target,
            ) {
                proof {
                    use_type_invariant(&*self);
                    assert(self.link_set().contains(lv));
                    assert(self.link_set().insert(lv) =~= self.link_set());
                }
                return;
            }
            i += 1;
        }
        let mut links: Vec<Link> = Vec::new();
        std::mem::swap(&mut links, &mut self.links);
        let ghost old_seq = links@.map_values(|l: Link| l@);
        links.push(link);
        proof {
            assert(links@.map_values(|l: Link| l@) =~= old_seq.push(lv));
            assert(!old_seq.contains(lv));
            lemma_push_to_set(old_seq, lv);
        }
        std::mem::swap(&mut links, &mut self.links);
    }

    /// Removes the link `(base, target, tag)` if it exists; removing an
    /// absent link is a no-op success.
    pub fn unlink(&mut self, base: &Address, target: &Address, tag: &Tag) -> (r: Result<
        (),
        StoreError,
    >)
        ensures
            final(self).entry_map() == old(self).entry_map(),
            final(self).is_available() == old(self).is_available(),
            match r {
                Ok(()) => {
                    &&& old(self).is_available()
                    &&& final(self).link_set() == old(self).link_set().remove(
                        mk_link(base@, *tag, target@),
                    )
                },
                Err(StoreError::Unavailable) => {
                    &&& !old(self).is_available()
                    &&& final(self).link_set() == old(self).link_set()
                },
                Err(StoreError::Rejected) => false,
            },
    {
        proof {
            use_type_invariant(&*self);
        }
        if !self.available {
            return Err(StoreError::Unavailable);
        }
        let ghost lv = LinkV { base: base@, tag: *tag, target: target@ };
        let mut i: usize = 0;
        while i < self.links.len()
            invariant
                i <= self.links.len(),
                forall|j: int| 0 <= j < i ==> self.link_seq()[j] != lv,
                self == old(self),
                lv == mk_link(base@, *tag, target@),
                self.is_available(),
            decreases self.links.len() - i,
        {
            let l = &self.links[i];
            proof {
                assert(self.link_seq()[i as int] == self.links@[i as int]@);
            }
            if l.base.same(base) && tag_matches(&l.tag, tag) && l.target.same(target) {
                proof {
                    use_type_invariant(&*self);
                    assert(self.links@[i as int]@ == lv);
                }
                let mut links: Vec<Link> = Vec::new();
                std::mem::swap(&mut links, &mut self.links);
                let ghost old_seq = links@.map_values(|l: Link| l@);
                links.remove(i);
                proof {
                    assert(old_seq[i as int] == lv);
                    assert(links@.map_values(|l: Link| l@) =~= old_seq.remove(i as int));
                    lemma_remove_to_set(old_seq, i as int);
                    old_seq.remove(i as int).unique_seq_to_set();
                    assert(old_seq.remove(i as int).no_duplicates());
                }
                std::mem::swap(&mut links, &mut self.links);
                return Ok(());
            }
            i += 1;
        }
        proof {
            use_type_invariant(&*self);
            assert(!self.link_set().contains(lv));
            assert(self.link_set().remove(lv) =~= self.link_set());
        }
        Ok(())
    }

    /// Enumerates the targets linked from `base`: under the given tag, or,
    /// with `None`, under every tag — the "any remaining edges" query that
    /// hard delete needs.
    pub fn get_links(&self, base: &Address, tag: Option<&Tag>) -> (r: Result<
        Vec<Address>,
        StoreError,
    >)
        ensures
            links_wf(self.link_set()),
            match r {
                Ok(v) => {
                    &&& self.is_available()
                    &&& addr_views(v@).to_set() == spec_targets(
                        self.link_set(),
                        base@,
                        match tag {
                            Some(t) => Some(*t),
                            None => None,
                        },
                    )
                },
                Err(StoreError::Unavailable) => !self.is_available(),
                Err(StoreError::Rejected) => false,
            },
    {
        proof {
            use_type_invariant(&*self);
            self.lemma_wf_exposed();
        }
        if !self.available {
            return Err(StoreError::Unavailable);
        }
        let ghost tv: Option<Tag> = match tag {
            Some(t) => Some(*t),
            None => None,
        };
        let mut result: Vec<Address> = Vec::new();
        let mut i: usize = 0;
        while i < self.links.len()
            invariant
                i <= self.links.len(),
                tv == (match tag {
                    Some(t) => Some(*t),
                    None => None,
                }),
                forall|a: AddrV|
                    addr_views(result@).to_set().contains(a) <==> exists|j: int|
                        0 <= j < i && link_matches(#[trigger] self.link_seq()[j], base@, tv)
                            && self.link_seq()[j].target == a,
            decreases self.links.len() - i,
        {
            let l = &self.links[i];
            proof {
                assert(self.link_seq()[i as int] == self.links@[i as int]@);
            }
            let keep = match tag {
                Some(t) => l.base.same(base) && tag_matches(&l.tag, t),
                None => l.base.same(base),
            };
            let ghost before = addr_views(result@);
            if keep {
                result.push(l.target.duplicate());
                proof {
                    assert(addr_views(result@) =~= before.push(
                        self.link_seq()[i as int].target,
                    ));
                    lemma_push_to_set(before, self.link_seq()[i as int].target);
                }
            }
            proof {
                let views = addr_views(result@);
                assert forall|a: AddrV| #[trigger] views.to_set().contains(a)
                        implies exists|j: int|
                    0 <= j < i + 1 && link_matches(#[trigger] self.link_seq()[j], base@, tv)
                        && self.link_seq()[j].target == a by {
                    if keep && a == self.link_seq()[i as int].target {
                        assert(link_matches(self.link_seq()[i as int], base@, tv));
                    } else {
                        assert(before.to_set().contains(a));
                        let j = choose|j: int|
                            0 <= j < i && link_matches(#[trigger] self.link_seq()[j], base@, tv)
                                && self.link_seq()[j].target == a;
                        assert(link_matches(self.link_seq()[j], base@, tv));
                    }
                }
            }
            i += 1;
        }
        proof {
            let rs = addr_views(result@).to_set();
            let ts = spec_targets(self.link_set(), base@, tv);
            assert forall|a: AddrV| rs.contains(a) implies ts.contains(a) by {
                let j = choose|j: int|
                    0 <= j < self.link_seq().len() && link_matches(
                        #[trigger] self.link_seq()[j],
                        base@,
                        tv,
                    ) && self.link_seq()[j].target == a;
                assert(self.link_set().contains(self.link_seq()[j]));
            }
            assert forall|a: AddrV| ts.contains(a) implies rs.contains(a) by {
                match tv {
                    Some(t) => {
                        let lv = LinkV { base: base@, tag: t, target: a };
                        assert(self.link_set().contains(lv));
                        let j = choose|j: int|
                            0 <= j < self.link_seq().len() && self.link_seq()[j] == lv;
                        assert(link_matches(self.link_seq()[j], base@, tv));
                    },
                    None => {
                        let l = choose|l: LinkV|
                            #[trigger] self.link_set().contains(l) && l.base == base@ && l.target
                                == a;
                        let j = choose|j: int|
                            0 <= j < self.link_seq().len() && self.link_seq()[j] == l;
                        assert(link_matches(self.link_seq()[j], base@, tv));
                    },
                }
            }
            assert(rs =~= ts);
        }
        Ok(result)
    }

    /// How many distinct links the store holds.
    pub fn link_count(&self) -> (n: usize)
        ensures
            n == self.link_set().len(),
    {
        proof {
            use_type_invariant(&*self);
            self.lemma_wf_exposed();
        }
        self.links.len()
    }

    /// How many distinct entries the store holds.
    pub fn entry_count(&self) -> (n: usize)
        ensures
            n == self.entry_map().dom().len(),
    {
        proof {
            use_type_invariant(&*self);
            Self::lemma_entry_count(self.entry_seq());
        }
        self.entries.len()
    }

    proof fn lemma_entry_count(s: Seq<EntryV>)
        requires
            unique_addrs(s),
        ensures
            entries_as_map(s).dom().finite(),
            entries_as_map(s).dom().len() == s.len(),
        decreases s.len(),
    {
        if s.len() > 0 {
            assert(unique_addrs(s.drop_last()));
            Self::lemma_entry_count(s.drop_last());
            lemma_entries_map_dom(s.drop_last());
            assert(!entries_as_map(s.drop_last()).contains_key(spec_entry_address(s.last())));
        }
    }

    /// Absorbs another replica's entries and links: the union of the two
    /// stores' contents, with this replica's entry kept where both committed
    /// the same address. Models one replica becoming aware of the writes of
    /// another in an eventually consistent store.
    pub fn absorb(&mut self, other: &Store)
        ensures
            final(self).is_available() == old(self).is_available(),
            final(self).entry_map() == other.entry_map().union_prefer_right(old(self).entry_map()),
            final(self).link_set() == old(self).link_set().union(other.link_set()),
    {
        let ghost pre = old(self).entry_map();
        let ghost prelinks = old(self).link_set();
        let ghost t = other.entry_seq();
        let mut i: usize = 0;
        proof {
            assert(t.take(0) =~= Seq::<EntryV>::empty());
        }
        while i < other.entries.len()
            invariant
                i <= other.entries.len(),
                t == other.entry_seq(),
                pre == old(self).entry_map(),
                prelinks == old(self).link_set(),
                self.entry_map() == entries_as_map(t.take(i as int)).union_prefer_right(pre),
                self.link_set() == prelinks,
                self.is_available() == old(self).is_available(),
            decreases other.entries.len() - i,
        {
            let ghost cur = self.entry_map();
            let ghost e = t[i as int];
            let ghost a = spec_entry_address(e);
            proof {
                use_type_invariant(other);
                lemma_entries_map_dom(t.take(i as int));
                assert forall|j: int| 0 <= j < i implies spec_entry_address(
                    #[trigger] t.take(i as int)[j],
                ) != a by {
                    assert(t[j] == t.take(i as int)[j]);
                }
                assert(!entries_as_map(t.take(i as int)).contains_key(a));
            }
            self.push_entry_if_new(&other.entries[i]);
            proof {
                let m_i = entries_as_map(t.take(i as int));
                assert(t.take(i as int + 1).drop_last() =~= t.take(i as int));
                assert(t.take(i as int + 1).last() == e);
                let m_i1 = entries_as_map(t.take(i as int + 1));
                assert(m_i1 == m_i.insert(a, e));
                if cur.contains_key(a) {
                    assert(pre.contains_key(a));
                    assert(m_i1.union_prefer_right(pre) =~= cur);
                } else {
                    assert(m_i1.union_prefer_right(pre) =~= cur.insert(a, e));
                }
            }
            i += 1;
        }
        proof {
            assert(t.take(other.entries@.len() as int) =~= t);
        }
        let ghost s2 = other.link_seq();
        let ghost entries_done = self.entry_map();
        let mut j: usize = 0;
        proof {
            assert(s2.take(0) =~= Seq::<LinkV>::empty());
            assert(prelinks.union(s2.take(0).to_set()) =~= prelinks);
        }
        while j < other.links.len()
            invariant
                j <= other.links.len(),
                s2 == other.link_seq(),
                prelinks == old(self).link_set(),
                self.entry_map() == entries_done,
                self.link_set() == prelinks.union(s2.take(j as int).to_set()),
                self.is_available() == old(self).is_available(),
            decreases other.links.len() - j,
        {
            proof {
                use_type_invariant(other);
                assert(sym_ok(s2[j as int]));
            }
            let l = &other.links[j];
            let link = Link { base: l.base.duplicate(), tag: l.tag, target: l.target.duplicate() };
            let ghost cur = self.link_set();
            proof {
                assert(link@ == s2[j as int]);
            }
            self.push_link_if_new(link);
            proof {
                assert(s2.take(j as int + 1) =~= s2.take(j as int).push(s2[j as int]));
                lemma_push_to_set(s2.take(j as int), s2[j as int]);
                assert(cur.insert(s2[j as int]) =~= prelinks.union(s2.take(j as int + 1).to_set()));
            }
            j += 1;
        }
        proof {
            assert(s2.take(other.links@.len() as int) =~= s2);
        }
    }
}

/// Whether a link matches an enumeration query.
pub open spec fn link_matches(l: LinkV, base: AddrV, tag: Option<Tag>) -> bool {
    l.base == base && match tag {
        Some(t) => l.tag == t,
        None => true,
    }
}

} // verus!
