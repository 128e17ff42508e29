//! The trie engine: insertion, prefix lookup, soft and hard deletion, and
//! the category index, built entirely from immutable, content-addressed
//! entries and additive tagged links.
//!
//! A word is stored as a chain of symbol-tagged links from the vocabulary
//! root through globally shared character nodes, closed by a terminator
//! link under the sentinel tag. Every operation re-derives its path from
//! the root on each call; the engine keeps no state of its own.

use vstd::prelude::*;
use crate::addressing::{Address, AddrV, addr_lt, addr_less, lemma_addr_lt_irrefl, lemma_addr_lt_trans};
use crate::entries::{Entry, EntryV, Trie, TrieNode, NullTerm, Null, spec_entry_address};
use crate::store::{Store, Tag, LinkV, mk_link, spec_targets, sym_ok, addr_views, lemma_entries_map_consistent};
use vstd::pervasive::unreached;

verus! {

/// Errors surfaced by the trie engine. Not-found results of `lookup`,
/// `drop` and `find` are ordinary boolean or optional outcomes, never
/// errors.
#[derive(Debug, PartialEq, Eq)]
pub enum TrieError {
    /// The supplied root address does not resolve to any committed entry.
    /// The caller must `create` the vocabulary first.
    RootNotFound,
    /// An underlying store primitive failed. All engine operations are
    /// idempotent and additive, so a blind retry is safe.
    StoreUnavailable,
    /// The root address resolved, but the committed entry is not a trie
    /// root: data corruption or a cross-version mismatch, never coerced.
    MalformedEntry,
}

/// The global character node of a symbol: the same entry wherever the
/// symbol occurs; only edges encode position.
pub open spec fn sym_addr(c: char) -> AddrV {
    AddrV::Node { symbol: c }
}

/// The node reached after consuming `i` characters of `w` from `root`.
pub open spec fn node_at(root: AddrV, w: Seq<char>, i: int) -> AddrV {
    if i <= 0 {
        root
    } else {
        sym_addr(w[i - 1])
    }
}

/// The edge that carries step `i` of the word `w`.
pub open spec fn word_edge(root: AddrV, w: Seq<char>, i: int) -> LinkV {
    mk_link(node_at(root, w, i), Tag::Symbol { c: w[i] }, sym_addr(w[i]))
}

/// Whether step `i` of `w` can be traversed in the link set.
pub open spec fn has_edge(ls: Set<LinkV>, root: AddrV, w: Seq<char>, i: int) -> bool {
    ls.contains(word_edge(root, w, i))
}

/// The first `n` steps of `w` can all be traversed.
pub open spec fn can_walk(ls: Set<LinkV>, root: AddrV, w: Seq<char>, n: int) -> bool {
    forall|i: int| 0 <= i < n ==> has_edge(ls, root, w, i)
}

/// How far traversal of `w` reaches from step `i` on.
pub open spec fn walk_len_from(ls: Set<LinkV>, root: AddrV, w: Seq<char>, i: int) -> int
    decreases w.len() - i,
{
    if i < 0 || i >= w.len() || !has_edge(ls, root, w, i) {
        i
    } else {
        walk_len_from(ls, root, w, i + 1)
    }
}

/// The number of characters of `w` that traversal from `root` consumes
/// before the first missing edge.
pub open spec fn walk_len(ls: Set<LinkV>, root: AddrV, w: Seq<char>) -> int {
    walk_len_from(ls, root, w, 0)
}

/// A node marks a complete word when a terminator link leaves it.
pub open spec fn has_term(ls: Set<LinkV>, a: AddrV) -> bool {
    exists|t: AddrV| ls.contains(mk_link(a, Tag::Term, t))
}

/// The word `w` is stored: every character edge exists in order, and a
/// terminator link leaves the final node.
pub open spec fn word_stored(ls: Set<LinkV>, root: AddrV, w: Seq<char>) -> bool {
    can_walk(ls, root, w, w.len() as int) && has_term(ls, node_at(root, w, w.len() as int))
}

/// The root address resolves to a committed vocabulary root.
pub open spec fn resolves_to_root(em: Map<AddrV, EntryV>, a: AddrV) -> bool {
    em.contains_key(a) && em[a] is Trie
}

/// Whether the committed vocabulary root is bucketed.
pub open spec fn root_bucketing(em: Map<AddrV, EntryV>, a: AddrV) -> bool {
    match em[a] {
        EntryV::Trie { bucketing, .. } => bucketing,
        _ => false,
    }
}

/// `walk_len_from` stops exactly at the first missing edge.
pub proof fn lemma_walk_len_from(ls: Set<LinkV>, root: AddrV, w: Seq<char>, i: int, k: int)
    requires
        0 <= i <= k <= w.len(),
        forall|j: int| i <= j < k ==> has_edge(ls, root, w, j),
        k == w.len() || !has_edge(ls, root, w, k),
    ensures
        walk_len_from(ls, root, w, i) == k,
    decreases k - i,
{
    if i < k {
        lemma_walk_len_from(ls, root, w, i + 1, k);
    }
}

/// The traversal length is within bounds, every step before it can be
/// walked, and the step at it (if any) cannot.
pub proof fn lemma_walk_len_props(ls: Set<LinkV>, root: AddrV, w: Seq<char>, i: int)
    requires
        0 <= i <= w.len(),
    ensures
        i <= walk_len_from(ls, root, w, i) <= w.len(),
        forall|j: int| i <= j < walk_len_from(ls, root, w, i) ==> has_edge(ls, root, w, j),
        walk_len_from(ls, root, w, i) < w.len() ==> !has_edge(
            ls,
            root,
            w,
            walk_len_from(ls, root, w, i),
        ),
    decreases w.len() - i,
{
    if i < w.len() && has_edge(ls, root, w, i) {
        lemma_walk_len_props(ls, root, w, i + 1);
    }
}


/// The edges of steps `a` (inclusive) to `b` (exclusive) of the word `w`.
pub open spec fn word_edges_range(root: AddrV, w: Seq<char>, a: int, b: int) -> Set<LinkV> {
    Set::new(|l: LinkV| exists|i: int| a <= i < b && l == word_edge(root, w, i))
}

/// Every character edge of the word `w`.
pub open spec fn word_edges(root: AddrV, w: Seq<char>) -> Set<LinkV> {
    word_edges_range(root, w, 0, w.len() as int)
}

/// The terminator link of the word `w`, pointing at the terminator `t`.
pub open spec fn term_edge(root: AddrV, w: Seq<char>, t: AddrV) -> LinkV {
    mk_link(node_at(root, w, w.len() as int), Tag::Term, t)
}

/// The payload a bucketed terminator carries: the supplied bucket, or
/// empty when none was given.
pub open spec fn spec_payload(bucket: Option<Seq<char>>) -> Seq<char> {
    match bucket {
        Some(b) => b,
        None => Seq::empty(),
    }
}

/// The terminator entry a word commits: bare, or bucketed with a payload.
pub open spec fn term_entry(bucketing: bool, payload: Seq<char>) -> EntryV {
    if bucketing {
        EntryV::NullTerm { data: payload }
    } else {
        EntryV::Null
    }
}

/// The address of the terminator a word links to.
pub open spec fn term_target(bucketing: bool, payload: Seq<char>) -> AddrV {
    if bucketing {
        AddrV::Bucket { data: payload }
    } else {
        AddrV::Term
    }
}

/// The category anchor a word's index link leaves from: qualified by the
/// explicit id when one is supplied, else by the word itself.
pub open spec fn anchor_addr(category: Seq<char>, word: Seq<char>, id: Option<int>) -> AddrV {
    match id {
        Some(n) => AddrV::IdAnchor { category, id: n },
        None => AddrV::Anchor { category, word },
    }
}

/// The secondary-index link from a category anchor to a terminator.
pub open spec fn index_edge(anchor: AddrV, t: AddrV) -> LinkV {
    mk_link(anchor, Tag::Index, t)
}

/// The links a completed insertion leaves in the store: everything that
/// was there, every character edge of the word, the terminator link, and —
/// when a category was supplied — the index link from the category anchor.
/// Links are a set, so inserting a stored word adds nothing.
pub open spec fn insert_links(
    ls: Set<LinkV>,
    root: AddrV,
    w: Seq<char>,
    t: AddrV,
    category: Option<Seq<char>>,
    id: Option<int>,
) -> Set<LinkV> {
    let base = ls.union(word_edges(root, w)).insert(term_edge(root, w, t));
    match category {
        Some(c) => base.insert(index_edge(anchor_addr(c, w, id), t)),
        None => base,
    }
}

/// The character-node entries an insertion commits, from step `j` to the
/// end of the word: each symbol's global node, committed only where its
/// address is new, with its depth recorded for diagnostics.
pub open spec fn commit_nodes(em: Map<AddrV, EntryV>, w: Seq<char>, j: int) -> Map<AddrV, EntryV>
    decreases w.len() - j,
{
    if j < 0 || j >= w.len() {
        em
    } else {
        let em2 = if em.contains_key(sym_addr(w[j])) {
            em
        } else {
            em.insert(sym_addr(w[j]), EntryV::Node { symbol: w[j], level: j as nat })
        };
        commit_nodes(em2, w, j + 1)
    }
}

/// The terminator entry an insertion commits, where its address is new.
pub open spec fn commit_term(em: Map<AddrV, EntryV>, bucketing: bool, payload: Seq<char>) -> Map<
    AddrV,
    EntryV,
> {
    if em.contains_key(term_target(bucketing, payload)) {
        em
    } else {
        em.insert(term_target(bucketing, payload), term_entry(bucketing, payload))
    }
}

/// The entries a completed insertion leaves committed: character nodes
/// from the first untraversable step `k` on, then the terminator.
pub open spec fn insert_entries(
    em: Map<AddrV, EntryV>,
    w: Seq<char>,
    k: int,
    bucketing: bool,
    payload: Seq<char>,
) -> Map<AddrV, EntryV> {
    commit_term(commit_nodes(em, w, k), bucketing, payload)
}

/// The entries an idempotent root commit leaves.
pub open spec fn commit_root(em: Map<AddrV, EntryV>, name: Seq<char>, bucketing: bool) -> Map<
    AddrV,
    EntryV,
> {
    if em.contains_key(AddrV::Root { name, bucketing }) {
        em
    } else {
        em.insert(
            AddrV::Root { name, bucketing },
            EntryV::Trie { data: name, bucketing },
        )
    }
}

/// The spec-level view of an optional string argument.
pub open spec fn opt_str_view(o: Option<&String>) -> Option<Seq<char>> {
    match o {
        Some(s) => Some(s@),
        None => None,
    }
}

/// The spec-level view of an optional id argument.
pub open spec fn opt_id_view(o: Option<i32>) -> Option<int> {
    match o {
        Some(n) => Some(n as int),
        None => None,
    }
}

/// Extending a range of word edges by one step inserts that step's edge.
proof fn lemma_range_extend(root: AddrV, w: Seq<char>, a: int, b: int)
    requires
        0 <= a <= b < w.len(),
    ensures
        word_edges_range(root, w, a, b + 1) == word_edges_range(root, w, a, b).insert(
            word_edge(root, w, b),
        ),
{
    let lhs = word_edges_range(root, w, a, b + 1);
    let rhs = word_edges_range(root, w, a, b).insert(word_edge(root, w, b));
    assert forall|l: LinkV| lhs.contains(l) implies rhs.contains(l) by {
        let i = choose|i: int| a <= i < b + 1 && l == word_edge(root, w, i);
        if i < b {
            assert(word_edges_range(root, w, a, b).contains(l));
        }
    }
    assert forall|l: LinkV| rhs.contains(l) implies lhs.contains(l) by {
        if l == word_edge(root, w, b) {
        } else {
            let i = choose|i: int| a <= i < b && l == word_edge(root, w, i);
        }
    }
    assert(lhs =~= rhs);
}

/// Edges of steps already traversable in `ls` add nothing to the union:
/// only the tail from the first missing step matters.
proof fn lemma_union_range(ls: Set<LinkV>, root: AddrV, w: Seq<char>, k: int)
    requires
        0 <= k <= w.len(),
        forall|i: int| 0 <= i < k ==> has_edge(ls, root, w, i),
    ensures
        ls.union(word_edges_range(root, w, k, w.len() as int)) == ls.union(word_edges(root, w)),
{
    let lhs = ls.union(word_edges_range(root, w, k, w.len() as int));
    let rhs = ls.union(word_edges(root, w));
    assert forall|l: LinkV| rhs.contains(l) implies lhs.contains(l) by {
        if !ls.contains(l) {
            let i = choose|i: int| 0 <= i < w.len() && l == word_edge(root, w, i);
            if i < k {
                assert(has_edge(ls, root, w, i));
            } else {
                assert(word_edges_range(root, w, k, w.len() as int).contains(l));
            }
        }
    }
    assert forall|l: LinkV| lhs.contains(l) implies rhs.contains(l) by {
        if !ls.contains(l) {
            let i = choose|i: int| k <= i < w.len() && l == word_edge(root, w, i);
            assert(word_edges(root, w).contains(l));
        }
    }
    assert(lhs =~= rhs);
}

/// Resolves a root address: the committed entry it names, which must be a
/// vocabulary root, whose bucketing flag is returned.
fn resolve_root(store: &Store, root: &Address) -> (r: Result<bool, TrieError>)
    ensures
        match r {
            Ok(b) => {
                &&& store.is_available()
                &&& resolves_to_root(store.entry_map(), root@)
                &&& b == root_bucketing(store.entry_map(), root@)
            },
            Err(TrieError::StoreUnavailable) => !store.is_available(),
            Err(TrieError::RootNotFound) => {
                &&& store.is_available()
                &&& !store.entry_map().contains_key(root@)
            },
            Err(TrieError::MalformedEntry) => {
                &&& store.is_available()
                &&& store.entry_map().contains_key(root@)
                &&& !(store.entry_map()[root@] is Trie)
            },
        },
{
    match store.get_entry(root) {
        Err(_) => Err(TrieError::StoreUnavailable),
        Ok(None) => Err(TrieError::RootNotFound),
        Ok(Some(e)) => {
            match e {
                Entry::Trie(t) => Ok(t.bucketing),
                _ => Err(TrieError::MalformedEntry),
            }
        },
    }
}

/// The address of the node reached after `i` characters of `data`.
fn node_address(root: &Address, data: &String, i: usize) -> (a: Address)
    requires
        i <= data@.len(),
    ensures
        a@ == node_at(root@, data@, i as int),
{
    if i == 0 {
        root.duplicate()
    } else {
        Address::Node { symbol: data.as_str().get_char(i - 1) }
    }
}

/// Walks `data` from `root` edge by edge, as far as the stored links reach.
/// Returns how many characters were consumed and the node reached.
fn walk(store: &Store, root: &Address, data: &String) -> (r: Result<(usize, Address), TrieError>)
    ensures
        match r {
            Ok((k, node)) => {
                &&& k <= data@.len()
                &&& k == walk_len(store.link_set(), root@, data@)
                &&& node@ == node_at(root@, data@, k as int)
            },
            Err(TrieError::StoreUnavailable) => !store.is_available(),
            Err(TrieError::RootNotFound) => false,
            Err(TrieError::MalformedEntry) => false,
        },
{
    let n = data.as_str().unicode_len();
    let mut k: usize = 0;
    let mut traverser: Address = root.duplicate();
    let mut walking = true;
    while walking && k < n
        invariant
            n == data@.len(),
            k <= n,
            traverser@ == node_at(root@, data@, k as int),
            forall|i: int| 0 <= i < k ==> has_edge(store.link_set(), root@, data@, i),
            !walking ==> k < n && !has_edge(store.link_set(), root@, data@, k as int),
        decreases n - k + (if walking { 1int } else { 0int }),
    {
        let c = data.as_str().get_char(k);
        let targets = match store.get_links(&traverser, Some(&Tag::Symbol { c })) {
            Ok(v) => v,
            Err(_) => {
                return Err(TrieError::StoreUnavailable);
            },
        };
        let ghost ts = spec_targets(store.link_set(), traverser@, Some(Tag::Symbol { c }));
        if targets.len() == 0 {
            proof {
                assert(!has_edge(store.link_set(), root@, data@, k as int)) by {
                    if has_edge(store.link_set(), root@, data@, k as int) {
                        assert(ts.contains(sym_addr(c)));
                        assert(addr_views(targets@).to_set().contains(sym_addr(c)));
                        let j = choose|j: int|
                            0 <= j < addr_views(targets@).len() && addr_views(targets@)[j]
                                == sym_addr(c);
                        assert(targets@.len() > 0);
                    }
                }
            }
            walking = false;
        } else {
            let next = targets[0].duplicate();
            proof {
                let views = addr_views(targets@);
                assert(views[0] == targets@[0]@);
                assert(views.to_set().contains(views[0]));
                assert(ts.contains(views[0]));
                let lk = mk_link(traverser@, Tag::Symbol { c }, views[0]);
                assert(store.link_set().contains(lk));
                assert(sym_ok(lk));
                assert(next@ == sym_addr(c));
                assert(has_edge(store.link_set(), root@, data@, k as int));
            }
            traverser = next;
            k = k + 1;
        }
    }
    proof {
        lemma_walk_len_from(store.link_set(), root@, data@, 0, k as int);
    }
    Ok((k, traverser))
}

/// Prefix lookup: `true` exactly when traversal consumes every character
/// of `data` and a terminator link leaves the final node. A failed
/// traversal or a missing terminator is the ordinary negative outcome,
/// never an error.
pub fn lookup(store: &Store, root: &Address, data: &String) -> (r: Result<bool, TrieError>)
    ensures
        match r {
            Ok(b) => {
                &&& store.is_available()
                &&& resolves_to_root(store.entry_map(), root@)
                &&& b == word_stored(store.link_set(), root@, data@)
            },
            Err(TrieError::StoreUnavailable) => !store.is_available(),
            Err(TrieError::RootNotFound) => {
                &&& store.is_available()
                &&& !store.entry_map().contains_key(root@)
            },
            Err(TrieError::MalformedEntry) => {
                &&& store.is_available()
                &&& store.entry_map().contains_key(root@)
                &&& !(store.entry_map()[root@] is Trie)
            },
        },
{
    match resolve_root(store, root) {
        Ok(_) => {},
        Err(e) => {
            return Err(e);
        },
    }
    let (k, node) = match walk(store, root, data) {
        Ok(p) => p,
        Err(e) => {
            return Err(e);
        },
    };
    let n = data.as_str().unicode_len();
    if k < n {
        proof {
            lemma_walk_len_props(store.link_set(), root@, data@, 0);
            assert(!has_edge(store.link_set(), root@, data@, k as int));
        }
        return Ok(false);
    }
    proof {
        lemma_walk_len_props(store.link_set(), root@, data@, 0);
        assert(can_walk(store.link_set(), root@, data@, n as int));
    }
    let targets = match store.get_links(&node, Some(&Tag::Term)) {
        Ok(v) => v,
        Err(_) => {
            return Err(TrieError::StoreUnavailable);
        },
    };
    let found = targets.len() > 0;
    proof {
        let ts = spec_targets(store.link_set(), node@, Some(Tag::Term));
        let views = addr_views(targets@);
        if targets@.len() > 0 {
            assert(views.to_set().contains(views[0]));
            assert(ts.contains(views[0]));
            assert(has_term(store.link_set(), node@));
        } else {
            if has_term(store.link_set(), node@) {
                let t = choose|t: AddrV| store.link_set().contains(mk_link(node@, Tag::Term, t));
                assert(ts.contains(t));
                assert(views.to_set().contains(t));
                let j = choose|j: int| 0 <= j < views.len() && views[j] == t;
                assert(targets@.len() > 0);
            }
        }
    }
    Ok(found)
}

/// Creates (or re-derives) the root of a named vocabulary: commits the
/// root entry if absent and returns its deterministic address. Creating
/// the same vocabulary again yields the same address and changes nothing.
pub fn create(store: &mut Store, name: &String, bucketing: bool) -> (r: Result<Address, TrieError>)
    ensures
        final(store).link_set() == old(store).link_set(),
        final(store).is_available() == old(store).is_available(),
        match r {
            Ok(a) => {
                &&& old(store).is_available()
                &&& a@ == (AddrV::Root { name: name@, bucketing })
                &&& final(store).entry_map() == commit_root(old(store).entry_map(), name@, bucketing)
                &&& resolves_to_root(final(store).entry_map(), a@)
                &&& root_bucketing(final(store).entry_map(), a@) == bucketing
            },
            Err(TrieError::StoreUnavailable) => {
                &&& !old(store).is_available()
                &&& final(store).entry_map() == old(store).entry_map()
            },
            Err(TrieError::RootNotFound) => false,
            Err(TrieError::MalformedEntry) => false,
        },
{
    let entry = Entry::Trie(Trie { data: name.clone(), bucketing });
    match store.commit_entry(&entry) {
        Ok(a) => {
            proof {
                lemma_entries_map_consistent(store.entry_seq());
                assert(store.entry_map().contains_key(a@));
                assert(spec_entry_address(store.entry_map()[a@]) == a@);
                assert(store.entry_map()[a@] is Trie);
            }
            Ok(a)
        },
        Err(_) => Err(TrieError::StoreUnavailable),
    }
}

/// Adds `data` to the vocabulary under `root`: traverses the shared
/// prefix, commits and links the missing character nodes, commits the
/// terminator (bare, or bucketed with the supplied payload) and links it
/// under the sentinel tag, and — when a category is supplied — links the
/// terminator from the category anchor, qualified by the id when one is
/// given. Returns the terminator's address. Every step is additive and
/// idempotent: inserting a stored word leaves the store unchanged.
pub fn insert(
    store: &mut Store,
    root: &Address,
    data: &String,
    bucket: Option<&String>,
    category: Option<&String>,
    id: Option<i32>,
) -> (r: Result<Address, TrieError>)
    requires
        data@.len() > 0,
    ensures
        final(store).is_available() == old(store).is_available(),
        match r {
            Ok(a) => {
                &&& old(store).is_available()
                &&& resolves_to_root(old(store).entry_map(), root@)
                &&& a@ == term_target(
                    root_bucketing(old(store).entry_map(), root@),
                    spec_payload(opt_str_view(bucket)),
                )
                &&& final(store).link_set() == insert_links(
                    old(store).link_set(),
                    root@,
                    data@,
                    a@,
                    opt_str_view(category),
                    opt_id_view(id),
                )
                &&& final(store).entry_map() == insert_entries(
                    old(store).entry_map(),
                    data@,
                    walk_len(old(store).link_set(), root@, data@),
                    root_bucketing(old(store).entry_map(), root@),
                    spec_payload(opt_str_view(bucket)),
                )
                &&& word_stored(final(store).link_set(), root@, data@)
            },
            Err(TrieError::StoreUnavailable) => {
                &&& !old(store).is_available()
                &&& final(store).link_set() == old(store).link_set()
                &&& final(store).entry_map() == old(store).entry_map()
            },
            Err(TrieError::RootNotFound) => {
                &&& old(store).is_available()
                &&& !old(store).entry_map().contains_key(root@)
                &&& final(store).link_set() == old(store).link_set()
                &&& final(store).entry_map() == old(store).entry_map()
            },
            Err(TrieError::MalformedEntry) => {
                &&& old(store).is_available()
                &&& old(store).entry_map().contains_key(root@)
                &&& !(old(store).entry_map()[root@] is Trie)
                &&& final(store).link_set() == old(store).link_set()
                &&& final(store).entry_map() == old(store).entry_map()
            },
        },
{
    let bucketing = match resolve_root(store, root) {
        Ok(b) => b,
        Err(e) => {
            return Err(e);
        },
    };
    let (k, start) = match walk(store, root, data) {
        Ok(p) => p,
        Err(e) => {
            return Err(e);
        },
    };
    let n = data.as_str().unicode_len();
    let ghost ls0 = store.link_set();
    let ghost em0 = store.entry_map();
    proof {
        lemma_walk_len_props(store.link_set(), root@, data@, 0);
        assert(word_edges_range(root@, data@, k as int, k as int) =~= Set::<LinkV>::empty());
        assert(ls0.union(word_edges_range(root@, data@, k as int, k as int)) =~= ls0);
    }
    let mut j: usize = k;
    let mut traverser: Address = start;
    while j < n
        invariant
            n == data@.len(),
            k <= j <= n,
            traverser@ == node_at(root@, data@, j as int),
            store.is_available(),
            store.link_set() == ls0.union(word_edges_range(root@, data@, k as int, j as int)),
            commit_nodes(em0, data@, k as int) == commit_nodes(store.entry_map(), data@, j as int),
        decreases n - j,
    {
        let c = data.as_str().get_char(j);
        let node_entry = Entry::Node(TrieNode { data: c, level: j });
        let ghost em_before = store.entry_map();
        let addr = match store.commit_entry(&node_entry) {
            Ok(a) => a,
            Err(_) => unreached(),
        };
        proof {
            assert(addr@ == sym_addr(c));
            assert(commit_nodes(em_before, data@, j as int) == commit_nodes(
                store.entry_map(),
                data@,
                j as int + 1,
            ));
        }
        match store.link_entries(&traverser, &addr, &Tag::Symbol { c }) {
            Ok(()) => {},
            Err(_) => {
                proof {
                    assert(sym_ok(mk_link(traverser@, Tag::Symbol { c }, addr@)));
                }
                unreached()
            },
        }
        proof {
            assert(mk_link(traverser@, Tag::Symbol { c }, addr@) == word_edge(
                root@,
                data@,
                j as int,
            ));
            lemma_range_extend(root@, data@, k as int, j as int);
            assert(store.link_set() =~= ls0.union(
                word_edges_range(root@, data@, k as int, j as int + 1),
            ));
        }
        traverser = addr;
        j = j + 1;
    }
    let payload = match bucket {
        Some(b) => b.clone(),
        None => String::new(),
    };
    let terminator = if bucketing {
        Entry::NullTerm(NullTerm { data: payload })
    } else {
        Entry::Null(Null {})
    };
    let ghost em_nodes = store.entry_map();
    let term_addr = match store.commit_entry(&terminator) {
        Ok(a) => a,
        Err(_) => unreached(),
    };
    proof {
        assert(term_addr@ == term_target(bucketing, spec_payload(opt_str_view(bucket))));
        assert(store.entry_map() == commit_term(
            em_nodes,
            bucketing,
            spec_payload(opt_str_view(bucket)),
        ));
        assert(store.entry_map() == insert_entries(
            em0,
            data@,
            k as int,
            bucketing,
            spec_payload(opt_str_view(bucket)),
        ));
    }
    match store.link_entries(&traverser, &term_addr, &Tag::Term) {
        Ok(()) => {},
        Err(_) => unreached(),
    }
    proof {
        assert(mk_link(traverser@, Tag::Term, term_addr@) == term_edge(root@, data@, term_addr@));
        lemma_union_range(ls0, root@, data@, k as int);
        assert(store.link_set() == ls0.union(word_edges(root@, data@)).insert(
            term_edge(root@, data@, term_addr@),
        ));
    }
    let ghost ls_term = store.link_set();
    match category {
        Some(cat) => {
            let anchor = match id {
                Some(i) => Address::IdAnchor { category: cat.clone(), id: i },
                None => Address::Anchor { category: cat.clone(), word: data.clone() },
            };
            proof {
                assert(anchor@ == anchor_addr(cat@, data@, opt_id_view(id)));
            }
            match store.link_entries(&anchor, &term_addr, &Tag::Index) {
                Ok(()) => {},
                Err(_) => unreached(),
            }
            proof {
                assert(store.link_set() == ls_term.insert(
                    index_edge(anchor_addr(cat@, data@, opt_id_view(id)), term_addr@),
                ));
            }
        },
        None => {},
    }
    proof {
        assert(store.link_set() == insert_links(
            ls0,
            root@,
            data@,
            term_addr@,
            opt_str_view(category),
            opt_id_view(id),
        ));
        assert(can_walk(store.link_set(), root@, data@, n as int)) by {
            assert forall|i: int| 0 <= i < n implies has_edge(store.link_set(), root@, data@, i) by {
                if i < k {
                    assert(has_edge(ls0, root@, data@, i));
                } else {
                    assert(word_edges(root@, data@).contains(word_edge(root@, data@, i)));
                    assert(ls_term.contains(word_edge(root@, data@, i)));
                }
            }
        }
        assert(store.link_set().contains(term_edge(root@, data@, term_addr@)));
        assert(has_term(store.link_set(), node_at(root@, data@, n as int)));
    }
    Ok(term_addr)
}

/// All links from `base` under one tag.
pub open spec fn tag_triples(base: AddrV, tag: Tag) -> Set<LinkV> {
    Set::new(|l: LinkV| l.base == base && l.tag == tag)
}

/// Whether any link at all leaves the address `a`.
pub open spec fn has_outgoing(ls: Set<LinkV>, a: AddrV) -> bool {
    exists|l: LinkV| #[trigger] ls.contains(l) && l.base == a
}

/// The links a soft delete leaves: when the word's path is traversable,
/// every terminator link of its final node is removed and nothing else;
/// otherwise the store is untouched.
pub open spec fn spec_drop(ls: Set<LinkV>, root: AddrV, w: Seq<char>) -> Set<LinkV> {
    if can_walk(ls, root, w, w.len() as int) {
        ls.difference(tag_triples(node_at(root, w, w.len() as int), Tag::Term))
    } else {
        ls
    }
}

/// The backward walk of a hard delete: from position `p` toward the root,
/// while the node reached has no remaining outgoing link, its incoming
/// character edge is removed; the walk stops at the first node still in
/// use. Shared-prefix edges are never removed, because the surviving
/// sibling keeps an outgoing link alive on the shared part.
pub open spec fn prune(ls: Set<LinkV>, root: AddrV, w: Seq<char>, p: int) -> Set<LinkV>
    decreases p,
{
    if p <= 0 {
        ls
    } else if !has_outgoing(ls, node_at(root, w, p)) {
        prune(ls.remove(word_edge(root, w, p - 1)), root, w, p - 1)
    } else {
        ls
    }
}

/// The links a hard delete leaves: soft delete, then the backward walk,
/// then — when a category was supplied — removal of the index links from
/// the matching category anchor. A word that was not stored changes
/// nothing.
pub open spec fn spec_delete(
    ls: Set<LinkV>,
    root: AddrV,
    w: Seq<char>,
    category: Option<Seq<char>>,
    id: Option<int>,
) -> Set<LinkV> {
    if word_stored(ls, root, w) {
        let dropped = ls.difference(tag_triples(node_at(root, w, w.len() as int), Tag::Term));
        let pruned = prune(dropped, root, w, w.len() as int);
        match category {
            Some(c) => pruned.difference(tag_triples(anchor_addr(c, w, id), Tag::Index)),
            None => pruned,
        }
    } else {
        ls
    }
}

/// An element is in a pushed sequence exactly when it was there before or
/// is the pushed one.
proof fn lemma_contains_push<A>(s: Seq<A>, x: A, y: A)
    ensures
        s.push(x).contains(y) <==> (s.contains(y) || y == x),
{
    if s.push(x).contains(y) {
        let j = choose|j: int| 0 <= j < s.push(x).len() && s.push(x)[j] == y;
        if j < s.len() {
            assert(s[j] == y);
        }
    }
    if s.contains(y) {
        let j = choose|j: int| 0 <= j < s.len() && s[j] == y;
        assert(s.push(x)[j] == y);
    }
    if y == x {
        assert(s.push(x)[s.len() as int] == y);
    }
}

/// Removes every link from `base` under `tag`, and reports whether any
/// existed.
fn unlink_all(store: &mut Store, base: &Address, tag: &Tag) -> (r: Result<bool, TrieError>)
    ensures
        final(store).entry_map() == old(store).entry_map(),
        final(store).is_available() == old(store).is_available(),
        match r {
            Ok(b) => {
                &&& old(store).is_available()
                &&& b == exists|t: AddrV| old(store).link_set().contains(mk_link(base@, *tag, t))
                &&& final(store).link_set() == old(store).link_set().difference(
                    tag_triples(base@, *tag),
                )
            },
            Err(TrieError::StoreUnavailable) => {
                &&& !old(store).is_available()
                &&& final(store).link_set() == old(store).link_set()
            },
            Err(TrieError::RootNotFound) => false,
            Err(TrieError::MalformedEntry) => false,
        },
{
    let targets = match store.get_links(base, Some(tag)) {
        Ok(v) => v,
        Err(_) => {
            return Err(TrieError::StoreUnavailable);
        },
    };
    let ghost ls0 = store.link_set();
    let ghost tviews = addr_views(targets@);
    let any = targets.len() > 0;
    proof {
        let ts = spec_targets(ls0, base@, Some(*tag));
        if targets@.len() > 0 {
            assert(tviews.to_set().contains(tviews[0]));
            assert(ts.contains(tviews[0]));
        } else {
            if exists|t: AddrV| ls0.contains(mk_link(base@, *tag, t)) {
                let t = choose|t: AddrV| ls0.contains(mk_link(base@, *tag, t));
                assert(ts.contains(t));
                assert(tviews.to_set().contains(t));
                let j = choose|j: int| 0 <= j < tviews.len() && tviews[j] == t;
                assert(targets@.len() > 0);
            }
        }
        assert(ls0.difference(
            Set::new(
                |l: LinkV| l.base == base@ && l.tag == *tag && tviews.take(0).contains(l.target),
            ),
        ) =~= ls0);
    }
    let mut i: usize = 0;
    while i < targets.len()
        invariant
            i <= targets.len(),
            tviews == addr_views(targets@),
            ls0 == old(store).link_set(),
            tviews.to_set() == spec_targets(ls0, base@, Some(*tag)),
            store.is_available(),
            store.entry_map() == old(store).entry_map(),
            store.link_set() == ls0.difference(
                Set::new(
                    |l: LinkV| l.base == base@ && l.tag == *tag && tviews.take(i as int).contains(
                        l.target,
                    ),
                ),
            ),
        decreases targets.len() - i,
    {
        let ghost cur = store.link_set();
        let ghost px = Set::new(
            |l: LinkV| l.base == base@ && l.tag == *tag && tviews.take(i as int).contains(l.target),
        );
        let ghost px1 = Set::new(
            |l: LinkV| l.base == base@ && l.tag == *tag && tviews.take(i as int + 1).contains(
                l.target,
            ),
        );
        let t = &targets[i];
        match store.unlink(base, t, tag) {
            Ok(()) => {},
            Err(_) => unreached(),
        }
        proof {
            let x = mk_link(base@, *tag, t@);
            assert(t@ == tviews[i as int]);
            assert(tviews.take(i as int + 1) =~= tviews.take(i as int).push(tviews[i as int]));
            assert forall|l: LinkV| cur.remove(x).contains(l) implies ls0.difference(
                px1,
            ).contains(l) by {
                lemma_contains_push(tviews.take(i as int), tviews[i as int], l.target);
            }
            assert forall|l: LinkV| ls0.difference(px1).contains(l) implies cur.remove(
                x,
            ).contains(l) by {
                lemma_contains_push(tviews.take(i as int), tviews[i as int], l.target);
                if l == x {
                    assert(px1.contains(l));
                }
            }
            assert(cur.remove(x) =~= ls0.difference(px1));
        }
        i += 1;
    }
    proof {
        let pall = Set::new(
            |l: LinkV| l.base == base@ && l.tag == *tag && tviews.take(
                targets@.len() as int,
            ).contains(l.target),
        );
        assert(tviews.take(targets@.len() as int) =~= tviews);
        assert forall|l: LinkV| ls0.difference(pall).contains(l) implies ls0.difference(
            tag_triples(base@, *tag),
        ).contains(l) by {
            if l.base == base@ && l.tag == *tag {
                assert(spec_targets(ls0, base@, Some(*tag)).contains(l.target));
                assert(tviews.to_set().contains(l.target));
            }
        }
        assert(ls0.difference(pall) =~= ls0.difference(tag_triples(base@, *tag)));
    }
    Ok(any)
}

/// Soft delete: removes only the terminator link of `data`, leaving every
/// character edge in place for any other word sharing the prefix — and
/// for `data` itself as a prefix. Returns whether the word was stored;
/// dropping an absent word changes nothing. Dropping twice is a no-op the
/// second time.
pub fn drop(store: &mut Store, root: &Address, data: &String) -> (r: Result<bool, TrieError>)
    ensures
        final(store).entry_map() == old(store).entry_map(),
        final(store).is_available() == old(store).is_available(),
        match r {
            Ok(b) => {
                &&& old(store).is_available()
                &&& resolves_to_root(old(store).entry_map(), root@)
                &&& b == word_stored(old(store).link_set(), root@, data@)
                &&& final(store).link_set() == spec_drop(old(store).link_set(), root@, data@)
            },
            Err(TrieError::StoreUnavailable) => {
                &&& !old(store).is_available()
                &&& final(store).link_set() == old(store).link_set()
            },
            Err(TrieError::RootNotFound) => {
                &&& old(store).is_available()
                &&& !old(store).entry_map().contains_key(root@)
                &&& final(store).link_set() == old(store).link_set()
            },
            Err(TrieError::MalformedEntry) => {
                &&& old(store).is_available()
                &&& old(store).entry_map().contains_key(root@)
                &&& !(old(store).entry_map()[root@] is Trie)
                &&& final(store).link_set() == old(store).link_set()
            },
        },
{
    match resolve_root(store, root) {
        Ok(_) => {},
        Err(e) => {
            return Err(e);
        },
    }
    let (k, node) = match walk(store, root, data) {
        Ok(p) => p,
        Err(e) => {
            return Err(e);
        },
    };
    let n = data.as_str().unicode_len();
    proof {
        lemma_walk_len_props(store.link_set(), root@, data@, 0);
    }
    if k < n {
        proof {
            assert(!has_edge(store.link_set(), root@, data@, k as int));
        }
        return Ok(false);
    }
    proof {
        assert(can_walk(store.link_set(), root@, data@, n as int));
    }
    let was = match unlink_all(store, &node, &Tag::Term) {
        Ok(b) => b,
        Err(_) => unreached(),
    };
    proof {
        assert(was == has_term(old(store).link_set(), node_at(root@, data@, n as int)));
    }
    Ok(was)
}

/// Hard delete: soft delete, then a backward walk from the former
/// terminator position toward the root that removes each suffix-unique
/// character edge — one whose node has no remaining outgoing link under
/// any tag — stopping at the first node still in use; then removal of the
/// category index links when `category` (and `id`) are supplied. Returns
/// whether the word was stored; deleting an absent word changes nothing.
pub fn delete(
    store: &mut Store,
    root: &Address,
    data: &String,
    category: Option<&String>,
    id: Option<i32>,
) -> (r: Result<bool, TrieError>)
    ensures
        final(store).entry_map() == old(store).entry_map(),
        final(store).is_available() == old(store).is_available(),
        match r {
            Ok(b) => {
                &&& old(store).is_available()
                &&& resolves_to_root(old(store).entry_map(), root@)
                &&& b == word_stored(old(store).link_set(), root@, data@)
                &&& final(store).link_set() == spec_delete(
                    old(store).link_set(),
                    root@,
                    data@,
                    opt_str_view(category),
                    opt_id_view(id),
                )
            },
            Err(TrieError::StoreUnavailable) => {
                &&& !old(store).is_available()
                &&& final(store).link_set() == old(store).link_set()
            },
            Err(TrieError::RootNotFound) => {
                &&& old(store).is_available()
                &&& !old(store).entry_map().contains_key(root@)
                &&& final(store).link_set() == old(store).link_set()
            },
            Err(TrieError::MalformedEntry) => {
                &&& old(store).is_available()
                &&& old(store).entry_map().contains_key(root@)
                &&& !(old(store).entry_map()[root@] is Trie)
                &&& final(store).link_set() == old(store).link_set()
            },
        },
{
    match resolve_root(store, root) {
        Ok(_) => {},
        Err(e) => {
            return Err(e);
        },
    }
    let (k, node) = match walk(store, root, data) {
        Ok(p) => p,
        Err(e) => {
            return Err(e);
        },
    };
    let n = data.as_str().unicode_len();
    let ghost ls0 = store.link_set();
    proof {
        lemma_walk_len_props(store.link_set(), root@, data@, 0);
    }
    if k < n {
        proof {
            assert(!has_edge(store.link_set(), root@, data@, k as int));
        }
        return Ok(false);
    }
    proof {
        assert(can_walk(ls0, root@, data@, n as int));
    }
    let was = match unlink_all(store, &node, &Tag::Term) {
        Ok(b) => b,
        Err(_) => unreached(),
    };
    if !was {
        proof {
            assert(!has_term(ls0, node_at(root@, data@, n as int)));
            assert forall|l: LinkV| ls0.contains(l) implies store.link_set().contains(l) by {
                if l.base == node_at(root@, data@, n as int) && l.tag == Tag::Term {
                    assert(ls0.contains(mk_link(l.base, Tag::Term, l.target)));
                }
            }
            assert(store.link_set() =~= ls0);
        }
        return Ok(false);
    }
    let ghost dropped = store.link_set();
    let mut p: usize = n;
    let mut pruning = true;
    while pruning && p > 0
        invariant
            n == data@.len(),
            p <= n,
            store.is_available(),
            store.entry_map() == old(store).entry_map(),
            dropped == old(store).link_set().difference(
                tag_triples(node_at(root@, data@, n as int), Tag::Term),
            ),
            prune(dropped, root@, data@, n as int) == prune(
                store.link_set(),
                root@,
                data@,
                p as int,
            ),
            !pruning ==> prune(store.link_set(), root@, data@, p as int) == store.link_set(),
        decreases p + (if pruning { 1int } else { 0int }),
    {
        let node_p = node_address(root, data, p);
        let outs = match store.get_links(&node_p, None) {
            Ok(v) => v,
            Err(_) => unreached(),
        };
        let ghost cur = store.link_set();
        if outs.len() == 0 {
            proof {
                assert(!has_outgoing(cur, node_at(root@, data@, p as int))) by {
                    if has_outgoing(cur, node_at(root@, data@, p as int)) {
                        let l = choose|l: LinkV|
                            #[trigger] cur.contains(l) && l.base == node_at(
                                root@,
                                data@,
                                p as int,
                            );
                        assert(spec_targets(cur, node_p@, None).contains(l.target));
                        assert(addr_views(outs@).to_set().contains(l.target));
                        let j = choose|j: int|
                            0 <= j < addr_views(outs@).len() && addr_views(outs@)[j] == l.target;
                        assert(outs@.len() > 0);
                    }
                }
            }
            let c = data.as_str().get_char(p - 1);
            let base_prev = node_address(root, data, p - 1);
            let target = Address::Node { symbol: c };
            let tag = Tag::Symbol { c };
            match store.unlink(&base_prev, &target, &tag) {
                Ok(()) => {},
                Err(_) => unreached(),
            }
            proof {
                assert(mk_link(base_prev@, tag, target@) == word_edge(root@, data@, p as int - 1));
                assert(prune(cur, root@, data@, p as int) == prune(
                    store.link_set(),
                    root@,
                    data@,
                    p as int - 1,
                ));
            }
            p = p - 1;
        } else {
            proof {
                let views = addr_views(outs@);
                assert(views.to_set().contains(views[0]));
                assert(spec_targets(cur, node_p@, None).contains(views[0]));
                let l = choose|l: LinkV|
                    #[trigger] cur.contains(l) && l.base == node_p@ && l.target == views[0];
                assert(has_outgoing(cur, node_at(root@, data@, p as int)));
                assert(prune(cur, root@, data@, p as int) == cur);
            }
            pruning = false;
        }
    }
    proof {
        assert(prune(store.link_set(), root@, data@, p as int) == store.link_set());
        assert(store.link_set() == prune(dropped, root@, data@, n as int));
    }
    match category {
        Some(cat) => {
            let anchor = match id {
                Some(i) => Address::IdAnchor { category: cat.clone(), id: i },
                None => Address::Anchor { category: cat.clone(), word: data.clone() },
            };
            proof {
                assert(anchor@ == anchor_addr(cat@, data@, opt_id_view(id)));
            }
            match unlink_all(store, &anchor, &Tag::Index) {
                Ok(_) => {},
                Err(_) => unreached(),
            }
        },
        None => {},
    }
    proof {
        assert(word_stored(ls0, root@, data@));
        assert(store.link_set() == spec_delete(
            ls0,
            root@,
            data@,
            opt_str_view(category),
            opt_id_view(id),
        ));
    }
    Ok(true)
}

/// The anchor of a category index entry with an explicit id.
pub open spec fn id_anchor(category: Seq<char>, id: int) -> AddrV {
    AddrV::IdAnchor { category, id }
}

/// The deterministic pick among the index targets of an anchor: a target
/// that no other target of the same anchor is below in the address order.
/// All readers observing the same edge set resolve to the same pick.
pub open spec fn is_min_target(ls: Set<LinkV>, anchor: AddrV, a: AddrV) -> bool {
    &&& ls.contains(mk_link(anchor, Tag::Index, a))
    &&& forall|b: AddrV| ls.contains(mk_link(anchor, Tag::Index, b)) ==> !addr_lt(b, a)
}

/// Two picks of the same anchor are the same address: the pick rule is
/// deterministic over the edge set.
pub proof fn lemma_min_target_unique(ls: Set<LinkV>, anchor: AddrV, a: AddrV, b: AddrV)
    requires
        is_min_target(ls, anchor, a),
        is_min_target(ls, anchor, b),
    ensures
        a == b,
{
    crate::addressing::lemma_addr_lt_connected(a, b);
}

/// Category lookup: derives the category anchor for the explicit `id` and
/// returns the deterministically picked linked address, or `None` when no
/// word was inserted under that category and id — an ordinary outcome,
/// not an error.
pub fn find(store: &Store, category: &String, id: i32) -> (r: Result<Option<Address>, TrieError>)
    ensures
        match r {
            Ok(Some(a)) => {
                &&& store.is_available()
                &&& is_min_target(store.link_set(), id_anchor(category@, id as int), a@)
            },
            Ok(None) => {
                &&& store.is_available()
                &&& !(exists|t: AddrV| store.link_set().contains(
                    mk_link(id_anchor(category@, id as int), Tag::Index, t),
                ))
            },
            Err(TrieError::StoreUnavailable) => !store.is_available(),
            Err(TrieError::RootNotFound) => false,
            Err(TrieError::MalformedEntry) => false,
        },
{
    let anchor = Address::IdAnchor { category: category.clone(), id };
    let targets = match store.get_links(&anchor, Some(&Tag::Index)) {
        Ok(v) => v,
        Err(_) => {
            return Err(TrieError::StoreUnavailable);
        },
    };
    let ghost ts = spec_targets(store.link_set(), anchor@, Some(Tag::Index));
    let ghost views = addr_views(targets@);
    if targets.len() == 0 {
        proof {
            if exists|t: AddrV| store.link_set().contains(
                mk_link(id_anchor(category@, id as int), Tag::Index, t),
            ) {
                let t = choose|t: AddrV| store.link_set().contains(
                    mk_link(id_anchor(category@, id as int), Tag::Index, t),
                );
                assert(ts.contains(t));
                assert(views.to_set().contains(t));
                let j = choose|j: int| 0 <= j < views.len() && views[j] == t;
                assert(targets@.len() > 0);
            }
        }
        return Ok(None);
    }
    let mut best = targets[0].duplicate();
    proof {
        assert(views[0] == targets@[0]@);
        assert(views.to_set().contains(views[0]));
        lemma_addr_lt_irrefl(views[0]);
    }
    let mut i: usize = 1;
    while i < targets.len()
        invariant
            1 <= i <= targets@.len(),
            views == addr_views(targets@),
            views.to_set().contains(best@),
            forall|j: int| 0 <= j < i ==> !addr_lt(views[j], best@),
        decreases targets@.len() - i,
    {
        let cand = &targets[i];
        proof {
            assert(views[i as int] == targets@[i as int]@);
        }
        if addr_less(cand, &best) {
            proof {
                assert forall|j: int| 0 <= j < i implies !addr_lt(views[j], cand@) by {
                    if addr_lt(views[j], cand@) {
                        lemma_addr_lt_trans(views[j], cand@, best@);
                    }
                }
                lemma_addr_lt_irrefl(cand@);
                assert(views.to_set().contains(views[i as int]));
            }
            best = cand.duplicate();
        }
        i += 1;
    }
    proof {
        assert(ts.contains(best@));
        assert(store.link_set().contains(mk_link(anchor@, Tag::Index, best@)));
        assert forall|b: AddrV| store.link_set().contains(
            mk_link(id_anchor(category@, id as int), Tag::Index, b),
        ) implies !addr_lt(b, best@) by {
            assert(ts.contains(b));
            assert(views.to_set().contains(b));
            let j = choose|j: int| 0 <= j < views.len() && views[j] == b;
        }
    }
    Ok(Some(best))
}

} // verus!
