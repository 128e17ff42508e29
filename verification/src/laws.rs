//! The engine's cross-operation guarantees, proved over the same spec
//! model that the operation contracts are stated in: the link set and the
//! entry map of the store.

use vstd::prelude::*;
use crate::addressing::{AddrV, addr_lt, lemma_addr_lt_irrefl};
use crate::entries::EntryV;
use crate::store::{LinkV, Tag, mk_link};
use crate::adt::{
    word_edge, word_edges, has_edge, can_walk, walk_len, has_term, word_stored, node_at, term_edge,
    insert_links, insert_entries, commit_nodes, commit_term, term_target, spec_drop, spec_delete,
    prune, tag_triples, has_outgoing, anchor_addr, id_anchor, index_edge, is_min_target,
    lemma_walk_len_from,
};

verus! {

/// A completed insertion stores its word: every character edge of the
/// word and its terminator link are in the resulting link set.
pub proof fn lemma_insert_stores(
    ls: Set<LinkV>,
    root: AddrV,
    w: Seq<char>,
    t: AddrV,
    category: Option<Seq<char>>,
    id: Option<int>,
)
    ensures
        word_stored(insert_links(ls, root, w, t, category, id), root, w),
        walk_len(insert_links(ls, root, w, t, category, id), root, w) == w.len(),
{
    let l1 = insert_links(ls, root, w, t, category, id);
    assert forall|i: int| 0 <= i < w.len() implies has_edge(l1, root, w, i) by {
        assert(word_edges(root, w).contains(word_edge(root, w, i)));
    }
    assert(l1.contains(term_edge(root, w, t)));
    assert(has_term(l1, node_at(root, w, w.len() as int)));
    lemma_walk_len_from(l1, root, w, 0, w.len() as int);
}

/// Idempotence: inserting the same word twice produces the identical link
/// set and the identical entry map, and the word is stored after either
/// call. The second insertion traverses the full existing path and every
/// edge and entry it would add is already present.
pub proof fn lemma_insert_idempotent(
    ls: Set<LinkV>,
    em: Map<AddrV, EntryV>,
    root: AddrV,
    w: Seq<char>,
    bucketing: bool,
    payload: Seq<char>,
    category: Option<Seq<char>>,
    id: Option<int>,
)
    ensures
        ({
            let t = term_target(bucketing, payload);
            let l1 = insert_links(ls, root, w, t, category, id);
            let e1 = insert_entries(em, w, walk_len(ls, root, w), bucketing, payload);
            &&& insert_links(l1, root, w, t, category, id) == l1
            &&& insert_entries(e1, w, walk_len(l1, root, w), bucketing, payload) == e1
            &&& word_stored(l1, root, w)
        }),
{
    let t = term_target(bucketing, payload);
    let l1 = insert_links(ls, root, w, t, category, id);
    let e1 = insert_entries(em, w, walk_len(ls, root, w), bucketing, payload);
    lemma_insert_stores(ls, root, w, t, category, id);
    assert(insert_links(l1, root, w, t, category, id) =~= l1);
    assert(walk_len(l1, root, w) == w.len());
    assert(commit_nodes(e1, w, w.len() as int) == e1);
    assert(e1.contains_key(term_target(bucketing, payload)));
    assert(commit_term(e1, bucketing, payload) == e1);
}

/// Prefix sharing: two words that agree on their first `k` characters
/// traverse byte-identical paths there — the same nodes and the very same
/// edges, so the shared prefix exists once, however many words share it.
pub proof fn lemma_shared_prefix(root: AddrV, w1: Seq<char>, w2: Seq<char>, k: int)
    requires
        0 <= k <= w1.len(),
        k <= w2.len(),
        forall|i: int| 0 <= i < k ==> w1[i] == w2[i],
    ensures
        forall|i: int| 0 <= i <= k ==> node_at(root, w1, i) == node_at(root, w2, i),
        forall|i: int| 0 <= i < k ==> word_edge(root, w1, i) == word_edge(root, w2, i),
{
}

/// Soft delete removes exactly the dropped word: the word itself is no
/// longer stored, every character edge — of this word and of every other —
/// survives, and any word whose final node differs keeps its stored
/// status unchanged. A word ending on the same shared character node is
/// the one input this preservation cannot cover: its terminator link is
/// the dropped word's terminator link.
pub proof fn lemma_drop_soft(ls: Set<LinkV>, root: AddrV, w: Seq<char>, v: Seq<char>)
    ensures
        !word_stored(spec_drop(ls, root, w), root, w),
        forall|i: int| 0 <= i < v.len() ==> has_edge(spec_drop(ls, root, w), root, v, i)
            == has_edge(ls, root, v, i),
        node_at(root, v, v.len() as int) != node_at(root, w, w.len() as int) ==> word_stored(
            spec_drop(ls, root, w),
            root,
            v,
        ) == word_stored(ls, root, v),
        can_walk(ls, root, w, w.len() as int) ==> walk_len(spec_drop(ls, root, w), root, w)
            == w.len(),
{
    let d = spec_drop(ls, root, w);
    let nw = node_at(root, w, w.len() as int);
    if can_walk(ls, root, w, w.len() as int) {
        assert(!has_term(d, nw)) by {
            if has_term(d, nw) {
                let t = choose|t: AddrV| d.contains(mk_link(nw, Tag::Term, t));
                assert(tag_triples(nw, Tag::Term).contains(mk_link(nw, Tag::Term, t)));
            }
        }
    }
    assert forall|i: int| 0 <= i < v.len() implies has_edge(d, root, v, i) == has_edge(
        ls,
        root,
        v,
        i,
    ) by {
        assert(word_edge(root, v, i).tag is Symbol);
        assert(!tag_triples(nw, Tag::Term).contains(word_edge(root, v, i)));
    }
    let nv = node_at(root, v, v.len() as int);
    if nv != nw {
        assert(has_term(d, nv) == has_term(ls, nv)) by {
            if has_term(ls, nv) {
                let t = choose|t: AddrV| ls.contains(mk_link(nv, Tag::Term, t));
                assert(!tag_triples(nw, Tag::Term).contains(mk_link(nv, Tag::Term, t)));
                assert(d.contains(mk_link(nv, Tag::Term, t)));
            }
            if has_term(d, nv) {
                let t = choose|t: AddrV| d.contains(mk_link(nv, Tag::Term, t));
                assert(ls.contains(mk_link(nv, Tag::Term, t)));
            }
        }
    }
    if can_walk(ls, root, w, w.len() as int) {
        assert forall|i: int| 0 <= i < w.len() implies has_edge(d, root, w, i) by {
            assert(has_edge(ls, root, w, i));
            assert(word_edge(root, w, i).tag is Symbol);
            assert(!tag_triples(nw, Tag::Term).contains(word_edge(root, w, i)));
        }
        lemma_walk_len_from(d, root, w, 0, w.len() as int);
    }
}

/// Re-inserting a soft-deleted word restores it without rebuilding: the
/// character edges all survive the drop, so the second insertion
/// traverses the full path, commits no new entry — the nodes and the
/// terminator entry are reused — and adds back only the terminator link.
pub proof fn lemma_drop_then_insert_restores(
    ls: Set<LinkV>,
    em: Map<AddrV, EntryV>,
    root: AddrV,
    w: Seq<char>,
    bucketing: bool,
    payload: Seq<char>,
    category: Option<Seq<char>>,
    id: Option<int>,
)
    requires
        can_walk(ls, root, w, w.len() as int),
        em.contains_key(term_target(bucketing, payload)),
    ensures
        ({
            let dropped = spec_drop(ls, root, w);
            let t = term_target(bucketing, payload);
            &&& word_stored(insert_links(dropped, root, w, t, category, id), root, w)
            &&& insert_entries(em, w, walk_len(dropped, root, w), bucketing, payload) == em
        }),
{
    let dropped = spec_drop(ls, root, w);
    let t = term_target(bucketing, payload);
    lemma_drop_soft(ls, root, w, w);
    lemma_insert_stores(dropped, root, w, t, category, id);
    assert(walk_len(dropped, root, w) == w.len());
    assert(commit_nodes(em, w, w.len() as int) == em);
    assert(commit_term(em, bucketing, payload) == em);
}

/// The backward walk only removes links.
pub proof fn lemma_prune_subset(ls: Set<LinkV>, root: AddrV, w: Seq<char>, p: int)
    ensures
        prune(ls, root, w, p).subset_of(ls),
    decreases p,
{
    if p > 0 && !has_outgoing(ls, node_at(root, w, p)) {
        lemma_prune_subset(ls.remove(word_edge(root, w, p - 1)), root, w, p - 1);
    }
}

/// A hard-deleted word is no longer stored.
pub proof fn lemma_delete_removes(
    ls: Set<LinkV>,
    root: AddrV,
    w: Seq<char>,
    category: Option<Seq<char>>,
    id: Option<int>,
)
    ensures
        !word_stored(spec_delete(ls, root, w, category, id), root, w),
{
    let f = spec_delete(ls, root, w, category, id);
    let nw = node_at(root, w, w.len() as int);
    if word_stored(ls, root, w) {
        let dropped = ls.difference(tag_triples(nw, Tag::Term));
        lemma_prune_subset(dropped, root, w, w.len() as int);
        assert(!has_term(f, nw)) by {
            if has_term(f, nw) {
                let t = choose|t: AddrV| f.contains(mk_link(nw, Tag::Term, t));
                assert(dropped.contains(mk_link(nw, Tag::Term, t)));
                assert(tag_triples(nw, Tag::Term).contains(mk_link(nw, Tag::Term, t)));
            }
        }
    }
}

/// The backward walk keeps every link of a surviving word: its character
/// edges and its terminator link. Where a removal step would touch a
/// shared edge, the survivor's next link out of the shared node keeps the
/// node alive, so the walk has already stopped.
proof fn lemma_prune_keeps(
    ls: Set<LinkV>,
    root: AddrV,
    w: Seq<char>,
    v: Seq<char>,
    t: AddrV,
    p: int,
)
    requires
        forall|i: int| 0 <= i < v.len() ==> has_edge(ls, root, v, i),
        ls.contains(mk_link(node_at(root, v, v.len() as int), Tag::Term, t)),
    ensures
        forall|i: int| 0 <= i < v.len() ==> has_edge(prune(ls, root, w, p), root, v, i),
        prune(ls, root, w, p).contains(mk_link(node_at(root, v, v.len() as int), Tag::Term, t)),
    decreases p,
{
    let nv = node_at(root, v, v.len() as int);
    if p > 0 && !has_outgoing(ls, node_at(root, w, p)) {
        let e = word_edge(root, w, p - 1);
        let ls2 = ls.remove(e);
        assert(e != mk_link(nv, Tag::Term, t));
        assert forall|i: int| 0 <= i < v.len() implies has_edge(ls2, root, v, i) by {
            assert(has_edge(ls, root, v, i));
            if word_edge(root, v, i) == e {
                assert(node_at(root, v, i + 1) == node_at(root, w, p));
                if i + 1 < v.len() {
                    assert(has_edge(ls, root, v, i + 1));
                    assert(ls.contains(word_edge(root, v, i + 1)));
                    assert(word_edge(root, v, i + 1).base == node_at(root, w, p));
                    assert(has_outgoing(ls, node_at(root, w, p)));
                } else {
                    assert(nv == node_at(root, w, p));
                    assert(has_outgoing(ls, node_at(root, w, p)));
                }
            }
        }
        lemma_prune_keeps(ls2, root, w, v, t, p - 1);
    }
}

/// Hard-delete isolation: deleting one word never un-stores another word
/// whose final node differs. Shared-prefix edges are kept alive by the
/// survivor, the survivor's terminator is untouched, and category index
/// removal touches only index links.
pub proof fn lemma_delete_preserves_other(
    ls: Set<LinkV>,
    root: AddrV,
    w: Seq<char>,
    v: Seq<char>,
    category: Option<Seq<char>>,
    id: Option<int>,
)
    requires
        word_stored(ls, root, v),
        node_at(root, v, v.len() as int) != node_at(root, w, w.len() as int),
    ensures
        word_stored(spec_delete(ls, root, w, category, id), root, v),
{
    let nv = node_at(root, v, v.len() as int);
    let nw = node_at(root, w, w.len() as int);
    if word_stored(ls, root, w) {
        let dropped = ls.difference(tag_triples(nw, Tag::Term));
        let t = choose|t: AddrV| ls.contains(mk_link(nv, Tag::Term, t));
        assert forall|i: int| 0 <= i < v.len() implies has_edge(dropped, root, v, i) by {
            assert(has_edge(ls, root, v, i));
            assert(word_edge(root, v, i).tag is Symbol);
            assert(!tag_triples(nw, Tag::Term).contains(word_edge(root, v, i)));
        }
        assert(!tag_triples(nw, Tag::Term).contains(mk_link(nv, Tag::Term, t)));
        assert(dropped.contains(mk_link(nv, Tag::Term, t)));
        lemma_prune_keeps(dropped, root, w, v, t, w.len() as int);
        let pruned = prune(dropped, root, w, w.len() as int);
        match category {
            Some(c) => {
                let f = pruned.difference(tag_triples(anchor_addr(c, w, id), Tag::Index));
                assert forall|i: int| 0 <= i < v.len() implies has_edge(f, root, v, i) by {
                    assert(has_edge(prune(ls.difference(tag_triples(node_at(root, w, w.len() as int), Tag::Term)), root, w, w.len() as int), root, v, i));
                    assert(word_edge(root, v, i).tag is Symbol);
                    assert(!tag_triples(anchor_addr(c, w, id), Tag::Index).contains(
                        word_edge(root, v, i),
                    ));
                }
                assert(!tag_triples(anchor_addr(c, w, id), Tag::Index).contains(
                    mk_link(nv, Tag::Term, t),
                ));
                assert(f.contains(mk_link(nv, Tag::Term, t)));
                assert(has_term(f, nv));
            },
            None => {
                assert(has_term(pruned, nv));
            },
        }
    }
}

/// Category round-trip: inserting a word under a category with an
/// explicit id, where that `(category, id)` anchor carried no index link
/// before, makes the word's terminator the deterministic pick of the
/// anchor — exactly what the category lookup returns.
pub proof fn lemma_category_roundtrip(
    ls: Set<LinkV>,
    root: AddrV,
    w: Seq<char>,
    t: AddrV,
    c: Seq<char>,
    n: int,
)
    requires
        !(exists|b: AddrV| ls.contains(mk_link(id_anchor(c, n), Tag::Index, b))),
    ensures
        is_min_target(insert_links(ls, root, w, t, Some(c), Some(n)), id_anchor(c, n), t),
{
    let anchor = id_anchor(c, n);
    let l1 = insert_links(ls, root, w, t, Some(c), Some(n));
    assert(anchor_addr(c, w, Some(n)) == anchor);
    assert(l1.contains(mk_link(anchor, Tag::Index, t)));
    assert forall|b: AddrV| l1.contains(mk_link(anchor, Tag::Index, b)) implies !addr_lt(b, t) by {
        let lk = mk_link(anchor, Tag::Index, b);
        if b != t {
            assert(!ls.contains(lk));
            assert(!word_edges(root, w).contains(lk)) by {
                if word_edges(root, w).contains(lk) {
                    let i = choose|i: int| 0 <= i < w.len() && lk == word_edge(root, w, i);
                }
            }
            assert(lk != term_edge(root, w, t));
            assert(lk != index_edge(anchor, t));
            assert(false);
        } else {
            lemma_addr_lt_irrefl(t);
        }
    }
}

/// Concurrent-insert convergence: two writers inserting the same word
/// from the same observed state produce identical additions, so the union
/// of their link sets — the state once both writes are visible — is the
/// very link set either writer produced alone, and likewise for the
/// entries; the word is stored in the converged state.
pub proof fn lemma_concurrent_insert_convergence(
    ls: Set<LinkV>,
    em: Map<AddrV, EntryV>,
    root: AddrV,
    w: Seq<char>,
    bucketing: bool,
    payload: Seq<char>,
    category: Option<Seq<char>>,
    id: Option<int>,
)
    ensures
        ({
            let t = term_target(bucketing, payload);
            let l1 = insert_links(ls, root, w, t, category, id);
            let e1 = insert_entries(em, w, walk_len(ls, root, w), bucketing, payload);
            &&& l1.union(l1) == l1
            &&& e1.union_prefer_right(e1) == e1
            &&& word_stored(l1.union(l1), root, w)
        }),
{
    let t = term_target(bucketing, payload);
    let l1 = insert_links(ls, root, w, t, category, id);
    let e1 = insert_entries(em, w, walk_len(ls, root, w), bucketing, payload);
    assert(l1.union(l1) =~= l1);
    assert(e1.union_prefer_right(e1) =~= e1);
    lemma_insert_stores(ls, root, w, t, category, id);
}

} // verus!
