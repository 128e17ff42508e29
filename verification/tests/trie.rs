use hadt::adt;
use hadt::{Address, Store, StoreError, Tag, TrieError};

fn fresh_dict(name: &str) -> (Store, Address) {
    let mut store = Store::new();
    let root = adt::create(&mut store, &name.to_string(), false).unwrap();
    (store, root)
}

#[test]
fn it_works() {
    assert_eq!(2 + 2, 4);
}

#[test]
fn create_is_idempotent_and_deterministic() {
    let mut store = Store::new();
    let a1 = adt::create(&mut store, &"dict".to_string(), false).unwrap();
    let entries_once = store.entry_count();
    let a2 = adt::create(&mut store, &"dict".to_string(), false).unwrap();
    assert_eq!(a1, a2);
    assert_eq!(store.entry_count(), entries_once);
    let other = adt::create(&mut store, &"dict".to_string(), true).unwrap();
    assert_ne!(a1, other);
}

#[test]
fn insert_twice_same_edge_and_node_sets() {
    let (mut store, root) = fresh_dict("dict");
    adt::insert(&mut store, &root, &"cat".to_string(), None, None, None).unwrap();
    let links_once = store.link_count();
    let entries_once = store.entry_count();
    assert_eq!(adt::lookup(&store, &root, &"cat".to_string()), Ok(true));
    adt::insert(&mut store, &root, &"cat".to_string(), None, None, None).unwrap();
    assert_eq!(store.link_count(), links_once);
    assert_eq!(store.entry_count(), entries_once);
    assert_eq!(adt::lookup(&store, &root, &"cat".to_string()), Ok(true));
}

#[test]
fn prefix_sharing_cat_car() {
    let (mut store, root) = fresh_dict("dict");
    adt::insert(&mut store, &root, &"cat".to_string(), None, None, None).unwrap();
    adt::insert(&mut store, &root, &"car".to_string(), None, None, None).unwrap();
    // One chain for c -> a, diverging at the third character:
    // root->c, c->a, a->t, term@t, a->r, term@r.
    assert_eq!(store.link_count(), 6);
    // Entries: root, nodes c, a, t, r, and the one shared bare terminator.
    assert_eq!(store.entry_count(), 6);
    assert_eq!(adt::lookup(&store, &root, &"ca".to_string()), Ok(false));
    assert_eq!(adt::lookup(&store, &root, &"cat".to_string()), Ok(true));
    assert_eq!(adt::lookup(&store, &root, &"car".to_string()), Ok(true));
}

#[test]
fn soft_delete_preserves_siblings_and_insert_restores() {
    let (mut store, root) = fresh_dict("dict");
    adt::insert(&mut store, &root, &"cat".to_string(), None, None, None).unwrap();
    adt::insert(&mut store, &root, &"car".to_string(), None, None, None).unwrap();
    let entries_before = store.entry_count();
    assert_eq!(adt::drop(&mut store, &root, &"cat".to_string()), Ok(true));
    assert_eq!(adt::lookup(&store, &root, &"cat".to_string()), Ok(false));
    assert_eq!(adt::lookup(&store, &root, &"car".to_string()), Ok(true));
    // Character nodes survive a soft delete.
    assert_eq!(store.entry_count(), entries_before);
    // Dropping again is a no-op returning false.
    assert_eq!(adt::drop(&mut store, &root, &"cat".to_string()), Ok(false));
    // Re-inserting reuses the surviving nodes and edges: only the one
    // terminator link comes back.
    let links_dropped = store.link_count();
    adt::insert(&mut store, &root, &"cat".to_string(), None, None, None).unwrap();
    assert_eq!(adt::lookup(&store, &root, &"cat".to_string()), Ok(true));
    assert_eq!(store.link_count(), links_dropped + 1);
    assert_eq!(store.entry_count(), entries_before);
}

#[test]
fn hard_delete_isolates_shared_prefix() {
    let (mut store, root) = fresh_dict("dict");
    adt::insert(&mut store, &root, &"cat".to_string(), None, None, None).unwrap();
    adt::insert(&mut store, &root, &"cats".to_string(), None, None, None).unwrap();
    assert_eq!(adt::delete(&mut store, &root, &"cats".to_string(), None, None), Ok(true));
    assert_eq!(adt::lookup(&store, &root, &"cat".to_string()), Ok(true));
    assert_eq!(adt::lookup(&store, &root, &"cats".to_string()), Ok(false));
    // root->c, c->a, a->t, term@t remain.
    assert_eq!(store.link_count(), 4);
    // Deleting the remaining word removes the chain down to the root.
    assert_eq!(adt::delete(&mut store, &root, &"cat".to_string(), None, None), Ok(true));
    assert_eq!(adt::lookup(&store, &root, &"cat".to_string()), Ok(false));
    assert_eq!(store.link_count(), 0);
    // Deleting an absent word changes nothing and reports false.
    assert_eq!(adt::delete(&mut store, &root, &"cat".to_string(), None, None), Ok(false));
}

#[test]
fn category_round_trip() {
    let (mut store, root) = fresh_dict("dict");
    let term = adt::insert(
        &mut store,
        &root,
        &"dog".to_string(),
        None,
        Some(&"animal".to_string()),
        Some(7),
    )
    .unwrap();
    assert_eq!(adt::lookup(&store, &root, &"dog".to_string()), Ok(true));
    let found = adt::find(&store, &"animal".to_string(), 7).unwrap();
    assert_eq!(found, Some(term));
    // A different id or category finds nothing.
    assert_eq!(adt::find(&store, &"animal".to_string(), 8), Ok(None));
    assert_eq!(adt::find(&store, &"mineral".to_string(), 7), Ok(None));
}

#[test]
fn hard_delete_removes_category_link() {
    let (mut store, root) = fresh_dict("dict");
    adt::insert(
        &mut store,
        &root,
        &"dog".to_string(),
        None,
        Some(&"animal".to_string()),
        Some(7),
    )
    .unwrap();
    assert_eq!(
        adt::delete(
            &mut store,
            &root,
            &"dog".to_string(),
            Some(&"animal".to_string()),
            Some(7),
        ),
        Ok(true)
    );
    assert_eq!(adt::find(&store, &"animal".to_string(), 7), Ok(None));
    assert_eq!(store.link_count(), 0);
}

#[test]
fn negative_lookup_is_not_an_error() {
    let (store, root) = fresh_dict("dict");
    assert_eq!(adt::lookup(&store, &root, &"zzz".to_string()), Ok(false));
    assert_eq!(adt::lookup(&store, &root, &"".to_string()), Ok(false));
}

#[test]
fn concurrent_insert_convergence() {
    // Two writers against replicas of the same store; each one's write is
    // not visible to the other until the replicas absorb each other.
    let (mut s1, root1) = fresh_dict("dict");
    let (mut s2, root2) = fresh_dict("dict");
    assert_eq!(root1, root2);
    adt::insert(&mut s1, &root1, &"word".to_string(), None, None, None).unwrap();
    adt::insert(&mut s2, &root2, &"word".to_string(), None, None, None).unwrap();
    // Once both writes are visible, the edge and node sets are the ones a
    // single writer would have produced.
    s1.absorb(&s2);
    assert_eq!(s1.link_count(), s2.link_count());
    assert_eq!(s1.entry_count(), s2.entry_count());
    assert_eq!(adt::lookup(&s1, &root1, &"word".to_string()), Ok(true));
    // Divergent words merge additively.
    adt::insert(&mut s2, &root2, &"world".to_string(), None, None, None).unwrap();
    s1.absorb(&s2);
    assert_eq!(adt::lookup(&s1, &root1, &"word".to_string()), Ok(true));
    assert_eq!(adt::lookup(&s1, &root1, &"world".to_string()), Ok(true));
}

#[test]
fn bucketed_terminators_carry_payload() {
    let mut store = Store::new();
    let root = adt::create(&mut store, &"buckets".to_string(), true).unwrap();
    let payload = "entry-data".to_string();
    let term = adt::insert(
        &mut store,
        &root,
        &"word".to_string(),
        Some(&payload),
        None,
        None,
    )
    .unwrap();
    assert_eq!(term, Address::Bucket { data: "entry-data".to_string() });
    assert_eq!(adt::lookup(&store, &root, &"word".to_string()), Ok(true));
    // The same word with another payload converges on the same path but
    // commits its own terminator entry.
    adt::insert(
        &mut store,
        &root,
        &"word".to_string(),
        Some(&"other".to_string()),
        None,
        None,
    )
    .unwrap();
    assert_eq!(adt::lookup(&store, &root, &"word".to_string()), Ok(true));
    // A soft delete removes every terminator link of the word.
    assert_eq!(adt::drop(&mut store, &root, &"word".to_string()), Ok(true));
    assert_eq!(adt::lookup(&store, &root, &"word".to_string()), Ok(false));
}

#[test]
fn find_picks_smallest_target_address() {
    let mut store = Store::new();
    let root = adt::create(&mut store, &"buckets".to_string(), true).unwrap();
    // Two writers raced the same (category, id) pair with different
    // payloads: the pick is deterministic, the smallest target address.
    adt::insert(
        &mut store,
        &root,
        &"word".to_string(),
        Some(&"b-payload".to_string()),
        Some(&"cat".to_string()),
        Some(1),
    )
    .unwrap();
    adt::insert(
        &mut store,
        &root,
        &"word".to_string(),
        Some(&"a-payload".to_string()),
        Some(&"cat".to_string()),
        Some(1),
    )
    .unwrap();
    let found = adt::find(&store, &"cat".to_string(), 1).unwrap();
    assert_eq!(found, Some(Address::Bucket { data: "a-payload".to_string() }));
}

#[test]
fn root_not_found_error() {
    let store = Store::new();
    let ghost_root = Address::Root { name: "nowhere".to_string(), bucketing: false };
    assert_eq!(
        adt::lookup(&store, &ghost_root, &"cat".to_string()),
        Err(TrieError::RootNotFound)
    );
    let mut store2 = Store::new();
    assert_eq!(
        adt::insert(&mut store2, &ghost_root, &"cat".to_string(), None, None, None),
        Err(TrieError::RootNotFound)
    );
    assert_eq!(
        adt::drop(&mut store2, &ghost_root, &"cat".to_string()),
        Err(TrieError::RootNotFound)
    );
}

#[test]
fn malformed_entry_error() {
    let (mut store, root) = fresh_dict("dict");
    adt::insert(&mut store, &root, &"a".to_string(), None, None, None).unwrap();
    // The node for 'a' is committed, but it is no vocabulary root.
    let bogus = Address::Node { symbol: 'a' };
    assert_eq!(
        adt::lookup(&store, &bogus, &"cat".to_string()),
        Err(TrieError::MalformedEntry)
    );
}

#[test]
fn store_unavailable_error() {
    let (mut store, root) = fresh_dict("dict");
    store.set_available(false);
    assert_eq!(
        adt::lookup(&store, &root, &"cat".to_string()),
        Err(TrieError::StoreUnavailable)
    );
    assert_eq!(
        adt::insert(&mut store, &root, &"cat".to_string(), None, None, None),
        Err(TrieError::StoreUnavailable)
    );
    assert_eq!(
        adt::create(&mut store, &"other".to_string(), false),
        Err(TrieError::StoreUnavailable)
    );
    assert_eq!(
        adt::delete(&mut store, &root, &"cat".to_string(), None, None),
        Err(TrieError::StoreUnavailable)
    );
    assert_eq!(
        adt::find(&store, &"animal".to_string(), 7),
        Err(TrieError::StoreUnavailable)
    );
    // The store recovers, and a retried call converges.
    store.set_available(true);
    adt::insert(&mut store, &root, &"cat".to_string(), None, None, None).unwrap();
    assert_eq!(adt::lookup(&store, &root, &"cat".to_string()), Ok(true));
}

#[test]
fn store_rejects_malformed_symbol_link() {
    let mut store = Store::new();
    let base = Address::Node { symbol: 'a' };
    let wrong_target = Address::Node { symbol: 'b' };
    let right_target = Address::Node { symbol: 'c' };
    assert_eq!(
        store.link_entries(&base, &wrong_target, &Tag::Symbol { c: 'c' }),
        Err(StoreError::Rejected)
    );
    assert_eq!(store.link_count(), 0);
    assert_eq!(
        store.link_entries(&base, &right_target, &Tag::Symbol { c: 'c' }),
        Ok(())
    );
    assert_eq!(store.link_count(), 1);
}

#[test]
fn unicode_words() {
    let (mut store, root) = fresh_dict("dict");
    adt::insert(&mut store, &root, &"héllo".to_string(), None, None, None).unwrap();
    assert_eq!(adt::lookup(&store, &root, &"héllo".to_string()), Ok(true));
    assert_eq!(adt::lookup(&store, &root, &"héll".to_string()), Ok(false));
}
