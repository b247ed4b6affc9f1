use clipboard_common::config::Config;
use clipboard_common::store::ReturnedItemType;
use clipboard_common::store::StorageContainer;
use clipboard_common::store::StorageQuery;

const T0: usize = 1_000_000;

fn store_with(texts: &[&str]) -> (StorageContainer, Config) {
    let mut store = StorageContainer::new();
    let cfg = Config::default();
    for (k, t) in texts.iter().enumerate() {
        store.add_text_at(t.to_string(), None, &cfg, T0 + k).unwrap();
    }
    (store, cfg)
}

fn data_ids(store: &StorageContainer, q: StorageQuery) -> Vec<usize> {
    store.query(q).unwrap().iter().map(|r| r.data_id).collect()
}

#[test]
fn recent_pages_newest_first_without_gap_or_overlap() {
    let (store, _cfg) = store_with(&["one", "two", "three", "four", "five"]);
    assert_eq!(data_ids(&store, StorageQuery::Recent { limit: 2, skip: 0 }), vec![5, 4]);
    assert_eq!(data_ids(&store, StorageQuery::Recent { limit: 2, skip: 2 }), vec![3, 2]);
    // The last page is short: the ledger is exhausted.
    assert_eq!(data_ids(&store, StorageQuery::Recent { limit: 2, skip: 4 }), vec![1]);
    assert_eq!(data_ids(&store, StorageQuery::Recent { limit: 2, skip: 6 }), Vec::<usize>::new());
}

#[test]
fn recent_page_is_short_exactly_at_the_ledger_end() {
    let (store, _cfg) = store_with(&["one", "two", "three"]);
    let mut skip = 0;
    let mut seen: Vec<usize> = Vec::new();
    loop {
        let rows = store.query(StorageQuery::Recent { limit: 2, skip }).unwrap();
        let n = rows.len();
        seen.extend(rows.iter().map(|r| r.recent_id));
        if n < 2 {
            assert_eq!(skip + n, 3);
            break;
        }
        skip += n;
    }
    // Every ledger entry was visited exactly once, newest first.
    assert_eq!(seen, vec![3, 2, 1]);
}

#[test]
fn recent_with_zero_limit_returns_nothing() {
    let (store, _cfg) = store_with(&["one", "two"]);
    assert!(store.query(StorageQuery::Recent { limit: 0, skip: 0 }).unwrap().is_empty());
}

#[test]
fn favorites_lists_only_flagged_content_newest_first() {
    let (mut store, _cfg) = store_with(&["one", "two", "three"]);
    assert_eq!(store.set_favorite(1, true).unwrap(), 1);
    assert_eq!(store.set_favorite(3, true).unwrap(), 1);
    assert_eq!(data_ids(&store, StorageQuery::Favorites), vec![3, 1]);
    // Clearing the flag removes the row from the selection.
    assert_eq!(store.set_favorite(3, false).unwrap(), 1);
    assert_eq!(data_ids(&store, StorageQuery::Favorites), vec![1]);
}

#[test]
fn favorite_toggle_does_not_disturb_recent_or_search() {
    let (mut store, _cfg) = store_with(&["apple pie", "apple tart"]);
    let recent_before = data_ids(&store, StorageQuery::Recent { limit: 10, skip: 0 });
    let hits_before = data_ids(&store, StorageQuery::Search { value: "apple".to_string() });
    store.set_favorite(2, true).unwrap();
    assert_eq!(data_ids(&store, StorageQuery::Recent { limit: 10, skip: 0 }), recent_before);
    assert_eq!(
        data_ids(&store, StorageQuery::Search { value: "apple".to_string() }),
        hits_before
    );
    assert_eq!(data_ids(&store, StorageQuery::Favorites), vec![2]);
}

#[test]
fn favorite_of_missing_id_affects_nothing() {
    let (mut store, _cfg) = store_with(&["one"]);
    assert_eq!(store.set_favorite(9, true).unwrap(), 0);
    assert!(store.query(StorageQuery::Favorites).unwrap().is_empty());
}

#[test]
fn search_is_case_sensitive_literal_containment() {
    let (store, _cfg) = store_with(&["Rust is nice", "rust is rusty", "iron oxide"]);
    assert_eq!(data_ids(&store, StorageQuery::Search { value: "rust".to_string() }), vec![2]);
    assert_eq!(data_ids(&store, StorageQuery::Search { value: "Rust".to_string() }), vec![1]);
    assert_eq!(
        data_ids(&store, StorageQuery::Search { value: "is".to_string() }),
        vec![2, 1]
    );
    assert!(store
        .query(StorageQuery::Search { value: "copper".to_string() })
        .unwrap()
        .is_empty());
}

#[test]
fn search_treats_wildcard_characters_literally() {
    let (store, _cfg) = store_with(&["done 50% of work", "a 50x50 grid", "50 percent done"]);
    // A literal "50%" matches only the payload containing those characters,
    // not anything a pattern wildcard would reach.
    assert_eq!(data_ids(&store, StorageQuery::Search { value: "50%".to_string() }), vec![1]);
    assert_eq!(
        data_ids(&store, StorageQuery::Search { value: "50".to_string() }),
        vec![3, 2, 1]
    );
}

#[test]
fn search_skips_image_rows() {
    let (mut store, cfg) = store_with(&["picture day"]);
    store.add_image_at(b"picture bytes".to_vec(), None, &cfg, T0 + 100).unwrap();
    assert_eq!(data_ids(&store, StorageQuery::Search { value: "picture".to_string() }), vec![1]);
}

#[test]
fn search_returns_one_row_per_content() {
    let mut store = StorageContainer::new();
    let cfg = Config::default();
    store.add_text_at("needle in a haystack".to_string(), None, &cfg, T0).unwrap();
    for k in 0..30 {
        store.add_text_at(format!("filler {}", k), None, &cfg, T0 + 1 + k).unwrap();
    }
    // Age the payload out so a second ledger entry appears for the same row.
    store
        .add_text_at("needle in a haystack".to_string(), None, &cfg, T0 + 3_660_060)
        .unwrap();
    assert_eq!(store.recency_count(), 32);
    let hits = store.query(StorageQuery::Search { value: "needle".to_string() }).unwrap();
    assert_eq!(hits.len(), 1);
    assert_eq!(hits[0].data_id, 1);
    // The row is represented by its oldest ledger entry.
    assert_eq!(hits[0].recent_id, 1);
}

#[test]
fn rows_carry_the_joined_payload() {
    let (mut store, _cfg) = store_with(&["alpha"]);
    store.set_favorite(1, true).unwrap();
    let rows = store.query(StorageQuery::Recent { limit: 1, skip: 0 }).unwrap();
    assert_eq!(rows[0].data_id, 1);
    assert_eq!(rows[0].recent_id, 1);
    assert_eq!(rows[0].timestamp, T0);
    assert!(rows[0].is_favorite);
    assert_eq!(rows[0].value, ReturnedItemType::Text("alpha".to_string()));
}
