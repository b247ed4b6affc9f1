use clipboard_common::config::Config;
use clipboard_common::store::CopiedData;
use clipboard_common::store::LastCopied;
use clipboard_common::store::ReturnedItemType;
use clipboard_common::store::StorageContainer;
use clipboard_common::store::StorageError;
use clipboard_common::store::StorageQuery;

const T0: usize = 1_000_000;

fn text_store() -> (StorageContainer, Config) {
    (StorageContainer::new(), Config::default())
}

#[test]
fn empty_store_answers_empty() {
    let (mut store, _cfg) = text_store();
    assert_eq!(store.content_count(), 0);
    assert_eq!(store.recency_count(), 0);
    let rows = store.query(StorageQuery::Recent { limit: 10, skip: 0 }).unwrap();
    assert!(rows.is_empty());
    let favs = store.query(StorageQuery::Favorites).unwrap();
    assert!(favs.is_empty());
    let hits = store.query(StorageQuery::Search { value: "x".to_string() }).unwrap();
    assert!(hits.is_empty());
    assert_eq!(store.compute_total_size().unwrap(), 0);
    assert_eq!(store.count_the_recents_newer_than(0).unwrap(), 0);
    assert_eq!(store.set_favorite(1, true).unwrap(), 0);
    assert_eq!(store.delete(1).unwrap(), 0);
    assert_eq!(store.clear_database().unwrap(), 0);
    assert_eq!(store.get_image(1), Err(StorageError::NotFound));
}

#[test]
fn first_ingestion_creates_row_and_entry() {
    let (mut store, cfg) = text_store();
    store.add_text_at("hello".to_string(), None, &cfg, T0).unwrap();
    assert_eq!(store.content_count(), 1);
    assert_eq!(store.recency_count(), 1);
    assert_eq!(store.compute_total_size().unwrap(), 5);
    let rows = store.query(StorageQuery::Recent { limit: 10, skip: 0 }).unwrap();
    assert_eq!(rows.len(), 1);
    assert_eq!(rows[0].data_id, 1);
    assert_eq!(rows[0].recent_id, 1);
    assert_eq!(rows[0].timestamp, T0);
    assert!(!rows[0].is_favorite);
    assert_eq!(rows[0].value, ReturnedItemType::Text("hello".to_string()));
}

#[test]
fn dedup_same_payload_creates_no_second_row() {
    let (mut store, cfg) = text_store();
    store.add_text_at("payload".to_string(), None, &cfg, T0).unwrap();
    let size_after_one = store.compute_total_size().unwrap();
    for k in 0..5 {
        store.add_text_at("payload".to_string(), None, &cfg, T0 + 1000 * (k + 1)).unwrap();
    }
    assert_eq!(store.content_count(), 1);
    assert_eq!(store.compute_total_size().unwrap(), size_after_one);
}

#[test]
fn dedup_holds_through_the_wall_clock_entry_points() {
    let (mut store, cfg) = text_store();
    store.add_text("payload".to_string(), None, &cfg).unwrap();
    store.add_text("payload".to_string(), None, &cfg).unwrap();
    assert_eq!(store.content_count(), 1);
}

#[test]
fn hash_resolves_to_the_same_row_on_reingestion() {
    let (mut store, cfg) = text_store();
    store.add_text_at("stable".to_string(), None, &cfg, T0).unwrap();
    store.add_text_at("other".to_string(), None, &cfg, T0 + 1).unwrap();
    store.add_text_at("stable".to_string(), None, &cfg, T0 + 2).unwrap();
    // "stable" still resolves to id 1: no new row, and its single entry is the
    // oldest in the ledger.
    assert_eq!(store.content_count(), 2);
    let rows = store.query(StorageQuery::Recent { limit: 10, skip: 0 }).unwrap();
    assert_eq!(rows.len(), 2);
    assert_eq!(rows[0].data_id, 2);
    assert_eq!(rows[1].data_id, 1);
}

#[test]
fn sha256_digest_is_the_dedup_key() {
    let (mut store, cfg) = text_store();
    store.add_text_at("abc".to_string(), None, &cfg, T0).unwrap();
    let hex = "ba7816bf8f01cfea414140de5dae2223b00361a396177a9cb410ff61f20015ad".to_string();
    assert!(store.contains_hash(&hex));
    assert!(!store.contains_hash(&"abc".to_string()));
}

#[test]
fn throttle_absorbs_a_repeat_within_the_hour() {
    let (mut store, cfg) = text_store();
    store.add_text_at("p".to_string(), None, &cfg, T0).unwrap();
    store.add_text_at("p".to_string(), None, &cfg, T0 + 3_600_000).unwrap();
    assert_eq!(store.recency_count(), 1);
}

#[test]
fn throttle_needs_thirty_intervening_observations() {
    let (mut store, cfg) = text_store();
    store.add_text_at("p".to_string(), None, &cfg, T0).unwrap();
    for k in 0..29 {
        store.add_text_at(format!("filler {}", k), None, &cfg, T0 + 1 + k).unwrap();
    }
    // More than an hour has passed, but only 29 observations intervened.
    store.add_text_at("p".to_string(), None, &cfg, T0 + 4_000_000).unwrap();
    assert_eq!(store.recency_count(), 30);
}

#[test]
fn throttle_bumps_an_aged_out_repeat() {
    let (mut store, cfg) = text_store();
    store.add_text_at("p".to_string(), None, &cfg, T0).unwrap();
    for k in 0..30 {
        store.add_text_at(format!("filler {}", k), None, &cfg, T0 + 1 + k).unwrap();
    }
    store.add_text_at("p".to_string(), None, &cfg, T0 + 3_660_060).unwrap();
    assert_eq!(store.content_count(), 31);
    assert_eq!(store.recency_count(), 32);
    // The repeat bumped the payload back to the top of the recent view.
    let rows = store.query(StorageQuery::Recent { limit: 1, skip: 0 }).unwrap();
    assert_eq!(rows[0].data_id, 1);
    assert_eq!(rows[0].timestamp, T0 + 3_660_060);
}

#[test]
fn oversize_text_is_dropped_without_error() {
    let (mut store, mut cfg) = text_store();
    cfg.stores.text.max_size = 1;
    let big = "x".repeat(2_000_000);
    store.add_text_at(big, None, &cfg, T0).unwrap();
    assert_eq!(store.content_count(), 0);
    assert_eq!(store.recency_count(), 0);
    assert_eq!(store.compute_total_size().unwrap(), 0);
}

#[test]
fn size_gate_admits_a_payload_at_the_limit() {
    let (mut store, mut cfg) = text_store();
    cfg.stores.text.max_size = 1;
    let exactly = "y".repeat(1_000_000);
    store.add_text_at(exactly, None, &cfg, T0).unwrap();
    assert_eq!(store.content_count(), 1);
    assert_eq!(store.compute_total_size().unwrap(), 1_000_000);
}

#[test]
fn oversize_image_is_dropped_without_error() {
    let (mut store, mut cfg) = text_store();
    cfg.stores.image.max_size = 1;
    let big = vec![7u8; 1_000_001];
    store.add_image_at(big, None, &cfg, T0).unwrap();
    assert_eq!(store.content_count(), 0);
}

#[test]
fn total_size_counts_text_only_and_sums_bytes() {
    let (mut store, cfg) = text_store();
    store.add_text_at("abcd".to_string(), None, &cfg, T0).unwrap();
    store.add_text_at("efg".to_string(), Some("<b>efg</b>".to_string()), &cfg, T0 + 1).unwrap();
    store.add_image_at(vec![1, 2, 3], None, &cfg, T0 + 2).unwrap();
    assert_eq!(store.compute_total_size().unwrap(), 7);
}

#[test]
fn cascade_delete_removes_all_entries_of_a_row() {
    let (mut store, cfg) = text_store();
    store.add_text_at("p".to_string(), None, &cfg, T0).unwrap();
    let mut now = T0;
    // Build up three ledger entries for "p" by aging it out twice.
    for round in 0..2 {
        for k in 0..30 {
            store
                .add_text_at(format!("filler {} {}", round, k), None, &cfg, now + 1 + k)
                .unwrap();
        }
        now += 3_660_060;
        store.add_text_at("p".to_string(), None, &cfg, now).unwrap();
    }
    assert_eq!(store.content_count(), 61);
    assert_eq!(store.recency_count(), 63);
    let removed = store.delete(1).unwrap();
    assert_eq!(removed, 4);
    assert_eq!(store.content_count(), 60);
    assert_eq!(store.recency_count(), 60);
    let rows = store.query(StorageQuery::Recent { limit: 100, skip: 0 }).unwrap();
    assert_eq!(rows.len(), 60);
    assert!(rows.iter().all(|r| r.data_id != 1));
}

#[test]
fn delete_of_missing_id_is_a_noop() {
    let (mut store, cfg) = text_store();
    store.add_text_at("keep".to_string(), None, &cfg, T0).unwrap();
    assert_eq!(store.delete(42).unwrap(), 0);
    assert_eq!(store.content_count(), 1);
    assert_eq!(store.recency_count(), 1);
}

#[test]
fn clear_database_reports_combined_count() {
    let (mut store, cfg) = text_store();
    store.add_text_at("a".to_string(), None, &cfg, T0).unwrap();
    store.add_text_at("b".to_string(), None, &cfg, T0 + 1).unwrap();
    store.add_image_at(vec![9u8], None, &cfg, T0 + 2).unwrap();
    assert_eq!(store.clear_database().unwrap(), 6);
    assert_eq!(store.content_count(), 0);
    assert_eq!(store.recency_count(), 0);
    // Identities keep counting after a clear.
    store.add_text_at("c".to_string(), None, &cfg, T0 + 3).unwrap();
    let rows = store.query(StorageQuery::Recent { limit: 1, skip: 0 }).unwrap();
    assert_eq!(rows[0].data_id, 4);
}

#[test]
fn count_newer_than_is_strict() {
    let (mut store, cfg) = text_store();
    store.add_text_at("a".to_string(), None, &cfg, 1000).unwrap();
    store.add_text_at("b".to_string(), None, &cfg, 2000).unwrap();
    store.add_text_at("c".to_string(), None, &cfg, 3000).unwrap();
    assert_eq!(store.count_the_recents_newer_than(0).unwrap(), 3);
    assert_eq!(store.count_the_recents_newer_than(1000).unwrap(), 2);
    assert_eq!(store.count_the_recents_newer_than(2999).unwrap(), 1);
    assert_eq!(store.count_the_recents_newer_than(3000).unwrap(), 0);
}

#[test]
fn images_return_thumbnails_in_rows_and_raw_bytes_on_demand() {
    let (mut store, mut cfg) = text_store();
    cfg.stores.image.max_size = 5120;
    let raw = vec![1u8, 2, 3, 4, 5];
    let thumb = vec![9u8, 8];
    store.add_image_at(raw.clone(), Some(thumb.clone()), &cfg, T0).unwrap();
    let rows = store.query(StorageQuery::Recent { limit: 10, skip: 0 }).unwrap();
    assert_eq!(rows.len(), 1);
    assert_eq!(rows[0].value, ReturnedItemType::Thumb(thumb));
    assert_eq!(store.get_image(rows[0].data_id).unwrap(), raw);
}

#[test]
fn image_without_thumbnail_yields_empty_thumb_row() {
    let (mut store, cfg) = text_store();
    store.add_image_at(vec![5u8, 6, 7], None, &cfg, T0).unwrap();
    let rows = store.query(StorageQuery::Recent { limit: 10, skip: 0 }).unwrap();
    assert_eq!(rows[0].value, ReturnedItemType::Thumb(Vec::new()));
}

#[test]
fn get_image_misses_on_text_rows() {
    let (mut store, cfg) = text_store();
    store.add_text_at("words".to_string(), None, &cfg, T0).unwrap();
    assert_eq!(store.get_image(1), Err(StorageError::NotFound));
}

#[test]
fn from_sql_decodes_both_kinds() {
    let t = ReturnedItemType::from_sql(0, Some("words".to_string()), None);
    assert_eq!(t, ReturnedItemType::Text("words".to_string()));
    let b = ReturnedItemType::from_sql(1, None, Some(vec![1u8, 2]));
    assert_eq!(b, ReturnedItemType::Thumb(vec![1u8, 2]));
}

fn text_row(id: usize, hash: &str, text: &str) -> CopiedData {
    CopiedData {
        id,
        hash: hash.to_string(),
        is_starred: false,
        type_of: 0,
        text_size: Some(text.len()),
        text_data: Some(text.to_string()),
        html_size: None,
        html_data: None,
        image_size: None,
        image_data: None,
        image_thumb_size: None,
        image_thumb_data: None,
    }
}

#[test]
fn rows_rebuild_a_coherent_store() {
    let contents = vec![text_row(1, "h1", "seven"), text_row(2, "h2", "eight")];
    let recents = vec![
        LastCopied { id: 1, row_id: 1, date: 100 },
        LastCopied { id: 2, row_id: 2, date: 200 },
    ];
    let store = StorageContainer::from_rows(contents, recents, 3, 3).unwrap();
    assert_eq!(store.content_count(), 2);
    assert_eq!(store.recency_count(), 2);
    let rows = store.query(StorageQuery::Recent { limit: 10, skip: 0 }).unwrap();
    assert_eq!(rows[0].data_id, 2);
    assert_eq!(rows[0].value, ReturnedItemType::Text("eight".to_string()));
}

#[test]
fn malformed_rows_are_rejected() {
    // A stored text size that does not match the text.
    let mut bad_size = text_row(1, "h1", "seven");
    bad_size.text_size = Some(99);
    let entry = |id: usize, row_id: usize, date: usize| LastCopied { id, row_id, date };
    assert!(StorageContainer::from_rows(vec![bad_size], vec![entry(1, 1, 5)], 2, 2).is_none());
    // Two rows sharing one hash.
    let dup = vec![text_row(1, "same", "a"), text_row(2, "same", "b")];
    let two = vec![entry(1, 1, 5), entry(2, 2, 6)];
    assert!(StorageContainer::from_rows(dup, two, 3, 3).is_none());
    // An entry referencing no content row.
    let orphan = StorageContainer::from_rows(
        vec![text_row(1, "h1", "a")],
        vec![entry(1, 1, 5), entry(2, 9, 6)],
        2,
        3,
    );
    assert!(orphan.is_none());
    // A content row no entry represents.
    let unrepresented = StorageContainer::from_rows(
        vec![text_row(1, "h1", "a"), text_row(2, "h2", "b")],
        vec![entry(1, 1, 5)],
        3,
        2,
    );
    assert!(unrepresented.is_none());
    // Ledger identities out of order.
    let unsorted = StorageContainer::from_rows(
        vec![text_row(1, "h1", "a")],
        vec![entry(2, 1, 5), entry(1, 1, 6)],
        2,
        3,
    );
    assert!(unsorted.is_none());
    // An identity at or past its counter.
    assert!(StorageContainer::from_rows(vec![text_row(5, "h1", "a")], vec![entry(1, 5, 5)], 2, 2)
        .is_none());
}

#[test]
fn store_reports_room_for_ingestion() {
    let (store, _cfg) = text_store();
    assert!(store.can_ingest());
}
