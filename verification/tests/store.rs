use codex_memory::store::JsonlMemoryStore;
use codex_memory::types::Counters;
use codex_memory::types::Expiry;
use codex_memory::types::Kind;
use codex_memory::types::MemoryItem;
use codex_memory::types::RelevanceHints;
use codex_memory::types::Scope;
use codex_memory::types::Status;
use codex_memory::types::StoreError;

fn sample_item(id: &str, scope: Scope, status: Status) -> MemoryItem {
    MemoryItem {
        id: id.to_string(),
        created_at: "2024-01-01T00:00:00Z".to_string(),
        updated_at: "2024-01-01T00:00:00Z".to_string(),
        schema_version: 1,
        source: "test".to_string(),
        scope,
        status,
        kind: Kind::Note,
        content: format!("content-{id}"),
        tags: vec!["tag".to_string()],
        relevance_hints: RelevanceHints {
            files: vec![],
            crates: vec![],
            languages: vec![],
            commands: vec![],
        },
        counters: Counters {
            seen_count: 0,
            used_count: 0,
            last_used_at: None,
        },
        expiry: None,
    }
}

#[test]
fn store_crud_import_export_stats() {
    let mut store = JsonlMemoryStore::new("mem.jsonl".to_string());

    let item_a = sample_item("a", Scope::Global, Status::Active);
    store.add(item_a.duplicate());
    assert_eq!(store.get("a").unwrap().content, item_a.content);

    let mut updated = item_a.duplicate();
    updated.content = "updated".to_string();
    store.update(&updated).unwrap();
    assert_eq!(store.get("a").unwrap().content, "updated");

    assert_eq!(store.list(None, None).len(), 1);

    store.archive("a", true, "2024-01-02T00:00:00Z").unwrap();
    assert_eq!(store.get("a").unwrap().status, Status::Archived);

    let item_b = sample_item("b", Scope::Repo, Status::Active);
    store.add(item_b.duplicate());

    let stats = store.stats();
    assert_eq!(stats.total, 2);
    assert_eq!(stats.active, 1);
    assert_eq!(stats.archived, 1);
    assert_eq!(stats.by_scope.global, 1);
    assert_eq!(stats.by_scope.repo, 1);

    let exported = store.export();

    let mut store2 = JsonlMemoryStore::new("mem2.jsonl".to_string());
    let n = store2.import(exported.as_str());
    assert_eq!(n, 2);
    assert_eq!(store2.list(None, None).len(), 2);
    assert_eq!(store2.get("a").unwrap().content, "updated");

    store2.delete("a");
    assert!(store2.get("a").is_none());
}

#[test]
fn delete_is_idempotent() {
    let mut store = JsonlMemoryStore::new("mem.jsonl".to_string());
    store.add(sample_item("x", Scope::Repo, Status::Active));
    store.add(sample_item("y", Scope::Repo, Status::Active));
    store.delete("x");
    let once = store.content();
    store.delete("x");
    let twice = store.content();
    assert_eq!(once, twice);
    assert!(store.get("y").is_some());
}

#[test]
fn archive_toggle_restores_active_and_moves_stamp() {
    let mut store = JsonlMemoryStore::new("mem.jsonl".to_string());
    store.add(sample_item("a", Scope::Repo, Status::Active));
    store.archive("a", true, "2024-02-01T00:00:00Z").unwrap();
    let mid = store.get("a").unwrap();
    assert_eq!(mid.status, Status::Archived);
    assert_eq!(mid.updated_at, "2024-02-01T00:00:00Z");
    store.archive("a", false, "2024-02-02T00:00:00Z").unwrap();
    let end = store.get("a").unwrap();
    assert_eq!(end.status, Status::Active);
    assert_eq!(end.updated_at, "2024-02-02T00:00:00Z");
    assert!(end.updated_at > mid.updated_at);
    assert_eq!(
        store.archive("missing", true, "2024-02-03T00:00:00Z"),
        Err(StoreError::NotFound)
    );
}

#[test]
fn export_import_round_trip_preserves_records() {
    let mut store = JsonlMemoryStore::new("mem.jsonl".to_string());
    let mut a = sample_item("a", Scope::Global, Status::Active);
    a.updated_at = "2024-03-02T00:00:00Z".to_string();
    a.schema_version = 7;
    a.tags = vec!["t1".to_string(), "t2".to_string()];
    a.expiry = Some(Expiry {
        ttl_secs: Some(3600),
        review_after: Some("2024-06-01T00:00:00Z".to_string()),
    });
    let mut b = sample_item("b", Scope::Dir, Status::Archived);
    b.updated_at = "2024-03-05T00:00:00Z".to_string();
    b.content = "line one\nwith \"quotes\" and \\ slashes\tand tabs".to_string();
    store.add(a);
    store.add(b);
    let exported = store.export();

    let mut fresh = JsonlMemoryStore::new("other.jsonl".to_string());
    let n = fresh.import(exported.as_str());
    assert_eq!(n, 2);
    let a2 = fresh.get("a").unwrap();
    assert_eq!(a2.schema_version, 7);
    assert_eq!(a2.tags, vec!["t1".to_string(), "t2".to_string()]);
    let e = a2.expiry.unwrap();
    assert_eq!(e.ttl_secs, Some(3600));
    assert_eq!(e.review_after.as_deref(), Some("2024-06-01T00:00:00Z"));
    let b2 = fresh.get("b").unwrap();
    assert_eq!(
        b2.content,
        "line one\nwith \"quotes\" and \\ slashes\tand tabs"
    );
    // newest first in the rendered order
    let listed = fresh.list(None, None);
    assert_eq!(listed[0].id, "b");
    assert_eq!(listed[1].id, "a");
}

#[test]
fn list_filters_by_scope_and_status() {
    let mut store = JsonlMemoryStore::new("mem.jsonl".to_string());
    store.add(sample_item("g1", Scope::Global, Status::Active));
    store.add(sample_item("r1", Scope::Repo, Status::Active));
    store.add(sample_item("r2", Scope::Repo, Status::Archived));
    assert_eq!(store.list(Some(Scope::Repo), None).len(), 2);
    assert_eq!(store.list(Some(Scope::Repo), Some(Status::Active)).len(), 1);
    assert_eq!(store.list(None, Some(Status::Archived)).len(), 1);
    assert_eq!(store.list(Some(Scope::Dir), None).len(), 0);
}

#[test]
fn import_skips_blank_and_malformed_lines() {
    let mut store = JsonlMemoryStore::new("mem.jsonl".to_string());
    store.add(sample_item("keep", Scope::Repo, Status::Active));
    let good = store.content();
    let text = format!("\n  \nnot a record\n{good}broken {{\n");
    let mut fresh = JsonlMemoryStore::new("other.jsonl".to_string());
    let n = fresh.import(text.as_str());
    assert_eq!(n, 1);
    assert!(fresh.get("keep").is_some());
    assert_eq!(fresh.list(None, None).len(), 1);
}

#[test]
fn update_missing_id_errs() {
    let mut store = JsonlMemoryStore::new("mem.jsonl".to_string());
    let item = sample_item("nope", Scope::Repo, Status::Active);
    assert_eq!(store.update(&item), Err(StoreError::NotFound));
}

#[test]
fn content_round_trips_through_from_content() {
    let mut store = JsonlMemoryStore::new("mem.jsonl".to_string());
    store.add(sample_item("one", Scope::Repo, Status::Active));
    store.add(sample_item("two", Scope::Global, Status::Active));
    let text = store.content();
    let again = JsonlMemoryStore::from_content("mem.jsonl".to_string(), text.as_str());
    assert!(again.get("one").is_some());
    assert!(again.get("two").is_some());
    assert_eq!(again.content(), text);
}

#[test]
fn get_and_list_read_the_newest_record_of_an_id() {
    let mut store = JsonlMemoryStore::new("mem.jsonl".to_string());
    let mut first = sample_item("a", Scope::Repo, Status::Active);
    first.content = "older".to_string();
    let mut second = sample_item("a", Scope::Repo, Status::Active);
    second.content = "newer".to_string();
    second.updated_at = "2024-01-03T00:00:00Z".to_string();
    store.add(first);
    store.add(second);
    assert_eq!(store.get("a").unwrap().content, "newer");
    let listed = store.list(None, None);
    assert_eq!(listed.len(), 1);
    assert_eq!(listed[0].content, "newer");
    let stats = store.stats();
    assert_eq!(stats.total, 1);
    assert_eq!(store.export().lines().count(), 1);
}

#[test]
fn add_unique_rejects_a_present_id() {
    let mut store = JsonlMemoryStore::new("mem.jsonl".to_string());
    store
        .add_unique(sample_item("a", Scope::Repo, Status::Active))
        .unwrap();
    assert_eq!(
        store.add_unique(sample_item("a", Scope::Global, Status::Active)),
        Err(StoreError::Conflict)
    );
    assert_eq!(store.get("a").unwrap().scope, Scope::Repo);
    store
        .add_unique(sample_item("b", Scope::Repo, Status::Active))
        .unwrap();
    assert_eq!(store.stats().total, 2);
}

#[test]
fn import_collapses_existing_duplicate_ids() {
    let mut store = JsonlMemoryStore::new("mem.jsonl".to_string());
    let mut old_rec = sample_item("dup", Scope::Repo, Status::Active);
    old_rec.content = "older".to_string();
    let mut new_rec = sample_item("dup", Scope::Repo, Status::Active);
    new_rec.content = "newer".to_string();
    new_rec.updated_at = "2024-01-03T00:00:00Z".to_string();
    store.add(old_rec);
    store.add(new_rec);
    let n = store.import("");
    assert_eq!(n, 0);
    assert_eq!(store.content().lines().count(), 1);
    assert_eq!(store.get("dup").unwrap().content, "newer");
}

#[test]
fn import_stream_record_overwrites_by_id() {
    let mut src = JsonlMemoryStore::new("src.jsonl".to_string());
    let mut replacement = sample_item("x", Scope::Repo, Status::Active);
    replacement.content = "from stream".to_string();
    replacement.updated_at = "2024-02-01T00:00:00Z".to_string();
    src.add(replacement);
    let text = src.export();
    let mut store = JsonlMemoryStore::new("mem.jsonl".to_string());
    store.add(sample_item("x", Scope::Repo, Status::Active));
    let n = store.import(text.as_str());
    assert_eq!(n, 1);
    assert_eq!(store.get("x").unwrap().content, "from stream");
    assert_eq!(store.list(None, None).len(), 1);
}
