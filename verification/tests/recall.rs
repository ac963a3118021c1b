use codex_memory::recall::recall;
use codex_memory::recall::RecallContext;
use codex_memory::store::JsonlMemoryStore;
use codex_memory::types::Counters;
use codex_memory::types::Kind;
use codex_memory::types::MemoryItem;
use codex_memory::types::RelevanceHints;
use codex_memory::types::Scope;
use codex_memory::types::Status;
use codex_memory::types::StoreError;

fn item(id: &str, content: &str, lang: &str) -> MemoryItem {
    MemoryItem {
        id: id.to_string(),
        created_at: "2024-01-01T00:00:00Z".into(),
        updated_at: "2024-01-01T00:00:00Z".into(),
        schema_version: 1,
        source: "test".into(),
        scope: Scope::Global,
        status: Status::Active,
        kind: Kind::Fact,
        content: content.into(),
        tags: vec![],
        relevance_hints: RelevanceHints {
            files: vec![],
            crates: vec![],
            languages: vec![lang.into()],
            commands: vec![],
        },
        counters: Counters {
            seen_count: 0,
            used_count: 0,
            last_used_at: None,
        },
        expiry: None,
    }
}

fn ctx(now: &str, item_cap: usize, token_cap: usize) -> RecallContext {
    RecallContext {
        repo_root: None,
        dir: None,
        current_file: None,
        crate_name: None,
        language: Some("rust".into()),
        command: None,
        now_rfc3339: now.to_string(),
        item_cap,
        token_cap,
    }
}

#[test]
fn ranks_and_updates_counters() {
    let a = item("1", "use cargo build for rust", "rust");
    let b = item("2", "cargo test runs tests", "rust");
    let c = item("3", "npm install packages", "javascript");
    let mut store = JsonlMemoryStore::new("mem.jsonl".to_string());
    store.add(a);
    store.add(b);
    store.add(c);
    let now = "2024-01-10T00:00:00Z".to_string();
    let out = recall(&mut store, "cargo build rust", &ctx(&now, 2, 50)).unwrap();
    assert_eq!(out.len(), 2);
    assert_eq!(out[0].id, "1");
    assert_eq!(out[1].id, "2");
    let a_upd = store.get("1").unwrap();
    assert_eq!(a_upd.counters.used_count, 1);
    assert_eq!(a_upd.counters.last_used_at.as_deref(), Some(now.as_str()));
    let b_upd = store.get("2").unwrap();
    assert_eq!(b_upd.counters.used_count, 1);
    assert_eq!(b_upd.counters.last_used_at.as_deref(), Some(now.as_str()));
    let c_upd = store.get("3").unwrap();
    assert_eq!(c_upd.counters.used_count, 0);
    assert_eq!(c_upd.counters.last_used_at, None);
}

#[test]
fn recall_is_deterministic_on_a_frozen_store() {
    let mut s1 = JsonlMemoryStore::new("a.jsonl".to_string());
    let mut s2 = JsonlMemoryStore::new("b.jsonl".to_string());
    for s in [&mut s1, &mut s2] {
        s.add(item("1", "use cargo build for rust", "rust"));
        s.add(item("2", "cargo test runs tests", "rust"));
    }
    let out1 = recall(&mut s1, "cargo build", &ctx("2024-01-10T00:00:00Z", 5, 100)).unwrap();
    let out2 = recall(&mut s2, "cargo build", &ctx("2024-01-10T00:00:00Z", 5, 100)).unwrap();
    let ids1: Vec<&str> = out1.iter().map(|i| i.id.as_str()).collect();
    let ids2: Vec<&str> = out2.iter().map(|i| i.id.as_str()).collect();
    assert_eq!(ids1, ids2);
}

#[test]
fn counters_persist_across_recall_through_content() {
    let mut store = JsonlMemoryStore::new("mem.jsonl".to_string());
    store.add(item("m", "remember me", "rust"));
    let out1 = recall(&mut store, "remember", &ctx("2024-01-10T00:00:00Z", 1, 50)).unwrap();
    assert_eq!(out1[0].counters.used_count, 1);
    let text = store.content();
    let mut store2 = JsonlMemoryStore::from_content("mem.jsonl".to_string(), text.as_str());
    let out2 = recall(&mut store2, "remember", &ctx("2024-01-11T00:00:00Z", 1, 50)).unwrap();
    assert_eq!(out2[0].counters.used_count, 2);
}

#[test]
fn zero_budgets_select_nothing() {
    let mut store = JsonlMemoryStore::new("mem.jsonl".to_string());
    store.add(item("1", "cargo build", "rust"));
    let out = recall(&mut store, "cargo", &ctx("2024-01-10T00:00:00Z", 0, 50)).unwrap();
    assert!(out.is_empty());
    let out = recall(&mut store, "cargo", &ctx("2024-01-10T00:00:00Z", 5, 0)).unwrap();
    assert!(out.is_empty());
    assert_eq!(store.get("1").unwrap().counters.used_count, 0);
}

#[test]
fn bad_clock_is_a_parse_failure() {
    let mut store = JsonlMemoryStore::new("mem.jsonl".to_string());
    store.add(item("1", "cargo build", "rust"));
    let err = recall(&mut store, "cargo", &ctx("not a timestamp", 5, 50)).unwrap_err();
    assert_eq!(err, StoreError::Parse);
    assert_eq!(store.get("1").unwrap().counters.used_count, 0);
}

#[test]
fn decay_prefers_recently_used_items() {
    let mut old_item = item("old", "cargo deploy notes", "rust");
    old_item.counters.used_count = 1;
    old_item.counters.last_used_at = Some("2023-01-01T00:00:00Z".into());
    let mut new_item = item("new", "cargo deploy notes", "rust");
    new_item.counters.used_count = 1;
    new_item.counters.last_used_at = Some("2024-01-09T00:00:00Z".into());
    let mut store = JsonlMemoryStore::new("mem.jsonl".to_string());
    store.add(old_item);
    store.add(new_item);
    let out = recall(&mut store, "cargo deploy", &ctx("2024-01-10T00:00:00Z", 1, 100)).unwrap();
    assert_eq!(out[0].id, "new");
}

#[test]
fn add_and_recall_basic() {
    let mut store = JsonlMemoryStore::new("mem.jsonl".to_string());
    let mut a = item("1", "Use rg for search", "rust");
    a.scope = Scope::Global;
    a.kind = Kind::Pref;
    a.relevance_hints = RelevanceHints {
        files: vec![],
        crates: vec![],
        languages: vec![],
        commands: vec![],
    };
    let mut b = item("2", "Run just fmt before PR", "rust");
    b.scope = Scope::Repo;
    b.kind = Kind::Instruction;
    b.relevance_hints = RelevanceHints {
        files: vec![],
        crates: vec![],
        languages: vec![],
        commands: vec![],
    };
    store.add(a);
    store.add(b);
    let ctx = RecallContext {
        repo_root: None,
        dir: None,
        current_file: None,
        crate_name: None,
        language: None,
        command: None,
        now_rfc3339: "2024-01-10T00:00:00Z".to_string(),
        item_cap: 3,
        token_cap: 300,
    };
    let out = recall(&mut store, "please search with rg", &ctx).unwrap();
    assert!(!out.is_empty());
    assert!(out.iter().any(|i| i.content.contains("rg")));
}
