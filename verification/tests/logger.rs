use codex_memory::logger::MemoryLogger;
use codex_memory::store::JsonlMemoryStore;
use codex_memory::types::Counters;
use codex_memory::types::Kind;
use codex_memory::types::MemoryItem;
use codex_memory::types::RelevanceHints;
use codex_memory::types::Scope;
use codex_memory::types::Status;

fn durable_item(id: &str, kind: Kind, content: &str, tags: Vec<String>) -> MemoryItem {
    MemoryItem {
        id: id.to_string(),
        created_at: "2025-01-01T00:00:00.000Z".to_string(),
        updated_at: "2025-01-01T00:00:00.000Z".to_string(),
        schema_version: 1,
        source: "test".to_string(),
        scope: Scope::Repo,
        status: Status::Active,
        kind,
        content: content.to_string(),
        tags,
        relevance_hints: RelevanceHints {
            files: vec![],
            crates: vec![],
            languages: vec![],
            commands: vec![],
        },
        counters: Counters {
            seen_count: 0,
            used_count: 0,
            last_used_at: None,
        },
        expiry: None,
    }
}

#[test]
fn preamble_dedupes_merges_and_caps() {
    let mut store = JsonlMemoryStore::new("mem.jsonl".to_string());
    store.add(durable_item(
        "1",
        Kind::Pref,
        "prefer ruff",
        vec!["python".to_string(), "style".to_string()],
    ));
    store.add(durable_item("2", Kind::Pref, "Prefer Ruff", vec!["style".to_string()]));
    store.add(durable_item("3", Kind::Fact, "uses pytest", vec!["python".to_string()]));
    store.add(durable_item("4", Kind::Fact, "Uses PyTest", vec!["ci".to_string()]));

    let logger = MemoryLogger::new("repo".to_string());
    let pre = logger
        .build_durable_preamble(&mut store, "2025-01-02T00:00:00Z".to_string(), 512)
        .expect("preamble");
    let lower = pre.to_ascii_lowercase();
    assert!(lower.contains("project preferences"));
    assert!(lower.contains("project facts"));
    assert_eq!(lower.matches("prefer ruff").count(), 1);
    assert_eq!(lower.matches("uses pytest").count(), 1);
    assert!(pre.contains("\u{00D7}2"));
}

#[test]
fn preamble_truncates_to_the_budget() {
    let mut store = JsonlMemoryStore::new("mem.jsonl".to_string());
    let long = "a very long preference line that goes on and on and on".repeat(4);
    store.add(durable_item("1", Kind::Pref, long.as_str(), vec![]));
    let logger = MemoryLogger::new("repo".to_string());
    let pre = logger
        .build_durable_preamble(&mut store, "2025-01-02T00:00:00Z".to_string(), 40)
        .expect("preamble");
    assert!(pre.chars().count() <= 40);
    assert!(pre.ends_with('\u{2026}'));
}

#[test]
fn preamble_needs_a_durable_item() {
    let mut store = JsonlMemoryStore::new("mem.jsonl".to_string());
    store.add(durable_item("1", Kind::Note, "just a note", vec![]));
    let logger = MemoryLogger::new("repo".to_string());
    assert!(logger
        .build_durable_preamble(&mut store, "2025-01-02T00:00:00Z".to_string(), 512)
        .is_none());
}

#[test]
fn add_pref_lines_list_back_as_durables() {
    let mut logger = MemoryLogger::new("repo".to_string());
    logger.set_session_id("session-1".to_string());
    let l1 = logger.add_pref("Use ripgrep for search", "id-1", "2025-01-01T00:00:00.000Z");
    let l2 = logger.add_pref("Avoid force pushes", "id-2", "2025-01-01T00:00:01.000Z");
    let content = format!("{l1}{l2}not json\n");
    let items = logger.list_durable(content.as_str(), 10);
    assert_eq!(items.len(), 2);
    assert_eq!(items[0].content, "Use ripgrep for search");
    assert_eq!(items[0].entry_type, "pref");
    assert_eq!(items[1].id, "id-2");
    let capped = logger.list_durable(content.as_str(), 1);
    assert_eq!(capped.len(), 1);
    assert_eq!(capped[0].id, "id-2");
}

#[test]
fn search_durable_filters_by_folded_content() {
    let logger = MemoryLogger::new("repo".to_string());
    let l1 = logger.add_pref("Prefer RipGrep", "id-1", "2025-01-01T00:00:00.000Z");
    let l2 = logger.add_pref("Avoid force pushes", "id-2", "2025-01-01T00:00:01.000Z");
    let content = format!("{l1}{l2}");
    let hits = logger.search_durable(content.as_str(), "ripgrep", 10);
    assert_eq!(hits.len(), 1);
    assert_eq!(hits[0].id, "id-1");
    let none = logger.search_durable(content.as_str(), "sed", 10);
    assert!(none.is_empty());
}

#[test]
fn delete_by_prefix_drops_matching_durables() {
    let logger = MemoryLogger::new("repo".to_string());
    let l1 = logger.add_pref("first", "abc-1", "2025-01-01T00:00:00.000Z");
    let l2 = logger.add_pref("second", "xyz-2", "2025-01-01T00:00:01.000Z");
    let content = format!("{l1}{l2}plain line\n");
    let (out, changed) = logger.delete_by_prefix(content.as_str(), "abc");
    assert!(changed);
    assert!(!out.contains("first"));
    assert!(out.contains("second"));
    assert!(out.contains("plain line"));
    let (_, unchanged) = logger.delete_by_prefix(content.as_str(), "");
    assert!(!unchanged);
}
