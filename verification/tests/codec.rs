use codex_memory::item_codec::encode_item;
use codex_memory::item_codec::parse_item_line;
use codex_memory::migrate::compact_jsonl;
use codex_memory::migrate::migrate_jsonl_to_sqlite;
use codex_memory::store::JsonlMemoryStore;
use codex_memory::types::Counters;
use codex_memory::types::Expiry;
use codex_memory::types::Kind;
use codex_memory::types::MemoryItem;
use codex_memory::types::RelevanceHints;
use codex_memory::types::Scope;
use codex_memory::types::Status;
use codex_memory::types::StoreError;

fn fancy_item(id: &str) -> MemoryItem {
    MemoryItem {
        id: id.to_string(),
        created_at: "2024-01-01T00:00:00Z".to_string(),
        updated_at: "2024-01-02T03:04:05Z".to_string(),
        schema_version: 42,
        source: "codex-cli".to_string(),
        scope: Scope::Dir,
        status: Status::Archived,
        kind: Kind::Instruction,
        content: "quote \" backslash \\ newline \n tab \t bell \u{0007} accent é".to_string(),
        tags: vec!["x".to_string(), "y z".to_string()],
        relevance_hints: RelevanceHints {
            files: vec!["src/main.rs".to_string()],
            crates: vec!["serde".to_string()],
            languages: vec!["Rust".to_string()],
            commands: vec!["cargo build".to_string()],
        },
        counters: Counters {
            seen_count: 3,
            used_count: 4294967295,
            last_used_at: Some("2024-01-02T00:00:00Z".to_string()),
        },
        expiry: Some(Expiry {
            ttl_secs: Some(18446744073709551615),
            review_after: None,
        }),
    }
}

#[test]
fn encode_then_parse_restores_every_field() {
    let item = fancy_item("id-1");
    let line = encode_item(&item);
    let back = parse_item_line(&line).expect("round trip");
    assert_eq!(back.id, item.id);
    assert_eq!(back.created_at, item.created_at);
    assert_eq!(back.updated_at, item.updated_at);
    assert_eq!(back.schema_version, item.schema_version);
    assert_eq!(back.source, item.source);
    assert_eq!(back.scope, item.scope);
    assert_eq!(back.status, item.status);
    assert_eq!(back.kind, item.kind);
    assert_eq!(back.content, item.content);
    assert_eq!(back.tags, item.tags);
    assert_eq!(back.relevance_hints.files, item.relevance_hints.files);
    assert_eq!(back.relevance_hints.crates, item.relevance_hints.crates);
    assert_eq!(back.relevance_hints.languages, item.relevance_hints.languages);
    assert_eq!(back.relevance_hints.commands, item.relevance_hints.commands);
    assert_eq!(back.counters.seen_count, item.counters.seen_count);
    assert_eq!(back.counters.used_count, item.counters.used_count);
    assert_eq!(back.counters.last_used_at, item.counters.last_used_at);
    let e1 = back.expiry.unwrap();
    let e2 = item.expiry.unwrap();
    assert_eq!(e1.ttl_secs, e2.ttl_secs);
    assert_eq!(e1.review_after, e2.review_after);
}

#[test]
fn encoded_line_is_single_line_text() {
    let item = fancy_item("id-2");
    let line = encode_item(&item);
    assert!(!line.contains(&'\n'));
    let text: String = line.iter().collect();
    assert!(text.starts_with("{\"id\":\"id-2\""));
    assert!(text.ends_with("}"));
    assert!(text.contains("\"scope\":\"dir\""));
    assert!(text.contains("\"status\":\"archived\""));
    assert!(text.contains("\"kind\":\"instruction\""));
    assert!(text.contains("\"schema_version\":42"));
}

#[test]
fn malformed_lines_parse_to_nothing() {
    for bad in ["", "{", "not a record", "{\"id\":3}", "{\"id\":\"a\"}"] {
        let chars: Vec<char> = bad.chars().collect();
        assert!(parse_item_line(&chars).is_none());
    }
}

#[test]
fn memory_compact_removes_duplicates() {
    let mut store = JsonlMemoryStore::new("mem.jsonl".to_string());
    let mut one = fancy_item("one");
    one.content = "first".to_string();
    let two = fancy_item("two");
    let mut one_again = fancy_item("one");
    one_again.content = "second".to_string();
    store.add(one);
    store.add(two);
    store.add(one_again);
    let text = store.content();
    let (out, read, written) = compact_jsonl(text.as_str());
    assert_eq!(read, 3);
    assert_eq!(written, 2);
    assert_eq!(out.lines().count(), 2);
    let kept = JsonlMemoryStore::from_content("out.jsonl".to_string(), out.as_str());
    // the first record of a duplicated id survives compaction
    assert_eq!(kept.get("one").unwrap().content, "first");
    assert!(kept.get("two").is_some());
}

#[test]
fn memory_migrate_imports_entries() {
    let mut store = JsonlMemoryStore::new("mem.jsonl".to_string());
    store.add(fancy_item("one"));
    store.add(fancy_item("two"));
    let text = store.content();
    let (items, n) = migrate_jsonl_to_sqlite(text.as_str()).unwrap();
    assert_eq!(n, 2);
    let ids: Vec<&str> = items.iter().map(|i| i.id.as_str()).collect();
    assert!(ids.contains(&"one"));
    assert!(ids.contains(&"two"));
}

#[test]
fn migrate_rejects_malformed_records() {
    let mut store = JsonlMemoryStore::new("mem.jsonl".to_string());
    store.add(fancy_item("one"));
    let text = format!("{}garbage\n", store.content());
    assert!(matches!(
        migrate_jsonl_to_sqlite(text.as_str()),
        Err(StoreError::Parse)
    ));
}

#[test]
fn compact_skips_blank_and_garbage_lines() {
    let mut store = JsonlMemoryStore::new("mem.jsonl".to_string());
    store.add(fancy_item("only"));
    let text = format!("\n\n{}garbage\n   \n", store.content());
    let (out, read, written) = compact_jsonl(text.as_str());
    assert_eq!(read, 2); // the record and the garbage line
    assert_eq!(written, 1);
    assert_eq!(out.lines().count(), 1);
}

#[test]
fn parser_tolerates_unknown_fields() {
    let item = fancy_item("id-3");
    let line: String = encode_item(&item).iter().collect();
    let with_tail = format!(
        "{},\"future\":{{\"a\":[1,2],\"b\":\"x\"}}}}",
        &line[..line.len() - 1]
    );
    let chars: Vec<char> = with_tail.chars().collect();
    let back = parse_item_line(&chars).expect("unknown trailing field tolerated");
    assert_eq!(back.id, item.id);
    assert_eq!(back.content, item.content);
    let with_mid = line.replace(",\"content\":", ",\"weight\":-1.5e3,\"content\":");
    let chars: Vec<char> = with_mid.chars().collect();
    let back = parse_item_line(&chars).expect("unknown middle field tolerated");
    assert_eq!(back.content, item.content);
    let with_lead = line.replace("{\"id\":", "{\"v\":true,\"id\":");
    let chars: Vec<char> = with_lead.chars().collect();
    let back = parse_item_line(&chars).expect("unknown leading field tolerated");
    assert_eq!(back.id, item.id);
}
