use codex_memory::cli::MemoryCli;
use codex_memory::cli::MemoryCommand;
use codex_memory::factory::backend_from_str;
use codex_memory::factory::store_path_exec;
use codex_memory::factory::Backend;
use codex_memory::sqlite::item_json_cols;
use codex_memory::sqlite::SqliteMemoryStore;
use codex_memory::types::kind_as_str;
use codex_memory::types::parse_kind;
use codex_memory::types::parse_scope;
use codex_memory::types::parse_status;
use codex_memory::types::scope_as_str;
use codex_memory::types::status_as_str;
use codex_memory::types::Counters;
use codex_memory::types::Kind;
use codex_memory::types::MemoryItem;
use codex_memory::types::RelevanceHints;
use codex_memory::types::Scope;
use codex_memory::types::Status;
use codex_memory::types::StoreError;

#[test]
fn backend_selector_is_case_insensitive() {
    assert_eq!(backend_from_str("sqlite"), Backend::Sqlite);
    assert_eq!(backend_from_str("SQLITE"), Backend::Sqlite);
    assert_eq!(backend_from_str("SqLiTe"), Backend::Sqlite);
    assert_eq!(backend_from_str("jsonl"), Backend::Jsonl);
    assert_eq!(backend_from_str(""), Backend::Jsonl);
    assert_eq!(backend_from_str("anything"), Backend::Jsonl);
}

#[test]
fn storage_paths_follow_the_data_directory() {
    assert_eq!(
        store_path_exec("/repo", Backend::Jsonl),
        "/repo/.codex/memory/memory.jsonl"
    );
    assert_eq!(
        store_path_exec("/home/me", Backend::Sqlite),
        "/home/me/.codex/memory/memory.db"
    );
}

#[test]
fn enum_names_round_trip() {
    for s in [Scope::Global, Scope::Repo, Scope::Dir] {
        assert_eq!(parse_scope(scope_as_str(&s)).unwrap(), s);
    }
    for s in [Status::Active, Status::Archived] {
        assert_eq!(parse_status(status_as_str(&s)).unwrap(), s);
    }
    for k in [Kind::Pref, Kind::Fact, Kind::Profile, Kind::Instruction, Kind::Note] {
        assert_eq!(parse_kind(kind_as_str(&k)).unwrap(), k);
    }
    assert_eq!(parse_scope("weird"), Err(StoreError::Parse));
    assert_eq!(parse_status("weird"), Err(StoreError::Parse));
    assert_eq!(parse_kind("weird"), Err(StoreError::Parse));
}

#[test]
fn sqlite_columns_hold_the_canonical_encodings() {
    let store = SqliteMemoryStore::new("/tmp/mem.db".to_string());
    assert_eq!(store.path().as_str(), "/tmp/mem.db");
    let item = MemoryItem {
        id: "a".to_string(),
        created_at: "2024-01-01T00:00:00Z".to_string(),
        updated_at: "2024-01-01T00:00:00Z".to_string(),
        schema_version: 1,
        source: "test".to_string(),
        scope: Scope::Repo,
        status: Status::Active,
        kind: Kind::Note,
        content: "c".to_string(),
        tags: vec!["t".to_string()],
        relevance_hints: RelevanceHints {
            files: vec![],
            crates: vec![],
            languages: vec![],
            commands: vec![],
        },
        counters: Counters {
            seen_count: 1,
            used_count: 2,
            last_used_at: None,
        },
        expiry: None,
    };
    let (tags, hints, counters, expiry) = item_json_cols(&item);
    assert_eq!(tags, "[\"t\"]");
    assert_eq!(
        hints,
        "{\"files\":[],\"crates\":[],\"languages\":[],\"commands\":[]}"
    );
    assert_eq!(
        counters,
        "{\"seen_count\":1,\"used_count\":2,\"last_used_at\":null}"
    );
    assert!(expiry.is_none());
}

#[test]
fn command_values_carry_their_arguments() {
    let cli = MemoryCli {
        cmd: MemoryCommand::Compact {
            input: "mem.jsonl".to_string(),
            output: "out.jsonl".to_string(),
        },
    };
    match cli.cmd {
        MemoryCommand::Compact { input, output } => {
            assert_eq!(input, "mem.jsonl");
            assert_eq!(output, "out.jsonl");
        },
        _ => panic!("wrong command"),
    }
}
