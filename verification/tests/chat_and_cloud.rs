use humla_core::chat::{
    apply_page, conversation_page, effective_breadth, resolve_chat, DEFAULT_CHAT_MODEL, DEFAULT_LOCAL_LLM_BASE_URL, conversation_route_params, is_embedding_model, resolve_embed,
    resolve_scope, resolved_title_is_unset, unlisted_legacy_handles, validate_breadth, ChatTarget,
    Conversation, Note, Page, ResolvedChat, ToolScope, OLLAMA_EMBED_MODEL, OPENAI_EMBED_MODEL,
};
use humla_core::cloud::{canonical_provider_id, retain_safe_sessions, safe_path_seg, RemoteSession};

fn note(id: &str, folder: Option<&str>) -> Note {
    Note {
        id: id.to_string(),
        folder_id: folder.map(str::to_string),
        body: String::new(),
        transcript: String::new(),
        summary: String::new(),
    }
}

fn rec(client_id: &str) -> RemoteSession {
    RemoteSession {
        pb_id: "pbid000000000000".to_string(),
        client_id: client_id.to_string(),
        index: 1,
        started_at_ms: 0,
        duration_ms: 0,
        streams: Vec::new(),
        deleted: false,
        files: Vec::new(),
    }
}

fn handle(id: &str, remote: Option<&str>) -> Conversation {
    Conversation { id: id.to_string(), title: None, created_at: 0, remote_id: remote.map(String::from) }
}

#[test]
fn resolve_scope_maps_valid_breadths_and_errors_on_unknown() {
    let with_folder = note("n1", Some("f1"));
    let no_folder = note("n2", None);

    assert!(matches!(resolve_scope("all", Some(&no_folder)).unwrap(), ToolScope::All));
    assert!(matches!(resolve_scope("note", Some(&no_folder)).unwrap(), ToolScope::Note(_)));
    match resolve_scope("folder", Some(&with_folder)).unwrap() {
        ToolScope::Folder(id) => assert_eq!(id, "f1"),
        other => panic!("expected Folder scope, got {other:?}"),
    }
    assert!(resolve_scope("everything", Some(&no_folder)).is_err());
    assert!(resolve_scope("folder", Some(&no_folder)).is_err());
}

#[test]
fn resolve_scope_names_the_anchor_note() {
    match resolve_scope("note", Some(&note("n7", Some("f")))).unwrap() {
        ToolScope::Note(id) => assert_eq!(id, "n7"),
        other => panic!("expected Note scope, got {other:?}"),
    }
}

#[test]
fn resolve_scope_resolves_a_library_wide_turn_without_a_note() {
    assert!(matches!(resolve_scope("all", None).unwrap(), ToolScope::All));
    for breadth in ["note", "folder"] {
        assert!(resolve_scope(breadth, None).is_err(), "{breadth} should not widen silently");
    }
    assert!(resolve_scope("everything", None).is_err());
}

#[test]
fn validate_breadth_accepts_the_three_breadths_only() {
    for b in ["note", "folder", "all"] {
        assert_eq!(validate_breadth(b).unwrap(), b);
    }
    assert!(validate_breadth("Note").is_err());
    assert!(validate_breadth("").is_err());
}

#[test]
fn the_cloud_conversation_routes_omit_the_anchor_for_a_library_wide_target() {
    let note = ChatTarget::Note("n1".into());
    let global = ChatTarget::Global;

    assert_eq!(conversation_route_params("ws1", &note), vec![("workspace_id", "ws1"), ("note_id", "n1")]);
    let global_params = conversation_route_params("ws1", &global);
    assert_eq!(global_params, vec![("workspace_id", "ws1")]);
    assert!(!global_params.iter().any(|(k, _)| *k == "note_id"));
    assert_eq!(note.note_id(), Some("n1"));
    assert_eq!(global.note_id(), None);
}

#[test]
fn embedding_models_are_recognised() {
    for m in [
        "embeddinggemma",
        "embeddinggemma:latest",
        "nomic-embed-text",
        "mxbai-embed-large",
        "bge-m3",
        "all-minilm",
        "snowflake-arctic-embed2",
        "paraphrase-multilingual",
    ] {
        assert!(is_embedding_model(m), "expected embedding: {m}");
    }
    for m in ["gemma4:12b-mlx", "qwen3.5:4b", "llama3.2:3b", "gpt-5.4-mini"] {
        assert!(!is_embedding_model(m), "expected chat-capable: {m}");
    }
}

#[test]
fn the_embedder_follows_the_chat_provider() {
    let local = ResolvedChat {
        provider: "ollama".to_string(),
        base_url: "http://localhost:11434".to_string(),
        model: "llama3.2:3b".to_string(),
        api_key: Some("ignored".to_string()),
        think: false,
    };
    let e = resolve_embed(&local);
    assert_eq!((e.provider.as_str(), e.model.as_str()), ("ollama", OLLAMA_EMBED_MODEL));
    assert_eq!(e.base_url, "http://localhost:11434");
    assert_eq!(e.api_key, None);

    let cloud = ResolvedChat {
        provider: "openai".to_string(),
        base_url: "https://api.example".to_string(),
        model: "gpt-5.4-mini".to_string(),
        api_key: Some("k".to_string()),
        think: false,
    };
    let e = resolve_embed(&cloud);
    assert_eq!((e.provider.as_str(), e.model.as_str()), ("openai", OPENAI_EMBED_MODEL));
    assert_eq!(e.api_key, Some("k".to_string()));
}

#[test]
fn unlisted_legacy_handles_unions_only_the_server_omitted_remote_ids() {
    let local = vec![
        handle("h_srv", Some("srv1")),
        handle("h_legacy", Some("srv2")),
        handle("h_unsent", None),
    ];
    let server_ids = vec!["srv1".to_string()];
    let unlisted = unlisted_legacy_handles(&server_ids, &local);
    assert_eq!(unlisted.len(), 1, "only the server-omitted, remote-id'd handle");
    assert_eq!(unlisted[0].id, "h_legacy");

    let none: Vec<String> = Vec::new();
    let unlisted = unlisted_legacy_handles(&none, &local);
    let ids: Vec<&str> = unlisted.iter().map(|h| h.id.as_str()).collect();
    assert_eq!(ids, vec!["h_srv", "h_legacy"]);
}

#[test]
fn unlisted_legacy_handles_keep_every_omitted_handle_in_order() {
    let local = vec![handle("a", Some("r1")), handle("b", Some("r1")), handle("c", Some("r2"))];
    let unlisted = unlisted_legacy_handles(&vec!["r2".to_string()], &local);
    let ids: Vec<&str> = unlisted.iter().map(|h| h.id.as_str()).collect();
    assert_eq!(ids, vec!["a", "b"]);
}

#[test]
fn a_blank_title_counts_as_unset() {
    let mut c = handle("x", None);
    assert!(resolved_title_is_unset(&c));
    c.title = Some("   ".to_string());
    assert!(resolved_title_is_unset(&c));
    c.title = Some("Standup".to_string());
    assert!(!resolved_title_is_unset(&c));
}

#[test]
fn pages_window_the_list() {
    assert!(conversation_page(None, Some(5)).is_none());
    let p = conversation_page(Some(2), Some(1)).unwrap();
    assert_eq!((p.limit, p.offset), (2, 1));
    assert_eq!(apply_page(vec![1, 2, 3, 4], Some(p)), vec![2, 3]);
    assert_eq!(apply_page(vec![1, 2, 3], Some(Page { limit: 5, offset: 7 })), Vec::<i32>::new());
    assert_eq!(apply_page(vec![1, 2, 3], None), vec![1, 2, 3]);
}

#[test]
fn retain_drops_traversal_client_id() {
    let out = retain_safe_sessions(vec![rec("../../../../Desktop")]);
    assert!(out.is_empty(), "traversal client_id must be dropped entirely");
}

#[test]
fn retain_drops_absolute_and_separator_ids() {
    let hostile = vec![rec("/etc"), rec("a/b"), rec("..\\..\\windows"), rec(".."), rec(""), rec("has space")];
    let n = hostile.len();
    let out = retain_safe_sessions(hostile);
    assert!(out.is_empty(), "all {n} hostile ids must be dropped");
}

#[test]
fn retain_keeps_valid_uuid_and_legacy() {
    let good = vec![
        rec("550e8400-e29b-41d4-a716-446655440000"),
        rec("__legacy__"),
        rec("session-1_take.2"),
    ];
    let out = retain_safe_sessions(good);
    assert_eq!(out.len(), 3, "valid UUID + __legacy__ + plain segment must pass");
    assert_eq!(out[1].client_id, "__legacy__");
}

#[test]
fn retain_filters_mixed_batch_only_safe_survive() {
    let batch = vec![
        rec("550e8400-e29b-41d4-a716-446655440000"),
        rec("../../../../Desktop"),
        rec("__legacy__"),
    ];
    let out = retain_safe_sessions(batch);
    let ids: Vec<&str> = out.iter().map(|r| r.client_id.as_str()).collect();
    assert_eq!(ids, ["550e8400-e29b-41d4-a716-446655440000", "__legacy__"]);
    assert!(!ids.iter().any(|id| id.contains("..")));
}

#[test]
fn safe_path_segments_refuse_dot_dot_anywhere() {
    assert!(safe_path_seg("abc_1.wav"));
    assert!(!safe_path_seg("a..b"));
    assert!(!safe_path_seg(""));
}

#[test]
fn provider_ids_map_to_the_known_four() {
    assert_eq!(canonical_provider_id("openai"), Some("openai"));
    assert_eq!(canonical_provider_id("local"), Some("local"));
    assert_eq!(canonical_provider_id("OpenAI"), None);
    assert_eq!(canonical_provider_id("anthropic"), None);
}

const OPENAI_BASE: &str = "https://api.openai.com/v1";

#[test]
fn resolve_chat_rejects_an_embedding_model_as_the_chat_model() {
    let res = resolve_chat(Some("ollama"), Some("embeddinggemma:latest"), None, None, None, OPENAI_BASE);
    assert!(res.is_err());
    let err = res.err().unwrap();
    assert!(err.contains("embedding model"), "clear guidance, not a raw 400: {err}");
    assert!(err.starts_with("\u{201c}embeddinggemma:latest\u{201d}"));
}

#[test]
fn a_local_chat_needs_a_model_and_uses_the_local_server() {
    let err = resolve_chat(Some("ollama"), Some("  "), None, None, None, OPENAI_BASE).unwrap_err();
    assert!(err.starts_with("No chat model configured"));
    let r = resolve_chat(Some(" ollama "), Some("llama3.2:3b"), None, Some(" TRUE "), None, OPENAI_BASE).unwrap();
    assert_eq!(r.provider, "ollama");
    assert_eq!(r.base_url, DEFAULT_LOCAL_LLM_BASE_URL);
    assert_eq!(r.model, "llama3.2:3b");
    assert_eq!(r.api_key, None);
    assert!(r.think);
    let r = resolve_chat(Some("ollama"), Some("qwen3.5:4b"), Some("http://box:11434/v1"), Some("no"), Some("k"), OPENAI_BASE)
        .unwrap();
    assert_eq!(r.base_url, "http://box:11434/v1");
    assert!(!r.think);
}

#[test]
fn a_cloud_chat_needs_a_key_and_defaults_the_model() {
    let err = resolve_chat(None, None, None, None, None, OPENAI_BASE).unwrap_err();
    assert!(err.starts_with("OpenAI API key not set"));
    assert!(resolve_chat(Some("openai"), None, None, None, Some(""), OPENAI_BASE).is_err());
    let r = resolve_chat(None, None, None, Some("true"), Some("sk-1"), OPENAI_BASE).unwrap();
    assert_eq!(r.provider, "openai");
    assert_eq!(r.base_url, OPENAI_BASE);
    assert_eq!(r.model, DEFAULT_CHAT_MODEL);
    assert_eq!(r.api_key, Some("sk-1".to_string()));
    assert!(!r.think);
    let r = resolve_chat(Some("openai"), Some("gpt-5.4"), None, None, Some("sk-1"), OPENAI_BASE).unwrap();
    assert_eq!(r.model, "gpt-5.4");
}

#[test]
fn heal_and_read_breadth_self_heals_a_stale_folder_breadth_to_note() {
    let no_folder = note("n1", None);
    let (effective, rewrite) = effective_breadth("folder", Some(&no_folder)).unwrap();
    assert_eq!(effective, "note", "stale folder breadth heals to note");
    assert!(rewrite, "the heal is persisted");
}

#[test]
fn heal_and_read_breadth_keeps_a_valid_breadth_and_errors_on_garbage() {
    let in_folder = note("n1", Some("f1"));
    assert_eq!(effective_breadth("folder", Some(&in_folder)).unwrap(), ("folder".to_string(), false));
    assert_eq!(effective_breadth("all", Some(&in_folder)).unwrap(), ("all".to_string(), false));
    assert!(effective_breadth("bogus", Some(&in_folder)).is_err());
}

#[test]
fn a_global_conversation_heals_any_stored_breadth_back_to_all() {
    assert_eq!(effective_breadth("all", None).unwrap(), ("all".to_string(), false));
    for stored in ["note", "folder"] {
        assert_eq!(effective_breadth(stored, None).unwrap(), ("all".to_string(), true));
    }
    assert!(effective_breadth("bogus", None).is_err());
}
