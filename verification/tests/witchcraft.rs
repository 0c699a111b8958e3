use scryd::witchcraft::{collect_hits, RawHit};
use scryd::search::{MessageId, Mode};
use scryd::witchcraft::{
    message_id_to_uuid, metadata_for, parse_metadata_id, semantic_snippet, use_fulltext,
    FLUSH_EMBED_BATCH, SCRYD_NAMESPACE,
};

#[test]
fn message_id_to_uuid_is_deterministic() {
    let a = message_id_to_uuid(&MessageId::new("abc".to_string()));
    let b = message_id_to_uuid(&MessageId::new("abc".to_string()));
    assert_eq!(a, b);
}

#[test]
fn message_id_to_uuid_distinguishes_distinct_ids() {
    let a = message_id_to_uuid(&MessageId::new("alice".to_string()));
    let b = message_id_to_uuid(&MessageId::new("bob".to_string()));
    assert_ne!(a, b);
}

#[test]
fn message_id_to_uuid_is_the_v5_uuid_in_the_scryd_namespace() {
    let u = message_id_to_uuid(&MessageId::new("abc".to_string()));
    let ns = uuid::Uuid::from_u128(SCRYD_NAMESPACE);
    assert_eq!(u, uuid::Uuid::new_v5(&ns, b"abc").as_u128());
    assert_ne!(u, SCRYD_NAMESPACE);
}

#[test]
fn parse_metadata_id_extracts_id_field() {
    let m = r#"{"id":"hello@example.com"}"#;
    assert_eq!(parse_metadata_id(m).as_deref(), Some("hello@example.com"));
}

#[test]
fn parse_metadata_id_none_on_malformed() {
    assert_eq!(parse_metadata_id("not json").as_deref(), None);
    assert_eq!(parse_metadata_id(r#"{"other":"x"}"#).as_deref(), None);
}

#[test]
fn metadata_round_trips_through_parse() {
    let id = MessageId::new("primary:\"quoted\"@x".to_string());
    let m = metadata_for(&id);
    assert_eq!(m, r#"{"id":"primary:\"quoted\"@x"}"#);
    assert_eq!(parse_metadata_id(&m).as_deref(), Some("primary:\"quoted\"@x"));
}

#[test]
fn flush_embed_batch_stays_bounded() {
    assert!(FLUSH_EMBED_BATCH > 0, "must embed something per call");
    assert!(
        FLUSH_EMBED_BATCH <= 32,
        "must stay small enough that one flush completes inside the daemon-read timeout"
    );
}

#[test]
fn modes_pick_their_matchers_and_snippets() {
    assert!(use_fulltext(Mode::FullText));
    assert!(use_fulltext(Mode::Hybrid));
    assert!(!use_fulltext(Mode::Semantic));
    let bodies = vec!["first chunk".to_string(), "second chunk".to_string()];
    assert_eq!(semantic_snippet(Mode::FullText, &bodies, 0), None);
    assert_eq!(
        semantic_snippet(Mode::Semantic, &bodies, 1).as_deref(),
        Some("second chunk")
    );
    assert_eq!(semantic_snippet(Mode::Hybrid, &bodies, 2), None);
}

#[test]
fn raw_rows_without_a_message_id_are_dropped() {
    let raws = vec![
        RawHit { metadata: r#"{"id":"primary:a@x"}"#.to_string(), bodies: vec!["chunk a".to_string()], sub_idx: 0 },
        RawHit { metadata: "garbage".to_string(), bodies: Vec::new(), sub_idx: 0 },
        RawHit { metadata: r#"{"id":"primary:b@x"}"#.to_string(), bodies: vec!["b0".to_string(), "b1".to_string()], sub_idx: 1 },
    ];
    let semantic = collect_hits(Mode::Semantic, &raws, &Vec::new());
    assert_eq!(semantic.len(), 2);
    assert_eq!(semantic[0].row, 0);
    assert_eq!(semantic[0].message_id.as_str(), "primary:a@x");
    assert_eq!(semantic[0].semantic_snippet.as_deref(), Some("chunk a"));
    assert_eq!(semantic[1].row, 2);
    assert_eq!(semantic[1].semantic_snippet.as_deref(), Some("b1"));
    let hybrid = collect_hits(Mode::Hybrid, &raws, &Vec::new());
    assert_eq!(hybrid.len(), 2);
    assert!(hybrid.iter().all(|h| h.semantic_snippet.is_none()));
    let fulltext = collect_hits(Mode::FullText, &raws, &Vec::new());
    assert!(fulltext.iter().all(|h| h.semantic_snippet.is_none()));
}

#[test]
fn collected_hits_keep_to_the_account_scope() {
    let raws = vec![
        RawHit { metadata: r#"{"id":"a:1@x"}"#.to_string(), bodies: Vec::new(), sub_idx: 0 },
        RawHit { metadata: r#"{"id":"b:2@x"}"#.to_string(), bodies: Vec::new(), sub_idx: 0 },
        RawHit { metadata: r#"{"id":"ab:3@x"}"#.to_string(), bodies: Vec::new(), sub_idx: 0 },
        RawHit { metadata: r#"{"id":"a"}"#.to_string(), bodies: Vec::new(), sub_idx: 0 },
    ];
    let scoped = collect_hits(Mode::FullText, &raws, &vec!["a".to_string()]);
    let ids: Vec<&str> = scoped.iter().map(|h| h.message_id.as_str()).collect();
    assert_eq!(ids, vec!["a:1@x", "a"]);
    assert_eq!(scoped[0].row, 0);
    assert_eq!(scoped[1].row, 3);
    let all = collect_hits(Mode::FullText, &raws, &Vec::new());
    assert_eq!(all.len(), 4);
    let two = collect_hits(Mode::FullText, &raws, &vec!["b".to_string(), "ab".to_string()]);
    let ids: Vec<&str> = two.iter().map(|h| h.message_id.as_str()).collect();
    assert_eq!(ids, vec!["b:2@x", "ab:3@x"]);
}

#[test]
fn metadata_escapes_like_json() {
    let id = "p:\"q\"\\\n\t\u{1}\u{1f}é\u{8}\u{c}\r/";
    let m = metadata_for(&MessageId::new(id.to_string()));
    let expected = format!("{{\"id\":{}}}", serde_json::to_string(id).unwrap());
    assert_eq!(m, expected);
    assert_eq!(m, "{\"id\":\"p:\\\"q\\\"\\\\\\n\\t\\u0001\\u001fé\\b\\f\\r/\"}");
    assert_eq!(parse_metadata_id(&m).as_deref(), Some(id));
}
