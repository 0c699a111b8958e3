use scryd::build_document;
use scryd::document::{
    from_display, split_for_index, MAX_SEGMENTS_PER_MESSAGE, SEGMENT_MAX_CHARS, SEGMENT_TARGET_CHARS,
    SNAP_WINDOW,
};

#[test]
fn full_set_includes_subject_name_addr_and_body() {
    let doc = build_document(Some("hello"), "alice@example.com", Some("Alice"), "body content");
    assert!(doc.starts_with("hello"));
    assert!(doc.contains("Alice <alice@example.com>"));
    assert!(doc.ends_with("body content"));
}

#[test]
fn missing_subject_omits_subject_block() {
    let doc = build_document(None, "alice@example.com", Some("Alice"), "body");
    assert!(doc.starts_with("Alice <alice@example.com>\n\nbody"));
}

#[test]
fn empty_subject_string_omits_subject_block() {
    let doc = build_document(Some("   "), "alice@example.com", None, "body");
    assert!(doc.starts_with("alice@example.com"));
}

#[test]
fn missing_name_uses_bare_address() {
    let doc = build_document(Some("subj"), "alice@example.com", None, "body");
    assert!(doc.contains("subj\n\nalice@example.com\n\nbody"));
}

#[test]
fn empty_body_still_produces_well_formed_doc() {
    let doc = build_document(Some("subj"), "a@x", Some("A"), "");
    assert_eq!(doc, "subj\n\nA <a@x>\n\n");
}

#[test]
fn subject_and_name_are_trimmed() {
    let doc = build_document(Some("  subj \t"), "a@x", Some("  Ann  "), "b");
    assert_eq!(doc, "subj\n\nAnn <a@x>\n\nb");
}

#[test]
fn blank_name_falls_back_to_address() {
    assert_eq!(from_display("a@x", Some(" \n ")), "a@x");
    assert_eq!(from_display("a@x", Some("A")), "A <a@x>");
    assert_eq!(from_display("a@x", None), "a@x");
}

#[test]
fn split_for_index_keeps_short_docs_intact() {
    let doc = "short body content";
    let segs = split_for_index(doc);
    assert_eq!(segs.len(), 1);
    assert_eq!(segs[0], doc);
}

#[test]
fn split_for_index_keeps_target_sized_docs_intact() {
    let doc: String = std::iter::repeat('x').take(SEGMENT_TARGET_CHARS).collect();
    let segs = split_for_index(&doc);
    assert_eq!(segs.len(), 1);
    assert_eq!(segs[0].chars().count(), SEGMENT_TARGET_CHARS);
}

#[test]
fn split_for_index_bounds_long_docs_under_segment_max_chars() {
    let doc: String = std::iter::repeat('x').take(38_000).collect();
    let segs = split_for_index(&doc);
    assert!(segs.len() <= MAX_SEGMENTS_PER_MESSAGE, "got {} segs", segs.len());
    let total: usize = segs.iter().map(|s| s.chars().count()).sum();
    assert!(total <= SEGMENT_MAX_CHARS, "total {total} exceeds cap");
    for seg in &segs {
        assert!(seg.chars().count() <= SEGMENT_TARGET_CHARS + SNAP_WINDOW, "segment exceeds target+window");
    }
}

#[test]
fn split_for_index_caps_total_at_segment_max_chars() {
    let doc: String = std::iter::repeat('y').take(100_000).collect();
    let segs = split_for_index(&doc);
    let total: usize = segs.iter().map(|s| s.chars().count()).sum();
    assert_eq!(total, SEGMENT_MAX_CHARS, "must truncate to cap exactly");
    assert_eq!(segs.len(), MAX_SEGMENTS_PER_MESSAGE);
}

#[test]
fn split_for_index_snaps_to_paragraph_boundaries_when_available() {
    let head: String = std::iter::repeat('a').take(SEGMENT_TARGET_CHARS - 20).collect();
    let tail: String = std::iter::repeat('b').take(SEGMENT_TARGET_CHARS).collect();
    let mid = "x".repeat(30);
    let doc = format!("{head}{mid}\n\n{tail}");

    let segs = split_for_index(&doc);
    assert!(segs.len() >= 2);
    assert!(
        segs[0].ends_with("\n\n"),
        "first segment should snap to paragraph: tail = {:?}",
        &segs[0][segs[0].len().saturating_sub(8)..]
    );
    assert!(segs[1].starts_with('b'));
}

#[test]
fn split_for_index_never_returns_empty_segments() {
    let doc: String = std::iter::repeat(' ').take(SEGMENT_MAX_CHARS + 1000).collect();
    let segs = split_for_index(&doc);
    for seg in &segs {
        assert!(!seg.is_empty(), "no empty segments");
    }
}

#[test]
fn split_for_index_handles_empty_input() {
    let segs = split_for_index("");
    assert_eq!(segs.len(), 1);
    assert!(segs[0].is_empty());
}

#[test]
fn split_for_index_handles_unicode_correctly() {
    let doc: String = std::iter::repeat('😀').take(SEGMENT_TARGET_CHARS + 1).collect();
    let segs = split_for_index(&doc);
    assert!(segs.len() >= 2);
    let rejoined: String = segs.concat();
    assert!(rejoined.chars().count() <= SEGMENT_MAX_CHARS);
}

#[test]
fn split_for_index_joins_back_to_document_prefix() {
    let mut doc = String::new();
    for i in 0..900 {
        doc.push_str(&format!("word{i} "));
        if i % 40 == 0 {
            doc.push('\n');
        }
    }
    let segs = split_for_index(&doc);
    let rejoined: String = segs.concat();
    assert!(doc.starts_with(&rejoined));
    assert!(segs.len() >= 2);
}

#[test]
fn split_prefers_line_break_then_word_boundary() {
    // A single newline near the target wins over spaces.
    let mut doc: String = "a ".repeat(1000);
    doc.push('\n');
    doc.push_str(&"b".repeat(3000));
    let segs = split_for_index(&doc);
    assert!(segs[0].ends_with('\n'), "cut after the line break");
    // No newline: the cut goes right after the last space before the target.
    let doc2 = format!("{}{}", "c ".repeat(1100), "d".repeat(3000));
    let segs2 = split_for_index(&doc2);
    assert_eq!(segs2[0].chars().count(), 2048);
    assert!(segs2[0].ends_with(' '));
}
