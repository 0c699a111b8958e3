use scryd::drainer::{
    after_submit, error_message, failure_log_category, sanitize_error, submission_for, DrainState,
    EmbedOutcome, FailureCategory, SubmitFollowUp, TickAction, TickOutcome, INDEXER_BATCH,
    INDEX_REBUILD_THRESHOLD, MAX_ATTEMPTS, MAX_EMBED_ROUNDS, MAX_ERROR_LEN,
};
use scryd::search::IndexError;

#[test]
fn collapses_newlines_and_whitespace_to_single_spaces() {
    let got = sanitize_error("embed_chunks:\n  failed   on\tdoc\r\nbody");
    assert_eq!(got, "embed_chunks: failed on doc body");
    assert!(!got.contains('\n'));
    assert!(!got.contains('\t'));
}

#[test]
fn strips_control_characters() {
    let got = sanitize_error("oops\u{0007}\u{0000}done");
    assert_eq!(got, "oopsdone");
}

#[test]
fn truncates_overlong_input_with_ellipsis() {
    let raw = "x".repeat(500);
    let got = sanitize_error(&raw);
    assert_eq!(got.chars().count(), MAX_ERROR_LEN + 1);
    assert!(got.ends_with('…'));
}

#[test]
fn leaves_short_clean_input_unchanged() {
    assert_eq!(sanitize_error("add_doc: disk full"), "add_doc: disk full");
}

#[test]
fn sanitize_drops_leading_and_trailing_whitespace() {
    assert_eq!(sanitize_error("  \n a  b \t"), "a b");
}

#[test]
fn constants_match_slice_decision_4() {
    assert_eq!(MAX_ATTEMPTS, 5);
    assert_eq!(INDEXER_BATCH, 32);
}

#[test]
fn index_rebuild_threshold_amortizes_cascade() {
    assert!(
        INDEX_REBUILD_THRESHOLD >= INDEXER_BATCH * 4,
        "threshold {INDEX_REBUILD_THRESHOLD} must span ≥4 drainer batches \
         to amortize the cluster cascade"
    );
    assert!(
        INDEX_REBUILD_THRESHOLD <= 1024,
        "threshold {INDEX_REBUILD_THRESHOLD} too high — backfill would never \
         trigger the threshold path before going idle"
    );
}

#[test]
fn idle_tick_flushes_index_only_after_embed_work() {
    let s = DrainState::new();
    let (s, a) = s.on_tick(TickOutcome::Drained(0));
    assert_eq!(a, TickAction::Idle { flush_index_first: false });
    let (s, a) = s.on_tick(TickOutcome::Drained(3));
    assert_eq!(a, TickAction::Embed);
    let (s, more) = s.on_embed_round(0, EmbedOutcome::Embedded(3));
    assert!(more);
    let (s, more) = s.on_embed_round(1, EmbedOutcome::Embedded(0));
    assert!(!more);
    assert_eq!(s.embeds_since_last_index, 3);
    let (s, flush) = s.after_embed_rounds();
    assert!(!flush);
    let (s, a) = s.on_tick(TickOutcome::Drained(0));
    assert_eq!(a, TickAction::Idle { flush_index_first: true });
    assert_eq!(s.embeds_since_last_index, 0);
    let (_, a) = s.on_tick(TickOutcome::QueueReadFailed);
    assert_eq!(a, TickAction::BackOff);
}

#[test]
fn threshold_forces_flush_and_rounds_are_bounded() {
    let s = DrainState { embeds_since_last_index: INDEX_REBUILD_THRESHOLD - 1 };
    let (s, more) = s.on_embed_round(MAX_EMBED_ROUNDS - 1, EmbedOutcome::Embedded(1));
    assert!(!more, "the last round does not ask for another");
    let (s, flush) = s.after_embed_rounds();
    assert!(flush);
    assert_eq!(s.embeds_since_last_index, 0);
    let (s2, more) = s.on_embed_round(0, EmbedOutcome::Failed);
    assert!(!more);
    assert_eq!(s2, s);
}

#[test]
fn failed_submit_records_sanitized_error() {
    let err = IndexError::Upstream("bad\nthing".to_string());
    assert_eq!(error_message(&err), "upstream witchcraft error: bad\nthing");
    match after_submit(&Err(err)) {
        SubmitFollowUp::RecordFailure { error, max_attempts } => {
            assert_eq!(error, "upstream witchcraft error: bad thing");
            assert_eq!(max_attempts, MAX_ATTEMPTS);
        }
        other => panic!("unexpected {other:?}"),
    }
    assert!(matches!(after_submit(&Ok(())), SubmitFollowUp::DeleteQueueRow));
    let io = IndexError::Io("disk".to_string());
    assert_eq!(error_message(&io), "io: disk");
    assert_eq!(
        failure_log_category(true, &io),
        Some(FailureCategory::SingleMessageFullTextIndexerFailure)
    );
    assert_eq!(failure_log_category(false, &io), None);
    assert_eq!(
        FailureCategory::SingleMessageFullTextIndexerFailure.as_str(),
        "single-message full-text indexer failure"
    );
}

#[test]
fn submission_carries_the_built_document() {
    let s = submission_for("primary:a@x", Some("hi"), "alice@example.com", Some("Alice"), "hello");
    assert_eq!(s.message_id.as_str(), "primary:a@x");
    assert_eq!(s.document, "hi\n\nAlice <alice@example.com>\n\nhello");
}

#[test]
fn sanitizing_twice_changes_nothing() {
    let long = "x ".repeat(300);
    for raw in ["  a\t\tb \u{7} c\n", "add_doc: disk full", long.as_str(), ""] {
        let once = sanitize_error(raw);
        assert_eq!(sanitize_error(&once), once);
        assert!(!once.starts_with(' ') && !once.ends_with(' '));
        assert!(!once.contains("  "));
    }
    let cut = sanitize_error(&long);
    assert_eq!(cut.chars().count(), 201);
    assert!(cut.ends_with('…'));
}
