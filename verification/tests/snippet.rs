use scryd::search::candidate_k;
use scryd::render_snippet;
use scryd::search::{K_MIN, K_MULTIPLIER};

#[test]
fn match_in_middle_is_centered_and_highlighted() {
    let body = "Lorem ipsum dolor sit amet, the invoice is attached, please review and acknowledge.";
    let snip = render_snippet(body, "invoice", 60);
    assert!(snip.contains("**invoice**"), "highlight missing: {snip}");
    assert!(snip.starts_with('…') || snip.starts_with('L'), "leading edge: {snip}");
}

#[test]
fn case_insensitive_match_preserves_original_casing() {
    let body = "Re: April Invoice attached for review";
    let snip = render_snippet(body, "invoice", 200);
    assert!(snip.contains("**Invoice**"), "{snip}");
}

#[test]
fn multiple_matches_all_get_highlighted() {
    let body = "invoice one, invoice two, INVOICE three";
    let snip = render_snippet(body, "invoice", 200);
    let occurrences = snip.matches("**").count();
    assert!(occurrences >= 6, "expected ≥6 ** markers, got {occurrences} in {snip}");
}

#[test]
fn first_occurring_term_wins_when_multiple_terms_supplied() {
    let body = "lunch with bob then invoice acme then dinner";
    let snip = render_snippet(body, "acme invoice", 30);
    assert!(snip.contains("**invoice**") || snip.contains("**acme**"));
}

#[test]
fn empty_query_returns_leading_chars() {
    let body = "the body content here continues with much more text after this point indeed";
    let snip = render_snippet(body, "", 20);
    assert!(snip.starts_with("the body content"));
    assert!(snip.ends_with('…'));
    assert!(!snip.contains("**"));
}

#[test]
fn no_match_returns_leading_chars_with_trailing_ellipsis() {
    let body = "the body content here continues with much more text after this point indeed";
    let snip = render_snippet(body, "zebra", 20);
    assert!(snip.starts_with("the body content"));
    assert!(snip.ends_with('…'));
    assert!(!snip.contains("**"));
}

#[test]
fn body_shorter_than_max_chars_passes_through_without_ellipses() {
    let body = "short body";
    let snip = render_snippet(body, "body", 200);
    assert_eq!(snip, "short **body**");
}

#[test]
fn utf8_multi_byte_body_does_not_panic_and_stays_valid_utf8() {
    let body = "café résumé 日本語 invoice más";
    let snip = render_snippet(body, "invoice", 20);
    assert!(snip.contains("**invoice**"));
    assert!(std::str::from_utf8(snip.as_bytes()).is_ok());
}

#[test]
fn highlighting_does_not_break_words_at_term_boundary() {
    let body = "the invoices are ready";
    let snip = render_snippet(body, "invoice", 200);
    assert!(snip.contains("**invoice**s"), "expected partial-word highlight: {snip}");
}

#[test]
fn k_constants_match_slice_decision_9() {
    assert_eq!(K_MIN, 200);
    assert_eq!(K_MULTIPLIER, 5);

    let limit_small: usize = 20;
    let k = std::cmp::max(limit_small * K_MULTIPLIER, K_MIN);
    assert_eq!(k, 200);

    let limit_big: usize = 50;
    let k = std::cmp::max(limit_big * K_MULTIPLIER, K_MIN);
    assert_eq!(k, 250);
}

#[test]
fn whitespace_only_query_treated_as_empty() {
    let body = "the body content here continues with much more text after this point indeed";
    let snip = render_snippet(body, "   \t\n  ", 20);
    assert!(snip.starts_with("the body content"));
    assert!(!snip.contains("**"));
}

#[test]
fn window_is_centred_exactly_on_the_match() {
    let body = "0123456789 target 0123456789";
    // match at byte 11, half window 4 → bytes [7, 15); the cut term is not highlighted
    assert_eq!(render_snippet(body, "target", 8), "…789 targ…");
}

#[test]
fn window_edges_move_out_to_character_boundaries() {
    // 'é' is two bytes; a cut inside it moves to its start / past its end.
    let body = "ééé key ééé";
    let snip = render_snippet(body, "key", 4);
    assert_eq!(snip, "…é ke…");
}

#[test]
fn first_listed_term_wins_at_a_position() {
    assert_eq!(render_snippet("abcd", "ab abc", 100), "**ab**cd");
    assert_eq!(render_snippet("abcd", "abc ab", 100), "**abc**d");
}

#[test]
fn candidate_count_follows_the_documented_formula() {
    assert_eq!(candidate_k(20), 200);
    assert_eq!(candidate_k(50), 250);
    assert_eq!(candidate_k(0), 200);
    assert_eq!(candidate_k(usize::MAX), usize::MAX);
}

#[test]
fn snippet_without_markup_is_a_piece_of_the_body() {
    let body = "alpha beta gamma delta invoice epsilon zeta invoice eta theta iota kappa";
    for (q, max) in [("invoice", 20), ("zeta beta", 30), ("nomatch", 10), ("", 15)] {
        let snip = render_snippet(body, q, max);
        let plain = snip.replace("**", "").replace('…', "");
        assert!(body.contains(&plain), "{plain:?} is not in the body");
    }
}
