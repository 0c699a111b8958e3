use scryd::in_memory::InMemoryIndexer;
use scryd::search::{IndexSubmit, MessageId, Mode, SearchQuery};
use std::str::FromStr;

fn submit(id: &str, doc: &str) -> IndexSubmit {
    IndexSubmit {
        message_id: MessageId::new(id.to_string()),
        document: doc.to_string(),
    }
}

fn query(q: &str, k: usize) -> SearchQuery {
    SearchQuery {
        q: q.to_string(),
        mode: Mode::FullText,
        k,
        account_ids: Vec::new(),
    }
}

#[test]
fn submit_then_search_returns_match() {
    let mut idx = InMemoryIndexer::new();
    idx.submit(submit("primary:a@x", "April invoice attached"));
    idx.submit(submit("primary:b@x", "lunch plans"));
    let hits = idx.search(&query("invoice", 10));
    assert_eq!(hits.len(), 1);
    assert_eq!(hits[0].0.as_str(), "primary:a@x");
}

#[test]
fn duplicate_submit_replaces_existing_document() {
    let mut idx = InMemoryIndexer::new();
    idx.submit(submit("primary:a@x", "version one"));
    idx.submit(submit("primary:a@x", "version two"));
    let hits = idx.search(&query("two", 10));
    assert_eq!(hits.len(), 1);
    assert_eq!(idx.len(), 1);
}

#[test]
fn remove_deletes_document() {
    let mut idx = InMemoryIndexer::new();
    idx.submit(submit("primary:a@x", "remove me"));
    idx.remove(&MessageId::new("primary:a@x".to_string()));
    let hits = idx.search(&query("remove", 10));
    assert!(hits.is_empty());
}

#[test]
fn truncate_clears_everything() {
    let mut idx = InMemoryIndexer::new();
    for i in 0..5 {
        idx.submit(submit(&format!("primary:m{i}@x"), "body content"));
    }
    idx.truncate();
    assert!(idx.is_empty());
}

#[test]
fn search_orders_by_term_count() {
    let mut idx = InMemoryIndexer::new();
    idx.submit(submit("primary:less@x", "invoice mentioned once"));
    idx.submit(submit("primary:more@x", "invoice invoice and another invoice"));
    let hits = idx.search(&query("invoice", 10));
    assert_eq!(hits.len(), 2);
    assert_eq!(hits[0].0.as_str(), "primary:more@x");
    assert!(hits[0].1 > hits[1].1);
}

#[test]
fn search_respects_k_limit() {
    let mut idx = InMemoryIndexer::new();
    for i in 0..10 {
        idx.submit(submit(&format!("primary:m{i}@x"), "common term"));
    }
    let hits = idx.search(&query("common", 3));
    assert_eq!(hits.len(), 3);
}

#[test]
fn mode_round_trips_through_string() {
    for m in [Mode::FullText, Mode::Semantic, Mode::Hybrid] {
        let s = m.as_str().to_string();
        assert_eq!(Mode::from_str(&s).unwrap(), m);
    }
    assert!(Mode::from_str("garbage").is_err());
}

#[test]
fn mode_default_is_fulltext() {
    assert_eq!(Mode::default(), Mode::FullText);
    assert_eq!(
        Mode::from_str("garbage").unwrap_err(),
        "unknown mode `garbage`; expected fulltext|semantic|hybrid"
    );
}

#[test]
fn search_is_case_insensitive_and_sums_terms() {
    let mut idx = InMemoryIndexer::new();
    idx.submit(submit("primary:a@x", "INVOICE for the Annual Review"));
    let hits = idx.search(&query("Invoice ANNUAL", 10));
    assert_eq!(hits.len(), 1);
    assert_eq!(hits[0].1, 2);
}

#[test]
fn search_counts_non_overlapping_occurrences() {
    let mut idx = InMemoryIndexer::new();
    idx.submit(submit("primary:a@x", "aaaaa"));
    let hits = idx.search(&query("aa", 10));
    assert_eq!(hits, vec![(MessageId::new("primary:a@x".to_string()), 2)]);
}

#[test]
fn empty_query_returns_every_document_in_submission_order() {
    let mut idx = InMemoryIndexer::new();
    idx.submit(submit("primary:c@x", "third"));
    idx.submit(submit("primary:a@x", "first"));
    idx.submit(submit("primary:b@x", "second"));
    let hits = idx.search(&query("  \t ", 10));
    let ids: Vec<&str> = hits.iter().map(|h| h.0.as_str()).collect();
    assert_eq!(ids, vec!["primary:c@x", "primary:a@x", "primary:b@x"]);
    assert!(hits.iter().all(|h| h.1 == 1));
}

#[test]
fn equal_scores_keep_submission_order() {
    let mut idx = InMemoryIndexer::new();
    idx.submit(submit("primary:one@x", "tea"));
    idx.submit(submit("primary:two@x", "tea tea"));
    idx.submit(submit("primary:three@x", "tea"));
    let hits = idx.search(&query("tea", 10));
    let ids: Vec<&str> = hits.iter().map(|h| h.0.as_str()).collect();
    assert_eq!(ids, vec!["primary:two@x", "primary:one@x", "primary:three@x"]);
}

#[test]
fn resubmitted_message_moves_to_the_end() {
    let mut idx = InMemoryIndexer::new();
    idx.submit(submit("primary:a@x", "tea"));
    idx.submit(submit("primary:b@x", "tea"));
    idx.submit(submit("primary:a@x", "tea again"));
    let hits = idx.search(&query("tea", 10));
    let ids: Vec<&str> = hits.iter().map(|h| h.0.as_str()).collect();
    assert_eq!(ids, vec!["primary:b@x", "primary:a@x"]);
    assert_eq!(idx.len(), 2);
}

#[test]
fn search_keeps_to_the_account_scope() {
    let mut idx = InMemoryIndexer::new();
    idx.submit(submit("primary:a@x", "invoice"));
    idx.submit(submit("work:b@x", "invoice invoice"));
    idx.submit(submit("primary2:c@x", "invoice"));
    let mut q = query("invoice", 10);
    q.account_ids = vec!["primary".to_string()];
    let hits = idx.search(&q);
    let ids: Vec<&str> = hits.iter().map(|h| h.0.as_str()).collect();
    assert_eq!(ids, vec!["primary:a@x"]);
    q.account_ids = vec!["work".to_string(), "primary2".to_string()];
    let hits = idx.search(&q);
    let ids: Vec<&str> = hits.iter().map(|h| h.0.as_str()).collect();
    assert_eq!(ids, vec!["work:b@x", "primary2:c@x"]);
    q.account_ids = Vec::new();
    assert_eq!(idx.search(&q).len(), 3);
}
