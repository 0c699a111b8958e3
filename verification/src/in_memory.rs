//! An in-memory indexer: documents kept in submission order, searched by
//! case-insensitive substring counting.
//!
//! Not a search engine: it lets the drainer and the search path run without
//! the model-backed index.  A re-submitted message replaces its earlier
//! document.  A search scores each document by the number of
//! (non-overlapping) occurrences of the query's lower-cased terms in its
//! lower-cased text, keeps the documents that score (every document for an
//! empty query, scoring 1), orders them by score, highest first, documents
//! with equal scores in submission order, and returns at most `k`.

use vstd::prelude::*;

use crate::search::{id_in_scope, in_scope, scope_view, IndexSubmit, MessageId, SearchQuery};
use crate::text::{chars_of, split_whitespace_chars, split_ws_spec, string_from_chars};

verus! {

/// Unicode lower-casing of some text.
pub uninterp spec fn lowercase_of(s: Seq<char>) -> Seq<char>;

/// `str::to_lowercase`: the Unicode lower-case mapping of the text.
#[verifier::external_body]
pub(crate) fn to_lowercase(s: &str) -> (r: String)
    ensures
        r@ == lowercase_of(s@),
{
    s.to_lowercase()
}

/// Documents kept by an [`InMemoryIndexer`], in submission order.
pub struct InMemoryIndexer {
    docs: Vec<(MessageId, String)>,
}

pub open spec fn doc_view(d: (MessageId, String)) -> (Seq<char>, Seq<char>) {
    (d.0.0@, d.1@)
}

pub open spec fn without_id(docs: Seq<(Seq<char>, Seq<char>)>, id: Seq<char>) -> Seq<(Seq<char>, Seq<char>)> {
    docs.filter(|d: (Seq<char>, Seq<char>)| d.0 != id)
}

/// Non-overlapping occurrences of `p` in `t` from `i` on, leftmost first.
pub open spec fn count_from(t: Seq<char>, p: Seq<char>, i: int) -> nat
    decreases t.len() - i,
{
    if p.len() == 0 || i < 0 || i + p.len() > t.len() {
        0
    } else if t.subrange(i, i + p.len()) == p {
        1 + count_from(t, p, i + p.len())
    } else {
        count_from(t, p, i + 1)
    }
}

/// The sum of the occurrence counts of all terms in `t`.
pub open spec fn total_count(t: Seq<char>, terms: Seq<Seq<char>>) -> nat
    decreases terms.len(),
{
    if terms.len() == 0 { 0 } else { total_count(t, terms.drop_last()) + count_from(t, terms.last(), 0) }
}

/// The query's terms, lower-cased.
pub open spec fn query_terms_lower(q: Seq<char>) -> Seq<Seq<char>> {
    split_ws_spec(q).map_values(|w: Seq<char>| lowercase_of(w))
}

/// The score of one document.
pub open spec fn score_of(text: Seq<char>, terms: Seq<Seq<char>>) -> nat {
    if terms.len() == 0 { 1 } else { total_count(lowercase_of(text), terms) }
}

/// The documents that are kept, with their scores, in submission order:
/// those within the account scope that score above zero.
pub open spec fn scored_spec(docs: Seq<(Seq<char>, Seq<char>)>, terms: Seq<Seq<char>>, scope: Seq<Seq<char>>) -> Seq<(Seq<char>, nat)>
    decreases docs.len(),
{
    if docs.len() == 0 {
        Seq::empty()
    } else {
        let prev = scored_spec(docs.drop_last(), terms, scope);
        let d = docs.last();
        let s = score_of(d.1, terms);
        if in_scope(scope, d.0) && s > 0 { prev.push((d.0, s)) } else { prev }
    }
}

/// Where a hit of score `s` goes in a list sorted highest first: after
/// every hit scoring at least as much.
pub open spec fn insert_pos(sorted: Seq<(Seq<char>, nat)>, s: nat) -> int
    decreases sorted.len(),
{
    if sorted.len() == 0 || sorted[0].1 < s { 0 } else { 1 + insert_pos(sorted.drop_first(), s) }
}

/// Stable sort by score, highest first.
pub open spec fn sort_desc(hits: Seq<(Seq<char>, nat)>) -> Seq<(Seq<char>, nat)>
    decreases hits.len(),
{
    if hits.len() == 0 {
        Seq::empty()
    } else {
        let sorted = sort_desc(hits.drop_last());
        let x = hits.last();
        let p = insert_pos(sorted, x.1);
        sorted.take(p) + seq![x] + sorted.skip(p)
    }
}

/// What a search returns: ids and scores, best first, at most `k`, of the
/// documents within the account scope.
pub open spec fn search_spec(docs: Seq<(Seq<char>, Seq<char>)>, q: Seq<char>, k: int, scope: Seq<Seq<char>>) -> Seq<(Seq<char>, nat)> {
    let sorted = sort_desc(scored_spec(docs, query_terms_lower(q), scope));
    if k < sorted.len() { sorted.take(k) } else { sorted }
}

pub open spec fn hits_view(h: Seq<(MessageId, u128)>) -> Seq<(Seq<char>, nat)> {
    h.map_values(|x: (MessageId, u128)| (x.0.0@, x.1 as nat))
}

pub open spec fn words_view(ws: Seq<Vec<char>>) -> Seq<Seq<char>> {
    ws.map_values(|w: Vec<char>| w@)
}

/// Whether `p` occurs in `t` at position `i`.
fn matches_at(t: &Vec<char>, p: &Vec<char>, i: usize) -> (r: bool)
    requires
        i + p.len() <= t.len(),
    ensures
        r == (t@.subrange(i as int, i + p.len()) == p@),
{
    let mut j: usize = 0;
    while j < p.len()
        invariant
            i + p.len() <= t.len(),
            j <= p.len(),
            forall|k: int| 0 <= k < j ==> t@[i + k] == p@[k],
        decreases p.len() - j,
    {
        if t[i + j] != p[j] {
            assert(t@.subrange(i as int, i + p.len())[j as int] != p@[j as int]);
            return false;
        }
        j += 1;
    }
    assert(t@.subrange(i as int, i + p.len()) =~= p@);
    true
}

/// Non-overlapping occurrences of `p` in `t`, leftmost first.
fn count_occurrences(t: &Vec<char>, p: &Vec<char>) -> (n: u64)
    ensures
        n == count_from(t@, p@, 0),
        n <= t.len(),
{
    if p.len() == 0 || p.len() > t.len() {
        return 0;
    }
    let last = t.len() - p.len();
    let mut n: u64 = 0;
    let mut i: usize = 0;
    while i <= last
        invariant
            0 < p.len() <= t.len(),
            last == t.len() - p.len(),
            i <= t.len(),
            n <= i,
            n + count_from(t@, p@, i as int) == count_from(t@, p@, 0),
        decreases t.len() - i,
    {
        if matches_at(t, p, i) {
            n = n + 1;
            i = i + p.len();
        } else {
            i = i + 1;
        }
    }
    n
}

/// The lower-cased whitespace-separated terms of a query.
fn query_terms(q: &str) -> (terms: Vec<Vec<char>>)
    ensures
        words_view(terms@) == query_terms_lower(q@),
{
    let words = split_whitespace_chars(q);
    let mut terms: Vec<Vec<char>> = Vec::new();
    let mut i: usize = 0;
    while i < words.len()
        invariant
            i <= words.len(),
            words@.map_values(|w: Vec<char>| w@) == split_ws_spec(q@),
            terms.len() == i,
            forall|k: int| 0 <= k < i ==> #[trigger] terms@[k]@ == lowercase_of(words@[k]@),
        decreases words.len() - i,
    {
        let w = string_from_chars(words[i].as_slice());
        let lw = to_lowercase(w.as_str());
        terms.push(chars_of(lw.as_str()));
        i += 1;
    }
    proof {
        let ws = words@.map_values(|w: Vec<char>| w@);
        assert(words_view(terms@) =~= ws.map_values(|w: Seq<char>| lowercase_of(w)));
    }
    terms
}

/// The score of one document against the query's terms.
fn score_doc(text: &String, terms: &Vec<Vec<char>>) -> (s: u128)
    ensures
        s == score_of(text@, words_view(terms@)),
{
    if terms.len() == 0 {
        return 1;
    }
    let lower = to_lowercase(text.as_str());
    let lc = chars_of(lower.as_str());
    let ghost tv = words_view(terms@);
    let mut total: u128 = 0;
    let mut j: usize = 0;
    assert(tv.take(0) =~= Seq::<Seq<char>>::empty());
    while j < terms.len()
        invariant
            j <= terms.len(),
            lc@ == lowercase_of(text@),
            tv == words_view(terms@),
            total == total_count(lc@, tv.take(j as int)),
            total <= j * lc.len(),
        decreases terms.len() - j,
    {
        let c = count_occurrences(&lc, &terms[j]);
        proof {
            assert(tv.take(j + 1).drop_last() =~= tv.take(j as int));
            assert(tv.take(j + 1).last() == terms@[j as int]@);
            let jj = j as int;
            let l = lc.len() as int;
            assert(jj * l + l == (jj + 1) * l) by (nonlinear_arith);
            assert((jj + 1) * l <= 0xffff_ffff_ffff_ffffint * 0xffff_ffff_ffff_ffffint) by (nonlinear_arith)
                requires
                    0 <= jj + 1 <= 0xffff_ffff_ffff_ffffint,
                    0 <= l <= 0xffff_ffff_ffff_ffffint,
            ;
        }
        total = total + c as u128;
        j += 1;
    }
    assert(tv.take(terms.len() as int) =~= tv);
    total
}

/// Where a hit of score `s` goes: after the leading hits that score at
/// least `s`.
proof fn lemma_insert_pos(sorted: Seq<(Seq<char>, nat)>, s: nat, p: int)
    requires
        0 <= p <= sorted.len(),
        forall|j: int| 0 <= j < p ==> #[trigger] sorted[j].1 >= s,
        p == sorted.len() || sorted[p].1 < s,
    ensures
        insert_pos(sorted, s) == p,
    decreases p,
{
    if p > 0 {
        let rest = sorted.drop_first();
        assert forall|j: int| 0 <= j < p - 1 implies #[trigger] rest[j].1 >= s by {
            assert(rest[j] == sorted[j + 1]);
        }
        if p < sorted.len() {
            assert(rest[p - 1] == sorted[p]);
        }
        lemma_insert_pos(rest, s, p - 1);
    }
}

/// Stable insertion sort by score, highest first.
fn sort_by_score(hits: Vec<(MessageId, u128)>) -> (sorted: Vec<(MessageId, u128)>)
    ensures
        hits_view(sorted@) == sort_desc(hits_view(hits@)),
{
    let ghost hv = hits_view(hits@);
    let mut sorted: Vec<(MessageId, u128)> = Vec::new();
    let mut i: usize = 0;
    assert(hv.take(0) =~= Seq::<(Seq<char>, nat)>::empty());
    assert(hits_view(sorted@) =~= Seq::<(Seq<char>, nat)>::empty());
    while i < hits.len()
        invariant
            i <= hits.len(),
            hv == hits_view(hits@),
            hits_view(sorted@) == sort_desc(hv.take(i as int)),
        decreases hits.len() - i,
    {
        let s = hits[i].1;
        let mut p: usize = 0;
        while p < sorted.len() && sorted[p].1 >= s
            invariant
                p <= sorted.len(),
                forall|j: int| 0 <= j < p ==> #[trigger] sorted@[j].1 >= s,
            decreases sorted.len() - p,
        {
            p += 1;
        }
        let ghost before = hits_view(sorted@);
        proof {
            assert forall|j: int| 0 <= j < p implies #[trigger] before[j].1 >= s as nat by {
                assert(sorted@[j].1 >= s);
            }
            lemma_insert_pos(before, s as nat, p as int);
            assert(hv.take(i + 1).drop_last() =~= hv.take(i as int));
            assert(hv.take(i + 1).last() == hv[i as int]);
        }
        sorted.insert(p, (MessageId(hits[i].0.0.clone()), s));
        assert(hits_view(sorted@) =~= before.take(p as int) + seq![hv[i as int]] + before.skip(p as int));
        i += 1;
    }
    assert(hv.take(hits.len() as int) =~= hv);
    sorted
}

impl InMemoryIndexer {
    /// The documents, in submission order.
    pub closed spec fn docs_view(&self) -> Seq<(Seq<char>, Seq<char>)> {
        self.docs@.map_values(|d: (MessageId, String)| doc_view(d))
    }

    /// An empty indexer.
    pub fn new() -> (r: InMemoryIndexer)
        ensures
            r.docs_view() == Seq::<(Seq<char>, Seq<char>)>::empty(),
    {
        let r = InMemoryIndexer { docs: Vec::new() };
        assert(r.docs_view() =~= Seq::<(Seq<char>, Seq<char>)>::empty());
        r
    }

    /// The number of indexed documents.
    pub fn len(&self) -> (n: usize)
        ensures
            n == self.docs_view().len(),
    {
        self.docs.len()
    }

    pub fn is_empty(&self) -> (b: bool)
        ensures
            b == (self.docs_view().len() == 0),
    {
        self.len() == 0
    }

    fn remove_id(&mut self, id: &String)
        ensures
            final(self).docs_view() == without_id(old(self).docs_view(), id@),
    {
        let ghost old_v = self.docs_view();
        let mut kept: Vec<(MessageId, String)> = Vec::new();
        let mut i: usize = 0;
        let n = self.docs.len();
        assert(old_v.take(0) =~= Seq::<(Seq<char>, Seq<char>)>::empty());
        while i < n
            invariant
                i <= n == self.docs.len(),
                old_v == self.docs_view(),
                kept@.map_values(|d: (MessageId, String)| doc_view(d)) == without_id(old_v.take(i as int), id@),
            decreases n - i,
        {
            let ghost before = kept@.map_values(|d: (MessageId, String)| doc_view(d));
            assert(old_v.take(i + 1).drop_last() =~= old_v.take(i as int));
            assert(old_v.take(i + 1).last() == doc_view(self.docs@[i as int]));
            reveal(Seq::filter);
            if self.docs[i].0.0 != *id {
                let d = (MessageId(self.docs[i].0.0.clone()), self.docs[i].1.clone());
                kept.push(d);
                assert(kept@.map_values(|d: (MessageId, String)| doc_view(d)) =~= before.push(old_v[i as int]));
            }
            i += 1;
        }
        assert(old_v.take(n as int) =~= old_v);
        self.docs = kept;
    }

    /// Indexes a message, replacing any earlier document of the same id.
    pub fn submit(&mut self, submit: IndexSubmit)
        ensures
            final(self).docs_view() == without_id(old(self).docs_view(), submit.message_id.0@).push(
                (submit.message_id.0@, submit.document@),
            ),
    {
        self.remove_id(&submit.message_id.0);
        let ghost mid = self.docs_view();
        self.docs.push((submit.message_id, submit.document));
        assert(self.docs_view() =~= mid.push((submit.message_id.0@, submit.document@)));
    }

    /// Drops a message's document.
    pub fn remove(&mut self, id: &MessageId)
        ensures
            final(self).docs_view() == without_id(old(self).docs_view(), id.0@),
    {
        self.remove_id(&id.0);
    }

    /// The documents that score against the query's terms, with their
    /// scores, in submission order.
    fn scored(&self, terms: &Vec<Vec<char>>, scope: &Vec<String>) -> (hits: Vec<(MessageId, u128)>)
        ensures
            hits_view(hits@) == scored_spec(self.docs_view(), words_view(terms@), scope_view(scope@)),
    {
        let ghost sv = scope_view(scope@);
        let ghost tv = words_view(terms@);
        let ghost dv = self.docs_view();
        let mut hits: Vec<(MessageId, u128)> = Vec::new();
        let mut i: usize = 0;
        assert(dv.take(0) =~= Seq::<(Seq<char>, Seq<char>)>::empty());
        assert(hits_view(hits@) =~= Seq::<(Seq<char>, nat)>::empty());
        while i < self.docs.len()
            invariant
                i <= self.docs.len(),
                dv == self.docs_view(),
                tv == words_view(terms@),
                sv == scope_view(scope@),
                hits_view(hits@) == scored_spec(dv.take(i as int), tv, sv),
            decreases self.docs.len() - i,
        {
            let s = score_doc(&self.docs[i].1, terms);
            let inside = id_in_scope(scope, self.docs[i].0.0.as_str());
            proof {
                assert(dv.take(i + 1).drop_last() =~= dv.take(i as int));
                assert(dv.take(i + 1).last() == dv[i as int]);
            }
            if inside && s > 0 {
                let ghost before = hits_view(hits@);
                hits.push((MessageId(self.docs[i].0.0.clone()), s));
                assert(hits_view(hits@) =~= before.push((dv[i as int].0, s as nat)));
            }
            i += 1;
        }
        assert(dv.take(self.docs.len() as int) =~= dv);
        hits
    }

    /// Searches the documents: the ids and scores of the best `k` that
    /// score against the query, highest first, among the documents of the
    /// query's accounts (of every account when it names none).
    pub fn search(&self, query: &SearchQuery) -> (hits: Vec<(MessageId, u128)>)
        ensures
            hits_view(hits@) == search_spec(self.docs_view(), query.q@, query.k as int, scope_view(query.account_ids@)),
    {
        let terms = query_terms(query.q.as_str());
        let scored = self.scored(&terms, &query.account_ids);
        let mut sorted = sort_by_score(scored);
        let ghost all = hits_view(sorted@);
        sorted.truncate(query.k);
        assert(query.k < all.len() ==> hits_view(sorted@) =~= all.take(query.k as int));
        assert(query.k >= all.len() ==> hits_view(sorted@) =~= all);
        sorted
    }

    /// Drops every document.
    pub fn truncate(&mut self)
        ensures
            final(self).docs_view() == Seq::<(Seq<char>, Seq<char>)>::empty(),
    {
        self.docs.clear();
        assert(self.docs_view() =~= Seq::<(Seq<char>, Seq<char>)>::empty());
    }
}

} // verus!

verus! {

proof fn lemma_without_id(docs: Seq<(Seq<char>, Seq<char>)>, id: Seq<char>)
    ensures
        forall|j: int| 0 <= j < without_id(docs, id).len() ==> (#[trigger] without_id(docs, id)[j]).0 != id,
    decreases docs.len(),
{
    if docs.len() > 0 {
        lemma_without_id(docs.drop_last(), id);
    }
}

/// Scores never increase along the sequence.
pub open spec fn ranked(h: Seq<(Seq<char>, nat)>) -> bool {
    forall|i: int, j: int| 0 <= i < j < h.len() ==> #[trigger] h[i].1 >= #[trigger] h[j].1
}

proof fn lemma_insert_pos_bounds(sorted: Seq<(Seq<char>, nat)>, s: nat)
    ensures
        0 <= insert_pos(sorted, s) <= sorted.len(),
        forall|j: int| 0 <= j < insert_pos(sorted, s) ==> #[trigger] sorted[j].1 >= s,
        insert_pos(sorted, s) < sorted.len() ==> sorted[insert_pos(sorted, s)].1 < s,
    decreases sorted.len(),
{
    if sorted.len() > 0 && sorted[0].1 >= s {
        let rest = sorted.drop_first();
        lemma_insert_pos_bounds(rest, s);
        assert forall|j: int| 0 <= j < insert_pos(sorted, s) implies #[trigger] sorted[j].1 >= s by {
            if j > 0 {
                assert(sorted[j] == rest[j - 1]);
            }
        }
        if insert_pos(sorted, s) < sorted.len() {
            assert(sorted[insert_pos(sorted, s)] == rest[insert_pos(rest, s)]);
        }
    }
}

/// No two entries share an id.
pub open spec fn hit_ids_distinct(h: Seq<(Seq<char>, nat)>) -> bool {
    forall|a: int, b: int| 0 <= a < b < h.len() ==> (#[trigger] h[a]).0 != (#[trigger] h[b]).0
}

/// No two documents share an id; submissions keep it so.
pub open spec fn doc_ids_distinct(docs: Seq<(Seq<char>, Seq<char>)>) -> bool {
    forall|a: int, b: int| 0 <= a < b < docs.len() ==> (#[trigger] docs[a]).0 != (#[trigger] docs[b]).0
}

/// The last element's insertion into the sorted rest, position by position.
proof fn lemma_sort_desc_step(h: Seq<(Seq<char>, nat)>)
    requires
        h.len() > 0,
    ensures
        ({
            let sorted = sort_desc(h.drop_last());
            let p = insert_pos(sorted, h.last().1);
            let r = sort_desc(h);
            &&& 0 <= p <= sorted.len()
            &&& r.len() == sorted.len() + 1
            &&& forall|i: int| 0 <= i < p ==> #[trigger] r[i] == sorted[i]
            &&& r[p] == h.last()
            &&& forall|i: int| p < i < r.len() ==> #[trigger] r[i] == sorted[i - 1]
            &&& forall|j: int| 0 <= j < p ==> #[trigger] sorted[j].1 >= h.last().1
            &&& p < sorted.len() ==> sorted[p].1 < h.last().1
        }),
{
    let sorted = sort_desc(h.drop_last());
    let x = h.last();
    lemma_insert_pos_bounds(sorted, x.1);
    let p = insert_pos(sorted, x.1);
    let r = sort_desc(h);
    assert(r == sorted.take(p) + seq![x] + sorted.skip(p));
}

proof fn lemma_sort_desc(h: Seq<(Seq<char>, nat)>)
    ensures
        sort_desc(h).len() == h.len(),
        ranked(sort_desc(h)),
        forall|i: int| 0 <= i < h.len() ==> #[trigger] h.contains(sort_desc(h)[i]),
    decreases h.len(),
{
    if h.len() > 0 {
        let prev = h.drop_last();
        let sorted = sort_desc(prev);
        let x = h.last();
        lemma_sort_desc(prev);
        lemma_sort_desc_step(h);
        let p = insert_pos(sorted, x.1);
        let r = sort_desc(h);
        assert forall|i: int, j: int| 0 <= i < j < r.len() implies #[trigger] r[i].1 >= #[trigger] r[j].1 by {
            if j < p {
                assert(sorted[i].1 >= sorted[j].1);
            } else if j == p {
                assert(sorted[i].1 >= x.1);
            } else if i < p {
                assert(r[j] == sorted[j - 1]);
                assert(sorted[i].1 >= sorted[j - 1].1);
            } else if i == p {
                assert(r[j] == sorted[j - 1]);
                assert(sorted[p].1 >= sorted[j - 1].1 || p == j - 1);
            } else {
                assert(r[i] == sorted[i - 1]);
                assert(r[j] == sorted[j - 1]);
                assert(sorted[i - 1].1 >= sorted[j - 1].1);
            }
        }
        assert forall|i: int| 0 <= i < h.len() implies #[trigger] h.contains(r[i]) by {
            if i == p {
                assert(r[i] == h[h.len() - 1]);
            } else {
                let k = if i < p { i } else { i - 1 };
                assert(r[i] == sorted[k]);
                assert(prev.contains(sorted[k]));
                let j = choose|j: int| 0 <= j < prev.len() && prev[j] == sorted[k];
                assert(prev[j] == h[j]);
            }
        }
    }
}

/// Sorting loses no entry.
proof fn lemma_sort_desc_complete(h: Seq<(Seq<char>, nat)>)
    ensures
        forall|i: int| 0 <= i < h.len() ==> #[trigger] sort_desc(h).contains(h[i]),
    decreases h.len(),
{
    if h.len() > 0 {
        let prev = h.drop_last();
        let sorted = sort_desc(prev);
        lemma_sort_desc_complete(prev);
        lemma_sort_desc_step(h);
        let p = insert_pos(sorted, h.last().1);
        let r = sort_desc(h);
        assert forall|i: int| 0 <= i < h.len() implies #[trigger] r.contains(h[i]) by {
            if i == h.len() - 1 {
                assert(r[p] == h[i]);
            } else {
                assert(h[i] == prev[i]);
                assert(sorted.contains(prev[i]));
                let j = choose|j: int| 0 <= j < sorted.len() && sorted[j] == prev[i];
                if j < p {
                    assert(r[j] == h[i]);
                } else {
                    assert(r[j + 1] == sorted[j]);
                }
            }
        }
    }
}

/// Sorting entries of distinct ids gives entries of distinct ids.
proof fn lemma_sort_desc_distinct(h: Seq<(Seq<char>, nat)>)
    requires
        hit_ids_distinct(h),
    ensures
        hit_ids_distinct(sort_desc(h)),
    decreases h.len(),
{
    if h.len() > 0 {
        let prev = h.drop_last();
        let sorted = sort_desc(prev);
        let x = h.last();
        assert forall|a: int, b: int| 0 <= a < b < prev.len() implies (#[trigger] prev[a]).0 != (#[trigger] prev[b]).0 by {
            assert(prev[a] == h[a] && prev[b] == h[b]);
        }
        lemma_sort_desc_distinct(prev);
        lemma_sort_desc(prev);
        lemma_sort_desc_step(h);
        let p = insert_pos(sorted, x.1);
        let r = sort_desc(h);
        assert forall|m: int| 0 <= m < sorted.len() implies (#[trigger] sorted[m]).0 != x.0 by {
            assert(prev.contains(sorted[m]));
            let j = choose|j: int| 0 <= j < prev.len() && prev[j] == sorted[m];
            assert(prev[j] == h[j]);
            assert(h[j].0 != h[h.len() - 1].0);
        }
        assert forall|a: int, b: int| 0 <= a < b < r.len() implies (#[trigger] r[a]).0 != (#[trigger] r[b]).0 by {
            if a < p {
                if b < p {
                    assert(sorted[a].0 != sorted[b].0);
                } else if b == p {
                    assert(sorted[a].0 != x.0);
                } else {
                    assert(r[b] == sorted[b - 1]);
                    assert(sorted[a].0 != sorted[b - 1].0);
                }
            } else if a == p {
                assert(r[b] == sorted[b - 1]);
                assert(sorted[b - 1].0 != x.0);
            } else {
                assert(r[a] == sorted[a - 1]);
                assert(r[b] == sorted[b - 1]);
                assert(sorted[a - 1].0 != sorted[b - 1].0);
            }
        }
    }
}

proof fn lemma_scored(docs: Seq<(Seq<char>, Seq<char>)>, terms: Seq<Seq<char>>, scope: Seq<Seq<char>>)
    ensures
        scored_spec(docs, terms, scope).len() <= docs.len(),
        forall|i: int| 0 <= i < scored_spec(docs, terms, scope).len() ==> (#[trigger] scored_spec(docs, terms, scope)[i]).1 > 0
            && in_scope(scope, scored_spec(docs, terms, scope)[i].0)
            && exists|j: int| 0 <= j < docs.len() && docs[j].0 == scored_spec(docs, terms, scope)[i].0
                && score_of(docs[j].1, terms) == scored_spec(docs, terms, scope)[i].1,
        forall|j: int| 0 <= j < docs.len() && in_scope(scope, (#[trigger] docs[j]).0) && score_of(docs[j].1, terms) > 0
            ==> scored_spec(docs, terms, scope).contains((docs[j].0, score_of(docs[j].1, terms))),
        doc_ids_distinct(docs) ==> hit_ids_distinct(scored_spec(docs, terms, scope)),
    decreases docs.len(),
{
    if docs.len() > 0 {
        let prev = docs.drop_last();
        lemma_scored(prev, terms, scope);
        let r = scored_spec(docs, terms, scope);
        let pr = scored_spec(prev, terms, scope);
        let d = docs.last();
        assert forall|i: int| 0 <= i < r.len() implies (#[trigger] r[i]).1 > 0 && in_scope(scope, r[i].0)
            && exists|j: int| 0 <= j < docs.len() && docs[j].0 == r[i].0 && score_of(docs[j].1, terms) == r[i].1 by {
            if i < pr.len() {
                assert(r[i] == pr[i]);
                let j = choose|j: int| 0 <= j < prev.len() && prev[j].0 == pr[i].0 && score_of(prev[j].1, terms) == pr[i].1;
                assert(docs[j] == prev[j]);
            } else {
                assert(docs[docs.len() - 1] == docs.last());
            }
        }
        assert forall|j: int| 0 <= j < docs.len() && in_scope(scope, (#[trigger] docs[j]).0) && score_of(docs[j].1, terms) > 0
            implies r.contains((docs[j].0, score_of(docs[j].1, terms))) by {
            if j < prev.len() {
                assert(prev[j] == docs[j]);
                assert(pr.contains((prev[j].0, score_of(prev[j].1, terms))));
                let m = choose|m: int| 0 <= m < pr.len() && pr[m] == (prev[j].0, score_of(prev[j].1, terms));
                assert(r[m] == pr[m]);
            } else {
                assert(r[r.len() - 1] == (docs[j].0, score_of(docs[j].1, terms)));
            }
        }
        if doc_ids_distinct(docs) {
            assert(doc_ids_distinct(prev)) by {
                assert forall|a: int, b: int| 0 <= a < b < prev.len() implies (#[trigger] prev[a]).0 != (#[trigger] prev[b]).0 by {
                    assert(prev[a] == docs[a] && prev[b] == docs[b]);
                }
            }
            assert forall|a: int, b: int| 0 <= a < b < r.len() implies (#[trigger] r[a]).0 != (#[trigger] r[b]).0 by {
                assert(r[a] == pr[a]);
                if b < pr.len() {
                    assert(r[b] == pr[b]);
                } else {
                    let j = choose|j: int| 0 <= j < prev.len() && prev[j].0 == pr[a].0 && score_of(prev[j].1, terms) == pr[a].1;
                    assert(docs[j] == prev[j]);
                    assert(docs[j].0 != docs[docs.len() - 1].0);
                }
            }
        }
    }
}

/// A search never returns more than `k` hits; each hit is within the
/// query's account scope, scores above zero and is a document that was
/// indexed, with that document's score; and the hits come best first.
pub proof fn search_hits_are_ranked_documents(docs: Seq<(Seq<char>, Seq<char>)>, q: Seq<char>, k: int, scope: Seq<Seq<char>>)
    requires
        k >= 0,
    ensures
        search_spec(docs, q, k, scope).len() <= k,
        ranked(search_spec(docs, q, k, scope)),
        forall|i: int| 0 <= i < search_spec(docs, q, k, scope).len() ==> (#[trigger] search_spec(docs, q, k, scope)[i]).1 > 0
            && in_scope(scope, search_spec(docs, q, k, scope)[i].0)
            && exists|j: int| 0 <= j < docs.len() && docs[j].0 == search_spec(docs, q, k, scope)[i].0
                && score_of(docs[j].1, query_terms_lower(q)) == search_spec(docs, q, k, scope)[i].1,
{
    let terms = query_terms_lower(q);
    let sc = scored_spec(docs, terms, scope);
    lemma_scored(docs, terms, scope);
    lemma_sort_desc(sc);
    let sorted = sort_desc(sc);
    let r = search_spec(docs, q, k, scope);
    assert forall|i: int| 0 <= i < r.len() implies (#[trigger] r[i]).1 > 0 && in_scope(scope, r[i].0)
        && exists|j: int| 0 <= j < docs.len() && docs[j].0 == r[i].0 && score_of(docs[j].1, terms) == r[i].1 by {
        assert(r[i] == sorted[i]);
        assert(sc.contains(sorted[i]));
        let m = choose|m: int| 0 <= m < sc.len() && sc[m] == sorted[i];
        assert(sc[m].1 > 0);
    }
    assert forall|i: int, j: int| 0 <= i < j < r.len() implies #[trigger] r[i].1 >= #[trigger] r[j].1 by {
        assert(r[i] == sorted[i] && r[j] == sorted[j]);
    }
}

/// With documents of distinct ids (as an indexer holds them), a search
/// returns no id twice, and it returns the best documents: one within the
/// scope that scores above zero but is not returned means `k` hits came
/// back, the last of them scoring at least as much.
pub proof fn search_returns_the_top_documents(docs: Seq<(Seq<char>, Seq<char>)>, q: Seq<char>, k: int, scope: Seq<Seq<char>>)
    requires
        k >= 0,
        doc_ids_distinct(docs),
    ensures
        hit_ids_distinct(search_spec(docs, q, k, scope)),
        forall|j: int| 0 <= j < docs.len() && in_scope(scope, (#[trigger] docs[j]).0)
            && score_of(docs[j].1, query_terms_lower(q)) > 0
            && (forall|i: int| 0 <= i < search_spec(docs, q, k, scope).len() ==> search_spec(docs, q, k, scope)[i].0 != docs[j].0)
            ==> search_spec(docs, q, k, scope).len() == k
                && (k > 0 ==> search_spec(docs, q, k, scope)[k - 1].1 >= score_of(docs[j].1, query_terms_lower(q))),
{
    let terms = query_terms_lower(q);
    let sc = scored_spec(docs, terms, scope);
    lemma_scored(docs, terms, scope);
    lemma_sort_desc(sc);
    lemma_sort_desc_complete(sc);
    lemma_sort_desc_distinct(sc);
    let sorted = sort_desc(sc);
    let r = search_spec(docs, q, k, scope);
    assert forall|a: int, b: int| 0 <= a < b < r.len() implies (#[trigger] r[a]).0 != (#[trigger] r[b]).0 by {
        assert(r[a] == sorted[a] && r[b] == sorted[b]);
    }
    assert forall|j: int| 0 <= j < docs.len() && in_scope(scope, (#[trigger] docs[j]).0)
        && score_of(docs[j].1, terms) > 0
        && (forall|i: int| 0 <= i < r.len() ==> r[i].0 != docs[j].0)
        implies r.len() == k && (k > 0 ==> r[k - 1].1 >= score_of(docs[j].1, terms)) by {
        let e = (docs[j].0, score_of(docs[j].1, terms));
        assert(sc.contains(e));
        let m = choose|m: int| 0 <= m < sc.len() && sc[m] == e;
        assert(sc[m] == e);
        assert(sorted.contains(sc[m]));
        let n = choose|n: int| 0 <= n < sorted.len() && sorted[n] == sc[m];
        if k >= sorted.len() {
            assert(r[n] == sorted[n]);
            assert(r[n].0 == docs[j].0);
        } else {
            if n < k {
                assert(r[n] == sorted[n]);
                assert(r[n].0 == docs[j].0);
            }
            if k > 0 {
                assert(r[k - 1] == sorted[k - 1]);
                assert(sorted[k - 1].1 >= sorted[n].1);
            }
        }
    }
}

/// After a message is removed, no search returns it.
pub proof fn removed_message_is_never_found(docs: Seq<(Seq<char>, Seq<char>)>, id: Seq<char>, q: Seq<char>, k: int, scope: Seq<Seq<char>>)
    requires
        k >= 0,
    ensures
        forall|i: int| 0 <= i < search_spec(without_id(docs, id), q, k, scope).len()
            ==> (#[trigger] search_spec(without_id(docs, id), q, k, scope)[i]).0 != id,
{
    let rest = without_id(docs, id);
    search_hits_are_ranked_documents(rest, q, k, scope);
    assert forall|i: int| 0 <= i < search_spec(rest, q, k, scope).len() implies (#[trigger] search_spec(rest, q, k, scope)[i]).0
        != id by {
        let j = choose|j: int| 0 <= j < rest.len() && rest[j].0 == search_spec(rest, q, k, scope)[i].0
            && score_of(rest[j].1, query_terms_lower(q)) == search_spec(rest, q, k, scope)[i].1;
        lemma_without_id(docs, id);
    }
}

/// After a submission, the message has exactly one document: the one just
/// submitted, indexed last.
pub proof fn resubmit_replaces_document(docs: Seq<(Seq<char>, Seq<char>)>, id: Seq<char>, text: Seq<char>)
    ensures
        ({
            let after = without_id(docs, id).push((id, text));
            &&& after.last() == (id, text)
            &&& forall|j: int| 0 <= j < after.len() - 1 ==> (#[trigger] after[j]).0 != id
        }),
{
    let rest = without_id(docs, id);
    let after = rest.push((id, text));
    assert forall|j: int| 0 <= j < after.len() - 1 implies (#[trigger] after[j]).0 != id by {
        assert(after[j] == rest[j]);
        lemma_without_id(docs, id);
    }
}

} // verus!

verus! {

proof fn lemma_without_id_keeps_distinct(docs: Seq<(Seq<char>, Seq<char>)>, id: Seq<char>)
    requires
        doc_ids_distinct(docs),
    ensures
        doc_ids_distinct(without_id(docs, id)),
        forall|i: int| 0 <= i < without_id(docs, id).len() ==> #[trigger] docs.contains(without_id(docs, id)[i]),
    decreases docs.len(),
{
    reveal(Seq::filter);
    if docs.len() > 0 {
        let prev = docs.drop_last();
        assert forall|a: int, b: int| 0 <= a < b < prev.len() implies (#[trigger] prev[a]).0 != (#[trigger] prev[b]).0 by {
            assert(prev[a] == docs[a] && prev[b] == docs[b]);
        }
        lemma_without_id_keeps_distinct(prev, id);
        let pr = without_id(prev, id);
        let r = without_id(docs, id);
        assert forall|i: int| 0 <= i < r.len() implies #[trigger] docs.contains(r[i]) by {
            if i < pr.len() {
                assert(r[i] == pr[i]);
                assert(prev.contains(pr[i]));
                let j = choose|j: int| 0 <= j < prev.len() && prev[j] == pr[i];
                assert(docs[j] == prev[j]);
            } else {
                assert(r[i] == docs[docs.len() - 1]);
            }
        }
        assert forall|a: int, b: int| 0 <= a < b < r.len() implies (#[trigger] r[a]).0 != (#[trigger] r[b]).0 by {
            assert(r[a] == pr[a]);
            if b < pr.len() {
                assert(r[b] == pr[b]);
            } else {
                assert(prev.contains(pr[a]));
                let j = choose|j: int| 0 <= j < prev.len() && prev[j] == pr[a];
                assert(docs[j] == prev[j]);
                assert(docs[j].0 != docs[docs.len() - 1].0);
            }
        }
    }
}

/// Submitting and removing keep the documents' ids distinct, so an
/// indexer (which starts empty) never holds two documents of one message.
pub proof fn submissions_keep_ids_distinct(docs: Seq<(Seq<char>, Seq<char>)>, id: Seq<char>, text: Seq<char>)
    requires
        doc_ids_distinct(docs),
    ensures
        doc_ids_distinct(without_id(docs, id)),
        doc_ids_distinct(without_id(docs, id).push((id, text))),
{
    lemma_without_id_keeps_distinct(docs, id);
    lemma_without_id(docs, id);
    let rest = without_id(docs, id);
    let after = rest.push((id, text));
    assert forall|a: int, b: int| 0 <= a < b < after.len() implies (#[trigger] after[a]).0 != (#[trigger] after[b]).0 by {
        assert(after[a] == rest[a]);
        if b < rest.len() {
            assert(after[b] == rest[b]);
        }
    }
}

} // verus!

verus! {

/// `p` written `n` times in a row.
pub open spec fn repeated(p: Seq<char>, n: nat) -> Seq<char>
    decreases n,
{
    if n == 0 { Seq::empty() } else { p + repeated(p, (n - 1) as nat) }
}

proof fn lemma_count_shift(x: Seq<char>, r: Seq<char>, p: Seq<char>, i: int)
    requires
        i >= x.len(),
    ensures
        count_from(x + r, p, i) == count_from(r, p, i - x.len()),
    decreases (x + r).len() - i,
{
    let s = x + r;
    if p.len() == 0 || i + p.len() > s.len() {
    } else {
        assert(s.subrange(i, i + p.len()) =~= r.subrange(i - x.len(), i - x.len() + p.len()));
        if s.subrange(i, i + p.len()) == p {
            lemma_count_shift(x, r, p, i + p.len());
        } else {
            lemma_count_shift(x, r, p, i + 1);
        }
    }
}

proof fn lemma_total_add(t: Seq<char>, a: Seq<Seq<char>>, b: Seq<Seq<char>>)
    ensures
        total_count(t, a + b) == total_count(t, a) + total_count(t, b),
    decreases b.len(),
{
    if b.len() == 0 {
        assert(a + b =~= a);
    } else {
        lemma_total_add(t, a, b.drop_last());
        assert((a + b).drop_last() =~= a + b.drop_last());
        assert((a + b).last() == b.last());
    }
}

/// A document's score counts every occurrence: a term's count grows by one
/// for each copy of the term in front of the text, so a text holding the
/// term `n` times over scores `n`, with no cap; the scores of several terms
/// add up; and one term's score is its count of non-overlapping
/// occurrences, leftmost first.
pub proof fn score_counts_every_occurrence(
    t: Seq<char>,
    p: Seq<char>,
    rest: Seq<char>,
    n: nat,
    a: Seq<Seq<char>>,
    b: Seq<Seq<char>>,
)
    ensures
        count_from(Seq::empty(), p, 0) == 0,
        p.len() > 0 ==> count_from(p + rest, p, 0) == count_from(rest, p, 0) + 1,
        p.len() > 0 ==> count_from(repeated(p, n), p, 0) == n,
        p.len() > 0 && t.len() > 0 && !(t.len() >= p.len() && t.take(p.len() as int) == p)
            ==> count_from(t, p, 0) == count_from(t.drop_first(), p, 0),
        total_count(t, a + b) == total_count(t, a) + total_count(t, b),
        total_count(t, seq![p]) == count_from(t, p, 0),
        a.len() > 0 ==> forall|text: Seq<char>| #[trigger] score_of(text, a) == total_count(lowercase_of(text), a),
    decreases n,
{
    if p.len() > 0 {
        assert((p + rest).subrange(0, p.len() as int) =~= p);
        lemma_count_shift(p, rest, p, p.len() as int);
        if n > 0 {
            score_counts_every_occurrence(t, p, repeated(p, (n - 1) as nat), (n - 1) as nat, a, b);
        }
    }
    if p.len() > 0 && t.len() > 0 && !(t.len() >= p.len() && t.take(p.len() as int) == p) {
        let x = seq![t[0]];
        assert(x + t.drop_first() =~= t);
        lemma_count_shift(x, t.drop_first(), p, 1);
        if t.len() >= p.len() {
            assert(t.subrange(0, p.len() as int) =~= t.take(p.len() as int));
        }
    }
    lemma_total_add(t, a, b);
    assert(seq![p].drop_last() =~= Seq::<Seq<char>>::empty());
    assert(seq![p].last() == p);
    assert(total_count(t, Seq::<Seq<char>>::empty()) == 0);
    assert(total_count(t, seq![p]) == total_count(t, seq![p].drop_last()) + count_from(t, seq![p].last(), 0));
}

} // verus!
