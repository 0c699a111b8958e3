//! Snippets for full-text and hybrid search responses.
//!
//! The snippet centres roughly `max_chars` bytes of the body on the first
//! occurrence of any whitespace-separated query term (ASCII
//! case-insensitive), marks each non-start / non-end edge with `…`, and
//! wraps every occurring term in `**…**`.  Without an occurrence it is the
//! leading `max_chars` bytes of the body.  Every cut falls on a character
//! boundary, so the result is always valid UTF-8.

use vstd::prelude::*;
use vstd::slice::slice_to_vec;
use vstd::string::StringSliceAdditionalSpecFns;
use vstd::utf8::*;

use crate::text::{push_bytes, split_whitespace_chars, split_ws_spec, string_from_chars, string_from_utf8};

verus! {

pub open spec fn ascii_lower(b: u8) -> u8 {
    if 65 <= b && b <= 90 { (b + 32) as u8 } else { b }
}

/// Byte-wise equality after ASCII lower-casing (`eq_ignore_ascii_case`).
pub open spec fn eq_ignore_ascii_case(a: Seq<u8>, b: Seq<u8>) -> bool {
    &&& a.len() == b.len()
    &&& forall|k: int| 0 <= k < a.len() ==> #[trigger] ascii_lower(a[k]) == ascii_lower(b[k])
}

/// The non-empty term `t` occurs at byte `i` of `s`, between character
/// boundaries.
pub open spec fn term_matches_at(s: Seq<u8>, t: Seq<u8>, i: int) -> bool {
    &&& t.len() > 0
    &&& 0 <= i
    &&& i + t.len() <= s.len()
    &&& is_char_boundary(s, i)
    &&& is_char_boundary(s, i + t.len())
    &&& eq_ignore_ascii_case(s.subrange(i, i + t.len()), t)
}

pub open spec fn any_term_at(s: Seq<u8>, terms: Seq<Seq<u8>>, i: int) -> bool {
    exists|k: int| 0 <= k < terms.len() && #[trigger] term_matches_at(s, terms[k], i)
}

/// `p` is the earliest byte at which any term occurs.
pub open spec fn is_first_match(s: Seq<u8>, terms: Seq<Seq<u8>>, p: int) -> bool {
    &&& any_term_at(s, terms, p)
    &&& forall|j: int| 0 <= j < p ==> !any_term_at(s, terms, j)
}

pub open spec fn first_match_spec(s: Seq<u8>, terms: Seq<Seq<u8>>) -> Option<int> {
    if exists|p: int| is_first_match(s, terms, p) {
        Some(choose|p: int| is_first_match(s, terms, p))
    } else {
        None
    }
}

/// The last character boundary at or before `x`.
pub open spec fn floor_bd(s: Seq<u8>, x: int) -> int
    decreases x,
{
    if x <= 0 {
        0
    } else if is_char_boundary(s, x) {
        x
    } else {
        floor_bd(s, x - 1)
    }
}

/// The first character boundary at or after `x` (the end at the latest).
pub open spec fn ceil_bd(s: Seq<u8>, x: int) -> int
    decreases s.len() - x,
{
    if x >= s.len() {
        x
    } else if is_char_boundary(s, x) {
        x
    } else {
        ceil_bd(s, x + 1)
    }
}

/// The byte window `[start, end)` of the body that the snippet shows.
pub open spec fn window_spec(b: Seq<u8>, first: Option<int>, max: int) -> (int, int) {
    match first {
        Some(pos) => {
            let half = max / 2;
            let s0 = if pos >= half { pos - half } else { 0 };
            let e0 = if pos + half <= b.len() { pos + half } else { b.len() as int };
            (floor_bd(b, s0), ceil_bd(b, e0))
        },
        None => (0, ceil_bd(b, if max <= b.len() { max } else { b.len() as int })),
    }
}

/// Length of the first term (in query order, from `k` on) occurring at `i`,
/// or 0.
pub open spec fn match_len_from(s: Seq<u8>, terms: Seq<Seq<u8>>, i: int, k: int) -> int
    decreases terms.len() - k,
{
    if k < 0 || k >= terms.len() {
        0
    } else if term_matches_at(s, terms[k], i) {
        terms[k].len() as int
    } else {
        match_len_from(s, terms, i, k + 1)
    }
}

pub open spec fn stars() -> Seq<u8> {
    encode_utf8(seq!['*', '*'])
}

pub open spec fn ellipsis() -> Seq<u8> {
    encode_utf8(seq!['\u{2026}'])
}

/// `s[i..]` with every term occurrence wrapped in `**…**`, scanning left to
/// right and taking, at each position, the first query term that occurs.
pub open spec fn highlight_spec(s: Seq<u8>, terms: Seq<Seq<u8>>, i: int) -> Seq<u8>
    decreases s.len() - i,
{
    if 0 <= i < s.len() {
        let m = match_len_from(s, terms, i, 0);
        if 0 < m && i + m <= s.len() {
            stars() + s.subrange(i, i + m) + stars() + highlight_spec(s, terms, i + m)
        } else {
            let n = ceil_bd(s, i + 1);
            if i < n <= s.len() {
                s.subrange(i, n) + highlight_spec(s, terms, n)
            } else {
                Seq::empty()
            }
        }
    } else {
        Seq::empty()
    }
}

/// The query's terms as UTF-8 bytes.
pub open spec fn query_terms_spec(q: Seq<char>) -> Seq<Seq<u8>> {
    split_ws_spec(q).map_values(|w: Seq<char>| encode_utf8(w))
}

/// The UTF-8 bytes of the snippet of body bytes `b`.
pub open spec fn render_bytes(b: Seq<u8>, terms: Seq<Seq<u8>>, max: int) -> Seq<u8> {
    let first = if terms.len() == 0 { None } else { first_match_spec(b, terms) };
    let w = window_spec(b, first, max);
    let mid = if terms.len() == 0 {
        b.subrange(w.0, w.1)
    } else {
        highlight_spec(b.subrange(w.0, w.1), terms, 0)
    };
    (if w.0 > 0 { ellipsis() } else { Seq::empty() }) + mid + (if w.1 < b.len() { ellipsis() } else { Seq::empty() })
}

pub open spec fn term_bytes(terms: Seq<Vec<u8>>) -> Seq<Seq<u8>> {
    terms.map_values(|t: Vec<u8>| t@)
}

// ---------------------------------------------------------------- lemmas

proof fn lemma_encode_nonempty(s: Seq<char>)
    requires
        s.len() > 0,
    ensures
        encode_utf8(s).len() > 0,
{
    assert(encode_scalar(s[0] as u32).len() > 0);
}

proof fn lemma_floor_bd(s: Seq<u8>, x: int)
    requires
        valid_utf8(s),
        0 <= x <= s.len(),
    ensures
        0 <= floor_bd(s, x) <= x,
        is_char_boundary(s, floor_bd(s, x)),
        forall|j: int| floor_bd(s, x) < j <= x ==> !#[trigger] is_char_boundary(s, j),
    decreases x,
{
    if x > 0 && !is_char_boundary(s, x) {
        lemma_floor_bd(s, x - 1);
    }
}

proof fn lemma_ceil_bd(s: Seq<u8>, x: int)
    requires
        valid_utf8(s),
        0 <= x <= s.len(),
    ensures
        x <= ceil_bd(s, x) <= s.len(),
        is_char_boundary(s, ceil_bd(s, x)),
        forall|j: int| x <= j < ceil_bd(s, x) ==> !#[trigger] is_char_boundary(s, j),
    decreases s.len() - x,
{
    if x >= s.len() {
        is_char_boundary_start_end_of_seq(s);
    } else if !is_char_boundary(s, x) {
        lemma_ceil_bd(s, x + 1);
    }
}

/// Between two character boundaries of valid UTF-8 lies valid UTF-8, whose
/// boundaries are those of the whole, shifted.
proof fn lemma_sub_boundary(b: Seq<u8>, lo: int, hi: int)
    requires
        valid_utf8(b),
        0 <= lo <= hi <= b.len(),
        is_char_boundary(b, lo),
        is_char_boundary(b, hi),
    ensures
        valid_utf8(b.subrange(lo, hi)),
        forall|j: int| 0 <= j <= hi - lo ==> (#[trigger] is_char_boundary(b.subrange(lo, hi), j) <==> is_char_boundary(b, lo + j)),
{
    valid_utf8_split(b, hi);
    let p = b.subrange(0, hi);
    if lo < hi {
        is_char_boundary_iff_not_is_continuation_byte(b, lo);
        is_char_boundary_iff_not_is_continuation_byte(p, lo);
    } else {
        is_char_boundary_start_end_of_seq(p);
    }
    valid_utf8_split(p, lo);
    let sub = b.subrange(lo, hi);
    assert(p.subrange(lo, p.len() as int) =~= sub);
    is_char_boundary_start_end_of_seq(sub);
    assert forall|j: int| 0 <= j <= hi - lo implies (#[trigger] is_char_boundary(sub, j) <==> is_char_boundary(b, lo + j)) by {
        if 0 < j < hi - lo {
            is_char_boundary_iff_not_is_continuation_byte(sub, j);
            is_char_boundary_iff_not_is_continuation_byte(b, lo + j);
        }
    }
}

proof fn lemma_match_len(s: Seq<u8>, terms: Seq<Seq<u8>>, i: int, k: int)
    requires
        match_len_from(s, terms, i, k) > 0,
    ensures
        exists|k2: int| 0 <= k2 < terms.len() && #[trigger] term_matches_at(s, terms[k2], i)
            && terms[k2].len() == match_len_from(s, terms, i, k),
    decreases terms.len() - k,
{
    if k >= 0 && k < terms.len() && !term_matches_at(s, terms[k], i) {
        lemma_match_len(s, terms, i, k + 1);
    } else {
        assert(term_matches_at(s, terms[k], i));
    }
}

proof fn lemma_literals_valid()
    ensures
        valid_utf8(stars()),
        valid_utf8(ellipsis()),
{
    encode_utf8_valid_utf8(seq!['*', '*']);
    encode_utf8_valid_utf8(seq!['\u{2026}']);
}

proof fn lemma_highlight_valid(s: Seq<u8>, terms: Seq<Seq<u8>>, i: int)
    requires
        valid_utf8(s),
        0 <= i <= s.len(),
        is_char_boundary(s, i),
    ensures
        valid_utf8(highlight_spec(s, terms, i)),
    decreases s.len() - i,
{
    lemma_literals_valid();
    if i < s.len() {
        let m = match_len_from(s, terms, i, 0);
        if 0 < m && i + m <= s.len() {
            lemma_match_len(s, terms, i, 0);
            lemma_sub_boundary(s, i, i + m);
            lemma_highlight_valid(s, terms, i + m);
            let rest = highlight_spec(s, terms, i + m);
            valid_utf8_concat(stars(), s.subrange(i, i + m));
            valid_utf8_concat(stars() + s.subrange(i, i + m), stars());
            valid_utf8_concat(stars() + s.subrange(i, i + m) + stars(), rest);
        } else {
            lemma_ceil_bd(s, i + 1);
            let n = ceil_bd(s, i + 1);
            lemma_sub_boundary(s, i, n);
            lemma_highlight_valid(s, terms, n);
            valid_utf8_concat(s.subrange(i, n), highlight_spec(s, terms, n));
        }
    }
}

// ---------------------------------------------------------------- exec

fn ascii_lower_byte(b: u8) -> (r: u8)
    ensures
        r == ascii_lower(b),
{
    if 65 <= b && b <= 90 { b + 32 } else { b }
}

/// The query's whitespace-separated terms, as UTF-8 bytes.
fn query_terms(q: &str) -> (terms: Vec<Vec<u8>>)
    ensures
        term_bytes(terms@) == query_terms_spec(q@),
{
    let words = split_whitespace_chars(q);
    let ghost ws = words@.map_values(|w: Vec<char>| w@);
    let mut terms: Vec<Vec<u8>> = Vec::new();
    let mut k: usize = 0;
    while k < words.len()
        invariant
            k <= words.len(),
            ws == words@.map_values(|w: Vec<char>| w@),
            ws == split_ws_spec(q@),
            term_bytes(terms@) == ws.take(k as int).map_values(|w: Seq<char>| encode_utf8(w)),
        decreases words.len() - k,
    {
        let w = string_from_chars(words[k].as_slice());
        let bytes = w.as_str().as_bytes();
        let ghost before = term_bytes(terms@);
        let tv = slice_to_vec(bytes);
        let ghost tvv = tv@;
        assert(ws[k as int] == words[k as int]@);
        assert(tv@ == encode_utf8(ws[k as int]));
        terms.push(tv);
        assert(term_bytes(terms@) =~= before.push(tvv));
        assert(ws.take(k + 1) =~= ws.take(k as int).push(ws[k as int]));
        assert(ws.take(k + 1).map_values(|w: Seq<char>| encode_utf8(w)) =~= ws.take(k as int).map_values(|w: Seq<char>| encode_utf8(w)).push(encode_utf8(ws[k as int])));
        assert(term_bytes(terms@) =~= ws.take(k + 1).map_values(|w: Seq<char>| encode_utf8(w)));
        k += 1;
    }
    assert(ws.take(words.len() as int) =~= ws);
    terms
}

/// Whether term `t` occurs at byte `i` of `s`.
fn term_at(s: &str, sb: &[u8], t: &Vec<u8>, i: usize) -> (r: bool)
    requires
        sb@ == s.spec_bytes(),
    ensures
        r == term_matches_at(sb@, t@, i as int),
{
    let tl = t.len();
    if tl == 0 || tl > sb.len() || i > sb.len() - tl {
        return false;
    }
    if !s.is_char_boundary(i) || !s.is_char_boundary(i + tl) {
        return false;
    }
    let mut k: usize = 0;
    while k < tl
        invariant
            k <= tl == t@.len(),
            i + tl <= sb.len(),
            sb.len() == sb@.len(),
            forall|j: int| 0 <= j < k ==> #[trigger] ascii_lower(sb@[i + j]) == ascii_lower(t@[j]),
        decreases tl - k,
    {
        if ascii_lower_byte(sb[i + k]) != ascii_lower_byte(t[k]) {
            assert(ascii_lower(sb@.subrange(i as int, i + tl)[k as int]) != ascii_lower(t@[k as int]));
            return false;
        }
        k += 1;
    }
    assert forall|j: int| 0 <= j < tl implies #[trigger] ascii_lower(sb@.subrange(i as int, i + tl)[j]) == ascii_lower(t@[j]) by {
        assert(sb@.subrange(i as int, i + tl)[j] == sb@[i + j]);
    }
    true
}

/// The first byte at which term `t` occurs.
fn first_occurrence(s: &str, sb: &[u8], t: &Vec<u8>) -> (r: Option<usize>)
    requires
        sb@ == s.spec_bytes(),
    ensures
        match r {
            Some(i) => term_matches_at(sb@, t@, i as int)
                && forall|j: int| 0 <= j < i ==> !#[trigger] term_matches_at(sb@, t@, j),
            None => forall|j: int| !#[trigger] term_matches_at(sb@, t@, j),
        },
{
    let tl = t.len();
    if tl == 0 || tl > sb.len() {
        return None;
    }
    let mut i: usize = 0;
    while i <= sb.len() - tl
        invariant
            0 < tl <= sb.len(),
            tl == t@.len(),
            sb.len() == sb@.len(),
            sb@ == s.spec_bytes(),
            forall|j: int| 0 <= j < i ==> !#[trigger] term_matches_at(sb@, t@, j),
        decreases sb.len() - i,
    {
        if term_at(s, sb, t, i) {
            return Some(i);
        }
        i += 1;
    }
    None
}

/// The earliest byte at which any term occurs.
fn find_first_match(s: &str, terms: &Vec<Vec<u8>>) -> (r: Option<usize>)
    ensures
        match r {
            Some(p) => is_first_match(s.spec_bytes(), term_bytes(terms@), p as int),
            None => forall|j: int| !#[trigger] any_term_at(s.spec_bytes(), term_bytes(terms@), j),
        },
{
    let sb = s.as_bytes();
    let ghost ts = term_bytes(terms@);
    let ghost b = sb@;
    let mut earliest: Option<usize> = None;
    let mut k: usize = 0;
    while k < terms.len()
        invariant
            k <= terms.len(),
            b == sb@,
            b == s.spec_bytes(),
            ts == term_bytes(terms@),
            match earliest {
                Some(p) => {
                    &&& exists|k2: int| 0 <= k2 < k && #[trigger] term_matches_at(b, ts[k2], p as int)
                    &&& forall|k2: int, j: int| 0 <= k2 < k && 0 <= j < p ==> !#[trigger] term_matches_at(b, ts[k2], j)
                },
                None => forall|k2: int, j: int| 0 <= k2 < k ==> !#[trigger] term_matches_at(b, ts[k2], j),
            },
        decreases terms.len() - k,
    {
        let tl = terms[k].len();
        assert(ts[k as int] == terms[k as int]@);
        let found = first_occurrence(s, sb, &terms[k]);
        let ghost old_e = earliest;
        if let Some(i) = found {
            earliest = match earliest {
                None => Some(i),
                Some(e) => if i < e { Some(i) } else { Some(e) },
            };
        }
        proof {
            match earliest {
                Some(p) => {
                    assert forall|k2: int, j: int| 0 <= k2 < k + 1 && 0 <= j < p implies !#[trigger] term_matches_at(b, ts[k2], j) by {
                        if k2 < k {
                            if let Some(op) = old_e {
                                assert(j < op);
                            }
                        }
                    }
                    if let Some(op) = old_e {
                        if p == op {
                            let k3 = choose|k2: int| 0 <= k2 < k && #[trigger] term_matches_at(b, ts[k2], op as int);
                            assert(0 <= k3 < k + 1 && term_matches_at(b, ts[k3], p as int));
                        } else {
                            assert(term_matches_at(b, ts[k as int], p as int));
                        }
                    } else {
                        assert(term_matches_at(b, ts[k as int], p as int));
                    }
                },
                None => {
                    assert forall|k2: int, j: int| 0 <= k2 < k + 1 implies !#[trigger] term_matches_at(b, ts[k2], j) by {
                        if k2 == k {
                            if tl == 0 || tl > sb.len() {
                            }
                        }
                    }
                },
            }
        }
        k += 1;
    }
    proof {
        match earliest {
            Some(p) => {
                let k3 = choose|k2: int| 0 <= k2 < terms.len() && #[trigger] term_matches_at(b, ts[k2], p as int);
                assert(any_term_at(b, ts, p as int));
                assert forall|j: int| 0 <= j < p implies !any_term_at(b, ts, j) by {
                    if any_term_at(b, ts, j) {
                        let k4 = choose|k2: int| 0 <= k2 < ts.len() && #[trigger] term_matches_at(b, ts[k2], j);
                        assert(!term_matches_at(b, ts[k4], j));
                    }
                }
            },
            None => {
                assert forall|j: int| !#[trigger] any_term_at(b, ts, j) by {
                    if any_term_at(b, ts, j) {
                        let k4 = choose|k2: int| 0 <= k2 < ts.len() && #[trigger] term_matches_at(b, ts[k2], j);
                        assert(!term_matches_at(b, ts[k4], j));
                    }
                }
            },
        }
    }
    earliest
}

proof fn lemma_first_match_is_spec(s: Seq<u8>, terms: Seq<Seq<u8>>, p: int)
    requires
        is_first_match(s, terms, p),
    ensures
        first_match_spec(s, terms) == Some(p),
{
    let c = choose|q: int| is_first_match(s, terms, q);
    assert(is_first_match(s, terms, c));
    if c < p {
        assert(!any_term_at(s, terms, c));
    } else if p < c {
        assert(!any_term_at(s, terms, p));
    }
}

proof fn lemma_no_match_is_spec(s: Seq<u8>, terms: Seq<Seq<u8>>)
    requires
        forall|j: int| !#[trigger] any_term_at(s, terms, j),
    ensures
        first_match_spec(s, terms) == None::<int>,
{
    if exists|p: int| is_first_match(s, terms, p) {
        let c = choose|q: int| is_first_match(s, terms, q);
        assert(any_term_at(s, terms, c));
    }
}

/// Moves `x` back to the closest character boundary.
fn floor_boundary(s: &str, x: usize) -> (r: usize)
    requires
        x <= s.spec_bytes().len(),
    ensures
        r == floor_bd(s.spec_bytes(), x as int),
{
    let mut st = x;
    while st > 0 && !s.is_char_boundary(st)
        invariant
            st <= x,
            floor_bd(s.spec_bytes(), st as int) == floor_bd(s.spec_bytes(), x as int),
        decreases st,
    {
        st -= 1;
    }
    st
}

/// Moves `x` forward to the closest character boundary.
fn ceil_boundary(s: &str, x: usize) -> (r: usize)
    requires
        x <= s.spec_bytes().len(),
    ensures
        r == ceil_bd(s.spec_bytes(), x as int),
{
    let len = s.as_bytes().len();
    let mut en = x;
    while en < len && !s.is_char_boundary(en)
        invariant
            x <= en <= len,
            len == s.spec_bytes().len(),
            ceil_bd(s.spec_bytes(), en as int) == ceil_bd(s.spec_bytes(), x as int),
        decreases len - en,
    {
        en += 1;
    }
    en
}

/// The window centred on the match at `pos`.
fn window_around(s: &str, pos: usize, max_chars: usize) -> (r: (usize, usize))
    requires
        pos <= s.spec_bytes().len(),
    ensures
        (r.0 as int, r.1 as int) == window_spec(s.spec_bytes(), Some(pos as int), max_chars as int),
{
    let len = s.as_bytes().len();
    let half = max_chars / 2;
    let st = if pos >= half { pos - half } else { 0 };
    let en = if half <= len - pos { pos + half } else { len };
    (floor_boundary(s, st), ceil_boundary(s, en))
}

/// The window at the start of the body.
fn leading_window(s: &str, max_chars: usize) -> (r: (usize, usize))
    ensures
        (r.0 as int, r.1 as int) == window_spec(s.spec_bytes(), None, max_chars as int),
{
    let len = s.as_bytes().len();
    let en = if max_chars <= len { max_chars } else { len };
    (0, ceil_boundary(s, en))
}

/// Length of the first query term occurring at byte `i`, or 0.
fn first_match_len(s: &str, sb: &[u8], terms: &Vec<Vec<u8>>, i: usize) -> (m: usize)
    requires
        sb@ == s.spec_bytes(),
    ensures
        m == match_len_from(sb@, term_bytes(terms@), i as int, 0),
{
    let ghost ts = term_bytes(terms@);
    let mut k: usize = 0;
    while k < terms.len()
        invariant
            k <= terms.len(),
            ts == term_bytes(terms@),
            sb@ == s.spec_bytes(),
            match_len_from(sb@, ts, i as int, 0) == match_len_from(sb@, ts, i as int, k as int),
        decreases terms.len() - k,
    {
        assert(ts[k as int] == terms[k as int]@);
        if term_at(s, sb, &terms[k], i) {
            return terms[k].len();
        }
        k += 1;
    }
    0
}

/// Appends `raw` with every term occurrence wrapped in `**…**`.
fn push_highlighted(out: &mut Vec<u8>, raw: &str, terms: &Vec<Vec<u8>>)
    ensures
        final(out)@ == old(out)@ + highlight_spec(raw.spec_bytes(), term_bytes(terms@), 0),
{
    let rb = raw.as_bytes();
    let ghost s = rb@;
    let ghost ts = term_bytes(terms@);
    let len = rb.len();
    let st = "**".as_bytes();
    proof {
        reveal_strlit("**");
        assert("**"@ =~= seq!['*', '*']);
    }
    let mut i: usize = 0;
    proof {
        encode_utf8_valid_utf8(raw@);
        is_char_boundary_start_end_of_seq(s);
    }
    while i < len
        invariant
            i <= len == s.len(),
            s == rb@,
            s == raw.spec_bytes(),
            valid_utf8(s),
            st@ == stars(),
            ts == term_bytes(terms@),
            old(out)@ + highlight_spec(s, ts, 0) == out@ + highlight_spec(s, ts, i as int),
        decreases len - i,
    {
        let ghost before = out@;
        let m = first_match_len(raw, rb, terms, i);
        if m > 0 {
            proof {
                lemma_match_len(s, ts, i as int, 0);
            }
            push_bytes(out, st, 0, st.len());
            push_bytes(out, rb, i, i + m);
            push_bytes(out, st, 0, st.len());
            assert(st@.subrange(0, st@.len() as int) =~= st@);
            assert(out@ =~= before + (stars() + s.subrange(i as int, i + m) + stars()));
            assert(out@ + highlight_spec(s, ts, i + m) =~= before + highlight_spec(s, ts, i as int));
            i += m;
        } else {
            let next = ceil_boundary(raw, i + 1);
            proof {
                lemma_ceil_bd(s, i + 1);
            }
            push_bytes(out, rb, i, next);
            assert(out@ + highlight_spec(s, ts, next as int) =~= before + highlight_spec(s, ts, i as int));
            i = next;
        }
    }
    assert(highlight_spec(s, ts, len as int) =~= Seq::<u8>::empty());
}

/// Builds a snippet of `body_md` that highlights the occurrences of the
/// whitespace-separated terms of `q`, honouring UTF-8 boundaries.
pub fn render(body_md: &str, q: &str, max_chars: usize) -> (r: String)
    ensures
        encode_utf8(r@) == render_bytes(body_md.spec_bytes(), query_terms_spec(q@), max_chars as int),
{
    let terms = query_terms(q);
    let ghost ts = term_bytes(terms@);
    let b = body_md.as_bytes();
    let ghost bs = b@;
    proof {
        encode_utf8_valid_utf8(body_md@);
        is_char_boundary_start_end_of_seq(bs);
        lemma_literals_valid();
    }
    let first = if terms.len() == 0 {
        None
    } else {
        let f = find_first_match(body_md, &terms);
        proof {
            match f {
                Some(p) => lemma_first_match_is_spec(bs, ts, p as int),
                None => lemma_no_match_is_spec(bs, ts),
            }
        }
        f
    };
    let (st, en) = match first {
        Some(pos) => {
            proof {
                assert(any_term_at(bs, ts, pos as int));
                let k = choose|k2: int| 0 <= k2 < ts.len() && #[trigger] term_matches_at(bs, ts[k2], pos as int);
                assert(term_matches_at(bs, ts[k], pos as int));
            }
            window_around(body_md, pos, max_chars)
        },
        None => leading_window(body_md, max_chars),
    };
    let ghost stop = match first { Some(pos) => {
        let half = max_chars / 2;
        if pos + half <= bs.len() { pos + half } else { bs.len() as int }
    }, None => if max_chars <= bs.len() { max_chars as int } else { bs.len() as int } };
    let ghost sstart = match first { Some(pos) => {
        let half = max_chars / 2;
        if pos >= half { pos - half } else { 0 }
    }, None => 0 };
    proof {
        lemma_floor_bd(bs, sstart);
        lemma_ceil_bd(bs, stop);
    }
    assert(st <= en);
    let ell = "\u{2026}".as_bytes();
    proof {
        reveal_strlit("\u{2026}");
        assert("\u{2026}"@ =~= seq!['\u{2026}']);
    }
    let mut out: Vec<u8> = Vec::new();
    if st > 0 {
        push_bytes(&mut out, ell, 0, ell.len());
    }
    let ghost prefix = out@;
    proof {
        lemma_sub_boundary(bs, 0, en as int);
        assert(bs.subrange(0, en as int).subrange(0, st as int) =~= bs.subrange(0, st as int));
    }
    let (head, _) = body_md.split_at(en);
    proof {
        assert(head.spec_bytes() =~= bs.subrange(0, en as int));
        assert(is_char_boundary(head.spec_bytes(), st as int) <==> is_char_boundary(bs, 0 + st));
    }
    let (_, raw) = head.split_at(st);
    assert(raw.spec_bytes() =~= bs.subrange(st as int, en as int));
    if terms.len() == 0 {
        let rb = raw.as_bytes();
        push_bytes(&mut out, rb, 0, rb.len());
        assert(rb@.subrange(0, rb@.len() as int) =~= rb@);
    } else {
        push_highlighted(&mut out, raw, &terms);
    }
    let ghost mid = out@.subrange(prefix.len() as int, out@.len() as int);
    if en < b.len() {
        push_bytes(&mut out, ell, 0, ell.len());
    }
    proof {
        assert(ell@.subrange(0, ell@.len() as int) =~= ell@);
        lemma_sub_boundary(bs, st as int, en as int);
        if terms.len() > 0 {
            lemma_highlight_valid(bs.subrange(st as int, en as int), ts, 0);
        }
        let m = if terms.len() == 0 {
            bs.subrange(st as int, en as int)
        } else {
            highlight_spec(bs.subrange(st as int, en as int), ts, 0)
        };
        let pre = if st > 0 { ellipsis() } else { Seq::<u8>::empty() };
        let post = if en < bs.len() { ellipsis() } else { Seq::<u8>::empty() };
        assert(out@ =~= pre + m + post);
        assert(valid_utf8(Seq::<u8>::empty()));
        valid_utf8_concat(pre, m);
        valid_utf8_concat(pre + m, post);
    }
    let ghost bytes = out@;
    let r = string_from_utf8(out);
    proof {
        decode_utf8_encode_utf8(bytes);
    }
    r
}

/// The snippet's window is the stretch around the first match (or the
/// leading stretch, without a match) pushed out to the nearest character
/// boundaries: its start is the last boundary at or before the nominal
/// start, its end the first boundary at or after the nominal end.
pub proof fn snippet_window_is_nearest_boundaries(b: Seq<u8>, first: Option<int>, max: int)
    requires
        valid_utf8(b),
        max >= 0,
        match first {
            Some(p) => 0 <= p <= b.len(),
            None => true,
        },
    ensures
        ({
            let (s0, e0) = match first {
                Some(p) => (
                    if p >= max / 2 { p - max / 2 } else { 0 },
                    if p + max / 2 <= b.len() { p + max / 2 } else { b.len() as int },
                ),
                None => (0, if max <= b.len() { max } else { b.len() as int }),
            };
            let w = window_spec(b, first, max);
            &&& 0 <= w.0 <= s0 <= e0 <= w.1 <= b.len()
            &&& is_char_boundary(b, w.0) && is_char_boundary(b, w.1)
            &&& forall|j: int| w.0 < j <= s0 ==> !#[trigger] is_char_boundary(b, j)
            &&& forall|j: int| e0 <= j < w.1 ==> !#[trigger] is_char_boundary(b, j)
            &&& (first matches Some(p) ==> s0 <= p <= e0)
        }),
{
    match first {
        Some(p) => {
            let s0 = if p >= max / 2 { p - max / 2 } else { 0 };
            let e0 = if p + max / 2 <= b.len() { p + max / 2 } else { b.len() as int };
            lemma_floor_bd(b, s0);
            lemma_ceil_bd(b, e0);
        },
        None => {
            lemma_floor_bd(b, 0);
            lemma_ceil_bd(b, if max <= b.len() { max } else { b.len() as int });
            is_char_boundary_start_end_of_seq(b);
        },
    }
}

/// The bytes of `s` without its `*` bytes.
pub open spec fn without_stars(s: Seq<u8>) -> Seq<u8>
    decreases s.len(),
{
    if s.len() == 0 {
        s
    } else if s.last() == 42 {
        without_stars(s.drop_last())
    } else {
        without_stars(s.drop_last()).push(s.last())
    }
}

proof fn lemma_without_stars_add(a: Seq<u8>, b: Seq<u8>)
    ensures
        without_stars(a + b) == without_stars(a) + without_stars(b),
    decreases b.len(),
{
    if b.len() == 0 {
        assert(a + b =~= a);
        assert(without_stars(a) + without_stars(b) =~= without_stars(a));
    } else {
        lemma_without_stars_add(a, b.drop_last());
        assert((a + b).drop_last() =~= a + b.drop_last());
        assert((a + b).last() == b.last());
        if b.last() != 42 {
            assert(without_stars(a) + without_stars(b.drop_last()).push(b.last()) =~= (without_stars(a)
                + without_stars(b.drop_last())).push(b.last()));
        }
    }
}

proof fn lemma_without_stars_plain(s: Seq<u8>)
    requires
        forall|k: int| 0 <= k < s.len() ==> s[k] != 42,
    ensures
        without_stars(s) == s,
    decreases s.len(),
{
    if s.len() > 0 {
        lemma_without_stars_plain(s.drop_last());
        assert(s.last() == s[s.len() - 1]);
        assert(s.drop_last().push(s.last()) =~= s);
    }
}

proof fn lemma_stars_vanish()
    ensures
        without_stars(stars()) == Seq::<u8>::empty(),
{
    assert((42u32 & 0x7F) as u8 == 42u8) by (bit_vector);
    assert(leading_byte_width_1(42u32) == 42u8);
    assert(encode_scalar(42u32) =~= seq![42u8]);
    let one = seq!['*'];
    let two = seq!['*', '*'];
    assert(one[0] as u32 == 42);
    assert(one.drop_first() =~= Seq::<char>::empty());
    assert(encode_utf8(one.drop_first()) =~= Seq::<u8>::empty());
    assert(encode_utf8(one) =~= seq![42u8]);
    assert(two[0] as u32 == 42);
    assert(two.drop_first() =~= one);
    assert(encode_utf8(two) =~= seq![42u8, 42u8]);
    let e = seq![42u8, 42u8];
    assert(e.drop_last() =~= seq![42u8]);
    assert(seq![42u8].drop_last() =~= Seq::<u8>::empty());
    assert(without_stars(Seq::<u8>::empty()) == Seq::<u8>::empty());
    assert(without_stars(seq![42u8]) == Seq::<u8>::empty());
    assert(without_stars(e) == Seq::<u8>::empty());
}

proof fn lemma_highlight_without_stars(s: Seq<u8>, terms: Seq<Seq<u8>>, i: int)
    requires
        valid_utf8(s),
        0 <= i <= s.len(),
        forall|k: int| 0 <= k < s.len() ==> s[k] != 42,
    ensures
        without_stars(highlight_spec(s, terms, i)) == s.subrange(i, s.len() as int),
    decreases s.len() - i,
{
    if i < s.len() {
        let m = match_len_from(s, terms, i, 0);
        if 0 < m && i + m <= s.len() {
            lemma_highlight_without_stars(s, terms, i + m);
            let piece = s.subrange(i, i + m);
            let rest = highlight_spec(s, terms, i + m);
            lemma_without_stars_add(stars() + piece + stars(), rest);
            lemma_without_stars_add(stars() + piece, stars());
            lemma_without_stars_add(stars(), piece);
            lemma_stars_vanish();
            lemma_without_stars_plain(piece);
            assert(s.subrange(i, s.len() as int) =~= piece + s.subrange(i + m, s.len() as int));
            assert(Seq::<u8>::empty() + piece =~= piece);
            assert(piece + Seq::<u8>::empty() =~= piece);
        } else {
            lemma_ceil_bd(s, i + 1);
            let n = ceil_bd(s, i + 1);
            lemma_highlight_without_stars(s, terms, n);
            let piece = s.subrange(i, n);
            lemma_without_stars_add(piece, highlight_spec(s, terms, n));
            lemma_without_stars_plain(piece);
            assert(s.subrange(i, s.len() as int) =~= piece + s.subrange(n, s.len() as int));
        }
    } else {
        assert(s.subrange(i, s.len() as int) =~= Seq::<u8>::empty());
    }
}

/// The snippet is the chosen window of the body, marked up: an ellipsis
/// where the window does not reach the start, the window's bytes with
/// terms wrapped in `**`, and an ellipsis where it does not reach the end.
/// For a body without `*`, dropping the stars from the middle gives back
/// exactly the body's bytes in the window, so the text shown is a piece of
/// the body.
pub proof fn snippet_is_the_window_marked_up(b: Seq<u8>, terms: Seq<Seq<u8>>, max: int)
    requires
        valid_utf8(b),
        max >= 0,
        forall|k: int| 0 <= k < b.len() ==> b[k] != 42,
    ensures
        ({
            let first = if terms.len() == 0 { None } else { first_match_spec(b, terms) };
            let w = window_spec(b, first, max);
            let mid = if terms.len() == 0 { b.subrange(w.0, w.1) } else { highlight_spec(b.subrange(w.0, w.1), terms, 0) };
            &&& 0 <= w.0 <= w.1 <= b.len()
            &&& render_bytes(b, terms, max) == (if w.0 > 0 { ellipsis() } else { Seq::empty() }) + mid
                + (if w.1 < b.len() { ellipsis() } else { Seq::empty() })
            &&& without_stars(mid) == b.subrange(w.0, w.1)
        }),
{
    let first = if terms.len() == 0 { None } else { first_match_spec(b, terms) };
    if let Some(p) = first {
        let c = choose|q: int| is_first_match(b, terms, q);
        assert(is_first_match(b, terms, c));
        let k = choose|k: int| 0 <= k < terms.len() && #[trigger] term_matches_at(b, terms[k], c);
        assert(0 <= p <= b.len());
    }
    snippet_window_is_nearest_boundaries(b, first, max);
    let w = window_spec(b, first, max);
    let sub = b.subrange(w.0, w.1);
    lemma_sub_boundary(b, w.0, w.1);
    if terms.len() > 0 {
        lemma_highlight_without_stars(sub, terms, 0);
        assert(sub.subrange(0, sub.len() as int) =~= sub);
    } else {
        lemma_without_stars_plain(sub);
    }
}

/// Before the first position at which a term occurs, the highlighted text is
/// the input itself: from a character boundary `i` up to a boundary `j` with
/// no occurrence in between, the bytes are copied unchanged.
proof fn lemma_highlight_copies_until_match(s: Seq<u8>, terms: Seq<Seq<u8>>, i: int, j: int)
    requires
        valid_utf8(s),
        0 <= i <= j <= s.len(),
        is_char_boundary(s, i),
        is_char_boundary(s, j),
        forall|x: int| i <= x < j ==> !#[trigger] any_term_at(s, terms, x),
    ensures
        highlight_spec(s, terms, i) == s.subrange(i, j) + highlight_spec(s, terms, j),
    decreases j - i,
{
    if i == j {
        assert(s.subrange(i, j) =~= Seq::<u8>::empty());
        assert(Seq::<u8>::empty() + highlight_spec(s, terms, j) =~= highlight_spec(s, terms, j));
    } else {
        let m = match_len_from(s, terms, i, 0);
        if m > 0 {
            lemma_match_len(s, terms, i, 0);
            assert(!any_term_at(s, terms, i));
            let k = choose|k2: int| 0 <= k2 < terms.len() && #[trigger] term_matches_at(s, terms[k2], i)
                && terms[k2].len() == match_len_from(s, terms, i, 0);
            assert(term_matches_at(s, terms[k], i));
            assert(false);
        }
        lemma_ceil_bd(s, i + 1);
        let n = ceil_bd(s, i + 1);
        assert(n <= j) by {
            if n > j {
                assert(i + 1 <= j < n);
                assert(!is_char_boundary(s, j));
            }
        }
        lemma_highlight_copies_until_match(s, terms, n, j);
        assert(highlight_spec(s, terms, i) == s.subrange(i, n) + highlight_spec(s, terms, n));
        assert(s.subrange(i, j) =~= s.subrange(i, n) + s.subrange(n, j));
        assert(s.subrange(i, n) + (s.subrange(n, j) + highlight_spec(s, terms, j)) =~= s.subrange(i, j)
            + highlight_spec(s, terms, j));
    }
}

/// A term occurrence inside a stretch of the body between two character
/// boundaries is an occurrence in the body, at the shifted position; an
/// occurrence in the body that lies inside the stretch is one in the stretch.
proof fn lemma_match_in_window(b: Seq<u8>, t: Seq<u8>, lo: int, hi: int, x: int)
    requires
        valid_utf8(b),
        0 <= lo <= hi <= b.len(),
        is_char_boundary(b, lo),
        is_char_boundary(b, hi),
    ensures
        term_matches_at(b.subrange(lo, hi), t, x) ==> term_matches_at(b, t, lo + x),
        (term_matches_at(b, t, lo + x) && 0 <= x && lo + x + t.len() <= hi) ==> term_matches_at(b.subrange(lo, hi), t, x),
{
    lemma_sub_boundary(b, lo, hi);
    let sub = b.subrange(lo, hi);
    if 0 <= x && x + t.len() <= sub.len() {
        assert(sub.subrange(x, x + t.len()) =~= b.subrange(lo + x, lo + x + t.len()));
        assert(is_char_boundary(sub, x) <==> is_char_boundary(b, lo + x));
        assert(is_char_boundary(sub, x + t.len()) <==> is_char_boundary(b, lo + x + t.len()));
    }
}

/// The window holds no occurrence before the body's first one.
proof fn lemma_window_has_no_earlier_match(b: Seq<u8>, terms: Seq<Seq<u8>>, lo: int, hi: int, p: int)
    requires
        valid_utf8(b),
        0 <= lo <= p,
        lo <= hi <= b.len(),
        is_char_boundary(b, lo),
        is_char_boundary(b, hi),
        is_first_match(b, terms, p),
    ensures
        forall|x: int| 0 <= x < p - lo ==> !#[trigger] any_term_at(b.subrange(lo, hi), terms, x),
{
    let sub = b.subrange(lo, hi);
    assert forall|x: int| 0 <= x < p - lo implies !#[trigger] any_term_at(sub, terms, x) by {
        if any_term_at(sub, terms, x) {
            let k = choose|k2: int| 0 <= k2 < terms.len() && #[trigger] term_matches_at(sub, terms[k2], x);
            lemma_match_in_window(b, terms[k], lo, hi, x);
            assert(any_term_at(b, terms, lo + x));
        }
    }
}

/// Highlighting a text whose first occurrence is at `q` copies the text
/// before `q` and wraps the occurrence in `**`.
proof fn lemma_highlight_bolds_at(s: Seq<u8>, terms: Seq<Seq<u8>>, q: int)
    requires
        valid_utf8(s),
        0 <= q,
        q + match_len_from(s, terms, q, 0) <= s.len(),
        match_len_from(s, terms, q, 0) > 0,
        is_char_boundary(s, q),
        forall|x: int| 0 <= x < q ==> !#[trigger] any_term_at(s, terms, x),
    ensures
        ({
            let m = match_len_from(s, terms, q, 0);
            highlight_spec(s, terms, 0) == s.subrange(0, q) + stars() + s.subrange(q, q + m) + stars()
                + highlight_spec(s, terms, q + m)
        }),
{
    is_char_boundary_start_end_of_seq(s);
    lemma_highlight_copies_until_match(s, terms, 0, q);
    let m = match_len_from(s, terms, q, 0);
    let rest = highlight_spec(s, terms, q + m);
    assert(highlight_spec(s, terms, q) == stars() + s.subrange(q, q + m) + stars() + rest);
    assert(s.subrange(0, q) + (stars() + s.subrange(q, q + m) + stars() + rest) =~= s.subrange(0, q) + stars()
        + s.subrange(q, q + m) + stars() + rest);
}

/// The first occurrence starts on a character boundary inside the window
/// chosen around it, and the query term found there is not empty.
proof fn lemma_first_match_window(b: Seq<u8>, terms: Seq<Seq<u8>>, max: int, p: int)
    requires
        valid_utf8(b),
        max >= 0,
        is_first_match(b, terms, p),
    ensures
        first_match_spec(b, terms) == Some(p),
        match_len_from(b, terms, p, 0) > 0,
        is_char_boundary(b, p),
        ({
            let w = window_spec(b, Some(p), max);
            &&& 0 <= w.0 <= p <= w.1 <= b.len()
            &&& is_char_boundary(b, w.0)
            &&& is_char_boundary(b, w.1)
        }),
{
    lemma_first_match_is_spec(b, terms, p);
    let k0 = choose|k: int| 0 <= k < terms.len() && #[trigger] term_matches_at(b, terms[k], p);
    assert(term_matches_at(b, terms[k0], p));
    lemma_match_len_positive(b, terms, p, 0, k0);
    snippet_window_is_nearest_boundaries(b, Some(p), max);
}

/// With some term in the query, the snippet is the window highlighted,
/// between the ellipses that mark cut edges.
proof fn lemma_render_is_window_highlighted(b: Seq<u8>, terms: Seq<Seq<u8>>, max: int, p: int)
    requires
        terms.len() > 0,
        first_match_spec(b, terms) == Some(p),
    ensures
        ({
            let w = window_spec(b, Some(p), max);
            render_bytes(b, terms, max) == (if w.0 > 0 { ellipsis() } else { Seq::empty() })
                + highlight_spec(b.subrange(w.0, w.1), terms, 0)
                + (if w.1 < b.len() { ellipsis() } else { Seq::empty() })
        }),
{
}

proof fn lemma_concat_regroup(pre: Seq<u8>, before: Seq<u8>, hit: Seq<u8>, rest: Seq<u8>, post: Seq<u8>)
    ensures
        pre + (before + stars() + hit + stars() + rest) + post == pre + before + stars() + hit + stars() + rest
            + post,
{
    assert(pre + (before + stars() + hit + stars() + rest) + post =~= pre + before + stars() + hit + stars() + rest
        + post);
}

/// A term occurrence that the window holds is bolded: for a non-empty list
/// of terms whose first occurrence in the body starts at `p` (with the
/// query term found there, `m` bytes long, inside the window), the snippet
/// shows the window's bytes before `p` unchanged, then `**`, the body's own
/// `m` bytes at `p`, and `**`, whatever else the body holds (`*` included).
pub proof fn snippet_bolds_the_first_match(b: Seq<u8>, terms: Seq<Seq<u8>>, max: int, p: int)
    requires
        valid_utf8(b),
        max >= 0,
        terms.len() > 0,
        is_first_match(b, terms, p),
        p + match_len_from(b, terms, p, 0) <= window_spec(b, Some(p), max).1,
    ensures
        ({
            let w = window_spec(b, Some(p), max);
            let m = match_len_from(b, terms, p, 0);
            &&& m > 0
            &&& 0 <= w.0 <= p
            &&& render_bytes(b, terms, max) == (if w.0 > 0 { ellipsis() } else { Seq::empty() })
                + b.subrange(w.0, p) + stars() + b.subrange(p, p + m) + stars()
                + highlight_spec(b.subrange(w.0, w.1), terms, p - w.0 + m)
                + (if w.1 < b.len() { ellipsis() } else { Seq::empty() })
        }),
{
    lemma_first_match_window(b, terms, max, p);
    lemma_render_is_window_highlighted(b, terms, max, p);
    let w = window_spec(b, Some(p), max);
    let m = match_len_from(b, terms, p, 0);
    let sub = b.subrange(w.0, w.1);
    let q = p - w.0;
    lemma_sub_boundary(b, w.0, w.1);
    lemma_window_has_no_earlier_match(b, terms, w.0, w.1, p);
    // The term chosen at `q` in the window is the one chosen at `p` in the body.
    lemma_match_len_in_window(b, terms, w.0, w.1, p, 0);
    lemma_highlight_bolds_at(sub, terms, q);
    assert(sub.subrange(q, q + m) =~= b.subrange(p, p + m));
    assert(sub.subrange(0, q) =~= b.subrange(w.0, p));
    lemma_concat_regroup(
        if w.0 > 0 { ellipsis() } else { Seq::<u8>::empty() },
        b.subrange(w.0, p),
        b.subrange(p, p + m),
        highlight_spec(sub, terms, q + m),
        if w.1 < b.len() { ellipsis() } else { Seq::<u8>::empty() },
    );
}

proof fn lemma_match_len_positive(s: Seq<u8>, terms: Seq<Seq<u8>>, i: int, k: int, k0: int)
    requires
        0 <= k <= k0 < terms.len(),
        term_matches_at(s, terms[k0], i),
    ensures
        match_len_from(s, terms, i, k) > 0,
    decreases k0 - k,
{
    if !term_matches_at(s, terms[k], i) {
        lemma_match_len_positive(s, terms, i, k + 1, k0);
    }
}

/// Where the body's chosen term at `p` fits inside the window, the window
/// chooses the same length at the shifted position.
proof fn lemma_match_len_in_window(b: Seq<u8>, terms: Seq<Seq<u8>>, lo: int, hi: int, p: int, k: int)
    requires
        valid_utf8(b),
        0 <= lo <= p,
        hi <= b.len(),
        lo <= hi,
        is_char_boundary(b, lo),
        is_char_boundary(b, hi),
        p + match_len_from(b, terms, p, k) <= hi,
        match_len_from(b, terms, p, k) > 0,
    ensures
        match_len_from(b.subrange(lo, hi), terms, p - lo, k) == match_len_from(b, terms, p, k),
    decreases terms.len() - k,
{
    if 0 <= k < terms.len() {
        lemma_match_in_window(b, terms[k], lo, hi, p - lo);
        if !term_matches_at(b, terms[k], p) {
            lemma_match_len_in_window(b, terms, lo, hi, p, k + 1);
        }
    }
}


} // verus!
