//! The text indexed for one message, and its split into bounded segments.
//!
//! A document is `<subject>\n\n<from-display>\n\n<body-markdown>`, where a
//! blank subject is left out and the from-display is `name <addr>` when the
//! sender has a non-blank name, else the bare address.  Long documents are
//! cut into at most eight segments of about 2k characters each, snapping
//! each cut to a paragraph break, a line break or a word boundary near the
//! target offset.

use vstd::prelude::*;

use crate::text::{
    char_is_whitespace, chars_of, copy_chars, is_unicode_whitespace, push_range, string_from_chars,
    trim_bounds, trim_spec,
};

verus! {

/// Target width, in characters, of one indexed segment.
pub const SEGMENT_TARGET_CHARS: usize = 2048;

/// Cap on the characters of one message that are indexed at all.
pub const SEGMENT_MAX_CHARS: usize = 16384;

/// Upper bound on the segments produced from one message.
pub const MAX_SEGMENTS_PER_MESSAGE: usize = 8;

/// Distance around the target offset in which a natural break is looked for.
pub const SNAP_WINDOW: usize = 256;

/// `name <addr>` when the name is not blank (trimmed), else the bare address.
pub open spec fn from_display_spec(addr: Seq<char>, name: Option<Seq<char>>) -> Seq<char> {
    match name {
        Some(n) => if trim_spec(n).len() > 0 {
            trim_spec(n) + seq![' ', '<'] + addr + seq!['>']
        } else {
            addr
        },
        None => addr,
    }
}

/// `<subject>\n\n<from-display>\n\n<body>`, the subject block left out
/// when the subject is absent or blank; the subject is trimmed.
pub open spec fn build_spec(
    subject: Option<Seq<char>>,
    addr: Seq<char>,
    name: Option<Seq<char>>,
    body: Seq<char>,
) -> Seq<char> {
    let head = match subject {
        Some(s) => if trim_spec(s).len() > 0 { trim_spec(s) + seq!['\n', '\n'] } else { Seq::empty() },
        None => Seq::empty(),
    };
    head + from_display_spec(addr, name) + seq!['\n', '\n'] + body
}

fn push_from_display(out: &mut Vec<char>, addr: &str, name: Option<&str>)
    ensures
        final(out)@ == old(out)@ + from_display_spec(addr@, match name { Some(n) => Some(n@), None => None }),
{
    let a = chars_of(addr);
    match name {
        Some(n) => {
            let nc = chars_of(n);
            let (lo, hi) = trim_bounds(&nc);
            if lo < hi {
                push_range(out, &nc, lo, hi);
                out.push(' ');
                out.push('<');
                push_range(out, &a, 0, a.len());
                out.push('>');
                assert(a@.subrange(0, a.len() as int) =~= a@);
                assert(final(out)@ =~= old(out)@ + (trim_spec(n@) + seq![' ', '<'] + addr@ + seq!['>']));
                return;
            }
        }
        None => {}
    }
    push_range(out, &a, 0, a.len());
    assert(a@.subrange(0, a.len() as int) =~= a@);
}

/// The sender as shown in an indexed document: `name <addr>` when the name
/// is not blank, otherwise the bare address.
pub fn from_display(addr: &str, name: Option<&str>) -> (s: String)
    ensures
        s@ == from_display_spec(addr@, match name { Some(n) => Some(n@), None => None }),
{
    let mut out: Vec<char> = Vec::new();
    push_from_display(&mut out, addr, name);
    string_from_chars(out.as_slice())
}

/// Composes the single string that the indexer ingests for a message.
pub fn build(subject: Option<&str>, sender_addr: &str, sender_name: Option<&str>, body_md: &str) -> (doc: String)
    ensures
        doc@ == build_spec(
            match subject { Some(s) => Some(s@), None => None },
            sender_addr@,
            match sender_name { Some(n) => Some(n@), None => None },
            body_md@,
        ),
{
    let mut out: Vec<char> = Vec::new();
    if let Some(s) = subject {
        let sc = chars_of(s);
        let (lo, hi) = trim_bounds(&sc);
        if lo < hi {
            push_range(&mut out, &sc, lo, hi);
            out.push('\n');
            out.push('\n');
        }
    }
    let ghost after_head = out@;
    push_from_display(&mut out, sender_addr, sender_name);
    out.push('\n');
    out.push('\n');
    let b = chars_of(body_md);
    push_range(&mut out, &b, 0, b.len());
    assert(b@.subrange(0, b.len() as int) =~= b@);
    assert(out@ =~= after_head + from_display_spec(sender_addr@, match sender_name { Some(n) => Some(n@), None => None }) + seq!['\n', '\n'] + body_md@);
    string_from_chars(out.as_slice())
}

pub open spec fn abs_diff(a: int, b: int) -> int {
    if a >= b { a - b } else { b - a }
}

/// First offset of the snap window: `target - SNAP_WINDOW` (saturating),
/// but never at or before `start`.
pub open spec fn window_start(start: int, target: int) -> int {
    let lo = if target >= SNAP_WINDOW { target - SNAP_WINDOW } else { 0 };
    if lo >= start + 1 { lo } else { start + 1 }
}

/// One past the last offset of the snap window.
pub open spec fn window_end(target: int, capped: int) -> int {
    if target + SNAP_WINDOW <= capped { target + SNAP_WINDOW } else { capped }
}

/// `p` is a cut right after a `\n\n` that starts inside `[ws, we - 1)`.
pub open spec fn is_para_cut(chars: Seq<char>, ws: int, we: int, p: int) -> bool {
    &&& ws + 2 <= p <= we
    &&& chars[p - 2] == '\n'
    &&& chars[p - 1] == '\n'
}

/// `p` is a cut right after a `\n` inside `[ws, we)`.
pub open spec fn is_line_cut(chars: Seq<char>, ws: int, we: int, p: int) -> bool {
    &&& ws + 1 <= p <= we
    &&& chars[p - 1] == '\n'
}

/// `p` is a cut right after a whitespace character inside `[ws, target)`.
pub open spec fn is_word_cut(chars: Seq<char>, ws: int, target: int, p: int) -> bool {
    &&& ws + 1 <= p <= target
    &&& is_unicode_whitespace(chars[p - 1])
}

/// `p` is at least as close to `target` as `q`, and earlier on a tie.
pub open spec fn closer_or_tie(p: int, q: int, target: int) -> bool {
    ||| abs_diff(p, target) < abs_diff(q, target)
    ||| (abs_diff(p, target) == abs_diff(q, target) && p <= q)
}

/// The cut chosen for a segment that starts at `start` and aims at
/// `target`: the paragraph break closest to the target (earliest on a tie),
/// else the closest line break, else the last word boundary before the
/// target, else the target itself.
pub open spec fn snap_ok(chars: Seq<char>, start: int, target: int, capped: int, r: int) -> bool {
    let ws = window_start(start, target);
    let we = window_end(target, capped);
    if ws >= we {
        r == target
    } else if exists|p: int| is_para_cut(chars, ws, we, p) {
        &&& is_para_cut(chars, ws, we, r)
        &&& forall|q: int| is_para_cut(chars, ws, we, q) ==> closer_or_tie(r, q, target)
    } else if exists|p: int| is_line_cut(chars, ws, we, p) {
        &&& is_line_cut(chars, ws, we, r)
        &&& forall|q: int| is_line_cut(chars, ws, we, q) ==> closer_or_tie(r, q, target)
    } else if exists|p: int| is_word_cut(chars, ws, target, p) {
        &&& is_word_cut(chars, ws, target, r)
        &&& forall|q: int| is_word_cut(chars, ws, target, q) ==> q <= r
    } else {
        r == target
    }
}

pub open spec fn snap_spec(chars: Seq<char>, start: int, target: int, capped: int) -> int {
    choose|r: int| snap_ok(chars, start, target, capped, r)
}

/// The segments cut from `chars[start..capped]`, `n` of them already cut.
pub open spec fn segments_from(chars: Seq<char>, start: int, capped: int, n: int) -> Seq<Seq<char>>
    decreases capped - start,
{
    if start < capped && n < MAX_SEGMENTS_PER_MESSAGE {
        let target = if start + SEGMENT_TARGET_CHARS <= capped {
            start + SEGMENT_TARGET_CHARS
        } else {
            capped
        };
        let end = if target >= capped { capped } else { snap_spec(chars, start, target, capped) };
        if end <= start || end > capped || end - start > SEGMENT_TARGET_CHARS + SNAP_WINDOW {
            seq![]
        } else {
            seq![chars.subrange(start, end)] + segments_from(chars, end, capped, n + 1)
        }
    } else {
        seq![]
    }
}

/// The segments `split_for_index` gives for a document.
pub open spec fn split_spec(chars: Seq<char>) -> Seq<Seq<char>> {
    if chars.len() == 0 {
        seq![Seq::<char>::empty()]
    } else if chars.len() <= SEGMENT_TARGET_CHARS {
        seq![chars]
    } else {
        let capped = if chars.len() <= SEGMENT_MAX_CHARS { chars.len() as int } else { SEGMENT_MAX_CHARS as int };
        let segs = segments_from(chars, 0, capped, 0);
        if segs.len() == 0 { seq![chars.take(SEGMENT_TARGET_CHARS as int)] } else { segs }
    }
}

fn usize_abs_diff(a: usize, b: usize) -> (d: usize)
    ensures
        d == abs_diff(a as int, b as int),
{
    if a >= b { a - b } else { b - a }
}

proof fn lemma_snap_unique(chars: Seq<char>, start: int, target: int, capped: int, r1: int, r2: int)
    requires
        snap_ok(chars, start, target, capped, r1),
        snap_ok(chars, start, target, capped, r2),
    ensures
        r1 == r2,
{
    let ws = window_start(start, target);
    let we = window_end(target, capped);
    if ws >= we {
    } else if exists|p: int| is_para_cut(chars, ws, we, p) {
        assert(closer_or_tie(r1, r2, target));
        assert(closer_or_tie(r2, r1, target));
    } else if exists|p: int| is_line_cut(chars, ws, we, p) {
        assert(closer_or_tie(r1, r2, target));
        assert(closer_or_tie(r2, r1, target));
    } else if exists|p: int| is_word_cut(chars, ws, target, p) {
        assert(r1 <= r2 && r2 <= r1);
    }
}

/// The cut offset for a segment from `start` aiming at `target`.
fn snap_boundary(chars: &Vec<char>, start: usize, target: usize, capped: usize) -> (r: usize)
    requires
        start < target < capped <= chars.len(),
    ensures
        snap_ok(chars@, start as int, target as int, capped as int, r as int),
{
    let ghost s = chars@;
    let lo = if target >= SNAP_WINDOW { target - SNAP_WINDOW } else { 0 };
    let ws = if lo >= start + 1 { lo } else { start + 1 };
    let we = if capped >= SNAP_WINDOW && target <= capped - SNAP_WINDOW { target + SNAP_WINDOW } else { capped };
    assert(ws == window_start(start as int, target as int));
    assert(we == window_end(target as int, capped as int));
    if ws >= we {
        return target;
    }
    // Paragraph breaks.
    let mut best_para: Option<usize> = None;
    let mut best_para_dist: usize = usize::MAX;
    let mut i = ws;
    while i < we - 1
        invariant
            ws <= i,
            ws < we <= capped <= chars.len(),
            i <= we - 1 || i == ws,
            s == chars@,
            start < target < capped,
            ws == window_start(start as int, target as int),
            we == window_end(target as int, capped as int),
            match best_para {
                Some(p) => {
                    &&& is_para_cut(s, ws as int, we as int, p as int)
                    &&& p - 2 < i
                    &&& best_para_dist == abs_diff(p as int, target as int)
                    &&& forall|q: int| is_para_cut(s, ws as int, we as int, q) && q - 2 < i ==> closer_or_tie(p as int, q, target as int)
                },
                None => best_para_dist == usize::MAX && forall|q: int| is_para_cut(s, ws as int, we as int, q) ==> q - 2 >= i,
            },
        decreases we - i,
    {
        let ghost old_best = best_para;
        if chars[i] == '\n' && chars[i + 1] == '\n' {
            let split_at = i + 2;
            let dist = usize_abs_diff(split_at, target);
            assert(dist < usize::MAX);
            if dist < best_para_dist {
                best_para_dist = dist;
                best_para = Some(split_at);
            }
            assert(is_para_cut(s, ws as int, we as int, split_at as int));
        } else {
            assert(!is_para_cut(s, ws as int, we as int, i + 2));
        }
        proof {
            if let Some(p) = best_para {
                assert forall|q: int| is_para_cut(s, ws as int, we as int, q) && q - 2 < i + 1 implies closer_or_tie(p as int, q, target as int) by {
                    if q - 2 < i {
                        if let Some(op) = old_best {
                            assert(closer_or_tie(op as int, q, target as int));
                        }
                    }
                }
            }
        }
        i += 1;
    }
    if let Some(p) = best_para {
        return if p <= capped { p } else { capped };
    }
    // Single line breaks.
    let mut best_nl: Option<usize> = None;
    let mut best_nl_dist: usize = usize::MAX;
    let mut i = ws;
    while i < we
        invariant
            ws <= i <= we <= capped <= chars.len(),
            s == chars@,
            start < target < capped,
            ws == window_start(start as int, target as int),
            we == window_end(target as int, capped as int),
            forall|q: int| !is_para_cut(s, ws as int, we as int, q),
            match best_nl {
                Some(p) => {
                    &&& is_line_cut(s, ws as int, we as int, p as int)
                    &&& p - 1 < i
                    &&& best_nl_dist == abs_diff(p as int, target as int)
                    &&& forall|q: int| is_line_cut(s, ws as int, we as int, q) && q - 1 < i ==> closer_or_tie(p as int, q, target as int)
                },
                None => best_nl_dist == usize::MAX && forall|q: int| is_line_cut(s, ws as int, we as int, q) ==> q - 1 >= i,
            },
        decreases we - i,
    {
        let ghost old_best = best_nl;
        if chars[i] == '\n' {
            let split_at = i + 1;
            let dist = usize_abs_diff(split_at, target);
            assert(dist < usize::MAX);
            if dist < best_nl_dist {
                best_nl_dist = dist;
                best_nl = Some(split_at);
            }
            assert(is_line_cut(s, ws as int, we as int, split_at as int));
        } else {
            assert(!is_line_cut(s, ws as int, we as int, i + 1));
        }
        proof {
            if let Some(p) = best_nl {
                assert forall|q: int| is_line_cut(s, ws as int, we as int, q) && q - 1 < i + 1 implies closer_or_tie(p as int, q, target as int) by {
                    if q - 1 < i {
                        if let Some(op) = old_best {
                            assert(closer_or_tie(op as int, q, target as int));
                        }
                    }
                }
            }
        }
        i += 1;
    }
    if let Some(p) = best_nl {
        return if p <= capped { p } else { capped };
    }
    // Word boundary, scanning back from the target.
    let mut i = target;
    while i > ws
        invariant
            ws <= i <= target < capped <= chars.len(),
            s == chars@,
            start < target,
            ws < we,
            ws == window_start(start as int, target as int),
            we == window_end(target as int, capped as int),
            forall|q: int| !is_para_cut(s, ws as int, we as int, q),
            forall|q: int| !is_line_cut(s, ws as int, we as int, q),
            forall|q: int| is_word_cut(s, ws as int, target as int, q) ==> q <= i,
        decreases i,
    {
        i -= 1;
        if char_is_whitespace(chars[i]) {
            assert(is_word_cut(s, ws as int, target as int, i + 1));
            return if i + 1 <= capped { i + 1 } else { capped };
        }
    }
    target
}


proof fn lemma_snap_bounds(chars: Seq<char>, start: int, target: int, capped: int, r: int)
    requires
        0 <= start < target < capped,
        target <= start + SEGMENT_TARGET_CHARS,
        snap_ok(chars, start, target, capped, r),
    ensures
        start < r <= capped,
        r - start <= SEGMENT_TARGET_CHARS + SNAP_WINDOW,
{
}

proof fn lemma_snap_is_spec(chars: Seq<char>, start: int, target: int, capped: int, r: int)
    requires
        snap_ok(chars, start, target, capped, r),
    ensures
        snap_spec(chars, start, target, capped) == r,
{
    let c = snap_spec(chars, start, target, capped);
    assert(snap_ok(chars, start, target, capped, c));
    lemma_snap_unique(chars, start, target, capped, c, r);
}

/// What holds of every segmentation: each segment is non-empty and at
/// most `SEGMENT_TARGET_CHARS + SNAP_WINDOW` long, at most
/// `MAX_SEGMENTS_PER_MESSAGE - n` are cut, and together they are exactly
/// the characters from `start` on, up to some offset no later than `capped`.
proof fn lemma_segments_shape(chars: Seq<char>, start: int, capped: int, n: int)
    requires
        0 <= start <= capped <= chars.len(),
        0 <= n,
    ensures
        segments_from(chars, start, capped, n).len() + n <= MAX_SEGMENTS_PER_MESSAGE
            || segments_from(chars, start, capped, n).len() == 0,
        forall|i: int| 0 <= i < segments_from(chars, start, capped, n).len() ==> {
            &&& #[trigger] segments_from(chars, start, capped, n)[i].len() > 0
            &&& segments_from(chars, start, capped, n)[i].len() <= SEGMENT_TARGET_CHARS + SNAP_WINDOW
        },
        start + segments_from(chars, start, capped, n).flatten().len() <= capped,
        segments_from(chars, start, capped, n).flatten() == chars.subrange(
            start,
            start + segments_from(chars, start, capped, n).flatten().len(),
        ),
    decreases capped - start,
{
    let segs = segments_from(chars, start, capped, n);
    if start < capped && n < MAX_SEGMENTS_PER_MESSAGE {
        let target = if start + SEGMENT_TARGET_CHARS <= capped {
            start + SEGMENT_TARGET_CHARS
        } else {
            capped
        };
        let end = if target >= capped { capped } else { snap_spec(chars, start, target, capped) };
        if end <= start || end > capped || end - start > SEGMENT_TARGET_CHARS + SNAP_WINDOW {
        } else {
            let head = chars.subrange(start, end);
            let rest = segments_from(chars, end, capped, n + 1);
            lemma_segments_shape(chars, end, capped, n + 1);
            assert(segs == seq![head] + rest);
            assert(segs.first() == head);
            assert(segs.drop_first() =~= rest);
            assert(segs.flatten() == head + rest.flatten());
            assert(segs.flatten() =~= chars.subrange(start, start + segs.flatten().len()));
            assert forall|i: int| 0 <= i < segs.len() implies {
                &&& #[trigger] segs[i].len() > 0
                &&& segs[i].len() <= SEGMENT_TARGET_CHARS + SNAP_WINDOW
            } by {
                if i > 0 {
                    assert(segs[i] == rest[i - 1]);
                }
            }
        }
    } else {
        assert(segs.flatten() =~= Seq::<char>::empty());
    }
}

/// Splits a built document into bounded segments for indexing.
///
/// Always at least one segment; never an empty segment (unless the document
/// itself is empty); at most `MAX_SEGMENTS_PER_MESSAGE` segments, each at
/// most `SEGMENT_TARGET_CHARS + SNAP_WINDOW` characters; and the segments
/// joined together are the document's leading characters, at most
/// `SEGMENT_MAX_CHARS` of them (all of it when it fits one segment).
pub fn split_for_index(document: &str) -> (segs: Vec<String>)
    ensures
        segs@.map_values(|s: String| s@) == split_spec(document@),
        segs.len() >= 1,
        segs.len() <= MAX_SEGMENTS_PER_MESSAGE,
        document@.len() > 0 ==> forall|i: int| 0 <= i < segs.len() ==> #[trigger] segs[i]@.len() > 0,
        forall|i: int| 0 <= i < segs.len() ==> #[trigger] segs[i]@.len() <= SEGMENT_TARGET_CHARS + SNAP_WINDOW,
        segs@.map_values(|s: String| s@).flatten().len() <= SEGMENT_MAX_CHARS,
        segs@.map_values(|s: String| s@).flatten() == document@.take(
            segs@.map_values(|s: String| s@).flatten().len() as int,
        ),
        document@.len() <= SEGMENT_TARGET_CHARS ==> segs@.map_values(|s: String| s@).flatten() == document@,
{
    let chars = chars_of(document);
    let total = chars.len();
    let ghost cs = chars@;
    let mut segments: Vec<String> = Vec::new();
    if total == 0 {
        segments.push(String::new());
        proof {
            let v = segments@.map_values(|s: String| s@);
            assert(v =~= seq![Seq::<char>::empty()]);
            v.lemma_flatten_one_element();
        }
        return segments;
    }
    if total <= SEGMENT_TARGET_CHARS {
        segments.push(document.to_owned());
        proof {
            let v = segments@.map_values(|s: String| s@);
            assert(v =~= seq![document@]);
            v.lemma_flatten_one_element();
            assert(document@.take(document@.len() as int) =~= document@);
        }
        return segments;
    }
    let capped = if total <= SEGMENT_MAX_CHARS { total } else { SEGMENT_MAX_CHARS };
    let mut start: usize = 0;
    proof {
        lemma_segments_shape(cs, 0, capped as int, 0);
    }
    while start < capped && segments.len() < MAX_SEGMENTS_PER_MESSAGE
        invariant
            cs == chars@,
            cs == document@,
            total == cs.len(),
            SEGMENT_TARGET_CHARS < total,
            capped == (if total <= SEGMENT_MAX_CHARS { total } else { SEGMENT_MAX_CHARS }),
            start <= capped,
            segments@.map_values(|s: String| s@) + segments_from(cs, start as int, capped as int, segments.len() as int)
                == segments_from(cs, 0, capped as int, 0),
        decreases capped - start,
    {
        let target = if start + SEGMENT_TARGET_CHARS <= capped { start + SEGMENT_TARGET_CHARS } else { capped };
        let end = if target >= capped {
            capped
        } else {
            let r = snap_boundary(&chars, start, target, capped);
            proof {
                lemma_snap_bounds(cs, start as int, target as int, capped as int, r as int);
                lemma_snap_is_spec(cs, start as int, target as int, capped as int, r as int);
            }
            r
        };
        let ghost before = segments@.map_values(|s: String| s@);
        let ghost n = segments.len() as int;
        let piece = copy_chars(&chars, start, end);
        let segment = string_from_chars(piece.as_slice());
        assert(segment@.len() > 0);
        segments.push(segment);
        proof {
            let after = segments@.map_values(|s: String| s@);
            assert(after =~= before.push(cs.subrange(start as int, end as int)));
            let rest = segments_from(cs, end as int, capped as int, n + 1);
            assert(segments_from(cs, start as int, capped as int, n) == seq![cs.subrange(start as int, end as int)] + rest);
            assert(after + rest =~= before + (seq![cs.subrange(start as int, end as int)] + rest));
        }
        start = end;
    }
    proof {
        let v = segments@.map_values(|s: String| s@);
        assert(segments_from(cs, start as int, capped as int, segments.len() as int) =~= Seq::<Seq<char>>::empty());
        assert(v =~= segments_from(cs, 0, capped as int, 0));
        assert forall|i: int| 0 <= i < segments.len() implies #[trigger] segments[i]@.len() > 0
            && segments[i]@.len() <= SEGMENT_TARGET_CHARS + SNAP_WINDOW by {
            assert(v[i] == segments[i]@);
        }
        assert(cs.subrange(0, v.flatten().len() as int) =~= cs.take(v.flatten().len() as int));
    }
    if segments.len() == 0 {
        let n = if total < SEGMENT_TARGET_CHARS { total } else { SEGMENT_TARGET_CHARS };
        let piece = copy_chars(&chars, 0, n);
        segments.push(string_from_chars(piece.as_slice()));
        proof {
            let v = segments@.map_values(|s: String| s@);
            assert(v =~= seq![cs.take(SEGMENT_TARGET_CHARS as int)]);
            v.lemma_flatten_one_element();
        }
        return segments;
    }
    segments
}

} // verus!

verus! {

proof fn lemma_closer_switch(r: int, h: int, q: int, target: int)
    requires
        r < h,
        !closer_or_tie(r, h, target),
        closer_or_tie(r, q, target),
    ensures
        closer_or_tie(h, q, target),
{
}

#[verifier::rlimit(60)]
proof fn lemma_closest_exists(pred: spec_fn(int) -> bool, lo: int, hi: int, target: int)
    requires
        forall|p: int| #[trigger] pred(p) ==> lo <= p <= hi,
        exists|p: int| #[trigger] pred(p),
    ensures
        exists|r: int| #[trigger] pred(r) && forall|q: int| #[trigger] pred(q) ==> closer_or_tie(r, q, target),
    decreases hi - lo,
{
    let below = |p: int| pred(p) && p < hi;
    if exists|p: int| #[trigger] below(p) {
        let w = choose|p: int| #[trigger] below(p);
        assert(pred(w) && lo <= w < hi);
        lemma_closest_exists(below, lo, hi - 1, target);
        let r1 = choose|r: int| #[trigger] below(r) && forall|q: int| #[trigger] below(q) ==> closer_or_tie(r, q, target);
        if pred(hi) && !closer_or_tie(r1, hi, target) {
            assert(r1 < hi);
            assert forall|q: int| #[trigger] pred(q) implies closer_or_tie(hi, q, target) by {
                if q != hi {
                    assert(below(q));
                    lemma_closer_switch(r1, hi, q, target);
                }
            }
            assert(pred(hi));
        } else {
            assert(below(r1));
            assert forall|q: int| #[trigger] pred(q) implies closer_or_tie(r1, q, target) by {
                if q != hi {
                    assert(below(q));
                }
            }
            assert(pred(r1));
        }
    } else {
        let w = choose|p: int| #[trigger] pred(p);
        assert(w == hi) by {
            if w != hi {
                assert(below(w));
            }
        }
        assert forall|q: int| #[trigger] pred(q) implies closer_or_tie(hi, q, target) by {
            if q != hi {
                assert(below(q));
            }
        }
    }
}

proof fn lemma_last_exists(pred: spec_fn(int) -> bool, lo: int, hi: int)
    requires
        forall|p: int| #[trigger] pred(p) ==> lo <= p <= hi,
        exists|p: int| #[trigger] pred(p),
    ensures
        exists|r: int| #[trigger] pred(r) && forall|q: int| #[trigger] pred(q) ==> q <= r,
    decreases hi - lo,
{
    if pred(hi) {
        assert forall|q: int| #[trigger] pred(q) implies q <= hi by {}
    } else {
        let w = choose|p: int| #[trigger] pred(p);
        assert(w < hi);
        lemma_last_exists(pred, lo, hi - 1);
    }
}

proof fn lemma_snap_exists(chars: Seq<char>, start: int, target: int, capped: int)
    ensures
        exists|r: int| snap_ok(chars, start, target, capped, r),
{
    let ws = window_start(start, target);
    let we = window_end(target, capped);
    if ws >= we {
        assert(snap_ok(chars, start, target, capped, target));
    } else if exists|p: int| is_para_cut(chars, ws, we, p) {
        let pred = |p: int| is_para_cut(chars, ws, we, p);
        let w = choose|p: int| is_para_cut(chars, ws, we, p);
        assert(pred(w));
        lemma_closest_exists(pred, ws + 2, we, target);
        let r = choose|r: int| #[trigger] pred(r) && forall|q: int| #[trigger] pred(q) ==> closer_or_tie(r, q, target);
        assert forall|q: int| is_para_cut(chars, ws, we, q) implies closer_or_tie(r, q, target) by {
            assert(pred(q));
        }
        assert(snap_ok(chars, start, target, capped, r));
    } else if exists|p: int| is_line_cut(chars, ws, we, p) {
        let pred = |p: int| is_line_cut(chars, ws, we, p);
        let w = choose|p: int| is_line_cut(chars, ws, we, p);
        assert(pred(w));
        lemma_closest_exists(pred, ws + 1, we, target);
        let r = choose|r: int| #[trigger] pred(r) && forall|q: int| #[trigger] pred(q) ==> closer_or_tie(r, q, target);
        assert forall|q: int| is_line_cut(chars, ws, we, q) implies closer_or_tie(r, q, target) by {
            assert(pred(q));
        }
        assert(snap_ok(chars, start, target, capped, r));
    } else if exists|p: int| is_word_cut(chars, ws, target, p) {
        let pred = |p: int| is_word_cut(chars, ws, target, p);
        let w = choose|p: int| is_word_cut(chars, ws, target, p);
        assert(pred(w));
        lemma_last_exists(pred, ws + 1, target);
        let r = choose|r: int| #[trigger] pred(r) && forall|q: int| #[trigger] pred(q) ==> q <= r;
        assert forall|q: int| is_word_cut(chars, ws, target, q) implies q <= r by {
            assert(pred(q));
        }
        assert(snap_ok(chars, start, target, capped, r));
    } else {
        assert(snap_ok(chars, start, target, capped, target));
    }
}

/// Where a segment aiming at `target` is cut: by the snap rule
/// ([`snap_ok`]: the closest paragraph break in the window, else the
/// closest line break, else the last word boundary before the target, else
/// the target), after `start`, no later than `capped`, and at most
/// `SNAP_WINDOW` characters from the target.
pub proof fn snap_cut_follows_the_rule(chars: Seq<char>, start: int, target: int, capped: int)
    requires
        0 <= start < target < capped,
    ensures
        snap_ok(chars, start, target, capped, snap_spec(chars, start, target, capped)),
        start < snap_spec(chars, start, target, capped) <= capped,
        abs_diff(snap_spec(chars, start, target, capped), target) <= SNAP_WINDOW,
{
    lemma_snap_exists(chars, start, target, capped);
    let r = choose|r: int| snap_ok(chars, start, target, capped, r);
    lemma_snap_is_spec(chars, start, target, capped, r);
}

} // verus!

verus! {

/// No character of `chars` is whitespace.
pub open spec fn no_whitespace(chars: Seq<char>) -> bool {
    forall|i: int| 0 <= i < chars.len() ==> !is_unicode_whitespace(#[trigger] chars[i])
}

proof fn lemma_unbroken_segments(chars: Seq<char>, start: int, capped: int, n: int)
    requires
        no_whitespace(chars),
        0 <= start <= capped <= chars.len(),
        0 <= n <= MAX_SEGMENTS_PER_MESSAGE,
        capped - start <= (MAX_SEGMENTS_PER_MESSAGE - n) * SEGMENT_TARGET_CHARS,
    ensures
        segments_from(chars, start, capped, n).flatten().len() == capped - start,
    decreases capped - start,
{
    if start < capped {
        assert(n < MAX_SEGMENTS_PER_MESSAGE);
        let target = if start + SEGMENT_TARGET_CHARS <= capped { start + SEGMENT_TARGET_CHARS } else { capped };
        if target < capped {
            let ws = window_start(start, target);
            let we = window_end(target, capped);
            assert(is_unicode_whitespace('\n')) by { assert(('\n' as u32) == 0x0a); }
            assert(!exists|p: int| is_para_cut(chars, ws, we, p)) by {
                if exists|p: int| is_para_cut(chars, ws, we, p) {
                    let p = choose|p: int| is_para_cut(chars, ws, we, p);
                    assert(!is_unicode_whitespace(chars[p - 1]));
                }
            }
            assert(!exists|p: int| is_line_cut(chars, ws, we, p)) by {
                if exists|p: int| is_line_cut(chars, ws, we, p) {
                    let p = choose|p: int| is_line_cut(chars, ws, we, p);
                    assert(!is_unicode_whitespace(chars[p - 1]));
                }
            }
            assert(!exists|p: int| is_word_cut(chars, ws, target, p)) by {
                if exists|p: int| is_word_cut(chars, ws, target, p) {
                    let p = choose|p: int| is_word_cut(chars, ws, target, p);
                    assert(!is_unicode_whitespace(chars[p - 1]));
                }
            }
            assert(snap_ok(chars, start, target, capped, target));
            lemma_snap_is_spec(chars, start, target, capped, target);
        }
        lemma_unbroken_segments(chars, target, capped, n + 1);
        let rest = segments_from(chars, target, capped, n + 1);
        let segs = segments_from(chars, start, capped, n);
        assert(segs == seq![chars.subrange(start, target)] + rest);
        assert(segs.first() == chars.subrange(start, target));
        assert(segs.drop_first() =~= rest);
        assert(segs.flatten() == chars.subrange(start, target) + rest.flatten());
    } else {
        assert(segments_from(chars, start, capped, n).flatten() =~= Seq::<char>::empty());
    }
}

/// The segments of a document, joined, are its leading characters, at
/// most `SEGMENT_MAX_CHARS` of them; for text without whitespace (where no
/// cut can snap back) they are exactly the first `SEGMENT_MAX_CHARS`, or
/// all of it when shorter.
pub proof fn split_covers_the_leading_text(chars: Seq<char>)
    ensures
        split_spec(chars).flatten() == chars.take(split_spec(chars).flatten().len() as int),
        split_spec(chars).flatten().len() <= SEGMENT_MAX_CHARS,
        no_whitespace(chars) ==> split_spec(chars).flatten().len() == if chars.len() <= SEGMENT_MAX_CHARS {
            chars.len() as int
        } else {
            SEGMENT_MAX_CHARS as int
        },
{
    let segs = split_spec(chars);
    if chars.len() == 0 {
        segs.lemma_flatten_one_element();
        assert(chars.take(0) =~= Seq::<char>::empty());
    } else if chars.len() <= SEGMENT_TARGET_CHARS {
        segs.lemma_flatten_one_element();
        assert(chars.take(chars.len() as int) =~= chars);
    } else {
        let capped = if chars.len() <= SEGMENT_MAX_CHARS { chars.len() as int } else { SEGMENT_MAX_CHARS as int };
        let s0 = segments_from(chars, 0, capped, 0);
        lemma_segments_shape(chars, 0, capped, 0);
        if no_whitespace(chars) {
            lemma_unbroken_segments(chars, 0, capped, 0);
        }
        if s0.len() == 0 {
            segs.lemma_flatten_one_element();
            assert(segs.flatten() == chars.take(SEGMENT_TARGET_CHARS as int));
            assert(s0.flatten() =~= Seq::<char>::empty());
        } else {
            assert(chars.subrange(0, s0.flatten().len() as int) =~= chars.take(s0.flatten().len() as int));
        }
    }
}

} // verus!
