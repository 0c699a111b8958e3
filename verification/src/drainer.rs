//! The decisions of the index-queue drainer.
//!
//! The drainer pops up to [`INDEXER_BATCH`] queue rows per tick, hands each
//! message to the indexer, deletes the row on success and records a failed
//! attempt otherwise; a row that fails [`MAX_ATTEMPTS`] times is flagged
//! permanently failed and logged once.  Between ticks it runs bounded embed
//! rounds and the (expensive) clustering pass only when enough embed work
//! has piled up, or when the queue goes idle after some embed work.  The
//! loop itself (timers, notifications, the indexer and storage calls) runs
//! outside; here are the state transitions it follows.

use vstd::prelude::*;

use crate::document::{build, build_spec};
use crate::search::{IndexError, IndexSubmit, MessageId};
use crate::text::{
    char_is_control, char_is_whitespace, chars_of, is_unicode_control, is_unicode_whitespace,
    string_from_chars, trim_end_len, trim_end_spec,
};

verus! {

/// Failed attempts after which a queue row is flagged permanently failed.
pub const MAX_ATTEMPTS: u32 = 5;

/// Queue rows pulled per tick.
pub const INDEXER_BATCH: usize = 32;

/// Embedded documents since the last clustering pass after which the
/// drainer forces another pass even though the queue is not idle.
pub const INDEX_REBUILD_THRESHOLD: usize = 256;

/// Most embed rounds run after one non-empty tick.
pub const MAX_EMBED_ROUNDS: usize = INDEXER_BATCH / 4;

/// Characters of an indexer error that are kept.
pub const MAX_ERROR_LEN: usize = 200;

/// Idle poll period, in milliseconds.
pub const IDLE_POLL_MS: u64 = 1000;

// ---------------------------------------------------------------- sanitize

/// Whitespace runs collapsed to one space (none at the start), control
/// characters dropped; the flag says whether the text ends in a space that
/// came from whitespace.
pub open spec fn collapse_spec(s: Seq<char>) -> (Seq<char>, bool)
    decreases s.len(),
{
    if s.len() == 0 {
        (Seq::empty(), false)
    } else {
        let (o, prev_space) = collapse_spec(s.drop_last());
        let c = s.last();
        if is_unicode_whitespace(c) {
            if !prev_space && o.len() > 0 { (o.push(' '), true) } else { (o, prev_space) }
        } else if is_unicode_control(c) {
            (o, prev_space)
        } else {
            (o.push(c), false)
        }
    }
}

/// The sanitized, single-line, bounded form of an indexer error.
pub open spec fn sanitize_spec(s: Seq<char>) -> Seq<char> {
    let t = trim_end_spec(collapse_spec(s).0);
    if t.len() > MAX_ERROR_LEN { t.take(MAX_ERROR_LEN as int).push('\u{2026}') } else { t }
}

/// Text that is safe to store and log on one line: no control character,
/// no whitespace but single spaces between words.
pub open spec fn is_single_clean_line(t: Seq<char>) -> bool {
    &&& forall|i: int| 0 <= i < t.len() ==> !is_unicode_control(#[trigger] t[i])
    &&& forall|i: int| 0 <= i < t.len() && is_unicode_whitespace(#[trigger] t[i]) ==> t[i] == ' '
    &&& forall|i: int| 0 < i < t.len() && #[trigger] t[i] == ' ' ==> t[i - 1] != ' '
    &&& (t.len() > 0 ==> t[0] != ' ')
}

proof fn lemma_collapse_clean(s: Seq<char>)
    ensures
        is_single_clean_line(collapse_spec(s).0),
        collapse_spec(s).1 <==> (collapse_spec(s).0.len() > 0 && collapse_spec(s).0.last() == ' '),
    decreases s.len(),
{
    if s.len() > 0 {
        lemma_collapse_clean(s.drop_last());
        let (o, p) = collapse_spec(s.drop_last());
        let r = collapse_spec(s).0;
        assert forall|i: int| 0 <= i < r.len() implies !is_unicode_control(#[trigger] r[i]) by {
            if i < o.len() { assert(r[i] == o[i]); }
        }
        assert forall|i: int| 0 <= i < r.len() && is_unicode_whitespace(#[trigger] r[i]) implies r[i] == ' ' by {
            if i < o.len() { assert(r[i] == o[i]); }
        }
        assert forall|i: int| 0 < i < r.len() && #[trigger] r[i] == ' ' implies r[i - 1] != ' ' by {
            if i < o.len() { assert(r[i] == o[i]); assert(r[i - 1] == o[i - 1]); }
            else { assert(r[i - 1] == o[i - 1]); }
        }
        if r.len() > 0 && o.len() > 0 { assert(r[0] == o[0]); }
    }
}

/// Collapses an indexer error into one bounded line safe to persist and
/// log: whitespace runs become one space, other control characters are
/// dropped, trailing whitespace is trimmed, and the result is cut to
/// [`MAX_ERROR_LEN`] characters followed by `…` when longer.
pub fn sanitize_error(raw: &str) -> (r: String)
    ensures
        r@ == sanitize_spec(raw@),
        r@.len() <= MAX_ERROR_LEN + 1,
        is_single_clean_line(if r@.len() > MAX_ERROR_LEN { r@.take(MAX_ERROR_LEN as int) } else { r@ }),
{
    let cs = chars_of(raw);
    let mut out: Vec<char> = Vec::new();
    let mut prev_space = false;
    let mut i: usize = 0;
    assert(cs@.take(0) =~= Seq::<char>::empty());
    while i < cs.len()
        invariant
            i <= cs.len(),
            cs@ == raw@,
            (out@, prev_space) == collapse_spec(cs@.take(i as int)),
        decreases cs.len() - i,
    {
        let ch = cs[i];
        assert(cs@.take(i + 1).drop_last() =~= cs@.take(i as int));
        assert(cs@.take(i + 1).last() == ch);
        if char_is_whitespace(ch) {
            if !prev_space && out.len() > 0 {
                out.push(' ');
                prev_space = true;
            }
        } else if char_is_control(ch) {
        } else {
            out.push(ch);
            prev_space = false;
        }
        i += 1;
    }
    assert(cs@.take(cs.len() as int) =~= cs@);
    let n = trim_end_len(&out, 0, out.len());
    assert(out@.subrange(0, out.len() as int) =~= out@);
    let ghost t = out@.subrange(0, n as int);
    proof {
        lemma_collapse_clean(raw@);
    }
    if n > MAX_ERROR_LEN {
        let mut v: Vec<char> = Vec::new();
        let mut j: usize = 0;
        while j < MAX_ERROR_LEN
            invariant
                j <= MAX_ERROR_LEN < n <= out.len(),
                v@ == out@.subrange(0, j as int),
            decreases MAX_ERROR_LEN - j,
        {
            v.push(out[j]);
            j += 1;
        }
        v.push('\u{2026}');
        assert(v@ =~= t.take(MAX_ERROR_LEN as int).push('\u{2026}'));
        let r = string_from_chars(v.as_slice());
        assert(r@.take(MAX_ERROR_LEN as int) =~= out@.subrange(0, MAX_ERROR_LEN as int));
        proof { lemma_prefix_clean(out@, MAX_ERROR_LEN as int); }
        r
    } else {
        let mut v: Vec<char> = Vec::new();
        let mut j: usize = 0;
        while j < n
            invariant
                j <= n <= out.len(),
                v@ == out@.subrange(0, j as int),
            decreases n - j,
        {
            v.push(out[j]);
            j += 1;
        }
        proof { lemma_prefix_clean(out@, n as int); }
        string_from_chars(v.as_slice())
    }
}

proof fn lemma_prefix_clean(t: Seq<char>, n: int)
    requires
        is_single_clean_line(t),
        0 <= n <= t.len(),
    ensures
        is_single_clean_line(t.subrange(0, n)),
{
    let p = t.subrange(0, n);
    assert forall|i: int| 0 < i < p.len() && #[trigger] p[i] == ' ' implies p[i - 1] != ' ' by {
        assert(p[i] == t[i] && p[i - 1] == t[i - 1]);
    }
    assert forall|i: int| 0 <= i < p.len() implies !is_unicode_control(#[trigger] p[i]) by {
        assert(p[i] == t[i]);
    }
    assert forall|i: int| 0 <= i < p.len() && is_unicode_whitespace(#[trigger] p[i]) implies p[i] == ' ' by {
        assert(p[i] == t[i]);
    }
}

// ---------------------------------------------------------------- failures

/// The failure category logged for a permanently failed row.
#[derive(Debug, Clone, Copy, PartialEq, Eq, Structural)]
pub enum FailureCategory {
    SingleMessageFullTextIndexerFailure,
    SingleMessageSemanticIndexerFailure,
}

impl FailureCategory {
    pub open spec fn name_spec(self) -> Seq<char> {
        match self {
            FailureCategory::SingleMessageFullTextIndexerFailure => "single-message full-text indexer failure"@,
            FailureCategory::SingleMessageSemanticIndexerFailure => "single-message semantic indexer failure"@,
        }
    }

    /// The category as it appears in the failure log.
    pub fn as_str(&self) -> (s: &'static str)
        ensures
            s@ == self.name_spec(),
    {
        match self {
            FailureCategory::SingleMessageFullTextIndexerFailure => "single-message full-text indexer failure",
            FailureCategory::SingleMessageSemanticIndexerFailure => "single-message semantic indexer failure",
        }
    }
}

/// No indexer error singles out the embedding pipeline yet.
pub fn is_semantic_only(err: &IndexError) -> (b: bool)
    ensures
        !b,
{
    false
}

/// The category a permanently failed indexer error is logged under.
pub fn category_for_error(err: &IndexError) -> (c: FailureCategory)
    ensures
        c == FailureCategory::SingleMessageFullTextIndexerFailure,
{
    if is_semantic_only(err) {
        FailureCategory::SingleMessageSemanticIndexerFailure
    } else {
        FailureCategory::SingleMessageFullTextIndexerFailure
    }
}

// ---------------------------------------------------------------- rows

/// The text of an indexer error, as its `Display` shows it.
pub open spec fn error_message_spec(e: IndexError) -> Seq<char> {
    match e {
        IndexError::Upstream(s) => "upstream witchcraft error: "@ + s@,
        IndexError::Io(s) => "io: "@ + s@,
    }
}

/// The text of an indexer error.
pub fn error_message(e: &IndexError) -> (m: String)
    ensures
        m@ == error_message_spec(*e),
{
    let mut out: Vec<char> = Vec::new();
    let (prefix, detail) = match e {
        IndexError::Upstream(s) => (chars_of("upstream witchcraft error: "), chars_of(s.as_str())),
        IndexError::Io(s) => (chars_of("io: "), chars_of(s.as_str())),
    };
    crate::text::push_range(&mut out, &prefix, 0, prefix.len());
    crate::text::push_range(&mut out, &detail, 0, detail.len());
    assert(prefix@.subrange(0, prefix.len() as int) =~= prefix@);
    assert(detail@.subrange(0, detail.len() as int) =~= detail@);
    assert(out@ =~= prefix@ + detail@);
    string_from_chars(out.as_slice())
}

/// The submission for one queued message: its id and its built document.
pub fn submission_for(
    message_id: &str,
    subject: Option<&str>,
    sender_addr: &str,
    sender_name: Option<&str>,
    body_md: &str,
) -> (s: IndexSubmit)
    ensures
        s.message_id.0@ == message_id@,
        s.document@ == build_spec(
            match subject { Some(x) => Some(x@), None => None },
            sender_addr@,
            match sender_name { Some(n) => Some(n@), None => None },
            body_md@,
        ),
{
    IndexSubmit {
        message_id: MessageId::new(message_id.to_owned()),
        document: build(subject, sender_addr, sender_name, body_md),
    }
}

/// What the drainer does with a queue row once the indexer answered.
#[derive(Debug)]
pub enum SubmitFollowUp {
    /// Indexed: the queue row is deleted.
    DeleteQueueRow,
    /// Failed: one more attempt is recorded with this (sanitized) error.
    RecordFailure { error: String, max_attempts: u32 },
}

/// The follow-up to the indexer's answer for one row.
pub fn after_submit(result: &Result<(), IndexError>) -> (f: SubmitFollowUp)
    ensures
        match (result, f) {
            (Ok(()), SubmitFollowUp::DeleteQueueRow) => true,
            (Err(e), SubmitFollowUp::RecordFailure { error, max_attempts }) =>
                error@ == sanitize_spec(error_message_spec(*e)) && max_attempts == MAX_ATTEMPTS,
            _ => false,
        },
{
    match result {
        Ok(()) => SubmitFollowUp::DeleteQueueRow,
        Err(e) => {
            let m = error_message(e);
            SubmitFollowUp::RecordFailure { error: sanitize_error(m.as_str()), max_attempts: MAX_ATTEMPTS }
        },
    }
}

/// The category to log once a failure turned a row permanent; nothing to
/// log while the row stays drainable.
pub fn failure_log_category(permanent: bool, err: &IndexError) -> (c: Option<FailureCategory>)
    ensures
        permanent ==> c == Some(FailureCategory::SingleMessageFullTextIndexerFailure),
        !permanent ==> c is None,
{
    if permanent { Some(category_for_error(err)) } else { None }
}

// ---------------------------------------------------------------- loop

/// Drainer loop state: documents embedded since the last clustering pass.
#[derive(Debug, Clone, Copy, PartialEq, Eq, Structural)]
pub struct DrainState {
    pub embeds_since_last_index: usize,
}

/// What one tick of the queue gave.
#[derive(Debug, Clone, Copy, PartialEq, Eq, Structural)]
pub enum TickOutcome {
    /// The number of rows processed; 0 when the queue was empty.
    Drained(usize),
    /// The queue could not be read.
    QueueReadFailed,
}

/// What the loop does after a tick.
#[derive(Debug, Clone, Copy, PartialEq, Eq, Structural)]
pub enum TickAction {
    /// Queue empty: run the clustering pass first if asked, then wait for
    /// an enqueue notification, the idle poll, or shutdown.
    Idle { flush_index_first: bool },
    /// Rows were processed: run up to [`MAX_EMBED_ROUNDS`] embed rounds.
    Embed,
    /// The queue read failed: wait one idle poll (or shutdown).
    BackOff,
}

/// What one embed round gave.
#[derive(Debug, Clone, Copy, PartialEq, Eq, Structural)]
pub enum EmbedOutcome {
    Embedded(usize),
    Failed,
}

/// The transition after a tick.
pub open spec fn on_tick_spec(s: DrainState, outcome: TickOutcome) -> (DrainState, TickAction) {
    match outcome {
        TickOutcome::Drained(n) => if n == 0 {
            if s.embeds_since_last_index > 0 {
                (DrainState { embeds_since_last_index: 0 }, TickAction::Idle { flush_index_first: true })
            } else {
                (s, TickAction::Idle { flush_index_first: false })
            }
        } else {
            (s, TickAction::Embed)
        },
        TickOutcome::QueueReadFailed => (s, TickAction::BackOff),
    }
}

/// The transition after embed round `round` (counting from 0): the count
/// grows (saturating) by what was embedded, and another round runs only
/// after a round that embedded something, up to [`MAX_EMBED_ROUNDS`].
pub open spec fn on_embed_round_spec(s: DrainState, round: int, outcome: EmbedOutcome) -> (DrainState, bool) {
    match outcome {
        EmbedOutcome::Embedded(k) => if k == 0 {
            (s, false)
        } else {
            let total = if s.embeds_since_last_index + k <= usize::MAX {
                (s.embeds_since_last_index + k) as usize
            } else {
                usize::MAX
            };
            (DrainState { embeds_since_last_index: total }, round + 1 < MAX_EMBED_ROUNDS)
        },
        EmbedOutcome::Failed => (s, false),
    }
}

/// After the embed rounds: the clustering pass runs once the count reaches
/// [`INDEX_REBUILD_THRESHOLD`], and the count starts again.
pub open spec fn after_embed_rounds_spec(s: DrainState) -> (DrainState, bool) {
    if s.embeds_since_last_index >= INDEX_REBUILD_THRESHOLD {
        (DrainState { embeds_since_last_index: 0 }, true)
    } else {
        (s, false)
    }
}

impl DrainState {
    pub fn new() -> (s: DrainState)
        ensures
            s.embeds_since_last_index == 0,
    {
        DrainState { embeds_since_last_index: 0 }
    }

    /// The transition after a tick.
    pub fn on_tick(self, outcome: TickOutcome) -> (r: (DrainState, TickAction))
        ensures
            r == on_tick_spec(self, outcome),
    {
        match outcome {
            TickOutcome::Drained(0) => {
                if self.embeds_since_last_index > 0 {
                    (DrainState { embeds_since_last_index: 0 }, TickAction::Idle { flush_index_first: true })
                } else {
                    (self, TickAction::Idle { flush_index_first: false })
                }
            },
            TickOutcome::Drained(_) => (self, TickAction::Embed),
            TickOutcome::QueueReadFailed => (self, TickAction::BackOff),
        }
    }

    /// The transition after embed round `round` (counting from 0); the flag
    /// says whether another round runs.
    pub fn on_embed_round(self, round: usize, outcome: EmbedOutcome) -> (r: (DrainState, bool))
        ensures
            r == on_embed_round_spec(self, round as int, outcome),
    {
        match outcome {
            EmbedOutcome::Embedded(0) => (self, false),
            EmbedOutcome::Embedded(k) => {
                let total = self.embeds_since_last_index.saturating_add(k);
                (DrainState { embeds_since_last_index: total }, round < MAX_EMBED_ROUNDS - 1)
            },
            EmbedOutcome::Failed => (self, false),
        }
    }

    /// After the embed rounds: whether the clustering pass runs now.
    pub fn after_embed_rounds(self) -> (r: (DrainState, bool))
        ensures
            r == after_embed_rounds_spec(self),
    {
        if self.embeds_since_last_index >= INDEX_REBUILD_THRESHOLD {
            (DrainState { embeds_since_last_index: 0 }, true)
        } else {
            (self, false)
        }
    }
}

/// The clustering pass is never asked for without embed work since the
/// last pass, and the count starts again from zero whenever it is asked
/// for; a tick that drained rows or failed never asks for it.
pub proof fn flush_index_only_after_embed_work(s: DrainState, t: TickOutcome)
    ensures
        on_tick_spec(s, t).1 == (TickAction::Idle { flush_index_first: true }) ==> {
            &&& s.embeds_since_last_index > 0
            &&& on_tick_spec(s, t).0.embeds_since_last_index == 0
        },
        after_embed_rounds_spec(s).1 ==> {
            &&& s.embeds_since_last_index > 0
            &&& after_embed_rounds_spec(s).0.embeds_since_last_index == 0
        },
        t != TickOutcome::Drained(0) ==> on_tick_spec(s, t).0 == s,
{
}

/// Embed rounds after one tick are bounded: no round past
/// [`MAX_EMBED_ROUNDS`] is ever asked for, and a round that embedded
/// nothing or failed ends them.
pub proof fn embed_rounds_are_bounded(s: DrainState, round: int, o: EmbedOutcome)
    ensures
        on_embed_round_spec(s, round, o).1 ==> round + 1 < MAX_EMBED_ROUNDS,
        (o == EmbedOutcome::Failed || o == EmbedOutcome::Embedded(0)) ==> !on_embed_round_spec(s, round, o).1,
        on_embed_round_spec(s, round, o).0.embeds_since_last_index >= s.embeds_since_last_index,
{
}

} // verus!

verus! {

proof fn lemma_trim_end(u: Seq<char>)
    ensures
        trim_end_spec(u) == u.take(trim_end_spec(u).len() as int),
        trim_end_spec(u).len() <= u.len(),
        trim_end_spec(u).len() > 0 ==> !is_unicode_whitespace(trim_end_spec(u).last()),
    decreases u.len(),
{
    if u.len() > 0 && is_unicode_whitespace(u.last()) {
        lemma_trim_end(u.drop_last());
        let t = trim_end_spec(u.drop_last());
        assert(u.drop_last().take(t.len() as int) =~= u.take(t.len() as int));
    } else {
        assert(u.take(u.len() as int) =~= u);
    }
}

proof fn lemma_collapse_of_clean(t: Seq<char>)
    requires
        is_single_clean_line(t),
    ensures
        collapse_spec(t).0 == t,
        collapse_spec(t).1 <==> (t.len() > 0 && t.last() == ' '),
    decreases t.len(),
{
    if t.len() > 0 {
        let p = t.drop_last();
        assert(p =~= t.subrange(0, t.len() - 1));
        lemma_prefix_clean(t, t.len() - 1);
        lemma_collapse_of_clean(p);
        let c = t.last();
        assert(t[t.len() - 1] == c);
        if is_unicode_whitespace(c) {
            assert(c == ' ');
            assert(t.len() > 1);
            assert(p.last() == t[t.len() - 2]);
            assert(p.last() != ' ');
            assert(p.push(c) =~= t);
        } else {
            assert(!is_unicode_control(c));
            assert(p.push(c) =~= t);
        }
    }
}

proof fn lemma_clean_push(p: Seq<char>, c: char)
    requires
        is_single_clean_line(p),
        !is_unicode_whitespace(c),
        !is_unicode_control(c),
    ensures
        is_single_clean_line(p.push(c)),
{
    let t = p.push(c);
    assert forall|i: int| 0 <= i < t.len() implies !is_unicode_control(#[trigger] t[i]) by {
        if i < p.len() { assert(t[i] == p[i]); }
    }
    assert forall|i: int| 0 <= i < t.len() && is_unicode_whitespace(#[trigger] t[i]) implies t[i] == ' ' by {
        if i < p.len() { assert(t[i] == p[i]); }
    }
    assert forall|i: int| 0 < i < t.len() && #[trigger] t[i] == ' ' implies t[i - 1] != ' ' by {
        if i < p.len() { assert(t[i] == p[i]); assert(t[i - 1] == p[i - 1]); }
        else { assert(t[i] == c); assert(is_unicode_whitespace(' ')) by { assert((' ' as u32) == 0x20); } }
    }
    if p.len() > 0 { assert(t[0] == p[0]); } else {
        assert(t[0] == c);
        assert(is_unicode_whitespace(' ')) by { assert((' ' as u32) == 0x20); }
    }
}

/// An error that is already one clean line of at most [`MAX_ERROR_LEN`]
/// characters, not ending in a space, is left exactly as it is.
pub proof fn sanitize_keeps_clean_short_lines(t: Seq<char>)
    requires
        is_single_clean_line(t),
        t.len() <= MAX_ERROR_LEN,
        t.len() > 0 ==> t.last() != ' ',
    ensures
        sanitize_spec(t) == t,
{
    lemma_collapse_of_clean(t);
    if t.len() > 0 {
        assert(!is_unicode_whitespace(t.last())) by {
            if is_unicode_whitespace(t.last()) {
                assert(t[t.len() - 1] == t.last());
            }
        }
    }
}

/// Sanitizing is idempotent; what it gives has no control character, only
/// single spaces as whitespace, no space at either end, and at most
/// [`MAX_ERROR_LEN`] characters plus a final `…` when it was cut.
pub proof fn sanitize_is_idempotent(raw: Seq<char>)
    ensures
        sanitize_spec(sanitize_spec(raw)) == sanitize_spec(raw),
        is_single_clean_line(sanitize_spec(raw)),
        sanitize_spec(raw).len() > 0 ==> sanitize_spec(raw).last() != ' ',
        sanitize_spec(raw).len() <= MAX_ERROR_LEN + 1,
        sanitize_spec(raw).len() == MAX_ERROR_LEN + 1 ==> sanitize_spec(raw).last() == '\u{2026}',
{
    let c = collapse_spec(raw).0;
    lemma_collapse_clean(raw);
    lemma_trim_end(c);
    let t = trim_end_spec(c);
    lemma_prefix_clean(c, t.len() as int);
    assert(c.subrange(0, t.len() as int) =~= t);
    let s = sanitize_spec(raw);
    assert(is_unicode_whitespace(' ')) by { assert((' ' as u32) == 0x20); }
    assert(!is_unicode_whitespace('\u{2026}') && !is_unicode_control('\u{2026}')) by {
        assert(('\u{2026}' as u32) == 0x2026);
    }
    if t.len() > MAX_ERROR_LEN {
        let head = t.take(MAX_ERROR_LEN as int);
        lemma_prefix_clean(t, MAX_ERROR_LEN as int);
        assert(t.subrange(0, MAX_ERROR_LEN as int) =~= head);
        lemma_clean_push(head, '\u{2026}');
        assert(s == head.push('\u{2026}'));
        lemma_collapse_of_clean(s);
        lemma_trim_end(s);
        assert(trim_end_spec(s) == s);
        assert(s.take(MAX_ERROR_LEN as int) =~= head);
    } else {
        assert(s == t);
        if t.len() > 0 {
            assert(t.last() != ' ');
        }
        sanitize_keeps_clean_short_lines(t);
    }
}

} // verus!
