//! Stable types shared by the indexer, the drainer and the search path.

use vstd::prelude::*;

use crate::text::{chars_eq, chars_of, push_str_chars, string_from_chars};

verus! {

/// Stable internal identifier of one message: the storage row's
/// `message_id`.
#[derive(Debug, Clone, PartialEq, Eq, Hash)]
pub struct MessageId(pub String);

impl MessageId {
    pub fn new(s: String) -> (id: MessageId)
        ensures
            id.0@ == s@,
    {
        MessageId(s)
    }

    pub fn as_str(&self) -> (s: &str)
        ensures
            s@ == self.0@,
    {
        self.0.as_str()
    }
}

/// How a query is matched.
#[derive(Debug, Clone, Copy, PartialEq, Eq, Structural)]
pub enum Mode {
    FullText,
    Semantic,
    Hybrid,
}

impl Mode {
    pub open spec fn name_spec(self) -> Seq<char> {
        match self {
            Mode::FullText => seq!['f', 'u', 'l', 'l', 't', 'e', 'x', 't'],
            Mode::Semantic => seq!['s', 'e', 'm', 'a', 'n', 't', 'i', 'c'],
            Mode::Hybrid => seq!['h', 'y', 'b', 'r', 'i', 'd'],
        }
    }

    /// The mode as it is spelled on the wire.
    pub fn as_str(&self) -> (s: &'static str)
        ensures
            s@ == self.name_spec(),
    {
        proof {
            reveal_strlit("fulltext");
            reveal_strlit("semantic");
            reveal_strlit("hybrid");
        }
        match self {
            Mode::FullText => "fulltext",
            Mode::Semantic => "semantic",
            Mode::Hybrid => "hybrid",
        }
    }

    /// The default mode, full text.
    pub fn default_mode() -> (m: Mode)
        ensures
            m == Mode::FullText,
    {
        Mode::FullText
    }

    /// Parses a mode name; any other text is refused.
    pub fn from_name(s: &str) -> (r: Result<Mode, String>)
        ensures
            match r {
                Ok(m) => m.name_spec() == s@,
                Err(e) => (forall|m: Mode| m.name_spec() != s@) && e@ == unknown_mode_spec(s@),
            },
    {
        let cs = chars_of(s);
        let ft = chars_of("fulltext");
        let se = chars_of("semantic");
        let hy = chars_of("hybrid");
        proof {
            reveal_strlit("fulltext");
            reveal_strlit("semantic");
            reveal_strlit("hybrid");
        }
        if chars_eq(&cs, &ft) {
            Ok(Mode::FullText)
        } else if chars_eq(&cs, &se) {
            Ok(Mode::Semantic)
        } else if chars_eq(&cs, &hy) {
            Ok(Mode::Hybrid)
        } else {
            proof {
                assert forall|m: Mode| m.name_spec() != s@ by {
                    match m {
                        Mode::FullText => assert(ft@ =~= m.name_spec()),
                        Mode::Semantic => assert(se@ =~= m.name_spec()),
                        Mode::Hybrid => assert(hy@ =~= m.name_spec()),
                    }
                }
            }
            Err(unknown_mode_message(s))
        }
    }
}

/// The names of the modes are pairwise distinct, so a mode's name parses
/// back to that mode.
pub proof fn mode_names_distinct(a: Mode, b: Mode)
    ensures
        a.name_spec() == b.name_spec() <==> a == b,
{
    if a != b {
        assert(a.name_spec()[0] != b.name_spec()[0]);
    }
}

impl std::str::FromStr for Mode {
    type Err = String;

    fn from_str(s: &str) -> (r: Result<Mode, String>)
        ensures
            match r {
                Ok(m) => m.name_spec() == s@,
                Err(e) => (forall|m: Mode| m.name_spec() != s@) && e@ == unknown_mode_spec(s@),
            },
    {
        Mode::from_name(s)
    }
}

impl Default for Mode {
    fn default() -> (m: Mode)
        ensures
            m == Mode::FullText,
    {
        Mode::FullText
    }
}

/// Floor for the number of candidates asked of the indexer.
pub const K_MIN: usize = 200;

/// Multiplier applied to a caller's limit to get the number of candidates
/// (`max(limit * K_MULTIPLIER, K_MIN)`).
pub const K_MULTIPLIER: usize = 5;

/// The number of candidates to ask the indexer for, for a caller's
/// `limit`: `max(limit * K_MULTIPLIER, K_MIN)`, the product saturating at
/// `usize::MAX`.
pub fn candidate_k(limit: usize) -> (k: usize)
    ensures
        k == if limit * K_MULTIPLIER > usize::MAX {
            usize::MAX as int
        } else if limit * K_MULTIPLIER >= K_MIN {
            limit * K_MULTIPLIER
        } else {
            K_MIN as int
        },
{
    let grown = limit.checked_mul(K_MULTIPLIER);
    match grown {
        Some(g) => if g >= K_MIN { g } else { K_MIN },
        None => usize::MAX,
    }
}

/// The refusal of a mode name `s`:
/// ``unknown mode `<s>`; expected fulltext|semantic|hybrid``.
pub open spec fn unknown_mode_spec(s: Seq<char>) -> Seq<char> {
    "unknown mode `"@ + s + "`; expected fulltext|semantic|hybrid"@
}

fn unknown_mode_message(s: &str) -> (m: String)
    ensures
        m@ == unknown_mode_spec(s@),
{
    let mut out: Vec<char> = Vec::new();
    push_str_chars(&mut out, "unknown mode `");
    push_str_chars(&mut out, s);
    push_str_chars(&mut out, "`; expected fulltext|semantic|hybrid");
    assert(out@ =~= unknown_mode_spec(s@));
    string_from_chars(out.as_slice())
}

/// What the drainer hands to the indexer for one queue row.
#[derive(Debug, Clone)]
pub struct IndexSubmit {
    pub message_id: MessageId,
    pub document: String,
}

/// The index of the first `:` in `id` at or after `i`, or its length.
pub open spec fn first_colon_from(id: Seq<char>, i: int) -> int
    decreases id.len() - i,
{
    if i < 0 || i >= id.len() {
        id.len() as int
    } else if id[i] == ':' {
        i
    } else {
        first_colon_from(id, i + 1)
    }
}

/// The account a message id belongs to: its part before the first `:`.
pub open spec fn account_of(id: Seq<char>) -> Seq<char> {
    id.take(first_colon_from(id, 0))
}

/// Whether a message id is within an account scope: every id is when the
/// scope is empty, else those whose account is listed.
pub open spec fn in_scope(scope: Seq<Seq<char>>, id: Seq<char>) -> bool {
    scope.len() == 0 || scope.contains(account_of(id))
}

pub open spec fn scope_view(scope: Seq<String>) -> Seq<Seq<char>> {
    scope.map_values(|s: String| s@)
}

proof fn lemma_first_colon(id: Seq<char>, i: int)
    requires
        0 <= i <= id.len(),
    ensures
        i <= first_colon_from(id, i) <= id.len(),
    decreases id.len() - i,
{
    if i < id.len() && id[i] != ':' {
        lemma_first_colon(id, i + 1);
    }
}

/// Whether the message id `id` is within the account scope `scope`.
pub fn id_in_scope(scope: &Vec<String>, id: &str) -> (b: bool)
    ensures
        b == in_scope(scope_view(scope@), id@),
{
    if scope.len() == 0 {
        return true;
    }
    let cs = chars_of(id);
    let mut i: usize = 0;
    while i < cs.len() && cs[i] != ':'
        invariant
            i <= cs.len(),
            cs@ == id@,
            first_colon_from(id@, 0) == first_colon_from(id@, i as int),
        decreases cs.len() - i,
    {
        i += 1;
    }
    let mut acct: Vec<char> = Vec::new();
    let mut j: usize = 0;
    while j < i
        invariant
            j <= i <= cs.len(),
            acct@ == cs@.take(j as int),
        decreases i - j,
    {
        acct.push(cs[j]);
        assert(cs@.take(j + 1) =~= cs@.take(j as int).push(cs@[j as int]));
        j += 1;
    }
    assert(acct@ == account_of(id@));
    let ghost sv = scope_view(scope@);
    let mut k: usize = 0;
    while k < scope.len()
        invariant
            k <= scope.len(),
            sv == scope_view(scope@),
            acct@ == account_of(id@),
            forall|m: int| 0 <= m < k ==> sv[m] != account_of(id@),
        decreases scope.len() - k,
    {
        let entry = chars_of(scope[k].as_str());
        if chars_eq(&entry, &acct) {
            assert(sv[k as int] == account_of(id@));
            return true;
        }
        k += 1;
    }
    assert(!sv.contains(account_of(id@)));
    false
}

/// What a search asks of the indexer.
#[derive(Debug, Clone)]
pub struct SearchQuery {
    pub q: String,
    pub mode: Mode,
    pub k: usize,
    /// Account scope: empty means all accounts, otherwise only hits whose
    /// account is listed.
    pub account_ids: Vec<String>,
}

/// Why an indexer call failed.
#[derive(Debug)]
pub enum IndexError {
    Upstream(String),
    Io(String),
}

/// Why a search failed.
#[derive(Debug)]
pub enum SearchError {
    Upstream(String),
}

} // verus!
