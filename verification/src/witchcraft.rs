//! The pieces of the semantic indexer binding that do not need the model:
//! how a message id maps to the index's document key and metadata, and how
//! search results map back.

use vstd::prelude::*;
use vstd::string::StringSliceAdditionalSpecFns;
use vstd::utf8::encode_utf8;

use crate::digest::hex_digit;
use crate::search::{account_of, id_in_scope, in_scope, scope_view, MessageId, Mode};
use crate::text::{push_str_chars, string_from_chars};

verus! {

/// Most dirty documents embedded per flush, so the index lock is released
/// often enough for submissions and searches to interleave.
pub const FLUSH_EMBED_BATCH: usize = 4;

/// Fixed namespace of the message-id → UUID v5 derivation.
pub const SCRYD_NAMESPACE: u128 = 0xc092702c_5d38_4e2a_91d1_f16f8aa531b8u128;

/// The name-based (SHA-1) UUID of `name` in `namespace`, as a 128-bit value.
pub uninterp spec fn uuid_v5_of(namespace: u128, name: Seq<u8>) -> u128;

/// `uuid::Uuid::new_v5`: the version-5 UUID of `name` in `namespace`.
#[verifier::external_body]
pub(crate) fn uuid_v5(namespace: u128, name: &[u8]) -> (u: u128)
    ensures
        u == uuid_v5_of(namespace, name@),
{
    uuid::Uuid::new_v5(&uuid::Uuid::from_u128(namespace), name).as_u128()
}

/// The index document key of a message: deterministic, stable across
/// restarts.
pub fn message_id_to_uuid(id: &MessageId) -> (u: u128)
    ensures
        u == uuid_v5_of(SCRYD_NAMESPACE, encode_utf8(id.0@)),
{
    uuid_v5(SCRYD_NAMESPACE, id.as_str().as_bytes())
}

/// One character as it appears inside a JSON string literal: `"` and `\`
/// and the ASCII control characters escaped (the short forms `\b`, `\t`,
/// `\n`, `\f`, `\r` where they exist, else `\u00` and two lowercase hex
/// digits); every other character as it is.
pub open spec fn json_escape_char(c: char) -> Seq<char> {
    let u = c as u32;
    if c == '"' {
        seq!['\\', '"']
    } else if c == '\\' {
        seq!['\\', '\\']
    } else if u == 0x08 {
        seq!['\\', 'b']
    } else if u == 0x09 {
        seq!['\\', 't']
    } else if u == 0x0a {
        seq!['\\', 'n']
    } else if u == 0x0c {
        seq!['\\', 'f']
    } else if u == 0x0d {
        seq!['\\', 'r']
    } else if u < 0x20 {
        seq!['\\', 'u', '0', '0', hex_digit((u / 16) as nat), hex_digit((u % 16) as nat)]
    } else {
        seq![c]
    }
}

pub open spec fn json_escaped(s: Seq<char>) -> Seq<char>
    decreases s.len(),
{
    if s.len() == 0 { Seq::empty() } else { json_escaped(s.drop_last()) + json_escape_char(s.last()) }
}

/// The JSON string literal of some text: quoted, with each character
/// escaped as [`json_escape_char`] says.
pub open spec fn json_string_of(s: Seq<char>) -> Seq<char> {
    seq!['"'] + json_escaped(s) + seq!['"']
}

/// `serde_json::to_string` of a string: its JSON string literal, quoted and
/// escaped as the compact formatter writes it.
#[verifier::external_body]
pub(crate) fn json_string(s: &str) -> (j: String)
    ensures
        j@ == json_string_of(s@),
{
    serde_json::to_string(s).unwrap_or_default()
}

/// The string value under `key` of the JSON object `text`, when `text`
/// parses as an object with a string there.
pub uninterp spec fn json_string_field_of(text: Seq<char>, key: Seq<char>) -> Option<Seq<char>>;

/// `serde_json::from_str::<Value>(text)`, then the string under `key`.
#[verifier::external_body]
pub(crate) fn json_string_field(text: &str, key: &str) -> (r: Option<String>)
    ensures
        match r {
            Some(s) => json_string_field_of(text@, key@) == Some(s@),
            None => json_string_field_of(text@, key@) is None,
        },
{
    match serde_json::from_str::<serde_json::Value>(text) {
        Ok(v) => match v.get(key) {
            Some(f) => match f.as_str() {
                Some(s) => Some(s.to_string()),
                None => None,
            },
            None => None,
        },
        Err(_) => None,
    }
}

/// The metadata stored with a document: `{"id":<message id>}`.
pub open spec fn metadata_spec(id: Seq<char>) -> Seq<char> {
    "{\"id\":"@ + json_string_of(id) + "}"@
}

/// The metadata stored with a message's document.
pub fn metadata_for(id: &MessageId) -> (m: String)
    ensures
        m@ == metadata_spec(id.0@),
{
    let mut out: Vec<char> = Vec::new();
    push_str_chars(&mut out, "{\"id\":");
    let j = json_string(id.as_str());
    push_str_chars(&mut out, j.as_str());
    push_str_chars(&mut out, "}");
    string_from_chars(out.as_slice())
}

/// The message id recorded in a document's metadata, if it has one.
pub fn parse_metadata_id(metadata: &str) -> (r: Option<String>)
    ensures
        match r {
            Some(s) => json_string_field_of(metadata@, "id"@) == Some(s@),
            None => json_string_field_of(metadata@, "id"@) is None,
        },
{
    json_string_field(metadata, "id")
}

/// Whether a search in this mode also matches full text.
pub fn use_fulltext(mode: Mode) -> (b: bool)
    ensures
        b == (mode == Mode::FullText || mode == Mode::Hybrid),
{
    match mode {
        Mode::FullText | Mode::Hybrid => true,
        Mode::Semantic => false,
    }
}

/// The matching chunk of a semantic hit; none in full-text and hybrid
/// modes (their snippet is made from the body) or when the chunk index is
/// out of range.
pub fn semantic_snippet(mode: Mode, bodies: &Vec<String>, sub_idx: usize) -> (s: Option<String>)
    ensures
        match s {
            Some(t) => mode == Mode::Semantic && sub_idx < bodies.len() && t@ == bodies@[sub_idx as int]@,
            None => mode != Mode::Semantic || sub_idx >= bodies.len(),
        },
{
    match mode {
        Mode::Semantic => {
            if sub_idx < bodies.len() {
                Some(bodies[sub_idx].clone())
            } else {
                None
            }
        },
        Mode::FullText | Mode::Hybrid => None,
    }
}

} // verus!

verus! {

/// One row of the index's answer to a search, its score aside: the stored
/// metadata, the document's chunk bodies, and which chunk matched.
#[derive(Debug, Clone)]
pub struct RawHit {
    pub metadata: String,
    pub bodies: Vec<String>,
    pub sub_idx: usize,
}

/// A row that maps back to a message: its position among the raw rows
/// (whose score the caller keeps), the message id, and the matching chunk
/// in semantic and hybrid modes.
#[derive(Debug, Clone)]
pub struct FoundHit {
    pub row: usize,
    pub message_id: MessageId,
    pub semantic_snippet: Option<String>,
}

pub open spec fn snippet_spec(mode: Mode, bodies: Seq<Seq<char>>, sub_idx: int) -> Option<Seq<char>> {
    if mode == Mode::Semantic && 0 <= sub_idx < bodies.len() { Some(bodies[sub_idx]) } else { None }
}

pub open spec fn raw_bodies(r: RawHit) -> Seq<Seq<char>> {
    r.bodies@.map_values(|b: String| b@)
}

/// The rows whose metadata names a message within the account scope, in
/// order, as (row, id, snippet).
pub open spec fn found_spec(mode: Mode, raws: Seq<RawHit>, scope: Seq<Seq<char>>) -> Seq<(int, Seq<char>, Option<Seq<char>>)>
    decreases raws.len(),
{
    if raws.len() == 0 {
        Seq::empty()
    } else {
        let prev = found_spec(mode, raws.drop_last(), scope);
        let r = raws.last();
        match json_string_field_of(r.metadata@, "id"@) {
            Some(id) => if in_scope(scope, id) {
                prev.push(((raws.len() - 1) as int, id, snippet_spec(mode, raw_bodies(r), r.sub_idx as int)))
            } else {
                prev
            },
            None => prev,
        }
    }
}

pub open spec fn found_view(f: FoundHit) -> (int, Seq<char>, Option<Seq<char>>) {
    (
        f.row as int,
        f.message_id.0@,
        match f.semantic_snippet { Some(s) => Some(s@), None => None },
    )
}

/// Maps the index's answer back to messages: rows whose metadata carries no
/// message id, or the id of a message outside the account scope, are
/// dropped; the others keep their order.
pub fn collect_hits(mode: Mode, raws: &Vec<RawHit>, scope: &Vec<String>) -> (hits: Vec<FoundHit>)
    ensures
        hits@.map_values(|f: FoundHit| found_view(f)) == found_spec(mode, raws@, scope_view(scope@)),
{
    let ghost sv = scope_view(scope@);
    let mut hits: Vec<FoundHit> = Vec::new();
    let mut i: usize = 0;
    assert(raws@.take(0) =~= Seq::<RawHit>::empty());
    assert(hits@.map_values(|f: FoundHit| found_view(f)) =~= Seq::<(int, Seq<char>, Option<Seq<char>>)>::empty());
    while i < raws.len()
        invariant
            i <= raws.len(),
            sv == scope_view(scope@),
            hits@.map_values(|f: FoundHit| found_view(f)) == found_spec(mode, raws@.take(i as int), sv),
        decreases raws.len() - i,
    {
        proof {
            assert(raws@.take(i + 1).drop_last() =~= raws@.take(i as int));
            assert(raws@.take(i + 1).last() == raws@[i as int]);
            reveal_strlit("id");
        }
        let r = &raws[i];
        match parse_metadata_id(r.metadata.as_str()) {
            Some(id) if id_in_scope(scope, id.as_str()) => {
                let snippet = semantic_snippet(mode, &r.bodies, r.sub_idx);
                let ghost before = hits@.map_values(|f: FoundHit| found_view(f));
                let f = FoundHit { row: i, message_id: MessageId(id), semantic_snippet: snippet };
                assert(found_view(f).2 == snippet_spec(mode, raw_bodies(*r), r.sub_idx as int));
                hits.push(f);
                assert(hits@.map_values(|f: FoundHit| found_view(f)) =~= before.push(found_view(f)));
            },
            Some(_) => {},
            None => {},
        }
        i += 1;
    }
    assert(raws@.take(raws.len() as int) =~= raws@);
    hits
}

} // verus!

verus! {

/// Every collected hit is a message within the account scope (any message
/// when the scope is empty), and only semantic hits carry a snippet.
pub proof fn collected_hits_are_in_scope(mode: Mode, raws: Seq<RawHit>, scope: Seq<Seq<char>>)
    ensures
        forall|i: int| 0 <= i < found_spec(mode, raws, scope).len() ==> {
            &&& in_scope(scope, (#[trigger] found_spec(mode, raws, scope)[i]).1)
            &&& (scope.len() > 0 ==> scope.contains(account_of(found_spec(mode, raws, scope)[i].1)))
            &&& (mode != Mode::Semantic ==> found_spec(mode, raws, scope)[i].2 is None)
            &&& 0 <= found_spec(mode, raws, scope)[i].0 < raws.len()
        },
    decreases raws.len(),
{
    if raws.len() > 0 {
        collected_hits_are_in_scope(mode, raws.drop_last(), scope);
        let pr = found_spec(mode, raws.drop_last(), scope);
        let r = found_spec(mode, raws, scope);
        assert forall|i: int| 0 <= i < r.len() implies {
            &&& in_scope(scope, (#[trigger] r[i]).1)
            &&& (scope.len() > 0 ==> scope.contains(account_of(r[i].1)))
            &&& (mode != Mode::Semantic ==> r[i].2 is None)
            &&& 0 <= r[i].0 < raws.len()
        } by {
            if i < pr.len() {
                assert(r[i] == pr[i]);
            }
        }
    }
}

} // verus!
