//! Message rows and thread resolution.

use vstd::prelude::*;

verus! {

/// One mail address, with its display name when it has one.
#[derive(Debug, Clone, PartialEq, Eq)]
pub struct Address {
    pub addr: String,
    pub name: Option<String>,
}

/// A message as it is written to storage.
#[derive(Debug, Clone)]
pub struct MessageInsert {
    pub message_id: String,
    pub account_id: String,
    pub folder: String,
    pub server_uid: u32,
    pub uidvalidity: u32,
    pub header_message_id: Option<String>,
    pub in_reply_to: Option<String>,
    pub references: Vec<String>,
    pub sender_addr: String,
    pub sender_name: Option<String>,
    pub recipients_to: Vec<Address>,
    pub recipients_cc: Vec<Address>,
    pub subject: Option<String>,
    pub date_unix: i64,
    pub raw_path: String,
    pub body_md: String,
    pub size_bytes: u64,
}

/// A message as it is read back from storage.
#[derive(Debug, Clone)]
pub struct MessageRow {
    pub message_id: String,
    pub account_id: String,
    pub folder: String,
    pub server_uid: u32,
    pub uidvalidity: u32,
    pub header_message_id: Option<String>,
    pub in_reply_to: Option<String>,
    pub references: Vec<String>,
    pub thread_id: String,
    pub sender_addr: String,
    pub sender_name: Option<String>,
    pub recipients_to: Vec<Address>,
    pub recipients_cc: Vec<Address>,
    pub subject: Option<String>,
    pub date_unix: i64,
    pub raw_path: String,
    pub body_md: String,
    pub size_bytes: u64,
    pub tombstoned_at: Option<i64>,
}

/// The header ids to look a message's thread up by, in order: the
/// `References` from the newest (the immediate parent) back to the oldest,
/// then `In-Reply-To`.  The first one that names a stored message of the
/// same account gives the thread; when none does, a new thread starts.
pub open spec fn thread_candidates_spec(in_reply_to: Option<Seq<char>>, references: Seq<Seq<char>>) -> Seq<Seq<char>> {
    let rev = Seq::new(references.len(), |i: int| references[references.len() - 1 - i]);
    match in_reply_to {
        Some(irt) => rev.push(irt),
        None => rev,
    }
}

/// The header ids a new message's thread is resolved by, in lookup order.
pub fn thread_candidates(in_reply_to: Option<&str>, references: &Vec<String>) -> (c: Vec<String>)
    ensures
        c@.map_values(|s: String| s@) == thread_candidates_spec(
            match in_reply_to { Some(s) => Some(s@), None => None },
            references@.map_values(|s: String| s@),
        ),
{
    let ghost refs = references@.map_values(|s: String| s@);
    let mut c: Vec<String> = Vec::new();
    let n = references.len();
    let mut i: usize = 0;
    while i < n
        invariant
            i <= n == references.len(),
            refs == references@.map_values(|s: String| s@),
            c@.map_values(|s: String| s@) == Seq::new(i as nat, |j: int| refs[n - 1 - j]),
        decreases n - i,
    {
        let ghost before = c@.map_values(|s: String| s@);
        let r = references[n - 1 - i].clone();
        assert(r@ == refs[n - 1 - i]);
        c.push(r);
        assert(c@.map_values(|s: String| s@) =~= before.push(refs[n - 1 - i]));
        assert(before.push(refs[n - 1 - i]) =~= Seq::new((i + 1) as nat, |j: int| refs[n - 1 - j]));
        i += 1;
    }
    if let Some(irt) = in_reply_to {
        let ghost before = c@.map_values(|s: String| s@);
        c.push(irt.to_owned());
        assert(c@.map_values(|s: String| s@) =~= before.push(irt@));
    }
    c
}

} // verus!

verus! {

/// Every `References` id is a lookup candidate, newest first, and then the
/// `In-Reply-To` id, if there is one: nothing is dropped or reordered.
pub proof fn thread_candidates_try_every_reference(in_reply_to: Option<Seq<char>>, references: Seq<Seq<char>>)
    ensures
        thread_candidates_spec(in_reply_to, references).len() == references.len() + (if in_reply_to is Some { 1int } else { 0int }),
        forall|i: int| 0 <= i < references.len() ==> #[trigger] thread_candidates_spec(in_reply_to, references)[i]
            == references[references.len() - 1 - i],
        forall|i: int| 0 <= i < references.len() ==> thread_candidates_spec(in_reply_to, references).contains(#[trigger] references[i]),
        in_reply_to matches Some(irt) ==> thread_candidates_spec(in_reply_to, references).last() == irt,
{
    let c = thread_candidates_spec(in_reply_to, references);
    assert forall|i: int| 0 <= i < references.len() implies c.contains(#[trigger] references[i]) by {
        assert(c[references.len() - 1 - i] == references[i]);
    }
}

} // verus!
