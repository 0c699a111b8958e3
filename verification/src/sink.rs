//! How a fetched message is named in storage.
//!
//! A message is identified as `<account_id>:<canonical>`, where the
//! canonical part is its `Message-ID` header, or, for a message without
//! one, `synth-` followed by the hex SHA-256 of `<folder>|<uidvalidity>|<uid>`
//! (stable for the same mailbox slot).

use vstd::prelude::*;
use vstd::string::StringSliceAdditionalSpecFns;
use vstd::utf8::encode_utf8;

use crate::digest::{hex_sha256, hex_sha256_spec};
use crate::messages::{Address, MessageInsert};
use crate::raw::{raw_path, raw_path_spec};
use crate::text::{decimal_spec, push_decimal, push_str_chars, string_from_chars};

verus! {

/// `<folder>|<uidvalidity>|<uid>`.
pub open spec fn synth_key_spec(folder: Seq<char>, uidvalidity: u32, server_uid: u32) -> Seq<char> {
    folder + seq!['|'] + decimal_spec(uidvalidity as nat) + seq!['|'] + decimal_spec(server_uid as nat)
}

/// The storage id of a message.
pub open spec fn message_id_spec(
    account_id: Seq<char>,
    header_message_id: Option<Seq<char>>,
    folder: Seq<char>,
    uidvalidity: u32,
    server_uid: u32,
) -> Seq<char> {
    let canonical = match header_message_id {
        Some(h) => h,
        None => "synth-"@ + hex_sha256_spec(encode_utf8(synth_key_spec(folder, uidvalidity, server_uid))),
    };
    account_id + seq![':'] + canonical
}

/// The storage id of a fetched message.
pub fn synthesize_message_id(
    account_id: &str,
    header_message_id: Option<&str>,
    folder: &str,
    uidvalidity: u32,
    server_uid: u32,
) -> (id: String)
    ensures
        id@ == message_id_spec(
            account_id@,
            match header_message_id { Some(h) => Some(h@), None => None },
            folder@,
            uidvalidity,
            server_uid,
        ),
{
    let mut out: Vec<char> = Vec::new();
    push_str_chars(&mut out, account_id);
    out.push(':');
    match header_message_id {
        Some(h) => {
            push_str_chars(&mut out, h);
        },
        None => {
            let mut key: Vec<char> = Vec::new();
            push_str_chars(&mut key, folder);
            key.push('|');
            push_decimal(&mut key, uidvalidity as u64);
            key.push('|');
            push_decimal(&mut key, server_uid as u64);
            assert(key@ =~= synth_key_spec(folder@, uidvalidity, server_uid));
            let ks = string_from_chars(key.as_slice());
            let hex = hex_sha256(ks.as_str().as_bytes());
            push_str_chars(&mut out, "synth-");
            push_str_chars(&mut out, hex.as_str());
        },
    }
    assert(out@ =~= message_id_spec(
        account_id@,
        match header_message_id { Some(h) => Some(h@), None => None },
        folder@,
        uidvalidity,
        server_uid,
    ));
    string_from_chars(out.as_slice())
}

} // verus!

verus! {

/// A fetched and parsed message, as the storage row it is written as: its
/// id is [`synthesize_message_id`] of the mailbox slot and header id, its
/// raw bytes go to the [`raw_path`] of that id under `data_dir`, its size
/// is the length of the raw bytes, and every other field is carried over.
pub fn message_insert(
    data_dir: &str,
    account_id: String,
    folder: String,
    server_uid: u32,
    uidvalidity: u32,
    raw_len: u64,
    header_message_id: Option<String>,
    in_reply_to: Option<String>,
    references: Vec<String>,
    sender: Address,
    recipients_to: Vec<Address>,
    recipients_cc: Vec<Address>,
    subject: Option<String>,
    date_unix: i64,
    body_md: String,
) -> (m: MessageInsert)
    ensures
        m.message_id@ == message_id_spec(
            account_id@,
            match header_message_id { Some(h) => Some(h@), None => None },
            folder@,
            uidvalidity,
            server_uid,
        ),
        m.account_id == account_id,
        m.folder == folder,
        m.server_uid == server_uid,
        m.uidvalidity == uidvalidity,
        m.header_message_id == header_message_id,
        m.in_reply_to == in_reply_to,
        m.references == references,
        m.sender_addr == sender.addr,
        m.sender_name == sender.name,
        m.recipients_to == recipients_to,
        m.recipients_cc == recipients_cc,
        m.subject == subject,
        m.date_unix == date_unix,
        m.raw_path@ == raw_path_spec(data_dir@, account_id@, m.message_id@, date_unix as int),
        m.body_md == body_md,
        m.size_bytes == raw_len,
{
    let message_id = match &header_message_id {
        Some(h) => synthesize_message_id(account_id.as_str(), Some(h.as_str()), folder.as_str(), uidvalidity, server_uid),
        None => synthesize_message_id(account_id.as_str(), None, folder.as_str(), uidvalidity, server_uid),
    };
    let raw_path = raw_path(data_dir, account_id.as_str(), message_id.as_str(), date_unix);
    MessageInsert {
        message_id,
        account_id,
        folder,
        server_uid,
        uidvalidity,
        header_message_id,
        in_reply_to,
        references,
        sender_addr: sender.addr,
        sender_name: sender.name,
        recipients_to,
        recipients_cc,
        subject,
        date_unix,
        raw_path,
        body_md,
        size_bytes: raw_len,
    }
}

} // verus!
