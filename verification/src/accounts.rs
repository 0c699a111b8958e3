//! Account rows as mirrored from the configuration.

use vstd::prelude::*;

verus! {

/// One mirrored account.  The credential is never stored.
#[derive(Debug, Clone, PartialEq, Eq)]
pub struct AccountRow {
    pub account_id: String,
    pub host: String,
    pub port: u16,
    pub username: String,
    pub folders: Vec<String>,
    pub active: bool,
    pub mirrored_at: i64,
}

} // verus!
