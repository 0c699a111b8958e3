//! Startup self-checks of the filesystem layout.
//!
//! The configuration file must not be readable by "others" (group-readable
//! is fine), and the data directory must be a directory with mode `0700`.
//! The caller reads the metadata; here is what is decided from it.

use vstd::prelude::*;

use crate::text::{octal_spec, push_octal, push_str_chars, string_from_chars};

verus! {

/// The paths the daemon runs with once the checks pass.
#[derive(Debug, Clone)]
pub struct PreflightOk {
    pub config_path: String,
    pub data_dir: String,
    pub assets_dir: String,
}

/// The permission bits of a file mode.
pub open spec fn perm_bits(mode: u32) -> nat {
    (mode % 512) as nat
}

pub open spec fn not_a_directory_reason(label: Seq<char>) -> Seq<char> {
    label + ": not a directory"@
}

pub open spec fn wrong_mode_reason(label: Seq<char>, expected: nat, got: nat) -> Seq<char> {
    label + ": expected mode "@ + octal_spec(expected) + ", got "@ + octal_spec(got)
}

pub open spec fn world_bits_reason(label: Seq<char>, got: nat) -> Seq<char> {
    label + ": world bits set on mode "@ + octal_spec(got)
}

proof fn lemma_mask(mode: u32)
    ensures
        mode & 0o777 == mode % 512,
        (mode & 0o777) & 0o007 == (mode % 512) % 8,
{
    assert(mode & 0o777 == mode % 512) by (bit_vector);
    assert((mode & 0o777) & 0o007 == (mode % 512) % 8) by (bit_vector);
}

/// The data-directory check: it must be a directory whose permission bits
/// are exactly `expected_mode`; the error is the reason logged and reported.
pub fn assert_dir(label: &str, is_dir: bool, mode: u32, expected_mode: u32) -> (r: Result<(), String>)
    ensures
        !is_dir ==> (r matches Err(e) && e@ == not_a_directory_reason(label@)),
        is_dir && perm_bits(mode) != expected_mode ==> (r matches Err(e) && e@ == wrong_mode_reason(
            label@,
            expected_mode as nat,
            perm_bits(mode),
        )),
        is_dir && perm_bits(mode) == expected_mode ==> r is Ok,
{
    proof { lemma_mask(mode); }
    if !is_dir {
        let mut out: Vec<char> = Vec::new();
        push_str_chars(&mut out, label);
        push_str_chars(&mut out, ": not a directory");
        assert(out@ =~= not_a_directory_reason(label@));
        return Err(string_from_chars(out.as_slice()));
    }
    let m = mode & 0o777;
    if m != expected_mode {
        let mut out: Vec<char> = Vec::new();
        push_str_chars(&mut out, label);
        push_str_chars(&mut out, ": expected mode ");
        push_octal(&mut out, expected_mode as u64);
        push_str_chars(&mut out, ", got ");
        push_octal(&mut out, m as u64);
        assert(out@ =~= wrong_mode_reason(label@, expected_mode as nat, perm_bits(mode)));
        return Err(string_from_chars(out.as_slice()));
    }
    Ok(())
}

/// The configuration-file check: no permission bit for "others" may be set.
pub fn assert_file_no_world_bits(label: &str, mode: u32) -> (r: Result<(), String>)
    ensures
        perm_bits(mode) % 8 != 0 ==> (r matches Err(e) && e@ == world_bits_reason(label@, perm_bits(mode))),
        perm_bits(mode) % 8 == 0 ==> r is Ok,
{
    proof { lemma_mask(mode); }
    let m = mode & 0o777;
    if m & 0o007 != 0 {
        let mut out: Vec<char> = Vec::new();
        push_str_chars(&mut out, label);
        push_str_chars(&mut out, ": world bits set on mode ");
        push_octal(&mut out, m as u64);
        assert(out@ =~= world_bits_reason(label@, perm_bits(mode)));
        return Err(string_from_chars(out.as_slice()));
    }
    Ok(())
}

} // verus!
