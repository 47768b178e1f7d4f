//! The decisions of the process runner: which files a run uses, and what
//! exit code the parent reports for a finished child.

use vstd::prelude::*;

verus! {

/// The exit code reported when the child had none of its own (it was ended
/// by a signal), and for internal errors.
pub const FAILURE_CODE: u8 = 1;

/// The env files a run should use: the explicitly given ones if any were
/// given, otherwise whatever the store remembered (which may be nothing).
pub fn resolve_files(given: Vec<String>, remembered: Option<Vec<String>>) -> (r: Option<
    Vec<String>,
>)
    ensures
        given.len() > 0 ==> r == Some(given),
        given.len() == 0 ==> r == remembered,
{
    if given.len() > 0 {
        Some(given)
    } else {
        remembered
    }
}

/// The exit code the parent mirrors for a finished child: the child's own
/// code truncated to a byte, or the generic failure code when the child was
/// ended by a signal and has none.
pub fn exit_code_for(status: Option<i32>) -> (r: u8)
    ensures
        match status {
            Some(c) => r == c as u8,
            None => r == FAILURE_CODE,
        },
{
    match status {
        Some(c) => #[verifier::truncate] (c as u8),
        None => FAILURE_CODE,
    }
}

} // verus!
