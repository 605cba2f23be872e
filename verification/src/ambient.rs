//! The ambient error status of the thread: the value that a caller reads
//! after a failed operation to learn its cause.

use vstd::prelude::*;

verus! {

/// Calls `errno::errno` and hands back the code that the returned `Errno`
/// holds. The code depends on what the thread did before, so nothing is
/// claimed of it.
#[verifier::external_body]
pub(crate) fn ambient_error() -> i32 {
    errno::errno().0
}

/// Calls `errno::set_errno` with `code`. It returns nothing and does not
/// unwind; nothing more is claimed.
#[verifier::external_body]
pub(crate) fn set_ambient_error(code: i32)
    opens_invariants none
    no_unwind
{
    errno::set_errno(errno::Errno(code))
}

} // verus!
