//! String building helpers shared by the tree and decoder modules.

use vstd::prelude::*;

verus! {

/// Relies on String::push: appends exactly the given character to the end of
/// the string (vstd specifies `append`/`concat` but not `push`).
#[verifier::external_body]
pub(crate) fn push_char(s: &mut String, c: char)
    ensures
        final(s)@ == old(s)@.push(c),
{
    s.push(c)
}

} // verus!
