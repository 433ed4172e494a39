//! Building strings.
use vstd::prelude::*;

verus! {

/// Appends `text` to `s` (`String::push_str`).
#[verifier::external_body]
pub(crate) fn push_str(s: &mut String, text: &str)
    ensures
        final(s)@ == old(s)@ + text@,
{
    s.push_str(text);
}

/// Appends `c` to `s` (`String::push`).
#[verifier::external_body]
pub(crate) fn push_char(s: &mut String, c: char)
    ensures
        final(s)@ == old(s)@.push(c),
{
    s.push(c);
}

} // verus!
