//! The core of a datagram shout server: each datagram's text is answered
//! with its uppercase form.

use vstd::prelude::*;

verus! {

/// The uppercase form of a text.
pub uninterp spec fn upper_of(s: Seq<char>) -> Seq<char>;

/// Relies on str::to_uppercase: the result depends on the characters
/// alone, and an empty input gives an empty result.
#[verifier::external_body]
fn uppercase(s: &str) -> (r: String)
    ensures
        r@ == upper_of(s@),
        s@.len() == 0 ==> r@.len() == 0,
{
    s.to_uppercase()
}

/// The reply to one datagram: its text, uppercased.
pub fn shout_reply(s: &str) -> (r: String)
    ensures
        r@ == upper_of(s@),
{
    uppercase(s)
}

} // verus!
