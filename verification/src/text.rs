//! Joining and concatenating log strings. The spec functions state the
//! exact character sequences the std calls produce.

use vstd::prelude::*;

verus! {

pub open spec fn spec_concat(parts: Seq<String>) -> Seq<char>
    decreases parts.len(),
{
    if parts.len() == 0 {
        Seq::empty()
    } else {
        parts.first()@ + spec_concat(parts.drop_first())
    }
}

pub open spec fn spec_join_lines(parts: Seq<String>) -> Seq<char>
    decreases parts.len(),
{
    if parts.len() == 0 {
        Seq::empty()
    } else if parts.len() == 1 {
        parts.first()@
    } else {
        parts.first()@ + seq!['\n'] + spec_join_lines(parts.drop_first())
    }
}

/// Relies on `[String]::concat`: the concatenation of the parts in order.
#[verifier::external_body]
pub fn concat_all(parts: &Vec<String>) -> (r: String)
    ensures
        r@ == spec_concat(parts@),
{
    parts.concat()
}

/// Relies on `[String]::join`: the parts joined with a newline between
/// each adjacent pair.
#[verifier::external_body]
pub fn join_lines(parts: &Vec<String>) -> (r: String)
    ensures
        r@ == spec_join_lines(parts@),
{
    parts.join("\n")
}

} // verus!
