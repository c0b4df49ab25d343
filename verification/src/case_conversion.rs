use convert_case::{Case, Casing};
use vstd::prelude::*;

verus! {

// What the `convert_case` crate gives for a text converted to upper camel
// case (`Case::UpperCamel`): the text split into words at its boundaries
// (spaces, underscores, hyphens, and changes of letter case or between
// letters and digits), each word capitalised, the words joined.
pub uninterp spec fn upper_camel_case(s: Seq<char>) -> Seq<char>;

/// Calls `convert_case::Casing::to_case(s, Case::UpperCamel)`. The contract
/// claims only that the result is a function of the text: the crate's source
/// computes it from the text alone, with no other input.
#[verifier::external_body]
pub(crate) fn to_upper_camel(s: &str) -> (res: String)
    ensures
        res@ == upper_camel_case(s@),
{
    s.to_case(Case::UpperCamel)
}

} // verus!
