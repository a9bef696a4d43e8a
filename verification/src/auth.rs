use vstd::prelude::*;

verus! {

/// The shared-secret gate: a request is let through exactly when it carries
/// a token equal, character for character, to the configured one. The
/// surrounding server extracts the header value and rejects the request
/// whenever this returns false.
pub fn authorise(provided: Option<&String>, expected: &String) -> (r: bool)
    ensures
        r == (provided matches Some(t) && t@ == expected@),
{
    match provided {
        Some(t) => *t == *expected,
        None => false,
    }
}

} // verus!
