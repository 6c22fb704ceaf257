//! The mime type a listing reports for a file, derived from its name.
use vstd::prelude::*;

verus! {

/// What the mime lookup derives from a file name; a fixed function of the
/// name alone.
pub uninterp spec fn mime_guess_of(name: Seq<char>) -> Seq<char>;

/// Relies on mime_guess::from_path with first_or_octet_stream: the essence
/// string of the guessed media type depends on the given name alone.
#[verifier::external_body]
pub fn mime_of(name: &str) -> (r: String)
    ensures
        r@ == mime_guess_of(name@),
{
    mime_guess::from_path(name).first_or_octet_stream().essence_str().to_owned()
}

} // verus!
