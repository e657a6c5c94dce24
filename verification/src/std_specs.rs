//! Declarations of outside types and std functions that the library uses.

use serde_json::Error as JsonError;
use vstd::prelude::*;

verus! {

/// JSON parse and print errors, carried by the library's serialisation error.
#[verifier::external_type_specification]
#[verifier::external_body]
pub struct ExJsonError(JsonError);

/// Appending a character to a `String`.
///
/// Trusted: `String::push` appends the given char to the end of the string.
pub assume_specification[ String::push ](s: &mut String, ch: char)
    ensures
        final(s)@ == old(s)@.push(ch),
;

} // verus!
