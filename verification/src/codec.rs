//! The alphabet that tokens are written in.

use base64::engine::general_purpose::URL_SAFE_NO_PAD;
use base64::Engine;
use vstd::prelude::*;

use crate::text::{ascii_digit, ascii_letter};

verus! {

/// What the URL-safe base64 engine without padding writes for some bytes.
pub uninterp spec fn base64_url(bytes: Seq<u8>) -> Seq<char>;

/// What that engine reads from a token: the bytes, or why there are none.
pub uninterp spec fn base64_url_read(token: Seq<char>) -> Result<Seq<u8>, Seq<char>>;

/// What reading a token gave.
pub open spec fn seen(r: Result<Vec<u8>, String>) -> Result<Seq<u8>, Seq<char>> {
    match r {
        Ok(bytes) => Ok(bytes@),
        Err(message) => Err(message@),
    }
}

/// A reading that gave `bytes`.
pub open spec fn read_as(bytes: Seq<u8>) -> Result<Seq<u8>, Seq<char>> {
    Ok(bytes)
}

/// The characters of the URL-safe alphabet.
pub open spec fn url_safe(c: char) -> bool {
    ascii_letter(c) || ascii_digit(c) || c == '-' || c == '_'
}

/// Writes bytes as a token: `base64::Engine::encode` of the engine `URL_SAFE_NO_PAD`. Claimed
/// of it: the result depends on the bytes alone, uses the URL-safe alphabet, and is empty
/// only for no bytes.
#[verifier::external_body]
pub(crate) fn write_base64(bytes: &[u8]) -> (r: String)
    ensures
        r@ == base64_url(bytes@),
        forall|i: int| 0 <= i < r@.len() ==> url_safe(#[trigger] r@[i]),
        bytes@.len() > 0 ==> r@.len() > 0,
{
    URL_SAFE_NO_PAD.encode(bytes)
}

/// Reads a token: `base64::Engine::decode` of the engine `URL_SAFE_NO_PAD`. Claimed of it:
/// the result depends on the token alone, and a token that the same engine wrote gives back
/// the bytes that it was written for.
#[verifier::external_body]
pub(crate) fn read_base64(token: &str) -> (r: Result<Vec<u8>, String>)
    ensures
        seen(r) == base64_url_read(token@),
        forall|bytes: Seq<u8>| #[trigger] base64_url(bytes) == token@ ==> seen(r) == read_as(bytes),
{
    URL_SAFE_NO_PAD.decode(token).map_err(|error| error.to_string())
}

} // verus!
