//! Base64.
use base64::Engine;
use vstd::prelude::*;
use vstd::string::*;

verus! {

/// The text that `base64` writes with its standard alphabet, padded.
pub uninterp spec fn base64_standard(bytes: Seq<u8>) -> Seq<char>;

/// The text that `base64` writes with its alphabet for addresses, not padded.
pub uninterp spec fn base64_url(bytes: Seq<u8>) -> Seq<char>;

/// What `base64` reads from text in its alphabet for addresses, not padded.
pub uninterp spec fn base64_url_decoded(text: Seq<char>) -> Option<Seq<u8>>;

/// What `base64` reads from text in its alphabet for addresses, padded.
pub uninterp spec fn base64_url_padded_decoded(text: Seq<char>) -> Option<Seq<u8>>;

/// `base64::engine::general_purpose::STANDARD.encode`: four characters for each three bytes begun,
/// where memory can hold so many.
#[verifier::external_body]
pub(crate) fn encode_standard(bytes: &[u8]) -> (r: String)
    requires
        (bytes@.len() + 2) / 3 * 4 <= isize::MAX,
    ensures
        r@ == base64_standard(bytes@),
        r@.len() == (bytes@.len() + 2) / 3 * 4,
{
    base64::engine::general_purpose::STANDARD.encode(bytes)
}

/// `base64::engine::general_purpose::URL_SAFE_NO_PAD.encode`: four characters for three bytes, and
/// one more than there are bytes in what is left over, where memory can hold so many.
#[verifier::external_body]
pub(crate) fn encode_url(bytes: &[u8]) -> (r: String)
    requires
        (4 * bytes@.len() + 2) / 3 <= isize::MAX,
    ensures
        r@ == base64_url(bytes@),
        r@.len() == (4 * bytes@.len() + 2) / 3,
{
    base64::engine::general_purpose::URL_SAFE_NO_PAD.encode(bytes)
}

/// `base64::engine::general_purpose::URL_SAFE_NO_PAD.decode`. Its result depends on the text alone.
#[verifier::external_body]
fn decode_url(text: &str) -> (r: Option<Vec<u8>>)
    ensures
        match r {
            Some(bytes) => base64_url_decoded(text@) == Some(bytes@),
            None => base64_url_decoded(text@) is None,
        },
{
    base64::engine::general_purpose::URL_SAFE_NO_PAD.decode(text).ok()
}

/// `base64::engine::general_purpose::URL_SAFE.decode`. Its result depends on the text alone.
#[verifier::external_body]
fn decode_url_padded(text: &str) -> (r: Option<Vec<u8>>)
    ensures
        match r {
            Some(bytes) => base64_url_padded_decoded(text@) == Some(bytes@),
            None => base64_url_padded_decoded(text@) is None,
        },
{
    base64::engine::general_purpose::URL_SAFE.decode(text).ok()
}

/// The bytes of a text, padded or not.
pub open spec fn url_bytes(text: Seq<char>) -> Option<Seq<u8>> {
    match base64_url_decoded(text) {
        Some(bytes) => Some(bytes),
        None => base64_url_padded_decoded(text),
    }
}

/// The bytes of a text, padded or not.
pub fn decode_url_text(text: &str) -> (r: Option<Vec<u8>>)
    ensures
        match r {
            Some(bytes) => url_bytes(text@) == Some(bytes@),
            None => url_bytes(text@) is None,
        },
{
    match decode_url(text) {
        Some(bytes) => Some(bytes),
        None => decode_url_padded(text),
    }
}

} // verus!
