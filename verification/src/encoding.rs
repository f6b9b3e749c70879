//! Base64, because a body may be a zip and JSON has no bytes.

use base64::Engine as _;
use vstd::prelude::*;

verus! {

/// What `base64`'s standard engine decodes a text to: the bytes, or what its error says.
pub uninterp spec fn base64_decoded(text: Seq<char>) -> Result<Seq<u8>, Seq<char>>;

/// The text that `base64`'s standard engine encodes bytes as.
pub uninterp spec fn base64_text(bytes: Seq<u8>) -> Seq<char>;

/// Decoding the text gives these bytes.
pub open spec fn stands_for(text: Seq<char>, bytes: Seq<u8>) -> bool {
    base64_decoded(text) matches Ok(b) && b == bytes
}

/// How long the text of `n` bytes is, padding included.
pub open spec fn base64_len(n: nat) -> nat {
    (n + 2) / 3 * 4
}

/// Calls `base64::engine::general_purpose::STANDARD.decode`: the bytes that the text
/// stands for, or, where it is not such a text, what the error says as `Display` writes
/// it. Both are named by [`base64_decoded`].
#[verifier::external_body]
pub(crate) fn decode_base64(text: &str) -> (r: Result<Vec<u8>, String>)
    ensures
        match r {
            Ok(bytes) => base64_decoded(text@) matches Ok(b) && b == bytes@,
            Err(error) => base64_decoded(text@) matches Err(e) && e == error@,
        },
{
    match base64::engine::general_purpose::STANDARD.decode(text) {
        Ok(bytes) => Ok(bytes),
        Err(error) => Err(error.to_string()),
    }
}

/// Calls `base64::engine::general_purpose::STANDARD.encode`: the text that stands for
/// the bytes, named by [`base64_text`]. Decoding it gives the bytes back. The call
/// panics where the text would be longer than a string can be.
#[verifier::external_body]
pub(crate) fn encode_base64(bytes: &[u8]) -> (r: String)
    requires
        base64_len(bytes@.len()) <= isize::MAX,
    ensures
        r@ == base64_text(bytes@),
        stands_for(r@, bytes@),
{
    base64::engine::general_purpose::STANDARD.encode(bytes)
}

/// A text stands for what it decodes to and for nothing else.
pub proof fn a_text_stands_for_one_thing(text: Seq<char>, a: Seq<u8>, b: Seq<u8>)
    requires
        stands_for(text, a),
    ensures
        base64_decoded(text) is Ok,
        base64_decoded(text)->Ok_0 == a,
        stands_for(text, b) <==> a == b,
{
}

/// The text of bytes is four characters for every three of them, the last ones made up to
/// three.
pub proof fn three_bytes_are_four_characters(n: nat)
    ensures
        base64_len(3 * n) == 4 * n,
        base64_len(3 * n + 1) == 4 * n + 4,
        base64_len(3 * n + 2) == 4 * n + 4,
{
}

} // verus!
