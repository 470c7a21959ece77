//! The header decoder: turns a possibly RFC 2047-encoded header value into
//! display text. Decoding failure is a normal outcome — a plain, unencoded
//! header value simply comes back unchanged — so no error ever reaches a
//! caller.

use vstd::prelude::*;

verus! {

/// What `rfc2047_decoder::decode` makes of a header value: `Some` decoded
/// text when the value parses as RFC 2047 encoded words, `None` when it
/// does not. The outcome is a function of the characters alone.
pub uninterp spec fn rfc2047_decoding(raw: Seq<char>) -> Option<Seq<char>>;

/// The display text of a header value: the decoded text where the value is
/// a well-formed encoded word, and the raw value unchanged otherwise.
pub open spec fn decoded_header(raw: Seq<char>) -> Seq<char> {
    match rfc2047_decoding(raw) {
        Option::Some(t) => t,
        Option::None => raw,
    }
}

/// Relies on `rfc2047_decoder::decode` (with its default settings): decodes
/// RFC 2047 encoded words out of the bytes of `raw`; the result depends on
/// those bytes alone.
#[verifier::external_body]
fn try_decode(raw: &str) -> (r: Option<String>)
    ensures
        match r {
            Option::Some(t) => rfc2047_decoding(raw@) == Option::Some(t@),
            Option::None => rfc2047_decoding(raw@) is None,
        },
{
    rfc2047_decoder::decode(raw.as_bytes()).ok()
}

/// Decodes one possibly-encoded header value into display text; on any
/// decoding failure the input is returned unchanged.
pub fn decode_header(raw: &str) -> (r: String)
    ensures
        r@ == decoded_header(raw@),
{
    match try_decode(raw) {
        Option::Some(t) => t,
        Option::None => raw.to_owned(),
    }
}

} // verus!
