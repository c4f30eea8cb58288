//! Trusted bridges to the outside encoders the requests rely on.

use vstd::prelude::*;

verus! {

/// What base64 makes of a string's bytes; the result depends on the
/// characters alone.
pub uninterp spec fn base64_of(s: Seq<char>) -> Seq<char>;

/// Relies on base64's standard-alphabet `Engine::encode`, applied to the
/// UTF-8 bytes of `s`.
#[verifier::external_body]
pub fn encode_base64_str(s: &str) -> (r: String)
    ensures
        r@ == base64_of(s@),
{
    base64::Engine::encode(&base64::engine::general_purpose::STANDARD, s.as_bytes())
}

/// What the `application/x-www-form-urlencoded` percent-encoding makes
/// of a string's bytes; the result depends on the characters alone.
pub uninterp spec fn urlencoded_of(s: Seq<char>) -> Seq<char>;

/// Relies on url's `form_urlencoded::byte_serialize`: the
/// `application/x-www-form-urlencoded` percent-encoding of the UTF-8
/// bytes of `s`.
#[verifier::external_body]
pub fn urlencode_component(s: &str) -> (r: String)
    ensures
        r@ == urlencoded_of(s@),
{
    url::form_urlencoded::byte_serialize(s.as_bytes()).collect()
}

} // verus!
