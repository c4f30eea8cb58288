//! Data returned by the Spotify Web API, and the pure parts of the
//! requests the client sends to it.

pub mod get_tokens;
pub mod list_user_tracks;

use crate::auth_flow::{ClientCredentials, REDIRECT_URL};
use crate::encoding::{base64_of, encode_base64_str, urlencode_component, urlencoded_of};
use list_user_tracks::{Item, Response};
use vstd::prelude::*;

verus! {

/// Builds the HTTP Basic authorization header for the token exchange:
/// `Basic` and the base64 encoding of `id:secret`.
pub fn basic_auth_header(credentials: &ClientCredentials) -> (r: String)
    ensures
        r@ == "Basic "@ + base64_of(credentials.id@ + ":"@ + credentials.secret@),
{
    let mut joined = credentials.id.clone();
    joined.append(":");
    joined.append(credentials.secret.as_str());
    let encoded = encode_base64_str(joined.as_str());
    let mut r = String::new();
    r.append("Basic ");
    r.append(encoded.as_str());
    assert(r@ =~= "Basic "@ + base64_of(credentials.id@ + ":"@ + credentials.secret@));
    r
}

/// Builds the form-encoded body of the token exchange request: the
/// captured code, the grant type, and the redirect target the code was
/// delivered to. The code and the redirect target are form-urlencoded;
/// the other parts are fixed strings the encoding leaves as they are.
pub fn token_request_body(authorization_code: &str) -> (r: String)
    ensures
        r@ == "code="@ + urlencoded_of(authorization_code@)
            + "&grant_type=authorization_code&redirect_uri="@ + urlencoded_of(REDIRECT_URL@),
{
    let encoded_code = urlencode_component(authorization_code);
    let encoded_redirect = urlencode_component(REDIRECT_URL);
    let mut r = String::new();
    r.append("code=");
    r.append(encoded_code.as_str());
    r.append("&grant_type=authorization_code&redirect_uri=");
    r.append(encoded_redirect.as_str());
    assert(r@ =~= "code="@ + urlencoded_of(authorization_code@)
        + "&grant_type=authorization_code&redirect_uri="@ + urlencoded_of(REDIRECT_URL@));
    r
}

/// Folds one page of the paginated listing into the accumulated items
/// and hands back where the next page lives, if anywhere.
pub fn extend_with_page(items: &mut Vec<Item>, page: Response) -> (next: Option<String>)
    ensures
        final(items)@ == old(items)@ + page.items@,
        next == page.next,
{
    let next = page.next;
    let mut page_items = page.items;
    items.append(&mut page_items);
    next
}

} // verus!
