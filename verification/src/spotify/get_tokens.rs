//! The token record handed back by the token endpoint.

use vstd::prelude::*;

verus! {

/// The Spotify token endpoint.
pub const ENDPOINT: &'static str = "https://accounts.spotify.com/api/token";

/// Response from the Spotify token endpoint; also the record the token
/// cache stores, replaced wholesale on every successful authorization.
#[derive(Clone, Debug, PartialEq, Eq)]
pub struct Response {
    /// A Spotify access token.
    pub access_token: String,
    /// A Spotify refresh token.
    pub refresh_token: String,
    /// How many seconds until the access token expires.
    pub expires_in: u32,
}

/// Mathematical model of a token [`Response`].
pub struct ResponseView {
    pub access_token: Seq<char>,
    pub refresh_token: Seq<char>,
    pub expires_in: u32,
}

impl View for Response {
    type V = ResponseView;

    open spec fn view(&self) -> ResponseView {
        ResponseView {
            access_token: self.access_token@,
            refresh_token: self.refresh_token@,
            expires_in: self.expires_in,
        }
    }
}

impl DeepView for Response {
    type V = ResponseView;

    open spec fn deep_view(&self) -> ResponseView {
        self@
    }
}

/// Copies a token record; the copy models to the same value.
pub fn clone_response(t: &Response) -> (r: Response)
    ensures
        r@ == t@,
{
    Response {
        access_token: t.access_token.clone(),
        refresh_token: t.refresh_token.clone(),
        expires_in: t.expires_in,
    }
}

} // verus!
