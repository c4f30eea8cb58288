//! Configuration handed in by the caller at startup.

use crate::auth_flow::ClientCredentials;
use vstd::prelude::*;

verus! {

/// Configuration for the exporter.
pub struct Config {
    /// Spotify client credentials.
    pub credentials: ClientCredentials,
    /// Where persisted snapshots and the token cache live.
    pub output_location: String,
}

impl Config {
    /// Bundles the credentials with the output location.
    pub fn new(credentials: ClientCredentials, output_location: String) -> (c: Config)
        ensures
            c.credentials.id@ == credentials.id@,
            c.credentials.secret@ == credentials.secret@,
            c.output_location@ == output_location@,
    {
        Config { credentials, output_location }
    }
}

} // verus!
