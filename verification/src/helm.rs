use vstd::prelude::*;

use crate::chart::{Charts, views};
use crate::digest::{compute_digest, digest_spec, is_lower_hex_digit};
use crate::error::HelmError;
use crate::listing::{parse_listing, parse_listing_text};

verus! {

/// The identity of one cluster connection: which server, as whom, and in
/// which namespace every command and query runs.  The connection itself —
/// config files, processes, sockets — lives outside the library; this type
/// carries what the library's own logic reads.
pub struct Helm {
    pub namespace: String,
    pub server: String,
    pub username: String,
    pub password: String,
}

impl Helm {
    /// Reads the deployed chart set out of the package manager's listing
    /// text.  The listing is rejected whole when any line is malformed: a
    /// diff against partially understood state would be unsafe.
    pub fn list(&self, listing: &str) -> (r: Result<Charts, HelmError>)
        ensures
            match r {
                Ok(v) => parse_listing(listing@) == Option::Some(views(v@)),
                Err(e) => parse_listing(listing@) is None && (e matches
                    HelmError::WrongKubeApiFormat(t) && t@ == listing@),
            },
    {
        parse_listing_text(listing)
    }

    /// The digest of a deployed chart set: the change-detection fingerprint,
    /// identical for any two listings of the same charts.
    pub fn digest(&self, charts: &Charts) -> (r: String)
        ensures
            r@ == digest_spec(views(charts@)),
            r@.len() == 32,
            forall|i: int| 0 <= i < r@.len() ==> is_lower_hex_digit(#[trigger] r@[i]),
    {
        compute_digest(charts)
    }
}

} // verus!
