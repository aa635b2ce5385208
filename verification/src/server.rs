//! The `server` section.
use vstd::prelude::*;

verus! {

/// Where the server listens and how it is reached.
#[derive(Clone, Debug, PartialEq)]
pub struct Config {
    pub api_base_path: String,
    pub cors_origins: String,
    pub external_domain: String,
    pub external_https: bool,
    pub host: String,
    pub port: u16,
}

} // verus!
