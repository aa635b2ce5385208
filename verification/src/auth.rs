//! The `auth` section.
use vstd::prelude::*;

verus! {

/// How sessions are signed and for how long they hold.
#[derive(Clone, Debug, PartialEq)]
pub struct Config {
    pub signing_key: String,
    pub buffer_time: i64,
    pub expires_time: i64,
}

} // verus!
