//! Plain configuration records the surrounding application fills in.

use vstd::prelude::*;

verus! {

/// Where the surrounding server should listen.
#[derive(Debug, Clone, PartialEq)]
pub struct Server {
    /// TCP port.
    pub port: u16,
    /// Bind address text.
    pub bind: String,
}

} // verus!
