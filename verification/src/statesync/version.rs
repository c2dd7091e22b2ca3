//! The protocol version that peers agree on.

use vstd::prelude::*;

verus! {

/// The newest version of the protocol that this node speaks.
pub const STATESYNC_VERSION: u32 = 1;

/// Whether a client that speaks `version` can be served.
pub fn is_client_compatible(version: u32) -> (r: bool)
    ensures
        r == (1 <= version <= STATESYNC_VERSION),
{
    version >= 1 && version <= STATESYNC_VERSION
}

} // verus!
