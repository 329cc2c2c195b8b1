pub mod args;
pub mod b64;
pub mod drift;
pub mod frame;
pub mod invite;
pub mod jsontext;
pub mod modpack;
pub mod modpack_types;
pub mod paths;
pub mod reconcile;
pub mod session;
pub mod state;
pub mod text;
pub mod trusted;

use vstd::prelude::*;

verus! {

/// Version tag of the peer protocol spoken by this library.
pub const PROTOCOL_VERSION: u32 = 1;

/// Largest number of peers in one group, the local peer included.
pub const MAX_PEERS: usize = 8;

/// Clamp a requested automatic-change budget into the accepted range,
/// falling back to the default when the caller gave none.
pub fn normalize_max_auto_changes(input: Option<usize>) -> (r: usize)
    ensures
        r == normalize_max_auto_changes_spec(input),
        1 <= r <= 500,
{
    let base: usize = match input {
        Option::Some(v) => v,
        Option::None => 25,
    };
    if base < 1 {
        1
    } else if base > 500 {
        500
    } else {
        base
    }
}

/// What `normalize_max_auto_changes` returns: the given value clamped to
/// [1, 500], or 25 when no value was given.
pub open spec fn normalize_max_auto_changes_spec(input: Option<usize>) -> usize {
    let base = match input {
        Option::Some(v) => v,
        Option::None => 25,
    };
    if base < 1 {
        1
    } else if base > 500 {
        500
    } else {
        base
    }
}

} // verus!
