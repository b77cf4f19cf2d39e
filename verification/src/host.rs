//! Host effect seam: the only platform dependency the core has.

use vstd::prelude::*;

verus! {

/// The effects the core cannot compute: cryptographic randomness and a wall clock.
pub trait Host {
    /// Fill `buf` with cryptographically suitable randomness.
    fn entropy(&self, buf: &mut [u8])
        ensures
            final(buf)@.len() == old(buf)@.len(),
    ;

    /// Current Unix time in milliseconds.
    fn now_unix_millis(&self) -> u64;
}

} // verus!
