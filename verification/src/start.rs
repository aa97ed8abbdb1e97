//! Which world a host starts.
use vstd::prelude::*;

verus! {

/// A different world each launch, from the clock: its reading in nanoseconds since the
/// Unix epoch, kept to the low 64 bits. Only the host ever picks one: everyone else is told
/// which world they are in, so this never has to agree across machines. Reading the clock
/// is the caller's part.
pub fn fresh_seed(since_epoch_nanos: u128) -> (r: u64)
    ensures
        r == since_epoch_nanos % 0x1_0000_0000_0000_0000,
{
    let r = since_epoch_nanos as u64;
    assert(r == since_epoch_nanos % 0x1_0000_0000_0000_0000) by (bit_vector)
        requires
            r == since_epoch_nanos as u64,
    ;
    r
}

} // verus!
