//! Leader-side broadcast pipeline of a proof-of-stake validator: shredding of
//! ledger entries into erasure-coded packets, deterministic stake-weighted
//! selection of the peers that receive them, and a per-epoch cache of the
//! cluster snapshot that the selection reads.

use vstd::prelude::*;

pub mod bank;
pub mod cache;
pub mod cluster;
pub mod display;
pub mod packets;
pub mod ranges;
pub mod repair;
pub mod sigverify;
pub mod node;
pub mod rng;
pub mod shred;
pub mod shredder;
pub mod shuffle;
pub mod tree;

verus! {

/// Number of data shreds that make up a full forward-error-correction set.
pub const MAX_DATA_SHREDS_PER_FEC_BLOCK: u32 = 32;

/// Only the low six bits of a tick count are carried in a shred's flags.
pub const SHRED_TICK_REFERENCE_MASK: u8 = 0x3f;

/// The reference tick stored in a shred is the tick count masked to six bits.
pub fn mask_reference_tick(tick: u8) -> (r: u8)
    ensures
        r == (tick & SHRED_TICK_REFERENCE_MASK),
        r <= SHRED_TICK_REFERENCE_MASK,
{
    assert((tick & 0x3f) <= 0x3f) by (bit_vector);
    tick & SHRED_TICK_REFERENCE_MASK
}

} // verus!
