//! The shred: the fixed-size unit a block is disseminated in.
//!
//! A data shred carries a chunk of the serialized entry stream, its position
//! within the slot, the first index of its forward-error-correction set, and
//! flags that mark set and slot boundaries.  A coding shred carries parity
//! over the data shreds of one set.  Each shred can derive the 32-byte seed
//! that drives its turbine shuffle, a digest of `(slot, index, leader)`.
//!
//! The model carries header values and payload bytes only: the Ed25519
//! signature over header and payload, and the bit-exact wire frame the
//! sizes below describe, belong to crates that could not be brought here
//! and are left to the caller.

use vstd::prelude::*;
use sha2::Digest;
use crate::node::Pubkey;

verus! {

/// Payload bytes a single data shred can carry: a 1228-byte frame less the
/// 83-byte common header (signature 64, kind 1, slot 8, index 4, version 2,
/// fec_set_index 4) and the 5-byte data header (parent_offset 2, flags 1,
/// size 2).
pub const DATA_SHRED_PAYLOAD_CAPACITY: usize = 1140;

/// The kind-specific part of a shred.
#[derive(Clone, Copy, Debug, PartialEq, Eq, Structural)]
pub enum ShredKindInfo {
    Data { parent_offset: u16, reference_tick: u8, last_in_fec_set: bool, last_in_slot: bool },
    Coding { position: u16, num_data: u16, num_code: u16 },
}

#[derive(Clone, Debug, PartialEq, Eq)]
pub struct Shred {
    pub slot: u64,
    pub index: u32,
    pub shred_version: u16,
    pub fec_set_index: u32,
    pub kind: ShredKindInfo,
    pub payload: Vec<u8>,
}

pub open spec fn shred_is_data(s: Shred) -> bool {
    s.kind is Data
}

pub open spec fn shred_last_in_slot(s: Shred) -> bool {
    match s.kind {
        ShredKindInfo::Data { last_in_slot, .. } => last_in_slot,
        ShredKindInfo::Coding { .. } => false,
    }
}

pub open spec fn shred_last_in_fec_set(s: Shred) -> bool {
    match s.kind {
        ShredKindInfo::Data { last_in_fec_set, .. } => last_in_fec_set,
        ShredKindInfo::Coding { .. } => false,
    }
}

impl Shred {
    pub fn slot(&self) -> (r: u64)
        ensures
            r == self.slot,
    {
        self.slot
    }

    pub fn index(&self) -> (r: u32)
        ensures
            r == self.index,
    {
        self.index
    }

    pub fn is_data(&self) -> (r: bool)
        ensures
            r == shred_is_data(*self),
    {
        match self.kind {
            ShredKindInfo::Data { .. } => true,
            ShredKindInfo::Coding { .. } => false,
        }
    }

    pub fn last_in_slot(&self) -> (r: bool)
        ensures
            r == shred_last_in_slot(*self),
    {
        match self.kind {
            ShredKindInfo::Data { last_in_slot, .. } => last_in_slot,
            ShredKindInfo::Coding { .. } => false,
        }
    }

    /// Marks a data shred as the last of its slot (and so of its set); a
    /// coding shred is left alone.
    pub fn set_last_in_slot(&mut self)
        ensures
            old(self).kind matches ShredKindInfo::Data {
                parent_offset,
                reference_tick,
                ..
            } ==> *final(self) == (Shred {
                kind: ShredKindInfo::Data {
                    parent_offset,
                    reference_tick,
                    last_in_fec_set: true,
                    last_in_slot: true,
                },
                ..*old(self)
            }),
            old(self).kind is Coding ==> *final(self) == *old(self),
    {
        match self.kind {
            ShredKindInfo::Data { parent_offset, reference_tick, .. } => {
                self.kind = ShredKindInfo::Data {
                    parent_offset,
                    reference_tick,
                    last_in_fec_set: true,
                    last_in_slot: true,
                };
            },
            ShredKindInfo::Coding { .. } => {},
        }
    }

    /// A data shred with the given header fields, carrying `data`.
    pub fn new_from_data(
        slot: u64,
        index: u32,
        parent_offset: u16,
        data: &[u8],
        is_last_in_fec_set: bool,
        is_last_in_slot: bool,
        reference_tick: u8,
        shred_version: u16,
        fec_set_index: u32,
    ) -> (r: Shred)
        ensures
            r.slot == slot,
            r.index == index,
            r.shred_version == shred_version,
            r.fec_set_index == fec_set_index,
            r.payload@ == data@,
            r.kind == (ShredKindInfo::Data {
                parent_offset,
                reference_tick,
                last_in_fec_set: is_last_in_fec_set,
                last_in_slot: is_last_in_slot,
            }),
    {
        let mut payload: Vec<u8> = Vec::new();
        let n = data.len();
        let mut i: usize = 0;
        while i < n
            invariant
                n == data@.len(),
                0 <= i <= n,
                payload@ == data@.take(i as int),
            decreases n - i,
        {
            payload.push(data[i]);
            proof {
                assert(payload@ =~= data@.take(i + 1));
            }
            i = i + 1;
        }
        proof {
            assert(data@.take(n as int) =~= data@);
        }
        Shred {
            slot,
            index,
            shred_version,
            fec_set_index,
            kind: ShredKindInfo::Data {
                parent_offset,
                reference_tick,
                last_in_fec_set: is_last_in_fec_set,
                last_in_slot: is_last_in_slot,
            },
            payload,
        }
    }

    /// An all-default data shred, as tests and placeholders use.
    pub fn new_empty_data_shred() -> (r: Shred)
        ensures
            r.slot == 0,
            r.index == 0,
            r.shred_version == 0,
            r.fec_set_index == 0,
            r.payload@ == Seq::<u8>::empty(),
            r.kind == (ShredKindInfo::Data {
                parent_offset: 0,
                reference_tick: 0,
                last_in_fec_set: false,
                last_in_slot: false,
            }),
    {
        Shred {
            slot: 0,
            index: 0,
            shred_version: 0,
            fec_set_index: 0,
            kind: ShredKindInfo::Data {
                parent_offset: 0,
                reference_tick: 0,
                last_in_fec_set: false,
                last_in_slot: false,
            },
            payload: Vec::new(),
        }
    }

    /// The 32-byte seed that drives this shred's turbine shuffle.
    pub fn seed(&self, leader: &Pubkey) -> (r: [u8; 32])
        ensures
            r@ == shred_seed_bytes(leader.id, self.slot, self.index as u64),
    {
        shred_seed_for(leader, self.slot, self.index)
    }
}

/// The turbine seed of the shred at `(slot, index)` under `leader`.
pub fn shred_seed_for(leader: &Pubkey, slot: u64, index: u32) -> (r: [u8; 32])
    ensures
        r@ == shred_seed_bytes(leader.id, slot, index as u64),
{
    compute_shred_seed(leader, slot, index)
}

/// The SHA-256 digest of `(slot, index, leader)`, little-endian: a function
/// of those three values alone, so every validator derives the same seed.
pub uninterp spec fn shred_seed_bytes(leader_id: u64, slot: u64, index: u64) -> Seq<u8>;

/// Relies on `sha2::Sha256`: the digest depends on the hashed bytes alone,
/// and `shred_seed_bytes` names it.
#[verifier::external_body]
fn compute_shred_seed(leader: &Pubkey, slot: u64, index: u32) -> (r: [u8; 32])
    ensures
        r@ == shred_seed_bytes(leader.id, slot, index as u64),
{
    let mut hasher = sha2::Sha256::new();
    hasher.update(slot.to_le_bytes());
    hasher.update((index as u64).to_le_bytes());
    hasher.update(leader.id.to_le_bytes());
    let digest = hasher.finalize();
    let mut out = [0u8; 32];
    out.copy_from_slice(&digest);
    out
}

/// First index at or past `i` whose shred is not flagged last-in-slot.
pub open spec fn first_non_last(s: Seq<Shred>, i: int) -> int
    decreases
            if s.len() - i >= 0 {
                s.len() - i
            } else {
                0
            },
{
    if i >= s.len() {
        s.len() as int
    } else if !shred_last_in_slot(s[i]) {
        i
    } else {
        first_non_last(s, i + 1)
    }
}

/// First index at or past `i` whose shred is flagged last-in-slot.
pub open spec fn first_last(s: Seq<Shred>, i: int) -> int
    decreases
            if s.len() - i >= 0 {
                s.len() - i
            } else {
                0
            },
{
    if i >= s.len() {
        s.len() as int
    } else if shred_last_in_slot(s[i]) {
        i
    } else {
        first_last(s, i + 1)
    }
}

/// Walks a shred list and yields the maximal runs of shreds that are not the
/// last of a slot, so a caller can treat each slot's tail specially.  Each
/// step skips leading last-in-slot shreds, then extends the run to the next
/// one (or the end).
pub struct FindLastShredsInSlotIterator<'a> {
    pub shreds: &'a Vec<Shred>,
    pub begin_search_index: usize,
}

impl<'a> FindLastShredsInSlotIterator<'a> {
    pub fn new(shreds: &'a Vec<Shred>) -> (r: Self)
        ensures
            r.shreds@ == shreds@,
            r.begin_search_index == 0,
    {
        Self { shreds, begin_search_index: 0 }
    }

    /// The bounds of the next run, as a half-open index range.
    pub fn next(&mut self) -> (r: Option<(usize, usize)>)
        requires
            old(self).shreds@.len() < usize::MAX,
        ensures
            final(self).shreds@ == old(self).shreds@,
            old(self).begin_search_index >= old(self).shreds@.len() ==> r is None
                && final(self).begin_search_index == old(self).begin_search_index,
            old(self).begin_search_index < old(self).shreds@.len() ==> {
                let start = first_non_last(old(self).shreds@, old(self).begin_search_index as int);
                let end = first_last(old(self).shreds@, start);
                &&& final(self).begin_search_index == end + 1
                &&& r == if start < end {
                    Some(((start as usize), (end as usize)))
                } else {
                    Option::<(usize, usize)>::None
                }
            },
    {
        let n = self.shreds.len();
        if self.begin_search_index >= n {
            return None;
        }
        let mut start = self.begin_search_index;
        while start < n && self.shreds[start].last_in_slot()
            invariant
                n == self.shreds@.len(),
                0 <= start <= n,
                first_non_last(self.shreds@, old(self).begin_search_index as int)
                    == first_non_last(self.shreds@, start as int),
                self.shreds@ == old(self).shreds@,
                self.begin_search_index == old(self).begin_search_index,
            decreases n - start,
        {
            start = start + 1;
        }
        let mut end = start;
        while end < n && !self.shreds[end].last_in_slot()
            invariant
                n == self.shreds@.len(),
                start <= end <= n,
                first_last(self.shreds@, start as int) == first_last(self.shreds@, end as int),
                self.shreds@ == old(self).shreds@,
                self.begin_search_index == old(self).begin_search_index,
                start as int == first_non_last(self.shreds@, old(self).begin_search_index as int),
            decreases n - end,
        {
            end = end + 1;
        }
        self.begin_search_index = end + 1;
        if start == end {
            None
        } else {
            Some((start, end))
        }
    }
}

} // verus!
