//! Shredding: turning the serialized entry stream of a slot into data
//! shreds, and completed forward-error-correction sets into coding shreds.
//!
//! Data shreds carry consecutive chunks of the stream at consecutive
//! indices.  Each group of `MAX_DATA_SHREDS_PER_FEC_BLOCK` data shreds,
//! aligned to the slot's set offset, forms one set; its coding shreds carry
//! Reed-Solomon parity over the zero-padded payloads, one parity shred per
//! data shred, so any half of the set's shreds recover the data.

use vstd::prelude::*;
use crate::shred::{Shred, ShredKindInfo, DATA_SHRED_PAYLOAD_CAPACITY, shred_is_data, shred_last_in_slot};
use crate::MAX_DATA_SHREDS_PER_FEC_BLOCK;

verus! {

/// The first index of the set that a data shred at `index` belongs to, for
/// a slot whose sets start at `fec_set_offset`.
pub open spec fn fec_set_index_spec(data_shred_index: u32, fec_set_offset: u32) -> Option<u32> {
    if fec_set_offset > data_shred_index {
        None
    } else {
        Some(
            (data_shred_index - ((data_shred_index - fec_set_offset) as u32 % (
            MAX_DATA_SHREDS_PER_FEC_BLOCK as u32))) as u32,
        )
    }
}

pub fn fec_set_index(data_shred_index: u32, fec_set_offset: u32) -> (r: Option<u32>)
    ensures
        r == fec_set_index_spec(data_shred_index, fec_set_offset),
{
    if fec_set_offset > data_shred_index {
        None
    } else {
        Some(data_shred_index - ((data_shred_index - fec_set_offset)
            % MAX_DATA_SHREDS_PER_FEC_BLOCK))
    }
}

/// How many data shreds a stream of `len` bytes fills.
pub open spec fn num_chunks(len: int) -> int {
    (len + DATA_SHRED_PAYLOAD_CAPACITY - 1) / DATA_SHRED_PAYLOAD_CAPACITY as int
}

/// The bytes of chunk `k`.
pub open spec fn chunk_of(data: Seq<u8>, k: int) -> Seq<u8> {
    data.subrange(
        k * DATA_SHRED_PAYLOAD_CAPACITY,
        if (k + 1) * DATA_SHRED_PAYLOAD_CAPACITY <= data.len() {
            (k + 1) * DATA_SHRED_PAYLOAD_CAPACITY
        } else {
            data.len() as int
        },
    )
}

/// What the data shreds of one conversion look like: chunk `k` of the
/// stream at index `next_index + k`, flagged last-in-slot on the final
/// chunk when the slot ends there, and closing its set when it fills it or
/// ends the slot.
pub open spec fn data_shreds_match(
    out: Seq<Shred>,
    data: Seq<u8>,
    slot: u64,
    parent_offset: u16,
    next_index: u32,
    fec_set_offset: u32,
    is_last_in_slot: bool,
    reference_tick: u8,
    version: u16,
) -> bool {
    &&& out.len() == num_chunks(data.len() as int)
    &&& forall|k: int|
        0 <= k < out.len() ==> {
            let s = #[trigger] out[k];
            &&& s.slot == slot
            &&& s.index == next_index + k
            &&& s.shred_version == version
            &&& Some(s.fec_set_index) == fec_set_index_spec((next_index + k) as u32, fec_set_offset)
            &&& s.payload@ == chunk_of(data, k)
            &&& s.kind == (ShredKindInfo::Data {
                parent_offset,
                reference_tick,
                last_in_fec_set: (k == out.len() - 1 && is_last_in_slot) || ((next_index + k + 1
                    - fec_set_offset) % (MAX_DATA_SHREDS_PER_FEC_BLOCK as int) == 0),
                last_in_slot: k == out.len() - 1 && is_last_in_slot,
            })
        }
}

/// Chunks the stream into data shreds starting at `next_index`.
pub fn make_data_shreds(
    data: &[u8],
    slot: u64,
    parent_offset: u16,
    next_index: u32,
    fec_set_offset: u32,
    is_last_in_slot: bool,
    reference_tick: u8,
    version: u16,
) -> (out: Vec<Shred>)
    requires
        data@.len() >= 1,
        data@.len() + DATA_SHRED_PAYLOAD_CAPACITY <= usize::MAX,
        fec_set_offset <= next_index,
        next_index + num_chunks(data@.len() as int) <= u32::MAX,
    ensures
        data_shreds_match(
            out@,
            data@,
            slot,
            parent_offset,
            next_index,
            fec_set_offset,
            is_last_in_slot,
            reference_tick,
            version,
        ),
{
    let len = data.len();
    let cap = DATA_SHRED_PAYLOAD_CAPACITY;
    let n = (len + cap - 1) / cap;
    proof {
        assert(n as int == num_chunks(data@.len() as int));
        assert(n >= 1) by (nonlinear_arith)
            requires
                n as int == (len as int + cap as int - 1) / cap as int,
                len >= 1,
                cap >= 1,
        ;
        assert((n - 1) * cap < len && len <= n * cap) by (nonlinear_arith)
            requires
                n as int == (len as int + cap as int - 1) / cap as int,
                len >= 1,
                cap >= 1,
        ;
    }
    let mut out: Vec<Shred> = Vec::new();
    let mut k: usize = 0;
    while k < n
        invariant
            len == data@.len(),
            len + cap <= usize::MAX,
            cap == DATA_SHRED_PAYLOAD_CAPACITY,
            n as int == num_chunks(data@.len() as int),
            n >= 1,
            (n - 1) * cap < len <= n * cap,
            fec_set_offset <= next_index,
            next_index + n <= u32::MAX,
            0 <= k <= n,
            out@.len() == k,
            forall|j: int|
                0 <= j < k ==> {
                    let s = #[trigger] out@[j];
                    &&& s.slot == slot
                    &&& s.index == next_index + j
                    &&& s.shred_version == version
                    &&& Some(s.fec_set_index) == fec_set_index_spec(
                        (next_index + j) as u32,
                        fec_set_offset,
                    )
                    &&& s.payload@ == chunk_of(data@, j)
                    &&& s.kind == (ShredKindInfo::Data {
                        parent_offset,
                        reference_tick,
                        last_in_fec_set: (j == n - 1 && is_last_in_slot) || ((next_index + j + 1
                            - fec_set_offset) % (MAX_DATA_SHREDS_PER_FEC_BLOCK as int) == 0),
                        last_in_slot: j == n - 1 && is_last_in_slot,
                    })
                },
        decreases n - k,
    {
        proof {
            assert(k * cap < len) by (nonlinear_arith)
                requires
                    k < n,
                    cap >= 1,
                    (n - 1) * cap < len,
            ;
            assert(k * cap + cap <= n * cap) by (nonlinear_arith)
                requires
                    k + 1 <= n,
                    cap >= 1,
            ;
        }
        let start = k * cap;
        let end = if start + cap <= len {
            start + cap
        } else {
            len
        };
        let chunk = crate::shredder::slice_range(data, start, end);
        let index = next_index + (k as u32);
        let last_chunk = k + 1 == n;
        let fills_set = (index - fec_set_offset) % MAX_DATA_SHREDS_PER_FEC_BLOCK
            == MAX_DATA_SHREDS_PER_FEC_BLOCK - 1;
        let fec = match fec_set_index(index, fec_set_offset) {
            Some(f) => f,
            None => 0,
        };
        let shred = Shred::new_from_data(
            slot,
            index,
            parent_offset,
            chunk.as_slice(),
            (last_chunk && is_last_in_slot) || fills_set,
            last_chunk && is_last_in_slot,
            reference_tick,
            version,
            fec,
        );
        proof {
            assert(chunk_of(data@, k as int) =~= data@.subrange(start as int, end as int));
            assert((index + 1 - fec_set_offset) % (MAX_DATA_SHREDS_PER_FEC_BLOCK as int) == 0
                <==> fills_set) by {
                let d = (index - fec_set_offset) as int;
                let m = MAX_DATA_SHREDS_PER_FEC_BLOCK as int;
                vstd::arithmetic::div_mod::lemma_mod_bound(d, m);
                vstd::arithmetic::div_mod::lemma_fundamental_div_mod(d, m);
                if d % m == m - 1 {
                    vstd::arithmetic::div_mod::lemma_fundamental_div_mod_converse(
                        d + 1,
                        m,
                        d / m + 1,
                        0,
                    );
                } else {
                    vstd::arithmetic::div_mod::lemma_fundamental_div_mod_converse(
                        d + 1,
                        m,
                        d / m,
                        d % m + 1,
                    );
                }
            }
        }
        out.push(shred);
        k = k + 1;
    }
    out
}

/// The Reed-Solomon parity shards over `data`: a pure function of the data
/// shards and the parity count, identical on every machine.
pub uninterp spec fn rs_parity_of(data: Seq<Seq<u8>>, parity_count: int) -> Seq<Seq<u8>>;

/// Relies on `reed_solomon_erasure::galois_8::ReedSolomon`: `encode` leaves
/// the first `data_count` shards alone and fills the rest with parity that
/// is a function of the data shards alone; construction and encoding accept
/// between 1 and 255 shards of one common non-zero length.
#[verifier::external_body]
fn rs_encode_in_place(shards: &mut Vec<Vec<u8>>, data_count: usize)
    requires
        1 <= data_count < old(shards)@.len() <= 255,
        forall|i: int|
            0 <= i < old(shards)@.len() ==> (#[trigger] old(shards)@[i])@.len()
                == DATA_SHRED_PAYLOAD_CAPACITY,
    ensures
        final(shards)@.len() == old(shards)@.len(),
        forall|i: int|
            0 <= i < data_count ==> (#[trigger] final(shards)@[i])@ == old(shards)@[i]@,
        forall|i: int|
            0 <= i < final(shards)@.len() ==> (#[trigger] final(shards)@[i])@.len()
                == DATA_SHRED_PAYLOAD_CAPACITY,
        final(shards)@.map_values(|v: Vec<u8>| v@).skip(data_count as int) == rs_parity_of(
            old(shards)@.map_values(|v: Vec<u8>| v@).subrange(0, data_count as int),
            old(shards)@.len() - data_count as int,
        ),
{
    let parity = shards.len() - data_count;
    let rs = reed_solomon_erasure::galois_8::ReedSolomon::new(data_count, parity).unwrap();
    rs.encode(shards.as_mut_slice()).unwrap();
}

/// A payload zero-padded to the full shred capacity.
pub open spec fn padded(payload: Seq<u8>) -> Seq<u8> {
    payload + Seq::new((DATA_SHRED_PAYLOAD_CAPACITY - payload.len()) as nat, |i: int| 0u8)
}

/// What the coding shreds of one set look like: one per data shred, at the
/// set's indices, carrying the Reed-Solomon parity of the zero-padded data
/// payloads.
pub open spec fn group_coding_matches(c: Seq<Shred>, g: Seq<Shred>) -> bool {
    &&& c.len() == g.len()
    &&& g.len() > 0 ==> forall|k: int|
        0 <= k < c.len() ==> {
            let s = #[trigger] c[k];
            &&& s.slot == g[0].slot
            &&& s.shred_version == g[0].shred_version
            &&& s.fec_set_index == g[0].fec_set_index
            &&& s.index == g[0].fec_set_index + k
            &&& s.kind == (ShredKindInfo::Coding {
                position: k as u16,
                num_data: g.len() as u16,
                num_code: g.len() as u16,
            })
            &&& s.payload@ == rs_parity_of(
                g.map_values(|d: Shred| padded(d.payload@)),
                g.len() as int,
            )[k]
        }
}

/// A data-shred group fit for coding: dense indices in one slot and set,
/// payloads within capacity.
pub open spec fn codable_group(g: Seq<Shred>) -> bool {
    &&& 1 <= g.len() <= MAX_DATA_SHREDS_PER_FEC_BLOCK
    &&& forall|k: int|
        0 <= k < g.len() ==> {
            let s = #[trigger] g[k];
            &&& s.slot == g[0].slot
            &&& s.shred_version == g[0].shred_version
            &&& s.fec_set_index == g[0].fec_set_index
            &&& s.index == g[0].fec_set_index + k
            &&& s.payload@.len() <= DATA_SHRED_PAYLOAD_CAPACITY
        }
}

/// The coding shreds of one forward-error-correction set.
pub fn coding_shreds_for_group(group: &Vec<Shred>) -> (out: Vec<Shred>)
    requires
        codable_group(group@),
        group@[0].fec_set_index + group@.len() - 1 <= u32::MAX,
    ensures
        group_coding_matches(out@, group@),
{
    let m = group.len();
    let mut shards: Vec<Vec<u8>> = Vec::new();
    let mut i: usize = 0;
    while i < m
        invariant
            m == group@.len(),
            codable_group(group@),
            0 <= i <= m,
            shards@.len() == i,
            forall|j: int|
                0 <= j < i ==> (#[trigger] shards@[j])@ == padded(group@[j].payload@),
        decreases m - i,
    {
        let p = &group[i].payload;
        let plen = p.len();
        let mut shard: Vec<u8> = Vec::new();
        let mut t: usize = 0;
        while t < plen
            invariant
                plen == p@.len(),
                0 <= t <= plen,
                shard@ == p@.take(t as int),
            decreases plen - t,
        {
            shard.push(p[t]);
            proof {
                assert(shard@ =~= p@.take(t + 1));
            }
            t = t + 1;
        }
        proof {
            assert(p@.take(plen as int) =~= p@);
        }
        while shard.len() < DATA_SHRED_PAYLOAD_CAPACITY
            invariant
                p@.len() <= shard@.len() <= DATA_SHRED_PAYLOAD_CAPACITY,
                shard@.subrange(0, p@.len() as int) == p@,
                forall|j: int| p@.len() <= j < shard@.len() ==> (#[trigger] shard@[j]) == 0u8,
            decreases DATA_SHRED_PAYLOAD_CAPACITY - shard@.len(),
        {
            shard.push(0u8);
            proof {
                assert(shard@.subrange(0, p@.len() as int) =~= p@);
            }
        }
        proof {
            assert(shard@ =~= padded(p@));
        }
        shards.push(shard);
        i = i + 1;
    }
    let ghost data_view = shards@.map_values(|v: Vec<u8>| v@);
    let mut t: usize = 0;
    while t < m
        invariant
            m == group@.len(),
            m >= 1,
            shards@.len() == m + t,
            0 <= t <= m,
            forall|j: int| 0 <= j < m + t ==> (#[trigger] shards@[j])@.len()
                == DATA_SHRED_PAYLOAD_CAPACITY,
            forall|j: int| 0 <= j < m ==> (#[trigger] shards@[j])@ == padded(group@[j].payload@),
            codable_group(group@),
            data_view == shards@.map_values(|v: Vec<u8>| v@).subrange(0, m as int),
        decreases m - t,
    {
        let mut zero: Vec<u8> = Vec::new();
        let mut z: usize = 0;
        while z < DATA_SHRED_PAYLOAD_CAPACITY
            invariant
                0 <= z <= DATA_SHRED_PAYLOAD_CAPACITY,
                zero@.len() == z,
            decreases DATA_SHRED_PAYLOAD_CAPACITY - z,
        {
            zero.push(0u8);
            z = z + 1;
        }
        let ghost pre = shards@;
        shards.push(zero);
        proof {
            assert(shards@.map_values(|v: Vec<u8>| v@).subrange(0, m as int) =~= pre.map_values(
                |v: Vec<u8>| v@,
            ).subrange(0, m as int));
        }
        t = t + 1;
    }
    rs_encode_in_place(&mut shards, m);
    let ghost parity_view = rs_parity_of(
        group@.map_values(|d: Shred| padded(d.payload@)),
        m as int,
    );
    proof {
        assert(data_view =~= group@.map_values(|d: Shred| padded(d.payload@)));
        assert(shards@.map_values(|v: Vec<u8>| v@).skip(m as int) == parity_view);
    }
    let fec = group[0].fec_set_index;
    let slot = group[0].slot;
    let version = group[0].shred_version;
    let mut out: Vec<Shred> = Vec::new();
    let mut k: usize = 0;
    while k < m
        invariant
            m == group@.len(),
            1 <= m <= MAX_DATA_SHREDS_PER_FEC_BLOCK,
            fec == group@[0].fec_set_index,
            slot == group@[0].slot,
            version == group@[0].shred_version,
            fec + m - 1 <= u32::MAX,
            shards@.len() == 2 * m,
            shards@.map_values(|v: Vec<u8>| v@).skip(m as int) == parity_view,
            parity_view == rs_parity_of(
                group@.map_values(|d: Shred| padded(d.payload@)),
                m as int,
            ),
            0 <= k <= m,
            out@.len() == k,
            forall|j: int|
                0 <= j < k ==> {
                    let s = #[trigger] out@[j];
                    &&& s.slot == slot
                    &&& s.shred_version == version
                    &&& s.fec_set_index == fec
                    &&& s.index == fec + j
                    &&& s.kind == (ShredKindInfo::Coding {
                        position: j as u16,
                        num_data: m as u16,
                        num_code: m as u16,
                    })
                    &&& s.payload@ == parity_view[j]
                },
        decreases m - k,
    {
        let payload = slice_range((&shards[m + k]).as_slice(), 0, shards[m + k].len());
        proof {
            assert(shards@.map_values(|v: Vec<u8>| v@).skip(m as int)[k as int] == shards@[m
                + k]@);
            assert(payload@ =~= shards@[m + k]@);
        }
        let shred = Shred {
            slot,
            index: fec + (k as u32),
            shred_version: version,
            fec_set_index: fec,
            kind: ShredKindInfo::Coding {
                position: k as u16,
                num_data: m as u16,
                num_code: m as u16,
            },
            payload,
        };
        out.push(shred);
        k = k + 1;
    }
    out
}

/// Two shreds that agree on every header field and on the payload bytes.
pub open spec fn shred_eqv(a: Shred, b: Shred) -> bool {
    &&& a.slot == b.slot
    &&& a.index == b.index
    &&& a.shred_version == b.shred_version
    &&& a.fec_set_index == b.fec_set_index
    &&& a.kind == b.kind
    &&& a.payload@ == b.payload@
}

/// `group_coding_matches` only reads fields and payload bytes, so it
/// transfers across equivalent groups.
pub proof fn lemma_group_matches_eqv(c: Seq<Shred>, g1: Seq<Shred>, g2: Seq<Shred>)
    requires
        group_coding_matches(c, g1),
        g1.len() == g2.len(),
        forall|k: int| 0 <= k < g1.len() ==> shred_eqv(#[trigger] g1[k], g2[k]),
    ensures
        group_coding_matches(c, g2),
{
    if g1.len() > 0 {
        assert(g1.map_values(|d: Shred| padded(d.payload@)) =~= g2.map_values(
            |d: Shred| padded(d.payload@),
        ));
    }
}

/// An unfinished-slot buffer in good order: consecutive data shreds of one
/// slot ending just before `next_shred_index`, starting on a set boundary.
pub open spec fn buffer_wf(st: UnfinishedSlotInfo, version: u16) -> bool {
    let buf = st.data_shreds_buffer@;
    let len = buf.len() as int;
    &&& st.fec_set_offset <= st.next_shred_index
    &&& len <= st.next_shred_index
    &&& st.next_shred_index - len >= st.fec_set_offset
    &&& (st.next_shred_index - len - st.fec_set_offset) % (MAX_DATA_SHREDS_PER_FEC_BLOCK as int)
        == 0
    &&& forall|k: int|
        0 <= k < len ==> {
            let s = #[trigger] buf[k];
            &&& s.slot == st.slot
            &&& s.shred_version == version
            &&& s.index == st.next_shred_index - len + k
            &&& shred_is_data(s)
            &&& s.payload@.len() <= DATA_SHRED_PAYLOAD_CAPACITY
            &&& Some(s.fec_set_index) == fec_set_index_spec(s.index, st.fec_set_offset)
        }
}

/// The carry between calls while a slot is being shredded.
pub struct UnfinishedSlotInfo {
    pub next_shred_index: u32,
    pub slot: u64,
    pub parent: u64,
    pub data_shreds_buffer: Vec<Shred>,
    pub fec_set_offset: u32,
}

/// Where block `j` of a sequence of `len` items ends, for blocks of `m`.
pub open spec fn block_end(len: int, j: int, m: int) -> int {
    if (j + 1) * m <= len {
        (j + 1) * m
    } else {
        len
    }
}

/// Coding shreds for all the data shreds drained, set by set: the `j`-th
/// block of `MAX_DATA_SHREDS_PER_FEC_BLOCK` drained shreds yields its
/// block of coding shreds at the same offset.
pub open spec fn coding_matches(out: Seq<Shred>, drained: Seq<Shred>) -> bool {
    let m = MAX_DATA_SHREDS_PER_FEC_BLOCK as int;
    &&& out.len() == drained.len()
    &&& forall|j: int|
        0 <= j && j * m < drained.len() ==> group_coding_matches(
            #[trigger] out.subrange(j * m, block_end(drained.len() as int, j, m)),
            drained.subrange(j * m, block_end(drained.len() as int, j, m)),
        )
}

/// Copies out the header fields and payload bytes of `v[start..end]`.
fn copy_shreds_range(v: &Vec<Shred>, start: usize, end: usize) -> (out: Vec<Shred>)
    requires
        start <= end <= v@.len(),
    ensures
        out@.len() == end - start,
        forall|k: int| 0 <= k < out@.len() ==> shred_eqv(#[trigger] out@[k], v@[start + k]),
{
    let mut out: Vec<Shred> = Vec::new();
    let mut i = start;
    while i < end
        invariant
            start <= i <= end <= v@.len(),
            out@.len() == i - start,
            forall|k: int| 0 <= k < out@.len() ==> shred_eqv(#[trigger] out@[k], v@[start + k]),
        decreases end - i,
    {
        let s = &v[i];
        let payload = slice_range(s.payload.as_slice(), 0, s.payload.len());
        proof {
            assert(payload@ =~= s.payload@);
        }
        out.push(
            Shred {
                slot: s.slot,
                index: s.index,
                shred_version: s.shred_version,
                fec_set_index: s.fec_set_index,
                kind: s.kind,
                payload,
            },
        );
        i = i + 1;
    }
    out
}

/// Consumes whole sets from the front of the unfinished slot's buffer (all
/// of it when the slot ends) and returns their coding shreds.
pub fn make_coding_shreds(unfinished_slot: &mut Option<UnfinishedSlotInfo>, is_slot_end: bool, version: u16) -> (out: Vec<Shred>)
    requires
        match *old(unfinished_slot) {
            None => true,
            Some(st) => buffer_wf(st, version),
        },
    ensures
        match *old(unfinished_slot) {
            None => *final(unfinished_slot) is None && out@.len() == 0,
            Some(st) => {
                let buf = st.data_shreds_buffer@;
                let keep = if is_slot_end {
                    0int
                } else {
                    buf.len() as int % (MAX_DATA_SHREDS_PER_FEC_BLOCK as int)
                };
                let drain = buf.len() - keep;
                &&& *final(unfinished_slot) matches Some(st2) && st2.next_shred_index
                    == st.next_shred_index && st2.slot == st.slot && st2.parent == st.parent
                    && st2.fec_set_offset == st.fec_set_offset
                    && st2.data_shreds_buffer@.len() == keep && (forall|k: int|
                    0 <= k < keep ==> shred_eqv(
                        #[trigger] st2.data_shreds_buffer@[k],
                        buf[drain + k],
                    )) && (!is_slot_end ==> buffer_wf(st2, version))
                &&& coding_matches(out@, buf.take(drain))
            },
        },
{
    match unfinished_slot {
        None => Vec::new(),
        Some(st) => {
            let size = st.data_shreds_buffer.len();
            let block = MAX_DATA_SHREDS_PER_FEC_BLOCK as usize;
            let keep = if is_slot_end {
                0
            } else {
                size % block
            };
            let drain = size - keep;
            let ghost buf0 = st.data_shreds_buffer@;
            let kept = copy_shreds_range(&st.data_shreds_buffer, drain, size);
            let drained = copy_shreds_range(&st.data_shreds_buffer, 0, drain);
            let mut out: Vec<Shred> = Vec::new();
            let mut cs: usize = 0;
            while cs < drain
                invariant
                    drain <= drained@.len() == drain,
                    drain <= buf0.len(),
                    block == MAX_DATA_SHREDS_PER_FEC_BLOCK as usize,
                    buffer_wf(*st, version),
                    st.data_shreds_buffer@ == buf0,
                    forall|k: int|
                        0 <= k < drain ==> shred_eqv(#[trigger] drained@[k], buf0[k]),
                    cs % block == 0 || cs == drain,
                    0 <= cs <= drain,
                    out@.len() == cs,
                    forall|j: int|
                        0 <= j && j * (block as int) < cs ==> group_coding_matches(
                            #[trigger] out@.subrange(
                                j * (block as int),
                                block_end(cs as int, j, block as int),
                            ),
                            buf0.take(drain as int).subrange(
                                j * (block as int),
                                block_end(cs as int, j, block as int),
                            ),
                        ),
                decreases drain - cs,
            {
                let ce = if drain - cs > block {
                    cs + block
                } else {
                    drain
                };
                proof {
                    assert(ce == if cs + block <= drain {
                        (cs + block) as int
                    } else {
                        drain as int
                    });
                }
                let group = copy_shreds_range(&drained, cs, ce);
                proof {
                    lemma_drained_group_codable(buf0, *st, version, drained@, group@, cs as int, ce as int, drain as int);
                }
                let mut coding = coding_shreds_for_group(&group);
                let ghost gcoding = coding@;
                let ghost out_pre = out@;
                out.append(&mut coding);
                proof {
                    assert(out@ =~= out_pre + gcoding);
                    lemma_coding_step(
                        out_pre,
                        out@,
                        gcoding,
                        buf0,
                        group@,
                        drained@,
                        cs as int,
                        ce as int,
                        drain as int,
                        block as int,
                    );
                }
                cs = ce;
            }
            st.data_shreds_buffer = kept;
            proof {
                let st2 = *st;
                if !is_slot_end {
                    let m = MAX_DATA_SHREDS_PER_FEC_BLOCK as int;
                    let first0 = st2.next_shred_index - buf0.len();
                    assert forall|k: int| 0 <= k < st2.data_shreds_buffer@.len() implies {
                        let s = #[trigger] st2.data_shreds_buffer@[k];
                        &&& s.slot == st2.slot
                        &&& s.shred_version == version
                        &&& s.index == st2.next_shred_index - st2.data_shreds_buffer@.len() + k
                        &&& shred_is_data(s)
                        &&& s.payload@.len() <= DATA_SHRED_PAYLOAD_CAPACITY
                        &&& Some(s.fec_set_index) == fec_set_index_spec(s.index, st2.fec_set_offset)
                    } by {
                        assert(shred_eqv(st2.data_shreds_buffer@[k], buf0[drain + k]));
                    }
                    assert(drain as int % m == 0) by {
                        let l = buf0.len() as int;
                        vstd::arithmetic::div_mod::lemma_fundamental_div_mod(l, m);
                        vstd::arithmetic::div_mod::lemma_mod_bound(l, m);
                        vstd::arithmetic::div_mod::lemma_fundamental_div_mod_converse(
                            l - l % m,
                            m,
                            l / m,
                            0,
                        );
                    }
                    assert((st2.next_shred_index - st2.data_shreds_buffer@.len()
                        - st2.fec_set_offset) % m == 0) by {
                        let a = first0 - st2.fec_set_offset;
                        vstd::arithmetic::div_mod::lemma_add_mod_noop(a, drain as int, m);
                        vstd::arithmetic::div_mod::lemma_mod_bound(a, m);
                    }
                    assert(buffer_wf(st2, version));
                }
            }
            out
        },
    }
}

/// A block cut out of the drained buffer is a codable set.
proof fn lemma_drained_group_codable(
    buf0: Seq<Shred>,
    st: UnfinishedSlotInfo,
    version: u16,
    drained: Seq<Shred>,
    group: Seq<Shred>,
    cs: int,
    ce: int,
    drain: int,
)
    requires
        buffer_wf(st, version),
        st.data_shreds_buffer@ == buf0,
        drain <= buf0.len(),
        drained.len() == drain,
        forall|k: int| 0 <= k < drain ==> shred_eqv(#[trigger] drained[k], buf0[k]),
        0 <= cs < ce <= drain,
        ce - cs <= MAX_DATA_SHREDS_PER_FEC_BLOCK,
        cs % (MAX_DATA_SHREDS_PER_FEC_BLOCK as int) == 0,
        group.len() == ce - cs,
        forall|k: int| 0 <= k < group.len() ==> shred_eqv(#[trigger] group[k], drained[cs + k]),
    ensures
        codable_group(group),
        group[0].fec_set_index + group.len() - 1 <= u32::MAX,
{
    let m = MAX_DATA_SHREDS_PER_FEC_BLOCK as int;
    let first = st.next_shred_index - buf0.len();
    assert forall|k: int| 0 <= k < group.len() implies {
        let s = #[trigger] group[k];
        &&& s.slot == group[0].slot
        &&& s.shred_version == group[0].shred_version
        &&& s.fec_set_index == group[0].fec_set_index
        &&& s.index == group[0].fec_set_index + k
        &&& s.payload@.len() <= DATA_SHRED_PAYLOAD_CAPACITY
    } by {
        assert(shred_eqv(group[k], buf0[cs + k]));
        assert(shred_eqv(group[0], buf0[cs]));
        assert(buf0[cs + k].index == first + cs + k);
        lemma_set_alignment(st, buf0, version, cs, k);
    }
    assert(group[0].fec_set_index == first + cs) by {
        lemma_set_alignment(st, buf0, version, cs, 0);
    }
    assert(buf0[ce - 1].index == first + ce - 1);
    assert(first + ce - 1 <= u32::MAX);
}

/// Inside an aligned block, every shred's set starts at the block's first
/// index.
proof fn lemma_set_alignment(
    st: UnfinishedSlotInfo,
    buf0: Seq<Shred>,
    version: u16,
    cs: int,
    k: int,
)
    requires
        buffer_wf(st, version),
        st.data_shreds_buffer@ == buf0,
        cs % (MAX_DATA_SHREDS_PER_FEC_BLOCK as int) == 0,
        0 <= k < MAX_DATA_SHREDS_PER_FEC_BLOCK,
        0 <= cs + k < buf0.len(),
    ensures
        buf0[cs + k].fec_set_index == st.next_shred_index - buf0.len() + cs,
{
    let m = MAX_DATA_SHREDS_PER_FEC_BLOCK as int;
    let first = st.next_shred_index - buf0.len();
    let idx = first + cs + k;
    assert(buf0[cs + k].index == idx);
    assert(Some(buf0[cs + k].fec_set_index) == fec_set_index_spec(
        buf0[cs + k].index,
        st.fec_set_offset,
    ));
    let d = idx - st.fec_set_offset;
    assert((first - st.fec_set_offset) % m == 0);
    assert(d % m == k) by {
        let a = first - st.fec_set_offset;
        vstd::arithmetic::div_mod::lemma_fundamental_div_mod(a, m);
        vstd::arithmetic::div_mod::lemma_fundamental_div_mod(cs, m);
        let qa = a / m;
        let qc = cs / m;
        assert(d == m * (qa + qc) + k) by (nonlinear_arith)
            requires
                a == m * qa + 0,
                cs == m * qc + 0,
                d == a + cs + k,
        ;
        vstd::arithmetic::div_mod::lemma_fundamental_div_mod_converse(d, m, qa + qc, k);
    }
    assert(fec_set_index_spec(buf0[cs + k].index, st.fec_set_offset) == Some(
        ((idx - k) as u32),
    ));
}

/// Appending one block's coding shreds keeps every completed block matched.
proof fn lemma_coding_step(
    out_pre: Seq<Shred>,
    out_post: Seq<Shred>,
    coding: Seq<Shred>,
    buf0: Seq<Shred>,
    group: Seq<Shred>,
    drained: Seq<Shred>,
    cs: int,
    ce: int,
    drain: int,
    block: int,
)
    requires
        block == MAX_DATA_SHREDS_PER_FEC_BLOCK as int,
        0 <= cs < ce <= drain <= buf0.len(),
        cs % block == 0,
        ce == if cs + block <= drain {
            cs + block
        } else {
            drain
        },
        out_pre.len() == cs,
        coding.len() == ce - cs,
        out_post == out_pre + coding,
        drained.len() == drain,
        forall|k: int| 0 <= k < drain ==> shred_eqv(#[trigger] drained[k], buf0[k]),
        group.len() == ce - cs,
        forall|k: int| 0 <= k < group.len() ==> shred_eqv(#[trigger] group[k], drained[cs + k]),
        group_coding_matches(coding, group),
        forall|j: int|
            0 <= j && j * block < cs ==> group_coding_matches(
                #[trigger] out_pre.subrange(j * block, block_end(cs, j, block)),
                buf0.take(drain).subrange(j * block, block_end(cs, j, block)),
            ),
    ensures
        forall|j: int|
            0 <= j && j * block < ce ==> group_coding_matches(
                #[trigger] out_post.subrange(j * block, block_end(ce, j, block)),
                buf0.take(drain).subrange(j * block, block_end(ce, j, block)),
            ),
{
    let q = cs / block;
    assert(q * block == cs) by {
        vstd::arithmetic::div_mod::lemma_fundamental_div_mod(cs, block);
    }
    assert forall|j: int|
        0 <= j && j * block < ce implies group_coding_matches(
        #[trigger] out_post.subrange(j * block, block_end(ce, j, block)),
        buf0.take(drain).subrange(j * block, block_end(ce, j, block)),
    ) by {
        let je = block_end(ce, j, block);
        if j < q {
            assert(j * block < cs) by (nonlinear_arith)
                requires
                    j < q,
                    block >= 1,
                    q * block == cs,
            ;
            assert((j + 1) * block <= cs) by (nonlinear_arith)
                requires
                    j + 1 <= q,
                    block >= 1,
                    q * block == cs,
            ;
            assert(group_coding_matches(
                out_pre.subrange(j * block, block_end(cs, j, block)),
                buf0.take(drain).subrange(j * block, block_end(cs, j, block)),
            ));
            assert(block_end(cs, j, block) == je);
            assert(out_post.subrange(j * block, je) =~= out_pre.subrange(
                j * block,
                block_end(cs, j, block),
            ));
        } else if j == q {
            assert(je == ce);
            assert(out_post.subrange(j * block, je) =~= coding);
            let g2 = buf0.take(drain).subrange(cs, ce);
            assert(g2.len() == group.len());
            assert forall|k: int| 0 <= k < group.len() implies shred_eqv(
                #[trigger] group[k],
                g2[k],
            ) by {
                assert(shred_eqv(group[k], drained[cs + k]));
                assert(shred_eqv(drained[cs + k], buf0[cs + k]));
                assert(g2[k] == buf0[cs + k]);
            }
            lemma_group_matches_eqv(coding, group, g2);
        } else {
            assert(j * block >= (q + 1) * block) by (nonlinear_arith)
                requires
                    j >= q + 1,
                    block >= 1,
            ;
            assert((q + 1) * block == cs + block);
            assert(j * block >= ce);
            assert(false);
        }
    }
}

/// `coding_matches` only reads fields and payload bytes of the drained
/// shreds, so it transfers across equivalent drains.
pub proof fn lemma_coding_matches_eqv(out: Seq<Shred>, d1: Seq<Shred>, d2: Seq<Shred>)
    requires
        coding_matches(out, d1),
        d1.len() == d2.len(),
        forall|k: int| 0 <= k < d1.len() ==> shred_eqv(#[trigger] d1[k], d2[k]),
    ensures
        coding_matches(out, d2),
{
    let m = MAX_DATA_SHREDS_PER_FEC_BLOCK as int;
    assert forall|j: int|
        0 <= j && j * m < d2.len() implies group_coding_matches(
        #[trigger] out.subrange(j * m, block_end(d2.len() as int, j, m)),
        d2.subrange(j * m, block_end(d2.len() as int, j, m)),
    ) by {
        let je = block_end(d1.len() as int, j, m);
        assert(group_coding_matches(
            out.subrange(j * m, block_end(d1.len() as int, j, m)),
            d1.subrange(j * m, block_end(d1.len() as int, j, m)),
        ));
        let g1 = d1.subrange(j * m, je);
        let g2 = d2.subrange(j * m, je);
        assert forall|k: int| 0 <= k < g1.len() implies shred_eqv(#[trigger] g1[k], g2[k]) by {
            assert(g1[k] == d1[j * m + k] && g2[k] == d2[j * m + k]);
        }
        lemma_group_matches_eqv(out.subrange(j * m, je), g1, g2);
    }
}

/// Per-batch metadata handed to the wire and ledger sinks.
#[derive(Clone, Copy, Debug, PartialEq, Eq)]
pub struct BroadcastShredBatchInfo {
    pub slot: u64,
    /// Set on the terminal batch pair of a slot: how many batches the slot
    /// produced in total.
    pub num_expected_batches: Option<usize>,
    pub slot_start_ts: u64,
    /// True only on the batch that finalizes a slot cut short by the next.
    pub was_interrupted: bool,
}

/// One received batch of entries, with the bank numbers the machine reads.
pub struct ReceiveResults {
    /// The slot's entries, already serialized to bytes by the caller.
    pub serialized_entries: Vec<u8>,
    pub slot: u64,
    pub parent_slot: u64,
    pub last_tick_height: u64,
    pub max_tick_height: u64,
    pub ticks_per_slot: u64,
    pub tick_height: u64,
}

/// Everything one processing step emits; the caller sends the batches to
/// the wire and ledger sinks in this order.
pub struct ProcessOutput {
    /// The finalization batch of an interrupted previous slot, if any.
    pub prev_slot_shreds: Vec<Shred>,
    pub prev_slot_batch_info: Option<BroadcastShredBatchInfo>,
    pub data_shreds: Vec<Shred>,
    pub coding_shreds: Vec<Shred>,
    pub batch_info: BroadcastShredBatchInfo,
    /// True when the batch opens the slot at index zero; the caller must
    /// persist that first shred before anything goes on the wire.
    pub first_shred_index_zero: bool,
}

/// The data shreds a slot has emitted so far.
pub open spec fn emitted_for(m: Map<u64, Seq<Shred>>, slot: u64) -> Seq<Shred> {
    if m.dom().contains(slot) {
        m[slot]
    } else {
        Seq::<Shred>::empty()
    }
}

/// An open slot's record: dense data shreds of the slot ending just before
/// `next`, none of them final except possibly the very last, which is final
/// exactly when the slot just closed.
pub open spec fn slot_record_partial(e: Seq<Shred>, slot: u64, next: u32, closed: bool) -> bool {
    &&& e.len() >= 1
    &&& next == e[0].index + e.len()
    &&& forall|k: int|
        0 <= k < e.len() ==> {
            let s = #[trigger] e[k];
            &&& s.slot == slot
            &&& shred_is_data(s)
            &&& s.index == e[0].index + k
            &&& (k < e.len() - 1 ==> !shred_last_in_slot(s))
        }
    &&& shred_last_in_slot(e.last()) == closed
}

/// A completed slot's record: the data-shred indices are dense with no gap
/// and no duplicate, and exactly the final shred carries `last_in_slot`.
pub open spec fn slot_record_complete(e: Seq<Shred>, slot: u64) -> bool {
    &&& e.len() >= 1
    &&& forall|k: int|
        0 <= k < e.len() ==> {
            let s = #[trigger] e[k];
            &&& s.slot == slot
            &&& shred_is_data(s)
            &&& s.index == e[0].index + k
            &&& (shred_last_in_slot(s) <==> k == e.len() - 1)
        }
}

/// Law of the completed slot: started at index zero, the emitted indices
/// are exactly `0, 1, ..., len - 1` — no gap, no duplicate.
pub proof fn lemma_completed_slot_indices(e: Seq<Shred>, slot: u64)
    requires
        slot_record_complete(e, slot),
        e[0].index == 0,
    ensures
        forall|k: int| 0 <= k < e.len() ==> (#[trigger] e[k]).index == k,
{
}

/// Law of the dense slot, batch by batch: extending an open slot record
/// with one conversion's data shreds keeps it dense from its first index,
/// still open when the slot goes on, and complete -- exactly the final
/// shred flagged last-in-slot -- when the conversion closes the slot.
/// With the emitted-record continuity that `process_receive_results`
/// ensures, this chains across any number of batch calls.
pub proof fn lemma_slot_record_extends(
    e: Seq<Shred>,
    d: Seq<Shred>,
    data: Seq<u8>,
    slot: u64,
    parent_offset: u16,
    next: u32,
    off: u32,
    is_last: bool,
    reference_tick: u8,
    version: u16,
)
    requires
        slot_record_partial(e, slot, next, false),
        data_shreds_match(d, data, slot, parent_offset, next, off, is_last, reference_tick, version),
        d.len() >= 1,
        next + d.len() <= u32::MAX,
    ensures
        slot_record_partial(e + d, slot, (next + d.len()) as u32, is_last),
        (e + d)[0].index == e[0].index,
        is_last ==> slot_record_complete(e + d, slot),
{
    let r = e + d;
    assert(r[0] == e[0]);
    assert forall|k: int| 0 <= k < r.len() implies {
        let s = #[trigger] r[k];
        &&& s.slot == slot
        &&& shred_is_data(s)
        &&& s.index == r[0].index + k
        &&& (k < r.len() - 1 ==> !shred_last_in_slot(s))
    } by {
        if k < e.len() {
            assert(r[k] == e[k]);
        } else {
            assert(r[k] == d[k - e.len()]);
        }
    }
    assert(r.last() == d.last());
    if is_last {
        assert forall|k: int| 0 <= k < r.len() implies (shred_last_in_slot(#[trigger] r[k]) <==> k
            == r.len() - 1) by {
            if k < e.len() {
                assert(r[k] == e[k]);
            } else {
                assert(r[k] == d[k - e.len()]);
            }
        }
    }
}

/// The index the next data shred of a slot gets, and the slot's set offset:
/// carried over, read from the ledger, or zero.
pub open spec fn shred_start_spec(u: Option<UnfinishedSlotInfo>, meta: Option<u32>) -> (u32, u32) {
    match u {
        Some(st) => (st.next_shred_index, st.fec_set_offset),
        None => match meta {
            Some(c) => (c, c),
            None => (0u32, 0u32),
        },
    }
}

/// The slot-boundary state machine of the broadcast pipeline: it carries an
/// unfinished slot across entry batches, finalizes an interrupted slot with
/// a terminating shred and its coding, and counts the batches of the slot.
pub struct BroadcastMissingShredsRun {
    pub unfinished_slot: Option<UnfinishedSlotInfo>,
    pub current_slot_and_parent: Option<(u64, u64)>,
    /// When the current slot's broadcast began, caller's clock.
    pub slot_broadcast_start: Option<u64>,
    pub shred_version: u16,
    pub num_batches: usize,
    /// The data shreds each slot has emitted, for the slot-completeness laws.
    pub emitted: Ghost<Map<u64, Seq<Shred>>>,
}

impl BroadcastMissingShredsRun {
    pub open spec fn wf(&self) -> bool {
        match self.unfinished_slot {
            None => true,
            Some(st) => {
                &&& buffer_wf(st, self.shred_version)
                &&& st.parent < st.slot
                &&& st.slot - st.parent <= u16::MAX
                &&& self.slot_broadcast_start is Some
                &&& self.current_slot_and_parent is Some
                &&& slot_record_partial(
                    emitted_for(self.emitted@, st.slot),
                    st.slot,
                    st.next_shred_index,
                    false,
                )
            },
        }
    }

    pub fn new(shred_version: u16) -> (out: Self)
        ensures
            out.wf(),
            out.unfinished_slot is None,
            out.current_slot_and_parent is None,
            out.slot_broadcast_start is None,
            out.shred_version == shred_version,
            out.num_batches == 0,
            out.emitted@ == Map::<u64, Seq<Shred>>::empty(),
    {
        BroadcastMissingShredsRun {
            unfinished_slot: None,
            current_slot_and_parent: None,
            slot_broadcast_start: None,
            shred_version,
            num_batches: 0,
            emitted: Ghost(Map::empty()),
        }
    }

    /// If the current slot differs from the unfinished one, emits the
    /// previous slot's terminating shred followed by the coding shreds of
    /// its whole remaining buffer, and closes it.
    pub fn finish_prev_slot(&mut self, max_ticks_in_slot: u8) -> (out: Vec<Shred>)
        requires
            old(self).wf(),
            old(self).current_slot_and_parent is Some,
            old(self).unfinished_slot matches Some(st) ==> st.next_shred_index < u32::MAX,
        ensures
            final(self).wf(),
            final(self).shred_version == old(self).shred_version,
            final(self).current_slot_and_parent == old(self).current_slot_and_parent,
            final(self).num_batches == old(self).num_batches,
            final(self).slot_broadcast_start == old(self).slot_broadcast_start,
            match old(self).unfinished_slot {
                None => out@.len() == 0 && *final(self) == *old(self),
                Some(st) => if st.slot == old(self).current_slot_and_parent->Some_0.0 {
                    out@.len() == 0 && *final(self) == *old(self)
                } else {
                    let full = st.data_shreds_buffer@.push(out@[0]);
                    &&& final(self).unfinished_slot is None
                    &&& out@.len() == st.data_shreds_buffer@.len() + 2
                    &&& out@[0].slot == st.slot && out@[0].index == st.next_shred_index
                        && out@[0].shred_version == old(self).shred_version && out@[0].payload@
                        == Seq::<u8>::empty() && out@[0].kind == (ShredKindInfo::Data {
                        parent_offset: (st.slot - st.parent) as u16,
                        reference_tick: max_ticks_in_slot & crate::SHRED_TICK_REFERENCE_MASK,
                        last_in_fec_set: true,
                        last_in_slot: true,
                    })
                    &&& Some(out@[0].fec_set_index) == fec_set_index_spec(
                        st.next_shred_index,
                        st.fec_set_offset,
                    )
                    &&& coding_matches(out@.skip(1), full)
                    &&& final(self).emitted@ == old(self).emitted@.insert(
                        st.slot,
                        emitted_for(old(self).emitted@, st.slot).push(out@[0]),
                    )
                    &&& slot_record_complete(
                        emitted_for(final(self).emitted@, st.slot),
                        st.slot,
                    )
                },
            },
    {
        let current_slot = match self.current_slot_and_parent {
            Some(sp) => sp.0,
            None => 0,
        };
        let finish = match &self.unfinished_slot {
            None => false,
            Some(st) => st.slot != current_slot,
        };
        if !finish {
            return Vec::new();
        }
        let (sslot, sparent, snext, soffset) = match &self.unfinished_slot {
            Some(st) => (st.slot, st.parent, st.next_shred_index, st.fec_set_offset),
            None => (0, 0, 0, 0),
        };
        let reference_tick = max_ticks_in_slot & crate::SHRED_TICK_REFERENCE_MASK;
        let fec = match fec_set_index(snext, soffset) {
            Some(f) => f,
            None => {
                proof {
                    assert(false);
                }
                0
            },
        };
        let empty_data: Vec<u8> = Vec::new();
        let parent_offset = (sslot - sparent) as u16;
        let terminator_out = Shred::new_from_data(
            sslot,
            snext,
            parent_offset,
            empty_data.as_slice(),
            true,
            true,
            reference_tick,
            self.shred_version,
            fec,
        );
        let terminator_buf = Shred::new_from_data(
            sslot,
            snext,
            parent_offset,
            empty_data.as_slice(),
            true,
            true,
            reference_tick,
            self.shred_version,
            fec,
        );
        let ghost old_buf = match &self.unfinished_slot {
            Some(st) => st.data_shreds_buffer@,
            None => Seq::<Shred>::empty(),
        };
        match &mut self.unfinished_slot {
            Some(st) => {
                st.data_shreds_buffer.push(terminator_buf);
                st.next_shred_index = snext + 1;
                proof {
                    let st2 = *st;
                    let buf2 = st2.data_shreds_buffer@;
                    assert(buf2 =~= old_buf.push(terminator_buf));
                    assert(buffer_wf(st2, self.shred_version)) by {
                        assert forall|k: int| 0 <= k < buf2.len() implies {
                            let s = #[trigger] buf2[k];
                            &&& s.slot == st2.slot
                            &&& s.shred_version == self.shred_version
                            &&& s.index == st2.next_shred_index - buf2.len() + k
                            &&& shred_is_data(s)
                            &&& s.payload@.len() <= DATA_SHRED_PAYLOAD_CAPACITY
                            &&& Some(s.fec_set_index) == fec_set_index_spec(
                                s.index,
                                st2.fec_set_offset,
                            )
                        } by {
                            if k < old_buf.len() {
                                assert(buf2[k] == old_buf[k]);
                            } else {
                                assert(buf2[k] == terminator_buf);
                            }
                        }
                    }
                }
            },
            None => {},
        }
        let coding = make_coding_shreds(&mut self.unfinished_slot, true, self.shred_version);
        let mut out: Vec<Shred> = Vec::new();
        out.push(terminator_out);
        let mut coding = coding;
        let ghost gcoding = coding@;
        out.append(&mut coding);
        let ghost old_rec = emitted_for(self.emitted@, sslot);
        proof {
            assert(out@.skip(1) =~= gcoding);
            let full_buf = old_buf.push(terminator_buf);
            let full_stated = old_buf.push(out@[0]);
            assert(gcoding.len() == full_buf.len());
            assert(full_buf.take(full_buf.len() as int) =~= full_buf);
            assert forall|k: int| 0 <= k < full_buf.len() implies shred_eqv(
                #[trigger] full_buf[k],
                full_stated[k],
            ) by {}
            lemma_coding_matches_eqv(gcoding, full_buf, full_stated);
        }
        self.unfinished_slot = None;
        self.emitted = Ghost(self.emitted@.insert(sslot, old_rec.push(terminator_out)));
        proof {
            let rec = emitted_for(self.emitted@, sslot);
            assert(rec =~= old_rec.push(terminator_out));
            assert(slot_record_complete(rec, sslot)) by {
                assert forall|k: int| 0 <= k < rec.len() implies {
                    let s = #[trigger] rec[k];
                    &&& s.slot == sslot
                    &&& shred_is_data(s)
                    &&& s.index == rec[0].index + k
                    &&& (shred_last_in_slot(s) <==> k == rec.len() - 1)
                } by {
                    if k < old_rec.len() {
                        assert(rec[k] == old_rec[k]);
                    }
                }
            }
        }
        out
    }

    /// Converts the serialized entry stream into data shreds of the current
    /// slot, starting at the carried index (or at the ledger's first free
    /// index for a fresh slot), and buffers them for coding.
    #[verifier::rlimit(60)]
    pub fn entries_to_data_shreds(
        &mut self,
        serialized_entries: &[u8],
        blockstore_consumed: Option<u32>,
        reference_tick: u8,
        is_slot_end: bool,
    ) -> (out: Vec<Shred>)
        requires
            old(self).wf(),
            old(self).current_slot_and_parent matches Some(sp) && sp.1 < sp.0 && sp.0 - sp.1
                <= u16::MAX,
            old(self).slot_broadcast_start is Some,
            old(self).unfinished_slot matches Some(st) ==> Some((st.slot, st.parent)) == old(
                self,
            ).current_slot_and_parent,
            old(self).unfinished_slot is None ==> !old(self).emitted@.dom().contains(
                old(self).current_slot_and_parent->Some_0.0,
            ),
            serialized_entries@.len() >= 1,
            serialized_entries@.len() + DATA_SHRED_PAYLOAD_CAPACITY <= usize::MAX,
            shred_start_spec(old(self).unfinished_slot, blockstore_consumed).0 + num_chunks(
                serialized_entries@.len() as int,
            ) < u32::MAX,
        ensures
            final(self).shred_version == old(self).shred_version,
            final(self).current_slot_and_parent == old(self).current_slot_and_parent,
            final(self).num_batches == old(self).num_batches,
            final(self).slot_broadcast_start == old(self).slot_broadcast_start,
            ({
                let slot = old(self).current_slot_and_parent->Some_0.0;
                let parent = old(self).current_slot_and_parent->Some_0.1;
                let nx = shred_start_spec(old(self).unfinished_slot, blockstore_consumed).0;
                let off = shred_start_spec(old(self).unfinished_slot, blockstore_consumed).1;
                let old_buf = match old(self).unfinished_slot {
                    Some(st) => st.data_shreds_buffer@,
                    None => Seq::<Shred>::empty(),
                };
                &&& data_shreds_match(
                    out@,
                    serialized_entries@,
                    slot,
                    (slot - parent) as u16,
                    nx,
                    off,
                    is_slot_end,
                    reference_tick & crate::SHRED_TICK_REFERENCE_MASK,
                    old(self).shred_version,
                )
                &&& out@.len() >= 1
                &&& *final(self) == (BroadcastMissingShredsRun {
                    unfinished_slot: final(self).unfinished_slot,
                    emitted: final(self).emitted,
                    ..*old(self)
                })
                &&& final(self).unfinished_slot matches Some(st2) && st2.slot == slot
                    && st2.parent == parent && st2.next_shred_index == nx + out@.len()
                    && st2.fec_set_offset == off && buffer_wf(st2, old(self).shred_version)
                    && st2.data_shreds_buffer@.len() == old_buf.len() + out@.len() && (forall|
                    k: int,
                |
                    0 <= k < old_buf.len() ==> #[trigger] st2.data_shreds_buffer@[k]
                        == old_buf[k]) && (forall|k: int|
                    0 <= k < out@.len() ==> shred_eqv(
                        st2.data_shreds_buffer@[old_buf.len() + k],
                        #[trigger] out@[k],
                    ))
                &&& final(self).emitted@ == old(self).emitted@.insert(
                    slot,
                    emitted_for(old(self).emitted@, slot) + out@,
                )
                &&& slot_record_partial(
                    emitted_for(final(self).emitted@, slot),
                    slot,
                    (nx + out@.len()) as u32,
                    is_slot_end,
                )
                &&& (!is_slot_end ==> final(self).wf())
            }),
    {
        let (slot, parent_slot) = match self.current_slot_and_parent {
            Some(sp) => sp,
            None => (0, 0),
        };
        let (next_shred_index, fec_set_offset) = match &self.unfinished_slot {
            Some(st) => (st.next_shred_index, st.fec_set_offset),
            None => match blockstore_consumed {
                Some(c) => (c, c),
                None => (0, 0),
            },
        };
        let rt = reference_tick & crate::SHRED_TICK_REFERENCE_MASK;
        let parent_offset = (slot - parent_slot) as u16;
        let out = make_data_shreds(
            serialized_entries,
            slot,
            parent_offset,
            next_shred_index,
            fec_set_offset,
            is_slot_end,
            rt,
            self.shred_version,
        );
        let batch = make_data_shreds(
            serialized_entries,
            slot,
            parent_offset,
            next_shred_index,
            fec_set_offset,
            is_slot_end,
            rt,
            self.shred_version,
        );
        let n = out.len();
        let ghost old_buf = match &self.unfinished_slot {
            Some(st) => st.data_shreds_buffer@,
            None => Seq::<Shred>::empty(),
        };
        let ghost old_rec = emitted_for(self.emitted@, slot);
        match &mut self.unfinished_slot {
            Some(st) => {
                let mut batch = batch;
                st.data_shreds_buffer.append(&mut batch);
                st.next_shred_index = next_shred_index + (n as u32);
            },
            None => {
                self.unfinished_slot = Some(
                    UnfinishedSlotInfo {
                        next_shred_index: next_shred_index + (n as u32),
                        slot,
                        parent: parent_slot,
                        data_shreds_buffer: batch,
                        fec_set_offset,
                    },
                );
            },
        }
        self.emitted = Ghost(self.emitted@.insert(slot, old_rec + out@));
        proof {
            let st2 = self.unfinished_slot->Some_0;
            let buf2 = st2.data_shreds_buffer@;
            assert(buf2 =~= old_buf + batch@);
            assert(buffer_wf(st2, self.shred_version)) by {
                assert forall|k: int| 0 <= k < buf2.len() implies {
                    let s = #[trigger] buf2[k];
                    &&& s.slot == st2.slot
                    &&& s.shred_version == self.shred_version
                    &&& s.index == st2.next_shred_index - buf2.len() + k
                    &&& shred_is_data(s)
                    &&& s.payload@.len() <= DATA_SHRED_PAYLOAD_CAPACITY
                    &&& Some(s.fec_set_index) == fec_set_index_spec(s.index, st2.fec_set_offset)
                } by {
                    if k < old_buf.len() {
                        assert(buf2[k] == old_buf[k]);
                    } else {
                        assert(buf2[k] == batch@[k - old_buf.len()]);
                        assert(batch@[k - old_buf.len()].payload@ == chunk_of(
                            serialized_entries@,
                            k - old_buf.len(),
                        ));
                        lemma_chunk_len(serialized_entries@, k - old_buf.len());
                    }
                }
            }
            assert forall|k: int| 0 <= k < out@.len() implies shred_eqv(
                #[trigger] buf2[old_buf.len() + k],
                out@[k],
            ) by {
                assert(buf2[old_buf.len() + k] == batch@[k]);
            }
            let rec = emitted_for(self.emitted@, slot);
            assert(rec =~= old_rec + out@);
            assert(slot_record_partial(rec, slot, st2.next_shred_index, is_slot_end)) by {
                assert forall|k: int| 0 <= k < rec.len() implies {
                    let s = #[trigger] rec[k];
                    &&& s.slot == slot
                    &&& shred_is_data(s)
                    &&& s.index == rec[0].index + k
                    &&& (k < rec.len() - 1 ==> !shred_last_in_slot(s))
                } by {
                    if k < old_rec.len() {
                        assert(rec[k] == old_rec[k]);
                    } else {
                        assert(rec[k] == out@[k - old_rec.len()]);
                    }
                }
            }
        }
        out
    }

    /// One processing step of the broadcast run: finalizes an interrupted
    /// previous slot, shreds the received entries, counts the slot's
    /// batches, and drains completed sets into coding shreds.  On the
    /// slot's last batch the carry is dropped and the expected batch count
    /// is reported.
    pub fn process_receive_results(
        &mut self,
        receive: &ReceiveResults,
        blockstore_consumed: Option<u32>,
        now_ms: u64,
    ) -> (out: ProcessOutput)
        requires
            old(self).wf(),
            receive.parent_slot < receive.slot,
            receive.slot - receive.parent_slot <= u16::MAX,
            receive.ticks_per_slot >= 1,
            receive.serialized_entries@.len() >= 1,
            receive.serialized_entries@.len() + DATA_SHRED_PAYLOAD_CAPACITY <= usize::MAX,
            old(self).num_batches + 2 <= usize::MAX,
            old(self).unfinished_slot matches Some(st) ==> st.next_shred_index < u32::MAX,
            old(self).unfinished_slot matches Some(st) ==> (st.slot == receive.slot ==> old(
                self,
            ).current_slot_and_parent == Some((st.slot, st.parent)) && st.parent
                == receive.parent_slot),
            !(old(self).unfinished_slot matches Some(st) && st.slot == receive.slot) ==> !old(
                self,
            ).emitted@.dom().contains(receive.slot),
            old(self).current_slot_and_parent matches Some(sp) ==> (sp.0 == receive.slot ==> (
            old(self).unfinished_slot matches Some(st) && st.slot == receive.slot)),
            shred_start_spec(
                if old(self).unfinished_slot matches Some(st) && st.slot == receive.slot {
                    old(self).unfinished_slot
                } else {
                    None
                },
                blockstore_consumed,
            ).0 + num_chunks(receive.serialized_entries@.len() as int) < u32::MAX,
        ensures
            final(self).wf(),
            final(self).shred_version == old(self).shred_version,
            ({
                let continuing = old(self).unfinished_slot matches Some(st) && st.slot
                    == receive.slot;
                let eff = if continuing {
                    old(self).unfinished_slot
                } else {
                    Option::<UnfinishedSlotInfo>::None
                };
                let nx = shred_start_spec(eff, blockstore_consumed).0;
                let off = shred_start_spec(eff, blockstore_consumed).1;
                let is_last = receive.last_tick_height == receive.max_tick_height;
                &&& data_shreds_match(
                    out.data_shreds@,
                    receive.serialized_entries@,
                    receive.slot,
                    (receive.slot - receive.parent_slot) as u16,
                    nx,
                    off,
                    is_last,
                    ((receive.tick_height % receive.ticks_per_slot) as u8)
                        & crate::SHRED_TICK_REFERENCE_MASK,
                    old(self).shred_version,
                )
                &&& out.data_shreds@.len() >= 1
                &&& out.first_shred_index_zero == (out.data_shreds@[0].index == 0)
                &&& out.batch_info.slot == receive.slot
                &&& out.batch_info.was_interrupted == false
                &&& out.batch_info.num_expected_batches == (if is_last {
                    Some(final(self).num_batches)
                } else {
                    Option::<usize>::None
                })
                &&& final(self).num_batches == (if continuing {
                    old(self).num_batches + 2
                } else {
                    2int
                })
                &&& final(self).current_slot_and_parent == Some(
                    (receive.slot, receive.parent_slot),
                )
                &&& final(self).slot_broadcast_start == (if continuing {
                    old(self).slot_broadcast_start
                } else {
                    Some(now_ms)
                })
                &&& out.batch_info.slot_start_ts == final(self).slot_broadcast_start->Some_0
                &&& emitted_for(final(self).emitted@, receive.slot) == emitted_for(
                    old(self).emitted@,
                    receive.slot,
                ) + out.data_shreds@
                &&& (!continuing ==> emitted_for(final(self).emitted@, receive.slot)[0].index
                    == nx)
                &&& (is_last ==> final(self).unfinished_slot is None
                    && slot_record_complete(
                    emitted_for(final(self).emitted@, receive.slot),
                    receive.slot,
                ))
                &&& (!is_last ==> slot_record_partial(
                    emitted_for(final(self).emitted@, receive.slot),
                    receive.slot,
                    (nx + out.data_shreds@.len()) as u32,
                    false,
                ))
                &&& (!is_last ==> (final(self).unfinished_slot matches Some(st2) && st2.slot
                    == receive.slot && st2.parent == receive.parent_slot && st2.next_shred_index
                    == nx + out.data_shreds@.len() && st2.fec_set_offset == off))
                &&& (old(self).unfinished_slot matches Some(st) ==> (st.slot != receive.slot
                    ==> {
                    &&& out.prev_slot_shreds@.len() == st.data_shreds_buffer@.len() + 2
                    &&& out.prev_slot_batch_info matches Some(info) && info.slot == st.slot
                        && info.was_interrupted && info.num_expected_batches == Some(
                        (old(self).num_batches + 1) as usize,
                    ) && info.slot_start_ts == old(self).slot_broadcast_start->Some_0
                    &&& slot_record_complete(
                        emitted_for(final(self).emitted@, st.slot),
                        st.slot,
                    )
                }))
                &&& (!(old(self).unfinished_slot matches Some(st) && st.slot != receive.slot)
                    ==> out.prev_slot_shreds@.len() == 0 && out.prev_slot_batch_info is None)
                &&& coding_matches(
                    out.coding_shreds@,
                    ({
                        let full = (if continuing {
                            old(self).unfinished_slot->Some_0.data_shreds_buffer@
                        } else {
                            Seq::<Shred>::empty()
                        }) + out.data_shreds@;
                        let keep = if is_last {
                            0int
                        } else {
                            full.len() as int % (MAX_DATA_SHREDS_PER_FEC_BLOCK as int)
                        };
                        full.take(full.len() - keep)
                    }),
                )
            }),
    {
        let slot = receive.slot;
        let parent_slot = receive.parent_slot;
        let old_num_batches = self.num_batches;
        let old_start = self.slot_broadcast_start;
        let changed = match self.current_slot_and_parent {
            None => true,
            Some(sp) => sp.0 != slot,
        };
        if changed {
            self.slot_broadcast_start = Some(now_ms);
            self.num_batches = 0;
            self.current_slot_and_parent = Some((slot, parent_slot));
        }
        let ghost was_interrupted_slot = match old(self).unfinished_slot {
            Some(st) => if st.slot != slot {
                Some(st.slot)
            } else {
                Option::<u64>::None
            },
            None => Option::<u64>::None,
        };
        let max_ticks = #[verifier::truncate] (receive.ticks_per_slot as u8);
        let prev_slot_shreds = self.finish_prev_slot(max_ticks);
        let ghost emitted_mid = self.emitted@;
        proof {
            assert(emitted_for(emitted_mid, slot) == emitted_for(old(self).emitted@, slot));
        }
        let prev_slot_batch_info: Option<BroadcastShredBatchInfo> = if prev_slot_shreds.len() > 0 {
            Some(
                BroadcastShredBatchInfo {
                    slot: prev_slot_shreds[0].slot(),
                    num_expected_batches: Some(old_num_batches + 1),
                    slot_start_ts: match old_start {
                        Some(t) => t,
                        None => 0,
                    },
                    was_interrupted: true,
                },
            )
        } else {
            None
        };
        let is_last = receive.last_tick_height == receive.max_tick_height;
        let ghost buf_after_finish = if self.unfinished_slot is Some {
            self.unfinished_slot->Some_0.data_shreds_buffer@
        } else {
            Seq::<Shred>::empty()
        };
        let reference_tick = #[verifier::truncate] ((receive.tick_height
            % receive.ticks_per_slot) as u8);
        let data_shreds = self.entries_to_data_shreds(
            receive.serialized_entries.as_slice(),
            blockstore_consumed,
            reference_tick,
            is_last,
        );
        let first_shred_index_zero = data_shreds[0].index() == 0;
        self.num_batches = self.num_batches + 2;
        let num_expected_batches = if is_last {
            Some(self.num_batches)
        } else {
            None
        };
        let batch_info = BroadcastShredBatchInfo {
            slot,
            num_expected_batches,
            slot_start_ts: match self.slot_broadcast_start {
                Some(t) => t,
                None => 0,
            },
            was_interrupted: false,
        };
        let ghost buf_before_coding = self.unfinished_slot->Some_0.data_shreds_buffer@;
        let coding_shreds = make_coding_shreds(&mut self.unfinished_slot, is_last, self.shred_version);
        proof {
            let continuing = old(self).unfinished_slot matches Some(st) && st.slot
                == receive.slot;
            let prefix = if continuing {
                old(self).unfinished_slot->Some_0.data_shreds_buffer@
            } else {
                Seq::<Shred>::empty()
            };
            let canon = prefix + data_shreds@;
            assert(buf_before_coding.len() == canon.len());
            assert(buf_after_finish == prefix);
            assert forall|k: int| 0 <= k < buf_before_coding.len() implies shred_eqv(
                #[trigger] buf_before_coding[k],
                canon[k],
            ) by {
                if k < prefix.len() {
                    assert(buf_before_coding[k] == buf_after_finish[k]);
                } else {
                    let k2 = k - prefix.len();
                    assert(shred_eqv(
                        buf_before_coding[buf_after_finish.len() + k2],
                        data_shreds@[k2],
                    ));
                }
            }
            lemma_coding_matches_eqv_auto(coding_shreds@, buf_before_coding, is_last, canon);
        }
        if is_last {
            self.unfinished_slot = None;
        }
        ProcessOutput {
            prev_slot_shreds,
            prev_slot_batch_info,
            data_shreds,
            coding_shreds,
            batch_info,
            first_shred_index_zero,
        }
    }
}

/// The length of every chunk fits in a shred's payload.
proof fn lemma_chunk_len(data: Seq<u8>, k: int)
    requires
        0 <= k,
        k * DATA_SHRED_PAYLOAD_CAPACITY < data.len(),
    ensures
        chunk_of(data, k).len() <= DATA_SHRED_PAYLOAD_CAPACITY,
{
}

/// Lifts `coding_matches` to the canonical drain description.
proof fn lemma_coding_matches_eqv_auto(
    coding: Seq<Shred>,
    buf: Seq<Shred>,
    is_last: bool,
    canon: Seq<Shred>,
)
    requires
        buf.len() == canon.len(),
        forall|k: int| 0 <= k < buf.len() ==> shred_eqv(#[trigger] buf[k], canon[k]),
        coding_matches(
            coding,
            buf.take(
                buf.len() - (if is_last {
                    0int
                } else {
                    buf.len() as int % (MAX_DATA_SHREDS_PER_FEC_BLOCK as int)
                }),
            ),
        ),
    ensures
        coding_matches(
            coding,
            canon.take(
                canon.len() - (if is_last {
                    0int
                } else {
                    canon.len() as int % (MAX_DATA_SHREDS_PER_FEC_BLOCK as int)
                }),
            ),
        ),
{
    let keep = if is_last {
        0int
    } else {
        buf.len() as int % (MAX_DATA_SHREDS_PER_FEC_BLOCK as int)
    };
    let d1 = buf.take(buf.len() - keep);
    let d2 = canon.take(canon.len() - keep);
    vstd::arithmetic::div_mod::lemma_mod_bound(
        buf.len() as int,
        MAX_DATA_SHREDS_PER_FEC_BLOCK as int,
    );
    assert forall|k: int| 0 <= k < d1.len() implies shred_eqv(#[trigger] d1[k], d2[k]) by {
        assert(d1[k] == buf[k] && d2[k] == canon[k]);
    }
    lemma_coding_matches_eqv(coding, d1, d2);
}

/// The bytes `data[start..end]`, copied out.
pub fn slice_range(data: &[u8], start: usize, end: usize) -> (out: Vec<u8>)
    requires
        start <= end <= data@.len(),
    ensures
        out@ == data@.subrange(start as int, end as int),
{
    let mut out: Vec<u8> = Vec::new();
    let mut i = start;
    while i < end
        invariant
            start <= i <= end <= data@.len(),
            out@ == data@.subrange(start as int, i as int),
        decreases end - i,
    {
        out.push(*vstd::slice::slice_index_get(data, i));
        proof {
            assert(out@ =~= data@.subrange(start as int, i + 1));
        }
        i = i + 1;
    }
    out
}

} // verus!
