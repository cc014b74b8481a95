//! Packet-batch hashing for commitment experiments: each packet is reduced
//! to its SHA-256 digest, truncated to 254 bits so it fits a field scalar.

use vstd::prelude::*;
use sha2::Digest;
use crate::rng::random_u8;

verus! {

/// The SHA-256 digest of a byte string: a function of the bytes alone.
pub uninterp spec fn sha256_of(data: Seq<u8>) -> Seq<u8>;

/// Relies on `sha2::Sha256`: the digest is 32 bytes and depends on the
/// hashed bytes alone; `sha256_of` names it.
#[verifier::external_body]
fn sha256_digest(data: &[u8]) -> (r: Vec<u8>)
    ensures
        r@ == sha256_of(data@),
        r@.len() == 32,
{
    sha2::Sha256::digest(data).to_vec()
}

/// The digest of each packet with its top two bits cleared.
pub fn hash_packets(packets: &Vec<Vec<u8>>) -> (out: Vec<Vec<u8>>)
    ensures
        out@.len() == packets@.len(),
        forall|i: int|
            0 <= i < out@.len() ==> (#[trigger] out@[i])@ == sha256_of(packets@[i]@).update(
                31,
                (sha256_of(packets@[i]@)[31] & 0x3f) as u8,
            ),
{
    let n = packets.len();
    let mut out: Vec<Vec<u8>> = Vec::new();
    let mut i: usize = 0;
    while i < n
        invariant
            n == packets@.len(),
            0 <= i <= n,
            out@.len() == i,
            forall|t: int|
                0 <= t < i ==> (#[trigger] out@[t])@ == sha256_of(packets@[t]@).update(
                    31,
                    (sha256_of(packets@[t]@)[31] & 0x3f) as u8,
                ),
        decreases n - i,
    {
        let mut h = sha256_digest(packets[i].as_slice());
        let masked = h[31] & 0x3f;
        h.set(31, masked);
        proof {
            assert(h@ =~= sha256_of(packets@[i as int]@).update(
                31,
                (sha256_of(packets@[i as int]@)[31] & 0x3f) as u8,
            ));
        }
        out.push(h);
        i = i + 1;
    }
    out
}

/// A packet's worth of arbitrary bytes, for experiments.
pub fn test_create_random_packet_data() -> (out: Vec<u8>)
    ensures
        out@.len() == 1200,
{
    let mut out: Vec<u8> = Vec::new();
    let mut i: usize = 0;
    while i < 1200
        invariant
            0 <= i <= 1200,
            out@.len() == i,
        decreases 1200 - i,
    {
        out.push(random_u8());
        i = i + 1;
    }
    out
}

} // verus!
