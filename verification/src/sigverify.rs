//! Signature-verification stage models: the packets it tags, the verifier
//! it runs batches through, and the decisions its worker loop takes.
//!
//! The real verification is cryptography performed elsewhere; this module
//! holds the stage's own logic: a disabled verifier that passes everything,
//! the batch bookkeeping, and the disposition of each worker-loop error.

use vstd::prelude::*;

verus! {

/// Most packets a worker pulls per batch without an accelerator.
pub const RECV_BATCH_MAX_CPU: usize = 1_000;

/// Most packets a worker pulls per batch with one.
pub const RECV_BATCH_MAX_GPU: usize = 5_000;

/// A received packet: its bytes and whether verification discarded it.
pub struct Packet {
    pub data: Vec<u8>,
    pub discard: bool,
}

/// One batch of packets.
pub struct Packets {
    pub packets: Vec<Packet>,
}

/// A batch verifier.  The stage runs every received batch through one; an
/// implementation must hand back as many packet groups as it took.
pub trait SigVerifier {
    fn verify_batch(&self, batch: Vec<Packets>) -> (out: Vec<Packets>)
        ensures
            out@.len() == batch@.len(),
    ;
}

/// A verifier that accepts everything, used when verification is switched
/// off: every packet keeps its bytes and is marked not discarded.
#[derive(Clone, Default)]
pub struct DisabledSigVerifier {}

impl SigVerifier for DisabledSigVerifier {
    fn verify_batch(&self, batch: Vec<Packets>) -> (out: Vec<Packets>)
        ensures
            out@.len() == batch@.len(),
            forall|i: int|
                0 <= i < out@.len() ==> (#[trigger] out@[i]).packets@.len()
                    == batch@[i].packets@.len(),
            forall|i: int, j: int|
                0 <= i < out@.len() && 0 <= j < out@[i].packets@.len() ==> (#[trigger] out@[i].packets@[j]).data@
                    == batch@[i].packets@[j].data@ && !out@[i].packets@[j].discard,
    {
        let n = batch.len();
        let mut out: Vec<Packets> = Vec::new();
        let mut i: usize = 0;
        while i < n
            invariant
                n == batch@.len(),
                0 <= i <= n,
                out@.len() == i,
                forall|t: int|
                    0 <= t < i ==> (#[trigger] out@[t]).packets@.len()
                        == batch@[t].packets@.len(),
                forall|t: int, j: int|
                    0 <= t < i && 0 <= j < out@[t].packets@.len() ==> (
                    #[trigger] out@[t].packets@[j]).data@ == batch@[t].packets@[j].data@
                        && !out@[t].packets@[j].discard,
            decreases n - i,
        {
            let m = batch[i].packets.len();
            let mut group: Vec<Packet> = Vec::new();
            let mut j: usize = 0;
            while j < m
                invariant
                    i < batch@.len(),
                    m == batch@[i as int].packets@.len(),
                    0 <= j <= m,
                    group@.len() == j,
                    forall|t: int|
                        0 <= t < j ==> (#[trigger] group@[t]).data@
                            == batch@[i as int].packets@[t].data@ && !group@[t].discard,
                decreases m - j,
            {
                let p = &batch[i].packets[j];
                let data = crate::shredder::slice_range(p.data.as_slice(), 0, p.data.len());
                proof {
                    assert(data@ =~= p.data@);
                }
                group.push(Packet { data, discard: false });
                j = j + 1;
            }
            out.push(Packets { packets: group });
            i = i + 1;
        }
        out
    }
}

/// Total packets across a batch.
pub open spec fn packet_count(batch: Seq<Packets>) -> int
    decreases batch.len(),
{
    if batch.len() == 0 {
        0
    } else {
        packet_count(batch.drop_last()) + batch.last().packets.len()
    }
}

/// Counts the packets of a batch; saturates at the machine's limit.
pub fn count_packets(batch: &Vec<Packets>) -> (r: usize)
    ensures
        packet_count(batch@) <= usize::MAX ==> r == packet_count(batch@),
{
    let n = batch.len();
    let mut total: usize = 0;
    let mut i: usize = 0;
    while i < n
        invariant
            n == batch@.len(),
            0 <= i <= n,
            packet_count(batch@.take(i as int)) <= usize::MAX ==> total == packet_count(
                batch@.take(i as int),
            ),
            total <= packet_count(batch@.take(i as int)),
            packet_count(batch@.take(i as int)) >= 0,
        decreases n - i,
    {
        proof {
            assert(batch@.take(i + 1).drop_last() =~= batch@.take(i as int));
            assert(batch@.take(i + 1).last() == batch@[i as int]);
        }
        let m = batch[i].packets.len();
        if total <= usize::MAX - m {
            total = total + m;
        } else {
            total = usize::MAX;
        }
        i = i + 1;
    }
    proof {
        assert(batch@.take(n as int) =~= batch@);
    }
    total
}

/// How many packets a worker should pull per batch.
pub fn recv_batch_max(gpu_available: bool) -> (r: usize)
    ensures
        r == if gpu_available {
            RECV_BATCH_MAX_GPU
        } else {
            RECV_BATCH_MAX_CPU
        },
{
    if gpu_available {
        RECV_BATCH_MAX_GPU
    } else {
        RECV_BATCH_MAX_CPU
    }
}

/// Why a worker-loop step failed.
#[derive(Clone, Copy, Debug, PartialEq, Eq, Structural)]
pub enum StreamerErrorKind {
    RecvDisconnected,
    RecvTimeout,
    Other,
}

/// The stage's error: the verified-batch channel is gone, or the packet
/// stream failed.
#[derive(Clone, Copy, Debug, PartialEq, Eq, Structural)]
pub enum SigVerifyServiceError {
    Send,
    Streamer(StreamerErrorKind),
}

/// What the worker loop does after a step.
#[derive(Clone, Copy, Debug, PartialEq, Eq, Structural)]
pub enum LoopDisposition {
    /// A channel is gone: the worker exits.
    Exit,
    /// A timeout: try again quietly.
    Continue,
    /// Anything else: log it and go on.
    LogAndContinue,
}

/// What the worker loop does for each error: it exits when a channel
/// disconnects on either side, retries quietly on a receive timeout, and
/// logs anything else.
pub fn sigverify_loop_disposition(err: &SigVerifyServiceError) -> (r: LoopDisposition)
    ensures
        r == (match err {
            SigVerifyServiceError::Send => LoopDisposition::Exit,
            SigVerifyServiceError::Streamer(StreamerErrorKind::RecvDisconnected) => LoopDisposition::Exit,
            SigVerifyServiceError::Streamer(StreamerErrorKind::RecvTimeout) => LoopDisposition::Continue,
            SigVerifyServiceError::Streamer(StreamerErrorKind::Other) => LoopDisposition::LogAndContinue,
        }),
{
    match err {
        SigVerifyServiceError::Send => LoopDisposition::Exit,
        SigVerifyServiceError::Streamer(StreamerErrorKind::RecvDisconnected) => LoopDisposition::Exit,
        SigVerifyServiceError::Streamer(StreamerErrorKind::RecvTimeout) => LoopDisposition::Continue,
        SigVerifyServiceError::Streamer(StreamerErrorKind::Other) => LoopDisposition::LogAndContinue,
    }
}

} // verus!
