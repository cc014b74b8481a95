//! The view of the root bank that peer selection and shredding read.
//!
//! The resolver needs very little of a bank: which epoch a slot falls in,
//! whether the turbine shuffle feature is active, the staked nodes per
//! epoch, and the tick bookkeeping of the working slot.  This captures those
//! as plain values that the caller snapshots.

use vstd::prelude::*;
use crate::node::StakeMap;

verus! {

/// Epoch layout: a fixed number of slots per epoch.  The leader schedule for
/// a slot is drawn one epoch ahead.
#[derive(Clone, Copy, Debug, PartialEq, Eq, Structural)]
pub struct EpochSchedule {
    pub slots_per_epoch: u64,
}

impl EpochSchedule {
    pub open spec fn wf(&self) -> bool {
        self.slots_per_epoch >= 1
    }

    pub open spec fn epoch_of(&self, slot: u64) -> u64 {
        (slot / self.slots_per_epoch) as u64
    }

    pub fn get_epoch(&self, slot: u64) -> (e: u64)
        requires
            self.wf(),
        ensures
            e == self.epoch_of(slot),
    {
        slot / self.slots_per_epoch
    }

    /// The epoch whose leader schedule governs `slot`: one past its own.
    pub fn get_leader_schedule_epoch(&self, slot: u64) -> (e: u64)
        requires
            self.wf(),
            slot < u64::MAX,
        ensures
            e == self.epoch_of(slot) + 1,
    {
        proof {
            assert(slot as int / self.slots_per_epoch as int <= slot as int) by (nonlinear_arith)
                requires
                    self.slots_per_epoch >= 1,
                    slot >= 0,
            ;
        }
        slot / self.slots_per_epoch + 1
    }
}

/// The staked nodes known for `epoch`, if any bank snapshot carries them.
pub open spec fn epoch_stakes_of(list: Seq<(u64, StakeMap)>, epoch: u64) -> Option<StakeMap>
    decreases list.len(),
{
    if list.len() == 0 {
        None
    } else if list[0].0 == epoch {
        Some(list[0].1)
    } else {
        epoch_stakes_of(list.drop_first(), epoch)
    }
}

/// A snapshot of what the pipeline reads from a bank.
pub struct BankView {
    pub slot: u64,
    pub parent_slot: u64,
    pub epoch_schedule: EpochSchedule,
    /// The slot at which the turbine shuffle feature was activated, if it is.
    pub turbine_shuffle_activation: Option<u64>,
    pub total_epoch_stake: u64,
    /// Staked nodes per epoch, for the epochs this bank knows.
    pub epoch_stakes: Vec<(u64, StakeMap)>,
    pub ticks_per_slot: u64,
    pub max_tick_height: u64,
    pub tick_height: u64,
}

impl BankView {
    pub open spec fn wf(&self) -> bool {
        &&& self.epoch_schedule.wf()
        &&& forall|i: int|
            0 <= i < self.epoch_stakes@.len() ==> (#[trigger] self.epoch_stakes@[i]).1.wf()
    }

    pub fn epoch_staked_nodes(&self, epoch: u64) -> (r: Option<&StakeMap>)
        ensures
            match r {
                Some(m) => epoch_stakes_of(self.epoch_stakes@, epoch) == Some(*m) && (self.wf()
                    ==> m.wf()),
                None => epoch_stakes_of(self.epoch_stakes@, epoch) is None,
            },
    {
        let n = self.epoch_stakes.len();
        let mut i: usize = 0;
        proof {
            assert(self.epoch_stakes@.skip(0) =~= self.epoch_stakes@);
        }
        while i < n
            invariant
                n == self.epoch_stakes@.len(),
                0 <= i <= n,
                epoch_stakes_of(self.epoch_stakes@, epoch) == epoch_stakes_of(
                    self.epoch_stakes@.skip(i as int),
                    epoch,
                ),
            decreases n - i,
        {
            proof {
                assert(self.epoch_stakes@.skip(i as int)[0] == self.epoch_stakes@[i as int]);
                assert(self.epoch_stakes@.skip(i as int).drop_first() =~= self.epoch_stakes@.skip(
                    i + 1,
                ));
            }
            if self.epoch_stakes[i].0 == epoch {
                return Some(&self.epoch_stakes[i].1);
            }
            i = i + 1;
        }
        None
    }
}

/// Whether the turbine shuffle applies to a shred of `shred_slot`: the
/// feature must be active, from genesis or from an epoch strictly before the
/// shred's.
pub open spec fn shuffle_patch_enabled(
    activation: Option<u64>,
    sched: EpochSchedule,
    shred_slot: u64,
) -> bool {
    match activation {
        None => false,
        Some(feature_slot) => if feature_slot == 0 {
            true
        } else {
            sched.epoch_of(feature_slot) < sched.epoch_of(shred_slot)
        },
    }
}

pub fn enable_turbine_peers_shuffle_patch(shred_slot: u64, root_bank: &BankView) -> (r: bool)
    requires
        root_bank.wf(),
    ensures
        r == shuffle_patch_enabled(
            root_bank.turbine_shuffle_activation,
            root_bank.epoch_schedule,
            shred_slot,
        ),
{
    match root_bank.turbine_shuffle_activation {
        None => false,
        Some(feature_slot) => {
            if feature_slot == 0 {
                true
            } else {
                let feature_epoch = root_bank.epoch_schedule.get_epoch(feature_slot);
                let shred_epoch = root_bank.epoch_schedule.get_epoch(shred_slot);
                feature_epoch < shred_epoch
            }
        },
    }
}

} // verus!
