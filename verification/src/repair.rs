//! Repair-request selection over the fork tree.
//!
//! The fork tree is walked depth-first from the root.  Slots whose ledger
//! record does not yet know its last index are asked for their highest
//! shred, most-received first; slots that do know it are ranked by how few
//! shreds they still lack, and each drags its chain of unfinished ancestors
//! along, root first.  The walks take a step budget, since an ill-formed
//! tree could loop.

use vstd::prelude::*;

verus! {

/// What a repair request asks a peer for.
#[derive(Clone, Copy, Debug, PartialEq, Eq, Structural)]
pub enum ShredRepairType {
    /// One shred of a slot.
    Shred(u64, u64),
    /// The highest shred of a slot at or past an index.
    HighestShred(u64, u64),
    /// A slot whose parent is unknown.
    Orphan(u64),
}

/// The ledger's record of one slot.
#[derive(Clone, Copy, Debug, PartialEq, Eq, Structural)]
pub struct SlotMeta {
    pub consumed: u64,
    pub received: u64,
    pub last_index: Option<u64>,
    pub is_full: bool,
    pub parent_slot: u64,
}

/// One slot as the ledger knows it: its record, and the shred count of its
/// index column when one exists.
#[derive(Clone, Copy, Debug, PartialEq, Eq, Structural)]
pub struct SlotInfo {
    pub slot: u64,
    pub meta: Option<SlotMeta>,
    pub num_shreds_index: Option<u64>,
}

/// The slots the ledger holds records for.
pub struct BlockstoreView {
    pub slots: Vec<SlotInfo>,
}

/// The record for `slot`, if the ledger has one.
pub open spec fn slot_info_of(slots: Seq<SlotInfo>, slot: u64) -> Option<SlotInfo>
    decreases slots.len(),
{
    if slots.len() == 0 {
        None
    } else if slots[0].slot == slot {
        Some(slots[0])
    } else {
        slot_info_of(slots.drop_first(), slot)
    }
}

impl BlockstoreView {
    pub fn lookup(&self, slot: u64) -> (r: Option<SlotInfo>)
        ensures
            r == slot_info_of(self.slots@, slot),
    {
        let n = self.slots.len();
        let mut i: usize = 0;
        proof {
            assert(self.slots@.skip(0) =~= self.slots@);
        }
        while i < n
            invariant
                n == self.slots@.len(),
                0 <= i <= n,
                slot_info_of(self.slots@, slot) == slot_info_of(self.slots@.skip(i as int), slot),
            decreases n - i,
        {
            proof {
                assert(self.slots@.skip(i as int)[0] == self.slots@[i as int]);
                assert(self.slots@.skip(i as int).drop_first() =~= self.slots@.skip(i + 1));
            }
            if self.slots[i].slot == slot {
                return Some(self.slots[i]);
            }
            i = i + 1;
        }
        None
    }
}

/// The fork tree: a root and the children of each slot that has any.
pub struct ForkTree {
    pub root: u64,
    pub children: Vec<(u64, Vec<u64>)>,
}

/// The children recorded for `slot`.
pub open spec fn children_of(children: Seq<(u64, Vec<u64>)>, slot: u64) -> Seq<u64>
    decreases children.len(),
{
    if children.len() == 0 {
        Seq::<u64>::empty()
    } else if children[0].0 == slot {
        children[0].1@
    } else {
        children_of(children.drop_first(), slot)
    }
}

/// Walks the fork tree depth first: pops the most recent pending slot and
/// queues its children.
pub struct GenericTraversal<'a> {
    pub tree: &'a ForkTree,
    pub pending: Vec<u64>,
}

impl<'a> GenericTraversal<'a> {
    pub fn new(tree: &'a ForkTree) -> (r: Self)
        ensures
            r.tree == tree,
            r.pending@ == seq![tree.root],
    {
        let mut pending: Vec<u64> = Vec::new();
        pending.push(tree.root);
        proof {
            assert(pending@ =~= seq![tree.root]);
        }
        Self { tree, pending }
    }

    pub fn next(&mut self) -> (r: Option<u64>)
        ensures
            final(self).tree == old(self).tree,
            old(self).pending@.len() == 0 ==> r is None
                && final(self).pending@ == old(self).pending@,
            old(self).pending@.len() > 0 ==> r == Some(old(self).pending@.last())
                && final(self).pending@ == old(self).pending@.drop_last() + children_of(
                old(self).tree.children@,
                old(self).pending@.last(),
            ),
    {
        match self.pending.pop() {
            None => None,
            Some(slot) => {
                let n = self.tree.children.len();
                let mut i: usize = 0;
                proof {
                    assert(self.tree.children@.skip(0) =~= self.tree.children@);
                }
                while i < n
                    invariant
                        n == self.tree.children@.len(),
                        0 <= i <= n,
                        children_of(self.tree.children@, slot) == children_of(
                            self.tree.children@.skip(i as int),
                            slot,
                        ),
                        self.pending@ == old(self).pending@.drop_last(),
                        self.tree == old(self).tree,
                        old(self).pending@.len() > 0,
                        slot == old(self).pending@.last(),
                    decreases n - i,
                {
                    proof {
                        assert(self.tree.children@.skip(i as int)[0] == self.tree.children@[i as int]);
                        assert(self.tree.children@.skip(i as int).drop_first()
                            =~= self.tree.children@.skip(i + 1));
                    }
                    if self.tree.children[i].0 == slot {
                        let m = self.tree.children[i].1.len();
                        let mut j: usize = 0;
                        let ghost base = self.pending@;
                        while j < m
                            invariant
                                i < self.tree.children@.len(),
                                m == self.tree.children@[i as int].1@.len(),
                                0 <= j <= m,
                                self.tree == old(self).tree,
                                old(self).pending@.len() > 0,
                                slot == old(self).pending@.last(),
                                base == old(self).pending@.drop_last(),
                                children_of(self.tree.children@, slot)
                                    == self.tree.children@[i as int].1@,
                                self.pending@ == base + self.tree.children@[i as int].1@.take(
                                    j as int,
                                ),
                            decreases m - j,
                        {
                            let c = self.tree.children[i].1[j];
                            self.pending.push(c);
                            proof {
                                assert(self.pending@ =~= base + self.tree.children@[i as int].1@.take(
                                    j + 1,
                                ));
                            }
                            j = j + 1;
                        }
                        proof {
                            assert(self.tree.children@[i as int].1@.take(m as int)
                                =~= self.tree.children@[i as int].1@);
                            assert(children_of(self.tree.children@, slot)
                                == self.tree.children@[i as int].1@);
                        }
                        return Some(slot);
                    }
                    i = i + 1;
                }
                proof {
                    assert(children_of(self.tree.children@, slot) =~= Seq::<u64>::empty());
                    assert(self.pending@ =~= old(self).pending@.drop_last() + children_of(
                        self.tree.children@,
                        slot,
                    ));
                }
                Some(slot)
            },
        }
    }
}

/// The first `fuel` slots a depth-first walk visits from `pending`.
pub open spec fn traversal_seq(children: Seq<(u64, Vec<u64>)>, pending: Seq<u64>, fuel: nat) -> Seq<
    u64,
>
    decreases fuel,
{
    if fuel == 0 || pending.len() == 0 {
        Seq::<u64>::empty()
    } else {
        let s = pending.last();
        seq![s] + traversal_seq(
            children,
            pending.drop_last() + children_of(children, s),
            (fuel - 1) as nat,
        )
    }
}

/// What a visited slot contributes: slots with no known last index are
/// noted once with their received cursor and their processed-shred count.
pub open spec fn repair_candidate(slots: Seq<SlotInfo>, slot: u64) -> Option<(u64, u64)> {
    match slot_info_of(slots, slot) {
        None => None,
        Some(info) => match info.meta {
            None => None,
            Some(meta) => if meta.last_index is None {
                Some(
                    (
                        meta.received,
                        match info.num_shreds_index {
                            Some(n) => n,
                            None => meta.consumed,
                        },
                    ),
                )
            } else {
                None
            },
        },
    }
}

/// The noted slots of a visit sequence, first visits only, skipping the
/// already-processed ones: `(slot, received, count)` triples.
pub open spec fn candidates_spec(
    slots: Seq<SlotInfo>,
    visits: Seq<u64>,
    processed: Seq<u64>,
) -> Seq<(u64, u64, u64)>
    decreases visits.len(),
{
    if visits.len() == 0 {
        Seq::<(u64, u64, u64)>::empty()
    } else {
        let s = visits[0];
        if processed.contains(s) {
            candidates_spec(slots, visits.drop_first(), processed)
        } else {
            match repair_candidate(slots, s) {
                None => candidates_spec(slots, visits.drop_first(), processed),
                Some(rc) => seq![(s, rc.0, rc.1)] + candidates_spec(
                    slots,
                    visits.drop_first(),
                    processed.push(s),
                ),
            }
        }
    }
}

/// The highest-shred request each noted slot stands for.
pub open spec fn repair_requests(cands: Seq<(u64, u64, u64)>) -> Seq<ShredRepairType> {
    cands.map_values(|c: (u64, u64, u64)| ShredRepairType::HighestShred(c.0, c.1))
}

/// The position of the candidate noted for `slot`.
pub open spec fn index_of_candidate(cands: Seq<(u64, u64, u64)>, slot: u64) -> int
    decreases cands.len(),
{
    if cands.len() == 0 {
        0
    } else if cands[0].0 == slot {
        0
    } else {
        1 + index_of_candidate(cands.drop_first(), slot)
    }
}

/// The most-shreds-first priority, ties broken by visit order: position `a`
/// outranks position `b` when it has more processed shreds, or as many and
/// an earlier place among the noted candidates.
pub open spec fn priority_sorted(s: Seq<(u64, u64, u64)>, cands: Seq<(u64, u64, u64)>) -> bool {
    forall|a: int, b: int|
        0 <= a < b < s.len() ==> ((#[trigger] s[a]).2 > (#[trigger] s[b]).2 || (s[a].2 == s[b].2
            && index_of_candidate(cands, s[a].0) < index_of_candidate(cands, s[b].0)))
}

/// With pairwise-distinct slots, each candidate's position looks itself up.
proof fn lemma_index_of_candidate(cands: Seq<(u64, u64, u64)>, t: int)
    requires
        forall|a: int, b: int|
            0 <= a < b < cands.len() ==> (#[trigger] cands[a]).0 != (#[trigger] cands[b]).0,
        0 <= t < cands.len(),
    ensures
        index_of_candidate(cands, cands[t].0) == t,
    decreases cands.len(),
{
    if t > 0 {
        assert(cands[0].0 != cands[t].0);
        let tail = cands.drop_first();
        assert forall|a: int, b: int|
            0 <= a < b < tail.len() implies (#[trigger] tail[a]).0 != (#[trigger] tail[b]).0 by {
            assert(tail[a] == cands[a + 1] && tail[b] == cands[b + 1]);
        }
        assert(tail[t - 1] == cands[t]);
        lemma_index_of_candidate(tail, t - 1);
    }
}

/// A slot is noted at most once, and never one already processed.
proof fn lemma_candidates_unique(slots: Seq<SlotInfo>, visits: Seq<u64>, processed: Seq<u64>)
    ensures
        forall|a: int, b: int|
            0 <= a < b < candidates_spec(slots, visits, processed).len() ==> (
            #[trigger] candidates_spec(slots, visits, processed)[a]).0 != (
            #[trigger] candidates_spec(slots, visits, processed)[b]).0,
        forall|a: int|
            0 <= a < candidates_spec(slots, visits, processed).len() ==> !processed.contains(
                (#[trigger] candidates_spec(slots, visits, processed)[a]).0,
            ),
    decreases visits.len(),
{
    if visits.len() > 0 {
        let cur = candidates_spec(slots, visits, processed);
        let s = visits[0];
        if processed.contains(s) {
            lemma_candidates_unique(slots, visits.drop_first(), processed);
            let rec = candidates_spec(slots, visits.drop_first(), processed);
            assert(cur == rec);
            assert forall|a: int, b: int|
                0 <= a < b < cur.len() implies (#[trigger] cur[a]).0 != (#[trigger] cur[b]).0 by {
                assert(cur[a] == rec[a] && cur[b] == rec[b]);
            }
            assert forall|a: int| 0 <= a < cur.len() implies !processed.contains(
                (#[trigger] cur[a]).0,
            ) by {
                assert(cur[a] == rec[a]);
            }
        } else {
            match repair_candidate(slots, s) {
                None => {
                    lemma_candidates_unique(slots, visits.drop_first(), processed);
                    let rec = candidates_spec(slots, visits.drop_first(), processed);
                    assert(cur == rec);
                    assert forall|a: int, b: int|
                        0 <= a < b < cur.len() implies (#[trigger] cur[a]).0 != (
                    #[trigger] cur[b]).0 by {
                        assert(cur[a] == rec[a] && cur[b] == rec[b]);
                    }
                    assert forall|a: int| 0 <= a < cur.len() implies !processed.contains(
                        (#[trigger] cur[a]).0,
                    ) by {
                        assert(cur[a] == rec[a]);
                    }
                },
                Some(rc) => {
                    let tail = candidates_spec(slots, visits.drop_first(), processed.push(s));
                    lemma_candidates_unique(slots, visits.drop_first(), processed.push(s));
                    assert(cur == seq![(s, rc.0, rc.1)] + tail);
                    assert forall|a: int|
                        0 <= a < cur.len() implies !processed.contains(
                        (#[trigger] cur[a]).0,
                    ) by {
                        if a == 0 {
                            assert(cur[0].0 == s);
                        } else {
                            assert(cur[a] == tail[a - 1]);
                            assert(!processed.push(s).contains(tail[a - 1].0));
                            if processed.contains(tail[a - 1].0) {
                                let j = choose|j: int|
                                    0 <= j < processed.len() && processed[j] == tail[a - 1].0;
                                assert(processed.push(s)[j] == tail[a - 1].0);
                            }
                        }
                    }
                    assert forall|a: int, b: int|
                        0 <= a < b < cur.len() implies (#[trigger] cur[a]).0 != (
                    #[trigger] cur[b]).0 by {
                        if a == 0 {
                            assert(cur[b] == tail[b - 1]);
                            assert(!processed.push(s).contains(tail[b - 1].0));
                            assert(processed.push(s)[processed.len() as int] == s);
                            assert(processed.push(s).contains(s));
                        } else {
                            assert(cur[a] == tail[a - 1] && cur[b] == tail[b - 1]);
                        }
                    }
                },
            }
        }
    }
}

/// Walks up to `max_visits` slots of the fork tree and asks for the highest
/// shred of every slot that does not know its last index yet, most-received
/// first (ties in visit order), at most `limit` requests.  Slots already in
/// `processed_slots` are skipped; the newly noted ones are added to it.
pub fn get_unknown_last_index(
    tree: &ForkTree,
    blockstore: &BlockstoreView,
    processed_slots: &mut Vec<u64>,
    limit: usize,
    max_visits: usize,
) -> (out: Vec<ShredRepairType>)
    ensures
        out@.len() == (if candidates_spec(
            blockstore.slots@,
            traversal_seq(tree.children@, seq![tree.root], max_visits as nat),
            old(processed_slots)@,
        ).len() <= limit {
            candidates_spec(
                blockstore.slots@,
                traversal_seq(tree.children@, seq![tree.root], max_visits as nat),
                old(processed_slots)@,
            ).len() as int
        } else {
            limit as int
        }),
        forall|k: int|
            0 <= k < out@.len() ==> repair_requests(
                candidates_spec(
                    blockstore.slots@,
                    traversal_seq(tree.children@, seq![tree.root], max_visits as nat),
                    old(processed_slots)@,
                ),
            ).contains(#[trigger] out@[k]),
        forall|k: int|
            0 <= k < old(processed_slots)@.len() ==> final(processed_slots)@.contains(
                #[trigger] old(processed_slots)@[k],
            ),
        forall|a: int, b: int| 0 <= a < b < out@.len() ==> out@[a] != out@[b],
        exists|s: Seq<(u64, u64, u64)>|
            s.len() == candidates_spec(
                blockstore.slots@,
                traversal_seq(tree.children@, seq![tree.root], max_visits as nat),
                old(processed_slots)@,
            ).len() && (forall|p: int|
                0 <= p < s.len() ==> candidates_spec(
                    blockstore.slots@,
                    traversal_seq(tree.children@, seq![tree.root], max_visits as nat),
                    old(processed_slots)@,
                ).contains(#[trigger] s[p])) && #[trigger] priority_sorted(
                s,
                candidates_spec(
                    blockstore.slots@,
                    traversal_seq(tree.children@, seq![tree.root], max_visits as nat),
                    old(processed_slots)@,
                ),
            ) && out@ == repair_requests(s).take(out@.len() as int),
{
    let ghost visits_spec = traversal_seq(tree.children@, seq![tree.root], max_visits as nat);
    let mut iter = GenericTraversal::new(tree);
    let mut missing: Vec<(u64, u64, u64)> = Vec::new();
    let mut steps: usize = 0;
    proof {
        assert(iter.pending@ =~= seq![tree.root]);
        assert(candidates_spec(blockstore.slots@, visits_spec, old(processed_slots)@)
            =~= missing@ + candidates_spec(
            blockstore.slots@,
            traversal_seq(tree.children@, iter.pending@, (max_visits - steps) as nat),
            processed_slots@,
        ));
    }
    while steps < max_visits && iter.pending.len() > 0
        invariant
            iter.tree == tree,
            0 <= steps <= max_visits,
            candidates_spec(blockstore.slots@, visits_spec, old(processed_slots)@) == missing@
                + candidates_spec(
                blockstore.slots@,
                traversal_seq(tree.children@, iter.pending@, (max_visits - steps) as nat),
                processed_slots@,
            ),
            forall|k: int|
                0 <= k < old(processed_slots)@.len() ==> processed_slots@.contains(
                    #[trigger] old(processed_slots)@[k],
                ),
        decreases max_visits - steps,
    {
        let ghost pend_pre = iter.pending@;
        let ghost proc_pre = processed_slots@;
        let ghost miss_pre = missing@;
        let slot = match iter.next() {
            Some(s) => s,
            None => {
                proof {
                    assert(false);
                }
                0
            },
        };
        proof {
            assert(traversal_seq(tree.children@, pend_pre, (max_visits - steps) as nat)
                == seq![slot] + traversal_seq(
                tree.children@,
                iter.pending@,
                (max_visits - steps - 1) as nat,
            ));
        }
        let already = contains_u64(processed_slots, slot);
        if !already {
            match blockstore.lookup(slot) {
                Some(info) => {
                    match info.meta {
                        Some(meta) => {
                            if meta.last_index.is_none() {
                                let count = match info.num_shreds_index {
                                    Some(n) => n,
                                    None => meta.consumed,
                                };
                                missing.push((slot, meta.received, count));
                                processed_slots.push(slot);
                                proof {
                                    assert(missing@ =~= miss_pre + seq![
                                        (slot, meta.received, count),
                                    ]);
                                    assert(processed_slots@ =~= proc_pre.push(slot));
                                    lemma_candidates_step(
                                        blockstore.slots@,
                                        slot,
                                        traversal_seq(
                                            tree.children@,
                                            iter.pending@,
                                            (max_visits - steps - 1) as nat,
                                        ),
                                        proc_pre,
                                    );
                                    lemma_contains_after_push(proc_pre, slot, old(processed_slots)@);
                                }
                            } else {
                                proof {
                                    lemma_candidates_step(
                                        blockstore.slots@,
                                        slot,
                                        traversal_seq(
                                            tree.children@,
                                            iter.pending@,
                                            (max_visits - steps - 1) as nat,
                                        ),
                                        proc_pre,
                                    );
                                    lemma_contains_after_push(proc_pre, slot, old(processed_slots)@);
                                }
                            }
                        },
                        None => {
                            proof {
                                lemma_candidates_step(
                                    blockstore.slots@,
                                    slot,
                                    traversal_seq(
                                        tree.children@,
                                        iter.pending@,
                                        (max_visits - steps - 1) as nat,
                                    ),
                                    proc_pre,
                                );
                            }
                        },
                    }
                },
                None => {
                    proof {
                        lemma_candidates_step(
                            blockstore.slots@,
                            slot,
                            traversal_seq(
                                tree.children@,
                                iter.pending@,
                                (max_visits - steps - 1) as nat,
                            ),
                            proc_pre,
                        );
                    }
                },
            }
        } else {
            proof {
                lemma_candidates_step(
                    blockstore.slots@,
                    slot,
                    traversal_seq(
                        tree.children@,
                        iter.pending@,
                        (max_visits - steps - 1) as nat,
                    ),
                    proc_pre,
                );
            }
        }
        steps = steps + 1;
    }
    proof {
        assert(traversal_seq(
            tree.children@,
            iter.pending@,
            (max_visits - steps) as nat,
        ) =~= Seq::<u64>::empty());
        assert(candidates_spec(blockstore.slots@, Seq::<u64>::empty(), processed_slots@)
            =~= Seq::<(u64, u64, u64)>::empty());
        assert(missing@ + Seq::<(u64, u64, u64)>::empty() =~= missing@);
        assert(missing@ == candidates_spec(blockstore.slots@, visits_spec, old(processed_slots)@));
    }
    // Prioritize the slots with the most received shreds, keeping visit
    // order among equals.
    proof {
        lemma_candidates_unique(blockstore.slots@, visits_spec, old(processed_slots)@);
        assert forall|a: int, b: int|
            0 <= a < b < missing@.len() implies (#[trigger] missing@[a]).0 != (
        #[trigger] missing@[b]).0 by {
            assert(missing@[a] == candidates_spec(
                blockstore.slots@,
                visits_spec,
                old(processed_slots)@,
            )[a]);
            assert(missing@[b] == candidates_spec(
                blockstore.slots@,
                visits_spec,
                old(processed_slots)@,
            )[b]);
        }
    }
    let sorted = sort_candidates_desc(&missing);
    let mut out: Vec<ShredRepairType> = Vec::new();
    let n = sorted.len();
    let mut k: usize = 0;
    while k < n && k < limit
        invariant
            n == sorted@.len(),
            0 <= k <= n,
            k <= limit,
            forall|t: int|
                0 <= t < sorted@.len() ==> missing@.contains(#[trigger] sorted@[t]),
            out@.len() == k,
            forall|j: int|
                0 <= j < k ==> (#[trigger] out@[j]) == ShredRepairType::HighestShred(
                    sorted@[j].0,
                    sorted@[j].1,
                ),
        decreases n - k,
    {
        let c = sorted[k];
        out.push(ShredRepairType::HighestShred(c.0, c.1));
        k = k + 1;
    }
    proof {
        let ghost cands_full = candidates_spec(
            blockstore.slots@,
            traversal_seq(tree.children@, seq![tree.root], max_visits as nat),
            old(processed_slots)@,
        );
        assert(cands_full == missing@);
        assert(out@.len() == (if cands_full.len() <= limit {
            cands_full.len() as int
        } else {
            limit as int
        }));
        assert forall|j: int| 0 <= j < out@.len() implies repair_requests(
            candidates_spec(
                blockstore.slots@,
                traversal_seq(tree.children@, seq![tree.root], max_visits as nat),
                old(processed_slots)@,
            ),
        ).contains(#[trigger] out@[j]) by {
            assert(missing@.contains(sorted@[j]));
            let t = choose|t: int| 0 <= t < missing@.len() && missing@[t] == sorted@[j];
            assert(repair_requests(
                candidates_spec(
                    blockstore.slots@,
                    traversal_seq(tree.children@, seq![tree.root], max_visits as nat),
                    old(processed_slots)@,
                ),
            )[t] == out@[j]);
        }
        assert forall|a: int, b: int| 0 <= a < b < out@.len() implies out@[a] != out@[b] by {
            assert(sorted@[a].0 != sorted@[b].0);
            assert(out@[a] == ShredRepairType::HighestShred(sorted@[a].0, sorted@[a].1));
            assert(out@[b] == ShredRepairType::HighestShred(sorted@[b].0, sorted@[b].1));
        }
        assert(sorted@.len() == candidates_spec(
            blockstore.slots@,
            traversal_seq(tree.children@, seq![tree.root], max_visits as nat),
            old(processed_slots)@,
        ).len());
        assert forall|p: int| 0 <= p < sorted@.len() implies candidates_spec(
            blockstore.slots@,
            traversal_seq(tree.children@, seq![tree.root], max_visits as nat),
            old(processed_slots)@,
        ).contains(#[trigger] sorted@[p]) by {
            assert(missing@.contains(sorted@[p]));
            let t = choose|t: int| 0 <= t < missing@.len() && missing@[t] == sorted@[p];
            assert(candidates_spec(
                blockstore.slots@,
                traversal_seq(tree.children@, seq![tree.root], max_visits as nat),
                old(processed_slots)@,
            )[t] == sorted@[p]);
        }
        assert(priority_sorted(
            sorted@,
            candidates_spec(
                blockstore.slots@,
                traversal_seq(tree.children@, seq![tree.root], max_visits as nat),
                old(processed_slots)@,
            ),
        ));
        assert(out@ =~= repair_requests(sorted@).take(out@.len() as int));
    }
    out
}

/// What walking the parent chain from `slot` adds: each not-yet-visited,
/// not-full slot on the way up is marked visited, and the chain is emitted
/// root-first.  The walk gives up after `fuel` steps.
pub open spec fn visit_parents_spec(
    slots: Seq<SlotInfo>,
    slot: u64,
    visited: Seq<u64>,
    fuel: nat,
) -> (Seq<u64>, Seq<u64>)
    decreases fuel,
{
    if fuel == 0 || visited.contains(slot) {
        (visited, Seq::<u64>::empty())
    } else {
        let v1 = visited.push(slot);
        match slot_info_of(slots, slot) {
            None => (v1, Seq::<u64>::empty()),
            Some(info) => match info.meta {
                None => (v1, Seq::<u64>::empty()),
                Some(meta) => if meta.is_full {
                    (v1, Seq::<u64>::empty())
                } else {
                    let rec = visit_parents_spec(slots, meta.parent_slot, v1, (fuel - 1) as nat);
                    (rec.0, rec.1.push(slot))
                },
            },
        }
    }
}

/// Walks the parent chain of `slot` once, pushing the unfinished ancestors
/// root-first onto `path`.
pub fn visit_parents_once(
    slot: u64,
    blockstore: &BlockstoreView,
    visited: &mut Vec<u64>,
    path: &mut Vec<u64>,
    fuel: usize,
)
    ensures
        final(visited)@ == visit_parents_spec(blockstore.slots@, slot, old(visited)@, fuel as nat).0,
        final(path)@ == old(path)@ + visit_parents_spec(
            blockstore.slots@,
            slot,
            old(visited)@,
            fuel as nat,
        ).1,
    decreases fuel,
{
    if fuel == 0 || contains_u64(visited, slot) {
        proof {
            assert(old(path)@ + Seq::<u64>::empty() =~= old(path)@);
        }
        return ;
    }
    visited.push(slot);
    match blockstore.lookup(slot) {
        None => {
            proof {
                assert(old(path)@ + Seq::<u64>::empty() =~= old(path)@);
            }
        },
        Some(info) => {
            match info.meta {
                None => {
                    proof {
                        assert(old(path)@ + Seq::<u64>::empty() =~= old(path)@);
                    }
                },
                Some(meta) => {
                    if meta.is_full {
                        proof {
                            assert(old(path)@ + Seq::<u64>::empty() =~= old(path)@);
                        }
                    } else {
                        visit_parents_once(meta.parent_slot, blockstore, visited, path, fuel - 1);
                        path.push(slot);
                        proof {
                            assert(path@ =~= old(path)@ + visit_parents_spec(
                                blockstore.slots@,
                                slot,
                                old(visited)@,
                                fuel as nat,
                            ).1);
                        }
                    }
                },
            }
        },
    }
}

/// What a visited slot contributes to closest-completion repair: a slot
/// that is not full and knows its last index, with the number of shreds it
/// still lacks (never below zero).
pub open spec fn closest_candidate(slots: Seq<SlotInfo>, slot: u64) -> Option<u64> {
    match slot_info_of(slots, slot) {
        None => None,
        Some(info) => match info.meta {
            None => None,
            Some(meta) => if meta.is_full {
                None
            } else {
                match meta.last_index {
                    None => None,
                    Some(last_index) => {
                        let count = match info.num_shreds_index {
                            Some(n) => n,
                            None => meta.consumed,
                        };
                        Some(
                            if last_index >= count {
                                (last_index - count) as u64
                            } else {
                                0u64
                            },
                        )
                    },
                }
            },
        },
    }
}

/// The closest-completion candidates of a visit sequence, first visits
/// only, skipping the already-processed ones: `(slot, missing)` pairs.
pub open spec fn closest_candidates(
    slots: Seq<SlotInfo>,
    visits: Seq<u64>,
    processed: Seq<u64>,
) -> Seq<(u64, u64)>
    decreases visits.len(),
{
    if visits.len() == 0 {
        Seq::<(u64, u64)>::empty()
    } else {
        let s = visits[0];
        if processed.contains(s) {
            closest_candidates(slots, visits.drop_first(), processed)
        } else {
            match closest_candidate(slots, s) {
                None => closest_candidates(slots, visits.drop_first(), processed),
                Some(dist) => seq![(s, dist)] + closest_candidates(
                    slots,
                    visits.drop_first(),
                    processed.push(s),
                ),
            }
        }
    }
}

/// Unfolds one visit of the closest-candidate recursion.
proof fn lemma_closest_step(slots: Seq<SlotInfo>, s: u64, rest: Seq<u64>, processed: Seq<u64>)
    ensures
        closest_candidates(slots, seq![s] + rest, processed) == (if processed.contains(s) {
            closest_candidates(slots, rest, processed)
        } else {
            match closest_candidate(slots, s) {
                None => closest_candidates(slots, rest, processed),
                Some(dist) => seq![(s, dist)] + closest_candidates(
                    slots,
                    rest,
                    processed.push(s),
                ),
            }
        }),
{
    let visits = seq![s] + rest;
    assert(visits.len() > 0);
    assert(visits[0] == s);
    assert(visits.drop_first() =~= rest);
}

/// A slot becomes a closest-completion candidate at most once.
proof fn lemma_closest_unique(slots: Seq<SlotInfo>, visits: Seq<u64>, processed: Seq<u64>)
    ensures
        forall|a: int, b: int|
            0 <= a < b < closest_candidates(slots, visits, processed).len() ==> (
            #[trigger] closest_candidates(slots, visits, processed)[a]).0 != (
            #[trigger] closest_candidates(slots, visits, processed)[b]).0,
        forall|a: int|
            0 <= a < closest_candidates(slots, visits, processed).len() ==> !processed.contains(
                (#[trigger] closest_candidates(slots, visits, processed)[a]).0,
            ),
    decreases visits.len(),
{
    if visits.len() > 0 {
        let cur = closest_candidates(slots, visits, processed);
        let s = visits[0];
        if processed.contains(s) || closest_candidate(slots, s) is None {
            let rec = closest_candidates(slots, visits.drop_first(), processed);
            lemma_closest_unique(slots, visits.drop_first(), processed);
            assert(cur == rec);
            assert forall|a: int, b: int|
                0 <= a < b < cur.len() implies (#[trigger] cur[a]).0 != (#[trigger] cur[b]).0 by {
                assert(cur[a] == rec[a] && cur[b] == rec[b]);
            }
            assert forall|a: int| 0 <= a < cur.len() implies !processed.contains(
                (#[trigger] cur[a]).0,
            ) by {
                assert(cur[a] == rec[a]);
            }
        } else {
            let tail = closest_candidates(slots, visits.drop_first(), processed.push(s));
            lemma_closest_unique(slots, visits.drop_first(), processed.push(s));
            assert forall|a: int| 0 <= a < cur.len() implies !processed.contains(
                (#[trigger] cur[a]).0,
            ) by {
                if a == 0 {
                    assert(cur[0].0 == s);
                } else {
                    assert(cur[a] == tail[a - 1]);
                    assert(!processed.push(s).contains(tail[a - 1].0));
                    if processed.contains(tail[a - 1].0) {
                        let j = choose|j: int|
                            0 <= j < processed.len() && processed[j] == tail[a - 1].0;
                        assert(processed.push(s)[j] == tail[a - 1].0);
                    }
                }
            }
            assert forall|a: int, b: int|
                0 <= a < b < cur.len() implies (#[trigger] cur[a]).0 != (#[trigger] cur[b]).0 by {
                if a == 0 {
                    assert(cur[b] == tail[b - 1]);
                    assert(!processed.push(s).contains(tail[b - 1].0));
                    assert(processed.push(s)[processed.len() as int] == s);
                    assert(processed.push(s).contains(s));
                } else {
                    assert(cur[a] == tail[a - 1] && cur[b] == tail[b - 1]);
                }
            }
        }
    }
}

/// The position of the closest-completion candidate for `slot`.
pub open spec fn index_of_closest(cands: Seq<(u64, u64)>, slot: u64) -> int
    decreases cands.len(),
{
    if cands.len() == 0 {
        0
    } else if cands[0].0 == slot {
        0
    } else {
        1 + index_of_closest(cands.drop_first(), slot)
    }
}

/// With pairwise-distinct slots, each candidate's position looks itself up.
proof fn lemma_index_of_closest(cands: Seq<(u64, u64)>, t: int)
    requires
        forall|a: int, b: int|
            0 <= a < b < cands.len() ==> (#[trigger] cands[a]).0 != (#[trigger] cands[b]).0,
        0 <= t < cands.len(),
    ensures
        index_of_closest(cands, cands[t].0) == t,
    decreases cands.len(),
{
    if t > 0 {
        assert(cands[0].0 != cands[t].0);
        let tail = cands.drop_first();
        assert forall|a: int, b: int|
            0 <= a < b < tail.len() implies (#[trigger] tail[a]).0 != (#[trigger] tail[b]).0 by {
            assert(tail[a] == cands[a + 1] && tail[b] == cands[b + 1]);
        }
        assert(tail[t - 1] == cands[t]);
        lemma_index_of_closest(tail, t - 1);
    }
}

/// The fewest-missing-first priority, ties broken by visit order.
pub open spec fn distance_sorted(s: Seq<(u64, u64)>, cands: Seq<(u64, u64)>) -> bool {
    forall|a: int, b: int|
        0 <= a < b < s.len() ==> ((#[trigger] s[a]).1 < (#[trigger] s[b]).1 || (s[a].1 == s[b].1
            && index_of_closest(cands, s[a].0) < index_of_closest(cands, s[b].0)))
}

/// The parent walks of the candidates in order, the visited set threaded
/// through: the final visited set, and the concatenated root-first chains.
pub open spec fn candidate_paths(
    slots: Seq<SlotInfo>,
    cands: Seq<(u64, u64)>,
    visited: Seq<u64>,
    fuel: nat,
) -> (Seq<u64>, Seq<u64>)
    decreases cands.len(),
{
    if cands.len() == 0 {
        (visited, Seq::<u64>::empty())
    } else {
        let r = visit_parents_spec(slots, cands[0].0, visited, fuel);
        let rec = candidate_paths(slots, cands.drop_first(), r.0, fuel);
        (rec.0, r.1 + rec.1)
    }
}

/// `s` cut to at most `l` items.
pub open spec fn truncate_seq(s: Seq<u64>, l: int) -> Seq<u64> {
    if s.len() <= l {
        s
    } else {
        s.take(l)
    }
}

/// Appending one candidate's walk to the walks of the previous ones.
proof fn lemma_paths_snoc(
    slots: Seq<SlotInfo>,
    cands: Seq<(u64, u64)>,
    k: int,
    visited: Seq<u64>,
    fuel: nat,
)
    requires
        0 <= k < cands.len(),
    ensures
        candidate_paths(slots, cands.take(k + 1), visited, fuel).0 == visit_parents_spec(
            slots,
            cands[k].0,
            candidate_paths(slots, cands.take(k), visited, fuel).0,
            fuel,
        ).0,
        candidate_paths(slots, cands.take(k + 1), visited, fuel).1 == candidate_paths(
            slots,
            cands.take(k),
            visited,
            fuel,
        ).1 + visit_parents_spec(
            slots,
            cands[k].0,
            candidate_paths(slots, cands.take(k), visited, fuel).0,
            fuel,
        ).1,
    decreases k,
{
    let p1 = candidate_paths(slots, cands.take(k + 1), visited, fuel);
    let p0 = candidate_paths(slots, cands.take(k), visited, fuel);
    if k == 0 {
        assert(cands.take(0) =~= Seq::<(u64, u64)>::empty());
        assert(p0 == (visited, Seq::<u64>::empty()));
        assert(cands.take(1)[0] == cands[0]);
        let r0 = visit_parents_spec(slots, cands.take(1)[0].0, visited, fuel);
        assert(r0 == visit_parents_spec(slots, cands[0].0, visited, fuel));
        assert(cands.take(1).drop_first() =~= Seq::<(u64, u64)>::empty());
        assert(candidate_paths(slots, cands.take(1).drop_first(), r0.0, fuel) == (
            r0.0,
            Seq::<u64>::empty(),
        ));
        assert(p1.0 == r0.0);
        assert(p1.1 =~= r0.1);
        assert(p0.1 + r0.1 =~= r0.1);
    } else {
        let r = visit_parents_spec(slots, cands[0].0, visited, fuel);
        let tail = cands.drop_first();
        assert(cands.take(k + 1)[0] == cands[0]);
        assert(cands.take(k)[0] == cands[0]);
        assert(visit_parents_spec(slots, cands.take(k + 1)[0].0, visited, fuel) == r);
        assert(visit_parents_spec(slots, cands.take(k)[0].0, visited, fuel) == r);
        assert(cands.take(k + 1).drop_first() =~= tail.take(k));
        assert(cands.take(k).drop_first() =~= tail.take(k - 1));
        assert(tail[k - 1] == cands[k]);
        lemma_paths_snoc(slots, tail, k - 1, r.0, fuel);
        let q1 = candidate_paths(slots, tail.take(k), r.0, fuel);
        let q0 = candidate_paths(slots, tail.take(k - 1), r.0, fuel);
        assert(p1.0 == q1.0 && p1.1 == r.1 + q1.1);
        assert(p0.0 == q0.0 && p0.1 == r.1 + q0.1);
        assert(q1.0 == visit_parents_spec(slots, cands[k].0, q0.0, fuel).0);
        assert(q1.1 == q0.1 + visit_parents_spec(slots, cands[k].0, q0.0, fuel).1);
        assert(p1.1 =~= p0.1 + visit_parents_spec(slots, cands[k].0, p0.0, fuel).1);
    }
}

/// The walks of a candidate prefix are a prefix of the full walks.
proof fn lemma_paths_prefix(
    slots: Seq<SlotInfo>,
    cands: Seq<(u64, u64)>,
    k: int,
    visited: Seq<u64>,
    fuel: nat,
)
    requires
        0 <= k <= cands.len(),
    ensures
        candidate_paths(slots, cands.take(k), visited, fuel).1.len() <= candidate_paths(
            slots,
            cands,
            visited,
            fuel,
        ).1.len(),
        forall|i: int|
            0 <= i < candidate_paths(slots, cands.take(k), visited, fuel).1.len()
                ==> #[trigger] candidate_paths(slots, cands.take(k), visited, fuel).1[i]
                == candidate_paths(slots, cands, visited, fuel).1[i],
    decreases cands.len() - k,
{
    if k == cands.len() {
        assert(cands.take(k) =~= cands);
    } else {
        lemma_paths_snoc(slots, cands, k, visited, fuel);
        lemma_paths_prefix(slots, cands, k + 1, visited, fuel);
        let p0 = candidate_paths(slots, cands.take(k), visited, fuel);
        let p1 = candidate_paths(slots, cands.take(k + 1), visited, fuel);
        let full = candidate_paths(slots, cands, visited, fuel);
        assert forall|i: int| 0 <= i < p0.1.len() implies #[trigger] p0.1[i] == full.1[i] by {
            assert(p1.1[i] == p0.1[i]);
            assert(candidate_paths(slots, cands.take(k + 1), visited, fuel).1[i] == full.1[i]);
        }
    }
}

/// Cutting two sequences that agree on a long enough prefix agrees.
proof fn lemma_truncate_prefix(a: Seq<u64>, b: Seq<u64>, l: int)
    requires
        0 <= l <= a.len(),
        a.len() <= b.len(),
        forall|i: int| 0 <= i < a.len() ==> #[trigger] a[i] == b[i],
    ensures
        truncate_seq(a, l) == truncate_seq(b, l),
{
    assert(truncate_seq(a, l) =~= truncate_seq(b, l));
}

/// Walks the fork tree and orders the slots whose completion is closest:
/// every unfinished slot that knows its last index is ranked by how many
/// shreds it still lacks, fewest first (ties in visit order), and for each,
/// its chain of unfinished ancestors is emitted root-first, each slot once,
/// up to `limit` slots.  Asking the ledger to fill each emitted slot is the
/// repair service's part, outside this crate.
pub fn get_closest_completion(
    tree: &ForkTree,
    blockstore: &BlockstoreView,
    processed_slots: &mut Vec<u64>,
    limit: usize,
    max_visits: usize,
) -> (out: Vec<u64>)
    ensures
        out@.len() <= limit,
        forall|k: int|
            0 <= k < out@.len() ==> (slot_info_of(blockstore.slots@, #[trigger] out@[k])
                matches Some(info) && info.meta matches Some(meta) && !meta.is_full),
        forall|k: int|
            0 <= k < old(processed_slots)@.len() ==> final(processed_slots)@.contains(
                #[trigger] old(processed_slots)@[k],
            ),
        closest_candidates(
            blockstore.slots@,
            traversal_seq(tree.children@, seq![tree.root], max_visits as nat),
            old(processed_slots)@,
        ).len() == 0 ==> out@.len() == 0,
        exists|s: Seq<(u64, u64)>|
            s.len() == closest_candidates(
                blockstore.slots@,
                traversal_seq(tree.children@, seq![tree.root], max_visits as nat),
                old(processed_slots)@,
            ).len() && (forall|p: int|
                0 <= p < s.len() ==> closest_candidates(
                    blockstore.slots@,
                    traversal_seq(tree.children@, seq![tree.root], max_visits as nat),
                    old(processed_slots)@,
                ).contains(#[trigger] s[p])) && #[trigger] distance_sorted(
                s,
                closest_candidates(
                    blockstore.slots@,
                    traversal_seq(tree.children@, seq![tree.root], max_visits as nat),
                    old(processed_slots)@,
                ),
            ) && out@ == truncate_seq(
                candidate_paths(blockstore.slots@, s, Seq::<u64>::empty(), max_visits as nat).1,
                limit as int,
            ),
{
    let ghost slots_view = blockstore.slots@;
    let ghost visits_spec = traversal_seq(tree.children@, seq![tree.root], max_visits as nat);
    let mut iter = GenericTraversal::new(tree);
    let mut near: Vec<(u64, u64, usize)> = Vec::new();
    let mut steps: usize = 0;
    proof {
        assert(iter.pending@ =~= seq![tree.root]);
        assert(closest_candidates(slots_view, visits_spec, old(processed_slots)@) =~= near@
            .map_values(|e: (u64, u64, usize)| (e.0, e.1)) + closest_candidates(
            slots_view,
            traversal_seq(tree.children@, iter.pending@, (max_visits - steps) as nat),
            processed_slots@,
        ));
    }
    while steps < max_visits && iter.pending.len() > 0
        invariant
            iter.tree == tree,
            slots_view == blockstore.slots@,
            0 <= steps <= max_visits,
            forall|t: int| 0 <= t < near@.len() ==> (#[trigger] near@[t]).2 == t,
            closest_candidates(slots_view, visits_spec, old(processed_slots)@) == near@
                .map_values(|e: (u64, u64, usize)| (e.0, e.1)) + closest_candidates(
                slots_view,
                traversal_seq(tree.children@, iter.pending@, (max_visits - steps) as nat),
                processed_slots@,
            ),
            forall|k: int|
                0 <= k < old(processed_slots)@.len() ==> processed_slots@.contains(
                    #[trigger] old(processed_slots)@[k],
                ),
        decreases max_visits - steps,
    {
        let ghost pend_pre = iter.pending@;
        let ghost proc_pre = processed_slots@;
        let ghost near_pre = near@;
        let slot = match iter.next() {
            Some(s) => s,
            None => {
                proof {
                    assert(false);
                }
                0
            },
        };
        proof {
            assert(traversal_seq(tree.children@, pend_pre, (max_visits - steps) as nat)
                == seq![slot] + traversal_seq(
                tree.children@,
                iter.pending@,
                (max_visits - steps - 1) as nat,
            ));
            lemma_closest_step(
                slots_view,
                slot,
                traversal_seq(tree.children@, iter.pending@, (max_visits - steps - 1) as nat),
                proc_pre,
            );
        }
        let already = contains_u64(processed_slots, slot);
        if !already {
            match blockstore.lookup(slot) {
                Some(info) => {
                    match (info.meta, info.num_shreds_index) {
                        (Some(meta), idx) => {
                            if !meta.is_full {
                                match meta.last_index {
                                    Some(last_index) => {
                                        let count = match idx {
                                            Some(n) => n,
                                            None => meta.consumed,
                                        };
                                        let dist = if last_index >= count {
                                            last_index - count
                                        } else {
                                            0
                                        };
                                        near.push((slot, dist, near.len()));
                                        processed_slots.push(slot);
                                        proof {
                                            assert(closest_candidate(slots_view, slot) == Some(
                                                dist,
                                            ));
                                            assert(near@ =~= near_pre.push(
                                                (slot, dist, near_pre.len() as usize),
                                            ));
                                            assert(near@.map_values(
                                                |e: (u64, u64, usize)| (e.0, e.1),
                                            ) =~= near_pre.map_values(
                                                |e: (u64, u64, usize)| (e.0, e.1),
                                            ) + seq![(slot, dist)]);
                                            assert(processed_slots@ =~= proc_pre.push(slot));
                                            lemma_contains_after_push(
                                                proc_pre,
                                                slot,
                                                old(processed_slots)@,
                                            );
                                        }
                                    },
                                    None => {
                                        proof {
                                            assert(closest_candidate(slots_view, slot) is None);
                                        }
                                    },
                                }
                            } else {
                                proof {
                                    assert(closest_candidate(slots_view, slot) is None);
                                }
                            }
                        },
                        _ => {
                            proof {
                                assert(closest_candidate(slots_view, slot) is None);
                            }
                        },
                    }
                },
                None => {
                    proof {
                        assert(closest_candidate(slots_view, slot) is None);
                    }
                },
            }
        }
        steps = steps + 1;
    }
    proof {
        assert(traversal_seq(
            tree.children@,
            iter.pending@,
            (max_visits - steps) as nat,
        ) =~= Seq::<u64>::empty());
        assert(closest_candidates(slots_view, Seq::<u64>::empty(), processed_slots@) =~= Seq::<
            (u64, u64),
        >::empty());
        assert(near@.map_values(|e: (u64, u64, usize)| (e.0, e.1)) + Seq::<(u64, u64)>::empty()
            =~= near@.map_values(|e: (u64, u64, usize)| (e.0, e.1)));
        assert(near@.map_values(|e: (u64, u64, usize)| (e.0, e.1)) == closest_candidates(
            slots_view,
            visits_spec,
            old(processed_slots)@,
        ));
        lemma_closest_unique(slots_view, visits_spec, old(processed_slots)@);
        assert forall|a: int, b: int|
            0 <= a < b < near@.len() implies (#[trigger] near@[a]).0 != (
        #[trigger] near@[b]).0 by {
            let cands = closest_candidates(slots_view, visits_spec, old(processed_slots)@);
            assert(cands[a] == near@.map_values(|e: (u64, u64, usize)| (e.0, e.1))[a]);
            assert(cands[b] == near@.map_values(|e: (u64, u64, usize)| (e.0, e.1))[b]);
            assert(cands[a].0 == near@[a].0 && cands[b].0 == near@[b].0);
        }
    }
    // Fewest missing shreds first, ties in visit order.
    let sorted = sort_by_distance_asc(&near);
    let ghost cands = closest_candidates(slots_view, visits_spec, old(processed_slots)@);
    let ghost spairs = sorted@.map_values(|e: (u64, u64, usize)| (e.0, e.1));
    let ghost fuel = max_visits as nat;
    proof {
        assert(spairs.len() == cands.len());
        assert forall|p: int| 0 <= p < spairs.len() implies cands.contains(
            #[trigger] spairs[p],
        ) by {
            assert(ctag_ok(sorted@[p], near@));
            let t = sorted@[p].2 as int;
            assert(near@[t] == sorted@[p]);
            assert(cands[t] == near@.map_values(|e: (u64, u64, usize)| (e.0, e.1))[t]);
            assert(cands[t] == (near@[t].0, near@[t].1));
            assert(spairs[p] == (sorted@[p].0, sorted@[p].1));
            assert(cands[t] == spairs[p]);
        }
        assert forall|a: int, b: int|
            0 <= a < b < spairs.len() implies ((#[trigger] spairs[a]).1 < (
        #[trigger] spairs[b]).1 || (spairs[a].1 == spairs[b].1 && index_of_closest(
            cands,
            spairs[a].0,
        ) < index_of_closest(cands, spairs[b].0))) by {
            assert(ctag_ok(sorted@[a], near@) && ctag_ok(sorted@[b], near@));
            let ta = sorted@[a].2 as int;
            let tb = sorted@[b].2 as int;
            assert(spairs[a] == (sorted@[a].0, sorted@[a].1));
            assert(spairs[b] == (sorted@[b].0, sorted@[b].1));
            if sorted@[a].1 == sorted@[b].1 {
                assert(cands[ta] == (near@[ta].0, near@[ta].1));
                assert(cands[tb] == (near@[tb].0, near@[tb].1));
                lemma_index_of_closest(cands, ta);
                lemma_index_of_closest(cands, tb);
                assert(index_of_closest(cands, spairs[a].0) == ta);
                assert(index_of_closest(cands, spairs[b].0) == tb);
            }
        }
        assert(distance_sorted(spairs, cands));
    }
    let mut visited: Vec<u64> = Vec::new();
    let mut out: Vec<u64> = Vec::new();
    let n = sorted.len();
    let mut k: usize = 0;
    proof {
        assert(spairs.take(0) =~= Seq::<(u64, u64)>::empty());
        assert(out@ =~= truncate_seq(
            candidate_paths(slots_view, spairs.take(0), Seq::<u64>::empty(), fuel).1,
            limit as int,
        ));
    }
    while k < n && out.len() < limit
        invariant
            n == sorted@.len(),
            slots_view == blockstore.slots@,
            fuel == max_visits as nat,
            spairs == sorted@.map_values(|e: (u64, u64, usize)| (e.0, e.1)),
            spairs.len() == n,
            0 <= k <= n,
            out@.len() <= limit,
            visited@ == candidate_paths(slots_view, spairs.take(k as int), Seq::<u64>::empty(), fuel).0,
            out@ == truncate_seq(
                candidate_paths(slots_view, spairs.take(k as int), Seq::<u64>::empty(), fuel).1,
                limit as int,
            ),
            forall|t: int|
                0 <= t < out@.len() ==> (slot_info_of(slots_view, #[trigger] out@[t])
                    matches Some(info) && info.meta matches Some(meta) && !meta.is_full),
        decreases n - k,
    {
        let target = sorted[k].0;
        let ghost pre_visited = visited@;
        let mut path: Vec<u64> = Vec::new();
        visit_parents_once(target, blockstore, &mut visited, &mut path, max_visits);
        proof {
            assert(spairs[k as int] == (sorted@[k as int].0, sorted@[k as int].1));
            assert(spairs[k as int].0 == target);
            lemma_paths_snoc(slots_view, spairs, k as int, Seq::<u64>::empty(), fuel);
            assert(visited@ == candidate_paths(
                slots_view,
                spairs.take(k + 1),
                Seq::<u64>::empty(),
                fuel,
            ).0);
            assert(path@ == visit_parents_spec(slots_view, target, pre_visited, fuel).1);
            lemma_visit_parents_path_open(slots_view, target, pre_visited, fuel);
            assert forall|u: int|
                0 <= u < path@.len() implies (slot_info_of(slots_view, #[trigger] path@[u])
                matches Some(info) && info.meta matches Some(meta) && !meta.is_full) by {
                assert(path@[u] == visit_parents_spec(slots_view, target, pre_visited, fuel).1[u]);
            }
        }
        let ghost ppre = candidate_paths(slots_view, spairs.take(k as int), Seq::<u64>::empty(), fuel).1;
        let ghost pnext = candidate_paths(slots_view, spairs.take(k + 1), Seq::<u64>::empty(), fuel).1;
        proof {
            assert(pnext == ppre + path@);
            assert(ppre + path@.take(0) =~= ppre);
        }
        let m = path.len();
        let mut t: usize = 0;
        while t < m && out.len() < limit
            invariant
                m == path@.len(),
                0 <= t <= m,
                out@.len() <= limit,
                slots_view == blockstore.slots@,
                out@ == truncate_seq(ppre + path@.take(t as int), limit as int),
                forall|u: int|
                    0 <= u < path@.len() ==> (slot_info_of(slots_view, #[trigger] path@[u])
                        matches Some(info) && info.meta matches Some(meta) && !meta.is_full),
                forall|u: int|
                    0 <= u < out@.len() ==> (slot_info_of(slots_view, #[trigger] out@[u])
                        matches Some(info) && info.meta matches Some(meta) && !meta.is_full),
            decreases m - t,
        {
            let ghost out_pre = out@;
            out.push(path[t]);
            proof {
                assert((ppre + path@.take(t as int)).len() == out_pre.len());
                assert(ppre + path@.take(t + 1) =~= (ppre + path@.take(t as int)).push(
                    path@[t as int],
                ));
                assert(out@ =~= truncate_seq(ppre + path@.take(t + 1), limit as int));
            }
            t = t + 1;
        }
        proof {
            if t == m {
                assert(ppre + path@.take(m as int) =~= pnext);
                assert(out@ == truncate_seq(pnext, limit as int));
            } else {
                let a = ppre + path@.take(t as int);
                assert(out@.len() == limit);
                assert(a.len() >= limit);
                assert forall|i: int| 0 <= i < a.len() implies #[trigger] a[i] == pnext[i] by {
                    if i < ppre.len() {
                        assert(a[i] == ppre[i] && pnext[i] == ppre[i]);
                    } else {
                        assert(a[i] == path@[i - ppre.len()]);
                        assert(pnext[i] == path@[i - ppre.len()]);
                    }
                }
                lemma_truncate_prefix(a, pnext, limit as int);
                assert(out@ == truncate_seq(pnext, limit as int));
            }
        }
        k = k + 1;
    }
    proof {
        if k == n {
            assert(spairs.take(n as int) =~= spairs);
        } else {
            assert(out@.len() == limit);
            let a = candidate_paths(slots_view, spairs.take(k as int), Seq::<u64>::empty(), fuel).1;
            let full = candidate_paths(slots_view, spairs, Seq::<u64>::empty(), fuel).1;
            assert(a.len() >= limit);
            lemma_paths_prefix(slots_view, spairs, k as int, Seq::<u64>::empty(), fuel);
            lemma_truncate_prefix(a, full, limit as int);
        }
        assert(out@ == truncate_seq(
            candidate_paths(slots_view, spairs, Seq::<u64>::empty(), fuel).1,
            limit as int,
        ));
        assert(spairs.len() == closest_candidates(
            blockstore.slots@,
            traversal_seq(tree.children@, seq![tree.root], max_visits as nat),
            old(processed_slots)@,
        ).len());
        assert forall|p: int| 0 <= p < spairs.len() implies closest_candidates(
            blockstore.slots@,
            traversal_seq(tree.children@, seq![tree.root], max_visits as nat),
            old(processed_slots)@,
        ).contains(#[trigger] spairs[p]) by {
            assert(cands.contains(spairs[p]));
        }
        assert(distance_sorted(
            spairs,
            closest_candidates(
                blockstore.slots@,
                traversal_seq(tree.children@, seq![tree.root], max_visits as nat),
                old(processed_slots)@,
            ),
        ));
        if closest_candidates(
            blockstore.slots@,
            traversal_seq(tree.children@, seq![tree.root], max_visits as nat),
            old(processed_slots)@,
        ).len() == 0 {
            assert(spairs.len() == 0);
            assert(spairs =~= Seq::<(u64, u64)>::empty());
            assert(candidate_paths(slots_view, spairs, Seq::<u64>::empty(), fuel).1
                =~= Seq::<u64>::empty());
        }
    }
    out
}

/// Every slot a parent walk emits is known to the ledger and unfinished.
proof fn lemma_visit_parents_path_open(
    slots: Seq<SlotInfo>,
    slot: u64,
    visited: Seq<u64>,
    fuel: nat,
)
    ensures
        forall|u: int|
            0 <= u < visit_parents_spec(slots, slot, visited, fuel).1.len() ==> (slot_info_of(
                slots,
                #[trigger] visit_parents_spec(slots, slot, visited, fuel).1[u],
            ) matches Some(info) && info.meta matches Some(meta) && !meta.is_full),
    decreases fuel,
{
    if !(fuel == 0 || visited.contains(slot)) {
        let v1 = visited.push(slot);
        match slot_info_of(slots, slot) {
            None => {},
            Some(info) => {
                match info.meta {
                    None => {},
                    Some(meta) => {
                        if !meta.is_full {
                            lemma_visit_parents_path_open(
                                slots,
                                meta.parent_slot,
                                v1,
                                (fuel - 1) as nat,
                            );
                            let rec = visit_parents_spec(slots, meta.parent_slot, v1, (fuel - 1) as nat);
                            assert forall|u: int|
                                0 <= u < rec.1.push(slot).len() implies (slot_info_of(
                                slots,
                                #[trigger] rec.1.push(slot)[u],
                            ) matches Some(info2) && info2.meta matches Some(meta2)
                                && !meta2.is_full) by {
                                if u < rec.1.len() {
                                    assert(rec.1.push(slot)[u] == rec.1[u]);
                                } else {
                                    assert(rec.1.push(slot)[u] == slot);
                                }
                            }
                        }
                    },
                }
            },
        }
    }
}

/// A closest-completion candidate carrying its own position.
pub open spec fn ctag_ok(e: (u64, u64, usize), v: Seq<(u64, u64, usize)>) -> bool {
    &&& (e.2 as int) < v.len()
    &&& v[e.2 as int] == e
}

/// Sorts `(slot, distance, position)` triples by distance ascending; equal
/// distances keep their visit order, so the result is the unique priority
/// order.
fn sort_by_distance_asc(v: &Vec<(u64, u64, usize)>) -> (out: Vec<(u64, u64, usize)>)
    requires
        forall|t: int| 0 <= t < v@.len() ==> (#[trigger] v@[t]).2 == t,
        forall|a: int, b: int|
            0 <= a < b < v@.len() ==> (#[trigger] v@[a]).0 != (#[trigger] v@[b]).0,
    ensures
        out@.len() == v@.len(),
        forall|p: int| 0 <= p < out@.len() ==> v@.contains(#[trigger] out@[p]),
        forall|p: int| 0 <= p < out@.len() ==> ctag_ok(#[trigger] out@[p], v@),
        forall|a: int, b: int|
            0 <= a < b < out@.len() ==> (#[trigger] out@[a]).0 != (#[trigger] out@[b]).0,
        forall|a: int, b: int|
            0 <= a < b < out@.len() ==> ((#[trigger] out@[a]).1 < (#[trigger] out@[b]).1 || (
            out@[a].1 == out@[b].1 && out@[a].2 < out@[b].2)),
{
    let mut rem = copy_triples(v);
    proof {
        assert forall|t: int| 0 <= t < rem@.len() implies ctag_ok(#[trigger] rem@[t], v@) by {}
    }
    let mut out: Vec<(u64, u64, usize)> = Vec::new();
    while rem.len() > 0
        invariant
            forall|t: int| 0 <= t < v@.len() ==> (#[trigger] v@[t]).2 == t,
            forall|a: int, b: int|
                0 <= a < b < v@.len() ==> (#[trigger] v@[a]).0 != (#[trigger] v@[b]).0,
            forall|t: int| 0 <= t < rem@.len() ==> ctag_ok(#[trigger] rem@[t], v@),
            forall|t: int| 0 <= t < out@.len() ==> ctag_ok(#[trigger] out@[t], v@),
            forall|p: int, q: int|
                0 <= p < q < out@.len() ==> (#[trigger] out@[p]).2 != (#[trigger] out@[q]).2,
            forall|p: int, q: int|
                0 <= p < out@.len() && 0 <= q < rem@.len() ==> (#[trigger] out@[p]).2 != (
                #[trigger] rem@[q]).2,
            forall|p: int, q: int|
                0 <= p < q < rem@.len() ==> (#[trigger] rem@[p]).2 != (#[trigger] rem@[q]).2,
            forall|p: int, q: int|
                0 <= p < q < out@.len() ==> ((#[trigger] out@[p]).1 < (#[trigger] out@[q]).1 || (
                out@[p].1 == out@[q].1 && out@[p].2 < out@[q].2)),
            forall|p: int, q: int|
                0 <= p < out@.len() && 0 <= q < rem@.len() ==> ((#[trigger] out@[p]).1 < (
                #[trigger] rem@[q]).1 || (out@[p].1 == rem@[q].1 && out@[p].2 < rem@[q].2)),
            out@.len() + rem@.len() == v@.len(),
        decreases rem@.len(),
    {
        let m = rem.len();
        let mut best: usize = 0;
        let mut t: usize = 1;
        while t < m
            invariant
                m == rem@.len(),
                0 <= best < t <= m,
                forall|j: int|
                    0 <= j < t ==> (rem@[best as int].1 < (#[trigger] rem@[j]).1 || (rem@[
                    best as int].1 == rem@[j].1 && rem@[best as int].2 <= rem@[j].2)),
            decreases m - t,
        {
            let cand = rem[t];
            let cur = rem[best];
            if cand.1 < cur.1 || (cand.1 == cur.1 && cand.2 < cur.2) {
                best = t;
            }
            t = t + 1;
        }
        let x = rem[best];
        let ghost rem_pre = rem@;
        let ghost out_pre = out@;
        out.push(x);
        rem.remove(best);
        proof {
            assert(rem@ =~= rem_pre.remove(best as int));
            assert forall|t2: int| 0 <= t2 < rem@.len() implies ctag_ok(
                #[trigger] rem@[t2],
                v@,
            ) by {
                if t2 < best {
                    assert(rem@[t2] == rem_pre[t2]);
                } else {
                    assert(rem@[t2] == rem_pre[t2 + 1]);
                }
            }
            assert forall|p: int, q: int|
                0 <= p < q < rem@.len() implies (#[trigger] rem@[p]).2 != (
            #[trigger] rem@[q]).2 by {
                if p < best {
                    assert(rem@[p] == rem_pre[p]);
                } else {
                    assert(rem@[p] == rem_pre[p + 1]);
                }
                if q < best {
                    assert(rem@[q] == rem_pre[q]);
                } else {
                    assert(rem@[q] == rem_pre[q + 1]);
                }
            }
            assert forall|p: int, q: int|
                0 <= p < out@.len() && 0 <= q < rem@.len() implies (#[trigger] out@[p]).2 != (
            #[trigger] rem@[q]).2 && ((out@[p]).1 < (rem@[q]).1 || (out@[p].1 == rem@[q].1
                && out@[p].2 < rem@[q].2)) by {
                if q < best {
                    assert(rem@[q] == rem_pre[q]);
                } else {
                    assert(rem@[q] == rem_pre[q + 1]);
                }
                if p < out_pre.len() {
                    assert(out@[p] == out_pre[p]);
                } else {
                    assert(out@[p] == x);
                }
            }
        }
    }
    proof {
        assert forall|p: int| 0 <= p < out@.len() implies v@.contains(#[trigger] out@[p]) by {
            assert(ctag_ok(out@[p], v@));
            assert(v@[out@[p].2 as int] == out@[p]);
        }
        assert forall|a: int, b: int|
            0 <= a < b < out@.len() implies (#[trigger] out@[a]).0 != (#[trigger] out@[b]).0 by {
            assert(ctag_ok(out@[a], v@) && ctag_ok(out@[b], v@));
            let ta = out@[a].2 as int;
            let tb = out@[b].2 as int;
            assert(ta != tb);
            if ta < tb {
                assert(v@[ta].0 != v@[tb].0);
            } else {
                assert(v@[tb].0 != v@[ta].0);
            }
        }
    }
    out
}

fn copy_triples(v: &Vec<(u64, u64, usize)>) -> (out: Vec<(u64, u64, usize)>)
    ensures
        out@ == v@,
{
    let n = v.len();
    let mut out: Vec<(u64, u64, usize)> = Vec::new();
    let mut i: usize = 0;
    while i < n
        invariant
            n == v@.len(),
            0 <= i <= n,
            out@ == v@.take(i as int),
        decreases n - i,
    {
        out.push(v[i]);
        proof {
            assert(out@ =~= v@.take(i + 1));
        }
        i = i + 1;
    }
    proof {
        assert(v@.take(n as int) =~= v@);
    }
    out
}

/// Unfolds one visit of the candidate recursion.
proof fn lemma_candidates_step(slots: Seq<SlotInfo>, s: u64, rest: Seq<u64>, processed: Seq<u64>)
    ensures
        candidates_spec(slots, seq![s] + rest, processed) == (if processed.contains(s) {
            candidates_spec(slots, rest, processed)
        } else {
            match repair_candidate(slots, s) {
                None => candidates_spec(slots, rest, processed),
                Some(rc) => seq![(s, rc.0, rc.1)] + candidates_spec(
                    slots,
                    rest,
                    processed.push(s),
                ),
            }
        }),
{
    let visits = seq![s] + rest;
    assert(visits.len() > 0);
    assert(visits[0] == s);
    assert(visits.drop_first() =~= rest);
}

/// Pushing keeps every earlier element reachable.
proof fn lemma_contains_after_push(pre: Seq<u64>, x: u64, older: Seq<u64>)
    requires
        forall|k: int| 0 <= k < older.len() ==> pre.contains(#[trigger] older[k]),
    ensures
        forall|k: int| 0 <= k < older.len() ==> pre.push(x).contains(#[trigger] older[k]),
{
    assert forall|k: int| 0 <= k < older.len() implies pre.push(x).contains(
        #[trigger] older[k],
    ) by {
        let j = choose|j: int| 0 <= j < pre.len() && pre[j] == older[k];
        assert(pre.push(x)[j] == older[k]);
    }
}

/// Whether the list holds the value.
fn contains_u64(v: &Vec<u64>, x: u64) -> (r: bool)
    ensures
        r == v@.contains(x),
{
    let n = v.len();
    let mut i: usize = 0;
    while i < n
        invariant
            n == v@.len(),
            0 <= i <= n,
            forall|j: int| 0 <= j < i ==> v@[j] != x,
        decreases n - i,
    {
        if v[i] == x {
            return true;
        }
        i = i + 1;
    }
    proof {
        if v@.contains(x) {
            let j = choose|j: int| 0 <= j < v@.len() && v@[j] == x;
            assert(false);
        }
    }
    false
}

/// Sorts candidates by processed-shred count descending; equal counts keep
/// their visit order, so the result is the unique priority order.
fn sort_candidates_desc(v: &Vec<(u64, u64, u64)>) -> (out: Vec<(u64, u64, u64)>)
    requires
        forall|a: int, b: int|
            0 <= a < b < v@.len() ==> (#[trigger] v@[a]).0 != (#[trigger] v@[b]).0,
    ensures
        out@.len() == v@.len(),
        forall|p: int| 0 <= p < out@.len() ==> v@.contains(#[trigger] out@[p]),
        forall|p: int, q: int|
            0 <= p < q < out@.len() ==> (#[trigger] out@[p]).0 != (#[trigger] out@[q]).0,
        priority_sorted(out@, v@),
{
    let n = v.len();
    let mut rem: Vec<(u64, u64, u64, usize)> = Vec::new();
    let mut i: usize = 0;
    while i < n
        invariant
            n == v@.len(),
            0 <= i <= n,
            rem@.len() == i,
            forall|t: int|
                0 <= t < i ==> (#[trigger] rem@[t]) == (v@[t].0, v@[t].1, v@[t].2, t as usize),
        decreases n - i,
    {
        let e = v[i];
        rem.push((e.0, e.1, e.2, i));
        i = i + 1;
    }
    proof {
        assert forall|t: int| 0 <= t < rem@.len() implies tagged_ok(#[trigger] rem@[t], v@) by {}
    }
    let mut outt: Vec<(u64, u64, u64, usize)> = Vec::new();
    while rem.len() > 0
        invariant
            forall|t: int| 0 <= t < rem@.len() ==> tagged_ok(#[trigger] rem@[t], v@),
            forall|t: int| 0 <= t < outt@.len() ==> tagged_ok(#[trigger] outt@[t], v@),
            forall|p: int, q: int|
                0 <= p < q < outt@.len() ==> (#[trigger] outt@[p]).3 != (#[trigger] outt@[q]).3,
            forall|p: int, q: int|
                0 <= p < outt@.len() && 0 <= q < rem@.len() ==> (#[trigger] outt@[p]).3 != (
                #[trigger] rem@[q]).3,
            forall|p: int, q: int|
                0 <= p < q < rem@.len() ==> (#[trigger] rem@[p]).3 != (#[trigger] rem@[q]).3,
            forall|p: int, q: int|
                0 <= p < q < outt@.len() ==> ((#[trigger] outt@[p]).2 > (#[trigger] outt@[q]).2
                    || (outt@[p].2 == outt@[q].2 && outt@[p].3 < outt@[q].3)),
            forall|p: int, q: int|
                0 <= p < outt@.len() && 0 <= q < rem@.len() ==> ((#[trigger] outt@[p]).2 > (
                #[trigger] rem@[q]).2 || (outt@[p].2 == rem@[q].2 && outt@[p].3 < rem@[q].3)),
            outt@.len() + rem@.len() == v@.len(),
        decreases rem@.len(),
    {
        let m = rem.len();
        let mut best: usize = 0;
        let mut t: usize = 1;
        while t < m
            invariant
                m == rem@.len(),
                0 <= best < t <= m,
                forall|j: int|
                    0 <= j < t ==> (rem@[best as int].2 > (#[trigger] rem@[j]).2 || (rem@[
                    best as int].2 == rem@[j].2 && rem@[best as int].3 <= rem@[j].3)),
            decreases m - t,
        {
            let cand = rem[t];
            let cur = rem[best];
            if cand.2 > cur.2 || (cand.2 == cur.2 && cand.3 < cur.3) {
                best = t;
            }
            t = t + 1;
        }
        let x = rem[best];
        let ghost rem_pre = rem@;
        let ghost out_pre = outt@;
        outt.push(x);
        rem.remove(best);
        proof {
            assert(rem@ =~= rem_pre.remove(best as int));
            assert forall|t2: int| 0 <= t2 < rem@.len() implies tagged_ok(
                #[trigger] rem@[t2],
                v@,
            ) by {
                if t2 < best {
                    assert(rem@[t2] == rem_pre[t2]);
                } else {
                    assert(rem@[t2] == rem_pre[t2 + 1]);
                }
            }
            assert forall|p: int, q: int|
                0 <= p < q < rem@.len() implies (#[trigger] rem@[p]).3 != (
            #[trigger] rem@[q]).3 by {
                if p < best {
                    assert(rem@[p] == rem_pre[p]);
                } else {
                    assert(rem@[p] == rem_pre[p + 1]);
                }
                if q < best {
                    assert(rem@[q] == rem_pre[q]);
                } else {
                    assert(rem@[q] == rem_pre[q + 1]);
                }
            }
            assert forall|p: int, q: int|
                0 <= p < outt@.len() && 0 <= q < rem@.len() implies (#[trigger] outt@[p]).3 != (
            #[trigger] rem@[q]).3 && ((outt@[p]).2 > (rem@[q]).2 || (outt@[p].2 == rem@[q].2
                && outt@[p].3 < rem@[q].3)) by {
                if q < best {
                    assert(rem@[q] == rem_pre[q]);
                } else {
                    assert(rem@[q] == rem_pre[q + 1]);
                }
                if p < out_pre.len() {
                    assert(outt@[p] == out_pre[p]);
                } else {
                    assert(outt@[p] == x);
                }
            }
        }
    }
    let nn = outt.len();
    let mut out: Vec<(u64, u64, u64)> = Vec::new();
    let mut p: usize = 0;
    while p < nn
        invariant
            nn == outt@.len(),
            0 <= p <= nn,
            out@.len() == p,
            forall|j: int|
                0 <= j < p ==> (#[trigger] out@[j]) == (outt@[j].0, outt@[j].1, outt@[j].2),
        decreases nn - p,
    {
        let e = outt[p];
        out.push((e.0, e.1, e.2));
        p = p + 1;
    }
    proof {
        assert forall|j: int| 0 <= j < out@.len() implies v@.contains(#[trigger] out@[j]) by {
            assert(tagged_ok(outt@[j], v@));
            let t = outt@[j].3 as int;
            assert(out@[j] == (v@[t].0, v@[t].1, v@[t].2));
            assert(v@[t] == (v@[t].0, v@[t].1, v@[t].2));
            assert(v@[t] == out@[j]);
        }
        assert forall|a: int, b: int|
            0 <= a < b < out@.len() implies (#[trigger] out@[a]).0 != (#[trigger] out@[b]).0 by {
            assert(tagged_ok(outt@[a], v@) && tagged_ok(outt@[b], v@));
            let ta = outt@[a].3 as int;
            let tb = outt@[b].3 as int;
            assert(ta != tb);
            if ta < tb {
                assert(v@[ta].0 != v@[tb].0);
            } else {
                assert(v@[tb].0 != v@[ta].0);
            }
        }
        assert forall|a: int, b: int|
            0 <= a < b < out@.len() implies ((#[trigger] out@[a]).2 > (#[trigger] out@[b]).2 || (
            out@[a].2 == out@[b].2 && index_of_candidate(v@, out@[a].0) < index_of_candidate(
                v@,
                out@[b].0,
            ))) by {
            assert(tagged_ok(outt@[a], v@) && tagged_ok(outt@[b], v@));
            let ta = outt@[a].3 as int;
            let tb = outt@[b].3 as int;
            if outt@[a].2 == outt@[b].2 {
                lemma_index_of_candidate(v@, ta);
                lemma_index_of_candidate(v@, tb);
            }
        }
    }
    out
}

/// A tagged candidate: its original position, and its own fields.
pub open spec fn tagged_ok(e: (u64, u64, u64, usize), v: Seq<(u64, u64, u64)>) -> bool {
    &&& (e.3 as int) < v.len()
    &&& e.0 == v[e.3 as int].0
    &&& e.1 == v[e.3 as int].1
    &&& e.2 == v[e.3 as int].2
}

} // verus!
