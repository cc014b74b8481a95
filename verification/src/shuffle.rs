//! Stake-weighted shuffle.
//!
//! Given a vector of non-negative weights and a 32-byte seed, the shuffle
//! yields a deterministic permutation of the indices.  Each draw picks an
//! index with probability proportional to its weight among the indices that
//! remain; once every remaining weight is zero the rest are drawn uniformly,
//! so zero-weight indices come out after all positive ones.  Indices can be
//! removed from the shuffle without re-seeding, which never yields them.

use vstd::prelude::*;
use crate::rng::{chacha_below, chacha_from_seed, chacha_gen_below, rng_seed, rng_draws};

verus! {

broadcast use vstd::seq_lib::group_to_multiset_ensures;

#[derive(Debug, Clone, Copy, PartialEq, Eq, Structural)]
pub enum WeightedShuffleError {
    /// The weights are not all zero-able: every weight is zero.
    InvalidWeights,
    /// The running sum of the weights does not fit in 64 bits.
    WeightsOverflow,
}

/// Sum of `weights` over the index list `rem`.
pub open spec fn rem_sum(weights: Seq<u64>, rem: Seq<usize>) -> int
    decreases rem.len(),
{
    if rem.len() == 0 {
        0
    } else {
        rem_sum(weights, rem.drop_last()) + weights[rem.last() as int] as int
    }
}

/// Position of the index that a draw of `r` picks out of `rem`: the first
/// position whose weight prefix sum exceeds `r`, walking front to back.
pub open spec fn sel_pos(weights: Seq<u64>, rem: Seq<usize>, r: int) -> int
    decreases rem.len(),
{
    if rem.len() <= 1 {
        0
    } else if r < weights[rem[0] as int] as int {
        0
    } else {
        1 + sel_pos(weights, rem.drop_first(), r - weights[rem[0] as int] as int)
    }
}

/// The list of indices still in the shuffle, ascending.
pub open spec fn active_list(active: Seq<bool>) -> Seq<usize>
    decreases active.len(),
{
    if active.len() == 0 {
        Seq::<usize>::empty()
    } else {
        active_list(active.drop_last())
            + if active.last() {
                seq![(active.len() - 1) as usize]
            } else {
                Seq::<usize>::empty()
            }
    }
}

/// The order in which the indices listed in `rem` leave the shuffle, as a
/// function of the seed and of the draws already consumed.  While the
/// remaining weights have a positive sum `s`, a draw below `s` picks an index
/// with probability proportional to its weight; afterwards the rest are drawn
/// uniformly.
pub open spec fn shuffle_from(weights: Seq<u64>, rem: Seq<usize>, seed: Seq<u8>, draws: Seq<u64>) -> Seq<usize>
    decreases rem.len(),
{
    if rem.len() == 0 {
        Seq::<usize>::empty()
    } else {
        let s = rem_sum(weights, rem);
        if 0 < s <= u64::MAX {
            let r = chacha_below(seed, draws, s as u64) as int % s;
            let k0 = sel_pos(weights, rem, r);
            let k = if 0 <= k0 < rem.len() {
                k0
            } else {
                0
            };
            seq![rem[k]] + shuffle_from(weights, rem.remove(k), seed, draws.push(s as u64))
        } else {
            let m = rem.len() as int;
            let r = chacha_below(seed, draws, m as u64) as int % m;
            seq![rem[r]] + shuffle_from(weights, rem.remove(r), seed, draws.push(m as u64))
        }
    }
}

/// The full shuffle of the indices still active, from a fresh stream.
pub open spec fn shuffle_spec(weights: Seq<u64>, active: Seq<bool>, seed: Seq<u8>) -> Seq<usize> {
    shuffle_from(weights, active_list(active), seed, Seq::<u64>::empty())
}

pub proof fn lemma_rem_sum_nonneg(weights: Seq<u64>, rem: Seq<usize>)
    ensures
        rem_sum(weights, rem) >= 0,
    decreases rem.len(),
{
    if rem.len() > 0 {
        lemma_rem_sum_nonneg(weights, rem.drop_last());
    }
}

pub proof fn lemma_rem_sum_remove(weights: Seq<u64>, rem: Seq<usize>, k: int)
    requires
        0 <= k < rem.len(),
    ensures
        rem_sum(weights, rem.remove(k)) == rem_sum(weights, rem) - weights[rem[k] as int] as int,
    decreases rem.len(),
{
    if k == rem.len() - 1 {
        assert(rem.remove(k) =~= rem.drop_last());
    } else {
        assert(rem.remove(k).drop_last() =~= rem.drop_last().remove(k));
        assert(rem.remove(k).last() == rem.last());
        lemma_rem_sum_remove(weights, rem.drop_last(), k);
    }
}

pub proof fn lemma_rem_sum_elem(weights: Seq<u64>, rem: Seq<usize>, k: int)
    requires
        0 <= k < rem.len(),
    ensures
        weights[rem[k] as int] as int <= rem_sum(weights, rem),
{
    lemma_rem_sum_remove(weights, rem, k);
    lemma_rem_sum_nonneg(weights, rem.remove(k));
}

pub proof fn lemma_sel_pos_bounds(weights: Seq<u64>, rem: Seq<usize>, r: int)
    requires
        rem.len() >= 1,
    ensures
        0 <= sel_pos(weights, rem, r) < rem.len(),
    decreases rem.len(),
{
    if rem.len() > 1 && r >= weights[rem[0] as int] as int {
        lemma_sel_pos_bounds(weights, rem.drop_first(), r - weights[rem[0] as int] as int);
    }
}

/// Every index that goes in comes out: the shuffle emits exactly the
/// multiset of the indices it was given.
pub proof fn lemma_shuffle_from_multiset(weights: Seq<u64>, rem: Seq<usize>, seed: Seq<u8>, draws: Seq<u64>)
    ensures
        shuffle_from(weights, rem, seed, draws).to_multiset() == rem.to_multiset(),
    decreases rem.len(),
{
    if rem.len() > 0 {
        let s = rem_sum(weights, rem);
        let out = shuffle_from(weights, rem, seed, draws);
        if 0 < s <= u64::MAX {
            let r = chacha_below(seed, draws, s as u64) as int % s;
            let k0 = sel_pos(weights, rem, r);
            let k = if 0 <= k0 < rem.len() {
                k0
            } else {
                0
            };
            let rest = shuffle_from(weights, rem.remove(k), seed, draws.push(s as u64));
            lemma_shuffle_from_multiset(weights, rem.remove(k), seed, draws.push(s as u64));
            assert(out =~= seq![rem[k]] + rest);
            lemma_multiset_of_cons(rem[k], rest);
            assert(rem.remove(k).to_multiset() =~= rem.to_multiset().remove(rem[k]));
            assert(out.to_multiset() =~= rem.to_multiset());
        } else {
            let m = rem.len() as int;
            let r = chacha_below(seed, draws, m as u64) as int % m;
            let rest = shuffle_from(weights, rem.remove(r), seed, draws.push(m as u64));
            lemma_shuffle_from_multiset(weights, rem.remove(r), seed, draws.push(m as u64));
            assert(out =~= seq![rem[r]] + rest);
            lemma_multiset_of_cons(rem[r], rest);
            assert(rem.remove(r).to_multiset() =~= rem.to_multiset().remove(rem[r]));
            assert(out.to_multiset() =~= rem.to_multiset());
        }
    }
}

proof fn lemma_multiset_of_cons(x: usize, rest: Seq<usize>)
    ensures
        (seq![x] + rest).to_multiset() == rest.to_multiset().insert(x),
    decreases rest.len(),
{
    if rest.len() == 0 {
        assert(seq![x] + rest =~= seq![x]);
        assert(seq![x] =~= Seq::<usize>::empty().push(x));
    } else {
        let all = seq![x] + rest;
        assert(all.drop_last() =~= seq![x] + rest.drop_last());
        assert(all =~= all.drop_last().push(rest.last()));
        assert(rest =~= rest.drop_last().push(rest.last()));
        lemma_multiset_of_cons(x, rest.drop_last());
        assert(all.to_multiset() =~= all.drop_last().to_multiset().insert(rest.last()));
        assert(rest.to_multiset() =~= rest.drop_last().to_multiset().insert(rest.last()));
        assert(all.to_multiset() =~= rest.to_multiset().insert(x));
    }
}

pub proof fn lemma_active_list_props(active: Seq<bool>)
    requires
        active.len() <= usize::MAX,
    ensures
        active_list(active).no_duplicates(),
        forall|j: int|
            0 <= j < active_list(active).len() ==> (#[trigger] active_list(active)[j]) < active.len(),
        forall|x: usize|
            active_list(active).contains(x) <==> (x < active.len() && active[x as int]),
        forall|j1: int, j2: int|
            0 <= j1 < j2 < active_list(active).len() ==> (#[trigger] active_list(active)[j1])
                < (#[trigger] active_list(active)[j2]),
    decreases active.len(),
{
    if active.len() > 0 {
        lemma_active_list_props(active.drop_last());
        let prev = active_list(active.drop_last());
        let cur = active_list(active);
        if active.last() {
            assert(cur =~= prev.push((active.len() - 1) as usize));
            assert forall|x: usize| cur.contains(x) implies (x < active.len() && active[x as int]) by {
                if x == (active.len() - 1) as usize {
                    assert(active[x as int] == active.last());
                } else {
                    let j = choose|j: int| 0 <= j < cur.len() && cur[j] == x;
                    assert(cur[j] == x);
                    assert(j < cur.len() - 1);
                    assert(prev[j] == x);
                    assert(prev.contains(x));
                    assert(x < active.drop_last().len() && active.drop_last()[x as int]);
                    assert(active.drop_last()[x as int] == active[x as int]);
                }
            }
            assert forall|x: usize| (x < active.len() && active[x as int]) implies cur.contains(x) by {
                if x == (active.len() - 1) as usize {
                    assert(cur[cur.len() - 1] == x);
                } else {
                    assert(active.drop_last()[x as int] == active[x as int]);
                    assert(prev.contains(x));
                    let j = choose|j: int| 0 <= j < prev.len() && prev[j] == x;
                    assert(cur[j] == x);
                }
            }
        } else {
            assert(cur =~= prev);
            assert forall|x: usize| cur.contains(x) implies (x < active.len() && active[x as int]) by {
                assert(active.drop_last()[x as int] == active[x as int]);
            }
            assert forall|x: usize| (x < active.len() && active[x as int]) implies cur.contains(x) by {
                if x < active.len() - 1 {
                    assert(active.drop_last()[x as int] == active[x as int]);
                }
            }
        }
    }
}

/// The shuffle is a permutation (P-style law): it has no duplicates, its
/// length is the number of active indices, and it holds an index if and only
/// if that index is active.  With every index active it is a bijection onto
/// `0 .. weights.len()`.
pub proof fn lemma_shuffle_is_permutation(weights: Seq<u64>, active: Seq<bool>, seed: Seq<u8>)
    requires
        active.len() == weights.len(),
        weights.len() <= usize::MAX,
    ensures
        shuffle_spec(weights, active, seed).no_duplicates(),
        shuffle_spec(weights, active, seed).len() == active_list(active).len(),
        forall|x: usize|
            #[trigger] shuffle_spec(weights, active, seed).contains(x) <==> (x < weights.len()
                && active[x as int]),
{
    let out = shuffle_spec(weights, active, seed);
    let rem = active_list(active);
    lemma_active_list_props(active);
    lemma_shuffle_from_multiset(weights, rem, seed, Seq::<u64>::empty());
    assert(out.len() == out.to_multiset().len());
    assert(rem.len() == rem.to_multiset().len());
    rem.lemma_multiset_has_no_duplicates();
    assert forall|x: usize| out.to_multiset().contains(x) implies out.to_multiset().count(x) == 1 by {
        assert(rem.to_multiset().count(x) == out.to_multiset().count(x));
    }
    out.lemma_multiset_has_no_duplicates_conv();
    assert forall|x: usize| out.contains(x) implies rem.contains(x) by {
        assert(out.to_multiset().count(x) > 0);
        assert(rem.to_multiset().count(x) > 0);
    }
    assert forall|x: usize| rem.contains(x) implies out.contains(x) by {
        assert(rem.to_multiset().count(x) > 0);
        assert(out.to_multiset().count(x) > 0);
    }
}

/// Total of all the weights, taken back to front.
pub open spec fn total_weight(weights: Seq<u64>) -> int
    decreases weights.len(),
{
    if weights.len() == 0 {
        0
    } else {
        total_weight(weights.drop_last()) + weights.last() as int
    }
}

pub proof fn lemma_total_weight_nonneg(weights: Seq<u64>)
    ensures
        total_weight(weights) >= 0,
    decreases weights.len(),
{
    if weights.len() > 0 {
        lemma_total_weight_nonneg(weights.drop_last());
    }
}

pub proof fn lemma_total_weight_prefix(weights: Seq<u64>, i: int)
    requires
        0 <= i < weights.len(),
    ensures
        total_weight(weights) >= total_weight(weights.take(i)) + weights[i] as int,
    decreases weights.len(),
{
    if i == weights.len() - 1 {
        assert(weights.take(i) =~= weights.drop_last());
    } else {
        lemma_total_weight_prefix(weights.drop_last(), i);
        assert(weights.drop_last().take(i) =~= weights.take(i));
        assert(weights.drop_last()[i] == weights[i]);
    }
}

/// With every index active, the weight of the active part is the total.
pub proof fn lemma_total_is_all_active_sum(weights: Seq<u64>, active: Seq<bool>)
    requires
        active.len() == weights.len(),
        active.len() <= usize::MAX,
        forall|j: int| 0 <= j < active.len() ==> active[j],
    ensures
        rem_sum(weights, active_list(active)) == total_weight(weights),
    decreases weights.len(),
{
    if weights.len() > 0 {
        lemma_total_is_all_active_sum(weights.drop_last(), active.drop_last());
        assert(active.last());
        let prev = active_list(active.drop_last());
        assert(active_list(active) =~= prev + seq![(active.len() - 1) as usize]);
        assert((prev + seq![(active.len() - 1) as usize]).drop_last() =~= prev);
        lemma_active_list_props_small(active.drop_last());
        assert forall|j: int|
            0 <= j < prev.len() implies 0 <= (#[trigger] prev[j]) < weights.drop_last().len()
                && prev[j] < weights.len() && weights.drop_last()[prev[j] as int]
                == weights[prev[j] as int] by {}
        lemma_rem_sum_agree(weights.drop_last(), weights, prev);
    }
}

/// `lemma_active_list_props` restated without the length bound, for the parts
/// that do not need it.
proof fn lemma_active_list_props_small(active: Seq<bool>)
    ensures
        forall|j: int|
            0 <= j < active_list(active).len() ==> (#[trigger] active_list(active)[j]) < active.len(),
    decreases active.len(),
{
    if active.len() > 0 {
        lemma_active_list_props_small(active.drop_last());
        let prev = active_list(active.drop_last());
        if active.last() {
            assert(active_list(active) =~= prev.push((active.len() - 1) as usize));
        } else {
            assert(active_list(active) =~= prev);
        }
    }
}

/// Turning one active index off takes exactly its weight out of the active
/// sum.
pub proof fn lemma_deactivate_sum(weights: Seq<u64>, active: Seq<bool>, i: int)
    requires
        0 <= i < active.len(),
        active[i],
        active.len() == weights.len(),
        active.len() <= usize::MAX,
    ensures
        rem_sum(weights, active_list(active.update(i, false))) == rem_sum(
            weights,
            active_list(active),
        ) - weights[i] as int,
    decreases active.len(),
{
    let upd = active.update(i, false);
    let n = active.len() as int;
    if i == n - 1 {
        assert(upd.drop_last() =~= active.drop_last());
        assert(!upd.last());
        assert(active_list(upd) =~= active_list(active.drop_last()));
        assert(active_list(active) =~= active_list(active.drop_last()) + seq![(n - 1) as usize]);
        assert((active_list(active.drop_last()) + seq![(n - 1) as usize]).drop_last()
            =~= active_list(active.drop_last()));
    } else {
        let wd = weights.drop_last();
        let ad = active.drop_last();
        lemma_deactivate_sum(wd, ad, i);
        assert(upd.drop_last() =~= ad.update(i, false));
        assert(upd.last() == active.last());
        lemma_active_list_props_small(ad);
        lemma_active_list_props_small(ad.update(i, false));
        assert forall|j: int|
            0 <= j < active_list(ad).len() implies 0 <= (#[trigger] active_list(ad)[j]) < wd.len()
                && active_list(ad)[j] < weights.len() && wd[active_list(ad)[j] as int]
                == weights[active_list(ad)[j] as int] by {}
        lemma_rem_sum_agree(wd, weights, active_list(ad));
        assert forall|j: int|
            0 <= j < active_list(ad.update(i, false)).len() implies 0 <= (#[trigger] active_list(
            ad.update(i, false),
        )[j]) < wd.len() && active_list(ad.update(i, false))[j] < weights.len() && wd[active_list(
            ad.update(i, false),
        )[j] as int] == weights[active_list(ad.update(i, false))[j] as int] by {}
        lemma_rem_sum_agree(wd, weights, active_list(ad.update(i, false)));
        if active.last() {
            assert(active_list(active) =~= active_list(ad) + seq![(n - 1) as usize]);
            assert(active_list(upd) =~= active_list(ad.update(i, false)) + seq![(n - 1) as usize]);
            assert((active_list(ad) + seq![(n - 1) as usize]).drop_last() =~= active_list(ad));
            assert((active_list(ad.update(i, false)) + seq![(n - 1) as usize]).drop_last()
                =~= active_list(ad.update(i, false)));
        } else {
            assert(active_list(active) =~= active_list(ad));
            assert(active_list(upd) =~= active_list(ad.update(i, false)));
        }
    }
}

/// A shuffle handle: the weights it was built over, which indices are still
/// in it, and the sum of the weights of those indices.
pub struct WeightedShuffle {
    weights: Vec<u64>,
    active: Vec<bool>,
    sum: u64,
}

impl WeightedShuffle {
    pub closed spec fn weights_view(&self) -> Seq<u64> {
        self.weights@
    }

    pub closed spec fn active_view(&self) -> Seq<bool> {
        self.active@
    }

    pub closed spec fn wf(&self) -> bool {
        &&& self.active@.len() == self.weights@.len()
        &&& self.sum as int == rem_sum(self.weights@, active_list(self.active@))
    }

    /// Builds a shuffle over `weights` with every index active.  An empty
    /// vector is allowed and shuffles to nothing; weights that are all zero
    /// are rejected, as is a total that does not fit in 64 bits.
    pub fn new(weights: &Vec<u64>) -> (out: Result<WeightedShuffle, WeightedShuffleError>)
        ensures
            out is Ok <==> (weights@.len() == 0 || (0 < total_weight(weights@) <= u64::MAX)),
            total_weight(weights@) > u64::MAX ==> out == Result::<WeightedShuffle,
                WeightedShuffleError>::Err(WeightedShuffleError::WeightsOverflow),
            (weights@.len() > 0 && total_weight(weights@) == 0) ==> out == Result::<
                WeightedShuffle,
                WeightedShuffleError,
            >::Err(WeightedShuffleError::InvalidWeights),
            out matches Ok(s) ==> s.wf() && s.weights_view() == weights@ && s.active_view()
                == Seq::new(weights@.len(), |j: int| true),
    {
        let n = weights.len();
        let mut active: Vec<bool> = Vec::new();
        let mut acc: u64 = 0;
        let mut i: usize = 0;
        while i < n
            invariant
                n == weights@.len(),
                0 <= i <= n,
                active@.len() == i,
                forall|j: int| 0 <= j < i ==> active@[j],
                acc as int == total_weight(weights@.take(i as int)),
            decreases n - i,
        {
            let w = weights[i];
            proof {
                assert(weights@.take(i + 1).drop_last() =~= weights@.take(i as int));
                assert(weights@.take(i + 1).last() == weights@[i as int]);
            }
            if acc > u64::MAX - w {
                proof {
                    lemma_total_weight_prefix(weights@, i as int);
                }
                return Err(WeightedShuffleError::WeightsOverflow);
            }
            acc = acc + w;
            active.push(true);
            i = i + 1;
        }
        proof {
            assert(weights@.take(n as int) =~= weights@);
        }
        if n > 0 && acc == 0 {
            return Err(WeightedShuffleError::InvalidWeights);
        }
        proof {
            lemma_total_is_all_active_sum(weights@, active@);
            assert(active@ =~= Seq::new(weights@.len(), |j: int| true));
        }
        Ok(WeightedShuffle { weights: copy_u64_vec(weights), active, sum: acc })
    }

    /// Takes index `i` out of the shuffle: it will never be yielded again.
    /// Equivalent to having built the shuffle without that entry.
    pub fn remove_index(&mut self, i: usize)
        requires
            old(self).wf(),
            i < old(self).weights_view().len(),
        ensures
            final(self).wf(),
            final(self).weights_view() == old(self).weights_view(),
            final(self).active_view() == old(self).active_view().update(i as int, false),
    {
        let n = self.active.len();
        if self.active[i] {
            proof {
                assert(self.active@.len() == n as int);
                lemma_deactivate_sum(self.weights@, self.active@, i as int);
                lemma_rem_sum_nonneg(self.weights@, active_list(self.active@.update(i as int, false)));
            }
            let w = self.weights[i];
            self.active.set(i, false);
            self.sum = self.sum - w;
        } else {
            proof {
                assert(self.active@.update(i as int, false) =~= self.active@);
            }
        }
    }

    fn active_indices(&self) -> (out: Vec<usize>)
        requires
            self.wf(),
        ensures
            out@ == active_list(self.active_view()),
            forall|j: int| 0 <= j < out@.len() ==> (#[trigger] out@[j]) < self.weights_view().len(),
    {
        let n = self.active.len();
        let mut out: Vec<usize> = Vec::new();
        let mut i: usize = 0;
        while i < n
            invariant
                n == self.active@.len(),
                0 <= i <= n,
                out@ == active_list(self.active@.take(i as int)),
                forall|j: int| 0 <= j < out@.len() ==> (#[trigger] out@[j]) < i,
            decreases n - i,
        {
            proof {
                assert(self.active@.take(i + 1).drop_last() =~= self.active@.take(i as int));
                assert(self.active@.take(i + 1).last() == self.active@[i as int]);
                if self.active@[i as int] {
                    assert(active_list(self.active@.take(i + 1)) =~= active_list(
                        self.active@.take(i as int),
                    ) + seq![i]);
                } else {
                    assert(active_list(self.active@.take(i + 1)) =~= active_list(
                        self.active@.take(i as int),
                    ));
                }
            }
            if self.active[i] {
                out.push(i);
            }
            i = i + 1;
        }
        proof {
            assert(self.active@.take(n as int) =~= self.active@);
        }
        out
    }

    /// The full deterministic shuffle for `seed`: the order in which the
    /// active indices leave the handle.
    pub fn shuffle(&self, seed: &[u8; 32]) -> (out: Vec<usize>)
        requires
            self.wf(),
        ensures
            out@ == shuffle_spec(self.weights_view(), self.active_view(), seed@),
    {
        let rem = self.active_indices();
        shuffle_core(&self.weights, rem, self.sum, seed)
    }

    /// The single index that `shuffle` would yield first for `seed`, without
    /// computing the rest of the order.
    pub fn first(&self, seed: &[u8; 32]) -> (out: Option<usize>)
        requires
            self.wf(),
        ensures
            active_list(self.active_view()).len() == 0 ==> out is None,
            active_list(self.active_view()).len() > 0 ==> out == Some(
                shuffle_spec(self.weights_view(), self.active_view(), seed@)[0],
            ),
    {
        let rem = self.active_indices();
        if rem.len() == 0 {
            return None;
        }
        let ghost spec_out = shuffle_from(self.weights@, rem@, seed@, Seq::<u64>::empty());
        let mut rng = chacha_from_seed(seed);
        if self.sum > 0 {
            let r = chacha_gen_below(&mut rng, self.sum);
            let k = sel_scan(&self.weights, &rem, r);
            proof {
                lemma_sel_pos_bounds(self.weights@, rem@, r as int);
                vstd::arithmetic::div_mod::lemma_small_mod(r as nat, self.sum as nat);
                assert(r as int % (self.sum as int) == r as int);
                assert(spec_out[0] == rem@[k as int]);
            }
            Some(rem[k])
        } else {
            let m: u64 = rem.len() as u64;
            let r = chacha_gen_below(&mut rng, m);
            proof {
                vstd::arithmetic::div_mod::lemma_small_mod(r as nat, rem@.len() as nat);
                assert(r as int % (rem@.len() as int) == r as int);
                assert(spec_out[0] == rem@[r as int]);
            }
            Some(rem[r as usize])
        }
    }
}

impl Clone for WeightedShuffle {
    /// A clone carries the same weights, the same active set and the same
    /// sum, so it shuffles identically.
    fn clone(&self) -> (res: Self)
        ensures
            res.weights_view() == self.weights_view(),
            res.active_view() == self.active_view(),
            self.wf() ==> res.wf(),
    {
        WeightedShuffle {
            weights: copy_u64_vec(&self.weights),
            active: copy_bool_vec(&self.active),
            sum: self.sum,
        }
    }
}

fn copy_u64_vec(v: &Vec<u64>) -> (out: Vec<u64>)
    ensures
        out@ == v@,
{
    let n = v.len();
    let mut out: Vec<u64> = Vec::new();
    let mut i: usize = 0;
    while i < n
        invariant
            n == v@.len(),
            0 <= i <= n,
            out@ == v@.take(i as int),
        decreases n - i,
    {
        out.push(v[i]);
        proof {
            assert(out@ =~= v@.take(i + 1));
        }
        i = i + 1;
    }
    proof {
        assert(v@.take(n as int) =~= v@);
    }
    out
}

fn copy_bool_vec(v: &Vec<bool>) -> (out: Vec<bool>)
    ensures
        out@ == v@,
{
    let n = v.len();
    let mut out: Vec<bool> = Vec::new();
    let mut i: usize = 0;
    while i < n
        invariant
            n == v@.len(),
            0 <= i <= n,
            out@ == v@.take(i as int),
        decreases n - i,
    {
        out.push(v[i]);
        proof {
            assert(out@ =~= v@.take(i + 1));
        }
        i = i + 1;
    }
    proof {
        assert(v@.take(n as int) =~= v@);
    }
    out
}

/// Walks `rem` front to back and returns the position that the draw `r`
/// selects, matching `sel_pos`.
fn sel_scan(weights: &Vec<u64>, rem: &Vec<usize>, r: u64) -> (k: usize)
    requires
        rem@.len() >= 1,
        forall|j: int| 0 <= j < rem@.len() ==> (#[trigger] rem@[j]) < weights@.len(),
    ensures
        k as int == sel_pos(weights@, rem@, r as int),
        k < rem@.len(),
{
    let mut k: usize = 0;
    let mut racc: u64 = r;
    proof {
        assert(rem@.skip(0) =~= rem@);
    }
    let n = rem.len();
    while k < n - 1 && racc >= weights[rem[k]]
        invariant
            n == rem@.len(),
            rem@.len() >= 1,
            forall|j: int| 0 <= j < rem@.len() ==> (#[trigger] rem@[j]) < weights@.len(),
            0 <= k < rem@.len(),
            sel_pos(weights@, rem@, r as int) == k + sel_pos(
                weights@,
                rem@.skip(k as int),
                racc as int,
            ),
        decreases rem@.len() - k,
    {
        let idx = rem[k];
        let w = weights[idx];
        proof {
            let tail = rem@.skip(k as int);
            assert(tail.len() >= 2);
            assert(tail[0] == rem@[k as int]);
            assert(tail.drop_first() =~= rem@.skip(k + 1));
        }
        racc = racc - w;
        k = k + 1;
    }
    proof {
        let tail = rem@.skip(k as int);
        assert(tail[0] == rem@[k as int]);
        assert(sel_pos(weights@, tail, racc as int) == 0);
    }
    k
}

/// Draws indices out of `rem` one at a time, exactly as `shuffle_from`
/// describes.
fn shuffle_core(weights: &Vec<u64>, rem: Vec<usize>, sum: u64, seed: &[u8; 32]) -> (out: Vec<usize>)
    requires
        forall|j: int| 0 <= j < rem@.len() ==> (#[trigger] rem@[j]) < weights@.len(),
        sum as int == rem_sum(weights@, rem@),
    ensures
        out@ == shuffle_from(weights@, rem@, seed@, Seq::<u64>::empty()),
{
    let ghost orig_rem = rem@;
    let mut rem = rem;
    let mut sum = sum;
    let mut rng = chacha_from_seed(seed);
    let mut out: Vec<usize> = Vec::new();
    while rem.len() > 0
        invariant
            forall|j: int| 0 <= j < rem@.len() ==> (#[trigger] rem@[j]) < weights@.len(),
            sum as int == rem_sum(weights@, rem@),
            rng_seed(rng) == seed@,
            shuffle_from(weights@, orig_rem, seed@, Seq::<u64>::empty()) == out@ + shuffle_from(
                weights@,
                rem@,
                seed@,
                rng_draws(rng),
            ),
        decreases rem@.len(),
    {
        let ghost rem_pre = rem@;
        let ghost draws_pre = rng_draws(rng);
        let ghost out_pre = out@;
        let k: usize;
        let bound: u64;
        if sum > 0 {
            bound = sum;
            let r = chacha_gen_below(&mut rng, sum);
            k = sel_scan(weights, &rem, r);
            proof {
                vstd::arithmetic::div_mod::lemma_small_mod(r as nat, sum as nat);
                assert(r as int % (sum as int) == r as int);
            }
        } else {
            bound = rem.len() as u64;
            let r = chacha_gen_below(&mut rng, bound);
            k = r as usize;
            proof {
                vstd::arithmetic::div_mod::lemma_small_mod(r as nat, rem@.len() as nat);
                assert(r as int % (rem@.len() as int) == r as int);
            }
        }
        let x = rem[k];
        proof {
            lemma_rem_sum_elem(weights@, rem@, k as int);
            lemma_rem_sum_remove(weights@, rem@, k as int);
            lemma_rem_sum_nonneg(weights@, rem@.remove(k as int));
        }
        out.push(x);
        sum = sum - weights[x];
        rem.remove(k);
        proof {
            assert(rem@ =~= rem_pre.remove(k as int));
            assert forall|j: int| 0 <= j < rem@.len() implies (#[trigger] rem@[j])
                < weights@.len() by {
                if j < k {
                    assert(rem@[j] == rem_pre[j]);
                } else {
                    assert(rem@[j] == rem_pre[j + 1]);
                }
            }
            assert(shuffle_from(weights@, rem_pre, seed@, draws_pre) == seq![x] + shuffle_from(
                weights@,
                rem@,
                seed@,
                draws_pre.push(bound),
            ));
            assert(out@ =~= out_pre + seq![x]);
            assert(out_pre + (seq![x] + shuffle_from(weights@, rem@, seed@, draws_pre.push(bound)))
                =~= (out_pre + seq![x]) + shuffle_from(weights@, rem@, seed@, draws_pre.push(bound)));
        }
    }
    proof {
        assert(shuffle_from(weights@, rem@, seed@, rng_draws(rng)) =~= Seq::<usize>::empty());
        assert(out@ + Seq::<usize>::empty() =~= out@);
    }
    out
}

/// A sum over distinct active indices never exceeds the whole active sum.
pub proof fn lemma_subset_sum(weights: Seq<u64>, rem: Seq<usize>, active: Seq<bool>)
    requires
        rem.no_duplicates(),
        forall|i: int|
            0 <= i < rem.len() ==> ((#[trigger] rem[i]) as int) < weights.len() && active[rem[i] as int],
        active.len() == weights.len(),
        active.len() <= usize::MAX,
    ensures
        rem_sum(weights, rem) <= rem_sum(weights, active_list(active)),
    decreases rem.len(),
{
    if rem.len() > 0 {
        let x = rem.last();
        let rem2 = rem.drop_last();
        let active2 = active.update(x as int, false);
        assert(rem[rem.len() - 1] == x);
        assert((x as int) < weights.len() && active[x as int]);
        assert(rem2.no_duplicates()) by {
            assert forall|i: int, j: int| 0 <= i < j < rem2.len() implies rem2[i] != rem2[j] by {
                assert(rem2[i] == rem[i] && rem2[j] == rem[j]);
            }
        }
        assert forall|i: int|
            0 <= i < rem2.len() implies ((#[trigger] rem2[i]) as int) < weights.len()
                && active2[rem2[i] as int] by {
            assert(rem2[i] == rem[i]);
            assert(rem[i] != rem[rem.len() - 1]);
        }
        lemma_subset_sum(weights, rem2, active2);
        lemma_deactivate_sum(weights, active, x as int);
        lemma_rem_sum_nonneg(weights, active_list(active2));
        assert(rem_sum(weights, rem) == rem_sum(weights, rem2) + weights[x as int] as int);
    } else {
        lemma_rem_sum_nonneg(weights, active_list(active));
    }
}

/// The active weights of a well-formed shuffle sum within the machine
/// word.
pub proof fn lemma_wf_sum_bound(ws: &WeightedShuffle)
    requires
        ws.wf(),
    ensures
        rem_sum(ws.weights_view(), active_list(ws.active_view())) <= u64::MAX,
{
}

/// The sum over a single index is its weight.
pub proof fn lemma_rem_sum_singleton(weights: Seq<u64>, x: usize)
    ensures
        rem_sum(weights, seq![x]) == weights[x as int] as int,
{
    assert(seq![x].drop_last() =~= Seq::<usize>::empty());
    assert(seq![x].last() == x);
    assert(rem_sum(weights, Seq::<usize>::empty()) == 0);
}

/// Splitting an index list splits its sum.
pub proof fn lemma_rem_sum_split(weights: Seq<u64>, rem: Seq<usize>, k: int)
    requires
        0 <= k <= rem.len(),
    ensures
        rem_sum(weights, rem) == rem_sum(weights, rem.take(k)) + rem_sum(weights, rem.skip(k)),
    decreases rem.len() - k,
{
    if k == rem.len() {
        assert(rem.take(k) =~= rem);
        assert(rem.skip(k) =~= Seq::<usize>::empty());
    } else {
        lemma_rem_sum_split(weights, rem, k + 1);
        assert(rem.take(k + 1).drop_last() =~= rem.take(k));
        assert(rem.take(k + 1).last() == rem[k]);
        assert(rem.skip(k) =~= seq![rem[k]] + rem.skip(k + 1));
        lemma_rem_sum_cons(weights, rem[k], rem.skip(k + 1));
    }
}

proof fn lemma_rem_sum_cons(weights: Seq<u64>, x: usize, rest: Seq<usize>)
    ensures
        rem_sum(weights, seq![x] + rest) == weights[x as int] as int + rem_sum(weights, rest),
{
    let all = seq![x] + rest;
    lemma_rem_sum_remove(weights, all, 0);
    assert(all.remove(0) =~= rest);
    assert(all[0] == x);
}

/// Two weight vectors that agree on every index named in `rem` give the same
/// sum over `rem`.
proof fn lemma_rem_sum_agree(w1: Seq<u64>, w2: Seq<u64>, rem: Seq<usize>)
    requires
        forall|j: int|
            0 <= j < rem.len() ==> 0 <= (#[trigger] rem[j]) < w1.len() && rem[j] < w2.len()
                && w1[rem[j] as int] == w2[rem[j] as int],
    ensures
        rem_sum(w1, rem) == rem_sum(w2, rem),
    decreases rem.len(),
{
    if rem.len() > 0 {
        lemma_rem_sum_agree(w1, w2, rem.drop_last());
    }
}

} // verus!
