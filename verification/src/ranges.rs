//! Turbine-index range compression for completed-slot reports.
//!
//! A slot's received turbine indices are sorted and folded into runs of
//! consecutive values; a closed run is reported as `[first]` when it holds
//! one index, `[first, last]` otherwise.  The run still open when the input
//! ends is not reported.

use vstd::prelude::*;
use vstd::multiset::Multiset;

verus! {

broadcast use vstd::seq_lib::group_to_multiset_ensures;

fn copy_u32_vec(v: &Vec<u32>) -> (out: Vec<u32>)
    ensures
        out@ == v@,
{
    let n = v.len();
    let mut out: Vec<u32> = Vec::new();
    let mut i: usize = 0;
    while i < n
        invariant
            n == v@.len(),
            0 <= i <= n,
            out@ == v@.take(i as int),
        decreases n - i,
    {
        out.push(v[i]);
        proof {
            assert(out@ =~= v@.take(i + 1));
        }
        i = i + 1;
    }
    proof {
        assert(v@.take(n as int) =~= v@);
    }
    out
}

pub open spec fn sorted_asc(s: Seq<u32>) -> bool {
    forall|i: int, j: int| 0 <= i < j < s.len() ==> s[i] <= s[j]
}

/// The report of the run `s[a ..= b]`.
pub open spec fn run_repr(s: Seq<u32>, a: int, b: int) -> Seq<u32> {
    if a == b {
        seq![s[a]]
    } else {
        seq![s[a], s[b]]
    }
}

/// The closed runs of `s` from position `i`, the current run having begun
/// at `start`; the final, unclosed run is dropped.
pub open spec fn runs_from(s: Seq<u32>, start: int, i: int) -> Seq<Seq<u32>>
    decreases
            if s.len() - i >= 0 {
                s.len() - i
            } else {
                0
            },
{
    if i >= s.len() {
        Seq::<Seq<u32>>::empty()
    } else if s[i] == s[i - 1] + 1 {
        runs_from(s, start, i + 1)
    } else {
        seq![run_repr(s, start, i - 1)] + runs_from(s, i, i + 1)
    }
}

/// All closed runs of a sorted sequence.
pub open spec fn ranges_spec(s: Seq<u32>) -> Seq<Seq<u32>> {
    if s.len() == 0 {
        Seq::<Seq<u32>>::empty()
    } else {
        runs_from(s, 0, 1)
    }
}

/// Sorts indices ascending.
pub fn sort_u32_asc(v: &Vec<u32>) -> (out: Vec<u32>)
    ensures
        out@.to_multiset() == v@.to_multiset(),
        sorted_asc(out@),
{
    let mut rem = copy_u32_vec(v);
    let ghost orig = v@;
    let mut out: Vec<u32> = Vec::new();
    proof {
        assert(out@.to_multiset().add(rem@.to_multiset()) =~= orig.to_multiset());
    }
    while rem.len() > 0
        invariant
            out@.to_multiset().add(rem@.to_multiset()) == orig.to_multiset(),
            sorted_asc(out@),
            forall|i: int, j: int|
                0 <= i < out@.len() && 0 <= j < rem@.len() ==> (#[trigger] out@[i]) <= (
                #[trigger] rem@[j]),
        decreases rem@.len(),
    {
        let n = rem.len();
        let mut k: usize = 0;
        let mut t: usize = 1;
        while t < n
            invariant
                n == rem@.len(),
                0 <= k < t <= n,
                forall|j: int| 0 <= j < t ==> rem@[k as int] <= (#[trigger] rem@[j]),
            decreases n - t,
        {
            if rem[t] < rem[k] {
                k = t;
            }
            t = t + 1;
        }
        let x = rem[k];
        let ghost out_pre = out@;
        let ghost rem_pre = rem@;
        out.push(x);
        rem.remove(k);
        proof {
            assert(rem@ =~= rem_pre.remove(k as int));
            assert(rem@.to_multiset() =~= rem_pre.to_multiset().remove(x));
            assert(out@ =~= out_pre.push(x));
            assert(out@.to_multiset() =~= out_pre.to_multiset().insert(x));
            assert(rem_pre.contains(x));
            assert(rem_pre.to_multiset().count(x) > 0);
            assert(out@.to_multiset().add(rem@.to_multiset()) =~= orig.to_multiset());
            assert forall|i: int, j: int|
                0 <= i < out@.len() && 0 <= j < rem@.len() implies (#[trigger] out@[i]) <= (
            #[trigger] rem@[j]) by {
                if j < k {
                    assert(rem@[j] == rem_pre[j]);
                } else {
                    assert(rem@[j] == rem_pre[j + 1]);
                }
                if i < out_pre.len() {
                    assert(out@[i] == out_pre[i]);
                } else {
                    assert(out@[i] == x);
                }
            }
        }
    }
    proof {
        assert(rem@.to_multiset() =~= Multiset::<u32>::empty());
        assert(out@.to_multiset() =~= out@.to_multiset().add(rem@.to_multiset()));
    }
    out
}

/// Sorts the indices and folds them into closed runs.
pub fn compute_range_vec(turbine_indices: &Vec<u32>) -> (out: Vec<Vec<u32>>)
    ensures
        exists|t: Seq<u32>|
            t.to_multiset() == turbine_indices@.to_multiset() && #[trigger] sorted_asc(t)
                && out@.map_values(|v: Vec<u32>| v@) == ranges_spec(t),
{
    let sorted = sort_u32_asc(turbine_indices);
    let n = sorted.len();
    let mut out: Vec<Vec<u32>> = Vec::new();
    if n == 0 {
        proof {
            assert(out@.map_values(|v: Vec<u32>| v@) =~= ranges_spec(sorted@));
            assert(sorted_asc(sorted@) && sorted@.to_multiset() == turbine_indices@.to_multiset()
                && out@.map_values(|v: Vec<u32>| v@) == ranges_spec(sorted@));
        }
        return out;
    }
    let mut start: usize = 0;
    let mut i: usize = 1;
    while i < n
        invariant
            n == sorted@.len(),
            1 <= i <= n,
            0 <= start < i,
            out@.map_values(|v: Vec<u32>| v@) + runs_from(sorted@, start as int, i as int)
                == runs_from(sorted@, 0, 1),
        decreases n - i,
    {
        let prev = sorted[i - 1];
        let cur = sorted[i];
        if !(prev < u32::MAX && cur == prev + 1) {
            let mut range: Vec<u32> = Vec::new();
            range.push(sorted[start]);
            if start != i - 1 {
                range.push(prev);
            }
            let ghost out_pre = out@;
            out.push(range);
            proof {
                assert(out@ =~= out_pre.push(out@.last()));
                assert(out@.last()@ =~= run_repr(sorted@, start as int, i - 1));
                assert(out@.map_values(|v: Vec<u32>| v@) =~= out_pre.map_values(
                    |v: Vec<u32>| v@,
                ) + seq![run_repr(sorted@, start as int, i - 1)]);
                assert(runs_from(sorted@, start as int, i as int) == seq![
                    run_repr(sorted@, start as int, i - 1),
                ] + runs_from(sorted@, i as int, i + 1));
                assert(out@.map_values(|v: Vec<u32>| v@) + runs_from(sorted@, i as int, i + 1)
                    =~= runs_from(sorted@, 0, 1));
            }
            start = i;
        } else {
            proof {
                assert(runs_from(sorted@, start as int, i as int) == runs_from(
                    sorted@,
                    start as int,
                    i + 1,
                ));
            }
        }
        i = i + 1;
    }
    proof {
        assert(runs_from(sorted@, start as int, n as int) =~= Seq::<Seq<u32>>::empty());
        assert(out@.map_values(|v: Vec<u32>| v@) + Seq::<Seq<u32>>::empty() =~= out@.map_values(
            |v: Vec<u32>| v@,
        ));
        assert(out@.map_values(|v: Vec<u32>| v@) =~= ranges_spec(sorted@));
        assert(sorted_asc(sorted@) && sorted@.to_multiset() == turbine_indices@.to_multiset()
            && out@.map_values(|v: Vec<u32>| v@) == ranges_spec(sorted@));
    }
    out
}

/// The length a reported run stands for: one index, or the saturating
/// difference of its bounds.
pub open spec fn range_len(v: Seq<u32>) -> u32 {
    if v.len() == 1 {
        1u32
    } else {
        if v[1] >= v[0] {
            (v[1] - v[0]) as u32
        } else {
            0u32
        }
    }
}

/// The distinct run-length keys of `ranges`, in first-appearance order.
pub open spec fn keys_in_order(ranges: Seq<Seq<u32>>) -> Seq<u32>
    decreases ranges.len(),
{
    if ranges.len() == 0 {
        Seq::<u32>::empty()
    } else {
        let prev = keys_in_order(ranges.drop_last());
        prev + if prev.contains(range_len(ranges.last())) {
            Seq::<u32>::empty()
        } else {
            seq![range_len(ranges.last())]
        }
    }
}

/// The start indices of the runs whose length key is `len`, in run order.
pub open spec fn starts_for(ranges: Seq<Seq<u32>>, len: u32) -> Seq<u32>
    decreases ranges.len(),
{
    if ranges.len() == 0 {
        Seq::<u32>::empty()
    } else {
        starts_for(ranges.drop_last(), len) + if range_len(ranges.last()) == len {
            seq![ranges.last()[0]]
        } else {
            Seq::<u32>::empty()
        }
    }
}

/// Every reported run holds one or two indices.
pub proof fn lemma_runs_wf(s: Seq<u32>, start: int, i: int)
    ensures
        forall|j: int|
            0 <= j < runs_from(s, start, i).len() ==> 1 <= (#[trigger] runs_from(
                s,
                start,
                i,
            )[j]).len() <= 2,
    decreases
            if s.len() - i >= 0 {
                s.len() - i
            } else {
                0
            },
{
    if i < s.len() {
        if s[i] == s[i - 1] + 1 {
            lemma_runs_wf(s, start, i + 1);
            assert(runs_from(s, start, i) == runs_from(s, start, i + 1));
            let cur = runs_from(s, start, i);
            let rest = runs_from(s, start, i + 1);
            assert forall|j: int| 0 <= j < cur.len() implies 1 <= (#[trigger] cur[j]).len()
                <= 2 by {
                assert(cur[j] == rest[j]);
            }
        } else {
            lemma_runs_wf(s, i, i + 1);
            let cur = runs_from(s, start, i);
            let rest = runs_from(s, i, i + 1);
            assert(cur == seq![run_repr(s, start, i - 1)] + rest);
            assert forall|j: int| 0 <= j < cur.len() implies 1 <= (#[trigger] cur[j]).len()
                <= 2 by {
                if j == 0 {
                    assert(cur[0] == run_repr(s, start, i - 1));
                } else {
                    assert(cur[j] == rest[j - 1]);
                }
            }
        }
    }
}

/// A length that is not among the keys starts no run.
proof fn lemma_no_key_no_starts(ranges: Seq<Seq<u32>>, len: u32)
    requires
        !keys_in_order(ranges).contains(len),
    ensures
        starts_for(ranges, len).len() == 0,
    decreases ranges.len(),
{
    if ranges.len() > 0 {
        let prev = keys_in_order(ranges.drop_last());
        let cur = keys_in_order(ranges);
        assert forall|x: u32| prev.contains(x) implies cur.contains(x) by {
            let j = choose|j: int| 0 <= j < prev.len() && prev[j] == x;
            assert(cur[j] == x);
        }
        assert(!prev.contains(len));
        lemma_no_key_no_starts(ranges.drop_last(), len);
        if range_len(ranges.last()) == len {
            if prev.contains(range_len(ranges.last())) {
                assert(false);
            } else {
                assert(cur[cur.len() - 1] == len);
                assert(cur.contains(len));
                assert(false);
            }
        }
    }
}

/// Groups the closed runs by their length: one entry per distinct length,
/// in first-appearance order, each carrying the start offsets of exactly
/// its runs in run order -- a partition of `compute_range_vec`'s output.
pub fn compute_lengths_and_offsets(turbine_indices: &Vec<u32>) -> (out: (Vec<u32>, Vec<Vec<u32>>))
    ensures
        out.0@.len() == out.1@.len(),
        forall|a: int, b: int| 0 <= a < b < out.0@.len() ==> out.0@[a] != out.0@[b],
        forall|j: int| 0 <= j < out.1@.len() ==> (#[trigger] out.1@[j])@.len() >= 1,
        exists|t: Seq<u32>|
            t.to_multiset() == turbine_indices@.to_multiset() && #[trigger] sorted_asc(t)
                && out.0@ == keys_in_order(ranges_spec(t)) && forall|k: int|
                0 <= k < out.0@.len() ==> (#[trigger] out.1@[k])@ == starts_for(
                    ranges_spec(t),
                    out.0@[k],
                ),
{
    let ranges = compute_range_vec(turbine_indices);
    let ghost tsort = choose|t: Seq<u32>|
        t.to_multiset() == turbine_indices@.to_multiset() && #[trigger] sorted_asc(t)
            && ranges@.map_values(|v: Vec<u32>| v@) == ranges_spec(t);
    let ghost rview = ranges@.map_values(|v: Vec<u32>| v@);
    proof {
        assert(rview == ranges_spec(tsort));
        if tsort.len() > 0 {
            lemma_runs_wf(tsort, 0, 1);
        }
        assert forall|j: int| 0 <= j < rview.len() implies 1 <= (#[trigger] rview[j]).len()
            <= 2 by {
            assert(rview[j] == ranges_spec(tsort)[j]);
        }
    }
    let n = ranges.len();
    let mut lengths: Vec<u32> = Vec::new();
    let mut offsets: Vec<Vec<u32>> = Vec::new();
    let mut i: usize = 0;
    while i < n
        invariant
            n == ranges@.len(),
            rview == ranges@.map_values(|v: Vec<u32>| v@),
            forall|j: int| 0 <= j < rview.len() ==> 1 <= (#[trigger] rview[j]).len() <= 2,
            0 <= i <= n,
            lengths@.len() == offsets@.len(),
            forall|a: int, b: int|
                0 <= a < b < lengths@.len() ==> lengths@[a] != lengths@[b],
            forall|j: int| 0 <= j < offsets@.len() ==> (#[trigger] offsets@[j])@.len() >= 1,
            lengths@ == keys_in_order(rview.take(i as int)),
            forall|k: int|
                0 <= k < lengths@.len() ==> (#[trigger] offsets@[k])@ == starts_for(
                    rview.take(i as int),
                    lengths@[k],
                ),
        decreases n - i,
    {
        proof {
            assert(rview.take(i + 1).drop_last() =~= rview.take(i as int));
            assert(rview.take(i + 1).last() == rview[i as int]);
            assert(rview[i as int] == ranges@[i as int]@);
        }
        let v = &ranges[i];
        if v.len() >= 1 {
            let len: u32 = if v.len() == 1 {
                1
            } else {
                if v[1] >= v[0] {
                    v[1] - v[0]
                } else {
                    0
                }
            };
            proof {
                assert(len == range_len(rview[i as int]));
            }
            let m = lengths.len();
            let mut found: Option<usize> = None;
            let mut t: usize = 0;
            while t < m
                invariant
                    m == lengths@.len(),
                    0 <= t <= m,
                    match found {
                        Some(u) => u < lengths@.len() && lengths@[u as int] == len,
                        None => forall|j: int| 0 <= j < t ==> lengths@[j] != len,
                    },
                decreases m - t,
            {
                if lengths[t] == len {
                    found = Some(t);
                    proof {
                    }
                }
                t = t + 1;
            }
            match found {
                Some(u) => {
                    let mut entry = copy_u32_vec(&offsets[u]);
                    entry.push(v[0]);
                    let ghost pre = offsets@;
                    offsets.set(u, entry);
                    proof {
                        assert(lengths@.contains(len)) by {
                            assert(lengths@[u as int] == len);
                        }
                        assert(keys_in_order(rview.take(i + 1)) =~= lengths@);
                        assert forall|j: int|
                            0 <= j < offsets@.len() implies (#[trigger] offsets@[j])@.len()
                            >= 1 by {
                            if j != u as int {
                                assert(offsets@[j] == pre[j]);
                            }
                        }
                        assert forall|k: int|
                            0 <= k < lengths@.len() implies (#[trigger] offsets@[k])@
                            == starts_for(rview.take(i + 1), lengths@[k]) by {
                            if k == u as int {
                                assert(offsets@[k]@ =~= pre[k]@ + seq![rview[i as int][0]]);
                                assert(starts_for(rview.take(i + 1), len) == starts_for(
                                    rview.take(i as int),
                                    len,
                                ) + seq![rview[i as int][0]]);
                            } else {
                                assert(offsets@[k] == pre[k]);
                                assert(lengths@[k] != len);
                                assert(starts_for(rview.take(i + 1), lengths@[k]) =~= starts_for(
                                    rview.take(i as int),
                                    lengths@[k],
                                ));
                            }
                        }
                    }
                },
                None => {
                    let ghost keys_pre = lengths@;
                    lengths.push(len);
                    let mut fresh: Vec<u32> = Vec::new();
                    fresh.push(v[0]);
                    let ghost offs_pre = offsets@;
                    offsets.push(fresh);
                    proof {
                        assert(!keys_pre.contains(len)) by {
                            if keys_pre.contains(len) {
                                let j = choose|j: int|
                                    0 <= j < keys_pre.len() && keys_pre[j] == len;
                                assert(false);
                            }
                        }
                        assert(keys_in_order(rview.take(i + 1)) =~= keys_pre + seq![len]);
                        assert(lengths@ =~= keys_pre + seq![len]);
                        assert forall|a: int, b: int|
                            0 <= a < b < lengths@.len() implies lengths@[a] != lengths@[b] by {
                            if b == lengths@.len() - 1 {
                                assert(lengths@[a] == keys_pre[a]);
                                assert(keys_pre.contains(keys_pre[a]));
                            }
                        }
                        lemma_no_key_no_starts(rview.take(i as int), len);
                        assert forall|k: int|
                            0 <= k < lengths@.len() implies (#[trigger] offsets@[k])@
                            == starts_for(rview.take(i + 1), lengths@[k]) by {
                            if k < keys_pre.len() {
                                assert(offsets@[k] == offs_pre[k]);
                                assert(lengths@[k] == keys_pre[k]);
                                assert(keys_pre.contains(keys_pre[k]));
                                assert(lengths@[k] != len);
                                assert(starts_for(rview.take(i + 1), lengths@[k]) =~= starts_for(
                                    rview.take(i as int),
                                    lengths@[k],
                                ));
                            } else {
                                assert(lengths@[k] == len);
                                assert(offsets@[k]@ =~= seq![rview[i as int][0]]);
                                assert(starts_for(rview.take(i + 1), len) =~= starts_for(
                                    rview.take(i as int),
                                    len,
                                ) + seq![rview[i as int][0]]);
                                assert(starts_for(rview.take(i as int), len).len() == 0);
                                assert(starts_for(rview.take(i as int), len) + seq![
                                    rview[i as int][0],
                                ] =~= seq![rview[i as int][0]]);
                            }
                        }
                    }
                },
            }
        } else {
            proof {
                assert(false);
            }
        }
        i = i + 1;
    }
    proof {
        assert(rview.take(n as int) =~= rview);
        assert(lengths@ == keys_in_order(rview));
    }
    (lengths, offsets)
}

} // verus!
