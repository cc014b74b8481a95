//! The fanout tree that turbine disseminates over.
//!
//! Positions in a shuffled node order are grouped into neighborhoods of
//! `fanout` consecutive positions.  The neighborhood starting at position
//! `anchor = node - node % fanout` holds the neighbors of `node`; its
//! children sit at `anchor * fanout + fanout + offset + i * fanout` for
//! `i` below `fanout`.  Every position at `fanout` or beyond has exactly one
//! parent, which lies strictly before it, so the layers form a tree.

use vstd::prelude::*;

verus! {

/// First position of the neighborhood that `node` belongs to.
pub open spec fn tree_anchor(node: int, fanout: int) -> int {
    node - node % fanout
}

/// First child position of `node` in a tree with the given fanout.
pub open spec fn tree_child_start(node: int, fanout: int) -> int {
    tree_anchor(node, fanout) * fanout + fanout + node % fanout
}

/// How many of the `fanout` candidate child positions of `node`, starting at
/// index `i`, lie below `n`.
pub open spec fn child_count_from(fanout: int, node: int, n: int, i: int) -> int
    decreases
            if fanout - i >= 0 {
                fanout - i
            } else {
                0
            },
{
    if i >= fanout {
        0
    } else if tree_child_start(node, fanout) + i * fanout < n {
        1 + child_count_from(fanout, node, n, i + 1)
    } else {
        0
    }
}

/// The positions of the children of `node` among `n` positions.
pub open spec fn child_positions(fanout: int, node: int, n: int) -> Seq<int> {
    Seq::new(
        child_count_from(fanout, node, n, 0) as nat,
        |i: int| tree_child_start(node, fanout) + i * fanout,
    )
}

/// The positions of the neighbors of `node` among `n` positions: its whole
/// neighborhood, clipped to `n`.
pub open spec fn neighbor_positions(fanout: int, node: int, n: int) -> Seq<int> {
    let anchor = tree_anchor(node, fanout);
    let count = if anchor + fanout <= n {
        fanout
    } else {
        n - anchor
    };
    Seq::new(count as nat, |i: int| anchor + i)
}

/// The parent position of `node`, if it has one: positions below `fanout`
/// form the root neighborhood.
pub open spec fn parent_position(node: int, fanout: int) -> Option<int> {
    if node < fanout {
        None
    } else {
        let offset = node % fanout;
        let anchor = node - offset;
        let neighborhood = anchor / fanout - 1;
        let parent_anchor = neighborhood - neighborhood % fanout;
        Some(parent_anchor + offset)
    }
}

pub proof fn lemma_child_count_bounds(fanout: int, node: int, n: int, i: int)
    requires
        0 <= i <= fanout,
    ensures
        0 <= child_count_from(fanout, node, n, i) <= fanout - i,
    decreases fanout - i,
{
    if i < fanout && tree_child_start(node, fanout) + i * fanout < n {
        lemma_child_count_bounds(fanout, node, n, i + 1);
    }
}

/// Candidate child positions past the count are at or past `n`; those below
/// it are below `n`.
pub proof fn lemma_child_count_split(fanout: int, node: int, n: int, i: int, j: int)
    requires
        fanout >= 1,
        0 <= i <= fanout,
        i <= j,
    ensures
        j < i + child_count_from(fanout, node, n, i) ==> tree_child_start(node, fanout) + j
            * fanout < n,
        (j < fanout && i + child_count_from(fanout, node, n, i) <= j) ==> tree_child_start(
            node,
            fanout,
        ) + j * fanout >= n,
    decreases fanout - i,
{
    lemma_child_count_bounds(fanout, node, n, i);
    if i < fanout {
        if tree_child_start(node, fanout) + i * fanout < n {
            lemma_child_count_bounds(fanout, node, n, i + 1);
            if j > i {
                lemma_child_count_split(fanout, node, n, i + 1, j);
            }
        } else {
            if j < fanout && j >= i {
                assert(tree_child_start(node, fanout) + j * fanout >= tree_child_start(node, fanout)
                    + i * fanout) by (nonlinear_arith)
                    requires
                        j >= i,
                        fanout >= 1,
                ;
            }
        }
    }
}

/// Neighbor and child positions of `node` in a tree over `n` shuffled
/// positions: the pair `(neighbors, children)`.
pub fn compute_retransmit_positions(fanout: usize, node: usize, n: usize) -> (out: (
    Vec<usize>,
    Vec<usize>,
))
    requires
        fanout >= 1,
        node < n,
    ensures
        out.0@.map_values(|p: usize| p as int) == neighbor_positions(
            fanout as int,
            node as int,
            n as int,
        ),
        out.1@.map_values(|p: usize| p as int) == child_positions(
            fanout as int,
            node as int,
            n as int,
        ),
{
    let ghost gf = fanout as int;
    let ghost gnode = node as int;
    let ghost gn = n as int;
    let offset = node % fanout;
    proof {
        vstd::arithmetic::div_mod::lemma_mod_bound(gnode, gf);
        if node < fanout {
            vstd::arithmetic::div_mod::lemma_small_mod(node as nat, fanout as nat);
        }
    }
    let anchor = node - offset;
    proof {
        assert(anchor as int == tree_anchor(gnode, gf));
    }
    let mut neighbors: Vec<usize> = Vec::new();
    let mut j = anchor;
    while j < n && j - anchor < fanout
        invariant
            gf == fanout as int,
            gnode == node as int,
            gn == n as int,
            anchor <= j <= n,
            j - anchor <= fanout,
            anchor as int == tree_anchor(gnode, gf),
            anchor <= node < n,
            neighbors@.len() == j - anchor,
            forall|t: int|
                0 <= t < neighbors@.len() ==> (#[trigger] neighbors@[t]) as int == anchor as int
                    + t,
        decreases n - j,
    {
        neighbors.push(j);
        j = j + 1;
    }
    proof {
        let count = if anchor as int + gf <= gn {
            gf
        } else {
            gn - anchor as int
        };
        assert(neighbors@.len() == count);
        assert(neighbors@.map_values(|p: usize| p as int) =~= neighbor_positions(gf, gnode, gn));
    }
    let mut children: Vec<usize> = Vec::new();
    let ghost cnt = child_count_from(gf, gnode, gn, 0);
    proof {
        lemma_child_count_bounds(gf, gnode, gn, 0);
        assert(tree_anchor(gnode, gf) * gf >= 0) by (nonlinear_arith)
            requires
                tree_anchor(gnode, gf) >= 0,
                gf >= 1,
        ;
        assert(tree_child_start(gnode, gf) >= 0);
    }
    let start_opt: Option<usize> = match anchor.checked_mul(fanout) {
        Some(s1) => match s1.checked_add(fanout) {
            Some(s2) => s2.checked_add(offset),
            None => None,
        },
        None => None,
    };
    match start_opt {
        None => {
            proof {
                assert(tree_child_start(gnode, gf) > usize::MAX);
                assert(tree_child_start(gnode, gf) + 0 * gf >= gn);
                assert(cnt == 0);
                assert(children@.map_values(|p: usize| p as int) =~= child_positions(
                    gf,
                    gnode,
                    gn,
                ));
            }
        },
        Some(start) => {
            proof {
                assert(start as int == tree_child_start(gnode, gf));
            }
            let mut i: usize = 0;
            while i < fanout
                invariant
                    gf == fanout as int,
                    gnode == node as int,
                    gn == n as int,
                    fanout >= 1,
                    0 <= i <= fanout,
                    start as int == tree_child_start(gnode, gf),
                    cnt == child_count_from(gf, gnode, gn, 0),
                    0 <= cnt <= fanout,
                    children@.len() == if i as int <= cnt {
                        i as int
                    } else {
                        cnt
                    },
                    forall|t: int|
                        0 <= t < children@.len() ==> (#[trigger] children@[t]) as int
                            == tree_child_start(gnode, gf) + t * gf,
                decreases fanout - i,
            {
                let step = i.checked_mul(fanout);
                let cand: Option<usize> = match step {
                    Some(s) => start.checked_add(s),
                    None => None,
                };
                proof {
                    lemma_child_count_split(gf, gnode, gn, 0, i as int);
                }
                match cand {
                    Some(c) => {
                        if c < n {
                            proof {
                                assert(c as int == tree_child_start(gnode, gf) + i as int * gf);
                                assert((i as int) < cnt);
                            }
                            children.push(c);
                        } else {
                            proof {
                                assert(cnt <= i as int);
                            }
                        }
                    },
                    None => {
                        proof {
                            assert(start as int + i as int * gf > usize::MAX);
                            assert(i as int * gf >= 0) by (nonlinear_arith)
                                requires
                                    i as int >= 0,
                                    gf >= 1,
                            ;
                            assert(tree_child_start(gnode, gf) + i as int * gf >= gn);
                            assert(cnt <= i as int);
                        }
                    },
                }
                i = i + 1;
            }
            proof {
                assert(children@.len() == cnt);
                assert(children@.map_values(|p: usize| p as int) =~= child_positions(
                    gf,
                    gnode,
                    gn,
                ));
            }
        },
    }
    (neighbors, children)
}

/// The position of the parent of `index`, or `None` for the root
/// neighborhood.
pub fn get_parent_index(index: usize, fanout: usize) -> (out: Option<usize>)
    requires
        fanout >= 1,
    ensures
        out is None <==> parent_position(index as int, fanout as int) is None,
        out matches Some(p) ==> parent_position(index as int, fanout as int) == Some(p as int),
{
    if index < fanout {
        return None;
    }
    let offset = index % fanout;
    let anchor = index - offset;
    proof {
        vstd::arithmetic::div_mod::lemma_mod_bound(index as int, fanout as int);
        vstd::arithmetic::div_mod::lemma_fundamental_div_mod(index as int, fanout as int);
        let q = index as int / fanout as int;
        assert(fanout as int * q == q * fanout as int) by (nonlinear_arith);
        assert(anchor as int == q * fanout as int);
        assert(q >= 1) by (nonlinear_arith)
            requires
                fanout as int >= 1,
                anchor as int == q * fanout as int,
                anchor as int > index as int - fanout as int,
                index as int >= fanout as int,
        ;
        vstd::arithmetic::div_mod::lemma_fundamental_div_mod_converse(
            anchor as int,
            fanout as int,
            q,
            0,
        );
        assert(anchor as int / fanout as int == q);
    }
    let neighborhood = anchor / fanout - 1;
    let neighborhood_offset = neighborhood % fanout;
    proof {
        vstd::arithmetic::div_mod::lemma_mod_bound(neighborhood as int, fanout as int);
        if (neighborhood as int) < fanout as int {
            vstd::arithmetic::div_mod::lemma_small_mod(neighborhood as nat, fanout as nat);
        }
        let q = index as int / fanout as int;
        assert(neighborhood as int + offset as int <= index as int) by (nonlinear_arith)
            requires
                fanout as int >= 1,
                q >= 1,
                neighborhood as int == q - 1,
                offset as int >= 0,
                index as int == q * fanout as int + offset as int,
        ;
    }
    let parent_anchor = neighborhood - neighborhood_offset;
    Some(parent_anchor + offset)
}

/// The parent of every child position of `node` is `node` itself, and the
/// child lies strictly after it.
pub proof fn lemma_child_parent_roundtrip(fanout: int, node: int, i: int)
    requires
        fanout >= 1,
        node >= 0,
        0 <= i < fanout,
    ensures
        parent_position(tree_child_start(node, fanout) + i * fanout, fanout) == Some(node),
        tree_child_start(node, fanout) + i * fanout > node,
{
    let offset = node % fanout;
    let anchor = node - offset;
    let c = tree_child_start(node, fanout) + i * fanout;
    vstd::arithmetic::div_mod::lemma_fundamental_div_mod(node, fanout);
    assert(0 <= offset < fanout) by {
        vstd::arithmetic::div_mod::lemma_mod_bound(node, fanout);
    }
    let q = node / fanout;
    assert(fanout * q == q * fanout) by (nonlinear_arith);
    assert(anchor == q * fanout);
    assert(q >= 0) by (nonlinear_arith)
        requires
            fanout >= 1,
            anchor >= 0,
            anchor == q * fanout,
    ;
    // c = (q * fanout + 1 + i) * fanout + offset
    let cq = q * fanout + 1 + i;
    assert(c == cq * fanout + offset) by (nonlinear_arith)
        requires
            c == (q * fanout) * fanout + fanout + offset + i * fanout,
            cq == q * fanout + 1 + i,
    ;
    vstd::arithmetic::div_mod::lemma_fundamental_div_mod_converse(c, fanout, cq, offset);
    assert(c % fanout == offset && c / fanout == cq);
    assert(c >= fanout) by (nonlinear_arith)
        requires
            fanout >= 1,
            q >= 0,
            i >= 0,
            offset >= 0,
            c == (q * fanout + 1 + i) * fanout + offset,
    ;
    let c_anchor = c - offset;
    assert(c_anchor == cq * fanout);
    assert(c_anchor / fanout == cq) by {
        vstd::arithmetic::div_mod::lemma_fundamental_div_mod_converse(c_anchor, fanout, cq, 0);
    }
    let nb = cq - 1;
    assert(nb == q * fanout + i);
    assert(nb % fanout == i) by {
        vstd::arithmetic::div_mod::lemma_fundamental_div_mod_converse(nb, fanout, q, i);
    }
    assert(nb - nb % fanout + offset == q * fanout + offset);
    assert(q * fanout + offset == node);
    assert(c > node) by (nonlinear_arith)
        requires
            fanout >= 1,
            q >= 0,
            0 <= offset < fanout,
            i >= 0,
            node == q * fanout + offset,
            c == (q * fanout + 1 + i) * fanout + offset,
    ;
}

/// Every position at `fanout` or beyond has a parent strictly before it.
pub proof fn lemma_parent_before(node: int, fanout: int)
    requires
        fanout >= 1,
        node >= fanout,
    ensures
        parent_position(node, fanout) matches Some(p) && 0 <= p < node,
{
    let offset = node % fanout;
    let anchor = node - offset;
    vstd::arithmetic::div_mod::lemma_fundamental_div_mod(node, fanout);
    assert(0 <= offset < fanout) by {
        vstd::arithmetic::div_mod::lemma_mod_bound(node, fanout);
    }
    let q = node / fanout;
    assert(fanout * q == q * fanout) by (nonlinear_arith);
    assert(anchor == q * fanout);
    assert(q >= 1) by (nonlinear_arith)
        requires
            fanout >= 1,
            anchor == q * fanout,
            anchor > node - fanout,
            node >= fanout,
    ;
    assert(anchor / fanout == q) by {
        vstd::arithmetic::div_mod::lemma_fundamental_div_mod_converse(anchor, fanout, q, 0);
    }
    let nb = q - 1;
    assert(0 <= nb % fanout <= nb) by {
        vstd::arithmetic::div_mod::lemma_mod_bound(nb, fanout);
        if nb < fanout {
            vstd::arithmetic::div_mod::lemma_small_mod(nb as nat, fanout as nat);
        }
    }
    let parent = nb - nb % fanout + offset;
    assert(parent <= nb + offset);
    assert(nb + offset < q * fanout + offset) by (nonlinear_arith)
        requires
            fanout >= 1,
            nb == q - 1,
            q >= 1,
    ;
}

} // verus!
