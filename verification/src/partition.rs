//! The counting layer of a degree-corrected stochastic-block-model fit: the
//! group-to-group mixing matrix, group degree sums, and the bookkeeping of a
//! greedy node-reassignment phase (random initial assignment, candidate
//! moves of unfrozen nodes, committing and freezing a move). The
//! log-likelihood itself is real-valued and is computed by the caller from
//! the counts returned here.

use vstd::prelude::*;

use crate::network::SimpleNetwork;
use crate::node::Node;
use crate::sampling::rand_index;

verus! {

/// The group of the node with the given id under a partition aligned with
/// the graph's storage order.
pub open spec fn grp_at<N: Node>(
    g: SimpleNetwork<N>,
    p: Seq<(usize, bool)>,
    id: u64,
) -> int {
    p[g.pos_of(id)].0 as int
}

/// Among the first `upto` adjacency entries of node `i`, how many directed
/// edges run from group `rr` to group `ss`.
pub open spec fn mix_row<N: Node>(
    g: SimpleNetwork<N>,
    p: Seq<(usize, bool)>,
    i: int,
    upto: int,
    rr: int,
    ss: int,
) -> int
    decreases upto,
{
    if upto <= 0 {
        0
    } else {
        mix_row(g, p, i, upto - 1, rr, ss) + if p[i].0 as int == rr && grp_at(
            g,
            p,
            g.adj_at(i)[upto - 1],
        ) == ss {
            1int
        } else {
            0int
        }
    }
}

/// Directed edge count from group `rr` to group `ss` over the first `i_end`
/// nodes.
pub open spec fn mix_total<N: Node>(
    g: SimpleNetwork<N>,
    p: Seq<(usize, bool)>,
    rr: int,
    ss: int,
    i_end: int,
) -> int
    decreases i_end,
{
    if i_end <= 0 {
        0
    } else {
        mix_total(g, p, rr, ss, i_end - 1) + mix_row(
            g,
            p,
            i_end - 1,
            g.adj_at(i_end - 1).len() as int,
            rr,
            ss,
        )
    }
}

/// A partition fits a graph when it assigns every stored node a group below
/// `c`.
pub open spec fn partition_ok<N: Node>(
    g: SimpleNetwork<N>,
    p: Seq<(usize, bool)>,
    c: int,
) -> bool {
    &&& p.len() == g.n()
    &&& forall|i: int| 0 <= i < p.len() ==> (#[trigger] p[i]).0 < c
}

/// A mutable reference to one row of a count matrix.
fn mat_row_mut(rows: &mut Vec<Vec<u64>>, i: usize) -> (row: &mut Vec<u64>)
    requires
        i < old(rows)@.len(),
    ensures
        *row == old(rows)@[i as int],
        final(rows)@ == old(rows)@.update(i as int, *final(row)),
{
    &mut rows[i]
}

/// The mixing matrix of a partition: entry `[r][s]` counts the directed
/// adjacency entries running from a node of group `r` to a neighbor of
/// group `s`; symmetric cells count each undirected edge once per
/// direction.
#[verifier::rlimit(100)]
pub fn compute_mixing_matrix<N: Node>(
    g: &SimpleNetwork<N>,
    c: usize,
    partition: &Vec<(usize, bool)>,
) -> (r: Vec<Vec<u64>>)
    requires
        g.wf(),
        partition_ok(*g, partition@, c as int),
    ensures
        r@.len() == c,
        forall|a: int| 0 <= a < c ==> (#[trigger] r@[a])@.len() == c,
        forall|rr: int, ss: int|
            #![trigger r@[rr]@[ss]]
            0 <= rr < c && 0 <= ss < c ==> r@[rr]@[ss] == mix_total(
                *g,
                partition@,
                rr,
                ss,
                g.n(),
            ),
        forall|rr: int, ss: int|
            #![trigger r@[rr]@[ss]]
            0 <= rr < c && 0 <= ss < c ==> r@[rr]@[ss] == r@[ss]@[rr],
{
    let n = g.nodes.len();
    let mut matrix: Vec<Vec<u64>> = Vec::new();
    let mut a: usize = 0;
    while a < c
        invariant
            a <= c,
            matrix@.len() == a as int,
            forall|b: int| 0 <= b < a as int ==> (#[trigger] matrix@[b])@.len() == c,
            forall|b: int, s: int|
                #![trigger matrix@[b]@[s]]
                0 <= b < a as int && 0 <= s < c ==> matrix@[b]@[s] == 0,
        decreases c - a,
    {
        let mut row: Vec<u64> = Vec::new();
        let mut b: usize = 0;
        while b < c
            invariant
                b <= c,
                row@.len() == b as int,
                forall|s: int| 0 <= s < b as int ==> (#[trigger] row@[s]) == 0,
            decreases c - b,
        {
            row.push(0u64);
            b = b + 1;
        }
        matrix.push(row);
        a = a + 1;
    }
    let mut i: usize = 0;
    while i < n
        invariant
            g.wf(),
            n == g.nodes@.len(),
            n <= 0xFFFF_FFFF,
            partition_ok(*g, partition@, c as int),
            i <= n,
            matrix@.len() == c,
            forall|b: int| 0 <= b < c ==> (#[trigger] matrix@[b])@.len() == c,
            forall|rr: int, ss: int|
                #![trigger matrix@[rr]@[ss]]
                0 <= rr < c && 0 <= ss < c ==> matrix@[rr]@[ss] == mix_total(
                    *g,
                    partition@,
                    rr,
                    ss,
                    i as int,
                ),
            forall|rr: int, ss: int|
                #![trigger matrix@[rr]@[ss]]
                0 <= rr < c && 0 <= ss < c ==> matrix@[rr]@[ss] <= (i as int) * 0xFFFF_FFFFi64,
        decreases n - i,
    {
        let g1 = partition[i].0;
        let row = crate::network::row_ref(&g.adjacencies, i);
        let deg = row.len();
        proof {
            g.lemma_row_bound(i as int);
        }
        let mut k: usize = 0;
        while k < deg
            invariant
                g.wf(),
                n == g.nodes@.len(),
                n <= 0xFFFF_FFFF,
                partition_ok(*g, partition@, c as int),
                i < n,
                g1 == partition@[i as int].0,
                g1 < c,
                *row == g.adjacencies@[i as int],
                deg == row@.len(),
                deg <= 0xFFFF_FFFF,
                k <= deg,
                matrix@.len() == c,
                forall|b: int| 0 <= b < c ==> (#[trigger] matrix@[b])@.len() == c,
                forall|rr: int, ss: int|
                    #![trigger matrix@[rr]@[ss]]
                    0 <= rr < c && 0 <= ss < c ==> matrix@[rr]@[ss] == mix_total(
                        *g,
                        partition@,
                        rr,
                        ss,
                        i as int,
                    ) + mix_row(*g, partition@, i as int, k as int, rr, ss),
                forall|rr: int, ss: int|
                    #![trigger matrix@[rr]@[ss]]
                    0 <= rr < c && 0 <= ss < c ==> matrix@[rr]@[ss] <= (i as int)
                        * 0xFFFF_FFFFi64 + (k as int),
            decreases deg - k,
        {
            let v = row[k];
            proof {
                assert(g.adj_at(i as int).contains(v));
                assert(g.id_set().contains(v));
            }
            let vi = match g.find_index(v) {
                Some(vi) => vi,
                None => {
                    proof {
                        assert(false);
                    }
                    0
                },
            };
            proof {
                g.lemma_pos_of(vi as int);
                assert(grp_at(*g, partition@, v) == partition@[vi as int].0);
            }
            let g2 = partition[vi].0;
            let ghost m_pre = matrix@;
            proof {
                assert(m_pre[g1 as int]@[g2 as int] <= (i as int) * 0xFFFF_FFFFi64 + (k as int));
                assert((i as int) * 0xFFFF_FFFFi64 + (k as int) + 1 <= 0xFFFF_FFFFi64
                    * 0xFFFF_FFFFi64 + 0xFFFF_FFFFi64) by (nonlinear_arith)
                    requires
                        0 <= i as int <= 0xFFFF_FFFF,
                        0 <= (k as int) && (k as int) < 0xFFFF_FFFF,
                ;
            }
            let mrow = mat_row_mut(&mut matrix, g1);
            let cur = mrow[g2];
            mrow.set(g2, cur + 1);
            proof {
                assert(matrix@ == m_pre.update(
                    g1 as int,
                    matrix@[g1 as int],
                ));
                assert(matrix@[g1 as int]@ == m_pre[g1 as int]@.update(
                    g2 as int,
                    (cur + 1) as u64,
                ));
                assert forall|rr: int, ss: int|
                    #![trigger matrix@[rr]@[ss]]
                    0 <= rr < c && 0 <= ss < c implies matrix@[rr]@[ss] == mix_total(
                    *g,
                    partition@,
                    rr,
                    ss,
                    i as int,
                ) + mix_row(*g, partition@, i as int, (k + 1) as int, rr, ss) by {
                    if rr == g1 as int && ss == g2 as int {
                        assert(matrix@[rr]@[ss] == m_pre[rr]@[ss] + 1);
                    } else {
                        assert(matrix@[rr]@[ss] == m_pre[rr]@[ss]);
                    }
                }
            }
            k = k + 1;
        }
        proof {
            assert forall|rr: int, ss: int|
                #![trigger matrix@[rr]@[ss]]
                0 <= rr < c && 0 <= ss < c implies matrix@[rr]@[ss] <= ((i + 1) as int)
                * 0xFFFF_FFFFi64 by {
                assert((i as int) * 0xFFFF_FFFFi64 + (deg as int) <= ((i + 1) as int)
                    * 0xFFFF_FFFFi64) by (nonlinear_arith)
                    requires
                        0 <= deg as int <= 0xFFFF_FFFF,
                ;
            }
        }
        i = i + 1;
    }
    proof {
        assert forall|rr: int, ss: int|
            #![trigger matrix@[rr]@[ss]]
            0 <= rr < c && 0 <= ss < c implies matrix@[rr]@[ss] == matrix@[ss]@[rr] by {
            lemma_mixing_symmetric(*g, partition@, rr, ss);
        }
    }
    matrix
}

/// Sum of the first `upto` entries of a count row.
pub open spec fn row_sum(s: Seq<u64>, upto: int) -> int
    decreases upto,
{
    if upto <= 0 {
        0
    } else {
        row_sum(s, upto - 1) + s[upto - 1]
    }
}

proof fn lemma_row_sum_mono(s: Seq<u64>, k1: int, k2: int)
    requires
        0 <= k1 <= k2,
    ensures
        row_sum(s, k1) <= row_sum(s, k2),
        row_sum(s, k1) >= 0,
    decreases k2,
{
    if k1 < k2 {
        lemma_row_sum_mono(s, k1, k2 - 1);
    } else if k1 > 0 {
        lemma_row_sum_mono(s, k1 - 1, k1 - 1);
    }
}

/// The total degree of each group: the row sums of a mixing matrix.
pub fn group_degrees(matrix: &Vec<Vec<u64>>) -> (r: Vec<u64>)
    requires
        forall|a: int|
            0 <= a < matrix@.len() ==> row_sum(
                (#[trigger] matrix@[a])@,
                matrix@[a]@.len() as int,
            ) <= u64::MAX,
    ensures
        r@.len() == matrix@.len(),
        forall|a: int|
            0 <= a < matrix@.len() ==> (#[trigger] r@[a]) == row_sum(
                matrix@[a]@,
                matrix@[a]@.len() as int,
            ),
{
    let rows = matrix.len();
    let mut r: Vec<u64> = Vec::new();
    let mut a: usize = 0;
    while a < rows
        invariant
            rows == matrix@.len(),
            a <= rows,
            r@.len() == a as int,
            forall|b: int|
                0 <= b < matrix@.len() ==> row_sum(
                    (#[trigger] matrix@[b])@,
                    matrix@[b]@.len() as int,
                ) <= u64::MAX,
            forall|b: int|
                0 <= b < a as int ==> (#[trigger] r@[b]) == row_sum(
                    matrix@[b]@,
                    matrix@[b]@.len() as int,
                ),
        decreases rows - a,
    {
        let row = crate::network::row_ref(matrix, a);
        let m = row.len();
        let mut sum: u64 = 0;
        let mut k: usize = 0;
        while k < m
            invariant
                *row == matrix@[a as int],
                a < rows,
                rows == matrix@.len(),
                m == row@.len(),
                k <= m,
                sum == row_sum(row@, k as int),
                row_sum(row@, m as int) <= u64::MAX,
            decreases m - k,
        {
            proof {
                lemma_row_sum_mono(row@, (k + 1) as int, m as int);
                lemma_row_sum_mono(row@, k as int, k as int);
            }
            sum = sum + row[k];
            k = k + 1;
        }
        r.push(sum);
        a = a + 1;
    }
    r
}

/// A fresh uniformly random partition of `n` nodes into `c` groups, with
/// every node unfrozen.
pub fn random_partition(n: usize, c: usize) -> (r: Vec<(usize, bool)>)
    requires
        c >= 1,
    ensures
        r@.len() == n,
        forall|i: int| 0 <= i < n ==> (#[trigger] r@[i]).0 < c && !r@[i].1,
{
    let mut r: Vec<(usize, bool)> = Vec::new();
    let mut i: usize = 0;
    while i < n
        invariant
            i <= n,
            c >= 1,
            r@.len() == i as int,
            forall|j: int| 0 <= j < i as int ==> (#[trigger] r@[j]).0 < c && !r@[j].1,
        decreases n - i,
    {
        let grp = rand_index(c);
        r.push((grp, false));
        i = i + 1;
    }
    r
}

/// The move list `r` offers moving node `i` to group `d`.
pub open spec fn move_listed(r: Seq<(usize, usize)>, i: int, d: int) -> bool {
    exists|k: int| 0 <= k < r.len() && #[trigger] r[k] == (i as usize, d as usize)
}

/// Every candidate move of the greedy optimizer: each unfrozen node paired
/// with each group other than its own.
pub fn unfrozen_moves(partition: &Vec<(usize, bool)>, c: usize) -> (r: Vec<(usize, usize)>)
    ensures
        forall|k: int|
            0 <= k < r@.len() ==> {
                let mv = #[trigger] r@[k];
                &&& (mv.0 as int) < partition@.len()
                &&& mv.1 < c
                &&& !partition@[mv.0 as int].1
                &&& mv.1 != partition@[mv.0 as int].0
            },
        forall|i: int, d: int|
            #![trigger move_listed(r@, i, d)]
            0 <= i < partition@.len() && 0 <= d < c && !partition@[i].1 && d
                != partition@[i].0 ==> move_listed(r@, i, d),
{
    let n = partition.len();
    let mut r: Vec<(usize, usize)> = Vec::new();
    let mut i: usize = 0;
    while i < n
        invariant
            n == partition@.len(),
            i <= n,
            forall|k: int|
                0 <= k < r@.len() ==> {
                    let mv = #[trigger] r@[k];
                    &&& (mv.0 as int) < partition@.len()
                    &&& mv.1 < c
                    &&& !partition@[mv.0 as int].1
                    &&& mv.1 != partition@[mv.0 as int].0
                },
            forall|a: int, dd: int|
                #![trigger move_listed(r@, a, dd)]
                0 <= a < i as int && 0 <= dd < c && !partition@[a].1 && dd != partition@[a].0
                    ==> move_listed(r@, a, dd),
        decreases n - i,
    {
        let frozen = partition[i].1;
        let own = partition[i].0;
        if !frozen {
            let mut d: usize = 0;
            while d < c
                invariant
                    n == partition@.len(),
                    i < n,
                    d <= c,
                    !partition@[i as int].1,
                    own == partition@[i as int].0,
                    forall|k: int|
                        0 <= k < r@.len() ==> {
                            let mv = #[trigger] r@[k];
                            &&& (mv.0 as int) < partition@.len()
                            &&& mv.1 < c
                            &&& !partition@[mv.0 as int].1
                            &&& mv.1 != partition@[mv.0 as int].0
                        },
                    forall|a: int, dd: int|
                        #![trigger move_listed(r@, a, dd)]
                        0 <= a < i as int && 0 <= dd < c && !partition@[a].1 && dd
                            != partition@[a].0 ==> move_listed(r@, a, dd),
                    forall|dd: int|
                        #![trigger move_listed(r@, i as int, dd)]
                        0 <= dd < d as int && dd != own ==> move_listed(r@, i as int, dd),
                decreases c - d,
            {
                if d != own {
                    let ghost r_pre = r@;
                    r.push((i, d));
                    proof {
                        assert(r@[r_pre.len() as int] == (i, d));
                        assert forall|a: int, dd: int|
                            #![trigger move_listed(r@, a, dd)]
                            (0 <= a < i as int && 0 <= dd < c && !partition@[a].1 && dd
                                != partition@[a].0) || (a == i as int && 0 <= dd < d + 1 && dd
                                != own) implies move_listed(r@, a, dd) by {
                            if a == i as int && dd == d as int {
                                assert(r@[r_pre.len() as int] == (a as usize, dd as usize));
                            } else {
                                assert(move_listed(r_pre, a, dd));
                                let k = choose|k: int|
                                    0 <= k < r_pre.len() && #[trigger] r_pre[k] == (
                                    a as usize,
                                    dd as usize,
                                    );
                                assert(r@[k] == r_pre[k]);
                            }
                        }
                    }
                }
                d = d + 1;
            }
        } else {
            proof {
                assert forall|dd: int|
                    #![trigger move_listed(r@, i as int, dd)]
                    0 <= dd < c && !partition@[i as int].1 && dd
                        != partition@[i as int].0 implies move_listed(r@, i as int, dd) by {
                }
            }
        }
        i = i + 1;
    }
    r
}

/// Commits one greedy move: node `i` joins group `dst` and is frozen for
/// the rest of the phase.
pub fn apply_move(partition: &mut Vec<(usize, bool)>, i: usize, dst: usize)
    requires
        i < old(partition)@.len(),
    ensures
        final(partition)@ == old(partition)@.update(i as int, (dst, true)),
{
    partition.set(i, (dst, true));
}

/// Unfreezes every node, keeping its group: the reset at the start of a new
/// optimization phase.
pub fn unfreeze_all(partition: &mut Vec<(usize, bool)>)
    ensures
        final(partition)@.len() == old(partition)@.len(),
        forall|i: int|
            0 <= i < old(partition)@.len() ==> (#[trigger] final(partition)@[i]) == (
                old(partition)@[i].0,
                false,
            ),
{
    let n = partition.len();
    let mut i: usize = 0;
    while i < n
        invariant
            n == partition@.len(),
            i <= n,
            forall|j: int|
                i as int <= j < n ==> (#[trigger] partition@[j]) == old(partition)@[j],
            forall|j: int|
                0 <= j < i as int ==> (#[trigger] partition@[j]) == (
                    old(partition)@[j].0,
                    false,
                ),
        decreases n - i,
    {
        let grp = partition[i].0;
        partition.set(i, (grp, false));
        i = i + 1;
    }
}


/// Entry `e` is a directed adjacency slot `(node index, slot index)` whose
/// source node lies in group `rr` and whose target lies in group `ss`.
pub open spec fn entry_ok<N: Node>(
    g: SimpleNetwork<N>,
    p: Seq<(usize, bool)>,
    rr: int,
    ss: int,
    e: (int, int),
) -> bool {
    &&& 0 <= e.0 < g.n()
    &&& 0 <= e.1 < g.adj_at(e.0).len()
    &&& p[e.0].0 as int == rr
    &&& grp_at(g, p, g.adj_at(e.0)[e.1]) == ss
}

/// The directed adjacency slots from group `rr` to group `ss` among nodes
/// below `i_end`, further truncating node `i_end - 1` to its first `k_end`
/// slots.
spec fn entry_set_upto<N: Node>(
    g: SimpleNetwork<N>,
    p: Seq<(usize, bool)>,
    rr: int,
    ss: int,
    i_end: int,
    k_end: int,
) -> Set<(int, int)> {
    Set::new(
        |e: (int, int)|
            entry_ok(g, p, rr, ss, e) && (e.0 < i_end - 1 || (e.0 == i_end - 1 && e.1 < k_end)),
    )
}

proof fn lemma_row_entry_set<N: Node>(
    g: SimpleNetwork<N>,
    p: Seq<(usize, bool)>,
    rr: int,
    ss: int,
    i_end: int,
    k_end: int,
)
    requires
        1 <= i_end <= g.n(),
        0 <= k_end <= g.adj_at(i_end - 1).len(),
        entry_set_upto(g, p, rr, ss, i_end, 0).finite(),
        entry_set_upto(g, p, rr, ss, i_end, 0).len() == mix_total(g, p, rr, ss, i_end - 1),
    ensures
        entry_set_upto(g, p, rr, ss, i_end, k_end).finite(),
        entry_set_upto(g, p, rr, ss, i_end, k_end).len() == mix_total(g, p, rr, ss, i_end - 1)
            + mix_row(g, p, i_end - 1, k_end, rr, ss),
    decreases k_end,
{
    if k_end > 0 {
        lemma_row_entry_set(g, p, rr, ss, i_end, k_end - 1);
        let prev = entry_set_upto(g, p, rr, ss, i_end, k_end - 1);
        let cur = entry_set_upto(g, p, rr, ss, i_end, k_end);
        let e = (i_end - 1, k_end - 1);
        if entry_ok(g, p, rr, ss, e) {
            assert(cur =~= prev.insert(e));
            assert(!prev.contains(e));
        } else {
            assert(cur =~= prev);
        }
    }
}

proof fn lemma_entry_set<N: Node>(
    g: SimpleNetwork<N>,
    p: Seq<(usize, bool)>,
    rr: int,
    ss: int,
    i_end: int,
)
    requires
        0 <= i_end <= g.n() + 1,
    ensures
        entry_set_upto(g, p, rr, ss, i_end, 0).finite(),
        entry_set_upto(g, p, rr, ss, i_end, 0).len() == mix_total(g, p, rr, ss, i_end - 1),
    decreases i_end,
{
    if i_end == 0 {
        assert(entry_set_upto(g, p, rr, ss, 0, 0) =~= Set::<(int, int)>::empty());
    } else {
        lemma_entry_set(g, p, rr, ss, i_end - 1);
        // extend over the whole row i_end - 2 first
        if i_end - 1 >= 1 {
            lemma_row_entry_set(
                g,
                p,
                rr,
                ss,
                i_end - 1,
                g.adj_at(i_end - 2).len() as int,
            );
            assert(entry_set_upto(g, p, rr, ss, i_end, 0) =~= entry_set_upto(
                g,
                p,
                rr,
                ss,
                i_end - 1,
                g.adj_at(i_end - 2).len() as int,
            ));
        } else {
            assert(entry_set_upto(g, p, rr, ss, 1, 0) =~= entry_set_upto(g, p, rr, ss, 0, 0));
        }
    }
}

/// The slot that mirrors `e`: the same undirected edge, read from its other
/// endpoint.
spec fn mirror_slot<N: Node>(g: SimpleNetwork<N>, e: (int, int)) -> (int, int) {
    let j = g.pos_of(g.adj_at(e.0)[e.1]);
    (j, g.adj_at(j).index_of(g.ids()[e.0]))
}

proof fn lemma_mirror_slot<N: Node>(
    g: SimpleNetwork<N>,
    p: Seq<(usize, bool)>,
    rr: int,
    ss: int,
    e: (int, int),
)
    requires
        g.wf(),
        p.len() == g.n(),
        entry_ok(g, p, rr, ss, e),
    ensures
        entry_ok(g, p, ss, rr, mirror_slot(g, e)),
        mirror_slot(g, mirror_slot(g, e)) == e,
    decreases 0int,
{
    let v = g.adj_at(e.0)[e.1];
    assert(g.id_set().contains(v));
    let j = g.pos_of(v);
    assert(g.ids().contains(v));
    g.lemma_pos_of(e.0);
    assert(0 <= j < g.n() && g.ids()[j] == v);
    g.lemma_pos_of(j);
    // the reverse direction is stored in row j
    assert(g.adj_at(e.0).contains(g.ids()[j]));
    assert(g.adj_at(j).contains(g.ids()[e.0]));
    let l = g.adj_at(j).index_of(g.ids()[e.0]);
    assert(0 <= l < g.adj_at(j).len() && g.adj_at(j)[l] == g.ids()[e.0]);
    assert(mirror_slot(g, e) == (j, l));
    // groups swap
    assert(grp_at(g, p, v) == p[j].0 as int);
    assert(grp_at(g, p, g.adj_at(j)[l]) == p[e.0].0 as int) by {
        assert(g.adj_at(j)[l] == g.ids()[e.0]);
        assert(g.pos_of(g.ids()[e.0]) == e.0);
    }
    assert(entry_ok(g, p, ss, rr, (j, l)));
    // mirroring twice lands back on e, because rows have no duplicates
    let back = mirror_slot(g, (j, l));
    assert(g.pos_of(g.adj_at(j)[l]) == e.0) by {
        assert(g.adj_at(j)[l] == g.ids()[e.0]);
    }
    assert(back.0 == e.0);
    let k2 = g.adj_at(e.0).index_of(g.ids()[j]);
    assert(g.adj_at(e.0).contains(g.ids()[j]));
    assert(0 <= k2 < g.adj_at(e.0).len() && g.adj_at(e.0)[k2] == g.ids()[j]);
    assert(k2 == e.1) by {
        assert(g.adj_at(e.0)[e.1] == g.ids()[j]);
        assert(g.adj_at(e.0).no_duplicates());
    }
}

/// The mixing counts are symmetric: every directed slot from group `rr` to
/// group `ss` mirrors to exactly one from `ss` to `rr`.
pub proof fn lemma_mixing_symmetric<N: Node>(
    g: SimpleNetwork<N>,
    p: Seq<(usize, bool)>,
    rr: int,
    ss: int,
)
    requires
        g.wf(),
        p.len() == g.n(),
    ensures
        mix_total(g, p, rr, ss, g.n()) == mix_total(g, p, ss, rr, g.n()),
{
    lemma_entry_set(g, p, rr, ss, g.n() + 1);
    lemma_entry_set(g, p, ss, rr, g.n() + 1);
    let sa = entry_set_upto(g, p, rr, ss, g.n() + 1, 0);
    let sb = entry_set_upto(g, p, ss, rr, g.n() + 1, 0);
    let f = |e: (int, int)| mirror_slot(g, e);
    assert(sa.map(f) =~= sb) by {
        assert forall|y: (int, int)| sa.map(f).contains(y) implies sb.contains(y) by {
            let e = choose|e: (int, int)| sa.contains(e) && y == f(e);
            lemma_mirror_slot(g, p, rr, ss, e);
        }
        assert forall|y: (int, int)| sb.contains(y) implies sa.map(f).contains(y) by {
            lemma_mirror_slot(g, p, ss, rr, y);
            assert(sa.contains(mirror_slot(g, y)));
            assert(f(mirror_slot(g, y)) == y);
        }
    }
    assert(vstd::relations::injective_on(f, sa)) by {
        assert forall|e1: (int, int), e2: (int, int)|
            sa.contains(e1) && sa.contains(e2) && #[trigger] f(e1) == #[trigger] f(e2) implies e1
            == e2 by {
            lemma_mirror_slot(g, p, rr, ss, e1);
            lemma_mirror_slot(g, p, rr, ss, e2);
        }
    }
    vstd::set_lib::lemma_map_size(sa, sb, f);
}

} // verus!
