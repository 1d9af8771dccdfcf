//! Link-prediction statistics: redaction of attributes and edges for
//! partial-observability experiments, similarity scores over non-adjacent
//! pairs, and ROC accumulation. Scores are exact integer values; a caller
//! that wants randomized tie-breaking noise adds it on top, bounded so that
//! distinct true scores keep their order.

use vstd::prelude::*;

use crate::network::SimpleNetwork;
use crate::node::AttrNode;
use crate::records::Edge;
use crate::sampling::rand_index;
use crate::sampling::shuffle_indices;

verus! {

/// How many of the first `upto` entries are `true`.
pub open spec fn count_true(s: Seq<bool>, upto: int) -> int
    decreases upto,
{
    if upto <= 0 {
        0
    } else {
        count_true(s, upto - 1) + if s[upto - 1] {
            1int
        } else {
            0int
        }
    }
}

proof fn lemma_count_true_bounds(s: Seq<bool>, upto: int)
    requires
        0 <= upto <= s.len(),
    ensures
        0 <= count_true(s, upto) <= upto,
    decreases upto,
{
    if upto > 0 {
        lemma_count_true_bounds(s, upto - 1);
    }
}

/// The elements of `s` selected by the `true` positions of `keep`, in order.
pub open spec fn mask_filter(s: Seq<Edge>, keep: Seq<bool>, upto: int) -> Seq<Edge>
    decreases upto,
{
    if upto <= 0 {
        Seq::empty()
    } else if keep[upto - 1] {
        mask_filter(s, keep, upto - 1).push(s[upto - 1])
    } else {
        mask_filter(s, keep, upto - 1)
    }
}

proof fn lemma_count_true_update(s: Seq<bool>, i: int, upto: int)
    requires
        0 <= i < s.len(),
        !s[i],
        0 <= upto <= s.len(),
    ensures
        count_true(s.update(i, true), upto) == count_true(s, upto) + if i < upto {
            1int
        } else {
            0int
        },
    decreases upto,
{
    if upto > 0 {
        lemma_count_true_update(s, i, upto - 1);
    }
}

/// The drawn index list is a permutation of `0 .. len`: its entries are
/// distinct and each is below `len`.
fn shuffled_index_list(len: usize) -> (r: Vec<usize>)
    ensures
        r@.len() == len,
        r@.no_duplicates(),
        forall|k: int| 0 <= k < r@.len() ==> (#[trigger] r@[k]) < len,
{
    let mut numbers: Vec<usize> = Vec::new();
    let mut i: usize = 0;
    while i < len
        invariant
            i <= len,
            numbers@.len() == i as int,
            forall|k: int| 0 <= k < i as int ==> (#[trigger] numbers@[k]) == k,
        decreases len - i,
    {
        numbers.push(i);
        i = i + 1;
    }
    proof {
        assert(numbers@.no_duplicates());
    }
    let ghost before = numbers@;
    shuffle_indices(&mut numbers);
    proof {
        before.lemma_multiset_has_no_duplicates();
        numbers@.lemma_multiset_has_no_duplicates_conv();
        assert forall|k: int| 0 <= k < numbers@.len() implies (#[trigger] numbers@[k]) < len by {
            assert(numbers@.to_multiset().contains(numbers@[k])) by {
                numbers@.to_multiset_ensures();
            }
            assert(before.to_multiset().contains(numbers@[k]));
            assert(before.contains(numbers@[k])) by {
                before.to_multiset_ensures();
            }
            let j = choose|j: int| 0 <= j < before.len() && before[j] == numbers@[k];
        }
    }
    numbers
}

/// Redacts node attributes for a partial-observability experiment: a
/// uniformly random set of exactly `num_observed` positions keeps its
/// attribute, every other node's attribute becomes the unknown marker `-1`.
/// Node ids and order are untouched.
pub fn remove_attrs(nodes: Vec<AttrNode>, num_observed: usize) -> (r: Vec<AttrNode>)
    requires
        num_observed <= nodes@.len(),
    ensures
        r@.len() == nodes@.len(),
        forall|i: int| 0 <= i < r@.len() ==> (#[trigger] r@[i]).node_id == nodes@[i].node_id,
        forall|i: int|
            0 <= i < r@.len() ==> (#[trigger] r@[i]) == nodes@[i] || r@[i] == (AttrNode {
                node_id: nodes@[i].node_id,
                attr: -1i32,
            }),
        exists|kept: Set<int>|
            {
                &&& #[trigger] kept.finite()
                &&& kept.len() == num_observed as int
                &&& forall|i: int| kept.contains(i) ==> 0 <= i < nodes@.len()
                &&& forall|i: int|
                    0 <= i < nodes@.len() ==> #[trigger] r@[i] == if kept.contains(i) {
                        nodes@[i]
                    } else {
                        AttrNode { node_id: nodes@[i].node_id, attr: -1i32 }
                    }
            },
{
    let len = nodes.len();
    let numbers = shuffled_index_list(len);
    let ghost prefix = numbers@.subrange(0, num_observed as int);
    let ghost kept = prefix.map_values(|x: usize| x as int).to_set();
    proof {
        let mapped = prefix.map_values(|x: usize| x as int);
        assert(mapped.no_duplicates()) by {
            assert forall|a: int, b: int|
                0 <= a < mapped.len() && 0 <= b < mapped.len() && a != b implies mapped[a]
                != mapped[b] by {
                assert(numbers@[a] != numbers@[b]);
            }
        }
        mapped.unique_seq_to_set();
        assert(kept.len() == num_observed as int);
        assert forall|i: int| kept.contains(i) implies 0 <= i < nodes@.len() by {
            let k = choose|k: int| 0 <= k < mapped.len() && mapped[k] == i;
            assert(numbers@[k] < len);
        }
    }
    let mut r: Vec<AttrNode> = Vec::new();
    let mut i: usize = 0;
    while i < len
        invariant
            len == nodes@.len(),
            num_observed <= len,
            i <= len,
            r@.len() == i as int,
            numbers@.len() == len,
            numbers@.no_duplicates(),
            prefix == numbers@.subrange(0, num_observed as int),
            kept == prefix.map_values(|x: usize| x as int).to_set(),
            forall|j: int|
                0 <= j < i as int ==> #[trigger] r@[j] == if kept.contains(j) {
                    nodes@[j]
                } else {
                    AttrNode { node_id: nodes@[j].node_id, attr: -1i32 }
                },
        decreases len - i,
    {
        // is index i among the kept prefix?
        let mut hit = false;
        let mut k: usize = 0;
        while k < num_observed
            invariant
                num_observed <= numbers@.len(),
                k <= num_observed,
                prefix == numbers@.subrange(0, num_observed as int),
                kept == prefix.map_values(|x: usize| x as int).to_set(),
                hit ==> kept.contains(i as int),
                !hit ==> forall|m: int| 0 <= m < k as int ==> (#[trigger] numbers@[m]) != i,
            decreases num_observed - k,
        {
            if numbers[k] == i {
                hit = true;
                proof {
                    let mapped = prefix.map_values(|x: usize| x as int);
                    assert(mapped[k as int] == i as int);
                    assert(mapped.contains(i as int));
                }
            }
            k = k + 1;
        }
        proof {
            if !hit && kept.contains(i as int) {
                let mapped = prefix.map_values(|x: usize| x as int);
                let m = choose|m: int| 0 <= m < mapped.len() && mapped[m] == i as int;
                assert(numbers@[m] == i);
            }
        }
        let nd = nodes[i];
        if hit {
            r.push(nd);
        } else {
            r.push(AttrNode { node_id: nd.node_id, attr: -1i32 });
        }
        i = i + 1;
    }
    proof {
        assert(kept.finite());
    }
    r
}

/// Redacts edges for a partial-observability experiment: keeps a uniformly
/// random subset of exactly `num_observed` edges, in their original order.
pub fn remove_edges(edges: Vec<Edge>, num_observed: usize) -> (r: Vec<Edge>)
    requires
        num_observed <= edges@.len(),
    ensures
        r@.len() == num_observed,
        exists|keep: Seq<bool>|
            {
                &&& #[trigger] keep.len() == edges@.len()
                &&& count_true(keep, keep.len() as int) == num_observed as int
                &&& r@ == mask_filter(edges@, keep, keep.len() as int)
            },
{
    let len = edges.len();
    let numbers = shuffled_index_list(len);
    // build the keep mask from the first num_observed drawn indices
    let mut mask: Vec<bool> = Vec::new();
    let mut i: usize = 0;
    while i < len
        invariant
            i <= len,
            mask@.len() == i as int,
            forall|j: int| 0 <= j < i as int ==> !(#[trigger] mask@[j]),
        decreases len - i,
    {
        mask.push(false);
        i = i + 1;
    }
    proof {
        assert(count_true(mask@, len as int) == 0) by {
            lemma_count_true_zero(mask@, len as int);
        }
    }
    let mut k: usize = 0;
    while k < num_observed
        invariant
            len == edges@.len(),
            num_observed <= len,
            k <= num_observed,
            numbers@.len() == len,
            numbers@.no_duplicates(),
            forall|m: int| 0 <= m < numbers@.len() ==> (#[trigger] numbers@[m]) < len,
            mask@.len() == len,
            count_true(mask@, len as int) == k as int,
            forall|j: int|
                0 <= j < len ==> ((#[trigger] mask@[j]) <==> exists|m: int|
                    0 <= m < k as int && (#[trigger] numbers@[m]) == j as usize),
        decreases num_observed - k,
    {
        let idx = numbers[k];
        proof {
            assert(!mask@[idx as int]) by {
                if mask@[idx as int] {
                    let m = choose|m: int|
                        0 <= m < k as int && (#[trigger] numbers@[m]) == idx;
                    assert(numbers@[m] == numbers@[k as int]);
                }
            }
            lemma_count_true_update(mask@, idx as int, len as int);
        }
        let ghost mask_pre = mask@;
        mask.set(idx, true);
        proof {
            assert(mask@ == mask_pre.update(idx as int, true));
            assert forall|j: int|
                0 <= j < len implies ((#[trigger] mask@[j]) <==> exists|m: int|
                0 <= m < k + 1 && (#[trigger] numbers@[m]) == j as usize) by {
                if j == idx as int {
                    assert(numbers@[k as int] == idx);
                } else {
                    assert(mask@[j] == mask_pre[j]);
                }
            }
        }
        k = k + 1;
    }
    // filter by the mask
    let mut r: Vec<Edge> = Vec::new();
    let mut j: usize = 0;
    while j < len
        invariant
            len == edges@.len(),
            mask@.len() == len,
            j <= len,
            r@ == mask_filter(edges@, mask@, j as int),
            r@.len() == count_true(mask@, j as int),
        decreases len - j,
    {
        if mask[j] {
            let e = edges[j];
            r.push(e);
        }
        j = j + 1;
    }
    proof {
        lemma_count_true_bounds(mask@, len as int);
    }
    r
}

proof fn lemma_count_true_zero(s: Seq<bool>, upto: int)
    requires
        0 <= upto <= s.len(),
        forall|j: int| 0 <= j < s.len() ==> !(#[trigger] s[j]),
    ensures
        count_true(s, upto) == 0,
    decreases upto,
{
    if upto > 0 {
        lemma_count_true_zero(s, upto - 1);
    }
}

/// Sweeps a ranked label list (best score first, `true` marking a real
/// edge) and returns the ROC accumulation: point `k` holds the number of
/// true and false positives among the first `k` labels, starting from
/// `(0, 0)`, together with the two totals. Both coordinate sequences are
/// non-decreasing. Dividing the counts by the totals yields the
/// `(true positive rate, false positive rate)` curve.
pub fn roc(ranked: Vec<bool>) -> (r: (Vec<(u64, u64)>, u64, u64))
    ensures
        r.0@.len() == ranked@.len() + 1,
        r.0@[0] == (0u64, 0u64),
        forall|k: int|
            0 <= k <= ranked@.len() ==> (#[trigger] r.0@[k]) == (
                count_true(ranked@, k) as u64,
                (k - count_true(ranked@, k)) as u64,
            ),
        r.1 == count_true(ranked@, ranked@.len() as int),
        r.2 == ranked@.len() - count_true(ranked@, ranked@.len() as int),
        forall|k1: int, k2: int|
            0 <= k1 <= k2 <= ranked@.len() ==> (#[trigger] r.0@[k1]).0 <= (#[trigger] r.0@[k2]).0
                && r.0@[k1].1 <= r.0@[k2].1,
{
    let len = ranked.len();
    let mut curve: Vec<(u64, u64)> = Vec::new();
    curve.push((0u64, 0u64));
    let mut running_t: u64 = 0;
    let mut running_f: u64 = 0;
    let mut k: usize = 0;
    while k < len
        invariant
            len == ranked@.len(),
            k <= len,
            curve@.len() == k + 1,
            running_t == count_true(ranked@, k as int),
            running_f == k as int - count_true(ranked@, k as int),
            forall|m: int|
                0 <= m <= k as int ==> (#[trigger] curve@[m]) == (
                    count_true(ranked@, m) as u64,
                    (m - count_true(ranked@, m)) as u64,
                ),
        decreases len - k,
    {
        proof {
            lemma_count_true_bounds(ranked@, k as int);
        }
        if ranked[k] {
            running_t = running_t + 1;
        } else {
            running_f = running_f + 1;
        }
        curve.push((running_t, running_f));
        k = k + 1;
    }
    proof {
        assert forall|k1: int, k2: int|
            0 <= k1 <= k2 <= ranked@.len() implies (#[trigger] curve@[k1]).0 <= (
        #[trigger] curve@[k2]).0 && curve@[k1].1 <= curve@[k2].1 by {
            lemma_count_true_mono(ranked@, k1, k2);
            lemma_count_true_bounds(ranked@, k1);
            lemma_count_true_bounds(ranked@, k2);
            assert(curve@[k1] == (count_true(ranked@, k1) as u64, (k1 - count_true(
                ranked@,
                k1,
            )) as u64));
            assert(curve@[k2] == (count_true(ranked@, k2) as u64, (k2 - count_true(
                ranked@,
                k2,
            )) as u64));
        }
    }
    (curve, running_t, running_f)
}

proof fn lemma_count_true_mono(s: Seq<bool>, k1: int, k2: int)
    requires
        0 <= k1 <= k2 <= s.len(),
    ensures
        count_true(s, k1) <= count_true(s, k2),
        k1 - count_true(s, k1) <= k2 - count_true(s, k2),
    decreases k2 - k1,
{
    if k1 < k2 {
        lemma_count_true_mono(s, k1, k2 - 1);
    }
}


/// How many of `u`'s neighbors are also neighbors of `v`.
pub open spec fn jac_inter(g: SimpleNetwork<AttrNode>, u: u64, v: u64) -> int {
    SimpleNetwork::<AttrNode>::inter_count(g.adj_at(g.pos_of(u)), g.nbrs(v), g.degree(u))
}

/// The size of the union of the two neighbor sets.
pub open spec fn jac_union(g: SimpleNetwork<AttrNode>, u: u64, v: u64) -> int {
    g.degree(u) + g.degree(v) - jac_inter(g, u, v)
}

proof fn lemma_inter_count_bounds(a: Seq<u64>, bset: Set<u64>, upto: int)
    requires
        0 <= upto,
    ensures
        0 <= SimpleNetwork::<AttrNode>::inter_count(a, bset, upto) <= upto,
    decreases upto,
{
    if upto > 0 {
        lemma_inter_count_bounds(a, bset, upto - 1);
    }
}

proof fn lemma_inter_count_drop(a: Seq<u64>, bset: Set<u64>, x: u64, upto: int)
    requires
        forall|k: int| 0 <= k < upto ==> a[k] != x,
    ensures
        SimpleNetwork::<AttrNode>::inter_count(a, bset.remove(x), upto)
            == SimpleNetwork::<AttrNode>::inter_count(a, bset, upto),
    decreases upto,
{
    if upto > 0 {
        lemma_inter_count_drop(a, bset, x, upto - 1);
    }
}

proof fn lemma_inter_count_le_set(a: Seq<u64>, bset: Set<u64>, upto: int)
    requires
        0 <= upto <= a.len(),
        a.no_duplicates(),
        bset.finite(),
    ensures
        SimpleNetwork::<AttrNode>::inter_count(a, bset, upto) <= bset.len(),
    decreases upto,
{
    if upto > 0 {
        let x = a[upto - 1];
        if bset.contains(x) {
            assert(forall|k: int| 0 <= k < upto - 1 ==> a[k] != x);
            lemma_inter_count_drop(a, bset, x, upto - 1);
            lemma_inter_count_le_set(a, bset.remove(x), upto - 1);
        } else {
            lemma_inter_count_le_set(a, bset, upto - 1);
        }
    }
}

/// The size of the union of two finite sets is the sum of their sizes less
/// the size of their intersection.
proof fn lemma_inclusion_exclusion(a: Set<u64>, b: Set<u64>)
    requires
        a.finite(),
        b.finite(),
    ensures
        a.union(b).len() == a.len() + b.len() - a.intersect(b).len(),
{
    let i = a.intersect(b);
    let da = a.difference(b);
    let db = b.difference(a);
    vstd::set_lib::lemma_len_subset(i, a);
    vstd::set_lib::lemma_len_subset(da, a);
    vstd::set_lib::lemma_len_subset(db, b);
    assert(a =~= i + da);
    assert(i.disjoint(da));
    vstd::set_lib::lemma_set_disjoint_lens(i, da);
    assert(a.union(b) =~= (i + da) + db);
    assert((i + da).disjoint(db));
    vstd::set_lib::lemma_set_disjoint_lens(i + da, db);
    assert(b =~= i + db);
    assert(i.disjoint(db));
    vstd::set_lib::lemma_set_disjoint_lens(i, db);
}

/// The running intersection count equals the cardinality of the
/// intersection of the counted prefix (as a set) with `bset`.
proof fn lemma_inter_count_is_set(a: Seq<u64>, bset: Set<u64>, upto: int)
    requires
        0 <= upto <= a.len(),
        a.no_duplicates(),
        bset.finite(),
    ensures
        SimpleNetwork::<AttrNode>::inter_count(a, bset, upto) == a.subrange(
            0,
            upto,
        ).to_set().intersect(bset).len(),
    decreases upto,
{
    broadcast use vstd::seq_lib::group_seq_lib_default;

    if upto == 0 {
        assert(a.subrange(0, 0).to_set().intersect(bset) =~= Set::<u64>::empty());
    } else {
        lemma_inter_count_is_set(a, bset, upto - 1);
        let x = a[upto - 1];
        let pre = a.subrange(0, upto - 1);
        let cur = a.subrange(0, upto);
        assert(cur =~= pre.push(x));
        crate::network::lemma_to_set_push(pre, x);
        assert(cur.to_set() == pre.to_set().insert(x));
        assert(!pre.to_set().contains(x)) by {
            if pre.contains(x) {
                let k = choose|k: int| 0 <= k < pre.len() && pre[k] == x;
                assert(a[k] == a[upto - 1]);
            }
        }
        pre.lemma_cardinality_of_set();
        vstd::set_lib::lemma_len_subset(pre.to_set().intersect(bset), pre.to_set());
        if bset.contains(x) {
            assert(cur.to_set().intersect(bset) =~= pre.to_set().intersect(bset).insert(x));
            assert(!pre.to_set().intersect(bset).contains(x));
        } else {
            assert(cur.to_set().intersect(bset) =~= pre.to_set().intersect(bset));
        }
    }
}

/// The raw Jaccard similarity lies in the unit interval: the reported
/// counts are exactly the cardinalities of the intersection and the union
/// of the two neighbor sets, and the first never exceeds the second.
pub proof fn lemma_jaccard_bounds(g: SimpleNetwork<AttrNode>, u: u64, v: u64)
    requires
        g.wf(),
        g.id_set().contains(u),
        g.id_set().contains(v),
    ensures
        0 <= jac_inter(g, u, v) <= jac_union(g, u, v),
        jac_inter(g, u, v) == g.nbrs(u).intersect(g.nbrs(v)).len(),
        jac_union(g, u, v) == g.nbrs(u).union(g.nbrs(v)).len(),
{
    let iu = g.pos_of(u);
    let iv = g.pos_of(v);
    assert(g.ids().contains(u) && g.ids().contains(v));
    g.lemma_pos_of(iu);
    g.lemma_pos_of(iv);
    lemma_inter_count_bounds(g.adj_at(iu), g.nbrs(v), g.degree(u));
    g.adj_at(iv).unique_seq_to_set();
    assert(g.nbrs(v).finite()) by {
        g.adj_at(iv).lemma_cardinality_of_set();
    }
    assert(g.nbrs(v).len() == g.degree(v));
    lemma_inter_count_le_set(g.adj_at(iu), g.nbrs(v), g.degree(u));
    // the counts are the set cardinalities
    g.adj_at(iu).unique_seq_to_set();
    assert(g.nbrs(u).finite() && g.nbrs(u).len() == g.degree(u)) by {
        g.adj_at(iu).lemma_cardinality_of_set();
    }
    lemma_inter_count_is_set(g.adj_at(iu), g.nbrs(v), g.degree(u));
    assert(g.adj_at(iu).subrange(0, g.degree(u)) =~= g.adj_at(iu));
    assert(jac_inter(g, u, v) == g.nbrs(u).intersect(g.nbrs(v)).len());
    lemma_inclusion_exclusion(g.nbrs(u), g.nbrs(v));
}

/// Jaccard similarity scores for every non-adjacent pair of nodes: each
/// pair is listed with the size of the intersection and of the union of
/// the two neighbor sets (the raw score is their ratio, 0 when the union is
/// empty). The intersection never exceeds the union.
pub fn jaccard_scores(network: SimpleNetwork<AttrNode>) -> (r: Vec<((u64, u64), (u64, u64))>)
    requires
        network.wf(),
    ensures
        forall|k: int|
            0 <= k < r@.len() ==> {
                let e = #[trigger] r@[k];
                &&& network.id_set().contains(e.0.0)
                &&& network.id_set().contains(e.0.1)
                &&& e.0.0 != e.0.1
                &&& !network.has_edge(e.0.0, e.0.1)
                &&& e.1.0 == jac_inter(network, e.0.0, e.0.1)
                &&& e.1.1 == jac_union(network, e.0.0, e.0.1)
                &&& e.1.0 <= e.1.1
            },
        forall|i: int, j: int|
            #![trigger network.ids()[i], network.ids()[j]]
            0 <= i < j < network.n() && !network.has_edge(network.ids()[i], network.ids()[j])
                ==> exists|k: int|
                0 <= k < r@.len() && (#[trigger] r@[k]).0 == (network.ids()[i], network.ids()[j]),
{
    let pairs = network.get_nonedges();
    let np = pairs.len();
    let mut r: Vec<((u64, u64), (u64, u64))> = Vec::new();
    let mut k: usize = 0;
    while k < np
        invariant
            network.wf(),
            np == pairs@.len(),
            k <= np,
            r@.len() == k as int,
            forall|m: int|
                0 <= m < pairs@.len() ==> {
                    let p = #[trigger] pairs@[m];
                    &&& network.id_set().contains(p.0)
                    &&& network.id_set().contains(p.1)
                    &&& p.0 != p.1
                    &&& !network.has_edge(p.0, p.1)
                },
            forall|m: int| 0 <= m < k as int ==> (#[trigger] r@[m]).0 == pairs@[m],
            forall|m: int|
                0 <= m < k as int ==> {
                    let e = #[trigger] r@[m];
                    &&& e.1.0 == jac_inter(network, e.0.0, e.0.1)
                    &&& e.1.1 == jac_union(network, e.0.0, e.0.1)
                    &&& e.1.0 <= e.1.1
                },
        decreases np - k,
    {
        let p = pairs[k];
        let u = p.0;
        let v = p.1;
        let iu = match network.find_index(u) {
            Some(i) => i,
            None => {
                proof {
                    assert(false);
                }
                0
            },
        };
        let iv = match network.find_index(v) {
            Some(i) => i,
            None => {
                proof {
                    assert(false);
                }
                0
            },
        };
        proof {
            network.lemma_pos_of(iu as int);
            network.lemma_pos_of(iv as int);
        }
        let rowu = crate::network::row_ref(&network.adjacencies, iu);
        let rowv = crate::network::row_ref(&network.adjacencies, iv);
        let du = rowu.len();
        let dv = rowv.len();
        let mut inter: u64 = 0;
        let mut m: usize = 0;
        while m < du
            invariant
                network.wf(),
                iu < network.nodes@.len(),
                iv < network.nodes@.len(),
                *rowu == network.adjacencies@[iu as int],
                *rowv == network.adjacencies@[iv as int],
                network.ids()[iu as int] == u,
                network.ids()[iv as int] == v,
                network.nbrs(v) == network.adj_at(iv as int).to_set(),
                du == rowu@.len(),
                m <= du,
                inter == SimpleNetwork::<AttrNode>::inter_count(
                    network.adj_at(iu as int),
                    network.nbrs(v),
                    m as int,
                ),
                inter <= m,
            decreases du - m,
        {
            if crate::network::vec_contains(rowv, rowu[m]) {
                proof {
                    assert(network.nbrs(v).contains(network.adj_at(iu as int)[m as int]));
                }
                inter = inter + 1;
            } else {
                proof {
                    assert(!network.nbrs(v).contains(network.adj_at(iu as int)[m as int]));
                }
            }
            m = m + 1;
        }
        proof {
            network.lemma_row_bound(iu as int);
            network.lemma_row_bound(iv as int);
            lemma_jaccard_bounds(network, u, v);
            assert(network.degree(u) == du && network.degree(v) == dv);
            assert(inter == jac_inter(network, u, v));
        }
        let uni = du as u64 + dv as u64 - inter;
        r.push(((u, v), (inter, uni)));
        k = k + 1;
    }
    proof {
        assert forall|i: int, j: int|
            #![trigger network.ids()[i], network.ids()[j]]
            0 <= i < j < network.n() && !network.has_edge(
                network.ids()[i],
                network.ids()[j],
            ) implies exists|k2: int|
            0 <= k2 < r@.len() && (#[trigger] r@[k2]).0 == (
            network.ids()[i],
            network.ids()[j],
            ) by {
            assert(network.nonedge_listed(pairs@, i, j));
            let m = choose|m: int|
                0 <= m < pairs@.len() && #[trigger] pairs@[m] == (
                network.ids()[i],
                network.ids()[j],
                );
            assert(r@[m].0 == pairs@[m]);
        }
    }
    r
}

/// Degree-product scores for every non-adjacent pair of nodes.
pub fn dp_scores(network: SimpleNetwork<AttrNode>) -> (r: Vec<((u64, u64), u64)>)
    requires
        network.wf(),
    ensures
        forall|k: int|
            0 <= k < r@.len() ==> {
                let e = #[trigger] r@[k];
                &&& network.id_set().contains(e.0.0)
                &&& network.id_set().contains(e.0.1)
                &&& e.0.0 != e.0.1
                &&& !network.has_edge(e.0.0, e.0.1)
                &&& e.1 == network.degree(e.0.0) * network.degree(e.0.1)
            },
        forall|i: int, j: int|
            #![trigger network.ids()[i], network.ids()[j]]
            0 <= i < j < network.n() && !network.has_edge(network.ids()[i], network.ids()[j])
                ==> exists|k: int|
                0 <= k < r@.len() && (#[trigger] r@[k]).0 == (network.ids()[i], network.ids()[j]),
{
    let pairs = network.get_nonedges();
    let np = pairs.len();
    let mut r: Vec<((u64, u64), u64)> = Vec::new();
    let mut k: usize = 0;
    while k < np
        invariant
            network.wf(),
            np == pairs@.len(),
            k <= np,
            r@.len() == k as int,
            forall|m: int|
                0 <= m < pairs@.len() ==> {
                    let p = #[trigger] pairs@[m];
                    &&& network.id_set().contains(p.0)
                    &&& network.id_set().contains(p.1)
                    &&& p.0 != p.1
                    &&& !network.has_edge(p.0, p.1)
                },
            forall|m: int| 0 <= m < k as int ==> (#[trigger] r@[m]).0 == pairs@[m],
            forall|m: int|
                0 <= m < k as int ==> (#[trigger] r@[m]).1 == network.degree(r@[m].0.0)
                    * network.degree(r@[m].0.1),
        decreases np - k,
    {
        let p = pairs[k];
        let u = p.0;
        let v = p.1;
        let iu = match network.find_index(u) {
            Some(i) => i,
            None => {
                proof {
                    assert(false);
                }
                0
            },
        };
        let iv = match network.find_index(v) {
            Some(i) => i,
            None => {
                proof {
                    assert(false);
                }
                0
            },
        };
        proof {
            network.lemma_pos_of(iu as int);
            network.lemma_pos_of(iv as int);
            network.lemma_row_bound(iu as int);
            network.lemma_row_bound(iv as int);
        }
        let rowu = crate::network::row_ref(&network.adjacencies, iu);
        let rowv = crate::network::row_ref(&network.adjacencies, iv);
        let du = rowu.len() as u64;
        let dv = rowv.len() as u64;
        proof {
            assert(du * dv <= 0xFFFF_FFFFi128 * 0xFFFF_FFFFi128) by (nonlinear_arith)
                requires
                    0 <= du <= 0xFFFF_FFFF,
                    0 <= dv <= 0xFFFF_FFFF,
            ;
        }
        r.push(((u, v), du * dv));
        k = k + 1;
    }
    proof {
        assert forall|i: int, j: int|
            #![trigger network.ids()[i], network.ids()[j]]
            0 <= i < j < network.n() && !network.has_edge(
                network.ids()[i],
                network.ids()[j],
            ) implies exists|k2: int|
            0 <= k2 < r@.len() && (#[trigger] r@[k2]).0 == (
            network.ids()[i],
            network.ids()[j],
            ) by {
            assert(network.nonedge_listed(pairs@, i, j));
            let m = choose|m: int|
                0 <= m < pairs@.len() && #[trigger] pairs@[m] == (
                network.ids()[i],
                network.ids()[j],
                );
            assert(r@[m].0 == pairs@[m]);
        }
    }
    r
}

/// Shortest-path scores for every non-adjacent pair of nodes: the geodesic
/// distance between the two, or `-1` when they are disconnected (the raw
/// score is the reciprocal of the distance, 0 when disconnected).
pub fn sp_scores(network: SimpleNetwork<AttrNode>) -> (r: Vec<((u64, u64), i64)>)
    requires
        network.wf(),
    ensures
        forall|k: int|
            0 <= k < r@.len() ==> {
                let e = #[trigger] r@[k];
                &&& network.id_set().contains(e.0.0)
                &&& network.id_set().contains(e.0.1)
                &&& e.0.0 != e.0.1
                &&& !network.has_edge(e.0.0, e.0.1)
                &&& (if network.reachable(e.0.0, e.0.1) {
                    e.1 >= 0 && network.is_dist(e.0.0, e.0.1, e.1 as int)
                } else {
                    e.1 == -1
                })
            },
        forall|i: int, j: int|
            #![trigger network.ids()[i], network.ids()[j]]
            0 <= i < j < network.n() && !network.has_edge(network.ids()[i], network.ids()[j])
                ==> exists|k: int|
                0 <= k < r@.len() && (#[trigger] r@[k]).0 == (network.ids()[i], network.ids()[j]),
{
    let pairs = network.get_nonedges();
    let paths = network.apsp();
    let np = pairs.len();
    let mut r: Vec<((u64, u64), i64)> = Vec::new();
    let mut k: usize = 0;
    while k < np
        invariant
            network.wf(),
            np == pairs@.len(),
            k <= np,
            r@.len() == k as int,
            paths@.len() == network.n(),
            forall|a: int| 0 <= a < network.n() ==> (#[trigger] paths@[a])@.len() == network.n(),
            forall|a: int, b: int|
                #![trigger paths@[a], network.ids()[b]]
                0 <= a < network.n() && 0 <= b < network.n() ==> {
                    let d = paths@[a]@[b];
                    if network.reachable(network.ids()[a], network.ids()[b]) {
                        d >= 0 && network.is_dist(network.ids()[a], network.ids()[b], d as int)
                    } else {
                        d == -1
                    }
                },
            forall|m: int|
                0 <= m < pairs@.len() ==> {
                    let p = #[trigger] pairs@[m];
                    &&& network.id_set().contains(p.0)
                    &&& network.id_set().contains(p.1)
                    &&& p.0 != p.1
                    &&& !network.has_edge(p.0, p.1)
                },
            forall|m: int| 0 <= m < k as int ==> (#[trigger] r@[m]).0 == pairs@[m],
            forall|m: int|
                0 <= m < k as int ==> {
                    let e = #[trigger] r@[m];
                    if network.reachable(e.0.0, e.0.1) {
                        e.1 >= 0 && network.is_dist(e.0.0, e.0.1, e.1 as int)
                    } else {
                        e.1 == -1
                    }
                },
        decreases np - k,
    {
        let p = pairs[k];
        let u = p.0;
        let v = p.1;
        let iu = match network.find_index(u) {
            Some(i) => i,
            None => {
                proof {
                    assert(false);
                }
                0
            },
        };
        let iv = match network.find_index(v) {
            Some(i) => i,
            None => {
                proof {
                    assert(false);
                }
                0
            },
        };
        let d = crate::network::row_ref64(&paths, iu)[iv];
        proof {
            assert(paths@[iu as int]@[iv as int] == d);
            assert(network.ids()[iu as int] == u && network.ids()[iv as int] == v);
        }
        r.push(((u, v), d));
        k = k + 1;
    }
    proof {
        assert forall|i: int, j: int|
            #![trigger network.ids()[i], network.ids()[j]]
            0 <= i < j < network.n() && !network.has_edge(
                network.ids()[i],
                network.ids()[j],
            ) implies exists|k2: int|
            0 <= k2 < r@.len() && (#[trigger] r@[k2]).0 == (
            network.ids()[i],
            network.ids()[j],
            ) by {
            assert(network.nonedge_listed(pairs@, i, j));
            let m = choose|m: int|
                0 <= m < pairs@.len() && #[trigger] pairs@[m] == (
                network.ids()[i],
                network.ids()[j],
                );
            assert(r@[m].0 == pairs@[m]);
        }
    }
    r
}


/// The position of attribute `a` in a tally list, if any.
fn find_key(counts: &Vec<(i32, u64)>, a: i32) -> (r: Option<usize>)
    ensures
        match r {
            Some(m) => m < counts@.len() && counts@[m as int].0 == a,
            None => forall|m: int| 0 <= m < counts@.len() ==> (#[trigger] counts@[m]).0 != a,
        },
{
    let n = counts.len();
    let mut m: usize = 0;
    while m < n
        invariant
            m <= n,
            n == counts@.len(),
            forall|m2: int| 0 <= m2 < m as int ==> (#[trigger] counts@[m2]).0 != a,
        decreases n - m,
    {
        if counts[m].0 == a {
            return Some(m);
        }
        m = m + 1;
    }
    None
}

/// The attribute of the node with the given id.
pub open spec fn attr_of(g: SimpleNetwork<AttrNode>, id: u64) -> i32 {
    g.nodes@[g.pos_of(id)].attr
}

/// How many of the first `upto` neighbors of node `i` carry attribute `a`.
pub open spec fn attr_count(g: SimpleNetwork<AttrNode>, i: int, upto: int, a: i32) -> int
    decreases upto,
{
    if upto <= 0 {
        0
    } else {
        attr_count(g, i, upto - 1, a) + if attr_of(g, g.adj_at(i)[upto - 1]) == a {
            1int
        } else {
            0int
        }
    }
}

/// What `infer_attrs` promises of the entry it produces for node `i`: known
/// attributes are kept; a redacted node receives a most common attribute
/// among its labeled neighbors, or a baseline attribute when it has none.
pub open spec fn good_guess(
    g: SimpleNetwork<AttrNode>,
    baseline: Seq<i32>,
    i: int,
    out: AttrNode,
) -> bool {
    let orig = g.nodes@[i];
    let deg = g.adj_at(i).len() as int;
    &&& out.node_id == orig.node_id
    &&& if orig.attr != -1 {
        out == orig
    } else {
        if exists|b: i32| b >= 0 && #[trigger] attr_count(g, i, deg, b) >= 1 {
            &&& out.attr >= 0
            &&& attr_count(g, i, deg, out.attr) >= 1
            &&& forall|b: i32|
                b >= 0 ==> #[trigger] attr_count(g, i, deg, b) <= attr_count(g, i, deg, out.attr)
        } else {
            baseline.contains(out.attr)
        }
    }
}

/// Fills in redacted attributes by majority vote among each node's labeled
/// neighbors (ties broken uniformly at random); a redacted node with no
/// labeled neighbor draws from the given baseline attribute pool.
#[verifier::rlimit(100)]
pub fn infer_attrs(network: SimpleNetwork<AttrNode>, baseline: Vec<i32>) -> (r: Vec<AttrNode>)
    requires
        network.wf(),
        baseline@.len() > 0,
    ensures
        r@.len() == network.nodes@.len(),
        forall|i: int|
            0 <= i < r@.len() ==> good_guess(network, baseline@, i, #[trigger] r@[i]),
{
    let n = network.nodes.len();
    let mut r: Vec<AttrNode> = Vec::new();
    let mut i: usize = 0;
    while i < n
        invariant
            network.wf(),
            baseline@.len() > 0,
            n == network.nodes@.len(),
            i <= n,
            r@.len() == i as int,
            forall|j: int|
                0 <= j < i as int ==> good_guess(network, baseline@, j, #[trigger] r@[j]),
        decreases n - i,
    {
        let nd = network.nodes[i];
        if nd.attr != -1 {
            r.push(nd);
        } else {
            let row = crate::network::row_ref(&network.adjacencies, i);
            let deg = row.len();
            // tally the labeled neighbors' attributes
            let mut counts: Vec<(i32, u64)> = Vec::new();
            let mut k: usize = 0;
            while k < deg
                invariant
                    network.wf(),
                    i < n,
                    n == network.nodes@.len(),
                    *row == network.adjacencies@[i as int],
                    deg == row@.len(),
                    k <= deg,
                    forall|m1: int, m2: int|
                        0 <= m1 < counts@.len() && 0 <= m2 < counts@.len() && m1 != m2 ==> (
                        #[trigger] counts@[m1]).0 != (#[trigger] counts@[m2]).0,
                    forall|m: int|
                        0 <= m < counts@.len() ==> {
                            let e = #[trigger] counts@[m];
                            &&& e.0 >= 0
                            &&& e.1 == attr_count(network, i as int, k as int, e.0)
                            &&& 1 <= e.1 <= k as int
                        },
                    forall|b: i32|
                        b >= 0 && #[trigger] attr_count(network, i as int, k as int, b) >= 1
                            ==> exists|m: int|
                            0 <= m < counts@.len() && (#[trigger] counts@[m]).0 == b,
                decreases deg - k,
            {
                let v = row[k];
                proof {
                    assert(network.adj_at(i as int).contains(v));
                    assert(network.id_set().contains(v));
                }
                let vi = match network.find_index(v) {
                    Some(vi) => vi,
                    None => {
                        proof {
                            assert(false);
                        }
                        0
                    },
                };
                proof {
                    network.lemma_pos_of(vi as int);
                    assert(attr_of(network, v) == network.nodes@[vi as int].attr);
                }
                let av = network.nodes[vi].attr;
                let ghost counts_pre = counts@;
                proof {
                    assert(network.adj_at(i as int)[k as int] == v);
                    assert(attr_of(network, network.adj_at(i as int)[k as int]) == av);
                }
                if av >= 0 {
                    // bump an existing tally or start a new one
                    match find_key(&counts, av) {
                        Some(m) => {
                            let c = counts[m].1;
                            proof {
                                assert(counts@[m as int].0 == av);
                                assert(c <= k);
                            }
                            counts.set(m, (av, c + 1));
                            proof {
                                assert(counts@ == counts_pre.update(
                                    m as int,
                                    (av, (c + 1) as u64),
                                ));
                                assert(counts@[m as int].0 == av);
                                assert forall|m2: int| 0 <= m2 < counts@.len() implies {
                                    let e = #[trigger] counts@[m2];
                                    &&& e.0 >= 0
                                    &&& e.1 == attr_count(network, i as int, (k + 1) as int, e.0)
                                    &&& 1 <= e.1 <= (k + 1) as int
                                } by {
                                    if m2 == m as int {
                                        assert(counts_pre[m2].1 == attr_count(
                                            network,
                                            i as int,
                                            k as int,
                                            av,
                                        ));
                                    } else {
                                        assert(counts@[m2] == counts_pre[m2]);
                                        assert(counts_pre[m2].0 != av);
                                    }
                                }
                            }
                        },
                        None => {
                            proof {
                                lemma_attr_count_nonneg(network, i as int, k as int, av);
                                assert(attr_count(network, i as int, k as int, av) == 0) by {
                                    if attr_count(network, i as int, k as int, av) >= 1 {
                                        let m2 = choose|m2: int|
                                            0 <= m2 < counts_pre.len() && (
                                            #[trigger] counts_pre[m2]).0 == av;
                                    }
                                }
                            }
                            counts.push((av, 1u64));
                            proof {
                                assert(counts@ == counts_pre.push((av, 1u64)));
                                assert(counts@[counts_pre.len() as int].0 == av);
                                assert forall|m2: int| 0 <= m2 < counts@.len() implies {
                                    let e = #[trigger] counts@[m2];
                                    &&& e.0 >= 0
                                    &&& e.1 == attr_count(network, i as int, (k + 1) as int, e.0)
                                    &&& 1 <= e.1 <= (k + 1) as int
                                } by {
                                    if m2 < counts_pre.len() {
                                        assert(counts@[m2] == counts_pre[m2]);
                                        assert(counts_pre[m2].0 != av);
                                    }
                                }
                            }
                        },
                    }
                } else {
                    proof {
                        assert forall|m2: int| 0 <= m2 < counts@.len() implies {
                            let e = #[trigger] counts@[m2];
                            &&& e.0 >= 0
                            &&& e.1 == attr_count(network, i as int, (k + 1) as int, e.0)
                            &&& 1 <= e.1 <= (k + 1) as int
                        } by {
                            assert(counts@[m2].0 != av);
                        }
                    }
                }
                proof {
                    assert forall|b: i32|
                        b >= 0 && #[trigger] attr_count(network, i as int, (k + 1) as int, b)
                            >= 1 implies exists|m2: int|
                        0 <= m2 < counts@.len() && (#[trigger] counts@[m2]).0 == b by {
                        if b == av && av >= 0 {
                            assert(exists|m2: int|
                                0 <= m2 < counts@.len() && (#[trigger] counts@[m2]).0 == av);
                        } else {
                            assert(attr_count(network, i as int, k as int, b) >= 1);
                            let m2 = choose|m2: int|
                                0 <= m2 < counts_pre.len() && (#[trigger] counts_pre[m2]).0 == b;
                            assert(counts@[m2].0 == b);
                        }
                    }
                }
                k = k + 1;
            }
            if counts.len() == 0 {
                // no labeled neighbor: draw from the baseline pool
                let bi = rand_index(baseline.len());
                let battr = baseline[bi];
                proof {
                    assert(baseline@.contains(battr));
                    assert forall|b: i32|
                        !(b >= 0 && #[trigger] attr_count(
                            network,
                            i as int,
                            network.adj_at(i as int).len() as int,
                            b,
                        ) >= 1) by {
                        if b >= 0 && attr_count(
                            network,
                            i as int,
                            network.adj_at(i as int).len() as int,
                            b,
                        ) >= 1 {
                            let m = choose|m: int|
                                0 <= m < counts@.len() && (#[trigger] counts@[m]).0 == b;
                        }
                    }
                }
                r.push(AttrNode { node_id: nd.node_id, attr: battr });
            } else {
                // the highest tally
                let mut bc: u64 = 0;
                let mut m: usize = 0;
                while m < counts.len()
                    invariant
                        m <= counts@.len(),
                        forall|m2: int| 0 <= m2 < m as int ==> (#[trigger] counts@[m2]).1 <= bc,
                        bc == 0 || exists|m2: int|
                            0 <= m2 < m as int && (#[trigger] counts@[m2]).1 == bc,
                    decreases counts@.len() - m,
                {
                    if counts[m].1 > bc {
                        bc = counts[m].1;
                    }
                    m = m + 1;
                }
                proof {
                    assert(counts@[0].1 >= 1);
                    assert(bc >= 1);
                }
                // all attributes achieving it
                let mut cands: Vec<i32> = Vec::new();
                let mut m2: usize = 0;
                while m2 < counts.len()
                    invariant
                        m2 <= counts@.len(),
                        forall|m3: int|
                            #![trigger cands@[m3]]
                            0 <= m3 < cands@.len() ==> exists|m4: int|
                                0 <= m4 < counts@.len() && (#[trigger] counts@[m4]) == (
                                cands@[m3],
                                bc,
                                ),
                        forall|m4: int|
                            0 <= m4 < m2 as int && (#[trigger] counts@[m4]).1 == bc
                                ==> cands@.contains(counts@[m4].0),
                    decreases counts@.len() - m2,
                {
                    if counts[m2].1 == bc {
                        let ghost cands_pre = cands@;
                        let a = counts[m2].0;
                        cands.push(a);
                        proof {
                            assert(cands@ == cands_pre.push(a));
                            assert(cands@[cands_pre.len() as int] == a);
                            assert forall|m4: int|
                                0 <= m4 < m2 + 1 && (#[trigger] counts@[m4]).1
                                    == bc implies cands@.contains(counts@[m4].0) by {
                                if m4 < m2 as int {
                                    assert(cands_pre.contains(counts@[m4].0));
                                    let m5 = choose|m5: int|
                                        0 <= m5 < cands_pre.len() && cands_pre[m5]
                                            == counts@[m4].0;
                                    assert(cands@[m5] == counts@[m4].0);
                                }
                            }
                        }
                    }
                    m2 = m2 + 1;
                }
                proof {
                    let m4 = choose|m4: int|
                        0 <= m4 < counts@.len() && (#[trigger] counts@[m4]).1 == bc;
                    assert(cands@.contains(counts@[m4].0));
                    assert(cands@.len() >= 1);
                }
                let ci = rand_index(cands.len());
                let guess = cands[ci];
                proof {
                    let dgi = network.adj_at(i as int).len() as int;
                    let m4 = choose|m4: int|
                        0 <= m4 < counts@.len() && (#[trigger] counts@[m4]) == (guess, bc);
                    assert(guess >= 0);
                    assert(attr_count(network, i as int, dgi, guess) == bc);
                    assert forall|b: i32| b >= 0 implies #[trigger] attr_count(
                        network,
                        i as int,
                        dgi,
                        b,
                    ) <= attr_count(network, i as int, dgi, guess) by {
                        if attr_count(network, i as int, dgi, b) >= 1 {
                            let m5 = choose|m5: int|
                                0 <= m5 < counts@.len() && (#[trigger] counts@[m5]).0 == b;
                            assert(counts@[m5].1 <= bc);
                        } else {
                            lemma_attr_count_nonneg(network, i as int, dgi, b);
                        }
                    }
                }
                r.push(AttrNode { node_id: nd.node_id, attr: guess });
            }
        }
        proof {
            assert(good_guess(network, baseline@, i as int, r@[i as int]));
        }
        i = i + 1;
    }
    r
}

proof fn lemma_attr_count_nonneg(g: SimpleNetwork<AttrNode>, i: int, upto: int, a: i32)
    ensures
        attr_count(g, i, upto, a) >= 0,
    decreases upto,
{
    if upto > 0 {
        lemma_attr_count_nonneg(g, i, upto - 1, a);
    }
}

} // verus!
