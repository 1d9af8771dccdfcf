//! A simple undirected network stored as adjacency lists, with the
//! invariants of a simple graph: adjacency is symmetric, has no self-loops
//! and no parallel edges, and `total_edges` always equals the sum of the
//! adjacency-list lengths (each undirected edge counted once per direction).

use vstd::prelude::*;

use crate::node::Node;
use crate::records::Adjacency;
use crate::sampling::rand_index;

verus! {

broadcast use vstd::std_specs::hash::group_hash_axioms;

/// The ways an edge operation can fail.
#[derive(Clone, Copy, Debug, PartialEq, Eq, Structural)]
pub enum NetError {
    /// An edge operation referenced an id absent from the graph.
    NodeNotFound,
    /// An edge operation tried to connect a node to itself.
    SelfLoop,
    /// A randomized rewiring found no acceptable candidate within its
    /// iteration budget.
    NoValidSwapFound,
}

/// A simple network, represented as an adjacency list.
///
/// `nodes[i]` owns the neighbor-id list `adjacencies[i]`; `total_edges`
/// counts directed adjacency entries, so each undirected edge contributes 2.
#[derive(Debug, Clone)]
pub struct SimpleNetwork<N: Node> {
    pub nodes: Vec<N>,
    pub adjacencies: Vec<Vec<u64>>,
    pub total_edges: u64,
}

/// Sum of the lengths of a sequence of adjacency rows.
pub open spec fn adj_len_sum(rows: Seq<Vec<u64>>) -> int
    decreases rows.len(),
{
    if rows.len() == 0 {
        0
    } else {
        adj_len_sum(rows.drop_last()) + rows.last()@.len()
    }
}

proof fn lemma_adj_len_sum_nonneg(rows: Seq<Vec<u64>>)
    ensures
        adj_len_sum(rows) >= 0,
    decreases rows.len(),
{
    if rows.len() > 0 {
        lemma_adj_len_sum_nonneg(rows.drop_last());
    }
}

proof fn lemma_adj_len_sum_update(rows: Seq<Vec<u64>>, i: int, v: Vec<u64>)
    requires
        0 <= i < rows.len(),
    ensures
        adj_len_sum(rows.update(i, v)) == adj_len_sum(rows) - rows[i]@.len() + v@.len(),
    decreases rows.len(),
{
    let updated = rows.update(i, v);
    if i == rows.len() - 1 {
        assert(updated.drop_last() =~= rows.drop_last());
    } else {
        assert(updated.drop_last() =~= rows.drop_last().update(i, v));
        lemma_adj_len_sum_update(rows.drop_last(), i, v);
    }
}

proof fn lemma_adj_len_sum_bound(rows: Seq<Vec<u64>>, b: int)
    requires
        forall|i: int| 0 <= i < rows.len() ==> (#[trigger] rows[i])@.len() <= b,
    ensures
        adj_len_sum(rows) <= rows.len() * b,
    decreases rows.len(),
{
    if rows.len() > 0 {
        lemma_adj_len_sum_bound(rows.drop_last(), b);
        assert(adj_len_sum(rows) <= (rows.len() - 1) * b + b) by {
            assert(rows.last()@.len() <= b);
        }
        assert((rows.len() - 1) * b + b == rows.len() * b) by (nonlinear_arith);
    }
}

proof fn lemma_adj_len_sum_single(rows: Seq<Vec<u64>>, i: int)
    requires
        0 <= i < rows.len(),
    ensures
        adj_len_sum(rows) >= rows[i]@.len(),
    decreases rows.len(),
{
    if i == rows.len() - 1 {
        lemma_adj_len_sum_nonneg(rows.drop_last());
    } else {
        lemma_adj_len_sum_single(rows.drop_last(), i);
    }
}

proof fn lemma_adj_len_sum_pair(rows: Seq<Vec<u64>>, i: int, j: int)
    requires
        0 <= i < j < rows.len(),
    ensures
        adj_len_sum(rows) >= rows[i]@.len() + rows[j]@.len(),
    decreases rows.len(),
{
    if j == rows.len() - 1 {
        lemma_adj_len_sum_single(rows.drop_last(), i);
    } else {
        lemma_adj_len_sum_pair(rows.drop_last(), i, j);
    }
}

/// Appending an element to a row inserts it into the row's set of entries.
pub(crate) proof fn lemma_to_set_push(s: Seq<u64>, x: u64)
    ensures
        s.push(x).to_set() == s.to_set().insert(x),
{
    assert forall|y: u64| s.push(x).to_set().contains(y) implies s.to_set().insert(x).contains(
        y,
    ) by {
        let k = choose|k: int| 0 <= k < s.push(x).len() && s.push(x)[k] == y;
        if k < s.len() {
            assert(s[k] == y);
        }
    }
    assert forall|y: u64| s.to_set().insert(x).contains(y) implies s.push(x).to_set().contains(
        y,
    ) by {
        if y == x {
            assert(s.push(x)[s.len() as int] == x);
        } else {
            let k = choose|k: int| 0 <= k < s.len() && s[k] == y;
            assert(s.push(x)[k] == y);
        }
    }
    assert(s.push(x).to_set() =~= s.to_set().insert(x));
}

/// Removing the only occurrence of an element from a row removes it from the
/// row's set of entries, and keeps the row duplicate-free.
proof fn lemma_to_set_remove(s: Seq<u64>, i: int)
    requires
        s.no_duplicates(),
        0 <= i < s.len(),
    ensures
        s.remove(i).to_set() == s.to_set().remove(s[i]),
        s.remove(i).no_duplicates(),
{
    let t = s.remove(i);
    assert forall|y: u64| t.to_set().contains(y) implies s.to_set().remove(s[i]).contains(y) by {
        let k = choose|k: int| 0 <= k < t.len() && t[k] == y;
        if k < i {
            assert(s[k] == y);
        } else {
            assert(s[k + 1] == y);
        }
    }
    assert forall|y: u64| s.to_set().remove(s[i]).contains(y) implies t.to_set().contains(y) by {
        let k = choose|k: int| 0 <= k < s.len() && s[k] == y;
        if k < i {
            assert(t[k] == y);
        } else {
            assert(k != i);
            assert(t[k - 1] == y);
        }
    }
    assert(t.to_set() =~= s.to_set().remove(s[i]));
}

/// Whether a row contains the given id.
pub(crate) fn vec_contains(row: &Vec<u64>, x: u64) -> (r: bool)
    ensures
        r == row@.contains(x),
{
    let n = row.len();
    let mut i: usize = 0;
    while i < n
        invariant
            i <= n,
            n == row@.len(),
            forall|k: int| 0 <= k < i as int ==> row@[k] != x,
        decreases n - i,
    {
        if row[i] == x {
            return true;
        }
        i = i + 1;
    }
    false
}

/// A shared reference to one row of a row table.
pub(crate) fn row_ref(rows: &Vec<Vec<u64>>, i: usize) -> (row: &Vec<u64>)
    requires
        i < rows@.len(),
    ensures
        *row == rows@[i as int],
{
    &rows[i]
}

/// A shared reference to one row of a distance table.
pub(crate) fn row_ref64(rows: &Vec<Vec<i64>>, i: usize) -> (row: &Vec<i64>)
    requires
        i < rows@.len(),
    ensures
        *row == rows@[i as int],
{
    &rows[i]
}

/// A mutable reference to one row of a row table.
fn row_mut(rows: &mut Vec<Vec<u64>>, i: usize) -> (row: &mut Vec<u64>)
    requires
        i < old(rows)@.len(),
    ensures
        *row == old(rows)@[i as int],
        final(rows)@ == old(rows)@.update(i as int, *final(row)),
{
    &mut rows[i]
}

/// The position of `x` within a row known to contain it.
fn find_in_row(row: &Vec<u64>, x: u64) -> (r: usize)
    requires
        row@.contains(x),
    ensures
        r < row@.len(),
        row@[r as int] == x,
{
    let n = row.len();
    let mut i: usize = 0;
    while i < n
        invariant
            i <= n,
            n == row@.len(),
            row@.contains(x),
            forall|k: int| 0 <= k < i as int ==> row@[k] != x,
        decreases n - i,
    {
        if row[i] == x {
            return i;
        }
        i = i + 1;
    }
    proof {
        let k = choose|k: int| 0 <= k < row@.len() && row@[k] == x;
        assert(false);
    }
    i
}

/// Removes the (single) occurrence of `x` from a duplicate-free row.
fn remove_value(row: &mut Vec<u64>, x: u64)
    requires
        old(row)@.no_duplicates(),
        old(row)@.contains(x),
    ensures
        final(row)@.no_duplicates(),
        final(row)@.len() == old(row)@.len() - 1,
        final(row)@.to_set() == old(row)@.to_set().remove(x),
        forall|y: u64| y != x ==> (final(row)@.contains(y) <==> old(row)@.contains(y)),
        !final(row)@.contains(x),
{
    let i = find_in_row(row, x);
    let ghost s = row@;
    proof {
        lemma_to_set_remove(s, i as int);
    }
    row.remove(i);
    proof {
        assert(row@ == s.remove(i as int));
        assert forall|y: u64| y != x implies (row@.contains(y) <==> s.contains(y)) by {
            assert(row@.contains(y) <==> row@.to_set().contains(y));
            assert(s.contains(y) <==> s.to_set().contains(y));
        }
        assert(!row@.to_set().contains(x));
        if row@.contains(x) {
            assert(row@.to_set().contains(x));
        }
    }
}

/// A shared reference to one adjacency record.
fn adj_rec_ref<N: Node>(v: &Vec<Adjacency<N>>, i: usize) -> (r: &Adjacency<N>)
    requires
        i < v@.len(),
    ensures
        *r == v@[i as int],
{
    &v[i]
}

/// The declared node ids of an adjacency record list, in order.
pub open spec fn rec_ids<N: Node>(al: Seq<Adjacency<N>>) -> Seq<u64> {
    al.map_values(|a: Adjacency<N>| a.node_id.spec_id())
}

/// The neighbor ids declared by one adjacency record.
pub open spec fn rec_edge_ids<N: Node>(a: Adjacency<N>) -> Seq<u64> {
    a.edges@.map_values(|x: N| x.spec_id())
}

/// The sum of the declared degrees of the first `i_end` records.
pub open spec fn declared_degree_sum<N: Node>(al: Seq<Adjacency<N>>, i_end: int) -> int
    decreases i_end,
{
    if i_end <= 0 {
        0
    } else {
        declared_degree_sum(al, i_end - 1) + al[i_end - 1].degree
    }
}

/// A duplicate-free sequence drawn from a pool of ids is no longer than the
/// pool.
proof fn lemma_distinct_in_pool(s: Seq<u64>, pool: Seq<u64>)
    requires
        s.no_duplicates(),
        forall|k: int| 0 <= k < s.len() ==> pool.contains(#[trigger] s[k]),
    ensures
        s.len() <= pool.len(),
{
    assert forall|x: u64| s.to_set().contains(x) implies pool.to_set().contains(x) by {
        let k = choose|k: int| 0 <= k < s.len() && s[k] == x;
        assert(pool.contains(s[k]));
    }
    s.unique_seq_to_set();
    pool.lemma_cardinality_of_set();
    vstd::set_lib::lemma_len_subset(s.to_set(), pool.to_set());
}

impl<N: Node> SimpleNetwork<N> {
    /// The node ids, in storage order.
    pub open spec fn ids(&self) -> Seq<u64> {
        self.nodes@.map_values(|n: N| n.spec_id())
    }

    /// The set of node ids.
    pub open spec fn id_set(&self) -> Set<u64> {
        self.ids().to_set()
    }

    /// Number of nodes.
    pub open spec fn n(&self) -> int {
        self.nodes@.len() as int
    }

    /// The storage index of the node with the given id.
    pub open spec fn pos_of(&self, id: u64) -> int {
        self.ids().index_of(id)
    }

    /// The adjacency row of the node at storage index `i`.
    pub open spec fn adj_at(&self, i: int) -> Seq<u64> {
        self.adjacencies@[i]@
    }

    /// The neighbor ids of the node with the given id.
    pub open spec fn nbrs(&self, id: u64) -> Set<u64> {
        if self.id_set().contains(id) {
            self.adj_at(self.pos_of(id)).to_set()
        } else {
            Set::empty()
        }
    }

    /// Whether the nodes with the two given ids are adjacent.
    pub open spec fn has_edge(&self, u: u64, v: u64) -> bool {
        self.nbrs(u).contains(v)
    }

    /// The degree of the node with the given id.
    pub open spec fn degree(&self, id: u64) -> int {
        if self.id_set().contains(id) {
            self.adj_at(self.pos_of(id)).len() as int
        } else {
            0
        }
    }

    /// Sum of all adjacency-row lengths.
    pub open spec fn degree_sum(&self) -> int {
        adj_len_sum(self.adjacencies@)
    }

    /// The graph's structural invariant: one adjacency row per node, unique
    /// node ids, neighbor entries that are themselves node ids, no duplicate
    /// entries within a row, no self-loops, symmetric adjacency, and an edge
    /// count equal to the sum of the row lengths.
    pub open spec fn wf(&self) -> bool {
        &&& self.adjacencies@.len() == self.nodes@.len()
        &&& self.nodes@.len() <= 0xFFFF_FFFF
        &&& forall|i: int, j: int|
            0 <= i < self.n() && 0 <= j < self.n() && i != j ==> self.ids()[i] != self.ids()[j]
        &&& forall|i: int| 0 <= i < self.n() ==> (#[trigger] self.adj_at(i)).no_duplicates()
        &&& forall|i: int, k: int|
            0 <= i < self.n() && 0 <= k < self.adj_at(i).len() ==> self.id_set().contains(
                #[trigger] self.adj_at(i)[k],
            )
        &&& forall|i: int| 0 <= i < self.n() ==> !(#[trigger] self.adj_at(i)).contains(self.ids()[i])
        &&& forall|i: int, j: int|
            0 <= i < self.n() && 0 <= j < self.n() ==> ((#[trigger] self.adj_at(i)).contains(
                self.ids()[j],
            ) <==> (#[trigger] self.adj_at(j)).contains(self.ids()[i]))
        &&& self.total_edges == self.degree_sum()
    }

    /// In a well-formed graph, the id stored at index `j` maps back to `j`.
    pub proof fn lemma_pos_of(&self, j: int)
        requires
            self.wf(),
            0 <= j < self.n(),
        ensures
            self.pos_of(self.ids()[j]) == j,
            self.id_set().contains(self.ids()[j]),
            self.nbrs(self.ids()[j]) == self.adj_at(j).to_set(),
            self.degree(self.ids()[j]) == self.adj_at(j).len(),
    {
        assert(self.ids().contains(self.ids()[j]));
        let i = self.ids().index_of(self.ids()[j]);
        assert(self.ids()[i] == self.ids()[j]);
        assert(i == j);
    }

    /// Every adjacency row of a well-formed graph is no longer than the node
    /// count.
    pub proof fn lemma_row_bound(&self, i: int)
        requires
            self.wf(),
            0 <= i < self.n(),
        ensures
            self.adj_at(i).len() <= self.n(),
    {
        assert(forall|k: int|
            0 <= k < self.adj_at(i).len() ==> self.id_set().contains(#[trigger] self.adj_at(i)[k]));
        assert(self.adj_at(i).to_set().subset_of(self.id_set())) by {
            assert forall|x: u64| self.adj_at(i).to_set().contains(x) implies self.id_set().contains(
                x,
            ) by {
                let k = choose|k: int| 0 <= k < self.adj_at(i).len() && self.adj_at(i)[k] == x;
                assert(self.id_set().contains(self.adj_at(i)[k]));
            }
        }
        self.adj_at(i).unique_seq_to_set();
        self.ids().lemma_cardinality_of_set();
        vstd::set_lib::lemma_len_subset(self.adj_at(i).to_set(), self.id_set());
    }

    /// The edge count of a well-formed graph is at most the square of the
    /// node count.
    pub proof fn lemma_total_edges_bound(&self)
        requires
            self.wf(),
        ensures
            self.total_edges <= self.n() * self.n(),
    {
        assert forall|i: int| 0 <= i < self.adjacencies@.len() implies (#[trigger] self.adjacencies@[i])@.len()
            <= self.n() by {
            self.lemma_row_bound(i);
        }
        lemma_adj_len_sum_bound(self.adjacencies@, self.n());
    }

    /// A well-formed graph is simple: no node is its own neighbor (and its
    /// adjacency rows are duplicate-free, so parallel edges cannot be
    /// represented at all). Every mutator ensures well-formedness, so no
    /// edge operation or rewiring ever introduces a self-loop or a duplicate
    /// edge.
    pub proof fn lemma_no_self_loop(&self, w: u64)
        requires
            self.wf(),
        ensures
            !self.has_edge(w, w),
    {
        if self.id_set().contains(w) {
            let p = self.pos_of(w);
            assert(self.ids().contains(w));
            assert(0 <= p < self.n() && self.ids()[p] == w);
            assert(!self.adj_at(p).contains(self.ids()[p]));
        }
    }

    /// Adjacency is symmetric: `u` neighbors `v` exactly when `v` neighbors
    /// `u`.
    pub proof fn lemma_edge_symm(&self, u: u64, v: u64)
        requires
            self.wf(),
        ensures
            self.has_edge(u, v) <==> self.has_edge(v, u),
    {
        if self.id_set().contains(u) && self.id_set().contains(v) {
            let i = self.pos_of(u);
            let j = self.pos_of(v);
            assert(self.ids().contains(u));
            assert(self.ids().contains(v));
            assert(self.ids()[i] == u && self.ids()[j] == v);
            assert(self.adj_at(i).contains(self.ids()[j]) <==> self.adj_at(j).contains(
                self.ids()[i],
            ));
        } else {
            if self.has_edge(u, v) {
                let i = self.pos_of(u);
                assert(self.ids().contains(u));
                let k = choose|k: int| 0 <= k < self.adj_at(i).len() && self.adj_at(i)[k] == v;
                assert(self.id_set().contains(self.adj_at(i)[k]));
            }
            if self.has_edge(v, u) {
                let j = self.pos_of(v);
                assert(self.ids().contains(v));
                let k = choose|k: int| 0 <= k < self.adj_at(j).len() && self.adj_at(j)[k] == u;
                assert(self.id_set().contains(self.adj_at(j)[k]));
            }
        }
    }

    /// Finds the storage index of the node with the given id.
    pub(crate) fn find_index(&self, id: u64) -> (r: Option<usize>)
        ensures
            match r {
                Some(i) => i < self.nodes@.len() && self.ids()[i as int] == id
                    && self.id_set().contains(id),
                None => !self.id_set().contains(id),
            },
    {
        let n = self.nodes.len();
        let mut i: usize = 0;
        while i < n
            invariant
                i <= n,
                n == self.nodes@.len(),
                forall|k: int| 0 <= k < i as int ==> self.ids()[k] != id,
            decreases n - i,
        {
            if self.nodes[i].id() == id {
                assert(self.ids()[i as int] == id);
                assert(self.ids().contains(id));
                return Some(i);
            }
            i = i + 1;
        }
        assert(!self.ids().contains(id));
        None
    }

    /// Whether the nodes with the two given ids are adjacent.
    pub fn edge_between(&self, u: u64, v: u64) -> (r: bool)
        requires
            self.wf(),
        ensures
            r == self.has_edge(u, v),
    {
        match self.find_index(u) {
            Some(i) => {
                proof {
                    self.lemma_pos_of(i as int);
                }
                vec_contains(&self.adjacencies[i], v)
            },
            None => false,
        }
    }

    /// A walk through the graph: a nonempty sequence of node ids in which
    /// consecutive entries are adjacent.
    pub open spec fn is_path(&self, p: Seq<u64>) -> bool {
        &&& p.len() >= 1
        &&& forall|k: int| 0 <= k < p.len() ==> self.id_set().contains(#[trigger] p[k])
        &&& forall|k: int| 0 <= k < p.len() - 1 ==> self.has_edge(#[trigger] p[k], p[k + 1])
    }

    /// There is a walk of `n` hops from `s` to `t`.
    pub open spec fn has_path_len(&self, s: u64, t: u64, n: int) -> bool {
        exists|p: Seq<u64>|
            self.is_path(p) && p.first() == s && p.last() == t && p.len() == n + 1
    }

    /// `t` can be reached from `s` by some walk.
    pub open spec fn reachable(&self, s: u64, t: u64) -> bool {
        exists|n: int| 0 <= n && self.has_path_len(s, t, n)
    }

    /// `n` is the geodesic distance from `s` to `t`: the least hop count of
    /// any walk between them.
    pub open spec fn is_dist(&self, s: u64, t: u64, n: int) -> bool {
        &&& self.has_path_len(s, t, n)
        &&& forall|m: int| 0 <= m < n ==> !self.has_path_len(s, t, m)
    }

    /// The endpoints of an edge are distinct nodes of the graph.
    pub proof fn lemma_edge_in_ids(&self, u: u64, v: u64)
        requires
            self.wf(),
            self.has_edge(u, v),
        ensures
            self.id_set().contains(u),
            self.id_set().contains(v),
            u != v,
    {
        assert(self.id_set().contains(u));
        let i = self.pos_of(u);
        assert(self.ids().contains(u));
        assert(0 <= i < self.n() && self.ids()[i] == u);
        assert(self.adj_at(i).contains(v));
        let k = choose|k: int| 0 <= k < self.adj_at(i).len() && self.adj_at(i)[k] == v;
        assert(self.id_set().contains(self.adj_at(i)[k]));
        assert(!self.adj_at(i).contains(self.ids()[i]));
    }

    /// A walk can be extended along an edge out of its last node.
    pub proof fn lemma_path_extend(&self, p: Seq<u64>, z: u64)
        requires
            self.wf(),
            self.is_path(p),
            self.has_edge(p.last(), z),
        ensures
            self.is_path(p.push(z)),
            p.push(z).first() == p.first(),
            p.push(z).last() == z,
    {
        self.lemma_edge_in_ids(p.last(), z);
        let q = p.push(z);
        assert forall|k: int| 0 <= k < q.len() implies self.id_set().contains(#[trigger] q[k]) by {
            if k < p.len() {
                assert(q[k] == p[k]);
            }
        }
        assert forall|k: int| 0 <= k < q.len() - 1 implies self.has_edge(
            #[trigger] q[k],
            q[k + 1],
        ) by {
            if k < p.len() - 1 {
                assert(q[k] == p[k] && q[k + 1] == p[k + 1]);
            } else {
                assert(q[k] == p.last() && q[k + 1] == z);
            }
        }
    }

    /// If a distance table contains a walk's start and is closed under
    /// stepping along edges (each step growing the value by at most one),
    /// then it contains the walk's end, with a value bounded by the walk's
    /// length.
    pub proof fn lemma_closed_reach(&self, dmap: Map<u64, i64>, p: Seq<u64>)
        requires
            self.is_path(p),
            dmap.contains_key(p.first()),
            forall|w: u64, z: u64|
                dmap.contains_key(w) && #[trigger] self.has_edge(w, z) ==> dmap.contains_key(z)
                    && dmap[z] <= dmap[w] + 1,
        ensures
            dmap.contains_key(p.last()),
            dmap[p.last()] <= dmap[p.first()] + p.len() - 1,
        decreases p.len(),
    {
        if p.len() > 1 {
            let q = p.drop_last();
            assert(q.len() >= 1);
            assert forall|k: int| 0 <= k < q.len() implies self.id_set().contains(
                #[trigger] q[k],
            ) by {
                assert(q[k] == p[k]);
            }
            assert forall|k: int| 0 <= k < q.len() - 1 implies self.has_edge(
                #[trigger] q[k],
                q[k + 1],
            ) by {
                assert(q[k] == p[k] && q[k + 1] == p[k + 1]);
            }
            assert(q.first() == p.first());
            self.lemma_closed_reach(dmap, q);
            assert(self.has_edge(p[p.len() - 2], p[p.len() - 1]));
            assert(q.last() == p[p.len() - 2]);
        }
    }

    /// A set of node ids is no larger than the node count.
    proof fn lemma_dom_le_n(&self, dom: Set<u64>)
        requires
            self.wf(),
            dom.subset_of(self.id_set()),
        ensures
            dom.finite(),
            dom.len() <= self.n(),
    {
        self.ids().lemma_cardinality_of_set();
        vstd::set_lib::lemma_len_subset(dom, self.id_set());
    }

    /// Breadth-first traversal from the node with id `from`: returns the
    /// discovery list (id, hop distance, predecessor id) and the distance
    /// table over exactly the reachable nodes.
    #[verifier::rlimit(100)]
    fn bfs(&self, from: u64) -> (r: (Vec<(u64, i64, u64)>, std::collections::HashMap<u64, i64>))
        requires
            self.wf(),
            self.id_set().contains(from),
        ensures
            ({
                let q = r.0@;
                let m = r.1@;
                &&& q.len() >= 1
                &&& q.len() <= self.n()
                &&& q[0] == (from, 0i64, from)
                &&& forall|k1: int, k2: int|
                    0 <= k1 < q.len() && 0 <= k2 < q.len() && k1 != k2 ==> (#[trigger] q[k1]).0 != (
                    #[trigger] q[k2]).0
                &&& forall|k: int| 0 <= k < q.len() ==> self.id_set().contains((#[trigger] q[k]).0)
                &&& forall|k: int| 0 <= k < q.len() ==> 0 <= (#[trigger] q[k]).1 <= k
                &&& forall|k: int|
                    0 <= k < q.len() ==> m.contains_key((#[trigger] q[k]).0) && m[q[k].0] == q[k].1
                &&& forall|t: u64| #[trigger] m.contains_key(t) ==> exists|k: int|
                    0 <= k < q.len() && (#[trigger] q[k]).0 == t
                &&& forall|k: int|
                    1 <= k < q.len() ==> self.has_edge((#[trigger] q[k]).2, q[k].0) && exists|j: int|
                        0 <= j < k && (#[trigger] q[j]).0 == q[k].2 && q[j].1 + 1 == q[k].1
                &&& forall|t: u64| #[trigger] m.contains_key(t) <==> self.reachable(from, t)
                &&& forall|t: u64| #[trigger] m.contains_key(t) ==> self.is_dist(from, t, m[t] as int)
                &&& m.dom().len() == q.len()
            }),
    {
        let mut q: Vec<(u64, i64, u64)> = Vec::new();
        let mut dists: std::collections::HashMap<u64, i64> = std::collections::HashMap::new();
        q.push((from, 0i64, from));
        dists.insert(from, 0i64);
        proof {
            assert(self.is_path(seq![from]));
            assert(self.has_path_len(from, from, 0)) by {
                assert(self.is_path(seq![from]) && seq![from].first() == from && seq![from].last()
                    == from && seq![from].len() == 1);
            }
            assert(dists@.dom() =~= set![from]);
            assert(dists@.dom().len() == 1);
            assert(q@[0] == (from, 0i64, from));
            assert forall|t: u64| #[trigger] dists@.contains_key(t) implies exists|k: int|
                0 <= k < q@.len() && (#[trigger] q@[k]).0 == t by {
                assert(t == from);
                assert(q@[0].0 == from);
            }
        }
        let mut h: usize = 0;
        while h < q.len()
            invariant
                self.wf(),
                self.id_set().contains(from),
                0 <= h <= q@.len(),
                1 <= q@.len() <= self.n(),
                q@[0] == (from, 0i64, from),
                dists@.dom().len() == q@.len(),
                forall|k1: int, k2: int|
                    0 <= k1 < q@.len() && 0 <= k2 < q@.len() && k1 != k2 ==> (#[trigger] q@[k1]).0
                        != (#[trigger] q@[k2]).0,
                forall|k: int| 0 <= k < q@.len() ==> self.id_set().contains((#[trigger] q@[k]).0),
                forall|k: int| 0 <= k < q@.len() ==> 0 <= (#[trigger] q@[k]).1 <= k,
                forall|k: int|
                    0 <= k < q@.len() ==> dists@.contains_key((#[trigger] q@[k]).0)
                        && dists@[q@[k].0] == q@[k].1,
                forall|t: u64| #[trigger] dists@.contains_key(t) ==> exists|k: int|
                    0 <= k < q@.len() && (#[trigger] q@[k]).0 == t,
                forall|k: int|
                    0 <= k < q@.len() ==> self.has_path_len(from, (#[trigger] q@[k]).0, q@[k].1 as int),
                forall|k: int|
                    1 <= k < q@.len() ==> self.has_edge((#[trigger] q@[k]).2, q@[k].0) && exists|j: int|
                        0 <= j < k && (#[trigger] q@[j]).0 == q@[k].2 && q@[j].1 + 1 == q@[k].1,
                forall|k1: int, k2: int|
                    h <= k1 <= k2 < q@.len() ==> (#[trigger] q@[k1]).1 <= (#[trigger] q@[k2]).1,
                forall|k: int, m: int|
                    0 <= k < q@.len() && h <= m < q@.len() ==> (#[trigger] q@[k]).1 <= (
                    #[trigger] q@[m]).1 + 1,
                forall|k: int, z: u64|
                    0 <= k < h && #[trigger] self.has_edge((#[trigger] q@[k]).0, z) ==> exists|j: int|
                        0 <= j < q@.len() && (#[trigger] q@[j]).0 == z && q@[j].1 <= q@[k].1 + 1,
            decreases self.n() - q@.len(), q@.len() - h,
        {
            let e = q[h];
            let w = e.0;
            let d = e.1;
            h = h + 1;
            let wi = match self.find_index(w) {
                Some(i) => i,
                None => {
                    proof {
                        assert(false);
                    }
                    0
                },
            };
            proof {
                self.lemma_pos_of(wi as int);
            }
            let row = row_ref(&self.adjacencies, wi);
            let deg = row.len();
            let ghost q_at_entry = q@;
            let mut t: usize = 0;
            while t < deg
                invariant
                    self.wf(),
                    self.id_set().contains(from),
                    0 < h <= q@.len(),
                    1 <= q@.len() <= self.n(),
                    q@[0] == (from, 0i64, from),
                    dists@.dom().len() == q@.len(),
                    w == q@[h - 1].0,
                    d == q@[h - 1].1,
                    0 <= d <= h - 1,
                    wi < self.nodes@.len(),
                    self.ids()[wi as int] == w,
                    *row == self.adjacencies@[wi as int],
                    deg == row@.len(),
                    t <= deg,
                    q_at_entry.len() <= q@.len(),
                    forall|k: int| 0 <= k < q_at_entry.len() ==> q@[k] == q_at_entry[k],
                    self.nbrs(w) == self.adj_at(wi as int).to_set(),
                    forall|k1: int, k2: int|
                        0 <= k1 < q@.len() && 0 <= k2 < q@.len() && k1 != k2 ==> (
                        #[trigger] q@[k1]).0 != (#[trigger] q@[k2]).0,
                    forall|k: int|
                        0 <= k < q@.len() ==> self.id_set().contains((#[trigger] q@[k]).0),
                    forall|k: int| 0 <= k < q@.len() ==> 0 <= (#[trigger] q@[k]).1 <= k,
                    forall|k: int|
                        0 <= k < q@.len() ==> dists@.contains_key((#[trigger] q@[k]).0)
                            && dists@[q@[k].0] == q@[k].1,
                    forall|t2: u64| #[trigger] dists@.contains_key(t2) ==> exists|k: int|
                        0 <= k < q@.len() && (#[trigger] q@[k]).0 == t2,
                    forall|k: int|
                        0 <= k < q@.len() ==> self.has_path_len(
                            from,
                            (#[trigger] q@[k]).0,
                            q@[k].1 as int,
                        ),
                    forall|k: int|
                        1 <= k < q@.len() ==> self.has_edge((#[trigger] q@[k]).2, q@[k].0)
                            && exists|j: int|
                            0 <= j < k && (#[trigger] q@[j]).0 == q@[k].2 && q@[j].1 + 1
                                == q@[k].1,
                    forall|k1: int, k2: int|
                        h <= k1 <= k2 < q@.len() ==> (#[trigger] q@[k1]).1 <= (#[trigger] q@[k2]).1,
                    forall|m: int| h <= m < q@.len() ==> d <= (#[trigger] q@[m]).1 <= d + 1,
                    forall|k: int| 0 <= k < q@.len() ==> (#[trigger] q@[k]).1 <= d + 1,
                    forall|k: int, z: u64|
                        0 <= k < h - 1 && #[trigger] self.has_edge((#[trigger] q@[k]).0, z)
                            ==> exists|j: int|
                            0 <= j < q@.len() && (#[trigger] q@[j]).0 == z && q@[j].1 <= q@[k].1
                                + 1,
                    forall|u: int|
                        #![trigger row@[u]]
                        0 <= u < t ==> exists|j: int|
                            0 <= j < q@.len() && (#[trigger] q@[j]).0 == row@[u] && q@[j].1 <= d
                                + 1,
                decreases deg - t,
            {
                let ghost q_pre = q@;
                let ghost dists_pre = dists@;
                let z = row[t];
                proof {
                    assert(self.adj_at(wi as int).contains(z));
                    assert(self.has_edge(w, z));
                    self.lemma_edge_in_ids(w, z);
                }
                if !dists.contains_key(&z) {
                    proof {
                        assert(dists@.dom().insert(z).subset_of(self.id_set())) by {
                            assert forall|y: u64| dists@.dom().insert(z).contains(
                                y,
                            ) implies self.id_set().contains(y) by {
                                if y != z {
                                    let k = choose|k: int|
                                        0 <= k < q@.len() && (#[trigger] q@[k]).0 == y;
                                    assert(self.id_set().contains(q@[k].0));
                                }
                            }
                        }
                        self.lemma_dom_le_n(dists@.dom().insert(z));
                        assert(dists@.dom().insert(z).len() == dists@.dom().len() + 1);
                        // a witness path of length d + 1 to z
                        let p = choose|p: Seq<u64>|
                            self.is_path(p) && p.first() == from && p.last() == w && p.len() == d
                                + 1;
                        self.lemma_path_extend(p, z);
                        assert(self.has_path_len(from, z, d + 1)) by {
                            assert(self.is_path(p.push(z)) && p.push(z).first() == from && p.push(
                                z,
                            ).last() == z && p.push(z).len() == (d + 1) + 1);
                        }
                    }
                    let ghost q_old = q@;
                    dists.insert(z, d + 1);
                    q.push((z, d + 1, w));
                    proof {
                        assert(q@ == q_old.push((z, (d + 1) as i64, w)));
                        assert(q@[q_old.len() as int] == (z, (d + 1) as i64, w));
                        assert(q@[h - 1].0 == w && q@[h - 1].1 == d);
                        assert forall|t2: u64| #[trigger] dists@.contains_key(t2) implies exists|
                            k: int,
                        | 0 <= k < q@.len() && (#[trigger] q@[k]).0 == t2 by {
                            if t2 == z {
                                assert(q@[q@.len() - 1].0 == z);
                            } else {
                                assert(dists_pre.contains_key(t2));
                                let k = choose|k: int|
                                    0 <= k < q_pre.len() && (#[trigger] q_pre[k]).0 == t2;
                                assert(q@[k] == q_pre[k]);
                            }
                        }
                        assert forall|k: int, zz: u64|
                            0 <= k < h - 1 && #[trigger] self.has_edge(
                                (#[trigger] q@[k]).0,
                                zz,
                            ) implies exists|j: int|
                            0 <= j < q@.len() && (#[trigger] q@[j]).0 == zz && q@[j].1 <= q@[k].1
                                + 1 by {
                            assert(q@[k] == q_pre[k]);
                            assert(self.has_edge(q_pre[k].0, zz));
                            let j = choose|j: int|
                                0 <= j < q_pre.len() && (#[trigger] q_pre[j]).0 == zz
                                    && q_pre[j].1 <= q_pre[k].1 + 1;
                            assert(q@[j] == q_pre[j]);
                        }
                        assert forall|k: int|
                            1 <= k < q@.len() implies self.has_edge((#[trigger] q@[k]).2, q@[k].0)
                            && exists|j: int|
                            0 <= j < k && (#[trigger] q@[j]).0 == q@[k].2 && q@[j].1 + 1
                                == q@[k].1 by {
                            if k < q_old.len() {
                                assert(q@[k] == q_old[k]);
                                let j = choose|j: int|
                                    0 <= j < k && (#[trigger] q_old[j]).0 == q_old[k].2
                                        && q_old[j].1 + 1 == q_old[k].1;
                                assert(q@[j] == q_old[j]);
                            } else {
                                assert(q@[k] == (z, (d + 1) as i64, w));
                                assert(q@[h - 1].0 == w && q@[h - 1].1 + 1 == d + 1);
                            }
                        }
                    }
                }
                t = t + 1;
                proof {
                    assert forall|u: int| #![trigger row@[u]] 0 <= u < t implies exists|j: int|
                        0 <= j < q@.len() && (#[trigger] q@[j]).0 == row@[u] && q@[j].1 <= d
                            + 1 by {
                        if u == t - 1 {
                            assert(dists@.contains_key(z));
                            let k = choose|k: int| 0 <= k < q@.len() && (#[trigger] q@[k]).0 == z;
                            assert(q@[k].1 <= d + 1);
                        } else {
                            let j = choose|j: int|
                                0 <= j < q_pre.len() && (#[trigger] q_pre[j]).0 == row@[u]
                                    && q_pre[j].1 <= d + 1;
                            assert(q@[j] == q_pre[j]);
                        }
                    }
                }
            }
            proof {
                assert forall|k: int, z: u64|
                    0 <= k < h && #[trigger] self.has_edge((#[trigger] q@[k]).0, z) implies exists|
                    j: int,
                |
                    0 <= j < q@.len() && (#[trigger] q@[j]).0 == z && q@[j].1 <= q@[k].1 + 1 by {
                    if k == h - 1 {
                        assert(self.has_edge(w, z));
                        assert(self.nbrs(w).contains(z));
                        assert(self.adj_at(wi as int).to_set().contains(z));
                        let u = choose|u: int| 0 <= u < row@.len() && row@[u] == z;
                        assert(exists|j: int|
                            0 <= j < q@.len() && (#[trigger] q@[j]).0 == row@[u] && q@[j].1 <= d
                                + 1);
                    }
                }
            }
        }
        proof {
            let qs = q@;
            let dm = dists@;
            // the finished table is closed under edge steps
            assert forall|w: u64, z: u64|
                dm.contains_key(w) && #[trigger] self.has_edge(w, z) implies dm.contains_key(z)
                && dm[z] <= dm[w] + 1 by {
                let k = choose|k: int| 0 <= k < qs.len() && (#[trigger] qs[k]).0 == w;
                assert(self.has_edge(qs[k].0, z));
                let j = choose|j: int|
                    0 <= j < qs.len() && (#[trigger] qs[j]).0 == z && qs[j].1 <= qs[k].1 + 1;
                assert(dm[z] == qs[j].1 && dm[w] == qs[k].1);
            }
            assert(dm.contains_key(from) && dm[from] == 0);
            // every key holds the exact geodesic distance
            assert forall|tt: u64| #[trigger] dm.contains_key(tt) implies self.is_dist(
                from,
                tt,
                dm[tt] as int,
            ) by {
                let k = choose|k: int| 0 <= k < qs.len() && (#[trigger] qs[k]).0 == tt;
                assert(self.has_path_len(from, tt, dm[tt] as int));
                assert forall|m: int| 0 <= m < dm[tt] implies !self.has_path_len(from, tt, m) by {
                    if self.has_path_len(from, tt, m) {
                        let p = choose|p: Seq<u64>|
                            self.is_path(p) && p.first() == from && p.last() == tt && p.len() == m
                                + 1;
                        self.lemma_closed_reach(dm, p);
                        assert(dm[tt] <= m);
                    }
                }
            }
            // keys are exactly the reachable nodes
            assert forall|tt: u64| #[trigger] dm.contains_key(tt) <==> self.reachable(
                from,
                tt,
            ) by {
                if dm.contains_key(tt) {
                    let k = choose|k: int| 0 <= k < qs.len() && (#[trigger] qs[k]).0 == tt;
                    assert(self.has_path_len(from, tt, qs[k].1 as int) && qs[k].1 >= 0);
                    assert(self.reachable(from, tt));
                }
                if self.reachable(from, tt) {
                    let n0 = choose|n0: int| 0 <= n0 && self.has_path_len(from, tt, n0);
                    let p = choose|p: Seq<u64>|
                        self.is_path(p) && p.first() == from && p.last() == tt && p.len() == n0
                            + 1;
                    self.lemma_closed_reach(dm, p);
                }
            }
        }
        (q, dists)
    }

    /// The connected component of the node with id `s`: everything reachable
    /// from it.
    pub open spec fn component_of(&self, s: u64) -> Set<u64> {
        Set::new(|t: u64| self.reachable(s, t))
    }

    /// The endpoints of any walk are nodes of the graph.
    pub proof fn lemma_reach_endpoints(&self, s: u64, t: u64)
        requires
            self.reachable(s, t),
        ensures
            self.id_set().contains(s),
            self.id_set().contains(t),
    {
        let n0 = choose|n0: int| 0 <= n0 && self.has_path_len(s, t, n0);
        let p = choose|p: Seq<u64>|
            self.is_path(p) && p.first() == s && p.last() == t && p.len() == n0 + 1;
        assert(self.id_set().contains(p[0]));
        assert(self.id_set().contains(p[p.len() - 1]));
    }

    /// Every node of the graph reaches itself.
    pub proof fn lemma_reach_refl(&self, s: u64)
        requires
            self.id_set().contains(s),
        ensures
            self.reachable(s, s),
            self.is_dist(s, s, 0),
    {
        let p = seq![s];
        assert(self.is_path(p) && p.first() == s && p.last() == s && p.len() == 0 + 1);
        assert(self.has_path_len(s, s, 0));
    }

    /// Reachability is symmetric, because adjacency is.
    pub proof fn lemma_reach_symm(&self, s: u64, t: u64)
        requires
            self.wf(),
            self.reachable(s, t),
        ensures
            self.reachable(t, s),
    {
        let n0 = choose|n0: int| 0 <= n0 && self.has_path_len(s, t, n0);
        let p = choose|p: Seq<u64>|
            self.is_path(p) && p.first() == s && p.last() == t && p.len() == n0 + 1;
        let r = p.reverse();
        assert(r.len() == p.len());
        assert forall|k: int| 0 <= k < r.len() implies self.id_set().contains(#[trigger] r[k]) by {
            assert(r[k] == p[p.len() - 1 - k]);
        }
        assert forall|k: int| 0 <= k < r.len() - 1 implies self.has_edge(
            #[trigger] r[k],
            r[k + 1],
        ) by {
            assert(r[k] == p[p.len() - 1 - k] && r[k + 1] == p[p.len() - 2 - k]);
            assert(self.has_edge(p[p.len() - 2 - k], p[p.len() - 1 - k]));
            self.lemma_edge_symm(p[p.len() - 2 - k], p[p.len() - 1 - k]);
        }
        assert(r.first() == t && r.last() == s);
        assert(self.has_path_len(t, s, n0));
    }

    /// Reachability is transitive: walks concatenate.
    pub proof fn lemma_reach_trans(&self, s: u64, t: u64, u: u64)
        requires
            self.reachable(s, t),
            self.reachable(t, u),
        ensures
            self.reachable(s, u),
    {
        let n1 = choose|n1: int| 0 <= n1 && self.has_path_len(s, t, n1);
        let p = choose|p: Seq<u64>|
            self.is_path(p) && p.first() == s && p.last() == t && p.len() == n1 + 1;
        let n2 = choose|n2: int| 0 <= n2 && self.has_path_len(t, u, n2);
        let q = choose|q: Seq<u64>|
            self.is_path(q) && q.first() == t && q.last() == u && q.len() == n2 + 1;
        let c = p + q.subrange(1, q.len() as int);
        assert(c.len() == p.len() + q.len() - 1);
        assert forall|k: int| 0 <= k < c.len() implies self.id_set().contains(#[trigger] c[k]) by {
            if k < p.len() {
                assert(c[k] == p[k]);
            } else {
                assert(c[k] == q[k - p.len() + 1]);
            }
        }
        assert forall|k: int| 0 <= k < c.len() - 1 implies self.has_edge(
            #[trigger] c[k],
            c[k + 1],
        ) by {
            if k + 1 < p.len() {
                assert(c[k] == p[k] && c[k + 1] == p[k + 1]);
            } else if k + 1 == p.len() {
                assert(c[k] == p[p.len() - 1] && c[k + 1] == q[1]);
                assert(p[p.len() - 1] == t && q[0] == t);
                assert(self.has_edge(q[0], q[1]));
            } else {
                assert(c[k] == q[k - p.len() + 1] && c[k + 1] == q[k - p.len() + 2]);
                assert(self.has_edge(q[k - p.len() + 1], q[k - p.len() + 2]));
            }
        }
        assert(c.first() == s && c.last() == u);
        assert(self.has_path_len(s, u, n1 + n2)) by {
            assert(c.len() == (n1 + n2) + 1);
        }
    }

    /// Mutually reachable nodes have the same component.
    pub proof fn lemma_component_eq(&self, s: u64, v: u64)
        requires
            self.wf(),
            self.reachable(s, v),
        ensures
            self.component_of(s) == self.component_of(v),
    {
        assert forall|t: u64| self.component_of(s).contains(t) implies self.component_of(
            v,
        ).contains(t) by {
            self.lemma_reach_symm(s, v);
            self.lemma_reach_trans(v, s, t);
        }
        assert forall|t: u64| self.component_of(v).contains(t) implies self.component_of(
            s,
        ).contains(t) by {
            self.lemma_reach_trans(s, v, t);
        }
        assert(self.component_of(s) =~= self.component_of(v));
    }

    /// Finds the largest connected component, by breadth-first search from
    /// each node not already reached from an earlier source; among components
    /// of equal size the one explored first is kept.
    pub fn largest_component(&self) -> (r: std::collections::HashSet<u64>)
        requires
            self.wf(),
        ensures
            self.n() > 0 ==> exists|s: u64|
                self.id_set().contains(s) && r@ == #[trigger] self.component_of(s),
            forall|id: u64|
                self.id_set().contains(id) ==> (#[trigger] self.component_of(id)).len()
                    <= r@.len(),
            self.n() == 0 ==> r@ == Set::<u64>::empty(),
    {
        let mut visited: std::collections::HashSet<u64> = std::collections::HashSet::new();
        let mut best: std::collections::HashSet<u64> = std::collections::HashSet::new();
        let ghost mut best_src: u64 = 0u64;
        let n = self.nodes.len();
        proof {
            assert(best@ =~= Set::<u64>::empty());
        }
        let mut i: usize = 0;
        while i < n
            invariant
                self.wf(),
                n == self.nodes@.len(),
                i <= n,
                i > 0 ==> self.id_set().contains(best_src) && best@ == self.component_of(best_src),
                i == 0 ==> best@ == Set::<u64>::empty() && visited@ == Set::<u64>::empty(),
                forall|v: u64| #[trigger] visited@.contains(v) ==> self.id_set().contains(v)
                    && exists|s: u64|
                    self.id_set().contains(s) && #[trigger] self.reachable(s, v)
                        && self.component_of(s).len() <= best@.len(),
                forall|k: int|
                    0 <= k < i as int ==> (#[trigger] self.component_of(self.ids()[k])).len()
                        <= best@.len(),
            decreases n - i,
        {
            let id = self.nodes[i].id();
            proof {
                assert(self.ids()[i as int] == id);
                assert(self.ids().contains(id));
            }
            if !visited.contains(&id) {
                let (q, dists) = self.bfs(id);
                let ghost old_visited = visited@;
                let ghost old_best = best@;
                // mark everything reached from this source as visited
                let m = q.len();
                let mut k: usize = 0;
                while k < m
                    invariant
                        self.wf(),
                        m == q@.len(),
                        k <= m,
                        forall|u: int|
                            0 <= u < q@.len() ==> self.id_set().contains((#[trigger] q@[u]).0)
                                && self.reachable(id, q@[u].0),
                        self.id_set().contains(id),
                        forall|u: int| 0 <= u < k as int ==> visited@.contains((#[trigger] q@[u]).0),
                        forall|v: u64| #[trigger] visited@.contains(v) ==> old_visited.contains(v)
                            || exists|u: int| 0 <= u < q@.len() && (#[trigger] q@[u]).0 == v,
                    decreases m - k,
                {
                    let e = q[k];
                    visited.insert(e.0);
                    k = k + 1;
                }
                if q.len() > best.len() {
                    // rebuild the best component from the reached list
                    let mut fresh: std::collections::HashSet<u64> = std::collections::HashSet::new();
                    let mut k2: usize = 0;
                    proof {
                        assert(fresh@ =~= Set::<u64>::empty());
                    }
                    while k2 < m
                        invariant
                            m == q@.len(),
                            k2 <= m,
                            forall|u: int|
                                0 <= u < k2 as int ==> fresh@.contains((#[trigger] q@[u]).0),
                            forall|v: u64| #[trigger] fresh@.contains(v) ==> exists|u: int|
                                0 <= u < q@.len() && (#[trigger] q@[u]).0 == v,
                        decreases m - k2,
                    {
                        let e = q[k2];
                        fresh.insert(e.0);
                        k2 = k2 + 1;
                    }
                    proof {
                        assert(fresh@ =~= dists@.dom()) by {
                            assert forall|v: u64| fresh@.contains(v) implies dists@.dom().contains(
                                v,
                            ) by {
                                let u = choose|u: int|
                                    0 <= u < q@.len() && (#[trigger] q@[u]).0 == v;
                                assert(dists@.contains_key(q@[u].0));
                            }
                            assert forall|v: u64| dists@.dom().contains(v) implies fresh@.contains(
                                v,
                            ) by {
                                let u = choose|u: int|
                                    0 <= u < q@.len() && (#[trigger] q@[u]).0 == v;
                            }
                        }
                        assert(dists@.dom() =~= self.component_of(id)) by {
                            assert forall|t: u64| dists@.dom().contains(t) implies self.reachable(
                                id,
                                t,
                            ) by {
                                assert(dists@.contains_key(t));
                            }
                            assert forall|t: u64|
                                self.component_of(id).contains(t) implies dists@.dom().contains(
                                t,
                            ) by {
                                assert(self.reachable(id, t));
                                assert(dists@.contains_key(t));
                            }
                        }
                        // the rebuilt set has the size of the reached list
                        assert(fresh@.len() == q@.len());
                    }
                    best = fresh;
                    proof {
                        best_src = id;
                    }
                } else {
                    proof {
                        assert(dists@.dom() =~= self.component_of(id)) by {
                            assert forall|t: u64| dists@.dom().contains(t) implies self.reachable(
                                id,
                                t,
                            ) by {
                                assert(dists@.contains_key(t));
                            }
                            assert forall|t: u64|
                                self.component_of(id).contains(t) implies dists@.dom().contains(
                                t,
                            ) by {
                                assert(self.reachable(id, t));
                                assert(dists@.contains_key(t));
                            }
                        }
                        assert(self.component_of(id).len() == q@.len());
                        assert(self.component_of(id).len() <= best@.len());
                    }
                }
                proof {
                    // every newly visited node points at this component
                    self.lemma_reach_refl(id);
                    assert(self.component_of(id).len() <= best@.len());
                    assert forall|v: u64| #[trigger] visited@.contains(v) implies self.id_set().contains(v)
                        && exists|s: u64|
                        self.id_set().contains(s) && #[trigger] self.reachable(s, v)
                            && self.component_of(s).len() <= best@.len() by {
                        if old_visited.contains(v) {
                            let s = choose|s: u64|
                                self.id_set().contains(s) && #[trigger] self.reachable(s, v)
                                    && self.component_of(s).len() <= old_best.len();
                            assert(old_best.len() <= best@.len());
                            assert(self.reachable(s, v));
                        } else {
                            let u = choose|u: int| 0 <= u < q@.len() && (#[trigger] q@[u]).0 == v;
                            assert(self.reachable(id, v));
                            self.lemma_reach_endpoints(id, v);
                        }
                    }
                    // the current node's component is now bounded
                    assert(self.component_of(self.ids()[i as int]).len() <= best@.len());
                    assert forall|k3: int|
                        0 <= k3 < i as int implies (#[trigger] self.component_of(
                        self.ids()[k3],
                    )).len() <= best@.len() by {
                        assert(old_best.len() <= best@.len());
                    }
                }
            } else {
                proof {
                    let s = choose|s: u64|
                        self.id_set().contains(s) && #[trigger] self.reachable(s, id)
                            && self.component_of(s).len() <= best@.len();
                    self.lemma_component_eq(s, id);
                    assert(self.component_of(self.ids()[i as int]).len() <= best@.len());
                }
            }
            i = i + 1;
        }
        proof {
            if self.n() > 0 {
                assert(self.id_set().contains(best_src) && best@ == self.component_of(best_src));
            }
            assert forall|id: u64| self.id_set().contains(id) implies (
            #[trigger] self.component_of(id)).len() <= best@.len() by {
                let k = choose|k: int| 0 <= k < self.ids().len() && self.ids()[k] == id;
            }
        }
        best
    }

    /// Single-source shortest paths by breadth-first traversal.
    ///
    /// Maps every node reachable from `from` — and only those — to its
    /// geodesic (hop) distance; the source itself maps to 0. Unreachable
    /// nodes are simply absent.
    pub fn sssp(&self, from: N) -> (r: std::collections::HashMap<u64, i64>)
        requires
            self.wf(),
            self.id_set().contains(from.spec_id()),
        ensures
            forall|t: u64| #[trigger] r@.contains_key(t) <==> self.reachable(from.spec_id(), t),
            forall|t: u64| #[trigger] r@.contains_key(t) ==> self.is_dist(
                from.spec_id(),
                t,
                r@[t] as int,
            ),
            r@.contains_key(from.spec_id()) && r@[from.spec_id()] == 0,
            forall|t: u64| #[trigger] r@.contains_key(t) ==> 0 <= r@[t] < self.n(),
    {
        let fid = from.id();
        let (q, dists) = self.bfs(fid);
        proof {
            assert(q@[0].0 == fid && q@[0].1 == 0);
            assert(dists@.contains_key(fid) && dists@[fid] == 0);
            assert forall|t: u64| #[trigger] dists@.contains_key(t) implies 0 <= dists@[t]
                < self.n() by {
                let k = choose|k: int| 0 <= k < q@.len() && (#[trigger] q@[k]).0 == t;
                assert(0 <= q@[k].1 <= k);
            }
        }
        dists
    }

    /// Connects `from` and `to`: inserts each endpoint into the other's
    /// neighbor list and counts the edge twice, doing nothing on a repeated
    /// insertion. Fails with `NodeNotFound` when either endpoint is absent
    /// and with `SelfLoop` when the endpoints coincide; a failed call leaves
    /// the graph unchanged.
    pub fn add_edge(&mut self, from: N, to: N) -> (r: Result<(), NetError>)
        requires
            old(self).wf(),
        ensures
            final(self).wf(),
            final(self).nodes == old(self).nodes,
            (r == Ok::<(), NetError>(())) <==> (old(self).id_set().contains(from.spec_id())
                && old(self).id_set().contains(to.spec_id()) && from.spec_id() != to.spec_id()),
            (r == Err::<(), NetError>(NetError::NodeNotFound)) <==> !(old(self).id_set().contains(
                from.spec_id(),
            ) && old(self).id_set().contains(to.spec_id())),
            (r == Err::<(), NetError>(NetError::SelfLoop)) <==> (old(self).id_set().contains(
                from.spec_id(),
            ) && old(self).id_set().contains(to.spec_id()) && from.spec_id() == to.spec_id()),
            r is Err ==> *final(self) == *old(self),
            (r is Ok && old(self).has_edge(from.spec_id(), to.spec_id())) ==> *final(self) == *old(self),
            (r is Ok && !old(self).has_edge(from.spec_id(), to.spec_id())) ==> {
                &&& final(self).total_edges == old(self).total_edges + 2
                &&& final(self).nbrs(from.spec_id()) == old(self).nbrs(from.spec_id()).insert(
                    to.spec_id(),
                )
                &&& final(self).nbrs(to.spec_id()) == old(self).nbrs(to.spec_id()).insert(from.spec_id())
                &&& forall|w: u64|
                    w != from.spec_id() && w != to.spec_id() ==> final(self).nbrs(w) == old(self).nbrs(w)
                &&& final(self).degree(from.spec_id()) == old(self).degree(from.spec_id()) + 1
                &&& final(self).degree(to.spec_id()) == old(self).degree(to.spec_id()) + 1
                &&& forall|w: u64|
                    w != from.spec_id() && w != to.spec_id() ==> final(self).degree(w) == old(
                        self,
                    ).degree(w)
            },
    {
        let ghost old_self = *old(self);
        let fid = from.id();
        let tid = to.id();
        let i = match self.find_index(fid) {
            Some(i) => i,
            None => {
                return Err(NetError::NodeNotFound);
            },
        };
        let j = match self.find_index(tid) {
            Some(j) => j,
            None => {
                return Err(NetError::NodeNotFound);
            },
        };
        if fid == tid {
            return Err(NetError::SelfLoop);
        }
        proof {
            self.lemma_pos_of(i as int);
            self.lemma_pos_of(j as int);
            assert(i != j);
        }
        if vec_contains(row_ref(&self.adjacencies, i), tid) {
            proof {
                assert(old_self.has_edge(fid, tid));
            }
            return Ok(());
        }
        proof {
            assert(!old_self.adj_at(j as int).contains(fid)) by {
                assert(old_self.adj_at(i as int).contains(old_self.ids()[j as int])
                    <==> old_self.adj_at(j as int).contains(old_self.ids()[i as int]));
            }
        }
        let row_u = row_mut(&mut self.adjacencies, i);
        row_u.push(tid);
        let row_v = row_mut(&mut self.adjacencies, j);
        row_v.push(fid);
        proof {
            assert(self.total_edges + 2 <= u64::MAX) by {
                old_self.lemma_total_edges_bound();
                assert(old_self.n() * old_self.n() <= 0xFFFF_FFFFi64 * 0xFFFF_FFFFi64)
                    by (nonlinear_arith)
                    requires
                        0 <= old_self.n() <= 0xFFFF_FFFF,
                ;
            }
        }
        self.total_edges = self.total_edges + 2;
        proof {
            let ii = i as int;
            let jj = j as int;
            assert(self.ids() == old_self.ids());
            assert(self.adj_at(ii) == old_self.adj_at(ii).push(tid));
            assert(self.adj_at(jj) == old_self.adj_at(jj).push(fid));
            assert(forall|k: int|
                0 <= k < self.n() && k != ii && k != jj ==> self.adj_at(k) == old_self.adj_at(k));
            lemma_to_set_push(old_self.adj_at(ii), tid);
            lemma_to_set_push(old_self.adj_at(jj), fid);
            assert(forall|y: u64|
                self.adj_at(ii).contains(y) <==> (old_self.adj_at(ii).contains(y) || y == tid)) by {
                assert(forall|y: u64|
                    #![all_triggers]
                    self.adj_at(ii).contains(y) <==> self.adj_at(ii).to_set().contains(y));
                assert(forall|y: u64|
                    #![all_triggers]
                    old_self.adj_at(ii).contains(y) <==> old_self.adj_at(ii).to_set().contains(y));
            }
            assert(forall|y: u64|
                self.adj_at(jj).contains(y) <==> (old_self.adj_at(jj).contains(y) || y == fid)) by {
                assert(forall|y: u64|
                    #![all_triggers]
                    self.adj_at(jj).contains(y) <==> self.adj_at(jj).to_set().contains(y));
                assert(forall|y: u64|
                    #![all_triggers]
                    old_self.adj_at(jj).contains(y) <==> old_self.adj_at(jj).to_set().contains(y));
            }
            // symmetry
            assert forall|a: int, b: int|
                0 <= a < self.n() && 0 <= b < self.n() implies ((#[trigger] self.adj_at(
                a,
            )).contains(self.ids()[b]) <==> (#[trigger] self.adj_at(b)).contains(
                self.ids()[a],
            )) by {
                assert(old_self.adj_at(a).contains(old_self.ids()[b]) <==> old_self.adj_at(
                    b,
                ).contains(old_self.ids()[a]));
                if a != ii && a != jj && b != ii && b != jj {
                } else {
                    assert(self.ids()[ii] == fid && self.ids()[jj] == tid);
                }
            }
            // no duplicates
            assert forall|k: int| 0 <= k < self.n() implies (#[trigger] self.adj_at(
                k,
            )).no_duplicates() by {
                if k == ii || k == jj {
                    let s_old = old_self.adj_at(k);
                    let x = if k == ii {
                        tid
                    } else {
                        fid
                    };
                    assert(self.adj_at(k) == s_old.push(x));
                    assert(!s_old.contains(x));
                    assert(s_old.no_duplicates());
                    assert forall|p: int, q: int|
                        0 <= p < self.adj_at(k).len() && 0 <= q < self.adj_at(k).len() && p
                            != q implies self.adj_at(k)[p] != self.adj_at(k)[q] by {
                        if p < s_old.len() && q < s_old.len() {
                            assert(self.adj_at(k)[p] == s_old[p] && self.adj_at(k)[q] == s_old[q]);
                        } else if p == s_old.len() {
                            assert(self.adj_at(k)[p] == x);
                            assert(self.adj_at(k)[q] == s_old[q]);
                            assert(s_old.contains(s_old[q]));
                        } else {
                            assert(q == s_old.len());
                            assert(self.adj_at(k)[q] == x);
                            assert(self.adj_at(k)[p] == s_old[p]);
                            assert(s_old.contains(s_old[p]));
                        }
                    }
                } else {
                    assert(self.adj_at(k) == old_self.adj_at(k));
                    assert(old_self.adj_at(k).no_duplicates());
                }
            }
            // entries are node ids, and never the row's own id
            assert forall|k: int, m: int|
                0 <= k < self.n() && 0 <= m < self.adj_at(k).len() implies self.id_set().contains(
                #[trigger] self.adj_at(k)[m],
            ) by {
                if (k == ii || k == jj) && m == self.adj_at(k).len() - 1 {
                    assert(self.id_set().contains(fid) && self.id_set().contains(tid));
                } else {
                    assert(old_self.id_set().contains(old_self.adj_at(k)[m]));
                }
            }
            assert forall|k: int| 0 <= k < self.n() implies !(#[trigger] self.adj_at(k)).contains(
                self.ids()[k],
            ) by {
                assert(!old_self.adj_at(k).contains(old_self.ids()[k]));
                if k == ii {
                    assert(self.ids()[k] == fid && fid != tid);
                } else if k == jj {
                    assert(self.ids()[k] == tid && fid != tid);
                }
            }
            // edge count
            assert(self.total_edges == self.degree_sum()) by {
                let rows0 = old_self.adjacencies@;
                let rows1 = rows0.update(ii, self.adjacencies@[ii]);
                let rows2 = rows1.update(jj, self.adjacencies@[jj]);
                assert(self.adjacencies@ == rows2);
                lemma_adj_len_sum_update(rows0, ii, self.adjacencies@[ii]);
                lemma_adj_len_sum_update(rows1, jj, self.adjacencies@[jj]);
                assert(rows1[jj] == rows0[jj]);
            }
            assert(self.wf());
            // neighbor-set postconditions
            self.lemma_pos_of(ii);
            self.lemma_pos_of(jj);
            old_self.lemma_pos_of(ii);
            old_self.lemma_pos_of(jj);
            assert(self.nbrs(fid) =~= old_self.nbrs(fid).insert(tid));
            assert(self.nbrs(tid) =~= old_self.nbrs(tid).insert(fid));
            assert forall|w: u64| w != fid && w != tid implies self.nbrs(w) == old_self.nbrs(
                w,
            ) && self.degree(w) == old_self.degree(w) by {
                if self.id_set().contains(w) {
                    let p = self.pos_of(w);
                    assert(self.ids().contains(w));
                    assert(0 <= p < self.n());
                    assert(p != ii && p != jj);
                    self.lemma_pos_of(p);
                    old_self.lemma_pos_of(p);
                } else {
                    assert(!old_self.id_set().contains(w));
                }
            }
        }
        Ok(())
    }

    /// Disconnects `from` and `to`: removes each endpoint from the other's
    /// neighbor list and uncounts the edge (by 2) if it was present, doing
    /// nothing otherwise. Fails with `NodeNotFound` when either endpoint is
    /// absent; a failed call leaves the graph unchanged.
    pub fn remove_edge(&mut self, from: N, to: N) -> (r: Result<(), NetError>)
        requires
            old(self).wf(),
        ensures
            final(self).wf(),
            final(self).nodes == old(self).nodes,
            (r == Ok::<(), NetError>(())) <==> (old(self).id_set().contains(from.spec_id())
                && old(self).id_set().contains(to.spec_id())),
            (r == Err::<(), NetError>(NetError::NodeNotFound)) <==> !(old(self).id_set().contains(
                from.spec_id(),
            ) && old(self).id_set().contains(to.spec_id())),
            r is Err ==> *final(self) == *old(self),
            (r is Ok && !old(self).has_edge(from.spec_id(), to.spec_id())) ==> *final(self)
                == *old(self),
            (r is Ok && old(self).has_edge(from.spec_id(), to.spec_id())) ==> {
                &&& final(self).total_edges == old(self).total_edges - 2
                &&& final(self).nbrs(from.spec_id()) == old(self).nbrs(from.spec_id()).remove(
                    to.spec_id(),
                )
                &&& final(self).nbrs(to.spec_id()) == old(self).nbrs(to.spec_id()).remove(
                    from.spec_id(),
                )
                &&& forall|w: u64|
                    w != from.spec_id() && w != to.spec_id() ==> final(self).nbrs(w) == old(
                        self,
                    ).nbrs(w)
                &&& final(self).degree(from.spec_id()) == old(self).degree(from.spec_id()) - 1
                &&& final(self).degree(to.spec_id()) == old(self).degree(to.spec_id()) - 1
                &&& forall|w: u64|
                    w != from.spec_id() && w != to.spec_id() ==> final(self).degree(w) == old(
                        self,
                    ).degree(w)
            },
    {
        let ghost old_self = *old(self);
        let fid = from.id();
        let tid = to.id();
        let i = match self.find_index(fid) {
            Some(i) => i,
            None => {
                return Err(NetError::NodeNotFound);
            },
        };
        let j = match self.find_index(tid) {
            Some(j) => j,
            None => {
                return Err(NetError::NodeNotFound);
            },
        };
        proof {
            self.lemma_pos_of(i as int);
            self.lemma_pos_of(j as int);
        }
        if !vec_contains(row_ref(&self.adjacencies, i), tid) {
            proof {
                assert(!old_self.has_edge(fid, tid));
            }
            return Ok(());
        }
        proof {
            assert(fid != tid) by {
                assert(!old_self.adj_at(i as int).contains(old_self.ids()[i as int]));
            }
            assert(i != j);
            assert(old_self.adj_at(j as int).contains(fid)) by {
                assert(old_self.adj_at(i as int).contains(old_self.ids()[j as int])
                    <==> old_self.adj_at(j as int).contains(old_self.ids()[i as int]));
            }
        }
        let row_u = row_mut(&mut self.adjacencies, i);
        remove_value(row_u, tid);
        let row_v = row_mut(&mut self.adjacencies, j);
        remove_value(row_v, fid);
        proof {
            assert(self.total_edges >= 2) by {
                lemma_adj_len_sum_pair(
                    old_self.adjacencies@,
                    if i < j {
                        i as int
                    } else {
                        j as int
                    },
                    if i < j {
                        j as int
                    } else {
                        i as int
                    },
                );
                assert(old_self.adj_at(i as int).len() >= 1);
                assert(old_self.adj_at(j as int).len() >= 1);
            }
        }
        self.total_edges = self.total_edges - 2;
        proof {
            let ii = i as int;
            let jj = j as int;
            assert(self.ids() == old_self.ids());
            let su = self.adj_at(ii);
            let sv = self.adj_at(jj);
            let ou = old_self.adj_at(ii);
            let ov = old_self.adj_at(jj);
            assert(su.to_set() == ou.to_set().remove(tid));
            assert(sv.to_set() == ov.to_set().remove(fid));
            assert(forall|k: int|
                0 <= k < self.n() && k != ii && k != jj ==> self.adj_at(k) == old_self.adj_at(k));
            assert(forall|y: u64| su.contains(y) <==> (ou.contains(y) && y != tid));
            assert(forall|y: u64| sv.contains(y) <==> (ov.contains(y) && y != fid));
            // symmetry
            assert forall|a: int, b: int|
                0 <= a < self.n() && 0 <= b < self.n() implies ((#[trigger] self.adj_at(
                a,
            )).contains(self.ids()[b]) <==> (#[trigger] self.adj_at(b)).contains(
                self.ids()[a],
            )) by {
                assert(old_self.adj_at(a).contains(old_self.ids()[b]) <==> old_self.adj_at(
                    b,
                ).contains(old_self.ids()[a]));
                if a == ii || a == jj || b == ii || b == jj {
                    assert(self.ids()[ii] == fid && self.ids()[jj] == tid);
                }
            }
            // no duplicates
            assert forall|k: int| 0 <= k < self.n() implies (#[trigger] self.adj_at(
                k,
            )).no_duplicates() by {
                if k != ii && k != jj {
                    assert(self.adj_at(k) == old_self.adj_at(k));
                    assert(old_self.adj_at(k).no_duplicates());
                }
            }
            // entries are node ids, and never the row's own id
            assert forall|k: int, m: int|
                0 <= k < self.n() && 0 <= m < self.adj_at(k).len() implies self.id_set().contains(
                #[trigger] self.adj_at(k)[m],
            ) by {
                let y = self.adj_at(k)[m];
                assert(self.adj_at(k).contains(y));
                if k == ii {
                    assert(ou.contains(y));
                    let p = choose|p: int| 0 <= p < ou.len() && ou[p] == y;
                    assert(old_self.id_set().contains(ou[p]));
                } else if k == jj {
                    assert(ov.contains(y));
                    let p = choose|p: int| 0 <= p < ov.len() && ov[p] == y;
                    assert(old_self.id_set().contains(ov[p]));
                } else {
                    assert(old_self.id_set().contains(old_self.adj_at(k)[m]));
                }
            }
            assert forall|k: int| 0 <= k < self.n() implies !(#[trigger] self.adj_at(k)).contains(
                self.ids()[k],
            ) by {
                assert(!old_self.adj_at(k).contains(old_self.ids()[k]));
            }
            // edge count
            assert(self.total_edges == self.degree_sum()) by {
                let rows0 = old_self.adjacencies@;
                let rows1 = rows0.update(ii, self.adjacencies@[ii]);
                let rows2 = rows1.update(jj, self.adjacencies@[jj]);
                assert(self.adjacencies@ == rows2);
                lemma_adj_len_sum_update(rows0, ii, self.adjacencies@[ii]);
                lemma_adj_len_sum_update(rows1, jj, self.adjacencies@[jj]);
                assert(rows1[jj] == rows0[jj]);
            }
            assert(self.wf());
            // neighbor-set postconditions
            self.lemma_pos_of(ii);
            self.lemma_pos_of(jj);
            old_self.lemma_pos_of(ii);
            old_self.lemma_pos_of(jj);
            assert(self.nbrs(fid) =~= old_self.nbrs(fid).remove(tid));
            assert(self.nbrs(tid) =~= old_self.nbrs(tid).remove(fid));
            assert forall|w: u64| w != fid && w != tid implies self.nbrs(w) == old_self.nbrs(
                w,
            ) && self.degree(w) == old_self.degree(w) by {
                if self.id_set().contains(w) {
                    let p = self.pos_of(w);
                    assert(self.ids().contains(w));
                    assert(0 <= p < self.n());
                    assert(p != ii && p != jj);
                    self.lemma_pos_of(p);
                    old_self.lemma_pos_of(p);
                } else {
                    assert(!old_self.id_set().contains(w));
                }
            }
        }
        Ok(())
    }

    /// Builds an edgeless graph over the given nodes, whose ids must be
    /// unique.
    pub fn from_node_vec(node_vec: Vec<N>) -> (r: Self)
        requires
            node_vec@.len() <= 0xFFFF_FFFF,
            forall|i: int, j: int|
                0 <= i < node_vec@.len() && 0 <= j < node_vec@.len() && i != j
                    ==> node_vec@[i].spec_id() != node_vec@[j].spec_id(),
        ensures
            r.wf(),
            r.nodes == node_vec,
            r.total_edges == 0,
            forall|u: u64, v: u64| !r.has_edge(u, v),
            forall|id: u64| r.degree(id) == 0,
    {
        let n = node_vec.len();
        let mut adjacencies: Vec<Vec<u64>> = Vec::new();
        let mut i: usize = 0;
        while i < n
            invariant
                i <= n,
                adjacencies@.len() == i as int,
                forall|k: int| 0 <= k < i as int ==> (#[trigger] adjacencies@[k])@.len() == 0,
                adj_len_sum(adjacencies@) == 0,
            decreases n - i,
        {
            let row: Vec<u64> = Vec::new();
            proof {
                assert(adjacencies@.push(row).drop_last() =~= adjacencies@);
            }
            adjacencies.push(row);
            i = i + 1;
        }
        let r = SimpleNetwork { nodes: node_vec, adjacencies, total_edges: 0u64 };
        proof {
            assert forall|u: u64, v: u64| !r.has_edge(u, v) by {
                if r.id_set().contains(u) {
                    let p = r.pos_of(u);
                    assert(r.ids().contains(u));
                    assert(0 <= p < r.n());
                    assert(r.adj_at(p).len() == 0);
                }
            }
            assert forall|id: u64| r.degree(id) == 0 by {
                if r.id_set().contains(id) {
                    let p = r.pos_of(id);
                    assert(r.ids().contains(id));
                    assert(0 <= p < r.n());
                }
            }
        }
        r
    }

    /// The pair list `r` holds entry `c` of adjacency row `a`.
    pub open spec fn pair_listed(&self, r: Seq<(u64, u64)>, a: int, c: int) -> bool {
        exists|k: int| 0 <= k < r.len() && #[trigger] r[k] == (self.ids()[a], self.adj_at(a)[c])
    }

    /// Every directed adjacency entry as an explicit `(node, neighbor)` pair;
    /// one pair per entry, so the list's length is `total_edges`.
    pub fn edgelist(&self) -> (r: Vec<(u64, u64)>)
        requires
            self.wf(),
        ensures
            r@.len() == self.total_edges,
            forall|k: int| 0 <= k < r@.len() ==> self.has_edge((#[trigger] r@[k]).0, r@[k].1),
            forall|u: u64, v: u64|
                #[trigger] self.has_edge(u, v) ==> exists|k: int|
                    0 <= k < r@.len() && r@[k] == (u, v),
    {
        let n = self.nodes.len();
        let mut r: Vec<(u64, u64)> = Vec::new();
        let mut i: usize = 0;
        while i < n
            invariant
                self.wf(),
                n == self.nodes@.len(),
                i <= n,
                r@.len() == adj_len_sum(self.adjacencies@.subrange(0, i as int)),
                forall|k: int| 0 <= k < r@.len() ==> self.has_edge((#[trigger] r@[k]).0, r@[k].1),
                forall|a: int, c: int|
                    #![trigger self.adj_at(a)[c]]
                    0 <= a < i as int && 0 <= c < self.adj_at(a).len() ==> self.pair_listed(
                        r@,
                        a,
                        c,
                    ),
            decreases n - i,
        {
            let id = self.nodes[i].id();
            proof {
                self.lemma_pos_of(i as int);
            }
            let row = row_ref(&self.adjacencies, i);
            let deg = row.len();
            let mut b: usize = 0;
            while b < deg
                invariant
                    self.wf(),
                    n == self.nodes@.len(),
                    i < n,
                    id == self.ids()[i as int],
                    self.nbrs(id) == self.adj_at(i as int).to_set(),
                    *row == self.adjacencies@[i as int],
                    deg == row@.len(),
                    b <= deg,
                    r@.len() == adj_len_sum(self.adjacencies@.subrange(0, i as int)) + b,
                    forall|k: int|
                        0 <= k < r@.len() ==> self.has_edge((#[trigger] r@[k]).0, r@[k].1),
                    forall|a: int, c: int|
                        #![trigger self.adj_at(a)[c]]
                        0 <= a < i as int && 0 <= c < self.adj_at(a).len() ==> self.pair_listed(
                            r@,
                            a,
                            c,
                        ),
                    forall|c: int|
                        #![trigger self.adj_at(i as int)[c]]
                        0 <= c < b as int ==> self.pair_listed(r@, i as int, c),
                decreases deg - b,
            {
                let v = row[b];
                let ghost r_pre = r@;
                proof {
                    assert(self.adj_at(i as int).contains(v));
                    assert(self.nbrs(id).contains(v));
                    lemma_adj_len_sum_single(self.adjacencies@, i as int);
                    self.lemma_total_edges_bound();
                }
                r.push((id, v));
                proof {
                    assert(r@[r_pre.len() as int] == (id, v));
                    assert forall|a: int, c: int|
                        #![trigger self.adj_at(a)[c]]
                        (0 <= a < i as int && 0 <= c < self.adj_at(a).len()) || (a == i as int && 0
                            <= c < b + 1) implies self.pair_listed(r@, a, c) by {
                        if a == i as int && c == b as int {
                            assert(r@[r_pre.len() as int] == (self.ids()[a], self.adj_at(a)[c]));
                        } else {
                            assert(self.pair_listed(r_pre, a, c));
                            let k = choose|k: int|
                                0 <= k < r_pre.len() && #[trigger] r_pre[k] == (
                                self.ids()[a],
                                self.adj_at(a)[c],
                                );
                            assert(r@[k] == r_pre[k]);
                        }
                    }
                }
                b = b + 1;
            }
            proof {
                assert(self.adjacencies@.subrange(0, i + 1).drop_last() =~= self.adjacencies@.subrange(
                    0,
                    i as int,
                ));
                assert(adj_len_sum(self.adjacencies@.subrange(0, i + 1)) == adj_len_sum(
                    self.adjacencies@.subrange(0, i as int),
                ) + self.adj_at(i as int).len());
            }
            i = i + 1;
        }
        proof {
            assert(self.adjacencies@.subrange(0, n as int) =~= self.adjacencies@);
            assert forall|u: u64, v: u64| #[trigger] self.has_edge(u, v) implies exists|k: int|
                0 <= k < r@.len() && r@[k] == (u, v) by {
                let a = self.pos_of(u);
                assert(self.ids().contains(u));
                self.lemma_pos_of(a);
                assert(self.adj_at(a).to_set().contains(v));
                let c = choose|c: int| 0 <= c < self.adj_at(a).len() && self.adj_at(a)[c] == v;
                assert(self.pair_listed(r@, a, c));
                let k = choose|k: int|
                    0 <= k < r@.len() && #[trigger] r@[k] == (self.ids()[a], self.adj_at(a)[c]);
            }
        }
        r
    }

    /// One accepted double edge swap: the edges `(u,v)` and `(x,y)` of `pre`
    /// are replaced by `(u,x)` and `(v,y)` in `post`, everything else
    /// untouched.
    pub open spec fn swapped(pre: Self, post: Self, u: u64, v: u64, x: u64, y: u64) -> bool {
        &&& pre.has_edge(u, v)
        &&& pre.has_edge(x, y)
        &&& !pre.has_edge(u, x)
        &&& !pre.has_edge(v, y)
        &&& u != x && v != y && u != v && x != y && u != y && v != x
        &&& post.nbrs(u) == pre.nbrs(u).remove(v).insert(x)
        &&& post.nbrs(v) == pre.nbrs(v).remove(u).insert(y)
        &&& post.nbrs(x) == pre.nbrs(x).remove(y).insert(u)
        &&& post.nbrs(y) == pre.nbrs(y).remove(x).insert(v)
        &&& forall|w: u64| w != u && w != v && w != x && w != y ==> post.nbrs(w) == pre.nbrs(w)
    }

    /// Performs a random double edge swap on the graph.
    ///
    /// Draws two directed adjacency entries uniformly and, when replacing
    /// them as `swapped` describes keeps the graph simple, commits the
    /// replacement; otherwise it redraws, and gives up with
    /// `NoValidSwapFound` after a fixed budget of attempts. An accepted swap
    /// changes no node's degree and leaves the edge count unchanged.
    pub fn double_edge_swap(&mut self) -> (r: Result<(), NetError>)
        requires
            old(self).wf(),
        ensures
            final(self).wf(),
            final(self).nodes == old(self).nodes,
            r is Err ==> *final(self) == *old(self) && r == Err::<(), NetError>(
                NetError::NoValidSwapFound,
            ),
            old(self).total_edges == 0 ==> r is Err,
            r is Ok ==> {
                &&& final(self).total_edges == old(self).total_edges
                &&& forall|id: u64| final(self).degree(id) == old(self).degree(id)
                &&& exists|u: u64, v: u64, x: u64, y: u64|
                    Self::swapped(*old(self), *final(self), u, v, x, y)
            },
    {
        let flat = self.edgelist();
        let m = flat.len();
        if m == 0 {
            return Err(NetError::NoValidSwapFound);
        }
        let mut attempt: usize = 0;
        while attempt < 1024
            invariant
                self.wf(),
                *self == *old(self),
                m == flat@.len(),
                m > 0,
                forall|k: int| 0 <= k < flat@.len() ==> self.has_edge((#[trigger] flat@[k]).0, flat@[k].1),
            decreases 1024 - attempt,
        {
            let c1 = rand_index(m);
            let c2 = rand_index(m);
            let (u, v) = flat[c1];
            let (x, y) = flat[c2];
            if u != x && v != y && !self.edge_between(u, x) && !self.edge_between(v, y) {
                let ghost g0 = *self;
                proof {
                    assert(g0.has_edge(u, v) && g0.has_edge(x, y));
                    g0.lemma_edge_in_ids(u, v);
                    g0.lemma_edge_in_ids(x, y);
                    assert(v != x) by {
                        if v == x {
                            g0.lemma_edge_symm(u, v);
                            assert(g0.has_edge(u, x));
                        }
                    }
                    assert(u != y) by {
                        if u == y {
                            g0.lemma_edge_symm(u, v);
                            g0.lemma_edge_symm(v, u);
                            assert(g0.nbrs(v).contains(u));
                            assert(g0.has_edge(v, y));
                        }
                    }
                }
                // the four endpoints are distinct node ids and the swap keeps
                // the graph simple, so each step below succeeds
                let un = self.node_at_id(u);
                let vn = self.node_at_id(v);
                let xn = self.node_at_id(x);
                let yn = self.node_at_id(y);
                let ghost g_0 = *self;
                let r1 = self.remove_edge(un, vn);
                proof {
                    assert(r1 is Ok);
                }
                let ghost g1 = *self;
                let r2 = self.remove_edge(xn, yn);
                proof {
                    assert(g1.has_edge(x, y));
                    assert(r2 is Ok);
                }
                let ghost g2 = *self;
                let r3 = self.add_edge(un, xn);
                proof {
                    assert(!g2.has_edge(u, x));
                    assert(r3 is Ok);
                }
                let ghost g3 = *self;
                let r4 = self.add_edge(vn, yn);
                proof {
                    assert(!g3.has_edge(v, y));
                    assert(r4 is Ok);
                }
                proof {
                    assert(Self::swapped(g0, *self, u, v, x, y)) by {
                        assert(self.nbrs(u) =~= g0.nbrs(u).remove(v).insert(x));
                        assert(self.nbrs(v) =~= g0.nbrs(v).remove(u).insert(y));
                        assert(self.nbrs(x) =~= g0.nbrs(x).remove(y).insert(u));
                        assert(self.nbrs(y) =~= g0.nbrs(y).remove(x).insert(v));
                    }
                    assert forall|id: u64| self.degree(id) == g0.degree(id) by {
                        if id != u && id != v && id != x && id != y {
                            assert(g3.degree(id) == g2.degree(id));
                        }
                    }
                }
                return Ok(());
            }
            attempt = attempt + 1;
        }
        Err(NetError::NoValidSwapFound)
    }

    /// The node value carrying a given id known to be in the graph.
    fn node_at_id(&self, id: u64) -> (r: N)
        requires
            self.wf(),
            self.id_set().contains(id),
        ensures
            r.spec_id() == id,
    {
        match self.find_index(id) {
            Some(i) => self.nodes[i],
            None => {
                proof {
                    assert(false);
                }
                self.nodes[0]
            },
        }
    }

    /// Randomly rewires the edge `(from, to)`, keeping its `from` end: the
    /// edge is redirected to a uniformly drawn node not already adjacent to
    /// `from` (and distinct from it, keeping the graph simple). Does nothing
    /// when the edge is absent; gives up with `NoValidSwapFound` after a
    /// fixed budget of redraws.
    pub fn rewire_edge(&mut self, from: N, to: N) -> (r: Result<(), NetError>)
        requires
            old(self).wf(),
        ensures
            final(self).wf(),
            final(self).nodes == old(self).nodes,
            (r == Err::<(), NetError>(NetError::NodeNotFound)) <==> !(old(self).id_set().contains(
                from.spec_id(),
            ) && old(self).id_set().contains(to.spec_id())),
            r is Err ==> *final(self) == *old(self),
            (r is Ok && !old(self).has_edge(from.spec_id(), to.spec_id())) ==> *final(self)
                == *old(self),
            (r is Ok && old(self).has_edge(from.spec_id(), to.spec_id())) ==> exists|d: u64|
                {
                    &&& old(self).id_set().contains(d)
                    &&& d != from.spec_id()
                    &&& !old(self).nbrs(from.spec_id()).contains(d)
                    &&& #[trigger] final(self).nbrs(from.spec_id()) == old(self).nbrs(
                        from.spec_id(),
                    ).remove(to.spec_id()).insert(d)
                    &&& final(self).nbrs(to.spec_id()) == old(self).nbrs(to.spec_id()).remove(
                        from.spec_id(),
                    )
                    &&& final(self).nbrs(d) == old(self).nbrs(d).insert(from.spec_id())
                    &&& final(self).total_edges == old(self).total_edges
                    &&& final(self).degree(from.spec_id()) == old(self).degree(from.spec_id())
                },
    {
        let fid = from.id();
        let tid = to.id();
        let present = match self.find_index(fid) {
            Some(_) => self.find_index(tid).is_some(),
            None => false,
        };
        if !present {
            return Err(NetError::NodeNotFound);
        }
        if !self.edge_between(fid, tid) {
            return Ok(());
        }
        let n = self.nodes.len();
        let mut attempt: usize = 0;
        while attempt < 1024
            invariant
                self.wf(),
                *self == *old(self),
                n == self.nodes@.len(),
                n > 0,
                self.id_set().contains(fid),
                self.id_set().contains(tid),
                self.has_edge(fid, tid),
                fid == from.spec_id(),
                tid == to.spec_id(),
            decreases 1024 - attempt,
        {
            let di = rand_index(n);
            let dn = self.nodes[di];
            let d = dn.id();
            proof {
                assert(self.ids()[di as int] == d);
                assert(self.ids().contains(d));
            }
            if d != fid && !self.edge_between(fid, d) {
                let ghost g0 = *self;
                let r1 = self.remove_edge(from, to);
                proof {
                    assert(r1 is Ok);
                }
                let ghost g1 = *self;
                let r2 = self.add_edge(from, dn);
                proof {
                    assert(d != tid) by {
                        assert(g0.nbrs(fid).contains(tid));
                    }
                    assert(!g1.has_edge(fid, d));
                    assert(r2 is Ok);
                }
                proof {
                    assert(self.nbrs(fid) =~= g0.nbrs(fid).remove(tid).insert(d));
                    assert(self.nbrs(tid) =~= g0.nbrs(tid).remove(fid)) by {
                        assert(d != tid);
                        assert(g1.nbrs(tid) == g0.nbrs(tid).remove(fid));
                    }
                    assert(self.nbrs(d) =~= g0.nbrs(d).insert(fid)) by {
                        assert(g1.nbrs(d) == g0.nbrs(d));
                    }
                }
                return Ok(());
            }
            attempt = attempt + 1;
        }
        Err(NetError::NoValidSwapFound)
    }

    /// A predecessor table rooted at `from`: every key holds its geodesic
    /// distance and, when that distance is positive, an adjacent predecessor
    /// one hop closer to the root.
    spec fn pred_map_ok(&self, from: u64, pm: Map<u64, (i64, u64)>) -> bool {
        &&& pm.contains_key(from) && pm[from].0 == 0
        &&& forall|t: u64| #[trigger] pm.contains_key(t) ==> 0 <= pm[t].0 && self.is_dist(from, t, pm[t].0 as int)
        &&& forall|t: u64|
            #[trigger] pm.contains_key(t) && pm[t].0 > 0 ==> self.has_edge(pm[t].1, t)
                && pm.contains_key(pm[t].1) && pm[pm[t].1].0 == pm[t].0 - 1
        &&& forall|t: u64| #[trigger] pm.contains_key(t) && pm[t].0 == 0 ==> t == from
    }

    /// Walks a predecessor table back from `t` to the root, returning the
    /// predecessor sequence of one shortest path (root first, `t` excluded).
    #[verifier::rlimit(100)]
    fn walk_preds(
        &self,
        pm: &std::collections::HashMap<u64, (i64, u64)>,
        from: u64,
        t: u64,
        dt: i64,
    ) -> (path: Vec<u64>)
        requires
            self.wf(),
            self.id_set().contains(from),
            self.pred_map_ok(from, pm@),
            pm@.contains_key(t),
            pm@[t].0 == dt,
            self.id_set().contains(t),
        ensures
            ({
                let p = path@.push(t);
                &&& self.is_path(p)
                &&& p[0] == from
                &&& p.no_duplicates()
                &&& path@.len() == dt as int
            }),
    {
        // collect the predecessors of t in reverse (t's predecessor first)
        let mut revpath: Vec<u64> = Vec::new();
        let mut cur: u64 = t;
        let mut dc: i64 = dt;
        while dc > 0
            invariant
                self.wf(),
                self.id_set().contains(from),
                self.pred_map_ok(from, pm@),
                pm@.contains_key(cur),
                pm@[cur].0 == dc,
                0 <= dc <= dt,
                revpath@.len() == dt - dc,
                cur == if revpath@.len() == 0 {
                    t
                } else {
                    revpath@.last()
                },
                forall|m: int|
                    0 <= m < revpath@.len() ==> pm@.contains_key(#[trigger] revpath@[m])
                        && pm@[revpath@[m]].0 == dt - 1 - m && self.id_set().contains(revpath@[m]),
                forall|m: int|
                    0 <= m < revpath@.len() ==> self.has_edge(
                        #[trigger] revpath@[m],
                        if m == 0 {
                            t
                        } else {
                            revpath@[m - 1]
                        },
                    ),
            decreases dc,
        {
            let pr = match pm.get(&cur) {
                Some(x) => *x,
                None => {
                    proof {
                        assert(false);
                    }
                    (0i64, 0u64)
                },
            };
            let p = pr.1;
            proof {
                assert(pr == pm@[cur]);
                assert(self.has_edge(p, cur));
                self.lemma_edge_in_ids(p, cur);
            }
            revpath.push(p);
            cur = p;
            dc = dc - 1;
        }
        proof {
            assert(cur == from);
        }
        // reverse into source-to-predecessor order
        let rn = revpath.len();
        let mut path: Vec<u64> = Vec::new();
        let mut j: usize = rn;
        while j > 0
            invariant
                rn == revpath@.len(),
                j <= rn,
                path@.len() == rn - j,
                forall|u: int| 0 <= u < path@.len() ==> #[trigger] path@[u] == revpath@[rn - 1 - u],
            decreases j,
        {
            j = j - 1;
            path.push(revpath[j]);
        }
        proof {
            let full = path@.push(t);
            assert(full.len() == dt + 1);
            if dt == 0 {
                assert(full[0] == t && t == from);
            } else {
                assert(full[0] == path@[0] && path@[0] == revpath@[rn - 1]);
                assert(pm@[revpath@[rn - 1]].0 == 0);
                assert(full[0] == from);
            }
            assert forall|m: int| 0 <= m < full.len() implies pm@.contains_key(#[trigger] full[m])
                && pm@[full[m]].0 == m && self.id_set().contains(full[m]) by {
                if m < dt {
                    assert(full[m] == revpath@[rn - 1 - m]);
                } else {
                    assert(full[m] == t);
                }
            }
            assert forall|m: int| 0 <= m < full.len() - 1 implies self.has_edge(
                #[trigger] full[m],
                full[m + 1],
            ) by {
                assert(full[m] == revpath@[rn - 1 - m]);
                if m + 1 < dt {
                    assert(full[m + 1] == revpath@[rn - 2 - m]);
                    assert(self.has_edge(revpath@[rn - 1 - m], revpath@[(rn - 1 - m) - 1]));
                } else {
                    assert(full[m + 1] == t);
                    assert(self.has_edge(revpath@[0], t));
                }
            }
            assert(self.is_path(full));
            assert(full.no_duplicates()) by {
                assert forall|m1: int, m2: int|
                    0 <= m1 < full.len() && 0 <= m2 < full.len() && m1 != m2 implies full[m1]
                    != full[m2] by {
                    assert(pm@[full[m1]].0 == m1 && pm@[full[m2]].0 == m2);
                }
            }
        }
        path
    }

    /// Like `sssp`, but reconstructs for each reachable node the sequence of
    /// predecessors along one shortest path from the source (the node itself
    /// excluded; ties broken by traversal order).
    #[verifier::rlimit(100)]
    pub fn sssp_verbose(&self, from: N) -> (r: std::collections::HashMap<u64, Vec<u64>>)
        requires
            self.wf(),
            self.id_set().contains(from.spec_id()),
        ensures
            forall|t: u64| #[trigger] r@.contains_key(t) <==> self.reachable(from.spec_id(), t),
            forall|t: u64|
                #[trigger] r@.contains_key(t) ==> {
                    let p = r@[t]@.push(t);
                    &&& self.is_path(p)
                    &&& p[0] == from.spec_id()
                    &&& p.no_duplicates()
                    &&& self.is_dist(from.spec_id(), t, r@[t]@.len() as int)
                },
    {
        let fid = from.id();
        let (q, dists) = self.bfs(fid);
        let qn = q.len();
        // predecessor table keyed by id
        let mut pm: std::collections::HashMap<u64, (i64, u64)> = std::collections::HashMap::new();
        let mut k: usize = 0;
        while k < qn
            invariant
                qn == q@.len(),
                k <= qn,
                forall|t: u64| #[trigger] pm@.contains_key(t) ==> exists|j: int|
                    0 <= j < k as int && (#[trigger] q@[j]).0 == t,
                forall|j: int|
                    0 <= j < k as int ==> pm@.contains_key((#[trigger] q@[j]).0)
                        && pm@[q@[j].0] == (q@[j].1, q@[j].2),
                forall|j1: int, j2: int|
                    0 <= j1 < q@.len() && 0 <= j2 < q@.len() && j1 != j2 ==> (#[trigger] q@[j1]).0
                        != (#[trigger] q@[j2]).0,
            decreases qn - k,
        {
            let e = q[k];
            let ghost pm_pre = pm@;
            pm.insert(e.0, (e.1, e.2));
            proof {
                assert forall|j: int|
                    0 <= j < k + 1 implies pm@.contains_key((#[trigger] q@[j]).0) && pm@[q@[j].0]
                    == (q@[j].1, q@[j].2) by {
                    if j < k as int {
                        assert(q@[j].0 != q@[k as int].0);
                    }
                }
            }
            k = k + 1;
        }
        proof {
            // the finished table is a well-formed predecessor table
            assert(pm@.contains_key(q@[0].0) && pm@[q@[0].0] == (q@[0].1, q@[0].2));
            assert forall|t: u64| #[trigger] pm@.contains_key(t) implies 0 <= pm@[t].0
                && self.is_dist(fid, t, pm@[t].0 as int) by {
                let j = choose|j: int| 0 <= j < qn as int && (#[trigger] q@[j]).0 == t;
                assert(dists@.contains_key(q@[j].0) && dists@[q@[j].0] == q@[j].1);
            }
            assert forall|t: u64|
                #[trigger] pm@.contains_key(t) && pm@[t].0 > 0 implies self.has_edge(pm@[t].1, t)
                && pm@.contains_key(pm@[t].1) && pm@[pm@[t].1].0 == pm@[t].0 - 1 by {
                let j = choose|j: int| 0 <= j < qn as int && (#[trigger] q@[j]).0 == t;
                assert(j != 0) by {
                    assert(q@[0] == (fid, 0i64, fid));
                }
                assert(self.has_edge(q@[j].2, q@[j].0));
                let j2 = choose|j2: int|
                    0 <= j2 < j && (#[trigger] q@[j2]).0 == q@[j].2 && q@[j2].1 + 1 == q@[j].1;
                assert(pm@.contains_key(q@[j2].0) && pm@[q@[j2].0] == (q@[j2].1, q@[j2].2));
            }
            assert forall|t: u64| #[trigger] pm@.contains_key(t) && pm@[t].0 == 0 implies t
                == fid by {
                assert(self.is_dist(fid, t, 0));
                let p = choose|p: Seq<u64>|
                    self.is_path(p) && p.first() == fid && p.last() == t && p.len() == 0 + 1;
                assert(p.first() == p.last());
            }
            assert(self.pred_map_ok(fid, pm@));
        }
        // reconstruct one shortest path per reached node
        let mut r: std::collections::HashMap<u64, Vec<u64>> = std::collections::HashMap::new();
        let mut k2: usize = 0;
        while k2 < qn
            invariant
                self.wf(),
                self.id_set().contains(fid),
                qn == q@.len(),
                k2 <= qn,
                self.pred_map_ok(fid, pm@),
                forall|j: int|
                    0 <= j < qn as int ==> pm@.contains_key((#[trigger] q@[j]).0)
                        && pm@[q@[j].0] == (q@[j].1, q@[j].2),
                forall|t: u64| #[trigger] dists@.contains_key(t) <==> self.reachable(fid, t),
                forall|j: int|
                    0 <= j < qn as int ==> dists@.contains_key((#[trigger] q@[j]).0),
                forall|t: u64| #[trigger] dists@.contains_key(t) ==> exists|j: int|
                    0 <= j < qn as int && (#[trigger] q@[j]).0 == t,
                forall|t: u64| #[trigger] r@.contains_key(t) ==> exists|j: int|
                    0 <= j < k2 as int && (#[trigger] q@[j]).0 == t,
                forall|j: int| 0 <= j < k2 as int ==> r@.contains_key((#[trigger] q@[j]).0),
                forall|t: u64|
                    #[trigger] r@.contains_key(t) ==> {
                        let p = r@[t]@.push(t);
                        &&& self.is_path(p)
                        &&& p[0] == fid
                        &&& p.no_duplicates()
                        &&& self.is_dist(fid, t, r@[t]@.len() as int)
                    },
            decreases qn - k2,
        {
            let e = q[k2];
            let t = e.0;
            let dt = e.1;
            proof {
                assert(pm@.contains_key(t) && pm@[t] == (dt, e.2));
            }
            let path = self.walk_preds(&pm, fid, t, dt);
            let ghost r_pre = r@;
            proof {
                assert(self.is_dist(fid, t, path@.len() as int));
            }
            r.insert(t, path);
            proof {
                assert forall|t2: u64| #[trigger] r@.contains_key(t2) implies exists|j2: int|
                    0 <= j2 < k2 + 1 && (#[trigger] q@[j2]).0 == t2 by {
                    if t2 == t {
                        assert(q@[k2 as int].0 == t);
                    } else {
                        assert(r_pre.contains_key(t2));
                        let j2 = choose|j2: int|
                            0 <= j2 < k2 as int && (#[trigger] q@[j2]).0 == t2;
                    }
                }
            }
            k2 = k2 + 1;
        }
        proof {
            assert forall|t: u64| #[trigger] r@.contains_key(t) <==> self.reachable(fid, t) by {
                if r@.contains_key(t) {
                    let j = choose|j: int| 0 <= j < k2 as int && (#[trigger] q@[j]).0 == t;
                    assert(dists@.contains_key(q@[j].0));
                }
                if self.reachable(fid, t) {
                    assert(dists@.contains_key(t));
                    let j = choose|j: int| 0 <= j < qn as int && (#[trigger] q@[j]).0 == t;
                    assert(r@.contains_key(q@[j].0));
                }
            }
        }
        r
    }

    /// Approximate betweenness centrality: for every source, one shortest
    /// path per destination is taken (as `sssp_verbose` reconstructs it), and
    /// each node's counter grows by one for every such path it appears on.
    /// This counts appearances across one arbitrarily chosen shortest path
    /// per pair, not exact betweenness over all shortest paths.
    pub fn betweenness_centrality(&self) -> (r: std::collections::HashMap<u64, u64>)
        requires
            self.wf(),
        ensures
            forall|id: u64| #[trigger] r@.contains_key(id) <==> self.id_set().contains(id),
            forall|id: u64|
                #[trigger] r@.contains_key(id) ==> r@[id] <= self.n() * self.n(),
    {
        let n = self.nodes.len();
        let mut r: std::collections::HashMap<u64, u64> = std::collections::HashMap::new();
        let mut i: usize = 0;
        while i < n
            invariant
                self.wf(),
                n == self.nodes@.len(),
                i <= n,
                forall|id: u64| #[trigger] r@.contains_key(id) ==> self.id_set().contains(id),
                forall|k: int| 0 <= k < i as int ==> r@.contains_key(#[trigger] self.ids()[k]),
                forall|id: u64| #[trigger] r@.contains_key(id) ==> r@[id] == 0,
            decreases n - i,
        {
            let id = self.nodes[i].id();
            proof {
                assert(self.ids()[i as int] == id);
                assert(self.ids().contains(id));
            }
            r.insert(id, 0u64);
            i = i + 1;
        }
        proof {
            assert forall|id: u64| #[trigger] r@.contains_key(id) <==> self.id_set().contains(
                id,
            ) by {
                if self.id_set().contains(id) {
                    let k = choose|k: int| 0 <= k < self.ids().len() && self.ids()[k] == id;
                    assert(r@.contains_key(self.ids()[k]));
                }
            }
        }
        let mut si: usize = 0;
        while si < n
            invariant
                self.wf(),
                n == self.nodes@.len(),
                n <= 0xFFFF_FFFF,
                si <= n,
                forall|id: u64| #[trigger] r@.contains_key(id) <==> self.id_set().contains(id),
                forall|id: u64|
                    #[trigger] r@.contains_key(id) ==> r@[id] <= (si as int) * (n as int),
            decreases n - si,
        {
            let src_node = self.nodes[si];
            proof {
                assert(self.ids()[si as int] == src_node.spec_id());
                assert(self.ids().contains(src_node.spec_id()));
            }
            let vm = self.sssp_verbose(src_node);
            let mut ti: usize = 0;
            while ti < n
                invariant
                    self.wf(),
                    n == self.nodes@.len(),
                    n <= 0xFFFF_FFFF,
                    si < n,
                    ti <= n,
                    forall|id: u64| #[trigger] r@.contains_key(id) <==> self.id_set().contains(id),
                    forall|id: u64|
                        #[trigger] r@.contains_key(id) ==> r@[id] <= (si as int) * (n as int) + (
                        ti as int),
                    forall|t: u64|
                        #[trigger] vm@.contains_key(t) ==> {
                            let p = vm@[t]@.push(t);
                            &&& self.is_path(p)
                            &&& p.no_duplicates()
                        },
                decreases n - ti,
            {
                let tid = self.nodes[ti].id();
                proof {
                    assert((si as int) * (n as int) + (ti as int) + 1 <= (n as int) * (n as int))
                        by (nonlinear_arith)
                        requires
                            0 <= si as int <= (n as int) - 1,
                            0 <= ti as int <= (n as int) - 1,
                            n as int >= 1,
                    ;
                    assert((n as int) * (n as int) <= 0xFFFF_FFFFi64 * 0xFFFF_FFFFi64)
                        by (nonlinear_arith)
                        requires
                            0 <= n as int <= 0xFFFF_FFFF,
                    ;
                }
                match vm.get(&tid) {
                    Some(path_ref) => {
                        let ghost b = (si as int) * (n as int) + (ti as int);
                        let ghost pa = path_ref@;
                        proof {
                            assert(*path_ref == vm@[tid]);
                            assert(self.is_path(pa.push(tid)));
                            assert(pa.push(tid).no_duplicates());
                        }
                        let plen = path_ref.len();
                        let mut u: usize = 0;
                        while u < plen
                            invariant
                                self.wf(),
                                plen == pa.len(),
                                u <= plen,
                                self.is_path(pa.push(tid)),
                                pa.push(tid).no_duplicates(),
                                b + 1 <= u64::MAX,
                                forall|id: u64|
                                    #[trigger] r@.contains_key(id) <==> self.id_set().contains(id),
                                forall|id: u64| #[trigger] r@.contains_key(id) ==> r@[id] <= b + 1,
                                forall|id: u64|
                                    #[trigger] r@.contains_key(id) && !(exists|m: int|
                                        0 <= m < u as int && pa[m] == id) ==> r@[id] <= b,
                                pa == path_ref@,
                            decreases plen - u,
                        {
                            let pid = path_ref[u];
                            proof {
                                assert(pa.push(tid)[u as int] == pid);
                                assert(self.id_set().contains(pid));
                                assert(!(exists|m: int| 0 <= m < u as int && pa[m] == pid)) by {
                                    if exists|m: int| 0 <= m < u as int && pa[m] == pid {
                                        let m = choose|m: int| 0 <= m < u as int && pa[m] == pid;
                                        assert(pa.push(tid)[m] == pa.push(tid)[u as int]);
                                    }
                                }
                            }
                            let c = match r.get(&pid) {
                                Some(c) => *c,
                                None => {
                                    proof {
                                        assert(false);
                                    }
                                    0
                                },
                            };
                            r.insert(pid, c + 1);
                            u = u + 1;
                        }
                    },
                    None => {},
                }
                ti = ti + 1;
            }
            proof {
                assert forall|id: u64| #[trigger] r@.contains_key(id) implies r@[id] <= ((si + 1) as int)
                    * (n as int) by {
                    assert((si as int) * (n as int) + (n as int) == ((si + 1) as int) * (n as int))
                        by (nonlinear_arith);
                }
            }
            si = si + 1;
        }
        proof {
            assert forall|id: u64| #[trigger] r@.contains_key(id) implies r@[id] <= self.n()
                * self.n() by {
                assert(r@[id] <= (si as int) * (n as int));
            }
        }
        r
    }

    /// The neighbor ids of the given node, or `None` when it is not in the
    /// graph.
    pub fn get_adjs(&self, node: N) -> (r: Option<Vec<u64>>)
        requires
            self.wf(),
        ensures
            r is Some <==> self.id_set().contains(node.spec_id()),
            r is Some ==> r->Some_0@ == self.adj_at(self.pos_of(node.spec_id()))
                && r->Some_0@.to_set() == self.nbrs(node.spec_id())
                && r->Some_0@.len() == self.degree(node.spec_id())
                && r->Some_0@.no_duplicates(),
    {
        let id = node.id();
        match self.find_index(id) {
            Some(i) => {
                proof {
                    self.lemma_pos_of(i as int);
                }
                let row = row_ref(&self.adjacencies, i);
                let deg = row.len();
                let mut out: Vec<u64> = Vec::new();
                let mut k: usize = 0;
                while k < deg
                    invariant
                        deg == row@.len(),
                        k <= deg,
                        out@ == row@.subrange(0, k as int),
                    decreases deg - k,
                {
                    let x = row[k];
                    out.push(x);
                    proof {
                        assert(out@ =~= row@.subrange(0, k + 1));
                    }
                    k = k + 1;
                }
                proof {
                    assert(out@ =~= row@);
                }
                Some(out)
            },
            None => None,
        }
    }

    /// The (unique) geodesic distance between two nodes.
    pub open spec fn dist_of(&self, s: u64, t: u64) -> int {
        choose|n: int| self.is_dist(s, t, n)
    }

    /// `dist_of` agrees with any witnessed geodesic distance.
    pub proof fn lemma_dist_of(&self, s: u64, t: u64, n: int)
        requires
            self.is_dist(s, t, n),
            n >= 0,
        ensures
            self.dist_of(s, t) == n,
    {
        let m = self.dist_of(s, t);
        assert(self.is_dist(s, t, m));
        if m < n {
            assert(self.has_path_len(s, t, m));
            let p = choose|p: Seq<u64>|
                self.is_path(p) && p.first() == s && p.last() == t && p.len() == m + 1;
            assert(p.len() >= 1);
            assert(!self.has_path_len(s, t, m));
        }
        if n < m {
            assert(self.has_path_len(s, t, n));
            assert(!self.has_path_len(s, t, n));
        }
    }

    /// All-pairs shortest paths over the stored node order: entry `[i][j]`
    /// is the geodesic distance from node `i` to node `j`, or `-1` when `j`
    /// is unreachable from `i`.
    pub fn apsp(&self) -> (r: Vec<Vec<i64>>)
        requires
            self.wf(),
        ensures
            r@.len() == self.n(),
            forall|i: int| 0 <= i < self.n() ==> (#[trigger] r@[i])@.len() == self.n(),
            forall|i: int, j: int|
                #![trigger r@[i], self.ids()[j]]
                0 <= i < self.n() && 0 <= j < self.n() ==> {
                    let d = r@[i]@[j];
                    if self.reachable(self.ids()[i], self.ids()[j]) {
                        d >= 0 && self.is_dist(self.ids()[i], self.ids()[j], d as int)
                    } else {
                        d == -1
                    }
                },
    {
        let n = self.nodes.len();
        let mut r: Vec<Vec<i64>> = Vec::new();
        let mut i: usize = 0;
        while i < n
            invariant
                self.wf(),
                n == self.nodes@.len(),
                i <= n,
                r@.len() == i as int,
                forall|a: int| 0 <= a < i as int ==> (#[trigger] r@[a])@.len() == self.n(),
                forall|a: int, j: int|
                    #![trigger r@[a], self.ids()[j]]
                    0 <= a < i as int && 0 <= j < self.n() ==> {
                        let d = r@[a]@[j];
                        if self.reachable(self.ids()[a], self.ids()[j]) {
                            d >= 0 && self.is_dist(self.ids()[a], self.ids()[j], d as int)
                        } else {
                            d == -1
                        }
                    },
            decreases n - i,
        {
            let src = self.nodes[i];
            proof {
                assert(self.ids()[i as int] == src.spec_id());
                assert(self.ids().contains(src.spec_id()));
            }
            let m = self.sssp(src);
            let mut row: Vec<i64> = Vec::new();
            let mut j: usize = 0;
            while j < n
                invariant
                    self.wf(),
                    n == self.nodes@.len(),
                    i < n,
                    j <= n,
                    row@.len() == j as int,
                    self.ids()[i as int] == src.spec_id(),
                    forall|t: u64| #[trigger] m@.contains_key(t) <==> self.reachable(
                        src.spec_id(),
                        t,
                    ),
                    forall|t: u64| #[trigger] m@.contains_key(t) ==> self.is_dist(
                        src.spec_id(),
                        t,
                        m@[t] as int,
                    ) && m@[t] >= 0,
                    forall|b: int|
                        0 <= b < j as int ==> {
                            let d = #[trigger] row@[b];
                            if self.reachable(self.ids()[i as int], self.ids()[b]) {
                                d >= 0 && self.is_dist(self.ids()[i as int], self.ids()[b], d as int)
                            } else {
                                d == -1
                            }
                        },
                decreases n - j,
            {
                let tid = self.nodes[j].id();
                proof {
                    assert(self.ids()[j as int] == tid);
                }
                let d = match m.get(&tid) {
                    Some(d) => *d,
                    None => -1i64,
                };
                row.push(d);
                j = j + 1;
            }
            r.push(row);
            i = i + 1;
        }
        r
    }

    /// The squared length of adjacency row `i`.
    pub open spec fn sq_degree(&self, i: int) -> int {
        (self.adj_at(i).len() * self.adj_at(i).len()) as int
    }

    /// Sum of squared degrees over the first `i_end` rows.
    pub open spec fn sq_degree_sum_upto(&self, i_end: int) -> int
        decreases i_end,
    {
        if i_end <= 0 {
            0
        } else {
            self.sq_degree_sum_upto(i_end - 1) + self.sq_degree(i_end - 1)
        }
    }

    /// Sum of the squared degrees of all nodes; dividing by the node count
    /// gives the mean square degree.
    pub fn sum_square_degrees(&self) -> (r: u128)
        requires
            self.wf(),
        ensures
            r == self.sq_degree_sum_upto(self.n()),
    {
        let n = self.nodes.len();
        let mut sum: u128 = 0;
        let mut i: usize = 0;
        while i < n
            invariant
                self.wf(),
                n == self.nodes@.len(),
                i <= n,
                sum == self.sq_degree_sum_upto(i as int),
                sum <= (i as int) * (0xFFFF_FFFFi128 * 0xFFFF_FFFFi128),
            decreases n - i,
        {
            let row = row_ref(&self.adjacencies, i);
            let deg = row.len() as u128;
            proof {
                self.lemma_row_bound(i as int);
                assert(deg * deg <= 0xFFFF_FFFFi128 * 0xFFFF_FFFFi128) by (nonlinear_arith)
                    requires
                        0 <= deg <= 0xFFFF_FFFF,
                ;
                assert((i as int) * (0xFFFF_FFFFi128 * 0xFFFF_FFFFi128) + (0xFFFF_FFFFi128
                    * 0xFFFF_FFFFi128) == ((i + 1) as int) * (0xFFFF_FFFFi128
                    * 0xFFFF_FFFFi128)) by (nonlinear_arith);
                assert(((i + 1) as int) * (0xFFFF_FFFFi128 * 0xFFFF_FFFFi128) <= 0xFFFF_FFFFi128
                    * (0xFFFF_FFFFi128 * 0xFFFF_FFFFi128)) by (nonlinear_arith)
                    requires
                        0 <= (i + 1) as int <= 0xFFFF_FFFF,
                ;
            }
            sum = sum + deg * deg;
            i = i + 1;
        }
        sum
    }

    /// How many of the first `upto` entries of `a` lie in `bset`.
    pub open spec fn inter_count(a: Seq<u64>, bset: Set<u64>, upto: int) -> int
        decreases upto,
    {
        if upto <= 0 {
            0
        } else {
            Self::inter_count(a, bset, upto - 1) + if bset.contains(a[upto - 1]) {
                1int
            } else {
                0int
            }
        }
    }

    /// Twice the number of connected neighbor pairs counted from row `i`:
    /// for each neighbor `v` of node `i`, how many neighbors of `i` are also
    /// neighbors of `v`.
    pub open spec fn tri_row(&self, i: int, upto: int) -> int
        decreases upto,
    {
        if upto <= 0 {
            0
        } else {
            self.tri_row(i, upto - 1) + Self::inter_count(
                self.adj_at(i),
                self.nbrs(self.adj_at(i)[upto - 1]),
                self.adj_at(i).len() as int,
            )
        }
    }

    /// Triangle contributions of the first `i_end` nodes.
    pub open spec fn tri_sum_upto(&self, i_end: int) -> int
        decreases i_end,
    {
        if i_end <= 0 {
            0
        } else {
            self.tri_sum_upto(i_end - 1) + self.tri_row(i_end - 1, self.adj_at(i_end - 1).len() as int)
        }
    }

    /// Open-triad contributions of the first `i_end` nodes: each node of
    /// degree `k` contributes `k * (k - 1)`.
    pub open spec fn triad_sum_upto(&self, i_end: int) -> int
        decreases i_end,
    {
        if i_end <= 0 {
            0
        } else {
            self.triad_sum_upto(i_end - 1) + self.adj_at(i_end - 1).len() * (self.adj_at(i_end - 1).len() - 1)
        }
    }

    /// Triangle and open-triad counts for the global clustering coefficient:
    /// the coefficient is the first component divided by the second (0/0 when
    /// the graph has no open triads).
    #[verifier::rlimit(100)]
    pub fn cluster_coeff(&self) -> (r: (u128, u128))
        requires
            self.wf(),
        ensures
            r.0 == self.tri_sum_upto(self.n()),
            r.1 == self.triad_sum_upto(self.n()),
    {
        let ghost cbig: int = 0xFFFF_FFFFi128 * 0xFFFF_FFFFi128;
        let n = self.nodes.len();
        let mut triangles: u128 = 0;
        let mut triads: u128 = 0;
        let mut i: usize = 0;
        while i < n
            invariant
                self.wf(),
                n == self.nodes@.len(),
                i <= n,
                cbig == 0xFFFF_FFFFi128 * 0xFFFF_FFFFi128,
                triangles == self.tri_sum_upto(i as int),
                triads == self.triad_sum_upto(i as int),
                triangles <= (i as int) * cbig,
                triads <= (i as int) * cbig,
            decreases n - i,
        {
            let row = row_ref(&self.adjacencies, i);
            let deg = row.len();
            proof {
                self.lemma_row_bound(i as int);
                assert((deg as int) * (deg as int) <= cbig) by (nonlinear_arith)
                    requires
                        0 <= deg as int <= 0xFFFF_FFFF,
                        cbig == 0xFFFF_FFFFi128 * 0xFFFF_FFFFi128,
                ;
                assert((i as int) * cbig + cbig == ((i + 1) as int) * cbig) by (nonlinear_arith);
                assert(((i + 1) as int) * cbig <= 0xFFFF_FFFFi128 * cbig) by (nonlinear_arith)
                    requires
                        0 <= (i + 1) as int <= 0xFFFF_FFFF,
                        cbig >= 0,
                ;
            }
            let ghost triads_pre = triads as int;
            if deg > 0 {
                proof {
                    assert((deg as int) * ((deg as int) - 1) <= cbig) by (nonlinear_arith)
                        requires
                            1 <= deg as int <= 0xFFFF_FFFF,
                            cbig == 0xFFFF_FFFFi128 * 0xFFFF_FFFFi128,
                    ;
                }
                triads = triads + (deg as u128) * ((deg - 1) as u128);
            }
            proof {
                assert(triads == self.triad_sum_upto((i + 1) as int)) by {
                    assert(self.adj_at(i as int).len() == deg);
                    if deg == 0 {
                        assert(triads == triads_pre);
                        let x = self.adj_at(i as int).len() as int;
                        assert(x * (x - 1) == 0) by (nonlinear_arith)
                            requires
                                x == 0,
                        ;
                    } else {
                        assert(triads == triads_pre + (deg as int) * ((deg as int) - 1));
                    }
                }
            }
            let mut part: u128 = 0;
            let mut k: usize = 0;
            while k < deg
                invariant
                    self.wf(),
                    n == self.nodes@.len(),
                    i < n,
                    *row == self.adjacencies@[i as int],
                    deg == row@.len(),
                    k <= deg,
                    deg <= 0xFFFF_FFFF,
                    cbig == 0xFFFF_FFFFi128 * 0xFFFF_FFFFi128,
                    part == self.tri_row(i as int, k as int),
                    part <= (k as int) * (deg as int),
                decreases deg - k,
            {
                let v = row[k];
                proof {
                    assert(self.adj_at(i as int).contains(v));
                    assert(self.id_set().contains(v));
                }
                let vi = match self.find_index(v) {
                    Some(vi) => vi,
                    None => {
                        proof {
                            assert(false);
                        }
                        0
                    },
                };
                proof {
                    self.lemma_pos_of(vi as int);
                }
                let vrow = row_ref(&self.adjacencies, vi);
                let mut cnt: u64 = 0;
                let mut m: usize = 0;
                while m < deg
                    invariant
                        self.wf(),
                        i < n,
                        n == self.nodes@.len(),
                        *row == self.adjacencies@[i as int],
                        *vrow == self.adjacencies@[vi as int],
                        vi < self.nodes@.len(),
                        self.nbrs(self.ids()[vi as int]) == self.adj_at(vi as int).to_set(),
                        self.ids()[vi as int] == v,
                        deg == row@.len(),
                        m <= deg,
                        cnt == Self::inter_count(self.adj_at(i as int), self.nbrs(v), m as int),
                        cnt <= m,
                        deg <= 0xFFFF_FFFF,
                    decreases deg - m,
                {
                    if vec_contains(vrow, row[m]) {
                        proof {
                            assert(self.nbrs(v).contains(self.adj_at(i as int)[m as int]));
                        }
                        cnt = cnt + 1;
                    } else {
                        proof {
                            assert(!self.nbrs(v).contains(self.adj_at(i as int)[m as int]));
                        }
                    }
                    m = m + 1;
                }
                proof {
                    assert((k as int) * (deg as int) + (deg as int) == ((k + 1) as int) * (
                    deg as int)) by (nonlinear_arith);
                    assert(((k + 1) as int) * (deg as int) <= cbig) by (nonlinear_arith)
                        requires
                            0 <= (k + 1) as int <= 0xFFFF_FFFF,
                            0 <= deg as int <= 0xFFFF_FFFF,
                            cbig == 0xFFFF_FFFFi128 * 0xFFFF_FFFFi128,
                    ;
                }
                part = part + (cnt as u128);
                k = k + 1;
            }
            triangles = triangles + part;
            i = i + 1;
        }
        (triangles, triads)
    }

    /// The geodesic distance between nodes `i` and `j` when both lie in `c`
    /// and are mutually reachable; 0 otherwise.
    pub open spec fn pair_term(&self, c: Set<u64>, i: int, j: int) -> int {
        if c.contains(self.ids()[i]) && c.contains(self.ids()[j]) && self.reachable(
            self.ids()[i],
            self.ids()[j],
        ) {
            self.dist_of(self.ids()[i], self.ids()[j])
        } else {
            0
        }
    }

    /// Sum of `pair_term` over `j < j_end` for a fixed `i`.
    pub open spec fn row_pair_sum(&self, c: Set<u64>, i: int, j_end: int) -> int
        decreases j_end,
    {
        if j_end <= 0 {
            0
        } else {
            self.row_pair_sum(c, i, j_end - 1) + self.pair_term(c, i, j_end - 1)
        }
    }

    /// Sum of `pair_term` over all ordered index pairs with `i < i_end`.
    pub open spec fn pair_dist_sum(&self, c: Set<u64>, i_end: int) -> int
        decreases i_end,
    {
        if i_end <= 0 {
            0
        } else {
            self.pair_dist_sum(c, i_end - 1) + self.row_pair_sum(c, i_end - 1, self.n())
        }
    }

    proof fn lemma_row_pair_sum_zero(&self, c: Set<u64>, i: int, j_end: int)
        requires
            !c.contains(self.ids()[i]),
        ensures
            self.row_pair_sum(c, i, j_end) == 0,
        decreases j_end,
    {
        if j_end > 0 {
            self.lemma_row_pair_sum_zero(c, i, j_end - 1);
        }
    }

    /// Distance statistics of the largest connected component: the sum of
    /// the geodesic distances over all ordered pairs of its nodes (each
    /// unordered pair counted twice), the largest such distance (the
    /// diameter), and the component's size. The mean geodesic distance is
    /// the sum divided by `size * (size - 1)`.
    #[verifier::rlimit(100)]
    pub fn mgd_diameter(&self) -> (r: (u128, u64, u64))
        requires
            self.wf(),
        ensures
            self.n() == 0 ==> r == (0u128, 0u64, 0u64),
            self.n() > 0 ==> exists|s: u64|
                {
                    let c = #[trigger] self.component_of(s);
                    &&& self.id_set().contains(s)
                    &&& forall|id: u64|
                        self.id_set().contains(id) ==> (#[trigger] self.component_of(id)).len()
                            <= c.len()
                    &&& r.0 == self.pair_dist_sum(c, self.n())
                    &&& r.2 == c.len()
                    &&& forall|u: u64, v: u64|
                        #![trigger c.contains(u), c.contains(v)]
                        c.contains(u) && c.contains(v) ==> self.dist_of(u, v) <= r.1
                    &&& exists|u: u64, v: u64|
                        c.contains(u) && c.contains(v) && #[trigger] self.dist_of(u, v) == r.1
                },
    {
        let n = self.nodes.len();
        let comp = self.largest_component();
        if n == 0 {
            return (0u128, 0u64, 0u64);
        }
        let ghost s = choose|s: u64|
            self.id_set().contains(s) && comp@ == #[trigger] self.component_of(s);
        let ghost c = comp@;
        proof {
            self.lemma_reach_refl(s);
            assert(c.contains(s));
            self.lemma_dist_of(s, s, 0);
            // members of the component are mutually reachable
            assert forall|u: u64, v: u64|
                #![trigger c.contains(u), c.contains(v)]
                c.contains(u) && c.contains(v) implies self.reachable(u, v) by {
                assert(self.reachable(s, u) && self.reachable(s, v));
                self.lemma_reach_symm(s, u);
                self.lemma_reach_trans(u, s, v);
            }
        }
        let mut sum: u128 = 0;
        let mut diam: i64 = 0;
        let ghost mut wu: u64 = s;
        let ghost mut wv: u64 = s;
        let ghost cbig: int = 0xFFFF_FFFFi128 * 0xFFFF_FFFFi128;
        let mut i: usize = 0;
        while i < n
            invariant
                self.wf(),
                n == self.nodes@.len(),
                1 <= n <= 0xFFFF_FFFF,
                i <= n,
                c == comp@,
                self.id_set().contains(s),
                c == self.component_of(s),
                cbig == 0xFFFF_FFFFi128 * 0xFFFF_FFFFi128,
                forall|u: u64, v: u64|
                    #![trigger c.contains(u), c.contains(v)]
                    c.contains(u) && c.contains(v) ==> self.reachable(u, v),
                sum == self.pair_dist_sum(c, i as int),
                sum <= (i as int) * cbig,
                0 <= diam,
                c.contains(wu) && c.contains(wv) && self.dist_of(wu, wv) == diam,
                forall|a: int, b: int|
                    #![trigger self.ids()[a], self.ids()[b]]
                    0 <= a < i as int && 0 <= b < n as int && c.contains(self.ids()[a])
                        && c.contains(self.ids()[b]) ==> self.dist_of(
                        self.ids()[a],
                        self.ids()[b],
                    ) <= diam,
            decreases n - i,
        {
            let inode = self.nodes[i];
            let iid = inode.id();
            proof {
                assert(self.ids()[i as int] == iid);
                assert(self.ids().contains(iid));
            }
            if comp.contains(&iid) {
                let m = self.sssp(inode);
                let mut j: usize = 0;
                while j < n
                    invariant
                        self.wf(),
                        n == self.nodes@.len(),
                        1 <= n <= 0xFFFF_FFFF,
                        i < n,
                        j <= n,
                        c == comp@,
                        self.id_set().contains(s),
                        c == self.component_of(s),
                        cbig == 0xFFFF_FFFFi128 * 0xFFFF_FFFFi128,
                        iid == self.ids()[i as int],
                        c.contains(iid),
                        forall|u: u64, v: u64|
                            #![trigger c.contains(u), c.contains(v)]
                            c.contains(u) && c.contains(v) ==> self.reachable(u, v),
                        forall|t: u64| #[trigger] m@.contains_key(t) <==> self.reachable(iid, t),
                        forall|t: u64|
                            #[trigger] m@.contains_key(t) ==> self.is_dist(iid, t, m@[t] as int)
                                && 0 <= m@[t] < self.n(),
                        sum == self.pair_dist_sum(c, i as int) + self.row_pair_sum(
                            c,
                            i as int,
                            j as int,
                        ),
                        sum <= (i as int) * cbig + (j as int) * 0xFFFF_FFFFi128,
                        0 <= diam,
                        c.contains(wu) && c.contains(wv) && self.dist_of(wu, wv) == diam,
                        forall|a: int, b: int|
                            #![trigger self.ids()[a], self.ids()[b]]
                            0 <= a < n as int && 0 <= b < n as int && (a < i as int || (a
                                == i as int && b < j as int)) && c.contains(self.ids()[a])
                                && c.contains(self.ids()[b]) ==> self.dist_of(
                                self.ids()[a],
                                self.ids()[b],
                            ) <= diam,
                    decreases n - j,
                {
                    let jid = self.nodes[j].id();
                    proof {
                        assert(self.ids()[j as int] == jid);
                        assert(self.ids().contains(jid));
                    }
                    if comp.contains(&jid) {
                        proof {
                            assert(self.reachable(iid, jid));
                        }
                        let d = match m.get(&jid) {
                            Some(d) => *d,
                            None => {
                                proof {
                                    assert(false);
                                }
                                0
                            },
                        };
                        proof {
                            self.lemma_dist_of(iid, jid, d as int);
                            assert(self.pair_term(c, i as int, j as int) == d);
                            assert((i as int) * cbig + (j as int) * 0xFFFF_FFFFi128
                                + 0xFFFF_FFFFi128 <= (i as int) * cbig + ((j + 1) as int)
                                * 0xFFFF_FFFFi128) by (nonlinear_arith);
                            assert((i as int) * cbig + (n as int) * 0xFFFF_FFFFi128 <= ((i
                                + 1) as int) * cbig) by (nonlinear_arith)
                                requires
                                    cbig == 0xFFFF_FFFFi128 * 0xFFFF_FFFFi128,
                                    0 <= n as int <= 0xFFFF_FFFF,
                                    0 <= i as int,
                            ;
                            assert(((i + 1) as int) * cbig <= 0xFFFF_FFFFi128 * cbig)
                                by (nonlinear_arith)
                                requires
                                    0 <= (i + 1) as int <= 0xFFFF_FFFF,
                                    cbig >= 0,
                            ;
                        }
                        sum = sum + (d as u128);
                        if d > diam {
                            diam = d;
                            proof {
                                wu = iid;
                                wv = jid;
                            }
                        }
                    } else {
                        proof {
                            assert(self.pair_term(c, i as int, j as int) == 0);
                        }
                    }
                    j = j + 1;
                }
            } else {
                proof {
                    self.lemma_row_pair_sum_zero(c, i as int, self.n());
                    assert((i as int) * cbig + cbig == ((i + 1) as int) * cbig)
                        by (nonlinear_arith);
                    assert(((i + 1) as int) * cbig <= 0xFFFF_FFFFi128 * cbig) by (nonlinear_arith)
                        requires
                            0 <= (i + 1) as int <= 0xFFFF_FFFF,
                            cbig >= 0,
                    ;
                }
            }
            i = i + 1;
        }
        let csize = comp.len();
        proof {
            assert forall|u: u64, v: u64|
                #![trigger c.contains(u), c.contains(v)]
                c.contains(u) && c.contains(v) implies self.dist_of(u, v) <= diam by {
                self.lemma_reach_endpoints(s, u);
                self.lemma_reach_endpoints(s, v);
                let a = choose|a: int| 0 <= a < self.ids().len() && self.ids()[a] == u;
                let b = choose|b: int| 0 <= b < self.ids().len() && self.ids()[b] == v;
                assert(self.dist_of(self.ids()[a], self.ids()[b]) <= diam);
            }
        }
        (sum, diam as u64, csize as u64)
    }

    /// Builds a graph directly from precomputed adjacency records; the
    /// records must already describe a simple symmetric graph whose declared
    /// degrees match their neighbor lists. `total_edges` is the sum of the
    /// declared degrees.
    pub fn from_adj_list(adj_list: Vec<Adjacency<N>>) -> (r: Self)
        requires
            adj_list@.len() <= 0xFFFF_FFFF,
            forall|i: int, j: int|
                0 <= i < adj_list@.len() && 0 <= j < adj_list@.len() && i != j ==> rec_ids(
                    adj_list@,
                )[i] != rec_ids(adj_list@)[j],
            forall|i: int|
                0 <= i < adj_list@.len() ==> (#[trigger] adj_list@[i]).degree == adj_list@[i].edges@.len(),
            forall|i: int|
                0 <= i < adj_list@.len() ==> rec_edge_ids(#[trigger] adj_list@[i]).no_duplicates(),
            forall|i: int, k: int|
                #![trigger rec_edge_ids(adj_list@[i])[k]]
                0 <= i < adj_list@.len() && 0 <= k < rec_edge_ids(adj_list@[i]).len()
                    ==> rec_ids(adj_list@).contains(rec_edge_ids(adj_list@[i])[k]),
            forall|i: int|
                0 <= i < adj_list@.len() ==> !rec_edge_ids(#[trigger] adj_list@[i]).contains(
                    rec_ids(adj_list@)[i],
                ),
            forall|i: int, j: int|
                0 <= i < adj_list@.len() && 0 <= j < adj_list@.len() ==> (rec_edge_ids(
                    #[trigger] adj_list@[i],
                ).contains(rec_ids(adj_list@)[j]) <==> rec_edge_ids(
                    #[trigger] adj_list@[j],
                ).contains(rec_ids(adj_list@)[i])),
        ensures
            r.wf(),
            r.nodes@ == adj_list@.map_values(|a: Adjacency<N>| a.node_id),
            r.ids() == rec_ids(adj_list@),
            forall|i: int|
                0 <= i < adj_list@.len() ==> r.adj_at(i) == rec_edge_ids(#[trigger] adj_list@[i]),
            r.total_edges == declared_degree_sum(adj_list@, adj_list@.len() as int),
    {
        let n = adj_list.len();
        let mut nodes: Vec<N> = Vec::new();
        let mut adjacencies: Vec<Vec<u64>> = Vec::new();
        let mut total: u64 = 0;
        let mut i: usize = 0;
        while i < n
            invariant
                n == adj_list@.len(),
                n <= 0xFFFF_FFFF,
                i <= n,
                nodes@ == adj_list@.subrange(0, i as int).map_values(
                    |a: Adjacency<N>| a.node_id,
                ),
                adjacencies@.len() == i as int,
                forall|k: int|
                    0 <= k < i as int ==> (#[trigger] adjacencies@[k])@ == rec_edge_ids(
                        adj_list@[k],
                    ),
                total == declared_degree_sum(adj_list@, i as int),
                total == adj_len_sum(adjacencies@),
                total <= (i as int) * 0xFFFF_FFFFi64,
                forall|i2: int|
                    0 <= i2 < adj_list@.len() ==> (#[trigger] adj_list@[i2]).degree
                        == adj_list@[i2].edges@.len(),
                forall|i2: int|
                    0 <= i2 < adj_list@.len() ==> rec_edge_ids(
                        #[trigger] adj_list@[i2],
                    ).no_duplicates(),
                forall|i2: int, k: int|
                    #![trigger rec_edge_ids(adj_list@[i2])[k]]
                    0 <= i2 < adj_list@.len() && 0 <= k < rec_edge_ids(adj_list@[i2]).len()
                        ==> rec_ids(adj_list@).contains(rec_edge_ids(adj_list@[i2])[k]),
            decreases n - i,
        {
            let rec = adj_rec_ref(&adj_list, i);
            nodes.push(rec.node_id);
            let deg = rec.edges.len();
            let mut row: Vec<u64> = Vec::new();
            let mut k: usize = 0;
            while k < deg
                invariant
                    n == adj_list@.len(),
                    i < n,
                    *rec == adj_list@[i as int],
                    deg == rec.edges@.len(),
                    k <= deg,
                    row@ == rec_edge_ids(adj_list@[i as int]).subrange(0, k as int),
                decreases deg - k,
            {
                let x = rec.edges[k].id();
                row.push(x);
                proof {
                    assert(row@ =~= rec_edge_ids(adj_list@[i as int]).subrange(0, k + 1));
                }
                k = k + 1;
            }
            proof {
                assert(row@ =~= rec_edge_ids(adj_list@[i as int]));
                // the declared degree fits the edge count bound
                lemma_distinct_in_pool(rec_edge_ids(adj_list@[i as int]), rec_ids(adj_list@));
                assert(rec.degree == rec_edge_ids(adj_list@[i as int]).len());
                assert(adjacencies@.push(row).drop_last() =~= adjacencies@);
                assert(nodes@ =~= adj_list@.subrange(0, i + 1).map_values(
                    |a: Adjacency<N>| a.node_id,
                ));
            }
            let d = rec.degree;
            proof {
                assert(d <= 0xFFFF_FFFF);
                assert((i as int) * 0xFFFF_FFFFi64 + 0xFFFF_FFFFi64 == ((i + 1) as int)
                    * 0xFFFF_FFFFi64) by (nonlinear_arith);
                assert(((i + 1) as int) * 0xFFFF_FFFFi64 <= 0xFFFF_FFFFi64 * 0xFFFF_FFFFi64)
                    by (nonlinear_arith)
                    requires
                        0 <= (i + 1) as int <= 0xFFFF_FFFF,
                ;
            }
            adjacencies.push(row);
            total = total + d;
            i = i + 1;
        }
        let r = SimpleNetwork { nodes, adjacencies, total_edges: total };
        proof {
            assert(adj_list@.subrange(0, n as int) =~= adj_list@);
            assert(r.ids() =~= rec_ids(adj_list@)) by {
                assert forall|k: int| 0 <= k < n as int implies r.ids()[k] == rec_ids(adj_list@)[k] by {
                    assert(r.nodes@[k] == adj_list@[k].node_id);
                }
            }
            assert forall|a: int, b: int|
                0 <= a < r.n() && 0 <= b < r.n() implies ((#[trigger] r.adj_at(a)).contains(
                r.ids()[b],
            ) <==> (#[trigger] r.adj_at(b)).contains(r.ids()[a])) by {
                assert(r.adj_at(a) == rec_edge_ids(adj_list@[a]));
                assert(r.adj_at(b) == rec_edge_ids(adj_list@[b]));
            }
            assert forall|a: int, m: int|
                0 <= a < r.n() && 0 <= m < r.adj_at(a).len() implies r.id_set().contains(
                #[trigger] r.adj_at(a)[m],
            ) by {
                assert(r.adj_at(a)[m] == rec_edge_ids(adj_list@[a])[m]);
                assert(rec_ids(adj_list@).contains(rec_edge_ids(adj_list@[a])[m]));
            }
            assert forall|a: int| 0 <= a < r.n() implies !(#[trigger] r.adj_at(a)).contains(
                r.ids()[a],
            ) by {
                assert(r.adj_at(a) == rec_edge_ids(adj_list@[a]));
            }
            assert(r.wf());
        }
        r
    }

    /// The pair list `r` holds the non-adjacent pair at index positions
    /// `(i, j)`.
    pub open spec fn nonedge_listed(&self, r: Seq<(u64, u64)>, i: int, j: int) -> bool {
        exists|k: int| 0 <= k < r.len() && #[trigger] r[k] == (self.ids()[i], self.ids()[j])
    }

    /// All unordered pairs of distinct nodes that are not adjacent, each
    /// listed once in storage order.
    pub fn get_nonedges(&self) -> (r: Vec<(u64, u64)>)
        requires
            self.wf(),
        ensures
            forall|k: int|
                0 <= k < r@.len() ==> {
                    let p = #[trigger] r@[k];
                    &&& self.id_set().contains(p.0)
                    &&& self.id_set().contains(p.1)
                    &&& p.0 != p.1
                    &&& !self.has_edge(p.0, p.1)
                },
            forall|i: int, j: int|
                #![trigger self.ids()[i], self.ids()[j]]
                0 <= i < j < self.n() && !self.has_edge(self.ids()[i], self.ids()[j])
                    ==> self.nonedge_listed(r@, i, j),
    {
        let n = self.nodes.len();
        let mut r: Vec<(u64, u64)> = Vec::new();
        let mut i: usize = 0;
        while i < n
            invariant
                self.wf(),
                n == self.nodes@.len(),
                i <= n,
                forall|k: int|
                    0 <= k < r@.len() ==> {
                        let p = #[trigger] r@[k];
                        &&& self.id_set().contains(p.0)
                        &&& self.id_set().contains(p.1)
                        &&& p.0 != p.1
                        &&& !self.has_edge(p.0, p.1)
                    },
                forall|a: int, b: int|
                    #![trigger self.ids()[a], self.ids()[b]]
                    0 <= a < i as int && a < b < self.n() && !self.has_edge(
                        self.ids()[a],
                        self.ids()[b],
                    ) ==> self.nonedge_listed(r@, a, b),
            decreases n - i,
        {
            let iid = self.nodes[i].id();
            proof {
                assert(self.ids()[i as int] == iid);
                assert(self.ids().contains(iid));
            }
            let mut j: usize = i + 1;
            while j < n
                invariant
                    self.wf(),
                    n == self.nodes@.len(),
                    i < n,
                    i < j,
                    j <= n,
                    iid == self.ids()[i as int],
                    self.id_set().contains(iid),
                    forall|k: int|
                        0 <= k < r@.len() ==> {
                            let p = #[trigger] r@[k];
                            &&& self.id_set().contains(p.0)
                            &&& self.id_set().contains(p.1)
                            &&& p.0 != p.1
                            &&& !self.has_edge(p.0, p.1)
                        },
                    forall|a: int, b: int|
                        #![trigger self.ids()[a], self.ids()[b]]
                        0 <= a < i as int && a < b < self.n() && !self.has_edge(
                            self.ids()[a],
                            self.ids()[b],
                        ) ==> self.nonedge_listed(r@, a, b),
                    forall|b: int|
                        #![trigger self.ids()[b]]
                        (i as int) < b < j as int && !self.has_edge(self.ids()[i as int], self.ids()[b])
                            ==> self.nonedge_listed(r@, i as int, b),
                decreases n - j,
            {
                let jid = self.nodes[j].id();
                proof {
                    assert(self.ids()[j as int] == jid);
                    assert(self.ids().contains(jid));
                    assert(iid != jid);
                }
                if !self.edge_between(iid, jid) {
                    let ghost r_pre = r@;
                    r.push((iid, jid));
                    proof {
                        assert(r@[r_pre.len() as int] == (iid, jid));
                        assert forall|a: int, b: int|
                            #![trigger self.ids()[a], self.ids()[b]]
                            (0 <= a < i as int && a < b < self.n() && !self.has_edge(
                                self.ids()[a],
                                self.ids()[b],
                            )) || (a == i as int && (i as int) < b < j + 1 && !self.has_edge(
                                self.ids()[a],
                                self.ids()[b],
                            )) implies self.nonedge_listed(r@, a, b) by {
                            if a == i as int && b == j as int {
                                assert(r@[r_pre.len() as int] == (self.ids()[a], self.ids()[b]));
                            } else {
                                assert(self.nonedge_listed(r_pre, a, b));
                                let k = choose|k: int|
                                    0 <= k < r_pre.len() && #[trigger] r_pre[k] == (
                                    self.ids()[a],
                                    self.ids()[b],
                                    );
                                assert(r@[k] == r_pre[k]);
                            }
                        }
                    }
                }
                j = j + 1;
            }
            i = i + 1;
        }
        r
    }
}

} // verus!
