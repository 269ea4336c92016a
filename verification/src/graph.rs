//! An undirected simple graph stored as adjacency lists.
//!
//! The model of a [`Graph`] is its sequence of adjacency lists: entry `u`
//! lists the neighbours of node `u` in the order in which the edges were added.

use vstd::prelude::*;
use vstd::set_lib::*;

use crate::error::{WaveError, WaveResult};

verus! {

/// `u`–`v` is an edge of the adjacency model.
pub open spec fn has_edge(adj: Seq<Seq<usize>>, u: usize, v: usize) -> bool {
    u < adj.len() && adj[u as int].contains(v)
}

/// The adjacency model describes a simple undirected graph: every listed
/// neighbour is a node, no node lists itself, no list repeats a node, and
/// every edge is listed at both of its ends.
pub open spec fn is_simple(adj: Seq<Seq<usize>>) -> bool {
    &&& forall|u: int, k: int|
        0 <= u < adj.len() && 0 <= k < adj[u].len() ==> #[trigger] adj[u][k] < adj.len()
            && adj[u][k] != u
    &&& forall|u: int| 0 <= u < adj.len() ==> (#[trigger] adj[u]).no_duplicates()
    &&& forall|u: usize, v: usize| #[trigger] has_edge(adj, u, v) ==> has_edge(adj, v, u)
}

/// Undirected edges, each written once as `(smaller, larger)`.
pub open spec fn edge_set(adj: Seq<Seq<usize>>) -> Set<(usize, usize)> {
    Set::new(|e: (usize, usize)| e.0 < e.1 && has_edge(adj, e.0, e.1))
}

/// Sum of the lengths of all adjacency lists (the sum of all degrees).
pub open spec fn degree_sum(adj: Seq<Seq<usize>>) -> nat
    decreases adj.len(),
{
    if adj.len() == 0 {
        0
    } else {
        degree_sum(adj.drop_last()) + adj.last().len()
    }
}

/// The model after adding the undirected edge `u`–`v`: nothing changes for a
/// self-loop or an edge that is already present; otherwise `v` is appended to
/// the list of `u` and `u` to the list of `v`.
pub open spec fn with_edge(adj: Seq<Seq<usize>>, u: usize, v: usize) -> Seq<Seq<usize>> {
    if u == v || adj[u as int].contains(v) {
        adj
    } else {
        adj.update(u as int, adj[u as int].push(v)).update(v as int, adj[v as int].push(u))
    }
}

/// Step `i` of `p` follows an edge.
pub open spec fn walk_step(adj: Seq<Seq<usize>>, p: Seq<usize>, i: int) -> bool {
    has_edge(adj, p[i], p[i + 1])
}

/// `p` is a non-empty walk: a sequence of nodes, each joined to the next by an edge.
pub open spec fn is_walk(adj: Seq<Seq<usize>>, p: Seq<usize>) -> bool {
    &&& p.len() > 0
    &&& forall|i: int| 0 <= i < p.len() ==> #[trigger] p[i] < adj.len()
    &&& forall|i: int| 0 <= i < p.len() - 1 ==> #[trigger] walk_step(adj, p, i)
}

/// Some walk leads from `u` to `v`.
pub open spec fn reachable(adj: Seq<Seq<usize>>, u: usize, v: usize) -> bool {
    exists|p: Seq<usize>| #[trigger] is_walk(adj, p) && p[0] == u && p.last() == v
}

/// Every node can be reached from node 0 (vacuously true without nodes).
pub open spec fn connected(adj: Seq<Seq<usize>>) -> bool {
    forall|v: usize| v < adj.len() ==> #[trigger] reachable(adj, 0, v)
}

/// The combinatorial Laplacian `L = D - A` of the model, entry `(i, j)`.
pub open spec fn laplacian_entry(adj: Seq<Seq<usize>>, i: int, j: int) -> int {
    if i == j {
        adj[i].len() as int
    } else if adj[i].contains(j as usize) {
        -1
    } else {
        0
    }
}

/// Indices at which `s` holds `true`.
spec fn true_indices(s: Seq<bool>) -> Set<int> {
    Set::new(|k: int| 0 <= k < s.len() && s[k])
}

proof fn lemma_true_indices_finite(s: Seq<bool>)
    ensures
        true_indices(s).finite(),
        true_indices(s).len() <= s.len(),
{
    lemma_int_range(0, s.len() as int);
    lemma_len_subset(true_indices(s), set_int_range(0, s.len() as int));
}

proof fn lemma_true_indices_set(s: Seq<bool>, k: int)
    requires
        0 <= k < s.len(),
        !s[k],
    ensures
        true_indices(s.update(k, true)) == true_indices(s).insert(k),
        !true_indices(s).contains(k),
        true_indices(s.update(k, true)).len() == true_indices(s).len() + 1,
        true_indices(s).len() < s.len(),
{
    assert(true_indices(s.update(k, true)) =~= true_indices(s).insert(k));
    lemma_true_indices_finite(s);
    lemma_true_indices_finite(s.update(k, true));
}

/// A walk that starts inside a set closed under edges stays inside it.
proof fn lemma_walk_stays(adj: Seq<Seq<usize>>, p: Seq<usize>, s: Seq<bool>)
    requires
        is_walk(adj, p),
        s.len() == adj.len(),
        s[p[0] as int],
        forall|w: usize, x: usize| w < adj.len() && #[trigger] s[w as int] && #[trigger] has_edge(adj, w, x) ==> s[x as int],
    ensures
        s[p.last() as int],
    decreases p.len(),
{
    if p.len() > 1 {
        let q = p.drop_last();
        assert forall|i: int| 0 <= i < q.len() - 1 implies #[trigger] walk_step(adj, q, i) by {
            assert(walk_step(adj, p, i));
        }
        assert forall|i: int| 0 <= i < q.len() implies #[trigger] q[i] < adj.len() by {
            assert(p[i] < adj.len());
        }
        lemma_walk_stays(adj, q, s);
        assert(walk_step(adj, p, p.len() - 2));
        assert(q.last() == p[p.len() - 2]);
    }
}

/// A graph with `n` nodes and no edges.
pub open spec fn empty_graph(n: nat) -> Seq<Seq<usize>> {
    Seq::new(n, |_i: int| Seq::<usize>::empty())
}

/// An undirected graph stored as an adjacency list.
#[derive(Debug, Clone)]
pub struct Graph {
    adj: Vec<Vec<usize>>,
    n: usize,
}

impl View for Graph {
    type V = Seq<Seq<usize>>;

    closed spec fn view(&self) -> Seq<Seq<usize>> {
        self.adj@.map_values(|row: Vec<usize>| row@)
    }
}

proof fn lemma_push_contains(s: Seq<usize>, x: usize, y: usize)
    ensures
        s.push(x).contains(y) == (s.contains(y) || x == y),
{
    if s.contains(y) {
        let k = choose|k: int| 0 <= k < s.len() && s[k] == y;
        assert(s.push(x)[k] == y);
    }
    if x == y {
        assert(s.push(x)[s.len() as int] == y);
    }
    if s.push(x).contains(y) {
        let k = choose|k: int| 0 <= k < s.push(x).len() && s.push(x)[k] == y;
        if k < s.len() {
            assert(s[k] == y);
        }
    }
}

proof fn lemma_degree_sum_push(adj: Seq<Seq<usize>>, i: int, x: usize)
    requires
        0 <= i < adj.len(),
    ensures
        degree_sum(adj.update(i, adj[i].push(x))) == degree_sum(adj) + 1,
    decreases adj.len(),
{
    let upd = adj.update(i, adj[i].push(x));
    if i == adj.len() - 1 {
        assert(upd.drop_last() =~= adj.drop_last());
    } else {
        assert(upd.drop_last() =~= adj.drop_last().update(i, adj.drop_last()[i].push(x)));
        lemma_degree_sum_push(adj.drop_last(), i, x);
    }
}

proof fn lemma_degree_sum_empty(n: nat)
    ensures
        degree_sum(empty_graph(n)) == 0,
    decreases n,
{
    if n > 0 {
        assert(empty_graph(n).drop_last() =~= empty_graph((n - 1) as nat));
        lemma_degree_sum_empty((n - 1) as nat);
    }
}

proof fn lemma_degree_sum_prefix(adj: Seq<Seq<usize>>, i: int)
    requires
        0 <= i < adj.len(),
    ensures
        degree_sum(adj.subrange(0, i + 1)) == degree_sum(adj.subrange(0, i)) + adj[i].len(),
        degree_sum(adj.subrange(0, i + 1)) <= degree_sum(adj),
    decreases adj.len() - i,
{
    assert(adj.subrange(0, i + 1).drop_last() =~= adj.subrange(0, i));
    if i + 1 == adj.len() {
        assert(adj.subrange(0, i + 1) =~= adj);
    } else {
        lemma_degree_sum_prefix(adj, i + 1);
    }
}

/// Adding an edge keeps the model simple, grows the edge set by exactly the
/// new edge, and grows the degree sum by two for a new edge.
proof fn lemma_with_edge_simple(adj: Seq<Seq<usize>>, u: usize, v: usize)
    requires
        is_simple(adj),
        edge_set(adj).finite(),
        u < adj.len(),
        v < adj.len(),
        u != v,
        !adj[u as int].contains(v),
    ensures
        is_simple(with_edge(adj, u, v)),
        edge_set(with_edge(adj, u, v)) == edge_set(adj).insert(
            if u < v { (u, v) } else { (v, u) },
        ),
        !edge_set(adj).contains(if u < v { (u, v) } else { (v, u) }),
        degree_sum(with_edge(adj, u, v)) == degree_sum(adj) + 2,
{
    let new = with_edge(adj, u, v);
    let mid = adj.update(u as int, adj[u as int].push(v));
    assert(new == mid.update(v as int, adj[v as int].push(u)));
    if adj[v as int].contains(u) {
        assert(has_edge(adj, v, u));
        assert(has_edge(adj, u, v));
    }
    lemma_degree_sum_push(adj, u as int, v);
    assert(mid[v as int] == adj[v as int]);
    lemma_degree_sum_push(mid, v as int, u);
    assert forall|a: usize, b: usize| has_edge(new, a, b) == (has_edge(adj, a, b) || (a == u && b
        == v) || (a == v && b == u)) by {
        if a < adj.len() {
            if a == u {
                lemma_push_contains(adj[u as int], v, b);
            } else if a == v {
                lemma_push_contains(adj[v as int], u, b);
            }
        }
    }
    assert forall|w: int, k: int|
        0 <= w < new.len() && 0 <= k < new[w].len() implies #[trigger] new[w][k] < new.len()
        && new[w][k] != w by {
        if w != u && w != v {
            assert(new[w] == adj[w]);
        } else if w == u {
            assert(new[w] == adj[w].push(v));
            if k < adj[w].len() {
                assert(new[w][k] == adj[w][k]);
            }
        } else {
            assert(new[w] == adj[w].push(u));
            if k < adj[w].len() {
                assert(new[w][k] == adj[w][k]);
            }
        }
    }
    assert forall|w: int| 0 <= w < new.len() implies (#[trigger] new[w]).no_duplicates() by {
        if w == u || w == v {
            let other = if w == u { v } else { u };
            assert(new[w] == adj[w].push(other));
            assert(!adj[w].contains(other));
            assert forall|i: int, j: int|
                0 <= i < new[w].len() && 0 <= j < new[w].len() && i != j implies new[w][i]
                != new[w][j] by {
                if i == adj[w].len() {
                    assert(adj[w][j] == new[w][j]);
                } else if j == adj[w].len() {
                    assert(adj[w][i] == new[w][i]);
                } else {
                    assert(adj[w][i] == new[w][i]);
                    assert(adj[w][j] == new[w][j]);
                }
            }
        } else {
            assert(new[w] == adj[w]);
        }
    }
    assert forall|a: usize, b: usize| #[trigger] has_edge(new, a, b) implies has_edge(new, b, a) by {
        if has_edge(adj, a, b) {
            assert(has_edge(adj, b, a));
        }
    }
    let p = if u < v { (u, v) } else { (v, u) };
    assert(edge_set(new) =~= edge_set(adj).insert(p));
    assert(!has_edge(adj, u, v));
    if has_edge(adj, v, u) {
        assert(has_edge(adj, u, v));
    }
}

/// Model-level well-formedness: a simple graph whose edge set is finite and
/// whose degree sum is twice its number of edges.
pub open spec fn adj_wf(adj: Seq<Seq<usize>>) -> bool {
    &&& is_simple(adj)
    &&& edge_set(adj).finite()
    &&& degree_sum(adj) == 2 * edge_set(adj).len()
}

/// Adding an edge to a well-formed model gives a well-formed model.
pub proof fn lemma_with_edge_wf(adj: Seq<Seq<usize>>, u: usize, v: usize)
    requires
        adj_wf(adj),
        u < adj.len(),
        v < adj.len(),
    ensures
        adj_wf(with_edge(adj, u, v)),
{
    if u != v && !adj[u as int].contains(v) {
        lemma_with_edge_simple(adj, u, v);
    }
}

/// Handshake lemma: in a well-formed graph the degrees add up to twice the
/// number of edges.
pub proof fn lemma_handshake(g: &Graph)
    requires
        g.wf(),
    ensures
        edge_set(g@).finite(),
        degree_sum(g@) == 2 * edge_set(g@).len(),
{
}

/// Edges are undirected and there are no self-loops: `u`–`v` is an edge
/// exactly when `v`–`u` is, and every neighbour is a node.
pub proof fn lemma_undirected(g: &Graph, u: usize, v: usize)
    requires
        g.wf(),
    ensures
        has_edge(g@, u, v) == has_edge(g@, v, u),
        !has_edge(g@, u, u),
        has_edge(g@, u, v) ==> v < g@.len(),
{
    if has_edge(g@, u, v) {
        let k = choose|k: int| 0 <= k < g@[u as int].len() && g@[u as int][k] == v;
        assert(g@[u as int][k] < g@.len());
    }
    if has_edge(g@, v, u) {
        assert(has_edge(g@, u, v));
    }
    if has_edge(g@, u, u) {
        let k = choose|k: int| 0 <= k < g@[u as int].len() && g@[u as int][k] == u;
        assert(g@[u as int][k] != u);
    }
}

/// Adding the same edge twice has the same effect as adding it once.
pub proof fn lemma_with_edge_idempotent(adj: Seq<Seq<usize>>, u: usize, v: usize)
    requires
        u < adj.len(),
        v < adj.len(),
    ensures
        with_edge(with_edge(adj, u, v), u, v) == with_edge(adj, u, v),
{
    if u != v && !adj[u as int].contains(v) {
        let once = with_edge(adj, u, v);
        lemma_push_contains(adj[u as int], v, v);
        assert(once[u as int] == adj[u as int].push(v));
    }
}

/// Adding `u`–`v` and adding `v`–`u` give the same graph.
pub proof fn lemma_with_edge_order(adj: Seq<Seq<usize>>, u: usize, v: usize)
    requires
        adj_wf(adj),
        u < adj.len(),
        v < adj.len(),
    ensures
        with_edge(adj, u, v) == with_edge(adj, v, u),
{
    if adj[u as int].contains(v) {
        assert(has_edge(adj, u, v));
        assert(has_edge(adj, v, u));
    }
    if adj[v as int].contains(u) {
        assert(has_edge(adj, v, u));
        assert(has_edge(adj, u, v));
    }
    if u != v && !adj[u as int].contains(v) {
        assert(with_edge(adj, u, v) =~= with_edge(adj, v, u));
    }
}

/// After adding `u`–`v` (with `u != v`) it is an edge, and the number of
/// edges grew by one exactly when it was not an edge before.
pub proof fn lemma_with_edge_count(adj: Seq<Seq<usize>>, u: usize, v: usize)
    requires
        adj_wf(adj),
        u < adj.len(),
        v < adj.len(),
    ensures
        u != v ==> has_edge(with_edge(adj, u, v), u, v) && has_edge(with_edge(adj, u, v), v, u),
        edge_set(with_edge(adj, u, v)).len() == edge_set(adj).len() + (if u != v
            && !has_edge(adj, u, v) {
            1int
        } else {
            0int
        }),
{
    lemma_with_edge_wf(adj, u, v);
    if u != v && !adj[u as int].contains(v) {
        lemma_with_edge_simple(adj, u, v);
        lemma_push_contains(adj[u as int], v, v);
        lemma_push_contains(adj[v as int], u, u);
    } else if u != v {
        assert(has_edge(adj, u, v));
        assert(has_edge(adj, v, u));
    }
}

/// Adding an edge never breaks a walk: whatever was reachable stays
/// reachable, so a connected graph stays connected.
pub proof fn lemma_with_edge_keeps_reachable(adj: Seq<Seq<usize>>, u: usize, v: usize, a: usize, b: usize)
    requires
        u < adj.len(),
        v < adj.len(),
    ensures
        reachable(adj, a, b) ==> reachable(with_edge(adj, u, v), a, b),
        connected(adj) ==> connected(with_edge(adj, u, v)),
{
    let new = with_edge(adj, u, v);
    assert forall|x: usize, y: usize| has_edge(adj, x, y) implies has_edge(new, x, y) by {
        if x < adj.len() {
            if u != v && !adj[u as int].contains(v) {
                if x == u {
                    lemma_push_contains(adj[u as int], v, y);
                } else if x == v {
                    lemma_push_contains(adj[v as int], u, y);
                }
            }
        }
    }
    assert forall|c: usize, d: usize| reachable(adj, c, d) implies reachable(new, c, d) by {
        let p = choose|p: Seq<usize>| #[trigger] is_walk(adj, p) && p[0] == c && p.last() == d;
        assert forall|i: int| 0 <= i < p.len() - 1 implies #[trigger] walk_step(new, p, i) by {
            assert(walk_step(adj, p, i));
        }
        assert forall|i: int| 0 <= i < p.len() implies #[trigger] p[i] < new.len() by {
            assert(p[i] < adj.len());
        }
        assert(is_walk(new, p));
    }
    if connected(adj) {
        assert forall|w: usize| w < new.len() implies #[trigger] reachable(new, 0, w) by {
            assert(reachable(adj, 0, w));
        }
    }
}

/// Sum of the first `k` entries of row `i` of the Laplacian.
pub open spec fn laplacian_row_sum(adj: Seq<Seq<usize>>, i: int, k: nat) -> int
    decreases k,
{
    if k == 0 {
        0
    } else {
        laplacian_row_sum(adj, i, (k - 1) as nat) + laplacian_entry(adj, i, k - 1)
    }
}

/// Neighbours of `s` that are smaller than `k`.
spec fn members_below(s: Seq<usize>, k: nat) -> Set<usize> {
    Set::new(|j: usize| j < k && s.contains(j))
}

proof fn lemma_row_sum_members(adj: Seq<Seq<usize>>, i: int, k: nat)
    requires
        is_simple(adj),
        0 <= i < adj.len(),
        k <= adj.len(),
        adj.len() <= usize::MAX,
    ensures
        members_below(adj[i], k).finite(),
        laplacian_row_sum(adj, i, k) == (if i < k {
            adj[i].len() as int
        } else {
            0
        }) - members_below(adj[i], k).len(),
    decreases k,
{
    if k == 0 {
        assert(members_below(adj[i], k) =~= Set::empty());
    } else {
        let j = k - 1;
        lemma_row_sum_members(adj, i, (k - 1) as nat);
        let ju = j as usize;
        if adj[i].contains(ju) {
            assert(members_below(adj[i], k) =~= members_below(adj[i], (k - 1) as nat).insert(ju));
            if j == i {
                let t = choose|t: int| 0 <= t < adj[i].len() && adj[i][t] == ju;
                assert(adj[i][t] != i);
            }
        } else {
            assert(members_below(adj[i], k) =~= members_below(adj[i], (k - 1) as nat));
        }
    }
}

/// Every row of the Laplacian sums to zero: the constant vector lies in its
/// kernel, so its smallest eigenvalue is 0.
pub proof fn lemma_laplacian_rows_sum_to_zero(g: &Graph, i: int)
    requires
        g.wf(),
        0 <= i < g@.len(),
    ensures
        laplacian_row_sum(g@, i, g@.len()) == 0,
{
    let adj = g@;
    assert(adj.len() == g.n);
    lemma_row_sum_members(adj, i, adj.len());
    assert forall|j: usize| #[trigger] adj[i].contains(j) implies j < adj.len() by {
        let t = choose|t: int| 0 <= t < adj[i].len() && adj[i][t] == j;
        assert(adj[i][t] < adj.len());
    }
    assert(members_below(adj[i], adj.len()) =~= adj[i].to_set());
    adj[i].unique_seq_to_set();
}

proof fn lemma_members_below_bound(adj: Seq<Seq<usize>>, i: int, k: nat)
    requires
        is_simple(adj),
        0 <= i < adj.len(),
        k <= adj.len(),
        adj.len() <= usize::MAX,
    ensures
        members_below(adj[i], k).finite(),
        members_below(adj[i], k).len() + (if i < k { 1int } else { 0int }) <= k,
    decreases k,
{
    if k == 0 {
        assert(members_below(adj[i], k) =~= Set::empty());
    } else {
        let ju = (k - 1) as usize;
        lemma_members_below_bound(adj, i, (k - 1) as nat);
        if adj[i].contains(ju) {
            assert(members_below(adj[i], k) =~= members_below(adj[i], (k - 1) as nat).insert(ju));
            if k - 1 == i {
                let t = choose|t: int| 0 <= t < adj[i].len() && adj[i][t] == ju;
                assert(adj[i][t] != i);
            }
        } else {
            assert(members_below(adj[i], k) =~= members_below(adj[i], (k - 1) as nat));
        }
    }
}

/// No node has as many neighbours as there are nodes.
pub proof fn lemma_degree_bound(g: &Graph, i: int)
    requires
        g.wf(),
        0 <= i < g@.len(),
    ensures
        g@[i].len() < g@.len(),
{
    let adj = g@;
    assert(adj.len() == g.n);
    lemma_members_below_bound(adj, i, adj.len());
    assert forall|j: usize| #[trigger] adj[i].contains(j) implies j < adj.len() by {
        let t = choose|t: int| 0 <= t < adj[i].len() && adj[i][t] == j;
        assert(adj[i][t] < adj.len());
    }
    assert(members_below(adj[i], adj.len()) =~= adj[i].to_set());
    adj[i].unique_seq_to_set();
}

proof fn lemma_prefix_degree_bound(g: &Graph, k: int)
    requires
        g.wf(),
        0 <= k <= g@.len(),
    ensures
        degree_sum(g@.subrange(0, k)) <= k * (g@.len() - 1),
    decreases k,
{
    let n = g@.len() as int;
    if k == 0 {
        assert(g@.subrange(0, 0) =~= Seq::<Seq<usize>>::empty());
    } else {
        lemma_prefix_degree_bound(g, k - 1);
        lemma_degree_sum_prefix(g@, k - 1);
        lemma_degree_bound(g, k - 1);
        assert(k * (n - 1) == (k - 1) * (n - 1) + (n - 1)) by (nonlinear_arith);
    }
}

/// A graph on `n` nodes has degree sum at most `n (n - 1)`, so at most
/// `n (n - 1) / 2` edges.
pub proof fn lemma_edge_count_bound(g: &Graph)
    requires
        g.wf(),
    ensures
        degree_sum(g@) <= g@.len() * (g@.len() - 1),
        edge_set(g@).len() <= g@.len() * (g@.len() - 1) / 2,
{
    let adj = g@;
    let n = adj.len() as int;
    lemma_prefix_degree_bound(g, n);
    assert(adj.subrange(0, n) =~= adj);
}

/// The Laplacian has the degree of node `i` at `(i, i)`, `-1` at `(i, j)`
/// when `i`–`j` is an edge, and 0 elsewhere.
pub proof fn lemma_laplacian_by_edges(g: &Graph, i: usize, j: usize)
    requires
        g.wf(),
        i < g@.len(),
        j < g@.len(),
    ensures
        laplacian_entry(g@, i as int, j as int) == if i == j {
            g@[i as int].len() as int
        } else if has_edge(g@, i, j) {
            -1int
        } else {
            0int
        },
{
}

/// The Laplacian is symmetric.
pub proof fn lemma_laplacian_symmetric(g: &Graph, i: int, j: int)
    requires
        g.wf(),
        0 <= i < g@.len(),
        0 <= j < g@.len(),
    ensures
        laplacian_entry(g@, i, j) == laplacian_entry(g@, j, i),
{
    assert(g@.len() == g.n);
    lemma_undirected(g, i as usize, j as usize);
}

/// Adding a self-loop, or an edge that is already present, leaves every
/// adjacency list exactly as it was.
pub proof fn lemma_add_edge_present_is_noop(adj: Seq<Seq<usize>>, u: usize, v: usize)
    requires
        u < adj.len(),
        v < adj.len(),
    ensures
        u == v || has_edge(adj, u, v) ==> with_edge(adj, u, v) == adj,
{
}

/// Adding a new edge `u`–`v` (with `u != v`) appends `v` at the end of the
/// list of `u` and `u` at the end of the list of `v`; no other list changes
/// and the number of nodes stays the same.
pub proof fn lemma_add_edge_new_appends(adj: Seq<Seq<usize>>, u: usize, v: usize)
    requires
        u < adj.len(),
        v < adj.len(),
    ensures
        u != v && !has_edge(adj, u, v) ==> {
            let new = with_edge(adj, u, v);
            &&& new.len() == adj.len()
            &&& new[u as int] == adj[u as int].push(v)
            &&& new[v as int] == adj[v as int].push(u)
            &&& forall|w: int| 0 <= w < adj.len() && w != u && w != v ==> #[trigger] new[w] == adj[w]
        },
{
}

/// `s` marks a set of nodes that no edge leaves.
pub open spec fn closed_under_edges(adj: Seq<Seq<usize>>, s: Seq<bool>) -> bool {
    forall|w: usize, x: usize| w < adj.len() && #[trigger] s[w as int] && #[trigger] has_edge(adj, w, x) ==> s[x as int]
}

/// A graph is connected exactly when every set of nodes that contains node 0
/// and that no edge leaves contains every node.
pub proof fn lemma_connected_iff_no_cut(adj: Seq<Seq<usize>>)
    requires
        is_simple(adj),
    ensures
        connected(adj) <==> forall|s: Seq<bool>|
            s.len() == adj.len() && (adj.len() > 0 ==> s[0]) && #[trigger] closed_under_edges(adj, s)
                ==> forall|v: usize| v < adj.len() ==> #[trigger] s[v as int],
{
    if connected(adj) {
        assert forall|s: Seq<bool>|
            s.len() == adj.len() && (adj.len() > 0 ==> s[0]) && #[trigger] closed_under_edges(adj, s)
                implies forall|v: usize| v < adj.len() ==> #[trigger] s[v as int] by {
            assert forall|v: usize| v < adj.len() implies #[trigger] s[v as int] by {
                assert(reachable(adj, 0, v));
                let p = choose|p: Seq<usize>| #[trigger] is_walk(adj, p) && p[0] == 0 && p.last() == v;
                lemma_walk_stays(adj, p, s);
            }
        }
    }
    if forall|s: Seq<bool>|
        s.len() == adj.len() && (adj.len() > 0 ==> s[0]) && #[trigger] closed_under_edges(adj, s)
            ==> forall|v: usize| v < adj.len() ==> #[trigger] s[v as int] {
        let r = Seq::new(adj.len(), |v: int| reachable(adj, 0, v as usize));
        if adj.len() > 0 {
            let p0 = seq![0usize];
            assert(is_walk(adj, p0));
            assert(r[0]);
        }
        assert forall|w: usize, x: usize| w < adj.len() && #[trigger] r[w as int] && #[trigger] has_edge(adj, w, x)
            implies r[x as int] by {
            let k = choose|k: int| 0 <= k < adj[w as int].len() && adj[w as int][k] == x;
            assert(adj[w as int][k] < adj.len());
            let p = choose|p: Seq<usize>| #[trigger] is_walk(adj, p) && p[0] == 0 && p.last() == w;
            let q = p.push(x);
            assert forall|t: int| 0 <= t < q.len() - 1 implies #[trigger] walk_step(adj, q, t) by {
                if t < p.len() - 1 {
                    assert(walk_step(adj, p, t));
                }
            }
            assert forall|t: int| 0 <= t < q.len() implies #[trigger] q[t] < adj.len() by {
                if t < p.len() {
                    assert(p[t] < adj.len());
                }
            }
            assert(is_walk(adj, q));
        }
        assert(closed_under_edges(adj, r));
        assert forall|v: usize| v < adj.len() implies #[trigger] reachable(adj, 0, v) by {
            assert(r[v as int]);
        }
    }
}

fn row_contains(row: &Vec<usize>, x: usize) -> (b: bool)
    ensures
        b == row@.contains(x),
{
    let mut k: usize = 0;
    while k < row.len()
        invariant
            k <= row@.len(),
            forall|j: int| 0 <= j < k ==> row@[j] != x,
        decreases row@.len() - k,
    {
        if row[k] == x {
            return true;
        }
        k = k + 1;
    }
    false
}

impl Graph {
    /// The graph's internal invariant: `n` is the number of adjacency lists and
    /// the lists describe a simple undirected graph.
    pub closed spec fn wf(&self) -> bool {
        &&& self.n == self.adj@.len()
        &&& adj_wf(self@)
    }

    /// The model of a well-formed graph is well formed and has at most
    /// `usize::MAX` nodes.
    pub proof fn lemma_model_wf(&self)
        requires
            self.wf(),
        ensures
            adj_wf(self@),
            self@.len() <= usize::MAX,
    {
    }

    /// Create an empty graph with `n` nodes and no edges.
    pub fn new(n: usize) -> (g: Self)
        ensures
            g.wf(),
            g@ == empty_graph(n as nat),
            g@.len() == n,
            forall|i: int| 0 <= i < n ==> #[trigger] g@[i].len() == 0,
    {
        let mut adj: Vec<Vec<usize>> = Vec::new();
        let mut i: usize = 0;
        while i < n
            invariant
                i <= n,
                adj@.len() == i,
                forall|k: int| 0 <= k < i ==> (#[trigger] adj@[k])@ == Seq::<usize>::empty(),
            decreases n - i,
        {
            adj.push(Vec::new());
            i = i + 1;
        }
        let g = Graph { adj, n };
        proof {
            assert(g@ =~= empty_graph(n as nat));
            lemma_degree_sum_empty(n as nat);
            assert(edge_set(g@) =~= Set::empty());
        }
        g
    }

    /// Number of nodes.
    pub fn n(&self) -> (r: usize)
        requires
            self.wf(),
        ensures
            r == self@.len(),
    {
        self.n
    }

    /// Add an undirected edge between `u` and `v`. No-op if already present
    /// or if `u == v`; an error if either end is not a node.
    pub fn add_edge(&mut self, u: usize, v: usize) -> (r: WaveResult<()>)
        requires
            old(self).wf(),
        ensures
            final(self).wf(),
            u >= old(self)@.len() || v >= old(self)@.len() ==> r == Err::<(), WaveError>(
                WaveError::IndexOutOfBounds {
                    index: if u >= v { u } else { v },
                    len: old(self)@.len() as usize,
                },
            ) && final(self)@ == old(self)@,
            u < old(self)@.len() && v < old(self)@.len() ==> r == Ok::<(), WaveError>(())
                && final(self)@ == with_edge(old(self)@, u, v),
            u < old(self)@.len() && v < old(self)@.len() && (u == v || has_edge(old(self)@, u, v))
                ==> final(self)@ == old(self)@,
            u < old(self)@.len() && v < old(self)@.len() && u != v && !has_edge(old(self)@, u, v)
                ==> {
                &&& final(self)@.len() == old(self)@.len()
                &&& final(self)@[u as int] == old(self)@[u as int].push(v)
                &&& final(self)@[v as int] == old(self)@[v as int].push(u)
                &&& forall|w: int|
                    0 <= w < old(self)@.len() && w != u && w != v ==> #[trigger] final(self)@[w]
                        == old(self)@[w]
            },
    {
        proof {
            if u < self@.len() && v < self@.len() {
                lemma_add_edge_present_is_noop(self@, u, v);
                lemma_add_edge_new_appends(self@, u, v);
            }
        }
        if u >= self.n || v >= self.n {
            return Err(WaveError::IndexOutOfBounds { index: if u >= v { u } else { v }, len: self.n });
        }
        if u == v {
            return Ok(());
        }
        if !row_contains(&self.adj[u], v) {
            let ghost old_view = self@;
            self.adj[u].push(v);
            self.adj[v].push(u);
            proof {
                assert(self@ =~= with_edge(old_view, u, v));
                lemma_with_edge_wf(old_view, u, v);
            }
        }
        Ok(())
    }

    /// Number of (undirected) edges: half the sum of all degrees.
    pub fn m(&self) -> (r: usize)
        requires
            self.wf(),
            degree_sum(self@) <= usize::MAX,
        ensures
            r == edge_set(self@).len(),
            2 * r == degree_sum(self@),
    {
        let mut total: usize = 0;
        let mut i: usize = 0;
        while i < self.n
            invariant
                self.wf(),
                degree_sum(self@) <= usize::MAX,
                i <= self@.len(),
                total == degree_sum(self@.subrange(0, i as int)),
            decreases self@.len() - i,
        {
            proof {
                lemma_degree_sum_prefix(self@, i as int);
            }
            total = total + self.adj[i].len();
            i = i + 1;
        }
        assert(self@.subrange(0, self@.len() as int) =~= self@);
        total / 2
    }

    /// The combinatorial Laplacian `L = D - A` as a dense integer matrix.
    pub fn laplacian(&self) -> (l: Vec<Vec<i128>>)
        requires
            self.wf(),
        ensures
            l@.len() == self@.len(),
            forall|i: int| 0 <= i < self@.len() ==> (#[trigger] l@[i])@.len() == self@.len(),
            forall|i: int, j: int|
                0 <= i < self@.len() && 0 <= j < self@.len() ==> #[trigger] l@[i]@[j] == laplacian_entry(self@, i, j),
            forall|i: int| 0 <= i < self@.len() ==> #[trigger] l@[i]@[i] == self@[i].len(),
            forall|i: usize, j: usize|
                i < self@.len() && j < self@.len() && i != j ==> #[trigger] l@[i as int]@[j as int] == if has_edge(
                    self@,
                    i,
                    j,
                ) {
                    -1int
                } else {
                    0int
                },
    {
        let n = self.n;
        let ghost g = self@;
        let mut l: Vec<Vec<i128>> = Vec::new();
        let mut i: usize = 0;
        while i < n
            invariant
                self.wf(),
                g == self@,
                n == g.len(),
                i <= n,
                l@.len() == i,
                forall|a: int| 0 <= a < i ==> (#[trigger] l@[a])@.len() == n,
                forall|a: int, b: int| 0 <= a < i && 0 <= b < n ==> l@[a]@[b] == laplacian_entry(g, a, b),
            decreases n - i,
        {
            let mut row: Vec<i128> = Vec::new();
            let mut j: usize = 0;
            while j < n
                invariant
                    j <= n,
                    row@.len() == j,
                    forall|b: int| 0 <= b < j ==> row@[b] == 0,
                decreases n - j,
            {
                row.push(0);
                j = j + 1;
            }
            let nb = &self.adj[i];
            assert(nb@ == g[i as int]);
            row.set(i, nb.len() as i128);
            let mut k: usize = 0;
            while k < nb.len()
                invariant
                    self.wf(),
                    g == self@,
                    n == g.len(),
                    i < n,
                    nb@ == g[i as int],
                    k <= nb@.len(),
                    row@.len() == n,
                    forall|b: int| 0 <= b < n ==> row@[b] == (if b == i {
                        g[i as int].len() as int
                    } else if nb@.subrange(0, k as int).contains(b as usize) {
                        -1
                    } else {
                        0
                    }),
                decreases nb@.len() - k,
            {
                let x = nb[k];
                proof {
                    assert(g[i as int][k as int] == x);
                    assert(x < n && x != i);
                    if nb@.subrange(0, k as int).contains(x) {
                        let t = choose|t: int| 0 <= t < k && nb@.subrange(0, k as int)[t] == x;
                        assert(nb@[t] == nb@[k as int]);
                    }
                }
                row.set(x, row[x] - 1);
                proof {
                    assert forall|b: int| 0 <= b < n implies row@[b] == (if b == i {
                        g[i as int].len() as int
                    } else if nb@.subrange(0, k + 1).contains(b as usize) {
                        -1
                    } else {
                        0
                    }) by {
                        assert(nb@.subrange(0, k + 1) == nb@.subrange(0, k as int).push(x));
                        lemma_push_contains(nb@.subrange(0, k as int), x, b as usize);
                    }
                }
                k = k + 1;
            }
            assert(nb@.subrange(0, nb@.len() as int) =~= nb@);
            l.push(row);
            i = i + 1;
        }
        proof {
            assert forall|i: int| 0 <= i < self@.len() implies #[trigger] l@[i]@[i] == self@[i].len() by {
                assert(l@[i]@[i] == laplacian_entry(self@, i, i));
            }
            assert forall|i: usize, j: usize|
                i < self@.len() && j < self@.len() && i != j implies #[trigger] l@[i as int]@[j as int] == if has_edge(
                    self@,
                    i,
                    j,
                ) {
                    -1int
                } else {
                    0int
                } by {
                assert(l@[i as int]@[j as int] == laplacian_entry(self@, i as int, j as int));
                lemma_laplacian_by_edges(self, i, j);
            }
        }
        l
    }

    /// Check whether every node can be reached from node 0, by depth-first search.
    pub fn is_connected(&self) -> (r: bool)
        requires
            self.wf(),
        ensures
            r == connected(self@),
            r <==> forall|s: Seq<bool>|
                s.len() == self@.len() && (self@.len() > 0 ==> s[0]) && #[trigger] closed_under_edges(self@, s)
                    ==> forall|v: usize| v < self@.len() ==> #[trigger] s[v as int],
    {
        proof {
            lemma_connected_iff_no_cut(self@);
        }
        let n = self.n;
        let ghost g = self@;
        if n == 0 {
            return true;
        }
        let mut visited: Vec<bool> = Vec::new();
        let mut i: usize = 0;
        while i < n
            invariant
                i <= n,
                visited@.len() == i,
                forall|k: int| 0 <= k < i ==> !visited@[k],
            decreases n - i,
        {
            visited.push(false);
            i = i + 1;
        }
        proof {
            lemma_true_indices_set(visited@, 0);
            assert(true_indices(visited@) =~= Set::empty());
            let p0 = seq![0usize];
            assert(is_walk(g, p0));
        }
        visited.set(0, true);
        let mut stack: Vec<usize> = Vec::new();
        stack.push(0);
        let mut count: usize = 1;
        proof {
            assert forall|w: usize, x: usize|
                w < n && #[trigger] visited@[w as int] && !stack@.contains(w) && #[trigger] has_edge(g, w, x)
                    implies visited@[x as int] by {
                if w != 0 {
                    assert(visited@[w as int] == false);
                } else {
                    assert(stack@[0] == 0);
                }
            }
        }
        loop
            invariant
                self.wf(),
                g == self@,
                n == g.len(),
                n > 0,
                visited@.len() == n,
                visited@[0],
                count == true_indices(visited@).len(),
                count <= n,
                forall|k: int| 0 <= k < stack@.len() ==> #[trigger] stack@[k] < n && visited@[stack@[k] as int],
                stack@.no_duplicates(),
                forall|w: usize| w < n && #[trigger] visited@[w as int] ==> reachable(g, 0, w),
                forall|w: usize, x: usize|
                    w < n && #[trigger] visited@[w as int] && !stack@.contains(w) && #[trigger] has_edge(g, w, x)
                        ==> visited@[x as int],
            ensures
                stack@.len() == 0,
                visited@.len() == n,
                count == true_indices(visited@).len(),
                count <= n,
                forall|w: usize| w < n && #[trigger] visited@[w as int] ==> reachable(g, 0, w),
                forall|w: usize, x: usize|
                    w < n && #[trigger] visited@[w as int] && !stack@.contains(w) && #[trigger] has_edge(g, w, x)
                        ==> visited@[x as int],
            decreases 2 * (n - count) + stack@.len(),
        {
            let ghost before = stack@;
            match stack.pop() {
                None => {
                    break;
                },
                Some(u) => {
                    let ghost measure = 2 * (n - count) + stack@.len() + 1;
                    proof {
                        assert(before.last() == u);
                        assert(stack@ == before.drop_last());
                        if stack@.contains(u) {
                            let t = choose|t: int| 0 <= t < stack@.len() && stack@[t] == u;
                            assert(before[t] == before[before.len() - 1]);
                        }
                        assert(before[before.len() - 1] < n);
                        assert forall|w: usize, x: usize|
                            w < n && w != u && #[trigger] visited@[w as int] && !stack@.contains(w) && #[trigger] has_edge(g, w, x)
                                implies visited@[x as int] by {
                            if before.contains(w) {
                                let t = choose|t: int| 0 <= t < before.len() && before[t] == w;
                                if t < before.len() - 1 {
                                    assert(stack@[t] == w);
                                }
                            }
                        }
                    }
                    let nb = &self.adj[u];
                    assert(nb@ == g[u as int]);
                    let mut j: usize = 0;
                    while j < nb.len()
                        invariant
                            self.wf(),
                            g == self@,
                            n == g.len(),
                            n > 0,
                            u < n,
                            nb@ == g[u as int],
                            j <= nb@.len(),
                            visited@.len() == n,
                            visited@[0],
                            visited@[u as int],
                            !stack@.contains(u),
                            count == true_indices(visited@).len(),
                            count <= n,
                            2 * (n - count) + stack@.len() < measure,
                            forall|k: int| 0 <= k < stack@.len() ==> #[trigger] stack@[k] < n && visited@[stack@[k] as int],
                            stack@.no_duplicates(),
                            forall|w: usize| w < n && #[trigger] visited@[w as int] ==> reachable(g, 0, w),
                            forall|w: usize, x: usize|
                                w < n && w != u && #[trigger] visited@[w as int] && !stack@.contains(w) && #[trigger] has_edge(g, w, x)
                                    ==> visited@[x as int],
                            forall|t: int| 0 <= t < j ==> visited@[#[trigger] nb@[t] as int],
                        decreases nb@.len() - j,
                    {
                        let v = nb[j];
                        proof {
                            assert(g[u as int][j as int] == v);
                            assert(v < n);
                        }
                        if !visited[v] {
                            proof {
                                lemma_true_indices_set(visited@, v as int);
                                let p = choose|p: Seq<usize>| #[trigger] is_walk(g, p) && p[0] == 0 && p.last() == u;
                                let q = p.push(v);
                                assert(has_edge(g, u, v));
                                assert forall|t: int| 0 <= t < q.len() - 1 implies #[trigger] walk_step(g, q, t) by {
                                    if t < p.len() - 1 {
                                        assert(walk_step(g, p, t));
                                    }
                                }
                                assert forall|t: int| 0 <= t < q.len() implies #[trigger] q[t] < g.len() by {
                                    if t < p.len() {
                                        assert(p[t] < g.len());
                                    }
                                }
                                assert(is_walk(g, q));
                                assert(reachable(g, 0, v));
                            }
                            let ghost old_stack = stack@;
                            visited.set(v, true);
                            stack.push(v);
                            count = count + 1;
                            proof {
                                assert forall|a: int, b: int|
                                    0 <= a < stack@.len() && 0 <= b < stack@.len() && a != b implies stack@[a] != stack@[b] by {
                                    if a < old_stack.len() && b < old_stack.len() {
                                        assert(old_stack[a] != old_stack[b]);
                                    } else if a < old_stack.len() {
                                        assert(visited@[old_stack[a] as int] || old_stack[a] == v);
                                    } else if b < old_stack.len() {
                                        assert(visited@[old_stack[b] as int] || old_stack[b] == v);
                                    }
                                }
                                assert forall|w: usize, x: usize|
                                    w < n && w != u && #[trigger] visited@[w as int] && !stack@.contains(w) && #[trigger] has_edge(g, w, x)
                                        implies visited@[x as int] by {
                                    assert(stack@[stack@.len() - 1] == v);
                                    if w != v {
                                        if old_stack.contains(w) {
                                            let t = choose|t: int| 0 <= t < old_stack.len() && old_stack[t] == w;
                                            assert(stack@[t] == w);
                                        }
                                    }
                                }
                                assert(!stack@.contains(u)) by {
                                    if stack@.contains(u) {
                                        let t = choose|t: int| 0 <= t < stack@.len() && stack@[t] == u;
                                        if t < old_stack.len() {
                                            assert(old_stack[t] == u);
                                        }
                                    }
                                }
                            }
                        }
                        j = j + 1;
                    }
                    proof {
                        assert forall|w: usize, x: usize|
                            w < n && #[trigger] visited@[w as int] && !stack@.contains(w) && #[trigger] has_edge(g, w, x)
                                implies visited@[x as int] by {
                            if w == u {
                                let t = choose|t: int| 0 <= t < nb@.len() && nb@[t] == x;
                                assert(visited@[nb@[t] as int]);
                            }
                        }
                    }
                },
            }
        }
        proof {
            assert forall|w: usize, x: usize| w < g.len() && #[trigger] visited@[w as int] && #[trigger] has_edge(g, w, x) implies visited@[x as int] by {
                assert(!stack@.contains(w));
            }
            lemma_true_indices_finite(visited@);
            lemma_int_range(0, n as int);
            assert(true_indices(visited@).subset_of(set_int_range(0, n as int)));
            if count == n {
                lemma_subset_equality(true_indices(visited@), set_int_range(0, n as int));
                assert forall|v: usize| v < g.len() implies #[trigger] reachable(g, 0, v) by {
                    assert(set_int_range(0, n as int).contains(v as int));
                    assert(visited@[v as int]);
                }
            } else {
                if forall|k: int| 0 <= k < n ==> visited@[k] {
                    assert(true_indices(visited@) =~= set_int_range(0, n as int));
                }
                let w = choose|k: int| 0 <= k < n && !visited@[k];
                let wu = w as usize;
                if reachable(g, 0, wu) {
                    let p = choose|p: Seq<usize>| #[trigger] is_walk(g, p) && p[0] == 0 && p.last() == wu;
                    lemma_walk_stays(g, p, visited@);
                }
                assert(!reachable(g, 0, wu));
            }
        }
        count == n
    }

    /// Neighbours of node `i`, in the order their edges were added.
    pub fn neighbors(&self, i: usize) -> (r: &[usize])
        requires
            self.wf(),
            i < self@.len(),
        ensures
            r@ == self@[i as int],
    {
        self.adj[i].as_slice()
    }

    /// Degree of node `i`.
    pub fn degree(&self, i: usize) -> (r: usize)
        requires
            self.wf(),
            i < self@.len(),
        ensures
            r == self@[i as int].len(),
    {
        self.adj[i].len()
    }
}

} // verus!
