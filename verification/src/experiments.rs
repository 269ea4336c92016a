//! Graph generators: adjacency matrices of standard graph families, with
//! entry 1 for an edge and 0 otherwise.

use vstd::prelude::*;

verus! {

/// Path `0 – 1 – … – n-1`.
pub open spec fn path_entry(n: int, i: int, j: int) -> u8 {
    if i + 1 == j || j + 1 == i { 1 } else { 0 }
}

/// Path closed into a cycle by the edge `0 – n-1` when `n > 2`.
pub open spec fn cycle_entry(n: int, i: int, j: int) -> u8 {
    if path_entry(n, i, j) == 1 || (n > 2 && ((i == 0 && j == n - 1) || (i == n - 1 && j == 0))) {
        1
    } else {
        0
    }
}

/// Every pair of distinct nodes is joined.
pub open spec fn complete_entry(n: int, i: int, j: int) -> u8 {
    if i != j { 1 } else { 0 }
}

/// Node 0 is joined to every other node.
pub open spec fn star_entry(n: int, i: int, j: int) -> u8 {
    if (i == 0 && j >= 1) || (j == 0 && i >= 1) { 1 } else { 0 }
}

/// Two cliques on `0..k` and `k..2k`, joined by the bridge `k-1 – k`.
pub open spec fn barbell_entry(k: int, i: int, j: int) -> u8 {
    if (i != j && ((i < k && j < k) || (i >= k && j >= k))) || (i == k - 1 && j == k) || (i == k
        && j == k - 1) {
        1
    } else {
        0
    }
}

/// `m` is an `n × n` matrix whose entry `(i, j)` is `f(i, j)`.
pub open spec fn is_matrix_of(m: Seq<Vec<u8>>, n: nat, f: spec_fn(int, int) -> u8) -> bool {
    &&& m.len() == n
    &&& forall|i: int| 0 <= i < n ==> (#[trigger] m[i])@.len() == n
    &&& forall|i: int, j: int| 0 <= i < n && 0 <= j < n ==> m[i]@[j] == f(i, j)
}

fn filled(n: usize, value: u8) -> (m: Vec<Vec<u8>>)
    ensures
        is_matrix_of(m@, n as nat, |i: int, j: int| value),
{
    let mut m: Vec<Vec<u8>> = Vec::new();
    let mut i: usize = 0;
    while i < n
        invariant
            i <= n,
            m@.len() == i,
            forall|a: int| 0 <= a < i ==> (#[trigger] m@[a])@.len() == n,
            forall|a: int, b: int| 0 <= a < i && 0 <= b < n ==> m@[a]@[b] == value,
        decreases n - i,
    {
        let mut row: Vec<u8> = Vec::new();
        let mut j: usize = 0;
        while j < n
            invariant
                j <= n,
                row@.len() == j,
                forall|b: int| 0 <= b < j ==> row@[b] == value,
            decreases n - j,
        {
            row.push(value);
            j = j + 1;
        }
        m.push(row);
        i = i + 1;
    }
    m
}

fn set_entry(m: &mut Vec<Vec<u8>>, i: usize, j: usize, value: u8)
    requires
        i < old(m)@.len(),
        j < old(m)@[i as int]@.len(),
    ensures
        final(m)@.len() == old(m)@.len(),
        forall|a: int| 0 <= a < old(m)@.len() ==> (#[trigger] final(m)@[a])@.len() == old(m)@[a]@.len(),
        forall|a: int, b: int|
            0 <= a < old(m)@.len() && 0 <= b < old(m)@[a]@.len() ==> final(m)@[a]@[b] == if a == i
                && b == j {
                value
            } else {
                old(m)@[a]@[b]
            },
{
    m[i].set(j, value);
}

/// Build a path graph adjacency matrix.
pub fn path_graph(n: usize) -> (adj: Vec<Vec<u8>>)
    ensures
        is_matrix_of(adj@, n as nat, |i: int, j: int| path_entry(n as int, i, j)),
        n >= 2 ==> forall|i: int| 0 <= i < n ==> #[trigger] row_ones(entries(adj@), i, 0, n as int) == if i == 0
            || i == n - 1 {
            1int
        } else {
            2int
        },
{
    let mut adj = filled(n, 0);
    let last: usize = if n > 0 { n - 1 } else { 0 };
    let mut i: usize = 0;
    while i < last
        invariant
            last == (if n > 0 { n - 1 } else { 0 }),
            i <= last,
            is_matrix_of(adj@, n as nat, |a: int, b: int|
                if (a + 1 == b && a < i) || (b + 1 == a && b < i) { 1u8 } else { 0u8 }),
        decreases last - i,
    {
        set_entry(&mut adj, i, i + 1, 1);
        set_entry(&mut adj, i + 1, i, 1);
        i = i + 1;
    }
    proof {
        if n >= 2 {
            assert forall|i: int| 0 <= i < n implies #[trigger] row_ones(entries(adj@), i, 0, n as int) == if i == 0
                || i == n - 1 {
                1int
            } else {
                2int
            } by {
                lemma_path_degrees(n as int, i);
                lemma_row_ones_eq(entries(adj@), |a: int, b: int| path_entry(n as int, a, b), i, 0, n as int);
            }
        }
    }
    adj
}

/// Build a cycle graph.
pub fn cycle_graph(n: usize) -> (adj: Vec<Vec<u8>>)
    ensures
        is_matrix_of(adj@, n as nat, |i: int, j: int| cycle_entry(n as int, i, j)),
        n >= 3 ==> adj@[0]@[n - 1] == 1 && adj@[n - 1]@[0] == 1,
        n >= 3 ==> forall|i: int| 0 <= i < n ==> #[trigger] row_ones(entries(adj@), i, 0, n as int) == 2,
{
    let mut adj = path_graph(n);
    if n > 2 {
        set_entry(&mut adj, 0, n - 1, 1);
        set_entry(&mut adj, n - 1, 0, 1);
    }
    proof {
        if n >= 3 {
            lemma_cycle_two_regular(n as int, 0);
            assert forall|i: int| 0 <= i < n implies #[trigger] row_ones(entries(adj@), i, 0, n as int) == 2 by {
                lemma_cycle_two_regular(n as int, i);
                lemma_row_ones_eq(entries(adj@), |a: int, b: int| cycle_entry(n as int, a, b), i, 0, n as int);
            }
        }
    }
    adj
}

/// Build a complete graph.
pub fn complete_graph(n: usize) -> (adj: Vec<Vec<u8>>)
    ensures
        is_matrix_of(adj@, n as nat, |i: int, j: int| complete_entry(n as int, i, j)),
        forall|i: int| 0 <= i < n ==> #[trigger] row_ones(entries(adj@), i, 0, n as int) == n - 1,
{
    let mut adj = filled(n, 1);
    let mut i: usize = 0;
    while i < n
        invariant
            i <= n,
            is_matrix_of(adj@, n as nat, |a: int, b: int| if a == b && a < i { 0u8 } else { 1u8 }),
        decreases n - i,
    {
        set_entry(&mut adj, i, i, 0);
        i = i + 1;
    }
    proof {
        assert forall|i: int| 0 <= i < n implies #[trigger] row_ones(entries(adj@), i, 0, n as int) == n - 1 by {
            lemma_complete_degrees(n as int, i);
            lemma_row_ones_eq(entries(adj@), |a: int, b: int| complete_entry(n as int, a, b), i, 0, n as int);
        }
    }
    adj
}

/// Build a star graph (node 0 = center).
pub fn star_graph(n: usize) -> (adj: Vec<Vec<u8>>)
    ensures
        is_matrix_of(adj@, n as nat, |i: int, j: int| star_entry(n as int, i, j)),
        n >= 2 ==> forall|i: int| 0 <= i < n ==> #[trigger] row_ones(entries(adj@), i, 0, n as int) == if i == 0 {
            n - 1
        } else {
            1
        },
{
    let mut adj = filled(n, 0);
    let mut i: usize = 1;
    while i < n
        invariant
            1 <= i,
            n > 0 ==> i <= n,
            is_matrix_of(adj@, n as nat, |a: int, b: int|
                if (a == 0 && 1 <= b < i) || (b == 0 && 1 <= a < i) { 1u8 } else { 0u8 }),
        decreases n - i,
    {
        set_entry(&mut adj, 0, i, 1);
        set_entry(&mut adj, i, 0, 1);
        i = i + 1;
    }
    proof {
        if n >= 2 {
            assert forall|i: int| 0 <= i < n implies #[trigger] row_ones(entries(adj@), i, 0, n as int) == if i == 0 {
                n - 1
            } else {
                1
            } by {
                lemma_star_degrees(n as int, i);
                lemma_row_ones_eq(entries(adj@), |a: int, b: int| star_entry(n as int, a, b), i, 0, n as int);
            }
        }
    }
    adj
}

/// Build a barbell graph (two cliques of size k joined by a bridge).
pub fn barbell_graph(k: usize) -> (adj: Vec<Vec<u8>>)
    requires
        k >= 1,
        2 * k <= usize::MAX,
    ensures
        is_matrix_of(adj@, (2 * k) as nat, |i: int, j: int| barbell_entry(k as int, i, j)),
        forall|i: int| 0 <= i < 2 * k ==> #[trigger] row_ones(entries(adj@), i, 0, 2 * k) == if i == k - 1 || i == k {
            k as int
        } else {
            k - 1
        },
{
    let n = 2 * k;
    let mut adj = filled(n, 0);
    // Left clique
    let mut i: usize = 0;
    while i < k
        invariant
            n == 2 * k,
            i <= k,
            is_matrix_of(adj@, n as nat, |a: int, b: int|
                if a != b && a < i && b < k { 1u8 } else { 0u8 }),
        decreases k - i,
    {
        let mut j: usize = 0;
        while j < k
            invariant
                n == 2 * k,
                i < k,
                j <= k,
                is_matrix_of(adj@, n as nat, |a: int, b: int|
                    if a != b && b < k && (a < i || (a == i && b < j)) { 1u8 } else { 0u8 }),
            decreases k - j,
        {
            if i != j {
                set_entry(&mut adj, i, j, 1);
            }
            j = j + 1;
        }
        i = i + 1;
    }
    // Right clique
    let mut i: usize = k;
    while i < n
        invariant
            n == 2 * k,
            k <= i <= n,
            is_matrix_of(adj@, n as nat, |a: int, b: int|
                if a != b && ((a < k && b < k) || (k <= a < i && b >= k)) { 1u8 } else { 0u8 }),
        decreases n - i,
    {
        let mut j: usize = k;
        while j < n
            invariant
                n == 2 * k,
                k <= i < n,
                k <= j <= n,
                is_matrix_of(adj@, n as nat, |a: int, b: int|
                    if a != b && ((a < k && b < k) || (k <= a < i && b >= k) || (a == i && k <= b < j)) {
                        1u8
                    } else {
                        0u8
                    }),
            decreases n - j,
        {
            if i != j {
                set_entry(&mut adj, i, j, 1);
            }
            j = j + 1;
        }
        i = i + 1;
    }
    // Bridge
    set_entry(&mut adj, k - 1, k, 1);
    set_entry(&mut adj, k, k - 1, 1);
    proof {
        assert forall|i: int| 0 <= i < 2 * k implies #[trigger] row_ones(entries(adj@), i, 0, 2 * k) == if i == k - 1 || i == k {
            k as int
        } else {
            k - 1
        } by {
            lemma_barbell_degrees(k as int, i);
            lemma_row_ones_eq(entries(adj@), |a: int, b: int| barbell_entry(k as int, a, b), i, 0, 2 * k);
        }
    }
    adj
}

/// Number of 1 entries of row `i` of `f` among the columns `lo..hi`.
pub open spec fn row_ones(f: spec_fn(int, int) -> u8, i: int, lo: int, hi: int) -> int
    decreases hi - lo,
{
    if hi <= lo {
        0
    } else {
        row_ones(f, i, lo, hi - 1) + f(i, hi - 1)
    }
}

proof fn lemma_row_ones_split(f: spec_fn(int, int) -> u8, i: int, lo: int, mid: int, hi: int)
    requires
        lo <= mid <= hi,
    ensures
        row_ones(f, i, lo, hi) == row_ones(f, i, lo, mid) + row_ones(f, i, mid, hi),
    decreases hi - mid,
{
    if hi > mid {
        lemma_row_ones_split(f, i, lo, mid, hi - 1);
    }
}

proof fn lemma_row_ones_const(f: spec_fn(int, int) -> u8, i: int, lo: int, hi: int, c: u8)
    requires
        lo <= hi,
        c <= 1,
        forall|j: int| lo <= j < hi ==> #[trigger] f(i, j) == c,
    ensures
        row_ones(f, i, lo, hi) == if c == 1 { hi - lo } else { 0 },
    decreases hi - lo,
{
    if hi > lo {
        lemma_row_ones_const(f, i, lo, hi - 1, c);
    }
}

/// The entries of a matrix as a function of row and column.
pub open spec fn entries(m: Seq<Vec<u8>>) -> spec_fn(int, int) -> u8 {
    |a: int, b: int| m[a]@[b]
}

proof fn lemma_row_ones_eq(f: spec_fn(int, int) -> u8, g: spec_fn(int, int) -> u8, i: int, lo: int, hi: int)
    requires
        forall|j: int| lo <= j < hi ==> #[trigger] f(i, j) == g(i, j),
    ensures
        row_ones(f, i, lo, hi) == row_ones(g, i, lo, hi),
    decreases hi - lo,
{
    if hi > lo {
        lemma_row_ones_eq(f, g, i, lo, hi - 1);
    }
}

proof fn lemma_row_ones_single(f: spec_fn(int, int) -> u8, i: int, j: int)
    ensures
        row_ones(f, i, j, j + 1) == f(i, j),
{
    assert(row_ones(f, i, j, j) == 0);
}

/// Row `i` of `f` over `0..n` is 0 except at columns `a` and `b`.
proof fn lemma_row_ones_pattern(f: spec_fn(int, int) -> u8, i: int, n: int, a: int, b: int)
    requires
        0 <= a < b < n,
        f(i, a) <= 1,
        f(i, b) <= 1,
        forall|j: int| 0 <= j < n && j != a && j != b ==> #[trigger] f(i, j) == 0,
    ensures
        row_ones(f, i, 0, n) == f(i, a) + f(i, b),
{
    lemma_row_ones_split(f, i, 0, a, n);
    lemma_row_ones_split(f, i, a, a + 1, n);
    lemma_row_ones_split(f, i, a + 1, b, n);
    lemma_row_ones_split(f, i, b, b + 1, n);
    lemma_row_ones_const(f, i, 0, a, 0);
    lemma_row_ones_const(f, i, a + 1, b, 0);
    lemma_row_ones_const(f, i, b + 1, n, 0);
    lemma_row_ones_single(f, i, a);
    lemma_row_ones_single(f, i, b);
}

/// Row `i` of `f` over `0..n` is 1 on `lo..hi` except at column `i`, and 0 elsewhere.
proof fn lemma_row_ones_block(f: spec_fn(int, int) -> u8, i: int, n: int, lo: int, hi: int)
    requires
        0 <= lo <= i < hi <= n,
        forall|j: int| 0 <= j < n ==> #[trigger] f(i, j) == if lo <= j < hi && j != i { 1u8 } else { 0u8 },
    ensures
        row_ones(f, i, 0, n) == hi - lo - 1,
{
    lemma_row_ones_split(f, i, 0, lo, n);
    lemma_row_ones_split(f, i, lo, i, n);
    lemma_row_ones_split(f, i, i, i + 1, n);
    lemma_row_ones_split(f, i, i + 1, hi, n);
    lemma_row_ones_const(f, i, 0, lo, 0);
    lemma_row_ones_const(f, i, lo, i, 1);
    lemma_row_ones_const(f, i, i + 1, hi, 1);
    lemma_row_ones_const(f, i, hi, n, 0);
    lemma_row_ones_single(f, i, i);
}

/// A cycle on `n >= 3` nodes closes with the edge `0`–`n-1`, and every node
/// has exactly two neighbours.
pub proof fn lemma_cycle_two_regular(n: int, i: int)
    requires
        n >= 3,
        0 <= i < n,
    ensures
        cycle_entry(n, 0, n - 1) == 1,
        cycle_entry(n, n - 1, 0) == 1,
        row_ones(|a: int, b: int| cycle_entry(n, a, b), i, 0, n) == 2,
{
    let f = |a: int, b: int| cycle_entry(n, a, b);
    if i == 0 {
        lemma_row_ones_pattern(f, i, n, 1, n - 1);
    } else if i == n - 1 {
        lemma_row_ones_pattern(f, i, n, 0, n - 2);
    } else {
        lemma_row_ones_pattern(f, i, n, i - 1, i + 1);
    }
}

/// In a path on `n >= 2` nodes the two ends have one neighbour and every
/// other node has two.
pub proof fn lemma_path_degrees(n: int, i: int)
    requires
        n >= 2,
        0 <= i < n,
    ensures
        row_ones(|a: int, b: int| path_entry(n, a, b), i, 0, n) == if i == 0 || i == n - 1 {
            1int
        } else {
            2int
        },
{
    let f = |a: int, b: int| path_entry(n, a, b);
    if i == 0 {
        lemma_row_ones_pattern(f, i, n, 0, 1);
    } else if i == n - 1 {
        lemma_row_ones_pattern(f, i, n, n - 2, n - 1);
    } else {
        lemma_row_ones_pattern(f, i, n, i - 1, i + 1);
    }
}

/// In a complete graph on `n` nodes every node has `n - 1` neighbours.
pub proof fn lemma_complete_degrees(n: int, i: int)
    requires
        0 <= i < n,
    ensures
        row_ones(|a: int, b: int| complete_entry(n, a, b), i, 0, n) == n - 1,
{
    lemma_row_ones_block(|a: int, b: int| complete_entry(n, a, b), i, n, 0, n);
}

/// In a star on `n >= 2` nodes the centre 0 has `n - 1` neighbours and every
/// leaf has one.
pub proof fn lemma_star_degrees(n: int, i: int)
    requires
        n >= 2,
        0 <= i < n,
    ensures
        row_ones(|a: int, b: int| star_entry(n, a, b), i, 0, n) == if i == 0 {
            n - 1
        } else {
            1
        },
{
    let f = |a: int, b: int| star_entry(n, a, b);
    if i == 0 {
        lemma_row_ones_block(f, i, n, 0, n);
    } else {
        lemma_row_ones_pattern(f, i, n, 0, i);
    }
}

/// In a barbell of two `k`-cliques every node has `k - 1` neighbours inside
/// its clique, and the two bridge ends `k - 1` and `k` have one more.
pub proof fn lemma_barbell_degrees(k: int, i: int)
    requires
        k >= 1,
        0 <= i < 2 * k,
    ensures
        row_ones(|a: int, b: int| barbell_entry(k, a, b), i, 0, 2 * k) == if i == k - 1 || i == k {
            k
        } else {
            k - 1
        },
{
    let f = |a: int, b: int| barbell_entry(k, a, b);
    let n = 2 * k;
    if i < k {
        lemma_row_ones_split(f, i, 0, k, n);
        lemma_row_ones_split(f, i, k, k + 1, n);
        lemma_row_ones_const(f, i, k + 1, n, 0);
        lemma_row_ones_single(f, i, k);
        lemma_row_ones_split(f, i, 0, i, k);
        lemma_row_ones_split(f, i, i, i + 1, k);
        lemma_row_ones_const(f, i, 0, i, 1);
        lemma_row_ones_const(f, i, i + 1, k, 1);
        lemma_row_ones_single(f, i, i);
    } else {
        lemma_row_ones_split(f, i, 0, k - 1, n);
        lemma_row_ones_split(f, i, k - 1, k, n);
        lemma_row_ones_const(f, i, 0, k - 1, 0);
        lemma_row_ones_single(f, i, k - 1);
        lemma_row_ones_split(f, i, k, i, n);
        lemma_row_ones_split(f, i, i, i + 1, n);
        lemma_row_ones_const(f, i, k, i, 1);
        lemma_row_ones_const(f, i, i + 1, n, 1);
        lemma_row_ones_single(f, i, i);
    }
}

/// Every generated graph is undirected and loop-free: its matrix is
/// symmetric, has a zero diagonal, and holds only 0 and 1.
pub proof fn lemma_generators_undirected(n: int, k: int, i: int, j: int)
    ensures
        path_entry(n, i, j) == path_entry(n, j, i),
        path_entry(n, i, i) == 0,
        cycle_entry(n, i, j) == cycle_entry(n, j, i),
        0 <= i < n ==> cycle_entry(n, i, i) == 0,
        complete_entry(n, i, j) == complete_entry(n, j, i),
        complete_entry(n, i, i) == 0,
        star_entry(n, i, j) == star_entry(n, j, i),
        star_entry(n, i, i) == 0,
        barbell_entry(k, i, j) == barbell_entry(k, j, i),
        barbell_entry(k, i, i) == 0,
        path_entry(n, i, j) <= 1 && cycle_entry(n, i, j) <= 1 && complete_entry(n, i, j) <= 1
            && star_entry(n, i, j) <= 1 && barbell_entry(k, i, j) <= 1,
{
}

} // verus!
