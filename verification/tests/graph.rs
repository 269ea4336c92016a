use wave_conservation::graph::Graph;
use wave_conservation::WaveError;

fn path(n: usize) -> Graph {
    let mut g = Graph::new(n);
    for i in 0..n.saturating_sub(1) {
        g.add_edge(i, i + 1).unwrap();
    }
    g
}

#[test]
fn test_empty_graph() {
    let g = Graph::new(0);
    assert_eq!(g.n(), 0);
    assert_eq!(g.m(), 0);
}

#[test]
fn test_single_node() {
    let g = Graph::new(1);
    assert_eq!(g.n(), 1);
    assert_eq!(g.m(), 0);
}

#[test]
fn test_path_graph() {
    let mut g = Graph::new(3);
    g.add_edge(0, 1).unwrap();
    g.add_edge(1, 2).unwrap();
    assert_eq!(g.m(), 2);
    assert_eq!(g.degree(1), 2);
}

#[test]
fn test_duplicate_edge() {
    let mut g = Graph::new(2);
    g.add_edge(0, 1).unwrap();
    g.add_edge(0, 1).unwrap();
    assert_eq!(g.m(), 1);
}

#[test]
fn test_self_loop_ignored() {
    let mut g = Graph::new(2);
    g.add_edge(0, 0).unwrap();
    assert_eq!(g.m(), 0);
}

#[test]
fn test_out_of_bounds() {
    let mut g = Graph::new(2);
    assert!(g.add_edge(0, 5).is_err());
}

#[test]
fn test_laplacian_path3() {
    let mut g = Graph::new(3);
    g.add_edge(0, 1).unwrap();
    g.add_edge(1, 2).unwrap();
    let l = g.laplacian();
    assert_eq!(l[0][0], 1);
    assert_eq!(l[1][1], 2);
    assert_eq!(l[0][1], -1);
    assert_eq!(l[2][1], -1);
}

#[test]
fn test_connected() {
    let mut g = Graph::new(4);
    g.add_edge(0, 1).unwrap();
    g.add_edge(1, 2).unwrap();
    g.add_edge(2, 3).unwrap();
    assert!(g.is_connected());
}

#[test]
fn test_disconnected() {
    let mut g = Graph::new(4);
    g.add_edge(0, 1).unwrap();
    g.add_edge(2, 3).unwrap();
    assert!(!g.is_connected());
}

#[test]
fn out_of_bounds_error_names_larger_index_and_length() {
    let mut g = Graph::new(3);
    match g.add_edge(7, 1) {
        Err(WaveError::IndexOutOfBounds { index, len }) => {
            assert_eq!(index, 7);
            assert_eq!(len, 3);
        }
        _ => panic!("expected an out-of-bounds error"),
    }
    match g.add_edge(0, 4) {
        Err(WaveError::IndexOutOfBounds { index, len }) => {
            assert_eq!(index, 4);
            assert_eq!(len, 3);
        }
        _ => panic!("expected an out-of-bounds error"),
    }
    // A refused edge leaves the graph unchanged.
    assert_eq!(g.m(), 0);
    assert_eq!(g.degree(0), 0);
}

#[test]
fn neighbors_keep_insertion_order() {
    let mut g = Graph::new(4);
    g.add_edge(0, 3).unwrap();
    g.add_edge(0, 1).unwrap();
    g.add_edge(2, 0).unwrap();
    assert_eq!(g.neighbors(0), &[3, 1, 2]);
    assert_eq!(g.neighbors(2), &[0]);
    assert_eq!(g.neighbors(1), &[0]);
}

#[test]
fn edge_order_does_not_matter() {
    let mut a = Graph::new(3);
    a.add_edge(0, 2).unwrap();
    let mut b = Graph::new(3);
    b.add_edge(2, 0).unwrap();
    for i in 0..3 {
        assert_eq!(a.neighbors(i), b.neighbors(i));
    }
    // The reverse edge is the same edge.
    a.add_edge(2, 0).unwrap();
    assert_eq!(a.m(), 1);
    assert_eq!(a.neighbors(0), &[2]);
}

#[test]
fn handshake_degrees_sum_to_twice_edges() {
    let mut g = path(5);
    g.add_edge(0, 4).unwrap();
    g.add_edge(1, 3).unwrap();
    let sum: usize = (0..g.n()).map(|i| g.degree(i)).sum();
    assert_eq!(g.m(), 6);
    assert_eq!(sum, 2 * g.m());
}

#[test]
fn laplacian_rows_sum_to_zero_and_symmetric() {
    let mut g = path(5);
    g.add_edge(0, 2).unwrap();
    g.add_edge(4, 1).unwrap();
    let l = g.laplacian();
    for i in 0..5 {
        assert_eq!(l[i].iter().sum::<i128>(), 0);
        assert_eq!(l[i][i], g.degree(i) as i128);
        for j in 0..5 {
            assert_eq!(l[i][j], l[j][i]);
        }
    }
    assert_eq!(l[0][1], -1);
    assert_eq!(l[0][3], 0);
}

#[test]
fn adding_edges_keeps_connectivity() {
    let mut g = path(4);
    assert!(g.is_connected());
    g.add_edge(0, 3).unwrap();
    assert!(g.is_connected());
    let mut h = Graph::new(4);
    h.add_edge(0, 1).unwrap();
    h.add_edge(2, 3).unwrap();
    assert!(!h.is_connected());
    h.add_edge(1, 2).unwrap();
    assert!(h.is_connected());
}

#[test]
fn trivial_graphs_connectivity() {
    assert!(Graph::new(0).is_connected());
    assert!(Graph::new(1).is_connected());
    assert!(!Graph::new(2).is_connected());
    // Node 0 isolated while the rest is connected.
    let mut g = Graph::new(3);
    g.add_edge(1, 2).unwrap();
    assert!(!g.is_connected());
}

#[test]
fn complete_graph_degree_and_edge_bounds() {
    let n = 5;
    let mut g = Graph::new(n);
    for i in 0..n {
        for j in (i + 1)..n {
            g.add_edge(i, j).unwrap();
        }
    }
    for i in 0..n {
        assert_eq!(g.degree(i), n - 1);
        assert!(g.degree(i) < g.n());
    }
    assert_eq!(g.m(), n * (n - 1) / 2);
    // Adding any edge again changes nothing.
    g.add_edge(3, 1).unwrap();
    assert_eq!(g.m(), n * (n - 1) / 2);
    assert!(g.is_connected());
}

#[test]
fn new_edge_adds_exactly_one() {
    let mut g = Graph::new(4);
    let before = g.m();
    g.add_edge(1, 3).unwrap();
    assert_eq!(g.m(), before + 1);
    g.add_edge(3, 1).unwrap();
    g.add_edge(2, 2).unwrap();
    assert_eq!(g.m(), before + 1);
}

#[test]
fn laplacian_of_empty_and_isolated() {
    assert!(Graph::new(0).laplacian().is_empty());
    let l = Graph::new(2).laplacian();
    assert_eq!(l, vec![vec![0, 0], vec![0, 0]]);
}
