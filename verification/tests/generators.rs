use wave_conservation::experiments::{barbell_graph, complete_graph, cycle_graph, path_graph, star_graph};

fn check_undirected(m: &[Vec<u8>], n: usize) {
    assert_eq!(m.len(), n);
    for i in 0..n {
        assert_eq!(m[i].len(), n);
        assert_eq!(m[i][i], 0);
        for j in 0..n {
            assert_eq!(m[i][j], m[j][i]);
            assert!(m[i][j] <= 1);
        }
    }
}

fn edges(m: &[Vec<u8>]) -> usize {
    m.iter().map(|r| r.iter().map(|&x| x as usize).sum::<usize>()).sum::<usize>() / 2
}

#[test]
fn path_graph_entries() {
    let m = path_graph(4);
    assert_eq!(m, vec![vec![0, 1, 0, 0], vec![1, 0, 1, 0], vec![0, 1, 0, 1], vec![0, 0, 1, 0]]);
    assert!(path_graph(0).is_empty());
    assert_eq!(path_graph(1), vec![vec![0]]);
}

#[test]
fn cycle_graph_entries() {
    let m = cycle_graph(4);
    assert_eq!(m, vec![vec![0, 1, 0, 1], vec![1, 0, 1, 0], vec![0, 1, 0, 1], vec![1, 0, 1, 0]]);
    assert_eq!(cycle_graph(2), vec![vec![0, 1], vec![1, 0]]);
    assert_eq!(edges(&cycle_graph(10)), 10);
}

#[test]
fn complete_star_barbell_entries() {
    assert_eq!(complete_graph(3), vec![vec![0, 1, 1], vec![1, 0, 1], vec![1, 1, 0]]);
    assert_eq!(star_graph(3), vec![vec![0, 1, 1], vec![1, 0, 0], vec![1, 0, 0]]);
    let b = barbell_graph(2);
    assert_eq!(b, vec![vec![0, 1, 0, 0], vec![1, 0, 1, 0], vec![0, 1, 0, 1], vec![0, 0, 1, 0]]);
    assert_eq!(edges(&barbell_graph(5)), 21);
    assert_eq!(edges(&complete_graph(10)), 45);
    assert_eq!(edges(&star_graph(10)), 9);
}

#[test]
fn generated_graphs_are_undirected() {
    for n in 0..8 {
        check_undirected(&path_graph(n), n);
        check_undirected(&cycle_graph(n), n);
        check_undirected(&complete_graph(n), n);
        check_undirected(&star_graph(n), n);
    }
    for k in 1..5 {
        check_undirected(&barbell_graph(k), 2 * k);
    }
}
