use steiner_tree::engine::{compute, compute_blocking, Ret};
use steiner_tree::error::Error;
use steiner_tree::state::State;

/// Undirected normal form of an edge list: each pair ordered, then sorted.
fn norm(mut edges: Vec<(usize, usize)>) -> Vec<(usize, usize)> {
    for e in edges.iter_mut() {
        if e.0 > e.1 {
            *e = (e.1, e.0);
        }
    }
    edges.sort();
    edges
}

/// Whether the edge set, viewed as a subgraph, connects every terminal.
fn spans_terminals(n: usize, edges: &[(usize, usize)], terms: &[usize]) -> bool {
    if terms.is_empty() {
        return true;
    }
    let mut adj = vec![Vec::new(); n];
    for &(x, y) in edges {
        adj[x].push(y);
        adj[y].push(x);
    }
    let mut seen = vec![false; n];
    let mut stack = vec![terms[0]];
    seen[terms[0]] = true;
    while let Some(v) = stack.pop() {
        for &w in &adj[v] {
            if !seen[w] {
                seen[w] = true;
                stack.push(w);
            }
        }
    }
    terms.iter().all(|&t| seen[t])
}

/// Drives the suspending entry point to completion, counting pauses.
fn run_yielding(
    n: usize,
    edges: Vec<(usize, usize)>,
    terms: Vec<usize>,
) -> (Result<(usize, Vec<(usize, usize)>), Error>, usize) {
    let mut st = State::new(n, edges, terms);
    let mut pauses: usize = 0;
    loop {
        match compute(&mut st) {
            Ret::Yielding => pauses += 1,
            Ret::Solved(cost, picked) => return (Ok((cost, picked)), pauses),
            Ret::Failed(e) => return (Err(e), pauses),
        }
    }
}

#[test]
fn path_two_terminals() {
    let r = compute_blocking(4, vec![(0, 1), (1, 2), (2, 3)], vec![0, 3]);
    let (cost, picked) = r.unwrap();
    assert_eq!(cost, 3);
    assert_eq!(norm(picked), vec![(0, 1), (1, 2), (2, 3)]);
}

#[test]
fn star_four_terminals() {
    let r = compute_blocking(5, vec![(0, 1), (0, 2), (0, 3), (0, 4)], vec![1, 2, 3, 4]);
    let (cost, picked) = r.unwrap();
    assert_eq!(cost, 4);
    assert_eq!(norm(picked), vec![(0, 1), (0, 2), (0, 3), (0, 4)]);
}

#[test]
fn too_many_terminals() {
    let r = compute_blocking(1, Vec::new(), vec![0; 30]);
    assert_eq!(r.unwrap_err(), Error::TooLargeInput(1));
}

#[test]
fn too_many_terminals_regardless_of_input() {
    // The cap fires before validation, whatever `n` and the edges are.
    let r = compute_blocking(0, vec![(7, 9)], vec![5; 31]);
    assert_eq!(r.unwrap_err(), Error::TooLargeInput(0));
}

#[test]
fn table_too_large() {
    let terms: Vec<usize> = (0..10).collect();
    let r = compute_blocking(100_000, vec![(0, 1)], terms);
    assert_eq!(r.unwrap_err(), Error::TooLargeInput(100_000));
}

#[test]
fn vertex_count_too_large() {
    let r = compute_blocking(40_000_000, Vec::new(), vec![17]);
    assert_eq!(r.unwrap_err(), Error::TooLargeInput(40_000_000));
}

#[test]
fn edge_endpoint_off_by_one() {
    let r = compute_blocking(3, vec![(0, 3)], vec![0]);
    assert_eq!(r.unwrap_err(), Error::InvalidArg(3, vec![(0, 3)], vec![0]));
}

#[test]
fn terminal_off_by_one() {
    let r = compute_blocking(3, vec![(0, 1)], vec![3]);
    assert_eq!(r.unwrap_err(), Error::InvalidArg(3, vec![(0, 1)], vec![3]));
}

#[test]
fn no_edges_two_terminals() {
    let r = compute_blocking(2, Vec::new(), vec![0, 1]);
    assert_eq!(r.unwrap_err(), Error::TerminalNotConnected);
}

#[test]
fn disconnected_components() {
    let r = compute_blocking(4, vec![(0, 1), (2, 3)], vec![0, 3]);
    assert_eq!(r.unwrap_err(), Error::TerminalNotConnected);
}

#[test]
fn single_terminal_zero_cost() {
    let r = compute_blocking(5, vec![(0, 1), (1, 2), (2, 3), (3, 4)], vec![2]);
    let (cost, picked) = r.unwrap();
    assert_eq!(cost, 0);
    assert!(picked.is_empty());
}

#[test]
fn single_terminal_isolated_vertex() {
    let r = compute_blocking(1, Vec::new(), vec![0]);
    let (cost, picked) = r.unwrap();
    assert_eq!(cost, 0);
    assert!(picked.is_empty());
}

#[test]
fn no_terminals_reports_not_connected() {
    let r = compute_blocking(3, vec![(0, 1)], Vec::new());
    assert_eq!(r.unwrap_err(), Error::TerminalNotConnected);
}

#[test]
fn duplicate_terminals_count_once() {
    let r = compute_blocking(1, Vec::new(), vec![0, 0]);
    let (cost, picked) = r.unwrap();
    assert_eq!(cost, 0);
    assert!(picked.is_empty());
}

#[test]
fn yielding_matches_blocking() {
    let n: usize = 4;
    let edges = vec![(0, 1), (1, 2), (2, 3)];
    let terms = vec![0, 3];
    let blocking = compute_blocking(n, edges.clone(), terms.clone()).unwrap();
    let (yielding, pauses) = run_yielding(n, edges, terms);
    let yielding = yielding.unwrap();
    assert!(pauses > 0);
    assert_eq!(blocking.0, yielding.0);
    assert_eq!(norm(blocking.1), norm(yielding.1));
}

#[test]
fn yielding_matches_blocking_on_errors() {
    let (r, _) = run_yielding(2, Vec::new(), vec![0, 1]);
    assert_eq!(r.unwrap_err(), Error::TerminalNotConnected);
    let b = compute_blocking(2, Vec::new(), vec![0, 1]);
    assert_eq!(b.unwrap_err(), Error::TerminalNotConnected);
}

#[test]
fn steiner_point_used() {
    // A cross: terminals on the four arms, the centre is a Steiner point.
    let n: usize = 5;
    let edges = vec![(1, 0), (2, 0), (3, 0), (4, 0)];
    let terms = vec![1, 2, 3];
    let (cost, picked) = compute_blocking(n, edges, terms).unwrap();
    assert_eq!(cost, 3);
    assert_eq!(norm(picked), vec![(0, 1), (0, 2), (0, 3)]);
}

#[test]
fn returned_tree_spans_terminals_with_reported_weight() {
    // Grid-ish graph with several equal-cost trees: whatever tree comes
    // back, it must span the terminals and its weight must equal the cost.
    let n: usize = 6;
    let edges = vec![(0, 1), (1, 2), (2, 3), (3, 4), (4, 5), (5, 0), (1, 4)];
    let terms = vec![0, 2, 4];
    let (cost, picked) = compute_blocking(n, edges, terms).unwrap();
    assert_eq!(picked.len(), cost);
    assert!(spans_terminals(n, &picked, &[0, 2, 4]));
    assert_eq!(cost, 3);
}

#[test]
fn adding_an_edge_never_raises_cost() {
    let base = vec![(0, 1), (1, 2), (2, 3)];
    let (c0, _) = compute_blocking(4, base.clone(), vec![0, 3]).unwrap();
    let mut more = base.clone();
    more.push((0, 3));
    let (c1, _) = compute_blocking(4, more, vec![0, 3]).unwrap();
    assert!(c1 <= c0);
    assert_eq!(c1, 1);
    let mut unrelated = base;
    unrelated.push((1, 3));
    let (c2, _) = compute_blocking(4, unrelated, vec![0, 3]).unwrap();
    assert!(c2 <= c0);
    assert_eq!(c2, 2);
}
