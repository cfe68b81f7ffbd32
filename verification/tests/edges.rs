use objviewer::edges::{shared_edges, EdgeShare, SharedEdge};

fn find(edges: &[SharedEdge], a: u32, b: u32) -> Option<EdgeShare> {
    edges.iter().find(|e| e.a == a && e.b == b).map(|e| e.share)
}

#[test]
fn single_triangle_has_three_boundary_edges() {
    let edges = shared_edges(&vec![0, 1, 2]);
    assert_eq!(edges.len(), 3);
    assert_eq!(find(&edges, 0, 1), Some(EdgeShare::Single));
    assert_eq!(find(&edges, 1, 2), Some(EdgeShare::Single));
    assert_eq!(find(&edges, 0, 2), Some(EdgeShare::Single));
}

#[test]
fn quad_shares_its_diagonal() {
    let edges = shared_edges(&vec![0, 1, 2, 0, 2, 3]);
    assert_eq!(edges.len(), 5);
    assert_eq!(find(&edges, 0, 2), Some(EdgeShare::Pair(0, 1)));
    assert_eq!(find(&edges, 0, 1), Some(EdgeShare::Single));
    assert_eq!(find(&edges, 2, 3), Some(EdgeShare::Single));
    assert_eq!(find(&edges, 0, 3), Some(EdgeShare::Single));
    assert_eq!(find(&edges, 2, 0), None);
}

#[test]
fn smaller_index_comes_first() {
    let edges = shared_edges(&vec![5, 3, 4]);
    for e in &edges {
        assert!(e.a <= e.b);
    }
    assert_eq!(find(&edges, 3, 5), Some(EdgeShare::Single));
}

#[test]
fn three_triangles_on_one_edge_are_many() {
    let edges = shared_edges(&vec![0, 1, 2, 1, 0, 3, 0, 1, 4]);
    assert_eq!(find(&edges, 0, 1), Some(EdgeShare::Many));
    assert_eq!(edges.len(), 7);
}

#[test]
fn degenerate_triangle_uses_an_edge_twice() {
    let edges = shared_edges(&vec![0, 0, 1]);
    assert_eq!(find(&edges, 0, 0), Some(EdgeShare::Single));
    assert_eq!(find(&edges, 0, 1), Some(EdgeShare::Pair(0, 0)));
    assert_eq!(edges.len(), 2);
}

#[test]
fn incomplete_triple_is_ignored() {
    assert!(shared_edges(&vec![]).is_empty());
    assert!(shared_edges(&vec![0, 1]).is_empty());
    assert_eq!(shared_edges(&vec![0, 1, 2, 3, 4]).len(), 3);
}

#[test]
fn closed_cube_has_only_shared_edges() {
    let idx = vec![
        0, 1, 2, 0, 2, 3, 4, 6, 5, 4, 7, 6, 0, 5, 1, 0, 4, 5, 3, 2, 6, 3, 6, 7, 0, 3, 7, 0, 7, 4,
        1, 5, 6, 1, 6, 2,
    ];
    let edges = shared_edges(&idx);
    assert_eq!(edges.len(), 18);
    for e in &edges {
        assert!(matches!(e.share, EdgeShare::Pair(_, _)), "{:?}", e);
    }
}

use objviewer::edges::wireframe_lines;

#[test]
fn wireframe_draws_boundary_many_and_steep_pairs() {
    let edges = vec![
        SharedEdge { a: 0, b: 1, share: EdgeShare::Single },
        SharedEdge { a: 0, b: 2, share: EdgeShare::Pair(0, 1) },
        SharedEdge { a: 1, b: 2, share: EdgeShare::Pair(0, 2) },
        SharedEdge { a: 2, b: 3, share: EdgeShare::Many },
    ];
    let steep = vec![false, true, false, false];
    assert_eq!(wireframe_lines(&edges, &steep), vec![0, 1, 0, 2, 2, 3]);
}

#[test]
fn wireframe_empty_without_a_triangle() {
    for idx in [vec![], vec![0], vec![0, 1]] {
        let edges = shared_edges(&idx);
        assert!(edges.is_empty());
        assert!(wireframe_lines(&edges, &vec![]).is_empty());
    }
}

#[test]
fn flat_quad_draws_only_its_outline() {
    let edges = shared_edges(&vec![0, 1, 2, 0, 2, 3]);
    let steep = vec![false; edges.len()];
    let lines = wireframe_lines(&edges, &steep);
    assert_eq!(lines.len(), 8);
    for pair in lines.chunks(2) {
        assert_ne!((pair[0], pair[1]), (0, 2));
    }
}
