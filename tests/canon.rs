use graph_canon::autom::{AutoGroups, AutomError};
use graph_canon::refine::refine;
use graph_canon::canon::{bit_adj_to_edgelist, canonize, CanonLabeling};
use graph_canon::dense::{DenseGraph, Nodes};

fn label(n: usize, edges: &[(u32, u32)], directed: bool) -> CanonLabeling {
    CanonLabeling::new(&DenseGraph::from_edges(n, &edges.to_vec(), directed))
}

#[test]
fn test_equivalent_digraph() {
    let e1 = vec![(0, 1), (0, 2), (1, 2)];
    let e2 = vec![(1, 0), (1, 2), (0, 2)];
    let l1 = label(3, &e1, true);
    let l2 = label(3, &e2, true);
    assert_eq!(l1, l2);
}

#[test]
fn test_unequal_digraph() {
    let e1 = vec![(0, 1), (0, 2), (1, 2)];
    let e2 = vec![(1, 0), (1, 2), (2, 1)];
    let l1 = label(3, &e1, true);
    let l2 = label(3, &e2, true);
    assert_ne!(l1, l2);
}

#[test]
fn test_equal_ungraph() {
    let e1 = vec![(0, 1), (0, 2), (1, 2)];
    let e2 = vec![(1, 0), (1, 2), (0, 2)];
    let l1 = label(3, &e1, false);
    let l2 = label(3, &e2, false);
    assert_eq!(l1, l2);
}

#[test]
fn test_unequal_ungraph() {
    let e1 = vec![(0, 1), (0, 2), (1, 2)];
    let e2 = vec![(1, 0), (1, 2)];
    let l1 = label(3, &e1, false);
    let l2 = label(3, &e2, false);
    assert_ne!(l1, l2);
}

#[test]
fn test_label() {
    let edges = vec![(0, 1), (0, 2), (1, 2)];
    let canon = label(3, &edges, true);
    assert_eq!(canon.g, vec![0, 9223372036854775808, 13835058055282163712]);
    assert_eq!(canon.e, 3);
    assert_eq!(canon.n, 3);
}

#[test]
fn test_flat_adj_directed() {
    let edges = vec![(0, 1), (0, 2), (1, 2)];
    let canon = label(3, &edges, true);
    let flat_adj = canon.flat_adjacency();
    assert_eq!(flat_adj, vec![0, 0, 0, 1, 0, 0, 1, 1, 0]);
}

#[test]
fn test_flat_adj_undirected() {
    let edges = vec![(0, 1), (0, 2), (1, 2)];
    let canon = label(3, &edges, false);
    let flat_adj = canon.flat_adjacency();
    assert_eq!(flat_adj, vec![0, 1, 1, 1, 0, 1, 1, 1, 0]);
}

#[test]
fn undirected_triangle_counts_both_directions() {
    let canon = label(3, &[(0, 1), (0, 2), (1, 2)], false);
    assert_eq!(canon.e, 6);
    let directed = label(3, &[(0, 1), (0, 2), (1, 2)], true);
    assert_eq!(directed.e, 3);
}

#[test]
fn relabelled_path_has_same_label() {
    let a = label(4, &[(0, 1), (1, 2), (2, 3)], false);
    let b = label(4, &[(2, 0), (0, 3), (3, 1)], false);
    assert_eq!(a, b);
    let star = label(4, &[(0, 1), (0, 2), (0, 3)], false);
    assert_ne!(a, star);
}

#[test]
fn edge_order_does_not_matter() {
    let a = label(4, &[(0, 1), (1, 2), (2, 3), (3, 0)], true);
    let b = label(4, &[(3, 0), (2, 3), (0, 1), (1, 2), (0, 1)], true);
    assert_eq!(a, b);
}

#[test]
fn empty_graph_label() {
    let l = label(0, &[], true);
    assert_eq!(l.g, Vec::<u64>::new());
    assert_eq!(l.e, 0);
    assert_eq!(l.n, 0);
    let isolated = label(2, &[], false);
    assert_eq!(isolated.g, vec![0, 0]);
    assert_eq!(isolated.flat_adjacency(), vec![0, 0, 0, 0]);
}

#[test]
fn dense_graph_from_edges() {
    let dg = DenseGraph::from_edges(3, &vec![(0, 1), (2, 1)], true);
    assert_eq!(dg.n, 3);
    assert_eq!(dg.m, 1);
    assert_eq!(dg.e, 2);
    assert_eq!(dg.g, vec![1u64 << 62, 0, 1u64 << 62]);
    assert_eq!(dg.orbits(), &[0, 0, 0]);
    let und = DenseGraph::from_edges(2, &vec![(0, 1)], false);
    assert_eq!(und.g, vec![1u64 << 62, 1u64 << 63]);
    assert_eq!(und.e, 2);
}

#[test]
fn nodes_new_is_identity() {
    let nodes = Nodes::new(4);
    assert_eq!(nodes.lab, vec![0, 1, 2, 3]);
    assert_eq!(nodes.ptn, vec![0, 0, 0, 0]);
    assert_eq!(nodes.orbits, vec![0, 0, 0, 0]);
}

#[test]
fn edgelist_of_canonical_form() {
    let canon = label(3, &[(0, 1), (0, 2), (1, 2)], true);
    let edges = bit_adj_to_edgelist(&canon.g, canon.e, canon.n);
    assert_eq!(edges, vec![(1, 0), (2, 0), (2, 1)]);
    let und = label(3, &[(0, 1), (1, 2)], false);
    let edges = bit_adj_to_edgelist(&und.g, und.e, und.n);
    assert_eq!(edges.len(), 4);
    assert_eq!(edges, vec![(0, 2), (1, 2), (2, 0), (2, 1)]);
}

#[test]
fn canonize_gives_canonical_graph() {
    let dg = DenseGraph::from_edges(3, &vec![(1, 0), (1, 2), (0, 2)], true);
    let c = canonize(&dg);
    assert_eq!(c.n, 3);
    assert_eq!(c.e, 3);
    assert_eq!(c.g, vec![0, 9223372036854775808, 13835058055282163712]);
}

#[test]
fn complete_graph_group() {
    let edges = vec![(0, 1), (0, 2), (0, 3), (1, 2), (1, 3), (2, 3)];
    let ag = AutoGroups::from_dense(DenseGraph::from_edges(4, &edges, false));
    assert_eq!(ag.n_automorphisms(), 24);
    assert_eq!(ag.automorphisms().len(), 24);
    assert_eq!(ag.orbits(), &[0, 0, 0, 0]);
    assert_eq!(ag.n_nodes(), 4);
    let mut seen = ag.automorphisms().clone();
    seen.sort();
    seen.dedup();
    assert_eq!(seen.len(), 24);
}

#[test]
fn automorphisms_preserve_arcs() {
    let edges = vec![(0, 1), (1, 2), (2, 3), (3, 0)];
    let dg = DenseGraph::from_edges(4, &edges, false);
    let adj = |i: usize, j: usize| (dg.g[i] >> (63 - j)) & 1 == 1;
    let ag = AutoGroups::from_dense(DenseGraph::from_edges(4, &edges, false));
    assert_eq!(ag.n_automorphisms(), 8);
    for p in ag.automorphisms() {
        for i in 0..4 {
            for j in 0..4 {
                assert_eq!(adj(p[i], p[j]), adj(i, j));
            }
        }
    }
    assert_eq!(ag.orbits(), &[0, 0, 0, 0]);
}

#[test]
fn directed_triangle_is_rigid() {
    let ag = AutoGroups::from_dense(DenseGraph::from_edges(3, &vec![(0, 1), (0, 2), (1, 2)], true));
    assert_eq!(ag.n_automorphisms(), 1);
    assert_eq!(ag.automorphisms(), &vec![vec![0, 1, 2]]);
    assert_eq!(ag.orbits(), &[0, 1, 2]);
    assert_eq!(ag.canonical(), &vec![0, 9223372036854775808, 13835058055282163712]);
    assert_eq!(ag.nodes.lab, vec![2, 1, 0]);
}

#[test]
fn path_orbits() {
    let ag = AutoGroups::from_dense(DenseGraph::from_edges(3, &vec![(0, 1), (1, 2)], false));
    assert_eq!(ag.n_automorphisms(), 2);
    assert_eq!(ag.orbits(), &[0, 1, 0]);
}

#[test]
fn new_group_is_empty() {
    let ag = AutoGroups::new(2, vec![0, 0], Nodes::new(2));
    assert_eq!(ag.n_automorphisms(), 0);
    assert!(ag.automorphisms().is_empty());
    assert_eq!(ag.canonical(), &vec![0, 0]);
}

#[test]
fn capped_enumeration() {
    let edges = vec![(0, 1), (0, 2), (0, 3), (1, 2), (1, 3), (2, 3)];
    let too_small = AutoGroups::from_dense_capped(DenseGraph::from_edges(4, &edges, false), 23);
    assert!(matches!(too_small, Err(AutomError::GroupTooLarge)));
    let enough = AutoGroups::from_dense_capped(DenseGraph::from_edges(4, &edges, false), 24);
    match enough {
        Ok(ag) => assert_eq!(ag.n_automorphisms(), 24),
        Err(_) => panic!("group of 24 refused under a cap of 24"),
    }
}

#[test]
fn refine_path_separates_ends_from_centre() {
    let dg = DenseGraph::from_edges(3, &vec![(0, 1), (1, 2)], false);
    assert_eq!(refine(&dg.g, dg.n, dg.m, &vec![0, 0, 0]), vec![0, 2, 0]);
}

#[test]
fn refine_directed_triangle_is_discrete() {
    let dg = DenseGraph::from_edges(3, &vec![(0, 1), (0, 2), (1, 2)], true);
    assert_eq!(refine(&dg.g, dg.n, dg.m, &vec![0, 0, 0]), vec![2, 1, 0]);
}

#[test]
fn refine_complete_graph_stays_one_cell() {
    let edges = vec![(0, 1), (0, 2), (0, 3), (1, 2), (1, 3), (2, 3)];
    let dg = DenseGraph::from_edges(4, &edges, false);
    assert_eq!(refine(&dg.g, dg.n, dg.m, &vec![7, 7, 7, 7]), vec![0, 0, 0, 0]);
}

#[test]
fn refine_keeps_colour_order() {
    let dg = DenseGraph::from_edges(3, &vec![(0, 1), (1, 2)], false);
    assert_eq!(refine(&dg.g, dg.n, dg.m, &vec![1, 0, 0]), vec![2, 1, 0]);
    assert_eq!(refine(&dg.g, dg.n, dg.m, &vec![5, 9, 5]), vec![0, 2, 0]);
}

#[test]
fn rows_wider_than_one_word() {
    let dg = DenseGraph::from_edges(70, &vec![(69, 1), (0, 69), (0, 65)], true);
    assert_eq!(dg.m, 2);
    assert_eq!(dg.g.len(), 140);
    assert_eq!(dg.e, 3);
    assert_eq!(dg.g[0], 0);
    assert_eq!(dg.g[1], (1u64 << 58) | (1u64 << 62));
    let edges = bit_adj_to_edgelist(&dg.g, dg.e, dg.n);
    assert_eq!(edges, vec![(0, 65), (0, 69), (69, 1)]);
    let cells = refine(&dg.g, dg.n, dg.m, &vec![0; 70]);
    assert_eq!(cells[0], 69);
    assert_eq!(cells[69], 68);
}
