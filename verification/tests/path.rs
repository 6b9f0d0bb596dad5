use duan::algorithms::path::{reconstruct_path, walk_stops_within};

// predecessor tree of the shortest paths from node 0 in the graph
// 0->1 (1), 0->2 (4), 1->2 (2), 1->3 (5), 2->3 (1)
fn tree() -> (Vec<bool>, Vec<Option<usize>>) {
    (vec![true, true, true, true, false], vec![None, Some(0), Some(1), Some(2), None])
}

#[test]
fn dijkstra_opt_test_path_reconstruction() {
    let (reached, pred) = tree();
    let path = reconstruct_path(&reached, &pred, 0, 3).expect("Path should exist");
    assert_eq!(path, vec![0, 1, 2, 3]);
}

#[test]
fn test_source_to_source() {
    let (reached, pred) = tree();
    let path = reconstruct_path(&reached, &pred, 0, 0).expect("Path to self should exist");
    assert_eq!(path, vec![0]);
}

#[test]
fn dijkstra_opt_test_unreachable_node() {
    let (reached, pred) = tree();
    assert!(reconstruct_path(&reached, &pred, 0, 4).is_none());
    assert!(reconstruct_path(&reached, &pred, 0, 9).is_none());
}

#[test]
fn broken_chain_gives_none() {
    let reached = vec![true, true, true];
    let pred = vec![None, None, Some(1)];
    assert!(reconstruct_path(&reached, &pred, 0, 2).is_none());
}

#[test]
fn walk_stops_within_detects_cycles_and_ends() {
    let (_, pred) = tree();
    assert!(walk_stops_within(&pred, 0, 3, 5));
    assert!(!walk_stops_within(&pred, 0, 3, 2));
    assert!(walk_stops_within(&pred, 0, 3, 3));
    // 1 and 2 point at each other: the walk from 2 never meets 0
    let cyclic = vec![None, Some(2), Some(1)];
    assert!(!walk_stops_within(&cyclic, 0, 2, 10));
    // a node without a predecessor ends the walk
    assert!(walk_stops_within(&cyclic, 1, 0, 1));
    assert!(!walk_stops_within(&cyclic, 1, 0, 0));
}
