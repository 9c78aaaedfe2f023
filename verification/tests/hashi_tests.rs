use puzzle_bots::domain::{Domain, HashiDomain};
use puzzle_bots::graph::{HashiGraph, Island, IslandSlot};
use puzzle_bots::hashi::Bridge;

const INTERMEDIATE_1_PUZZLE: &str = "\
4.544
.2...
..5.4
332..";

const MULTIPLE_SOLUTIONS_PUZZLE: &str = "\
3.3
...
3.3";

fn empty_graph() -> HashiGraph {
    HashiGraph {
        nodes: Vec::new(),
        bridges: Vec::new(),
        islands: Vec::new(),
        node_queue: Vec::new(),
    }
}

#[test]
fn test_node() {
    let mut dummy_graph = empty_graph();
    dummy_graph._add_node((5, 3), 2);
    dummy_graph._add_node((8, 7), 1);
    dummy_graph._add_node((5, 7), 3);
    dummy_graph._add_bridge((0, 2));
    dummy_graph.nodes[0].set_bridge(0, "dn");
    dummy_graph.nodes[2].set_bridge(0, "up");
    dummy_graph._add_bridge((2, 1));
    dummy_graph.nodes[1].set_bridge(1, "lf");
    dummy_graph.nodes[2].set_bridge(1, "rt");
    let test_node = dummy_graph.nodes[2];

    assert_eq!(test_node.num_open_slots(&dummy_graph), 4);

    test_node.apply_quota_rules(&mut dummy_graph);
    assert_eq!(test_node.num_open_slots(&dummy_graph), 2);
    assert_eq!(test_node.num_linked_slots(&dummy_graph), 2);
    assert_eq!(test_node.num_closed_slots(&dummy_graph), 0);
}

#[test]
fn test_bridge() {
    let mut bridge = Bridge::new((3, 7), 5);
    assert_eq!(bridge.nodes, (3, 7));
    assert_eq!(bridge.id, 5);
    assert!(bridge.crosses.is_empty());
    assert_eq!(bridge.num_slots(), 2);
    assert_eq!(bridge.num_open_slots(), 2);
    assert_eq!(bridge.num_linked_slots(), 0);
    assert_eq!(bridge.num_closed_slots(), 0);

    assert_eq!(bridge.link_slots(1), Ok(()));
    assert_eq!(bridge.num_open_slots(), 1);
    assert_eq!(bridge.num_linked_slots(), 1);
    assert_eq!(bridge.num_closed_slots(), 0);

    assert_eq!(bridge.close_slots(1), Ok(()));
    assert_eq!(bridge.num_open_slots(), 0);
    assert_eq!(bridge.num_linked_slots(), 1);
    assert_eq!(bridge.num_closed_slots(), 1);
}

fn hashidomain_tester<T: HashiDomain>() {
    let slots = T::new().num_slots();

    let dummy_domain = T::new();
    assert_eq!(dummy_domain.num_slots(), slots);
    assert_eq!(dummy_domain.num_open_slots(), slots);
    assert_eq!(dummy_domain.num_linked_slots(), 0);
    assert_eq!(dummy_domain.num_closed_slots(), 0);

    println!("linked start");
    let mut linked_domain = T::new();
    for i in 1..(slots + 1) {
        linked_domain.link_slots(1).unwrap();
        assert_eq!(linked_domain.num_open_slots(), slots - i);
        assert_eq!(linked_domain.num_linked_slots(), i);
        assert_eq!(linked_domain.num_closed_slots(), 0);
    }
    println!("multilinked start");
    for i in 1..(slots + 1) {
        let mut multilinked_domain = T::new();
        multilinked_domain.link_slots(i).unwrap();
        assert_eq!(multilinked_domain.num_open_slots(), slots - i);
        assert_eq!(multilinked_domain.num_linked_slots(), i);
        assert_eq!(multilinked_domain.num_closed_slots(), 0);
    }

    let mut closed_domain = T::new();
    for i in 1..(slots + 1) {
        closed_domain.close_slots(1).unwrap();
        assert_eq!(closed_domain.num_open_slots(), slots - i);
        assert_eq!(closed_domain.num_linked_slots(), 0);
        assert_eq!(closed_domain.num_closed_slots(), i);
    }
    for i in 1..(slots + 1) {
        let mut multiclosed_domain = T::new();
        multiclosed_domain.close_slots(i).unwrap();
        assert_eq!(multiclosed_domain.num_open_slots(), slots - i);
        assert_eq!(multiclosed_domain.num_linked_slots(), 0);
        assert_eq!(multiclosed_domain.num_closed_slots(), i);
    }

    let mut both_domain = T::new();
    both_domain.link_slots(1).unwrap();
    both_domain.close_slots(1).unwrap();
    assert_eq!(both_domain.num_open_slots(), slots - 2);
    assert_eq!(both_domain.num_linked_slots(), 1);
    assert_eq!(both_domain.num_closed_slots(), 1);
}

#[test]
fn domain_test() {
    assert_eq!(<Domain as HashiDomain>::new(), [true, true, true]);
    assert_eq!(<Domain as HashiDomain>::new().num_slots(), 2);
    hashidomain_tester::<Domain>();
}

#[test]
fn test_hashigraph() {
    let puzzle = INTERMEDIATE_1_PUZZLE.split("\n").collect::<Vec<_>>();
    let mut graph = HashiGraph::new(&puzzle);
    assert_eq!(graph.nodes.len(), 10);
    assert_eq!(graph.islands.len(), 10);
    assert_eq!(graph.node_queue.len(), 10);
    assert_eq!(graph.bridges.len(), 11);

    let node_first = graph.nodes[0];
    let node_last = *graph.nodes.iter().last().unwrap();
    let queue_last = *graph.node_queue.iter().last().unwrap();
    assert_eq!(node_first.quota, 4);
    assert_eq!(node_last.quota, 2);
    assert_eq!(graph.nodes[queue_last].id, node_first.id);

    graph.solve();
    assert_eq!(
        graph.solution_iter().join("\n"),
        "0 0 2 0 2
2 0 3 0 2
3 0 4 0 2
2 0 2 2 1
2 2 4 2 2
4 0 4 2 2
0 0 0 3 2
0 3 1 3 1
1 1 1 3 2
2 2 2 3 2"
    );
}

#[test]
fn domain_errors_name_the_counts() {
    let mut d = <Domain as HashiDomain>::new();
    assert_eq!(
        d.link_slots(3),
        Err("attempted to link 3 slots in bridge with 2 open slots".to_string())
    );
    assert_eq!(d, [true, true, true]);
    assert_eq!(
        d.close_slots(12),
        Err("attempted to close 12 slots in bridge with 2 open slots".to_string())
    );
    d.link_slots(2).unwrap();
    assert_eq!(d, [false, false, true]);
    assert_eq!(
        d.link_slots(1),
        Err("attempted to link 1 slots in a full bridge".to_string())
    );
    assert_eq!(
        d.close_slots(7),
        Err("attempted to close 7 slots in a full bridge".to_string())
    );
    assert_eq!(d.link_slots(0), Ok(()));
    assert_eq!(d.close_slots(0), Ok(()));
}

#[test]
fn domain_counts_partition_the_slots() {
    let mut d = <Domain as HashiDomain>::new();
    d.close_slots(1).unwrap();
    assert_eq!(d, [true, true, false]);
    assert_eq!(
        d.num_linked_slots() + d.num_closed_slots() + d.num_open_slots(),
        d.num_slots()
    );
    d.link_slots(1).unwrap();
    assert_eq!(d, [false, true, false]);
    assert_eq!(d.num_linked_slots(), 1);
    assert_eq!(d.num_closed_slots(), 1);
    assert_eq!(d.num_open_slots(), 0);
}

#[test]
fn new_graph_reads_rows_columns_and_crossings() {
    // A vertical bridge between (1,0) and (1,2) crosses a horizontal one
    // between (0,1) and (2,1).
    let puzzle = vec![".1.", "1.1", ".1."];
    let graph = HashiGraph::new(&puzzle);
    assert_eq!(graph.nodes.len(), 4);
    let coords: Vec<(u32, u32)> = graph.nodes.iter().map(|n| n.coords).collect();
    assert_eq!(coords, vec![(1, 0), (0, 1), (2, 1), (1, 2)]);
    assert_eq!(graph.bridges.len(), 2);
    assert_eq!(graph.bridges[0].nodes, (1, 2));
    assert_eq!(graph.bridges[1].nodes, (0, 3));
    assert_eq!(graph.bridges[0].crosses, vec![1]);
    assert_eq!(graph.bridges[1].crosses, vec![0]);
    assert_eq!(graph.nodes[1].rt, Some(0));
    assert_eq!(graph.nodes[2].lf, Some(0));
    assert_eq!(graph.nodes[0].dn, Some(1));
    assert_eq!(graph.nodes[3].up, Some(1));
    assert_eq!(graph.nodes[0].up, None);
    assert_eq!(graph.node_queue, vec![3, 2, 1, 0]);
    for (i, slot) in graph.islands.iter().enumerate() {
        match slot {
            IslandSlot::Isl(isl) => {
                assert_eq!(isl.nodes, vec![i]);
                assert_eq!(isl.id, i);
            }
            IslandSlot::IslPtr(_) => panic!("fresh islands only"),
        }
    }
}

#[test]
fn new_graph_links_across_empty_cells_and_keeps_digits() {
    let puzzle = vec!["2..3", "....", "1..."];
    let graph = HashiGraph::new(&puzzle);
    let quotas: Vec<u32> = graph.nodes.iter().map(|n| n.quota).collect();
    assert_eq!(quotas, vec![2, 3, 1]);
    assert_eq!(graph.bridges.len(), 2);
    assert_eq!(graph.bridges[0].nodes, (0, 1));
    assert_eq!(graph.bridges[1].nodes, (0, 2));
    assert!(graph.bridges[0].crosses.is_empty());
    assert!(graph.bridges[1].crosses.is_empty());
}

#[test]
fn solve_only_adds_links_and_decides_every_bridge() {
    let puzzle = MULTIPLE_SOLUTIONS_PUZZLE.split("\n").collect::<Vec<_>>();
    let mut graph = HashiGraph::new(&puzzle);
    let before: Vec<(u32, u32)> = graph
        .bridges
        .iter()
        .map(|b| (b.num_linked_slots(), b.num_closed_slots()))
        .collect();
    graph.solve();
    assert!(graph.node_queue.is_empty());
    for (b, (l0, c0)) in graph.bridges.iter().zip(before) {
        assert!(b.num_linked_slots() >= l0);
        assert!(b.num_closed_slots() >= c0);
        assert_eq!(b.num_open_slots(), 0);
    }
}

#[test]
fn solution_lines_list_linked_bridges_only() {
    let puzzle = vec!["1.1"];
    let mut graph = HashiGraph::new(&puzzle);
    assert_eq!(graph.solution_iter(), Vec::<String>::new());
    graph.solve();
    assert_eq!(graph.solution_iter(), vec!["0 0 2 0 1".to_string()]);
}

#[test]
fn islands_merge_and_count() {
    let puzzle = vec!["1.1", "...", "1.1"];
    let mut graph = HashiGraph::new(&puzzle);
    assert_eq!(graph._num_islands(), 4);
    let a = Island { nodes: vec![0], ext_bridges: vec![0, 1], id: 0 };
    let b = Island { nodes: vec![1], ext_bridges: vec![0, 2], id: 1 };
    graph._merge_islands(&b, &a);
    assert_eq!(graph._num_islands(), 3);
    let merged = graph._get_island(1);
    assert_eq!(merged.id, 0);
    assert_eq!(merged.nodes, vec![1, 0]);
    assert_eq!(merged.ext_bridges, vec![0]);
    match &graph.islands[1] {
        IslandSlot::IslPtr(p) => assert_eq!(*p, 0),
        IslandSlot::Isl(_) => panic!("the larger slot points to the merged island"),
    }
    assert_eq!(graph._get_island(3).nodes, vec![3]);
    assert_eq!(graph.get_node_from_id(2).coords, (0, 2));
    assert_eq!(graph.get_bridge_from_id(1).nodes, (0, 2));
}

#[test]
fn try_solve_reports_a_stuck_solver() {
    // A quota of 3 cannot fit one bridge of two slots.
    let puzzle = vec!["3.1"];
    let mut graph = HashiGraph::new(&puzzle);
    assert!(!graph.try_solve());
    // After the first node links and closes its only bridge, the second is over its
    // close quota.
    let puzzle = vec!["1.2"];
    let mut graph = HashiGraph::new(&puzzle);
    assert!(!graph.try_solve());
    let puzzle = vec!["2.2"];
    let mut graph = HashiGraph::new(&puzzle);
    assert!(graph.try_solve());
    assert_eq!(graph.solution_iter(), vec!["0 0 2 0 2".to_string()]);
}

#[test]
fn domains_with_the_same_counts_are_equal() {
    let mut one_by_one = <Domain as HashiDomain>::new();
    one_by_one.link_slots(1).unwrap();
    one_by_one.link_slots(1).unwrap();
    let mut at_once = <Domain as HashiDomain>::new();
    at_once.link_slots(2).unwrap();
    assert_eq!(one_by_one, at_once);

    let mut a = <Domain as HashiDomain>::new();
    a.link_slots(1).unwrap();
    a.close_slots(1).unwrap();
    let mut b = <Domain as HashiDomain>::new();
    b.close_slots(1).unwrap();
    b.link_slots(1).unwrap();
    assert_eq!(a, b);
}

#[test]
fn crossing_lists_are_increasing_and_kept_by_the_solver() {
    // The vertical bridge in column 2 crosses both horizontal bridges.
    let puzzle = vec!["..1..", "1...1", ".1.1.", "..1.."];
    let mut graph = HashiGraph::new(&puzzle);
    assert_eq!(graph.bridges.len(), 3);
    assert_eq!(graph.bridges[0].nodes, (1, 2));
    assert_eq!(graph.bridges[1].nodes, (3, 4));
    assert_eq!(graph.bridges[2].nodes, (0, 5));
    assert_eq!(graph.bridges[2].crosses, vec![0, 1]);
    assert_eq!(graph.bridges[0].crosses, vec![2]);
    assert_eq!(graph.bridges[1].crosses, vec![2]);
    let before: Vec<Vec<usize>> = graph.bridges.iter().map(|b| b.crosses.clone()).collect();
    graph.try_solve();
    let after: Vec<Vec<usize>> = graph.bridges.iter().map(|b| b.crosses.clone()).collect();
    assert_eq!(before, after);
}

#[test]
fn apply_quota_rules_only_raises_counts_within_the_quota() {
    let puzzle = INTERMEDIATE_1_PUZZLE.split("\n").collect::<Vec<_>>();
    let mut graph = HashiGraph::new(&puzzle);
    let node = graph.nodes[5];
    let before: Vec<(u32, u32)> = graph
        .bridges
        .iter()
        .map(|b| (b.num_linked_slots(), b.num_closed_slots()))
        .collect();
    node.apply_quota_rules(&mut graph);
    for (b, (l0, c0)) in graph.bridges.iter().zip(before) {
        assert!(b.num_linked_slots() >= l0);
        assert!(b.num_closed_slots() >= c0);
    }
    assert!(node.num_linked_slots(&graph) <= node.quota);
    // Node (2,2) needs 5 of its 6 slots: one link on each of its three bridges.
    assert_eq!(node.num_linked_slots(&graph), 3);
    assert_eq!(node.num_open_slots(&graph), 3);
}

#[test]
fn merged_islands_are_found_from_either_and_counted_once() {
    let puzzle = vec!["1.1", "...", "1.1"];
    let mut graph = HashiGraph::new(&puzzle);
    let copy = |slot: &IslandSlot| match slot {
        IslandSlot::Isl(isl) => Island { nodes: isl.nodes.clone(), ext_bridges: isl.ext_bridges.clone(), id: isl.id },
        IslandSlot::IslPtr(_) => panic!("fresh islands only"),
    };
    let i2 = copy(&graph.islands[2]);
    let i3 = copy(&graph.islands[3]);
    let n = graph._num_islands();
    graph._merge_islands(&i3, &i2);
    assert_eq!(graph._num_islands(), n - 1);
    assert_eq!(graph._get_island(2).id, 2);
    assert_eq!(graph._get_island(3).id, 2);
    assert_eq!(graph._get_island(3).nodes, vec![3, 2]);
    assert_eq!(graph._get_island(2).nodes, graph._get_island(3).nodes);
}
