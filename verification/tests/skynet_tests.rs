use puzzle_bots::skynet::{
    choose_target, decide_cut, gateway_flags, generate_path, sever, Graph,
};

/// Builds the network of a level given as text: "n l e", then `l` links, then `e`
/// gateways; returns it with its gateway flags.
fn level(text: &str) -> (Graph, Vec<bool>) {
    let mut lines = text.lines();
    let header: Vec<usize> = lines
        .next()
        .unwrap()
        .split_whitespace()
        .map(|w| w.parse().unwrap())
        .collect();
    let (n, l, e) = (header[0], header[1], header[2]);
    let mut graph = Graph::with_nodes(n);
    for _ in 0..l {
        let link: Vec<usize> = lines
            .next()
            .unwrap()
            .split_whitespace()
            .map(|w| w.parse().unwrap())
            .collect();
        graph.add_link(link[0], link[1]);
    }
    let mut gateways = Vec::new();
    for _ in 0..e {
        gateways.push(lines.next().unwrap().trim().parse::<usize>().unwrap());
    }
    let is_gw = gateway_flags(n, &gateways);
    graph.count_gateway_links(&is_gw);
    (graph, is_gw)
}

const LEVEL: &str = "8 13 2
6 2
7 3
6 3
5 3
3 4
7 1
2 0
0 1
0 3
1 3
2 3
7 4
6 5
4
5";

#[test]
fn test_generate_path() {
    let (graph, _) = level(LEVEL);
    assert_eq!(generate_path(0, &graph), vec![0, 3]);
}

#[test]
fn gateway_links_count_the_gateway_neighbours() {
    let (graph, is_gw) = level(LEVEL);
    assert_eq!(is_gw, vec![false, false, false, false, true, true, false, false]);
    let gw: Vec<i32> = graph.nodes.iter().map(|n| n.gwlinks).collect();
    assert_eq!(gw, vec![0, 0, 0, 2, 0, 0, 1, 1]);
}

#[test]
fn add_link_lists_each_neighbour_once() {
    let mut graph = Graph::with_nodes(3);
    graph.add_link(0, 1);
    graph.add_link(1, 0);
    graph.add_link(1, 2);
    assert_eq!(graph.nodes[0].nbrs, vec![1]);
    assert_eq!(graph.nodes[1].nbrs, vec![0, 2]);
    assert_eq!(graph.nodes[2].nbrs, vec![1]);
}

#[test]
fn path_walks_along_links_from_the_start() {
    // A chain 0 - 1 - 2 - 3 with gateway 4 next to 3 and 2.
    let (graph, _) = level("5 5 1\n0 1\n1 2\n2 3\n3 4\n2 4\n4");
    let path = generate_path(0, &graph);
    assert_eq!(path[0], 0);
    for w in path.windows(2) {
        assert!(graph.nodes[w[0]].nbrs.contains(&w[1]));
    }
    assert_eq!(path, vec![0, 1, 2, 3]);
}

#[test]
fn path_from_an_isolated_node_is_the_node() {
    let (graph, _) = level("3 1 1\n1 2\n2");
    assert_eq!(generate_path(0, &graph), vec![0]);
}

#[test]
fn choose_target_takes_the_first_with_most_gateway_links() {
    let (graph, _) = level(LEVEL);
    assert_eq!(choose_target(&[0, 7, 6, 3, 1], &graph), 3);
    assert_eq!(choose_target(&[0, 7, 6], &graph), 7);
    assert_eq!(choose_target(&[6, 7], &graph), 6);
    assert_eq!(choose_target(&[2], &graph), 2);
}

#[test]
fn sever_cuts_the_link_both_ways() {
    let (mut graph, _) = level(LEVEL);
    sever(4, 3, &mut graph);
    assert!(!graph.nodes[4].nbrs.contains(&3));
    assert!(!graph.nodes[3].nbrs.contains(&4));
    assert_eq!(graph.nodes[4].nbrs, vec![7]);
    assert_eq!(graph.nodes[3].gwlinks, 1);
    assert_eq!(graph.nodes[7].gwlinks, 1);
}

#[test]
fn cut_next_to_the_agent_first() {
    let (graph, is_gw) = level(LEVEL);
    // Node 6 is next to gateway 5.
    assert_eq!(decide_cut(&graph, &is_gw, 6), Some((5, 6)));
    // From node 0 the path leads to node 3, which has two gateway links; its first
    // gateway neighbour is 5.
    assert_eq!(decide_cut(&graph, &is_gw, 0), Some((5, 3)));
}

#[test]
fn no_cut_when_the_chosen_node_has_no_gateway() {
    let (graph, is_gw) = level("3 1 1\n1 2\n2");
    assert_eq!(decide_cut(&graph, &is_gw, 0), None);
}

#[test]
fn gateway_links_equal_gateway_neighbours() {
    let (graph, is_gw) = level(LEVEL);
    for (v, node) in graph.nodes.iter().enumerate() {
        let gateway_neighbours = node.nbrs.iter().filter(|&&u| is_gw[u]).count() as i32;
        assert_eq!(node.gwlinks, gateway_neighbours, "node {}", v);
    }
}
