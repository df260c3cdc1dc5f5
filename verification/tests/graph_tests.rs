use name_graph::graph::Graph;
use name_graph::record::NameData;

fn rec(year: u32, gender: &str, ethnicity: &str, name: &str, count: u32, rank: u32) -> NameData {
    NameData {
        year,
        gender: gender.to_string(),
        ethnicity: ethnicity.to_string(),
        name: name.to_string(),
        count,
        rank,
    }
}

fn sample_graph() -> Graph {
    let mut g = Graph::new();
    g.insert_linked(rec(2020, "M", "A", "Al", 10, 1));
    g.insert_linked(rec(2020, "M", "A", "Bo", 5, 2));
    g.insert_linked(rec(2020, "F", "A", "Cy", 7, 1));
    g
}

#[test]
fn new_graph_is_empty() {
    let g = Graph::new();
    assert_eq!(g.node_count(), 0);
    assert_eq!(g.edge_count(), 0);
}

#[test]
fn add_node_assigns_indices_in_order() {
    let mut g = Graph::new();
    assert_eq!(g.add_node(rec(2020, "M", "A", "Al", 10, 1)), 0);
    assert_eq!(g.add_node(rec(2020, "F", "B", "Bo", 5, 2)), 1);
    assert_eq!(g.node_count(), 2);
    assert_eq!(g.edge_count(), 0);
}

#[test]
fn add_edge_appends() {
    let mut g = Graph::new();
    g.add_node(rec(2020, "M", "A", "Al", 10, 1));
    g.add_node(rec(2020, "M", "A", "Bo", 5, 2));
    g.add_edge(0, 1);
    assert_eq!(g.edge_count(), 1);
    assert_eq!(g.edges[0].source, 0);
    assert_eq!(g.edges[0].target, 1);
}

#[test]
fn get_node_is_bounds_checked() {
    let g = sample_graph();
    assert_eq!(g.get_node(2).expect("index 2 exists").name, "Cy");
    assert!(g.get_node(3).is_none());
}

#[test]
fn linking_adds_edges_from_prior_group_mates() {
    let g = sample_graph();
    // only "Al" and "Bo" share (gender, ethnicity); one directed edge
    assert_eq!(g.edge_count(), 1);
    assert_eq!(g.edges[0].source, 0);
    assert_eq!(g.edges[0].target, 1);
}

#[test]
fn edge_count_matches_group_sizes() {
    // one group of four and one group of two:
    // 4*3/2 + 2*1/2 = 6 + 1 = 7 edges
    let mut g = Graph::new();
    for name in ["Al", "Bo", "Cy", "Di"] {
        g.insert_linked(rec(2020, "M", "A", name, 1, 1));
    }
    for name in ["Ed", "Fay"] {
        g.insert_linked(rec(2020, "F", "B", name, 1, 1));
    }
    assert_eq!(g.edge_count(), 7);
}

#[test]
fn parse_failure_adds_no_node() {
    let mut g = Graph::new();
    let bad: Vec<String> = vec!["2020", "M", "A", "Al", "ten", "1"]
        .into_iter()
        .map(|f| f.to_string())
        .collect();
    if let Some(nd) = NameData::from_record(&bad) {
        g.insert_linked(nd);
    }
    assert_eq!(g.node_count(), 0);
}

#[test]
fn dfs_visits_reachable_component() {
    let g = sample_graph();
    let mut visited = vec![false; g.node_count()];
    g.dfs(0, &mut visited);
    assert_eq!(visited, vec![true, true, false]);
}

#[test]
fn dfs_does_not_follow_reverse_edges() {
    let g = sample_graph();
    let mut visited = vec![false; g.node_count()];
    g.dfs(1, &mut visited);
    // edges only point forward to later group mates
    assert_eq!(visited, vec![false, true, false]);
}

#[test]
fn dfs_follows_chains_of_edges() {
    let mut g = Graph::new();
    for name in ["Al", "Bo", "Cy"] {
        g.add_node(rec(2020, "M", "A", name, 1, 1));
    }
    g.add_edge(0, 1);
    g.add_edge(1, 2);
    let mut visited = vec![false; g.node_count()];
    g.dfs(0, &mut visited);
    assert_eq!(visited, vec![true, true, true]);
}

#[test]
fn dfs_from_middle_of_group_reaches_later_mates() {
    let mut g = Graph::new();
    for name in ["Al", "Bo", "Cy"] {
        g.insert_linked(rec(2020, "M", "A", name, 1, 1));
    }
    let mut visited = vec![false; g.node_count()];
    g.dfs(1, &mut visited);
    // node 1 reaches node 2 through the linking edge, never node 0
    assert_eq!(visited, vec![false, true, true]);
}

#[test]
fn dfs_keeps_previously_visited_marks() {
    let g = sample_graph();
    let mut visited = vec![false, false, true];
    g.dfs(0, &mut visited);
    assert_eq!(visited, vec![true, true, true]);
}

#[test]
fn is_well_formed_spots_a_dangling_edge() {
    let mut g = Graph::new();
    assert!(g.is_well_formed());
    g.add_edge(5, 7);
    assert!(!g.is_well_formed());
}
