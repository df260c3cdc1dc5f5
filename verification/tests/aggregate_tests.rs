use name_graph::graph::Graph;
use name_graph::record::NameData;

fn rec(year: u32, gender: &str, ethnicity: &str, name: &str, count: u32, rank: u32) -> NameData {
    NameData {
        year,
        gender: gender.to_string(),
        ethnicity: ethnicity.to_string(),
        name: name.to_string(),
        count,
        rank,
    }
}

fn sample_graph() -> Graph {
    let mut g = Graph::new();
    g.insert_linked(rec(2020, "M", "A", "Al", 10, 1));
    g.insert_linked(rec(2020, "M", "A", "Bo", 5, 2));
    g.insert_linked(rec(2020, "F", "A", "Cy", 7, 1));
    g
}

#[test]
fn group_totals_scenario() {
    let g = sample_graph();
    let totals = g.group_totals();
    assert_eq!(totals.len(), 2);
    assert_eq!(totals[0].gender, "M");
    assert_eq!(totals[0].ethnicity, "A");
    assert_eq!(totals[0].total, 15);
    assert_eq!(totals[0].names, vec!["Al".to_string(), "Bo".to_string()]);
    assert_eq!(totals[1].gender, "F");
    assert_eq!(totals[1].ethnicity, "A");
    assert_eq!(totals[1].total, 7);
    assert_eq!(totals[1].names, vec!["Cy".to_string()]);
}

#[test]
fn letter_histogram_scenario() {
    let g = sample_graph();
    let hist = g.count_names_by_starting_letter();
    assert_eq!(hist.len(), 2);
    assert_eq!(hist[0].gender, "M");
    assert_eq!(hist[0].ethnicity, "A");
    assert_eq!(hist[0].counts, vec![('A', 1), ('B', 1)]);
    assert_eq!(hist[1].gender, "F");
    assert_eq!(hist[1].ethnicity, "A");
    assert_eq!(hist[1].counts, vec![('C', 1)]);
}

#[test]
fn letter_histogram_is_sorted_ascending() {
    let mut g = Graph::new();
    for name in ["Zoe", "Amy", "Mia", "Ada", "Zed"] {
        g.insert_linked(rec(2021, "F", "B", name, 1, 1));
    }
    let hist = g.count_names_by_starting_letter();
    assert_eq!(hist.len(), 1);
    assert_eq!(hist[0].counts, vec![('A', 2), ('M', 1), ('Z', 2)]);
}

#[test]
fn letter_histogram_skips_empty_names_but_keeps_group() {
    let mut g = Graph::new();
    g.insert_linked(rec(2021, "F", "B", "", 4, 1));
    let hist = g.count_names_by_starting_letter();
    assert_eq!(hist.len(), 1);
    assert_eq!(hist[0].gender, "F");
    assert!(hist[0].counts.is_empty());
    let totals = g.group_totals();
    assert_eq!(totals[0].total, 4);
    assert_eq!(totals[0].names, vec![String::new()]);
}

#[test]
fn aggregator_is_idempotent() {
    let g = sample_graph();
    let totals_once = g.group_totals();
    let totals_twice = g.group_totals();
    assert_eq!(totals_once, totals_twice);
    let hist_once = g.count_names_by_starting_letter();
    let hist_twice = g.count_names_by_starting_letter();
    assert_eq!(hist_once, hist_twice);
}

#[test]
fn empty_input_yields_empty_reports() {
    let g = Graph::new();
    assert_eq!(g.node_count(), 0);
    assert_eq!(g.edge_count(), 0);
    assert!(g.group_totals().is_empty());
    assert!(g.count_names_by_starting_letter().is_empty());
}

#[test]
fn driver_flow_end_to_end() {
    let rows: Vec<Vec<String>> = vec![
        vec!["2020", "M", "A", "Al", "10", "1"],
        vec!["2020", "M", "A", "Bo", "5", "2"],
        vec!["bad", "row"],
        vec!["2020", "F", "A", "Cy", "7", "1"],
        vec!["2020", "M", "A", "Dan", "oops", "3"],
    ]
    .into_iter()
    .map(|r| r.into_iter().map(|f| f.to_string()).collect())
    .collect();

    let mut g = Graph::new();
    for row in &rows {
        if let Some(nd) = NameData::from_record(row) {
            g.insert_linked(nd);
        }
    }
    assert_eq!(g.node_count(), 3);
    assert_eq!(g.edge_count(), 1);

    let mut visited = vec![false; g.node_count()];
    g.dfs(0, &mut visited);
    assert_eq!(visited, vec![true, true, false]);

    let totals = g.group_totals();
    assert_eq!(totals.len(), 2);
    assert_eq!(totals[0].total, 15);
    assert_eq!(totals[1].total, 7);
}

#[test]
fn groups_never_swap_key_components() {
    // ("M", "A") and ("A", "M") are different groups
    let mut g = Graph::new();
    g.insert_linked(rec(2020, "M", "A", "Al", 1, 1));
    g.insert_linked(rec(2020, "A", "M", "Bo", 2, 1));
    assert_eq!(g.edge_count(), 0);
    let totals = g.group_totals();
    assert_eq!(totals.len(), 2);
    assert_eq!(totals[0].total, 1);
    assert_eq!(totals[1].total, 2);
}
