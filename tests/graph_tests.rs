use graph_stats::analysis::{
    degree_distribution, degree_distribution_at_distance_2, degree_totals, length_extremes,
    length_sum, median_doubled, path_lengths, second_hop_count, sorted_path_lengths,
};
use graph_stats::graph::{bfs, Graph};
use graph_stats::row::{connection_tokens, trim_class};

fn graph_of(edges: &[(&str, &[&str])]) -> Graph {
    let mut graph = Graph::new();
    for (key, nbrs) in edges {
        graph.insert(key.to_string(), nbrs.iter().map(|s| s.to_string()).collect());
    }
    graph
}

#[test]
fn test_bfs() {
    let mut graph = Graph::new();
    graph.insert("A".to_string(), vec!["B".to_string(), "C".to_string()]);
    graph.insert("B".to_string(), vec!["A".to_string(), "D".to_string()]);
    graph.insert("C".to_string(), vec!["A".to_string()]);
    graph.insert("D".to_string(), vec!["B".to_string()]);

    let distances = bfs(&graph, "A");
    assert_eq!(distances.get("A"), Some(0));
    assert_eq!(distances.get("B"), Some(1));
    assert_eq!(distances.get("C"), Some(1));
    assert_eq!(distances.get("D"), Some(2));
}

#[test]
fn test_degree_distribution() {
    let mut graph = Graph::new();
    graph.insert("A".to_string(), vec!["B".to_string(), "C".to_string()]);
    graph.insert("B".to_string(), vec!["A".to_string()]);
    graph.insert("C".to_string(), vec!["A".to_string()]);

    let distribution = degree_distribution(&graph);
    assert_eq!(distribution.get(&2), Some(&1));
    assert_eq!(distribution.get(&1), Some(&2));
}

#[test]
fn test_degree_distribution_at_distance_2() {
    let mut graph = Graph::new();
    graph.insert("A".to_string(), vec!["B".to_string()]);
    graph.insert("B".to_string(), vec!["A".to_string(), "C".to_string()]);
    graph.insert("C".to_string(), vec!["B".to_string()]);

    // A and C are exactly two hops from each other; B reaches nothing at
    // exactly two hops, since both of its neighbours are direct ones.
    let distribution = degree_distribution_at_distance_2(&graph);
    assert_eq!(distribution.get(&1), Some(&2));
    assert_eq!(distribution.get(&0), Some(&1));
}

#[test]
fn bfs_start_is_at_zero() {
    let graph = graph_of(&[("A", &["B"]), ("B", &["A", "C"]), ("C", &["B"])]);
    for s in ["A", "B", "C"] {
        assert_eq!(bfs(&graph, s).get(s), Some(0));
    }
}

#[test]
fn bfs_missing_start_is_alone() {
    let graph = graph_of(&[("A", &["B"]), ("B", &["A"])]);
    let d = bfs(&graph, "Z");
    assert_eq!(d.get("Z"), Some(0));
    assert_eq!(d.get("A"), None);
    assert_eq!(d.get("B"), None);
}

#[test]
fn bfs_unreachable_node_is_absent() {
    let graph = graph_of(&[("A", &["B"]), ("B", &["A"]), ("C", &[])]);
    let d = bfs(&graph, "A");
    assert_eq!(d.get("B"), Some(1));
    assert_eq!(d.get("C"), None);
}

#[test]
fn bfs_distances_step_by_at_most_one() {
    let graph = graph_of(&[
        ("A", &["B", "C"]),
        ("B", &["A", "D"]),
        ("C", &["A", "D"]),
        ("D", &["B", "C", "E"]),
        ("E", &["D"]),
    ]);
    let d = bfs(&graph, "A");
    let edges = [("A", "B"), ("A", "C"), ("B", "D"), ("C", "D"), ("D", "E")];
    for (x, y) in edges {
        let (dx, dy) = (d.get(x).unwrap(), d.get(y).unwrap());
        assert!(dy <= dx + 1 && dx <= dy + 1);
    }
    assert_eq!(d.get("E"), Some(3));
}

#[test]
fn bfs_on_path_graph() {
    let graph = graph_of(&[("A", &["B"]), ("B", &["A", "C"]), ("C", &["B", "D"]), ("D", &["C"])]);
    let d = bfs(&graph, "A");
    assert_eq!(d.get("D"), Some(3));
    assert_eq!(bfs(&graph, "B").get("D"), Some(2));
}

#[test]
fn degree_counts_sum_to_nodes() {
    let graph = graph_of(&[("A", &["B", "C"]), ("B", &["A"]), ("C", &["A"]), ("D", &[])]);
    let dist = degree_distribution(&graph);
    assert_eq!(dist.values().sum::<usize>(), graph.len());
    assert_eq!(dist.get(&0), Some(&1));
}

#[test]
fn degree_distribution_on_a_b_c_line() {
    let graph = graph_of(&[("A", &["B"]), ("B", &["A", "C"]), ("C", &["B"])]);
    let dist = degree_distribution(&graph);
    assert_eq!(dist.len(), 2);
    assert_eq!(dist.get(&1), Some(&2));
    assert_eq!(dist.get(&2), Some(&1));
}

#[test]
fn distance_2_on_a_b_c_line() {
    let graph = graph_of(&[("A", &["B"]), ("B", &["A", "C"]), ("C", &["B"])]);
    let dist = degree_distribution_at_distance_2(&graph);
    assert_eq!(dist.len(), 2);
    assert_eq!(dist.get(&1), Some(&2));
    assert_eq!(dist.get(&0), Some(&1));
    assert_eq!(second_hop_count(&graph, 0), 1);
    assert_eq!(second_hop_count(&graph, 1), 0);
}

#[test]
fn second_hop_counts_each_node_once() {
    let graph = graph_of(&[
        ("A", &["B", "C"]),
        ("B", &["A", "D"]),
        ("C", &["A", "D"]),
        ("D", &["B", "C"]),
    ]);
    // D is reached from A through both B and C
    let dist = degree_distribution_at_distance_2(&graph);
    assert_eq!(dist.get(&1), Some(&4));
    assert_eq!(second_hop_count(&graph, 0), 1);
}

#[test]
fn empty_graph_has_empty_distributions() {
    let graph = Graph::new();
    assert_eq!(graph.len(), 0);
    assert!(degree_distribution(&graph).is_empty());
    assert!(degree_distribution_at_distance_2(&graph).is_empty());
    assert_eq!(degree_totals(&graph), (0, 0));
}

#[test]
fn degree_totals_on_star() {
    let graph = graph_of(&[("A", &["B", "C"]), ("B", &["A"]), ("C", &["A"])]);
    assert_eq!(degree_totals(&graph), (4, 2));
}

#[test]
fn repeated_runs_agree() {
    let graph = graph_of(&[("A", &["B", "C"]), ("B", &["A", "C"]), ("C", &["A", "B", "D"]), ("D", &["C"])]);
    assert_eq!(degree_distribution(&graph), degree_distribution(&graph));
    assert_eq!(degree_distribution_at_distance_2(&graph), degree_distribution_at_distance_2(&graph));
    assert_eq!(degree_totals(&graph), degree_totals(&graph));
}

#[test]
fn neighbour_only_nodes_are_not_counted() {
    let graph = graph_of(&[("A", &["B"])]);
    assert_eq!(graph.len(), 1);
    assert_eq!(graph.node_total(), 2);
    let dist = degree_distribution(&graph);
    assert_eq!(dist.get(&1), Some(&1));
    assert_eq!(dist.len(), 1);
}

#[test]
fn path_graph_lengths() {
    let graph = graph_of(&[("A", &["B"]), ("B", &["A", "C"]), ("C", &["B", "D"]), ("D", &["C"])]);
    let mut lengths = path_lengths(&graph);
    assert_eq!(length_extremes(&lengths), (3, 1));
    lengths.sort_unstable();
    assert_eq!(lengths, vec![1, 1, 1, 1, 1, 1, 2, 2, 2, 2, 3, 3]);
    assert_eq!(length_sum(&lengths), 20);
    assert_eq!(median_doubled(&lengths), 3);
}

#[test]
fn triangle_free_line_lengths() {
    let graph = graph_of(&[("A", &["B"]), ("B", &["A", "C"]), ("C", &["B"])]);
    let lengths = path_lengths(&graph);
    assert_eq!(lengths.len(), 6);
    assert_eq!(length_extremes(&lengths), (2, 1));
}

#[test]
fn empty_sample_extremes_are_zero() {
    assert_eq!(length_extremes(&vec![]), (0, 0));
    assert!(path_lengths(&Graph::new()).is_empty());
}

#[test]
fn rows_build_symmetric_edges() {
    let mut graph = Graph::new();
    graph.add_row(&"a".to_string(), &vec!["b".to_string(), "c".to_string(), "".to_string()]);
    graph.add_row(&"b".to_string(), &vec!["a".to_string()]);
    assert_eq!(graph.len(), 3);
    assert_eq!(graph.node_total(), 3);
    let dist = degree_distribution(&graph);
    // a: b, c, b ; b: a, a ; c: a
    assert_eq!(dist.get(&3), Some(&1));
    assert_eq!(dist.get(&2), Some(&1));
    assert_eq!(dist.get(&1), Some(&1));
    assert_eq!(bfs(&graph, "c").get("b"), Some(2));
}

#[test]
fn row_with_no_connections_is_a_key() {
    let mut graph = Graph::new();
    graph.add_row(&"solo".to_string(), &vec!["".to_string()]);
    assert_eq!(graph.len(), 1);
    assert_eq!(degree_distribution(&graph).get(&0), Some(&1));
}

#[test]
fn median_of_odd_and_even_samples() {
    assert_eq!(median_doubled(&vec![1, 2, 7]), 4);
    assert_eq!(median_doubled(&vec![1, 2, 3, 9]), 5);
    assert_eq!(median_doubled(&vec![4]), 8);
}

#[test]
fn length_sum_exact() {
    assert_eq!(length_sum(&vec![]), 0);
    assert_eq!(length_sum(&vec![1, 2, 3]), 6);
    assert_eq!(length_sum(&vec![usize::MAX, usize::MAX]), 2 * (usize::MAX as u128));
}

fn tokens(raw: &str) -> Vec<String> {
    let chars: Vec<char> = raw.chars().collect();
    connection_tokens(&chars).iter().map(|t| t.iter().collect()).collect()
}

#[test]
fn connection_list_is_split_and_cleaned() {
    assert_eq!(tokens("[\"b\",\"c\"]"), vec!["b", "c"]);
    assert_eq!(tokens("  [ \"x\" , \"y z\" ]  "), vec!["x", "y z"]);
    assert_eq!(tokens("[\"a\"\"b\", c]"), vec!["ab", "c"]);
}

#[test]
fn empty_connection_list_gives_one_empty_field() {
    assert_eq!(tokens("[]"), vec![""]);
    assert_eq!(tokens(""), vec![""]);
    assert_eq!(tokens("[\"a\",,\"b\"]"), vec!["a", "", "b"]);
}

#[test]
fn trim_strips_only_the_class() {
    let s: Vec<char> = " \u{3000}[a b]\t".chars().collect();
    let t: String = trim_class(&s, true).iter().collect();
    assert_eq!(t, "[a b]");
    let w: Vec<char> = "[[\"a]\"]".chars().collect();
    let u: String = trim_class(&w, false).iter().collect();
    assert_eq!(u, "a");
    let all: Vec<char> = "[]\"".chars().collect();
    assert!(trim_class(&all, false).is_empty());
}

#[test]
fn parsed_rows_build_the_graph() {
    let mut graph = Graph::new();
    graph.add_row(&"a".to_string(), &tokens("[\"b\", \"c\"]"));
    graph.add_row(&"d".to_string(), &tokens("[]"));
    assert_eq!(graph.len(), 4);
    assert_eq!(graph.node_total(), 4);
    assert_eq!(bfs(&graph, "b").get("c"), Some(2));
    assert_eq!(bfs(&graph, "a").get("d"), None);
}

fn neighbour_names(graph: &Graph, name: &str) -> Vec<String> {
    let i = graph.find(&name.to_string()).unwrap();
    graph.neighbors(i).iter().map(|&j| graph.name_at(j).clone()).collect()
}

#[test]
fn single_row_lists_exactly() {
    let mut graph = Graph::new();
    graph.add_row(&"a".to_string(), &tokens("[\"b\",\"c\"]"));
    assert_eq!(graph.len(), 3);
    assert_eq!(neighbour_names(&graph, "a"), vec!["b", "c"]);
    assert_eq!(neighbour_names(&graph, "b"), vec!["a"]);
    assert_eq!(neighbour_names(&graph, "c"), vec!["a"]);
}

#[test]
fn repeated_edges_are_kept_in_both_directions() {
    let mut graph = Graph::new();
    graph.add_row(&"a".to_string(), &tokens("[\"b\"]"));
    graph.add_row(&"b".to_string(), &tokens("[\"a\"]"));
    assert_eq!(neighbour_names(&graph, "a"), vec!["b", "b"]);
    assert_eq!(neighbour_names(&graph, "b"), vec!["a", "a"]);
}

#[test]
fn blank_tokens_make_no_node() {
    let mut graph = Graph::new();
    graph.add_row(&"a".to_string(), &tokens("[\"b\",, \" \"]"));
    assert_eq!(graph.node_total(), 2);
    assert_eq!(graph.find(&"".to_string()), None);
    assert_eq!(neighbour_names(&graph, "a"), vec!["b"]);
}

#[test]
fn sorted_sample_is_ascending() {
    let graph = graph_of(&[("A", &["B"]), ("B", &["A", "C"]), ("C", &["B", "D"]), ("D", &["C"])]);
    let unsorted = path_lengths(&graph);
    assert_eq!(unsorted[..3], [1, 2, 3]);
    let sorted = sorted_path_lengths(&graph);
    assert_eq!(sorted, vec![1, 1, 1, 1, 1, 1, 2, 2, 2, 2, 3, 3]);
    assert_eq!(median_doubled(&sorted), 3);
}
