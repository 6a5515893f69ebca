use hop_graph::builder::build_graph;
use hop_graph::parse::parse_edge_line;
use hop_graph::parse::parse_edge_lines;
use hop_graph::parse::parse_node_line;
use hop_graph::parse::parse_node_lines;
use hop_graph::parse::tokenize;
use hop_graph::path::reconstruct_path;
use hop_graph::query::run_query;
use hop_graph::query::QueryOutcome;
use hop_graph::search::shortest_path_search;

fn lines(v: &[&str]) -> Vec<String> {
    v.iter().map(|s| s.to_string()).collect()
}

fn sample() -> (Vec<String>, Vec<String>) {
    (
        lines(&["1 A", "2 B", "3 C"]),
        lines(&["1 2 roadAB", "2 3 roadBC"]),
    )
}

fn query(node_lines: &[&str], edge_lines: &[&str], start: &str, end: &str) -> QueryOutcome {
    let (nodes, _) = parse_node_lines(&lines(node_lines));
    let (edges, _) = parse_edge_lines(&lines(edge_lines));
    let (graph, index, _) = build_graph(&nodes, &edges);
    run_query(&graph, &index, &start.to_string(), &end.to_string())
}

#[test]
fn tokenize_splits_on_whitespace() {
    let ts = tokenize("  1 \t A  ");
    assert_eq!(ts, vec!["1".to_string(), "A".to_string()]);
    assert_eq!(tokenize(""), Vec::<String>::new());
    assert_eq!(tokenize("   "), Vec::<String>::new());
    assert_eq!(tokenize("one"), vec!["one".to_string()]);
}

#[test]
fn node_line_needs_exactly_two_tokens() {
    let rec = parse_node_line("1 A").unwrap();
    assert_eq!(rec.key, "1");
    assert_eq!(rec.label, "A");
    assert!(parse_node_line("1 A extra").is_none());
    assert!(parse_node_line("1").is_none());
    assert!(parse_node_line("").is_none());
}

#[test]
fn edge_line_needs_exactly_three_tokens() {
    let rec = parse_edge_line("1 2 roadAB").unwrap();
    assert_eq!(rec.key1, "1");
    assert_eq!(rec.key2, "2");
    assert_eq!(rec.label, "roadAB");
    assert!(parse_edge_line("1 2").is_none());
    assert!(parse_edge_line("1").is_none());
    assert!(parse_edge_line("1 2 r extra").is_none());
}

#[test]
fn malformed_lines_are_skipped_not_fatal() {
    let (recs, bad) = parse_node_lines(&lines(&["1 A", "oops too many tokens", "2 B"]));
    assert_eq!(recs.len(), 2);
    assert_eq!(recs[0].label, "A");
    assert_eq!(recs[1].label, "B");
    assert_eq!(bad, vec![1]);

    let (erecs, ebad) = parse_edge_lines(&lines(&["1 2 r", "1", "2 3 s"]));
    assert_eq!(erecs.len(), 2);
    assert_eq!(erecs[1].label, "s");
    assert_eq!(ebad, vec![1]);
}

#[test]
fn unresolved_edge_endpoints_are_skipped() {
    let (nodes, _) = parse_node_lines(&lines(&["1 A", "2 B"]));
    let (edges, _) = parse_edge_lines(&lines(&["1 9 ghost", "1 2 real"]));
    let (graph, index, skipped) = build_graph(&nodes, &edges);
    assert_eq!(skipped, vec![0]);
    assert_eq!(graph.edges.len(), 1);
    match run_query(&graph, &index, &"A".to_string(), &"B".to_string()) {
        QueryOutcome::Found(p) => assert_eq!(p, vec!["A".to_string(), "B".to_string()]),
        _ => panic!("expected a path"),
    }
}

#[test]
fn three_node_chain() {
    match query(&["1 A", "2 B", "3 C"], &["1 2 roadAB", "2 3 roadBC"], "A", "C") {
        QueryOutcome::Found(p) => {
            assert_eq!(p, vec!["A".to_string(), "B".to_string(), "C".to_string()])
        },
        _ => panic!("expected a path"),
    }
}

#[test]
fn start_equals_end_gives_single_node_path() {
    match query(&["1 A", "2 B", "3 C"], &["1 2 roadAB", "2 3 roadBC"], "A", "A") {
        QueryOutcome::Found(p) => assert_eq!(p, vec!["A".to_string()]),
        _ => panic!("expected the trivial path"),
    }
}

#[test]
fn unknown_label_is_invalid() {
    match query(&["1 A", "2 B", "3 C"], &["1 2 roadAB", "2 3 roadBC"], "A", "Z") {
        QueryOutcome::InvalidLabel => {},
        _ => panic!("expected an invalid-label outcome"),
    }
    match query(&["1 A"], &[], "Z", "A") {
        QueryOutcome::InvalidLabel => {},
        _ => panic!("expected an invalid-label outcome"),
    }
}

#[test]
fn unreachable_target_reports_no_path() {
    match query(&["1 A", "2 B", "3 C", "4 D"], &["1 2 roadAB"], "A", "D") {
        QueryOutcome::NoPath => {},
        _ => panic!("expected no path"),
    }
}

#[test]
fn traversal_is_symmetric() {
    match query(&["1 A", "2 B", "3 C"], &["1 2 roadAB", "2 3 roadBC"], "C", "A") {
        QueryOutcome::Found(p) => {
            assert_eq!(p, vec!["C".to_string(), "B".to_string(), "A".to_string()])
        },
        _ => panic!("expected a path"),
    }
}

#[test]
fn shortest_route_wins_over_longer_one() {
    // A-B-C-D is 3 hops; A-E-D is 2 hops and must be chosen.
    match query(
        &["1 A", "2 B", "3 C", "4 D", "5 E"],
        &["1 2 ab", "2 3 bc", "3 4 cd", "1 5 ae", "5 4 ed"],
        "A",
        "D",
    ) {
        QueryOutcome::Found(p) => {
            assert_eq!(p, vec!["A".to_string(), "E".to_string(), "D".to_string()])
        },
        _ => panic!("expected a path"),
    }
}

#[test]
fn search_records_exact_hop_counts() {
    let (sample_nodes, sample_edges) = sample();
    let (nodes, _) = parse_node_lines(&sample_nodes);
    let (edges, _) = parse_edge_lines(&sample_edges);
    let (graph, index, _) = build_graph(&nodes, &edges);
    let s = index.lookup(&"A".to_string()).unwrap();
    let r = shortest_path_search(&graph, s);
    assert_eq!(r.dist[s], Some(0));
    let b = index.lookup(&"B".to_string()).unwrap();
    let c = index.lookup(&"C".to_string()).unwrap();
    assert_eq!(r.dist[b], Some(1));
    assert_eq!(r.dist[c], Some(2));
    assert_eq!(r.pred[s], None);
    assert_eq!(r.pred[b], Some(s));
    assert_eq!(r.pred[c], Some(b));
}

#[test]
fn unreached_nodes_have_no_distance_and_no_path() {
    let (nodes, _) = parse_node_lines(&lines(&["1 A", "2 B"]));
    let (edges, _) = parse_edge_lines(&lines(&[]));
    let (graph, index, _) = build_graph(&nodes, &edges);
    let s = index.lookup(&"A".to_string()).unwrap();
    let t = index.lookup(&"B".to_string()).unwrap();
    let r = shortest_path_search(&graph, s);
    assert_eq!(r.dist[t], None);
    assert!(reconstruct_path(&graph, &r, s, t).is_none());
}

#[test]
fn reconstruction_follows_settled_distances() {
    let (sample_nodes, sample_edges) = sample();
    let (nodes, _) = parse_node_lines(&sample_nodes);
    let (edges, _) = parse_edge_lines(&sample_edges);
    let (graph, index, _) = build_graph(&nodes, &edges);
    let s = index.lookup(&"A".to_string()).unwrap();
    let t = index.lookup(&"C".to_string()).unwrap();
    let r = shortest_path_search(&graph, s);
    let handles = reconstruct_path(&graph, &r, s, t).unwrap();
    assert_eq!(handles.len(), 3);
    assert_eq!(handles[0], s);
    assert_eq!(handles[2], t);
    // the hop count of the path equals the recorded distance of the target
    assert_eq!(r.dist[t], Some(handles.len() - 1));
}

#[test]
fn duplicate_labels_resolve_to_last_node() {
    let (nodes, _) = parse_node_lines(&lines(&["1 X", "2 X", "3 Y"]));
    let (edges, _) = parse_edge_lines(&lines(&["2 3 e"]));
    let (graph, index, _) = build_graph(&nodes, &edges);
    // the second node carrying label X wins
    assert_eq!(index.lookup(&"X".to_string()), Some(1));
    match run_query(&graph, &index, &"X".to_string(), &"Y".to_string()) {
        QueryOutcome::Found(p) => assert_eq!(p, vec!["X".to_string(), "Y".to_string()]),
        _ => panic!("expected a path"),
    }
}

#[test]
fn duplicate_keys_resolve_to_last_node() {
    // the edge names key 1, which the second record now owns
    let (nodes, _) = parse_node_lines(&lines(&["1 A", "1 B", "2 C"]));
    let (edges, _) = parse_edge_lines(&lines(&["1 2 e"]));
    let (graph, index, _) = build_graph(&nodes, &edges);
    match run_query(&graph, &index, &"B".to_string(), &"C".to_string()) {
        QueryOutcome::Found(p) => assert_eq!(p, vec!["B".to_string(), "C".to_string()]),
        _ => panic!("expected a path"),
    }
    match run_query(&graph, &index, &"A".to_string(), &"C".to_string()) {
        QueryOutcome::NoPath => {},
        _ => panic!("node A lost its key, so no edge reaches it"),
    }
}

#[test]
fn empty_graph_query_is_invalid() {
    match query(&[], &[], "A", "B") {
        QueryOutcome::InvalidLabel => {},
        _ => panic!("expected an invalid-label outcome"),
    }
}
