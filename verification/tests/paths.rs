use cfa::graph_builder::{Edge, Edges};
use cfa::path_finder::{
    edge_list, merge_paths, process_next_pair, source_dest_pairs, yen_for_each_dest, yen_wrapper,
    Endpoint, Paths,
};
use std::sync::atomic::AtomicUsize;

fn e(node: &str, distance: i64) -> Edge {
    Edge { node: node.to_string(), distance }
}

fn graph() -> Edges {
    let mut g = Edges::new();
    g.insert("a".to_string(), vec![e("b", 1), e("c", 1)]);
    g.insert("b".to_string(), vec![]);
    g.insert("c".to_string(), vec![e("b", 1)]);
    g
}

fn s(x: &str) -> String {
    x.to_string()
}

fn seed() -> Paths {
    vec![(vec![s("z")], 0)]
}

#[test]
fn edge_list_gives_the_successors() {
    let g = graph();
    assert_eq!(edge_list(&s("a"), &g), vec![(s("b"), 1), (s("c"), 1)]);
    assert_eq!(edge_list(&s("b"), &g), vec![]);
    assert_eq!(edge_list(&s("q"), &g), vec![]);
}

#[test]
fn a_round_appends_the_two_costliest_paths_costliest_first() {
    let g = graph();
    let p = yen_wrapper(&s("a"), &s("b"), &g, seed());
    assert_eq!(p.len(), 3);
    assert_eq!(p[0], (vec![s("z")], 0));
    assert_eq!(p[1], (vec![s("a"), s("c"), s("b")], 2));
    assert_eq!(p[2], (vec![s("a"), s("b")], 1));
}

#[test]
fn a_round_with_a_single_path_appends_it() {
    let g = graph();
    let p = yen_wrapper(&s("c"), &s("b"), &g, seed());
    assert_eq!(p.len(), 2);
    assert_eq!(p[1], (vec![s("c"), s("b")], 1));
}

#[test]
fn a_round_without_paths_found_changes_nothing() {
    let g = graph();
    let p = yen_wrapper(&s("b"), &s("a"), &g, seed());
    assert_eq!(p, seed());
}

#[test]
fn a_round_collects_paths_into_an_empty_list() {
    let g = graph();
    let p = yen_wrapper(&s("a"), &s("b"), &g, Vec::new());
    assert_eq!(p, vec![(vec![s("a"), s("c"), s("b")], 2), (vec![s("a"), s("b")], 1)]);
}

#[test]
fn a_round_from_a_site_to_itself_changes_nothing() {
    let g = graph();
    let p = yen_wrapper(&s("a"), &s("a"), &g, seed());
    assert_eq!(p, seed());
}

#[test]
fn search_to_each_destination_collects_the_paths_of_every_other_site() {
    let g = graph();
    let p = yen_for_each_dest(&s("a"), &g);
    assert_eq!(
        p,
        vec![
            (vec![s("a"), s("c"), s("b")], 2),
            (vec![s("a"), s("b")], 1),
            (vec![s("a"), s("c")], 1),
        ]
    );
    assert!(p.iter().all(|(nodes, _)| nodes[0] == "a" && nodes.last().unwrap() != "a"));
}

#[test]
fn search_from_a_site_without_successors_collects_nothing() {
    let g = graph();
    assert!(yen_for_each_dest(&s("b"), &g).is_empty());
}

#[test]
fn a_round_with_a_negative_time_but_no_search_changes_nothing() {
    let mut g = Edges::new();
    g.insert("a".to_string(), vec![e("b", -5)]);
    let p = yen_wrapper(&s("a"), &s("a"), &g, seed());
    assert_eq!(p, seed());
}

#[test]
fn pairs_join_every_two_distinct_sites() {
    let g = graph();
    let pairs = source_dest_pairs(&g);
    let got: Vec<(String, String)> = pairs.iter().map(|p| (p.source.clone(), p.dest.clone())).collect();
    assert_eq!(
        got,
        vec![
            (s("a"), s("b")),
            (s("a"), s("c")),
            (s("b"), s("a")),
            (s("b"), s("c")),
            (s("c"), s("a")),
            (s("c"), s("b")),
        ]
    );
    assert!(got.iter().all(|(x, y)| x != y));
}

#[test]
fn merge_paths_concatenates() {
    let a: Paths = vec![(vec![s("a")], 1)];
    let b: Paths = vec![(vec![s("b")], 2), (vec![s("c")], 3)];
    let m = merge_paths(a, b);
    assert_eq!(m, vec![(vec![s("a")], 1), (vec![s("b")], 2), (vec![s("c")], 3)]);
}

#[test]
fn worker_processes_every_claimed_pair() {
    let g = graph();
    let work = vec![
        Endpoint { source: s("a"), dest: s("b") },
        Endpoint { source: s("c"), dest: s("b") },
    ];
    let counter = AtomicUsize::new(0);
    let p = process_next_pair(&counter, 1, &work, &g, seed());
    assert_eq!(p.len(), 4);
    assert_eq!(p[3], (vec![s("c"), s("b")], 1));
    let again = process_next_pair(&counter, 1, &work, &g, seed());
    assert_eq!(again, seed());
}

#[test]
fn worker_collects_into_an_empty_list() {
    let g = graph();
    let work = vec![Endpoint { source: s("a"), dest: s("b") }];
    let counter = AtomicUsize::new(0);
    let p = process_next_pair(&counter, 0, &work, &g, Vec::new());
    assert_eq!(p, vec![(vec![s("a"), s("c"), s("b")], 2), (vec![s("a"), s("b")], 1)]);
}

#[test]
fn a_found_path_costs_the_travel_times_of_its_edges() {
    let mut g = Edges::new();
    g.insert("a".to_string(), vec![e("b", 7), e("c", 2)]);
    g.insert("c".to_string(), vec![e("b", 3)]);
    g.insert("b".to_string(), vec![]);
    let p = yen_wrapper(&s("a"), &s("b"), &g, Vec::new());
    assert_eq!(p, vec![(vec![s("a"), s("b")], 7), (vec![s("a"), s("c"), s("b")], 5)]);
}
