use spatial::code_graph::CodeGraph;
use spatial::report::{coupling_label, cycle_line, find_notable_pairs, fmt_pos};
use spatial::sample::build_sample_graph;
use spatial::{FileId, FunctionId, LatticePos};

fn make_test_graph() -> CodeGraph {
    let mut graph = CodeGraph::new();
    let auth = FileId("auth.rs".into());
    let user = FileId("user.rs".into());
    let db = FileId("db.rs".into());
    let auth_fn = FunctionId { file: auth.clone(), name: "authenticate".into() };
    let user_fn = FunctionId { file: user.clone(), name: "get_user".into() };
    let db_fn = FunctionId { file: db.clone(), name: "connect".into() };
    graph.register_module(auth.clone());
    graph.register_module(user.clone());
    graph.register_module(db.clone());
    graph.register_function(auth.clone(), "authenticate".into(), 5, 30, Some(LatticePos { a: 0, b: 0 }));
    graph.register_function(user.clone(), "get_user".into(), 3, 20, Some(LatticePos { a: 2, b: 0 }));
    graph.register_function(db.clone(), "connect".into(), 2, 15, Some(LatticePos { a: 5, b: 0 }));
    graph.add_call(&auth_fn, &user_fn);
    graph.add_call(&user_fn, &auth_fn);
    graph.add_call(&auth_fn, &db_fn);
    graph.add_call(&user_fn, &db_fn);
    graph.add_import(&auth, &user);
    graph.add_import(&user, &db);
    graph.add_import(&auth, &db);
    graph
}

#[test]
fn test_find_notable_pairs() {
    let graph = make_test_graph();
    let pairs = find_notable_pairs(&graph, 10);
    assert!(!pairs.is_empty(), "Should find some notable pairs");
    let has_auth_user = pairs.iter().any(|(a, b, _)| {
        (a.name == "authenticate" && b.name == "get_user") || (a.name == "get_user" && b.name == "authenticate")
    });
    assert!(has_auth_user, "Should include auth↔user pair");
}

#[test]
fn notable_pairs_rank_by_calls_over_distance() {
    let graph = make_test_graph();
    let pairs = find_notable_pairs(&graph, 10);
    let got: Vec<(&str, &str, u32, u64)> = pairs
        .iter()
        .map(|(a, b, i)| (a.name.as_str(), b.name.as_str(), i.lattice_distance, i.call_count))
        .collect();
    // authenticate↔get_user: 2 calls at distance 2; get_user→connect: 1 at 3;
    // authenticate→connect: 1 at 5.
    assert_eq!(
        got,
        vec![("authenticate", "get_user", 2, 2), ("get_user", "connect", 3, 1), ("authenticate", "connect", 5, 1)]
    );
    assert_eq!(find_notable_pairs(&graph, 1).len(), 1);
}

#[test]
fn far_pairs_are_not_notable() {
    let mut graph = CodeGraph::new();
    let f = FileId("f.rs".into());
    graph.register_function(f.clone(), "a".into(), 1, 1, Some(LatticePos { a: 0, b: 0 }));
    graph.register_function(f.clone(), "b".into(), 1, 1, Some(LatticePos { a: 11, b: 0 }));
    let a = FunctionId { file: f.clone(), name: "a".into() };
    let b = FunctionId { file: f, name: "b".into() };
    graph.add_call(&a, &b);
    assert!(find_notable_pairs(&graph, 10).is_empty());
}

#[test]
fn coupling_labels() {
    assert_eq!(coupling_label(0), "tight");
    assert_eq!(coupling_label(1), "tight");
    assert_eq!(coupling_label(2), "moderate");
    assert_eq!(coupling_label(3), "moderate");
    assert_eq!(coupling_label(4), "loose");
}

#[test]
fn positions_print_as_pairs() {
    assert_eq!(fmt_pos(LatticePos { a: 3, b: -2 }), "(3, -2)");
    assert_eq!(fmt_pos(LatticePos { a: 0, b: 120 }), "(0, 120)");
    assert_eq!(fmt_pos(LatticePos { a: i32::MIN, b: i32::MAX }), "(-2147483648, 2147483647)");
}

#[test]
fn cycles_print_back_to_the_start() {
    let cycle = vec![FileId("core".into()), FileId("parser".into())];
    assert_eq!(cycle_line(&cycle), "core → parser → core");
    assert_eq!(cycle_line(&vec![FileId("x".into())]), "x → x");
}

#[test]
fn sample_graph_has_its_dependencies() {
    let g = build_sample_graph();
    assert_eq!(g.edges.len(), 12);
    assert_eq!(g.entities.len(), 11);
    assert_eq!(g.entities[0].label(), "file:src/editor.rs");
    assert_eq!(g.entities[1].label(), "file:src/buffer.rs");
}
