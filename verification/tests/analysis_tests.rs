use spatial::code_graph::CodeGraph;
use spatial::spatial_analysis::{
    component_count, connected_components_count, detect_bridges, detect_cycles, generate_suggestions, link_matrix,
    module_links,
};
use spatial::{FileId, FunctionId};

fn make_graph() -> CodeGraph {
    let mut graph = CodeGraph::new();
    let a = FileId("crates/core/src/lib.rs".into());
    let b = FileId("crates/parser/src/lib.rs".into());
    let c = FileId("crates/shell/src/lib.rs".into());
    graph.register_module(a.clone());
    graph.register_module(b.clone());
    graph.register_module(c.clone());
    graph.add_import(&a, &b);
    graph.add_import(&b, &c);
    graph
}

fn matrix(graph: &CodeGraph) -> Vec<Vec<bool>> {
    link_matrix(graph.modules.len(), &module_links(graph))
}

#[test]
fn test_analyze_basic() {
    let graph = make_graph();
    assert_eq!(component_count(&graph), 1);
}

#[test]
fn test_connected_components() {
    let mut graph = CodeGraph::new();
    graph.register_module(FileId("src/a.rs".into()));
    graph.register_module(FileId("src/b.rs".into()));
    assert_eq!(component_count(&graph), 2);
}

#[test]
fn test_no_false_positives_single_module() {
    let mut graph = CodeGraph::new();
    graph.register_module(FileId("src/lib.rs".into()));
    let m = matrix(&graph);
    assert!(detect_bridges(&m, &vec![true]).is_empty());
    assert_eq!(component_count(&graph), 1);
}

#[test]
fn test_detect_cycles() {
    let mut graph = CodeGraph::new();
    let a = FileId("src/a.rs".into());
    let b = FileId("src/b.rs".into());
    graph.register_module(a.clone());
    graph.register_module(b.clone());
    graph.add_import(&a, &b);
    graph.add_import(&b, &a);
    let cycles = detect_cycles(&graph);
    assert!(!cycles.is_empty(), "Should detect at least one cycle");
    assert_eq!(cycles, vec![vec![a, b]]);
}

#[test]
fn test_bridge_detection() {
    let mut graph = CodeGraph::new();
    let a = FileId("src/a.rs".into());
    let b = FileId("src/b.rs".into());
    let c = FileId("src/c.rs".into());
    graph.register_module(a.clone());
    graph.register_module(b.clone());
    graph.register_module(c.clone());
    graph.add_import(&a, &b);
    graph.add_import(&c, &b);
    graph.add_import(&a, &c);
    // Any cut of the three linked modules into two non-empty sides has a bridge.
    let m = matrix(&graph);
    for side in [vec![true, false, true], vec![true, true, false], vec![false, true, true]] {
        let bridges = detect_bridges(&m, &side);
        assert!(!bridges.is_empty(), "Should detect at least one bridge: {:?}", bridges);
    }
}

#[test]
fn links_weigh_imports_and_cross_module_calls() {
    let mut graph = CodeGraph::new();
    let a = FileId("a.rs".into());
    let b = FileId("b.rs".into());
    graph.register_function(a.clone(), "f".into(), 1, 1, None);
    graph.register_function(b.clone(), "g".into(), 1, 1, None);
    graph.register_function(a.clone(), "h".into(), 1, 1, None);
    let f = FunctionId { file: a.clone(), name: "f".into() };
    let g = FunctionId { file: b.clone(), name: "g".into() };
    let h = FunctionId { file: a.clone(), name: "h".into() };
    graph.add_call(&f, &g);
    graph.add_call(&f, &h);
    graph.add_import(&b, &a);
    let links: Vec<(usize, usize, u64)> = module_links(&graph).iter().map(|l| (l.from, l.to, l.half_weight)).collect();
    assert_eq!(links, vec![(1, 0, 2), (0, 1, 1)]);
    let m = matrix(&graph);
    assert_eq!(m, vec![vec![false, true], vec![true, false]]);
}

#[test]
fn components_follow_calls_and_imports() {
    let m = vec![
        vec![false, true, false, false, false],
        vec![true, false, false, false, false],
        vec![false, false, false, false, true],
        vec![false, false, false, true, false],
        vec![false, false, true, false, false],
    ];
    assert_eq!(connected_components_count(&m), 3);
    assert_eq!(connected_components_count(&Vec::new()), 0);
}

#[test]
fn bridges_rank_by_share_of_links_across() {
    // A path 0 - 1 - 2 - 3 cut between 1 and 2.
    let m = vec![
        vec![false, true, false, false],
        vec![true, false, true, false],
        vec![false, true, false, true],
        vec![false, false, true, false],
    ];
    let side = vec![true, true, false, false];
    let bridges = detect_bridges(&m, &side);
    let got: Vec<(usize, u64, u64)> = bridges.iter().map(|b| (b.module, b.other, b.total)).collect();
    assert_eq!(got.len(), 2);
    assert!(got.contains(&(1, 1, 3)));
    assert!(got.contains(&(2, 1, 3)));
}

#[test]
fn suggestions_need_most_connections_across() {
    let mut graph = CodeGraph::new();
    let files: Vec<FileId> = ["m0.rs", "m1.rs", "m2.rs", "m3.rs"].iter().map(|f| FileId(f.to_string())).collect();
    for f in &files {
        graph.register_module(f.clone());
    }
    // m0 imports m1, m2 and m3; m0 sits alone on its side.
    graph.add_import(&files[0], &files[1]);
    graph.add_import(&files[0], &files[2]);
    graph.add_import(&files[0], &files[3]);
    graph.add_import(&files[1], &files[2]);
    let side = vec![true, false, false, false];
    let sugg = generate_suggestions(&graph, &side);
    let got: Vec<(usize, u64, u64)> = sugg.iter().map(|s| (s.module, s.other, s.total)).collect();
    // m0: all 3 across; m3: its one connection (m0) across; m1 and m2: 1 of 2, 1 of 3.
    assert_eq!(got.len(), 2);
    assert!(got.contains(&(0, 3, 3)));
    assert!(got.contains(&(3, 1, 1)));
}

#[test]
fn cycles_of_three_modules_are_found_in_order() {
    let mut graph = CodeGraph::new();
    let a = FileId("a.rs".into());
    let b = FileId("b.rs".into());
    let c = FileId("c.rs".into());
    graph.add_import(&a, &b);
    graph.add_import(&b, &c);
    graph.add_import(&c, &a);
    graph.add_import(&a, &a);
    assert_eq!(detect_cycles(&graph), vec![vec![a.clone(), b.clone(), c.clone()]]);
    let mut acyclic = CodeGraph::new();
    acyclic.add_import(&a, &b);
    acyclic.add_import(&b, &c);
    assert!(detect_cycles(&acyclic).is_empty());
}

#[test]
fn empty_graph_has_no_components() {
    assert_eq!(component_count(&CodeGraph::new()), 0);
}

#[test]
fn each_back_edge_closes_one_cycle_in_search_order() {
    let mut graph = CodeGraph::new();
    let a = FileId("src/a.rs".into());
    let b = FileId("src/b.rs".into());
    let c = FileId("src/c.rs".into());
    graph.register_module(a.clone());
    graph.register_module(b.clone());
    graph.register_module(c.clone());
    graph.add_import(&a, &b);
    graph.add_import(&b, &a);
    graph.add_import(&b, &c);
    graph.add_import(&c, &a);
    graph.add_import(&c, &c);
    assert_eq!(detect_cycles(&graph), vec![vec![a.clone(), b.clone()], vec![a.clone(), b.clone(), c.clone()]]);
}

#[test]
fn module_graph_well_formedness_is_checked() {
    let graph = make_graph();
    assert!(graph.is_well_formed());
    let mut twice = make_graph();
    let first = twice.modules[0].file.clone();
    twice.register_module(FileId("src/extra.rs".into()));
    twice.modules[3].file = first;
    assert!(!twice.is_well_formed());
}
