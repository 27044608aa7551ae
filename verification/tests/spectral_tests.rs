use cathedral_probe::CathedralProbe;
use spatial::spectral_analysis::{detect_communities, file_dependency_graph, CodeGraph, DependencyEdge, DependencyWeight, Entity};

fn edge(a: &str, b: &str, weight: DependencyWeight) -> DependencyEdge {
    DependencyEdge { from: Entity::File(a.into()), to: Entity::File(b.into()), weight }
}

fn make_graph(edges: &[(&str, &str)]) -> CodeGraph {
    let mut g = CodeGraph::new();
    for (a, b) in edges {
        g.add_edge(edge(a, b, DependencyWeight::Import));
    }
    g
}

/// The spectral probe of the entities of `part`, with the undirected pair
/// weights the library computes.
fn probe_of(graph: &CodeGraph, part: &Vec<usize>) -> CathedralProbe {
    let names: Vec<String> = part.iter().map(|i| graph.entities[*i].label()).collect();
    let refs: Vec<&str> = names.iter().map(|s| s.as_str()).collect();
    let mut probe = CathedralProbe::new(refs);
    for pw in graph.weighted_pairs(part) {
        probe.connect(names[pw.i].as_str(), names[pw.j].as_str(), pw.tenths as f64 / 10.0);
    }
    probe
}

fn probe(graph: &CodeGraph) -> CathedralProbe {
    probe_of(graph, &(0..graph.entities.len()).collect())
}

#[test]
fn test_single_entity() {
    let mut graph = CodeGraph::new();
    graph.add_entity(Entity::File("main.rs".into()));
    assert!(probe(&graph).is_connected());
}

#[test]
fn test_two_connected_nodes() {
    let graph = make_graph(&[("a.rs", "b.rs")]);
    let p = probe(&graph);
    assert!(p.is_connected());
    assert!(p.connected_components() == 1);
    assert!((p.fiedler_value() - 2.0).abs() < 1e-3 || p.fiedler_value() > 0.0);
}

#[test]
fn test_two_disconnected_nodes() {
    let mut graph = CodeGraph::new();
    graph.add_entity(Entity::File("a.rs".into()));
    graph.add_entity(Entity::File("b.rs".into()));
    let p = probe(&graph);
    assert!(!p.is_connected(), "disconnected graph should report false");
    assert!(p.connected_components() > 1);
}

#[test]
fn test_triangle_graph() {
    let graph = make_graph(&[("a.rs", "b.rs"), ("b.rs", "c.rs"), ("c.rs", "a.rs")]);
    let p = probe(&graph);
    assert!(p.is_connected());
    assert!((p.fiedler_value() - 3.0).abs() < 1e-6);
}

#[test]
fn test_importance() {
    let mut graph = CodeGraph::new();
    for i in 1..=5 {
        graph.add_edge(edge("center.rs", &format!("leaf{i}.rs"), DependencyWeight::Import));
    }
    let importance = probe(&graph).component_importance();
    let center_imp = importance.get("file:center.rs");
    assert!(center_imp.is_some(), "center should have importance entry");
    assert!(*center_imp.unwrap() > 0.0, "center importance should be > 0");
}

#[test]
fn test_bottlenecks() {
    let graph = make_graph(&[("a.rs", "b.rs"), ("b.rs", "c.rs")]);
    let p = probe(&graph);
    assert!(p.fiedler_value() > 0.0);
    assert!(!p.bottlenecks().is_empty(), "should have bottlenecks");
}

#[test]
fn test_communities_detected() {
    let mut graph = CodeGraph::new();
    for (a, b) in &[("a1.rs", "a2.rs"), ("a2.rs", "a3.rs"), ("a3.rs", "a1.rs")] {
        graph.add_edge(edge(a, b, DependencyWeight::Import));
    }
    for (a, b) in &[("b1.rs", "b2.rs"), ("b2.rs", "b3.rs"), ("b3.rs", "b1.rs")] {
        graph.add_edge(edge(a, b, DependencyWeight::Import));
    }
    graph.add_edge(edge("a1.rs", "b1.rs", DependencyWeight::Reference));
    let communities = detect_communities(&graph, 3, |part: &Vec<usize>| {
        let spectrum = probe_of(&graph, part).spectrum();
        spectrum.len() >= 2 && spectrum[1] >= 1e-10
    });
    let flat: Vec<&str> = communities.iter().flat_map(|c| c.iter().map(|s| s.as_str())).collect();
    for e in &["file:a1.rs", "file:a2.rs", "file:a3.rs", "file:b1.rs", "file:b2.rs", "file:b3.rs"] {
        assert!(flat.contains(e), "{e} should be in a community");
    }
}

#[test]
fn test_file_dependencies_analysis() {
    let deps: Vec<(String, Vec<String>)> = vec![
        ("main.rs".into(), vec!["utils.rs".into(), "config.rs".into()]),
        ("utils.rs".into(), vec!["helpers.rs".into()]),
        ("config.rs".into(), vec![]),
        ("helpers.rs".into(), vec![]),
    ];
    let graph = file_dependency_graph(&deps);
    let p = probe(&graph);
    assert!(p.is_connected());
    assert!(p.connected_components() == 1);
}

#[test]
fn pair_weights_sum_both_directions_in_tenths() {
    let mut graph = CodeGraph::new();
    graph.add_edge(edge("a.rs", "b.rs", DependencyWeight::Import));
    graph.add_edge(edge("b.rs", "a.rs", DependencyWeight::Module));
    graph.add_edge(edge("b.rs", "c.rs", DependencyWeight::Reference));
    graph.add_edge(edge("c.rs", "c.rs", DependencyWeight::Import));
    let pairs: Vec<(usize, usize, u64)> =
        graph.weighted_pairs(&vec![0, 1, 2]).iter().map(|p| (p.i, p.j, p.tenths)).collect();
    assert_eq!(pairs, vec![(0, 1, 16), (1, 2, 2)]);
    assert_eq!(graph.degrees(), vec![16, 18, 12]);
}

#[test]
fn communities_cover_every_entity_once() {
    let graph = make_graph(&[("a", "b"), ("b", "c"), ("c", "d"), ("d", "e"), ("e", "f")]);
    let communities = detect_communities(&graph, 3, |_part: &Vec<usize>| true);
    let mut flat: Vec<String> = communities.iter().flatten().cloned().collect();
    assert!(communities.iter().all(|c| !c.is_empty()));
    flat.sort();
    let mut expected: Vec<String> = ["a", "b", "c", "d", "e", "f"].iter().map(|x| format!("file:{x}")).collect();
    expected.sort();
    assert_eq!(flat, expected);
    assert!(detect_communities(&CodeGraph::new(), 3, |_p: &Vec<usize>| true).is_empty());
}

#[test]
fn partition_sides_follow_the_coordinate_sign() {
    let graph = make_graph(&[("hub", "x"), ("hub", "y"), ("hub", "z")]);
    let sides = graph.suggested_partition(4, true);
    assert_eq!(sides.len(), 4);
    assert_eq!(sides[0].entity, "file:hub");
    for s in &sides {
        assert_eq!(s.side, if s.fiedler_tenths >= 0 { "A" } else { "B" });
    }
    assert_eq!(sides[0].side, "A");
    assert!(graph.suggested_partition(1, true).is_empty());
    let (a, b) = graph.fiedler_split(&vec![0, 1, 2, 3]);
    assert_eq!(a.len() + b.len(), 4);
}

#[test]
fn labels_name_the_kind() {
    assert_eq!(Entity::File("x.rs".into()).label(), "file:x.rs");
    assert_eq!(Entity::Function("run".into()).label(), "fn:run");
    assert_eq!(Entity::Module("core".into()).label(), "mod:core");
    assert_eq!(DependencyWeight::Module.as_tenths(), 6);
}

#[test]
fn parts_under_four_entities_stay_whole() {
    let g = make_graph(&[("a.rs", "b.rs"), ("b.rs", "c.rs")]);
    let whole = vec![vec!["file:a.rs".to_string(), "file:b.rs".to_string(), "file:c.rs".to_string()]];
    assert_eq!(detect_communities(&g, 3, |_p: &Vec<usize>| true), whole);
    assert_eq!(detect_communities(&g, 0, |_p: &Vec<usize>| true), whole);
    assert_eq!(detect_communities(&CodeGraph::new(), 3, |_p: &Vec<usize>| true), Vec::<Vec<String>>::new());
}

#[test]
fn no_rounds_leave_one_community() {
    let graph = make_graph(&[("a", "b"), ("b", "c"), ("c", "d"), ("d", "e"), ("e", "f")]);
    let communities = detect_communities(&graph, 0, |_part: &Vec<usize>| true);
    assert_eq!(communities.len(), 1);
    assert_eq!(communities[0].len(), 6);
    let none = detect_communities(&graph, 3, |_part: &Vec<usize>| false);
    assert_eq!(none, communities);
    assert!(detect_communities(&graph, 1, |_part: &Vec<usize>| true).len() <= 2);
    assert!(detect_communities(&graph, 2, |_part: &Vec<usize>| true).len() <= 4);
}

#[test]
fn well_formedness_is_checked() {
    let g = make_graph(&[("a.rs", "b.rs")]);
    assert!(g.is_well_formed());
    let mut broken = make_graph(&[("a.rs", "b.rs")]);
    broken.edges.push(edge("a.rs", "z.rs", DependencyWeight::Import));
    assert!(!broken.is_well_formed());
    let mut twice = make_graph(&[("a.rs", "b.rs")]);
    twice.entities.push(Entity::File("a.rs".into()));
    assert!(!twice.is_well_formed());
}
