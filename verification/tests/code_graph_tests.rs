use spatial::code_graph::CodeGraph;
use spatial::lattice::index_to_hex_spiral;
use spatial::{FileId, FunctionId, LatticePos};

fn fid(file: &FileId, name: &str) -> FunctionId {
    FunctionId { file: file.clone(), name: name.to_string() }
}

fn node<'a>(graph: &'a CodeGraph, id: &FunctionId) -> &'a spatial::code_graph::FunctionNode {
    graph.functions.iter().find(|n| n.id == *id).expect("registered")
}

#[test]
fn test_register_function_and_call() {
    let mut graph = CodeGraph::new();
    let file_a = FileId("src/main.rs".into());
    let file_b = FileId("src/helper.rs".into());
    graph.register_function(file_a.clone(), "main".into(), 5, 20, None);
    graph.register_function(file_b.clone(), "helper".into(), 3, 15, None);
    let main_id = fid(&file_a, "main");
    let helper_id = fid(&file_b, "helper");
    graph.add_call(&main_id, &helper_id);

    assert!(graph.find_function(&main_id).is_some());
    assert!(graph.find_function(&helper_id).is_some());
    assert_eq!(node(&graph, &main_id).calls.len(), 1);
    assert_eq!(node(&graph, &helper_id).called_by.len(), 1);
}

#[test]
fn test_function_distance() {
    let mut graph = CodeGraph::new();
    let file = FileId("src/lib.rs".into());
    graph.register_function(file.clone(), "foo".into(), 1, 5, Some(LatticePos { a: 0, b: 0 }));
    graph.register_function(file.clone(), "bar".into(), 1, 5, Some(LatticePos { a: 1, b: 0 }));
    let foo = fid(&file, "foo");
    let bar = fid(&file, "bar");
    assert_eq!(graph.function_distance(&foo, &bar), Some(1));
}

#[test]
fn test_module_distance() {
    let mut graph = CodeGraph::new();
    let a = FileId("crates/a/src/lib.rs".into());
    let b = FileId("crates/b/src/lib.rs".into());
    graph.register_module(a.clone());
    graph.register_module(b.clone());
    let dist = graph.module_distance(&a, &b);
    assert!(dist.is_some());
}

#[test]
fn test_call_distance_bfs() {
    let mut graph = CodeGraph::new();
    let file = FileId("src/lib.rs".into());
    let ids: Vec<FunctionId> = (0..5)
        .map(|i| {
            let name = format!("fn_{}", i);
            graph.register_function(file.clone(), name.clone(), 1, 5, None);
            FunctionId { file: file.clone(), name }
        })
        .collect();
    for i in 0..3 {
        graph.add_call(&ids[i], &ids[i + 1]);
    }
    assert_eq!(graph.call_distance(&ids[0], &ids[3]), Some(3));
    assert_eq!(graph.call_distance(&ids[0], &ids[4]), None);
}

#[test]
fn test_lattice_distance_clustering() {
    let mut graph = CodeGraph::new();
    let file = FileId("src/mod.rs".into());
    graph.register_function(file.clone(), "near_a".into(), 1, 10, Some(LatticePos { a: 0, b: 0 }));
    graph.register_function(file.clone(), "near_b".into(), 1, 10, Some(LatticePos { a: 1, b: 0 }));
    graph.register_function(file.clone(), "far".into(), 1, 10, Some(LatticePos { a: 10, b: 0 }));
    let near_a = fid(&file, "near_a");
    let near_b = fid(&file, "near_b");
    let far = fid(&file, "far");
    let close = graph.functions_within_distance(&near_a, 1);
    assert!(close.contains(&near_b));
    assert!(!close.contains(&far));
}

#[test]
fn test_hexagonal_spiral_no_collisions() {
    let mut graph = CodeGraph::new();
    let file = FileId("src/lib.rs".into());
    let n = 100;
    for i in 0..n {
        graph.register_function(file.clone(), format!("fn_{}", i), 1, 5, None);
    }
    let mut positions: Vec<LatticePos> = Vec::new();
    for node in &graph.functions {
        assert!(!positions.contains(&node.pos), "Duplicate position for {:?}: {:?}", node.id, node.pos);
        positions.push(node.pos);
    }
    assert_eq!(positions.len(), graph.functions.len());
    assert_eq!(graph.functions.len(), n);
}

#[test]
fn spiral_walks_rings_outward() {
    assert_eq!(index_to_hex_spiral(0), LatticePos { a: 0, b: 0 });
    assert_eq!(index_to_hex_spiral(1), LatticePos { a: 1, b: 0 });
    assert_eq!(index_to_hex_spiral(2), LatticePos { a: 0, b: 1 });
    assert_eq!(index_to_hex_spiral(6), LatticePos { a: 1, b: -1 });
    assert_eq!(index_to_hex_spiral(7), LatticePos { a: 2, b: 0 });
    assert_eq!(index_to_hex_spiral(8), LatticePos { a: 1, b: 1 });
    let mut seen = Vec::new();
    for n in 0..200u64 {
        let p = index_to_hex_spiral(n);
        assert!(!seen.contains(&p));
        seen.push(p);
    }
}

#[test]
fn modules_take_successive_spiral_centers() {
    let mut graph = CodeGraph::new();
    graph.register_module(FileId("a.rs".into()));
    graph.register_module(FileId("b.rs".into()));
    graph.register_module(FileId("a.rs".into()));
    assert_eq!(graph.modules.len(), 2);
    assert_eq!(graph.modules[0].center, LatticePos { a: 0, b: 0 });
    assert_eq!(graph.modules[1].center, LatticePos { a: 1, b: 0 });
    assert_eq!(graph.alloc_counter, 2);
    assert_eq!(graph.module_distance(&FileId("a.rs".into()), &FileId("b.rs".into())), Some(1));
}

#[test]
fn asked_position_taken_falls_back_near_center() {
    let mut graph = CodeGraph::new();
    let file = FileId("src/lib.rs".into());
    graph.register_function(file.clone(), "a".into(), 1, 1, Some(LatticePos { a: 3, b: 3 }));
    graph.register_function(file.clone(), "b".into(), 1, 1, Some(LatticePos { a: 3, b: 3 }));
    let pa = node(&graph, &fid(&file, "a")).pos;
    let pb = node(&graph, &fid(&file, "b")).pos;
    assert_eq!(pa, LatticePos { a: 3, b: 3 });
    assert_ne!(pa, pb);
    // The first free cell of the radius-5 disk around the module center (0, 0).
    assert_eq!(pb, LatticePos { a: -5, b: 0 });
}

#[test]
fn registering_twice_keeps_the_first() {
    let mut graph = CodeGraph::new();
    let file = FileId("src/lib.rs".into());
    graph.register_function(file.clone(), "f".into(), 1, 2, Some(LatticePos { a: 4, b: 0 }));
    graph.register_function(file.clone(), "f".into(), 9, 9, Some(LatticePos { a: 7, b: 0 }));
    assert_eq!(graph.functions.len(), 1);
    assert_eq!(graph.functions[0].pos, LatticePos { a: 4, b: 0 });
    assert_eq!(graph.functions[0].complexity, 1);
    assert_eq!(graph.modules[0].functions.len(), 1);
}

#[test]
fn add_call_lists_each_call_once() {
    let mut graph = CodeGraph::new();
    let file = FileId("src/lib.rs".into());
    graph.register_function(file.clone(), "a".into(), 1, 1, None);
    graph.register_function(file.clone(), "b".into(), 1, 1, None);
    let a = fid(&file, "a");
    let b = fid(&file, "b");
    graph.add_call(&a, &b);
    graph.add_call(&a, &b);
    assert_eq!(node(&graph, &a).calls, vec![b.clone()]);
    assert_eq!(node(&graph, &b).called_by, vec![a.clone()]);
    // A call to an unregistered function is still listed by the caller.
    let ghost = fid(&FileId("src/other.rs".into()), "ghost");
    graph.add_call(&a, &ghost);
    assert_eq!(node(&graph, &a).calls.len(), 2);
    assert_eq!(graph.call_distance(&a, &ghost), Some(1));
    assert_eq!(graph.call_distance(&ghost, &a), None);
    assert_eq!(graph.call_distance(&a, &a), Some(0));
}

#[test]
fn add_import_registers_both_modules_once() {
    let mut graph = CodeGraph::new();
    let a = FileId("a.rs".into());
    let b = FileId("b.rs".into());
    graph.add_import(&a, &b);
    graph.add_import(&a, &b);
    assert_eq!(graph.modules.len(), 2);
    assert_eq!(graph.modules[0].file, a);
    assert_eq!(graph.modules[0].imports, vec![b.clone()]);
    assert_eq!(graph.modules[1].imported_by, vec![a.clone()]);
    assert_eq!(graph.alloc_counter, 2);
}

#[test]
fn distances_of_unknown_items_are_none() {
    let graph = CodeGraph::new();
    let f = FunctionId { file: FileId("x.rs".into()), name: "x".into() };
    assert_eq!(graph.function_distance(&f, &f), None);
    assert_eq!(graph.module_distance(&f.file, &f.file), None);
    assert!(graph.functions_within_distance(&f, 5).is_empty());
    assert!(graph.module_for_function(&f).is_none());
}

#[test]
fn hex_distance_counts_lattice_steps() {
    let mut graph = CodeGraph::new();
    let file = FileId("src/lib.rs".into());
    graph.register_function(file.clone(), "o".into(), 1, 1, Some(LatticePos { a: 0, b: 0 }));
    graph.register_function(file.clone(), "p".into(), 1, 1, Some(LatticePos { a: 2, b: -1 }));
    graph.register_function(file.clone(), "q".into(), 1, 1, Some(LatticePos { a: -3, b: 4 }));
    let o = fid(&file, "o");
    assert_eq!(graph.function_distance(&o, &fid(&file, "p")), Some(2));
    assert_eq!(graph.function_distance(&fid(&file, "p"), &o), Some(2));
    assert_eq!(graph.function_distance(&o, &fid(&file, "q")), Some(4));
    assert_eq!(graph.lattice_radius(), 4);
    assert_eq!(graph.module_positions(&file).len(), 3);
}

#[test]
fn module_for_function_finds_its_file() {
    let mut graph = CodeGraph::new();
    let file = FileId("src/lib.rs".into());
    graph.register_function(file.clone(), "f".into(), 1, 1, None);
    let cell = graph.module_for_function(&fid(&file, "f")).expect("module");
    assert_eq!(cell.file, file);
    assert_eq!(cell.functions.len(), 1);
}

#[test]
fn set_module_center_moves_only_that_center() {
    let mut graph = CodeGraph::new();
    graph.register_module(FileId("a.rs".into()));
    graph.register_module(FileId("b.rs".into()));
    graph.set_module_center(1, LatticePos { a: 5, b: 5 });
    assert_eq!(graph.modules[0].center, LatticePos { a: 0, b: 0 });
    assert_eq!(graph.modules[1].center, LatticePos { a: 5, b: 5 });
}
