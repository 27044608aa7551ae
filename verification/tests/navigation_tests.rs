use spatial::code_graph::CodeGraph;
use spatial::snap_navigation::{
    functions_at, multi_cursor_positions, names_le, nearest_to, pythagorean_jumps_from, related_functions,
};
use spatial::{FileId, FunctionId, LatticePos};

fn hex_distance(p: LatticePos) -> i32 {
    (p.a.abs() + p.b.abs() + (p.a + p.b).abs()) / 2
}

fn snap(x: f64, y: f64) -> LatticePos {
    let s = snapkit::eisenstein_round_voronoi(x, y);
    LatticePos { a: s.a as i32, b: s.b as i32 }
}

#[test]
fn test_pythagorean_jumps_basic() {
    let origin = LatticePos { a: 0, b: 0 };
    let jumps = pythagorean_jumps_from(origin, 1);
    assert!(!jumps.is_empty(), "Should find jumps for c=1");
    assert!(jumps.iter().any(|p| hex_distance(*p) == 1));
}

#[test]
fn jumps_of_size_one_are_the_six_neighbors() {
    let jumps = pythagorean_jumps_from(LatticePos { a: 10, b: -3 }, 1);
    let expected: Vec<LatticePos> = vec![(9, -4), (9, -3), (10, -4), (10, -2), (11, -3), (11, -2)]
        .into_iter()
        .map(|(a, b)| LatticePos { a, b })
        .collect();
    assert_eq!(jumps, expected);
}

#[test]
fn jump_targets_keep_the_triple_norm() {
    let origin = LatticePos { a: 2, b: 5 };
    for c in [1u32, 7, 13] {
        let jumps = pythagorean_jumps_from(origin, c);
        assert!(!jumps.is_empty());
        for w in jumps.windows(2) {
            assert!((w[0].a, w[0].b) < (w[1].a, w[1].b));
        }
        for p in &jumps {
            let (a, b) = ((p.a - origin.a) as i64, (p.b - origin.b) as i64);
            assert_eq!(a * a - a * b + b * b, (c as i64) * (c as i64));
        }
    }
}

#[test]
fn test_related_functions() {
    let mut graph = CodeGraph::new();
    let file = FileId("src/lib.rs".into());
    let fn_ids: Vec<FunctionId> = (0..5)
        .map(|i| {
            let name = format!("fn_{}", i);
            graph.register_function(file.clone(), name.clone(), 1, 5, Some(LatticePos { a: i as i32, b: 0 }));
            FunctionId { file: file.clone(), name }
        })
        .collect();
    let related = related_functions(&graph, &fn_ids[0], 3, 10);
    assert!(related.len() >= 2);
    assert!(related.iter().any(|(id, d, _)| id.name == "fn_1" && *d == 1));
}

#[test]
fn related_functions_order_by_distance_module_then_name() {
    let mut graph = CodeGraph::new();
    let home = FileId("home.rs".into());
    let away = FileId("away.rs".into());
    graph.register_function(home.clone(), "origin".into(), 1, 1, Some(LatticePos { a: 0, b: 0 }));
    graph.register_function(away.clone(), "a_far".into(), 1, 1, Some(LatticePos { a: 2, b: 0 }));
    graph.register_function(away.clone(), "z_near".into(), 1, 1, Some(LatticePos { a: 1, b: 0 }));
    graph.register_function(home.clone(), "y_near".into(), 1, 1, Some(LatticePos { a: 0, b: 1 }));
    graph.register_function(home.clone(), "b_near".into(), 1, 1, Some(LatticePos { a: -1, b: 0 }));
    graph.register_function(home.clone(), "outside".into(), 1, 1, Some(LatticePos { a: 9, b: 0 }));
    let origin = FunctionId { file: home.clone(), name: "origin".into() };
    let related = related_functions(&graph, &origin, 2, 10);
    let names: Vec<(&str, u32, bool)> = related.iter().map(|(id, d, s)| (id.name.as_str(), *d, *s)).collect();
    assert_eq!(
        names,
        vec![("b_near", 1, true), ("y_near", 1, true), ("z_near", 1, false), ("a_far", 2, false)]
    );
    assert_eq!(related_functions(&graph, &origin, 2, 2).len(), 2);
    let unknown = FunctionId { file: home, name: "nobody".into() };
    assert!(related_functions(&graph, &unknown, 2, 10).is_empty());
}

#[test]
fn test_lattice_multi_cursor() {
    let origin = snap(0.0, 0.0);
    let cursors = multi_cursor_positions(origin, 7, true);
    assert!(cursors.len() >= 6, "Should have at least 6 adjacent cursors");
}

#[test]
fn multi_cursor_lists_neighbors_first_without_repeats() {
    let origin = LatticePos { a: 0, b: 0 };
    let with = multi_cursor_positions(origin, 1, true);
    let neighbors: Vec<LatticePos> = vec![(1, 0), (0, 1), (1, 1), (-1, 0), (0, -1), (-1, -1)]
        .into_iter()
        .map(|(a, b)| LatticePos { a, b })
        .collect();
    assert_eq!(with[..6].to_vec(), neighbors);
    for (i, p) in with.iter().enumerate() {
        assert!(!with[..i].contains(p));
    }
    let without = multi_cursor_positions(origin, 1, false);
    assert_eq!(without, pythagorean_jumps_from(origin, 1));
}

#[test]
fn test_nearest_function() {
    let mut graph = CodeGraph::new();
    let file = FileId("src/main.rs".into());
    graph.register_function(file.clone(), "main".into(), 5, 20, Some(LatticePos { a: 0, b: 0 }));
    let cursor = snap(0.5, 0.0);
    let nearest = nearest_to(&graph, cursor);
    assert!(nearest.is_some());
    assert_eq!(nearest.unwrap().0.name, "main");
}

#[test]
fn nearest_prefers_the_first_of_equals() {
    let mut graph = CodeGraph::new();
    let file = FileId("src/main.rs".into());
    graph.register_function(file.clone(), "east".into(), 1, 1, Some(LatticePos { a: 2, b: 0 }));
    graph.register_function(file.clone(), "west".into(), 1, 1, Some(LatticePos { a: -2, b: 0 }));
    let (id, d) = nearest_to(&graph, LatticePos { a: 0, b: 0 }).unwrap();
    assert_eq!((id.name.as_str(), d), ("east", 2));
    assert!(nearest_to(&CodeGraph::new(), LatticePos { a: 0, b: 0 }).is_none());
}

#[test]
fn functions_at_a_position() {
    let mut graph = CodeGraph::new();
    let file = FileId("src/main.rs".into());
    graph.register_function(file.clone(), "here".into(), 1, 1, Some(LatticePos { a: 1, b: 2 }));
    graph.register_function(file.clone(), "there".into(), 1, 1, Some(LatticePos { a: 2, b: 1 }));
    let at = functions_at(&graph, LatticePos { a: 1, b: 2 });
    assert_eq!(at.len(), 1);
    assert_eq!(at[0].name, "here");
    assert!(functions_at(&graph, LatticePos { a: 7, b: 7 }).is_empty());
}

#[test]
fn names_compare_by_characters() {
    let s = |x: &str| x.to_string();
    assert!(names_le(&s("abc"), &s("abd")));
    assert!(names_le(&s("ab"), &s("abc")));
    assert!(!names_le(&s("abc"), &s("ab")));
    assert!(names_le(&s("same"), &s("same")));
    assert!(names_le(&s("Z"), &s("a")));
    assert!(names_le(&s("é"), &s("ü")));
}

#[test]
fn jumps_reach_every_point_at_the_norm() {
    let origin = LatticePos { a: 0, b: 0 };
    let jumps = pythagorean_jumps_from(origin, 7);
    assert!(jumps.contains(&LatticePos { a: 8, b: 3 }));
    assert!(jumps.contains(&LatticePos { a: 8, b: 5 }));
    for c in [1i64, 2, 3, 5, 7, 13] {
        let origin = LatticePos { a: -4, b: 9 };
        let jumps = pythagorean_jumps_from(origin, c as u32);
        let mut expected: Vec<LatticePos> = Vec::new();
        for a in -40i64..=40 {
            for b in -40i64..=40 {
                if a * a - a * b + b * b == c * c {
                    expected.push(LatticePos { a: origin.a + a as i32, b: origin.b + b as i32 });
                }
            }
        }
        expected.sort_by_key(|p| (p.a, p.b));
        assert_eq!(jumps, expected, "c = {c}");
    }
}
