use typedlua_typechecker::module_resolver::dependency_graph::{DependencyGraph, EdgeKind};
use typedlua_typechecker::module_resolver::error::{ModuleError, ModuleId};

fn make_id(name: &str) -> ModuleId {
    ModuleId::new(name.to_string())
}

#[test]
fn test_simple_topological_sort() {
    let mut graph = DependencyGraph::new();

    // a depends on b, b depends on c
    graph.add_module(make_id("c"), vec![]);
    graph.add_module(make_id("b"), vec![(make_id("c"), EdgeKind::Value)]);
    graph.add_module(make_id("a"), vec![(make_id("b"), EdgeKind::Value)]);

    let sorted = graph.topological_sort().unwrap();

    // c should come before b, b before a
    let c_pos = sorted.iter().position(|id| id.as_str() == "c").unwrap();
    let b_pos = sorted.iter().position(|id| id.as_str() == "b").unwrap();
    let a_pos = sorted.iter().position(|id| id.as_str() == "a").unwrap();

    assert!(c_pos < b_pos);
    assert!(b_pos < a_pos);
}

#[test]
fn test_diamond_dependency() {
    let mut graph = DependencyGraph::new();

    // a depends on b and c, both b and c depend on d
    graph.add_module(make_id("d"), vec![]);
    graph.add_module(make_id("b"), vec![(make_id("d"), EdgeKind::Value)]);
    graph.add_module(make_id("c"), vec![(make_id("d"), EdgeKind::Value)]);
    graph.add_module(
        make_id("a"),
        vec![
            (make_id("b"), EdgeKind::Value),
            (make_id("c"), EdgeKind::Value),
        ],
    );

    let sorted = graph.topological_sort().unwrap();

    // d should come before b and c, both should come before a
    let d_pos = sorted.iter().position(|id| id.as_str() == "d").unwrap();
    let b_pos = sorted.iter().position(|id| id.as_str() == "b").unwrap();
    let c_pos = sorted.iter().position(|id| id.as_str() == "c").unwrap();
    let a_pos = sorted.iter().position(|id| id.as_str() == "a").unwrap();

    assert!(d_pos < b_pos);
    assert!(d_pos < c_pos);
    assert!(b_pos < a_pos);
    assert!(c_pos < a_pos);
}

#[test]
fn test_circular_dependency_detected() {
    let mut graph = DependencyGraph::new();

    // a depends on b, b depends on c, c depends on a (cycle)
    graph.add_module(make_id("a"), vec![(make_id("b"), EdgeKind::Value)]);
    graph.add_module(make_id("b"), vec![(make_id("c"), EdgeKind::Value)]);
    graph.add_module(make_id("c"), vec![(make_id("a"), EdgeKind::Value)]);

    let result = graph.topological_sort();

    assert!(result.is_err());
    if let Err(ModuleError::CircularDependency { cycle }) = result {
        assert!(cycle.len() >= 3);
        // Verify cycle contains a, b, c
        assert!(cycle.iter().any(|id| id.as_str() == "a"));
        assert!(cycle.iter().any(|id| id.as_str() == "b"));
        assert!(cycle.iter().any(|id| id.as_str() == "c"));
    } else {
        panic!("Expected CircularDependency error");
    }
}

#[test]
fn test_self_dependency() {
    let mut graph = DependencyGraph::new();

    // a depends on itself
    graph.add_module(make_id("a"), vec![(make_id("a"), EdgeKind::Value)]);

    let result = graph.topological_sort();

    assert!(result.is_err());
    if let Err(ModuleError::CircularDependency { cycle }) = result {
        assert_eq!(cycle.len(), 2); // [a, a]
        assert_eq!(cycle[0].as_str(), "a");
    } else {
        panic!("Expected CircularDependency error");
    }
}

#[test]
fn test_no_dependencies() {
    let mut graph = DependencyGraph::new();

    graph.add_module(make_id("a"), vec![]);
    graph.add_module(make_id("b"), vec![]);
    graph.add_module(make_id("c"), vec![]);

    let sorted = graph.topological_sort().unwrap();

    assert_eq!(sorted.len(), 3);
    // Order doesn't matter since there are no dependencies
}

#[test]
fn test_type_only_cycle_allowed() {
    let mut graph = DependencyGraph::new();

    // a -> b (type), b -> c (type), c -> a (type) - cycle but all type-only
    graph.add_module(make_id("a"), vec![(make_id("b"), EdgeKind::TypeOnly)]);
    graph.add_module(make_id("b"), vec![(make_id("c"), EdgeKind::TypeOnly)]);
    graph.add_module(make_id("c"), vec![(make_id("a"), EdgeKind::TypeOnly)]);

    // Should succeed since cycle is type-only
    let result = graph.topological_sort();
    assert!(result.is_ok());
}

#[test]
fn test_value_cycle_rejected() {
    let mut graph = DependencyGraph::new();

    // a -> b (value), b -> c (value), c -> a (value) - cycle with runtime deps
    graph.add_module(make_id("a"), vec![(make_id("b"), EdgeKind::Value)]);
    graph.add_module(make_id("b"), vec![(make_id("c"), EdgeKind::Value)]);
    graph.add_module(make_id("c"), vec![(make_id("a"), EdgeKind::Value)]);

    // Should fail - runtime circular dependency
    let result = graph.topological_sort();
    assert!(result.is_err());
}

#[test]
fn test_type_dependency_ignored_in_sort() {
    let mut graph = DependencyGraph::new();

    // a -> b (value), b -> c (type), a -> c (type)
    // Topological order should be: c, b, a (or b, c, a)
    // The type-only edge a -> c should be ignored
    graph.add_module(make_id("c"), vec![]);
    graph.add_module(make_id("b"), vec![(make_id("c"), EdgeKind::TypeOnly)]);
    graph.add_module(
        make_id("a"),
        vec![
            (make_id("b"), EdgeKind::Value),
            (make_id("c"), EdgeKind::TypeOnly),
        ],
    );

    let sorted = graph.topological_sort().unwrap();

    let a_pos = sorted.iter().position(|id| id.as_str() == "a").unwrap();
    let b_pos = sorted.iter().position(|id| id.as_str() == "b").unwrap();

    // a should come after b (respects value edge)
    assert!(b_pos < a_pos);
    // c position doesn't matter relative to a (type-only edge ignored)
}

#[test]
fn test_get_value_dependencies() {
    let mut graph = DependencyGraph::new();

    graph.add_module(
        make_id("a"),
        vec![
            (make_id("b"), EdgeKind::Value),
            (make_id("c"), EdgeKind::TypeOnly),
            (make_id("d"), EdgeKind::Value),
        ],
    );

    let value_deps = graph.get_value_dependencies(&make_id("a"));

    assert_eq!(value_deps.len(), 2);
    assert!(value_deps.contains(&make_id("b")));
    assert!(value_deps.contains(&make_id("d")));
    assert!(!value_deps.contains(&make_id("c")));
}

#[test]
fn test_get_type_dependencies() {
    let mut graph = DependencyGraph::new();

    graph.add_module(
        make_id("a"),
        vec![
            (make_id("b"), EdgeKind::Value),
            (make_id("c"), EdgeKind::TypeOnly),
            (make_id("d"), EdgeKind::Value),
        ],
    );

    let type_deps = graph.get_type_dependencies(&make_id("a"));

    assert_eq!(type_deps.len(), 1);
    assert!(type_deps.contains(&make_id("c")));
}

fn names(ids: &[ModuleId]) -> Vec<&str> {
    ids.iter().map(|id| id.as_str()).collect()
}

#[test]
fn chain_sorts_to_c_b_a() {
    let mut graph = DependencyGraph::new();
    graph.add_module(make_id("c"), vec![]);
    graph.add_module(make_id("b"), vec![(make_id("c"), EdgeKind::Value)]);
    graph.add_module(make_id("a"), vec![(make_id("b"), EdgeKind::Value)]);
    assert_eq!(names(&graph.topological_sort().unwrap()), vec!["c", "b", "a"]);
}

#[test]
fn chain_sorts_to_c_b_a_whatever_the_order_of_registration() {
    let mut graph = DependencyGraph::new();
    graph.add_module(make_id("a"), vec![(make_id("b"), EdgeKind::Value)]);
    graph.add_module(make_id("b"), vec![(make_id("c"), EdgeKind::Value)]);
    graph.add_module(make_id("c"), vec![]);
    assert_eq!(names(&graph.topological_sort().unwrap()), vec!["c", "b", "a"]);
}

#[test]
fn type_only_edges_leave_c_unconstrained() {
    let mut graph = DependencyGraph::new();
    graph.add_module(
        make_id("a"),
        vec![(make_id("b"), EdgeKind::Value), (make_id("c"), EdgeKind::TypeOnly)],
    );
    graph.add_module(make_id("b"), vec![(make_id("c"), EdgeKind::TypeOnly)]);
    graph.add_module(make_id("c"), vec![]);
    let sorted = graph.topological_sort().unwrap();
    assert_eq!(sorted.len(), 3);
    let a_pos = sorted.iter().position(|id| id.as_str() == "a").unwrap();
    let b_pos = sorted.iter().position(|id| id.as_str() == "b").unwrap();
    assert!(b_pos < a_pos);
    assert!(sorted.iter().any(|id| id.as_str() == "c"));
}

#[test]
fn self_edge_reports_a_a() {
    let mut graph = DependencyGraph::new();
    graph.add_module(make_id("a"), vec![(make_id("a"), EdgeKind::Value)]);
    match graph.topological_sort() {
        Err(ModuleError::CircularDependency { cycle }) => {
            assert_eq!(names(&cycle), vec!["a", "a"]);
        }
        _ => panic!("Expected CircularDependency error"),
    }
}

#[test]
fn type_only_self_edge_is_no_cycle() {
    let mut graph = DependencyGraph::new();
    graph.add_module(make_id("a"), vec![(make_id("a"), EdgeKind::TypeOnly)]);
    assert_eq!(names(&graph.topological_sort().unwrap()), vec!["a"]);
}

#[test]
fn reported_cycle_is_closed_and_follows_value_edges() {
    let mut graph = DependencyGraph::new();
    graph.add_module(make_id("root"), vec![(make_id("a"), EdgeKind::Value)]);
    graph.add_module(make_id("a"), vec![(make_id("b"), EdgeKind::Value)]);
    graph.add_module(make_id("b"), vec![(make_id("c"), EdgeKind::Value)]);
    graph.add_module(make_id("c"), vec![(make_id("a"), EdgeKind::Value)]);
    match graph.topological_sort() {
        Err(ModuleError::CircularDependency { cycle }) => {
            // the search left `root` behind when it met `a` again
            assert_eq!(names(&cycle), vec!["a", "b", "c", "a"]);
            for step in cycle.windows(2) {
                assert!(graph.get_value_dependencies(&step[0]).contains(&step[1]));
            }
        }
        _ => panic!("Expected CircularDependency error"),
    }
}

#[test]
fn value_cycle_beside_type_only_edges_is_rejected() {
    let mut graph = DependencyGraph::new();
    graph.add_module(
        make_id("a"),
        vec![(make_id("b"), EdgeKind::TypeOnly), (make_id("c"), EdgeKind::Value)],
    );
    graph.add_module(make_id("c"), vec![(make_id("a"), EdgeKind::Value)]);
    assert!(matches!(
        graph.topological_sort(),
        Err(ModuleError::CircularDependency { .. })
    ));
}

#[test]
fn empty_graph_sorts_to_nothing() {
    let graph = DependencyGraph::new();
    assert!(graph.topological_sort().unwrap().is_empty());
    assert!(graph.modules().is_empty());
    let other = DependencyGraph::default();
    assert!(other.modules().is_empty());
}

#[test]
fn targets_are_known_before_they_are_registered() {
    let mut graph = DependencyGraph::new();
    graph.add_module(make_id("a"), vec![(make_id("b"), EdgeKind::Value)]);
    assert!(graph.contains(&make_id("a")));
    assert!(graph.contains(&make_id("b")));
    assert!(!graph.contains(&make_id("c")));
    assert_eq!(names(graph.modules()), vec!["a", "b"]);
    // `b` has no edges of its own yet, and still has its place in the order
    assert!(graph.get_dependencies(&make_id("b")).is_none());
    assert_eq!(names(&graph.topological_sort().unwrap()), vec!["b", "a"]);
}

#[test]
fn unregistered_module_has_no_dependencies() {
    let mut graph = DependencyGraph::new();
    graph.add_module(make_id("a"), vec![(make_id("b"), EdgeKind::Value)]);
    assert!(graph.get_dependencies(&make_id("zzz")).is_none());
    assert!(graph.get_value_dependencies(&make_id("zzz")).is_empty());
    assert!(graph.get_type_dependencies(&make_id("zzz")).is_empty());
    assert!(graph.get_value_dependencies(&make_id("b")).is_empty());
    assert!(graph.get_type_dependencies(&make_id("b")).is_empty());
}

#[test]
fn get_dependencies_returns_the_edges_in_order() {
    let mut graph = DependencyGraph::new();
    graph.add_module(
        make_id("a"),
        vec![
            (make_id("b"), EdgeKind::Value),
            (make_id("c"), EdgeKind::TypeOnly),
            (make_id("b"), EdgeKind::TypeOnly),
        ],
    );
    let edges = graph.get_dependencies(&make_id("a")).unwrap();
    let shape: Vec<(&str, EdgeKind)> =
        edges.iter().map(|edge| (edge.target.as_str(), edge.kind)).collect();
    assert_eq!(
        shape,
        vec![("b", EdgeKind::Value), ("c", EdgeKind::TypeOnly), ("b", EdgeKind::TypeOnly)]
    );
    assert_eq!(names(graph.modules()), vec!["a", "b", "c"]);
}

#[test]
fn registering_again_replaces_the_edges() {
    let mut graph = DependencyGraph::new();
    graph.add_module(make_id("a"), vec![(make_id("b"), EdgeKind::Value)]);
    graph.add_module(make_id("b"), vec![(make_id("a"), EdgeKind::Value)]);
    assert!(graph.topological_sort().is_err());
    graph.add_module(make_id("b"), vec![]);
    assert_eq!(names(&graph.topological_sort().unwrap()), vec!["b", "a"]);
    assert!(graph.get_dependencies(&make_id("b")).unwrap().is_empty());
    // the modules stay known
    assert_eq!(names(graph.modules()), vec!["a", "b"]);
}

#[test]
fn value_and_type_dependencies_partition_the_edges() {
    let mut graph = DependencyGraph::new();
    graph.add_module(
        make_id("a"),
        vec![
            (make_id("b"), EdgeKind::Value),
            (make_id("c"), EdgeKind::TypeOnly),
            (make_id("d"), EdgeKind::Value),
            (make_id("b"), EdgeKind::TypeOnly),
            (make_id("e"), EdgeKind::TypeOnly),
        ],
    );
    let all = graph.get_dependencies(&make_id("a")).unwrap();
    let values = graph.get_value_dependencies(&make_id("a"));
    let types = graph.get_type_dependencies(&make_id("a"));
    assert_eq!(names(&values), vec!["b", "d"]);
    assert_eq!(names(&types), vec!["c", "b", "e"]);
    assert_eq!(values.len() + types.len(), all.len());
    // every edge is found in the list of its kind, behind the earlier edges of that kind
    let (mut value_at, mut type_at) = (0, 0);
    for edge in all {
        match edge.kind {
            EdgeKind::Value => {
                assert_eq!(values[value_at], edge.target);
                value_at += 1;
            }
            EdgeKind::TypeOnly => {
                assert_eq!(types[type_at], edge.target);
                type_at += 1;
            }
        }
    }
}

#[test]
fn disconnected_parts_are_all_sorted() {
    let mut graph = DependencyGraph::new();
    graph.add_module(make_id("a"), vec![(make_id("b"), EdgeKind::Value)]);
    graph.add_module(make_id("x"), vec![(make_id("y"), EdgeKind::Value)]);
    let sorted = graph.topological_sort().unwrap();
    assert_eq!(sorted.len(), 4);
    let pos = |name: &str| sorted.iter().position(|id| id.as_str() == name).unwrap();
    assert!(pos("b") < pos("a"));
    assert!(pos("y") < pos("x"));
}

#[test]
fn long_chain_of_modules_sorts() {
    let n = 2000;
    let mut graph = DependencyGraph::new();
    for i in 0..n {
        let deps = if i + 1 < n {
            vec![(make_id(&format!("m{}", i + 1)), EdgeKind::Value)]
        } else {
            vec![]
        };
        graph.add_module(make_id(&format!("m{}", i)), deps);
    }
    let sorted = graph.topological_sort().unwrap();
    assert_eq!(sorted.len(), n);
    assert_eq!(sorted[0].as_str(), format!("m{}", n - 1));
    assert_eq!(sorted[n - 1].as_str(), "m0");
}

#[test]
fn lead_in_to_a_cycle_is_not_reported() {
    // a -> b -> c -> b: `a` is on the search path, but not on the cycle
    let mut graph = DependencyGraph::new();
    graph.add_module(make_id("a"), vec![(make_id("b"), EdgeKind::Value)]);
    graph.add_module(make_id("b"), vec![(make_id("c"), EdgeKind::Value)]);
    graph.add_module(make_id("c"), vec![(make_id("b"), EdgeKind::Value)]);
    match graph.topological_sort() {
        Err(ModuleError::CircularDependency { cycle }) => {
            assert_eq!(names(&cycle), vec!["b", "c", "b"]);
        }
        _ => panic!("Expected CircularDependency error"),
    }
}

#[test]
fn type_only_target_is_not_searched_from_its_importer() {
    // a -> b (type only): `a` is finished alone, `b` in its own turn
    let mut graph = DependencyGraph::new();
    graph.add_module(make_id("a"), vec![(make_id("b"), EdgeKind::TypeOnly)]);
    assert_eq!(names(&graph.topological_sort().unwrap()), vec!["a", "b"]);
}

#[test]
fn search_appends_what_it_reaches_and_the_start_last() {
    // b and c were finished by the search from b; the search from a adds d, then a
    let mut graph = DependencyGraph::new();
    graph.add_module(make_id("b"), vec![(make_id("c"), EdgeKind::Value)]);
    graph.add_module(
        make_id("a"),
        vec![(make_id("c"), EdgeKind::Value), (make_id("d"), EdgeKind::Value)],
    );
    graph.add_module(make_id("e"), vec![]);
    assert_eq!(names(&graph.topological_sort().unwrap()), vec!["c", "b", "d", "a", "e"]);
}

#[test]
fn modules_are_found_by_their_paths() {
    let mut graph = DependencyGraph::new();
    for i in 0..500 {
        graph.add_module(
            make_id(&format!("/src/m{}.luax", i)),
            vec![(make_id(&format!("/src/m{}.luax", (i * 7 + 1) % 500)), EdgeKind::TypeOnly)],
        );
    }
    assert_eq!(graph.modules().len(), 500);
    for i in 0..500 {
        let id = make_id(&format!("/src/m{}.luax", i));
        assert!(graph.contains(&id));
        let types = graph.get_type_dependencies(&id);
        assert_eq!(names(&types), vec![format!("/src/m{}.luax", (i * 7 + 1) % 500)]);
    }
    assert!(!graph.contains(&make_id("/src/m500.luax")));
    assert!(!graph.contains(&make_id("/src/m1.lua")));
    assert!(!graph.contains(&make_id("")));
}
