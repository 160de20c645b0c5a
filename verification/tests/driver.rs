use typedlua_typechecker::driver::{
    bind_import, build_graph, cached_verdict, resolve_modules, unit_edges, ModuleUnit,
};
use typedlua_typechecker::module_resolver::dependency_graph::EdgeKind;
use typedlua_typechecker::module_resolver::error::{ModuleError, ModuleId};
use typedlua_typechecker::module_resolver::exports::{
    ExportDeclaration, ExportMode, ExportRegistry,
};
use typedlua_typechecker::type_relations::TypeRelationCache;

fn id(name: &str) -> ModuleId {
    ModuleId::new(name.to_string())
}

fn local(name: &str, mode: ExportMode) -> ExportDeclaration {
    ExportDeclaration::Local { name: name.to_string(), alias: None, mode }
}

fn named(name: &str, source: &str, mode: ExportMode) -> ExportDeclaration {
    ExportDeclaration::Named { name: name.to_string(), alias: None, source: id(source), mode }
}

fn unit(name: &str, imports: Vec<(&str, EdgeKind)>, exports: Vec<ExportDeclaration>) -> ModuleUnit {
    ModuleUnit {
        id: id(name),
        imports: imports.into_iter().map(|(target, kind)| (id(target), kind)).collect(),
        exports,
    }
}

fn names(order: &[ModuleId]) -> Vec<&str> {
    order.iter().map(|id| id.as_str()).collect()
}

#[test]
fn unit_edges_are_imports_then_forwards() {
    let unit = unit(
        "m",
        vec![("a", EdgeKind::Value), ("b", EdgeKind::TypeOnly)],
        vec![
            local("own", ExportMode::Value),
            named("x", "c", ExportMode::Value),
            named("T", "d", ExportMode::Type),
            ExportDeclaration::Wildcard { source: id("e"), type_only: false },
            ExportDeclaration::Wildcard { source: id("f"), type_only: true },
        ],
    );
    let edges: Vec<(String, EdgeKind)> =
        unit_edges(&unit).into_iter().map(|(target, kind)| (target.to_string(), kind)).collect();
    assert_eq!(
        edges,
        vec![
            ("a".to_string(), EdgeKind::Value),
            ("b".to_string(), EdgeKind::TypeOnly),
            ("c".to_string(), EdgeKind::Value),
            ("d".to_string(), EdgeKind::TypeOnly),
            ("e".to_string(), EdgeKind::Value),
            ("f".to_string(), EdgeKind::TypeOnly),
        ]
    );
}

#[test]
fn build_graph_registers_every_unit() {
    let units = vec![
        unit("a", vec![("b", EdgeKind::Value)], vec![named("x", "c", ExportMode::Value)]),
        unit("b", vec![], vec![]),
    ];
    let graph = build_graph(&units);
    assert!(graph.contains(&id("a")));
    assert!(graph.contains(&id("b")));
    assert!(graph.contains(&id("c")));
    assert_eq!(names(&graph.get_value_dependencies(&id("a"))), vec!["b", "c"]);
    assert!(graph.get_dependencies(&id("c")).is_none());
    assert!(graph.get_dependencies(&id("b")).unwrap().is_empty());
}

#[test]
fn chain_of_forwards_resolves_in_dependency_order() {
    // c declares x; b forwards it; a forwards it from b
    let units = vec![
        unit("a", vec![], vec![named("x", "b", ExportMode::Value)]),
        unit("b", vec![], vec![named("x", "c", ExportMode::Value)]),
        unit("c", vec![], vec![local("x", ExportMode::Value)]),
    ];
    let resolution = resolve_modules(&units).unwrap();
    assert_eq!(names(&resolution.order), vec!["c", "b", "a"]);
    let a = resolution.exports.get(&id("a")).unwrap();
    let binding = a.get("x").unwrap();
    assert_eq!(binding.module.as_str(), "c");
    assert_eq!(binding.name, "x");
    assert!(!binding.deferred);
    assert_eq!(binding.mode, ExportMode::Value);
}

#[test]
fn value_cycle_between_forwards_is_a_circular_dependency() {
    let units = vec![
        unit("a", vec![], vec![named("x", "b", ExportMode::Value)]),
        unit("b", vec![], vec![named("x", "a", ExportMode::Value)]),
    ];
    match resolve_modules(&units) {
        Err(ModuleError::CircularDependency { cycle }) => {
            assert_eq!(names(&cycle), vec!["a", "b", "a"]);
        }
        _ => panic!("expected CircularDependency"),
    }
}

#[test]
fn type_only_cycle_between_forwards_resolves() {
    let units = vec![
        unit("a", vec![], vec![local("A", ExportMode::Type), named("B", "b", ExportMode::Type)]),
        unit("b", vec![], vec![local("B", ExportMode::Type), named("A", "a", ExportMode::Type)]),
    ];
    let resolution = resolve_modules(&units).unwrap();
    assert_eq!(names(&resolution.order), vec!["a", "b"]);
    // a was made first, when b had no table: its forward is deferred
    let a = resolution.exports.get(&id("a")).unwrap();
    assert!(a.get("B").unwrap().deferred);
    assert_eq!(a.get("B").unwrap().module.as_str(), "b");
    // b was made after a: its forward is followed to a's own declaration
    let b = resolution.exports.get(&id("b")).unwrap();
    assert!(!b.get("A").unwrap().deferred);
    assert_eq!(b.get("A").unwrap().module.as_str(), "a");
}

#[test]
fn module_without_a_unit_gets_an_empty_table() {
    let units = vec![unit("a", vec![("lib", EdgeKind::Value)], vec![local("x", ExportMode::Value)])];
    let resolution = resolve_modules(&units).unwrap();
    assert_eq!(names(&resolution.order), vec!["lib", "a"]);
    assert!(resolution.exports.get(&id("lib")).unwrap().bindings().is_empty());
    assert_eq!(resolution.exports.get(&id("a")).unwrap().bindings().len(), 1);
}

#[test]
fn forward_of_a_name_that_the_source_lacks_fails() {
    let units = vec![
        unit("a", vec![], vec![named("nope", "b", ExportMode::Value)]),
        unit("b", vec![], vec![local("x", ExportMode::Value)]),
    ];
    match resolve_modules(&units) {
        Err(ModuleError::ExportNotFound { module_id, export_name }) => {
            assert_eq!(module_id.as_str(), "b");
            assert_eq!(export_name, "nope");
        }
        _ => panic!("expected ExportNotFound"),
    }
}

#[test]
fn duplicate_export_ends_the_whole_resolution() {
    let units = vec![
        unit("a", vec![], vec![local("x", ExportMode::Value)]),
        unit("b", vec![], vec![local("y", ExportMode::Value), local("y", ExportMode::Type)]),
    ];
    match resolve_modules(&units) {
        Err(ModuleError::DuplicateExport { module_id, export_name }) => {
            assert_eq!(module_id.as_str(), "b");
            assert_eq!(export_name, "y");
        }
        _ => panic!("expected DuplicateExport"),
    }
}

#[test]
fn later_registration_of_a_module_replaces_the_earlier_one() {
    let units = vec![
        unit("a", vec![("b", EdgeKind::Value)], vec![local("old", ExportMode::Value)]),
        unit("b", vec![], vec![]),
        unit("a", vec![], vec![local("new", ExportMode::Value)]),
    ];
    let graph = build_graph(&units);
    assert!(graph.get_value_dependencies(&id("a")).is_empty());
    let resolution = resolve_modules(&units).unwrap();
    let a = resolution.exports.get(&id("a")).unwrap();
    assert!(a.get("old").is_none());
    assert!(a.get("new").is_some());
}

#[test]
fn no_units_resolve_to_nothing() {
    let resolution = resolve_modules(&Vec::new()).unwrap();
    assert!(resolution.order.is_empty());
    assert!(resolution.exports.get(&id("a")).is_none());
}

#[test]
fn import_is_bound_to_what_the_source_exports() {
    let units = vec![
        unit("a", vec![("b", EdgeKind::Value)], vec![]),
        unit("b", vec![], vec![named("x", "c", ExportMode::Value)]),
        unit("c", vec![], vec![local("x", ExportMode::Value)]),
    ];
    let resolution = resolve_modules(&units).unwrap();
    let binding = bind_import(&resolution.exports, &id("b"), "x").unwrap();
    assert_eq!(binding.module.as_str(), "c");
    assert_eq!(binding.name, "x");
    assert_eq!(binding.mode, ExportMode::Value);
}

#[test]
fn import_of_a_missing_name_is_export_not_found() {
    let units = vec![unit("b", vec![], vec![local("x", ExportMode::Value)])];
    let resolution = resolve_modules(&units).unwrap();
    match bind_import(&resolution.exports, &id("b"), "unknown_function") {
        Err(ModuleError::ExportNotFound { module_id, export_name }) => {
            assert_eq!(module_id.as_str(), "b");
            assert_eq!(export_name, "unknown_function");
        }
        _ => panic!("expected ExportNotFound"),
    }
}

#[test]
fn import_from_a_module_without_a_table_is_not_compiled() {
    let exports = ExportRegistry::new();
    match bind_import(&exports, &id("test.luax"), "x") {
        Err(error @ ModuleError::NotCompiled { .. }) => {
            assert_eq!(error.to_string(), "Module 'test.luax' has not been compiled yet");
        }
        _ => panic!("expected NotCompiled"),
    }
}

#[test]
fn cached_verdict_decides_once_for_a_pair() {
    let mut cache = TypeRelationCache::new();
    let mut calls = 0;
    assert!(cached_verdict(&mut cache, 1, 2, || {
        calls += 1;
        true
    }));
    assert!(cached_verdict(&mut cache, 1, 2, || {
        calls += 1;
        false
    }));
    assert_eq!(calls, 1);
    assert_eq!((cache.hit_count(), cache.miss_count()), (1, 1));
    // the reversed pair is decided on its own
    assert!(!cached_verdict(&mut cache, 2, 1, || {
        calls += 1;
        false
    }));
    assert_eq!(calls, 2);
    assert_eq!((cache.hit_count(), cache.miss_count()), (1, 2));
    assert_eq!(cache.get(2, 1), Some(false));
}
