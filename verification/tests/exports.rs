use typedlua_typechecker::module_resolver::dependency_graph::EdgeKind;
use typedlua_typechecker::module_resolver::error::{ModuleError, ModuleId};
use typedlua_typechecker::module_resolver::exports::{
    resolve_exports, ExportBinding, ExportDeclaration, ExportMode, ExportRegistry, ExportTable,
};

fn id(name: &str) -> ModuleId {
    ModuleId::new(name.to_string())
}

fn local(name: &str, mode: ExportMode) -> ExportDeclaration {
    ExportDeclaration::Local { name: name.to_string(), alias: None, mode }
}

fn named(name: &str, alias: Option<&str>, source: &str, mode: ExportMode) -> ExportDeclaration {
    ExportDeclaration::Named {
        name: name.to_string(),
        alias: alias.map(|text| text.to_string()),
        source: id(source),
        mode,
    }
}

fn wildcard(source: &str, type_only: bool) -> ExportDeclaration {
    ExportDeclaration::Wildcard { source: id(source), type_only }
}

/// A registry in which `module` exports `names` as its own values.
fn registry_with(entries: &[(&str, &[(&str, ExportMode)])]) -> ExportRegistry {
    let mut registry = ExportRegistry::new();
    for (module, names) in entries {
        let declarations: Vec<ExportDeclaration> =
            names.iter().map(|(name, mode)| local(name, *mode)).collect();
        let table = resolve_exports(&id(module), &declarations, &registry).unwrap();
        registry.insert(id(module), table);
    }
    registry
}

fn shape(binding: &ExportBinding) -> (String, ExportMode, String, String, bool) {
    (
        binding.external.clone(),
        binding.mode,
        binding.module.to_string(),
        binding.name.clone(),
        binding.deferred,
    )
}

fn entry(
    external: &str,
    mode: ExportMode,
    module: &str,
    name: &str,
    deferred: bool,
) -> (String, ExportMode, String, String, bool) {
    (external.to_string(), mode, module.to_string(), name.to_string(), deferred)
}

#[test]
fn local_export_binds_own_declaration() {
    let registry = ExportRegistry::new();
    let table = resolve_exports(&id("m"), &vec![local("foo", ExportMode::Value)], &registry).unwrap();
    assert_eq!(table.bindings().len(), 1);
    assert_eq!(
        shape(table.get("foo").unwrap()),
        entry("foo", ExportMode::Value, "m", "foo", false)
    );
    assert!(table.get("bar").is_none());
    assert!(table.pending().is_empty());
}

#[test]
fn local_export_with_alias_uses_the_alias_outside() {
    let registry = ExportRegistry::new();
    let declarations = vec![ExportDeclaration::Local {
        name: "inner".to_string(),
        alias: Some("outer".to_string()),
        mode: ExportMode::Type,
    }];
    let table = resolve_exports(&id("m"), &declarations, &registry).unwrap();
    assert!(table.get("inner").is_none());
    assert_eq!(
        shape(table.get("outer").unwrap()),
        entry("outer", ExportMode::Type, "m", "inner", false)
    );
}

#[test]
fn named_reexport_forwards_to_the_source() {
    let registry = registry_with(&[("s", &[("foo", ExportMode::Value)])]);
    let table =
        resolve_exports(&id("m"), &vec![named("foo", None, "s", ExportMode::Value)], &registry)
            .unwrap();
    assert_eq!(
        shape(table.get("foo").unwrap()),
        entry("foo", ExportMode::Value, "s", "foo", false)
    );
}

#[test]
fn named_reexport_with_alias_binds_the_alias() {
    let registry = registry_with(&[("s", &[("foo", ExportMode::Value)])]);
    let table = resolve_exports(
        &id("m"),
        &vec![named("foo", Some("bar"), "s", ExportMode::Value)],
        &registry,
    )
    .unwrap();
    assert!(table.get("foo").is_none());
    assert_eq!(
        shape(table.get("bar").unwrap()),
        entry("bar", ExportMode::Value, "s", "foo", false)
    );
}

#[test]
fn forwarding_follows_a_chain_to_its_end() {
    // a declares x; b forwards it as y; c forwards y as z
    let mut registry = registry_with(&[("a", &[("x", ExportMode::Value)])]);
    let b = resolve_exports(
        &id("b"),
        &vec![named("x", Some("y"), "a", ExportMode::Value)],
        &registry,
    )
    .unwrap();
    registry.insert(id("b"), b);
    let c = resolve_exports(
        &id("c"),
        &vec![named("y", Some("z"), "b", ExportMode::Value)],
        &registry,
    )
    .unwrap();
    assert_eq!(
        shape(c.get("z").unwrap()),
        entry("z", ExportMode::Value, "a", "x", false)
    );
}

#[test]
fn type_only_reexport_is_bound_in_type_mode() {
    let registry = registry_with(&[("types", &[("Foo", ExportMode::Type)])]);
    let table = resolve_exports(
        &id("m"),
        &vec![named("Foo", Some("Bar"), "types", ExportMode::Type)],
        &registry,
    )
    .unwrap();
    assert_eq!(
        shape(table.get("Bar").unwrap()),
        entry("Bar", ExportMode::Type, "types", "Foo", false)
    );
}

#[test]
fn type_only_reexport_from_unfinished_source_is_deferred() {
    let registry = ExportRegistry::new();
    let table = resolve_exports(
        &id("m"),
        &vec![named("Foo", None, "later", ExportMode::Type)],
        &registry,
    )
    .unwrap();
    assert_eq!(
        shape(table.get("Foo").unwrap()),
        entry("Foo", ExportMode::Type, "later", "Foo", true)
    );
}

#[test]
fn value_reexport_from_unfinished_source_is_not_compiled() {
    let registry = ExportRegistry::new();
    let result =
        resolve_exports(&id("m"), &vec![named("foo", None, "later", ExportMode::Value)], &registry);
    match result {
        Err(ModuleError::NotCompiled { id }) => assert_eq!(id.as_str(), "later"),
        _ => panic!("expected NotCompiled"),
    }
}

#[test]
fn reexport_of_a_missing_name_is_export_not_found() {
    let registry = registry_with(&[("s", &[("foo", ExportMode::Value)])]);
    let result =
        resolve_exports(&id("m"), &vec![named("nope", None, "s", ExportMode::Value)], &registry);
    match result {
        Err(ModuleError::ExportNotFound { module_id, export_name }) => {
            assert_eq!(module_id.as_str(), "s");
            assert_eq!(export_name, "nope");
        }
        _ => panic!("expected ExportNotFound"),
    }
}

#[test]
fn reexport_as_value_and_as_type_is_a_duplicate_export() {
    // export { foo } from './module'
    // export type { foo } from './module'
    let registry = registry_with(&[("./module", &[("foo", ExportMode::Value)])]);
    let declarations = vec![
        named("foo", None, "./module", ExportMode::Value),
        named("foo", None, "./module", ExportMode::Type),
    ];
    let result = resolve_exports(&id("m"), &declarations, &registry);
    assert!(
        result.is_err(),
        "Cannot have duplicate export with different modes"
    );
    match result {
        Err(ModuleError::DuplicateExport { module_id, export_name }) => {
            assert_eq!(module_id.as_str(), "m");
            assert_eq!(export_name, "foo");
        }
        _ => panic!("expected DuplicateExport"),
    }
}

#[test]
fn local_value_and_type_of_one_name_is_a_duplicate_export() {
    let registry = ExportRegistry::new();
    let declarations = vec![local("foo", ExportMode::Value), local("foo", ExportMode::Type)];
    match resolve_exports(&id("m"), &declarations, &registry) {
        Err(ModuleError::DuplicateExport { module_id, export_name }) => {
            assert_eq!(module_id.as_str(), "m");
            assert_eq!(export_name, "foo");
        }
        _ => panic!("expected DuplicateExport"),
    }
    // the other way round too
    let declarations = vec![local("foo", ExportMode::Type), local("foo", ExportMode::Value)];
    assert!(matches!(
        resolve_exports(&id("m"), &declarations, &registry),
        Err(ModuleError::DuplicateExport { .. })
    ));
}

#[test]
fn alias_that_meets_another_name_in_the_other_mode_is_a_duplicate_export() {
    let registry = ExportRegistry::new();
    let declarations = vec![
        local("foo", ExportMode::Value),
        ExportDeclaration::Local {
            name: "Bar".to_string(),
            alias: Some("foo".to_string()),
            mode: ExportMode::Type,
        },
    ];
    assert!(matches!(
        resolve_exports(&id("m"), &declarations, &registry),
        Err(ModuleError::DuplicateExport { .. })
    ));
}

#[test]
fn same_name_in_the_same_mode_keeps_the_first_binding() {
    let registry = registry_with(&[
        ("a", &[("foo", ExportMode::Value)]),
        ("b", &[("foo", ExportMode::Value)]),
    ]);
    let declarations = vec![
        named("foo", None, "a", ExportMode::Value),
        named("foo", None, "b", ExportMode::Value),
    ];
    let table = resolve_exports(&id("m"), &declarations, &registry).unwrap();
    assert_eq!(table.bindings().len(), 1);
    assert_eq!(
        shape(table.get("foo").unwrap()),
        entry("foo", ExportMode::Value, "a", "foo", false)
    );
}

#[test]
fn wildcard_takes_over_every_export_of_the_source() {
    // export * from './module'
    let registry = registry_with(&[(
        "./module",
        &[("foo", ExportMode::Value), ("Shape", ExportMode::Type)],
    )]);
    let result = resolve_exports(&id("m"), &vec![wildcard("./module", false)], &registry);
    assert!(result.is_ok(), "export * should type check");
    let table = result.unwrap();
    let all: Vec<_> = table.bindings().iter().map(shape).collect();
    assert_eq!(
        all,
        vec![
            entry("foo", ExportMode::Value, "./module", "foo", false),
            entry("Shape", ExportMode::Type, "./module", "Shape", false),
        ]
    );
}

#[test]
fn wildcards_from_two_sources_merge() {
    // export * from './module_a'
    // export * from './module_b'
    let registry = registry_with(&[
        ("./module_a", &[("foo", ExportMode::Value), ("shared", ExportMode::Value)]),
        ("./module_b", &[("shared", ExportMode::Value), ("bar", ExportMode::Type)]),
    ]);
    let declarations = vec![wildcard("./module_a", false), wildcard("./module_b", false)];
    let result = resolve_exports(&id("m"), &declarations, &registry);
    assert!(result.is_ok(), "Multiple export * should type check");
    let table = result.unwrap();
    let all: Vec<_> = table.bindings().iter().map(shape).collect();
    assert_eq!(
        all,
        vec![
            entry("foo", ExportMode::Value, "./module_a", "foo", false),
            entry("shared", ExportMode::Value, "./module_a", "shared", false),
            entry("bar", ExportMode::Type, "./module_b", "bar", false),
        ]
    );
}

#[test]
fn wildcards_that_disagree_in_mode_are_a_duplicate_export() {
    let registry = registry_with(&[
        ("a", &[("shared", ExportMode::Value)]),
        ("b", &[("shared", ExportMode::Type)]),
    ]);
    let declarations = vec![wildcard("a", false), wildcard("b", false)];
    match resolve_exports(&id("m"), &declarations, &registry) {
        Err(ModuleError::DuplicateExport { module_id, export_name }) => {
            assert_eq!(module_id.as_str(), "m");
            assert_eq!(export_name, "shared");
        }
        _ => panic!("expected DuplicateExport"),
    }
}

#[test]
fn type_only_wildcard_takes_over_the_exports_of_a_finished_source() {
    // export type * from './module'
    let registry = registry_with(&[("./module", &[("Shape", ExportMode::Type)])]);
    let result = resolve_exports(&id("m"), &vec![wildcard("./module", true)], &registry);
    assert!(
        result.is_ok(),
        "export type * should type check and not generate code"
    );
    assert_eq!(
        shape(result.unwrap().get("Shape").unwrap()),
        entry("Shape", ExportMode::Type, "./module", "Shape", false)
    );
}

#[test]
fn type_only_wildcard_from_unfinished_source_is_pending() {
    let registry = ExportRegistry::new();
    let table = resolve_exports(&id("m"), &vec![wildcard("later", true)], &registry).unwrap();
    assert!(table.bindings().is_empty());
    let pending: Vec<&str> = table.pending().iter().map(|id| id.as_str()).collect();
    assert_eq!(pending, vec!["later"]);
}

#[test]
fn value_wildcard_from_unfinished_source_is_not_compiled() {
    let registry = ExportRegistry::new();
    assert!(matches!(
        resolve_exports(&id("m"), &vec![wildcard("later", false)], &registry),
        Err(ModuleError::NotCompiled { .. })
    ));
}

#[test]
fn wildcard_and_named_reexports_mix() {
    // export * from './module_a'
    // export { foo, bar } from './module_b'
    let registry = registry_with(&[
        ("./module_a", &[("a1", ExportMode::Value)]),
        ("./module_b", &[("foo", ExportMode::Value), ("bar", ExportMode::Value)]),
    ]);
    let declarations = vec![
        wildcard("./module_a", false),
        named("foo", None, "./module_b", ExportMode::Value),
        named("bar", None, "./module_b", ExportMode::Value),
    ];
    let result = resolve_exports(&id("m"), &declarations, &registry);
    assert!(
        result.is_ok(),
        "export * and named re-exports mixed should type check"
    );
    let names: Vec<String> =
        result.unwrap().bindings().iter().map(|b| b.external.clone()).collect();
    assert_eq!(names, vec!["a1", "foo", "bar"]);
}

#[test]
fn local_exports_and_reexports_mix() {
    // export const localVar = 42
    // export { foo } from './module'
    let registry = registry_with(&[("./module", &[("foo", ExportMode::Value)])]);
    let declarations = vec![
        local("localVar", ExportMode::Value),
        named("foo", None, "./module", ExportMode::Value),
    ];
    let result = resolve_exports(&id("m"), &declarations, &registry);
    assert!(
        result.is_ok(),
        "Mixed local and re-exports should type check"
    );
    let table = result.unwrap();
    assert_eq!(
        shape(table.get("localVar").unwrap()),
        entry("localVar", ExportMode::Value, "m", "localVar", false)
    );
    assert_eq!(
        shape(table.get("foo").unwrap()),
        entry("foo", ExportMode::Value, "./module", "foo", false)
    );
}

#[test]
fn value_and_type_reexports_of_different_names_mix() {
    // export { foo } from './module'
    // export type { Bar } from './types'
    let registry = registry_with(&[
        ("./module", &[("foo", ExportMode::Value)]),
        ("./types", &[("Bar", ExportMode::Type)]),
    ]);
    let declarations = vec![
        named("foo", None, "./module", ExportMode::Value),
        named("Bar", None, "./types", ExportMode::Type),
    ];
    let result = resolve_exports(&id("m"), &declarations, &registry);
    assert!(
        result.is_ok(),
        "Mixed value and type re-exports should type check"
    );
    let table = result.unwrap();
    assert_eq!(table.get("foo").unwrap().mode, ExportMode::Value);
    assert_eq!(table.get("Bar").unwrap().mode, ExportMode::Type);
}

#[test]
fn declarations_classify_their_graph_edges() {
    assert!(local("foo", ExportMode::Value).edge().is_none());
    let (target, kind) = named("foo", None, "s", ExportMode::Value).edge().unwrap();
    assert_eq!((target.as_str(), kind), ("s", EdgeKind::Value));
    let (target, kind) = named("Foo", None, "t", ExportMode::Type).edge().unwrap();
    assert_eq!((target.as_str(), kind), ("t", EdgeKind::TypeOnly));
    let (target, kind) = wildcard("w", false).edge().unwrap();
    assert_eq!((target.as_str(), kind), ("w", EdgeKind::Value));
    let (target, kind) = wildcard("w", true).edge().unwrap();
    assert_eq!((target.as_str(), kind), ("w", EdgeKind::TypeOnly));
}

#[test]
fn bind_keeps_the_table_on_a_conflict() {
    let owner = id("m");
    let mut table = ExportTable::new();
    let first = ExportBinding {
        external: "foo".to_string(),
        mode: ExportMode::Value,
        module: id("m"),
        name: "foo".to_string(),
        deferred: false,
    };
    let mut second = first.clone();
    second.mode = ExportMode::Type;
    assert!(table.bind(&owner, first).is_ok());
    assert!(matches!(
        table.bind(&owner, second),
        Err(ModuleError::DuplicateExport { .. })
    ));
    assert_eq!(table.bindings().len(), 1);
    assert_eq!(table.get("foo").unwrap().mode, ExportMode::Value);
}

#[test]
fn registry_replaces_the_table_of_a_module() {
    let mut registry = ExportRegistry::new();
    assert!(registry.get(&id("m")).is_none());
    let empty = ExportRegistry::new();
    let one = resolve_exports(&id("m"), &vec![local("a", ExportMode::Value)], &empty).unwrap();
    let two = resolve_exports(&id("m"), &vec![local("b", ExportMode::Value)], &empty).unwrap();
    registry.insert(id("m"), one);
    assert!(registry.get(&id("m")).unwrap().get("a").is_some());
    registry.insert(id("m"), two);
    assert!(registry.get(&id("m")).unwrap().get("a").is_none());
    assert!(registry.get(&id("m")).unwrap().get("b").is_some());
    assert!(registry.get(&id("other")).is_none());
}

#[test]
fn failed_declaration_makes_no_table_even_when_it_comes_last() {
    let registry = registry_with(&[("s", &[("foo", ExportMode::Value)])]);
    let declarations = vec![
        local("a", ExportMode::Value),
        named("foo", None, "s", ExportMode::Value),
        named("missing", None, "s", ExportMode::Value),
    ];
    assert!(matches!(
        resolve_exports(&id("m"), &declarations, &registry),
        Err(ModuleError::ExportNotFound { .. })
    ));
}

#[test]
fn duplicate_export_message_names_the_export_and_the_module() {
    let error = ModuleError::DuplicateExport {
        module_id: id("m.luax"),
        export_name: "foo".to_string(),
    };
    assert_eq!(error.to_string(), "Duplicate export 'foo' in module 'm.luax'");
}

#[test]
fn failed_wildcard_leaves_the_table_as_it_was() {
    let registry = registry_with(&[(
        "s",
        &[("fresh", ExportMode::Value), ("foo", ExportMode::Type), ("late", ExportMode::Value)],
    )]);
    let owner = id("m");
    let mut table = ExportTable::new();
    assert!(table.declare(&owner, &local("foo", ExportMode::Value), &registry).is_ok());
    // `fresh` could be bound, `foo` conflicts: nothing of the wildcard stays
    let done = table.declare(&owner, &wildcard("s", false), &registry);
    assert!(matches!(done, Err(ModuleError::DuplicateExport { .. })));
    let names: Vec<&str> = table.bindings().iter().map(|b| b.external.as_str()).collect();
    assert_eq!(names, vec!["foo"]);
    assert!(table.get("fresh").is_none());
    assert!(table.get("late").is_none());
    assert_eq!(table.get("foo").unwrap().mode, ExportMode::Value);
    // the table still takes declarations
    assert!(table.declare(&owner, &local("bar", ExportMode::Type), &registry).is_ok());
    assert_eq!(table.bindings().len(), 2);
}

#[test]
fn failed_named_forward_leaves_the_table_as_it_was() {
    let registry = registry_with(&[("s", &[("foo", ExportMode::Value)])]);
    let owner = id("m");
    let mut table = ExportTable::new();
    assert!(table.declare(&owner, &local("a", ExportMode::Value), &registry).is_ok());
    assert!(table.declare(&owner, &named("missing", None, "s", ExportMode::Value), &registry).is_err());
    assert!(table.declare(&owner, &named("x", None, "later", ExportMode::Value), &registry).is_err());
    assert!(table.declare(&owner, &wildcard("later", false), &registry).is_err());
    assert_eq!(table.bindings().len(), 1);
    assert!(table.pending().is_empty());
}
