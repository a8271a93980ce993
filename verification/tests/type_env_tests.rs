use gitgrapher::config::Config;
use gitgrapher::symbol_table::{SymbolDefinition, SymbolTable};
use gitgrapher::type_env::{
    build_exported_type_map, resolve_fixpoint, simplify_type_name, AssignmentSource, PendingAssignment, TypeEnv,
};
use gitgrapher::types::{Language, NodeLabel};

fn pending(variable: &str, source: AssignmentSource, scope: &str) -> PendingAssignment {
    PendingAssignment {
        variable_name: variable.to_string(),
        assigned_from: source,
        scope: scope.to_string(),
        file_path: "src/app.ts".to_string(),
        resolved_type: None,
    }
}

#[test]
fn test_type_env_scope_lookup() {
    let mut env = TypeEnv::new();
    env.set_type("src/app.ts::main", "user", "User");

    assert_eq!(env.get_type("src/app.ts::main", "user").as_deref(), Some("User"));
    // Should not be visible in a different scope
    assert!(env.get_type("src/app.ts::other", "user").is_none());
}

#[test]
fn test_type_env_file_scope_fallback() {
    let mut env = TypeEnv::new();
    env.set_type("src/app.ts", "globalVar", "Config");

    // File-level variable should be visible from any scope in the file
    assert_eq!(env.get_type("src/app.ts::main", "globalVar").as_deref(), Some("Config"));
}

#[test]
fn test_fixpoint_resolves_constructors_immediately() {
    let config = Config::for_cpus(4);
    let mut env = TypeEnv::new();
    let return_types: Vec<(String, String)> = Vec::new();

    let mut pending = vec![pending("user", AssignmentSource::Constructor("User".to_string()), "src/app.ts::main")];

    let result = resolve_fixpoint(&mut pending, &mut env, &return_types, &config);
    assert!(result.converged);
    assert_eq!(result.total_resolved, 1);
    assert_eq!(result.iterations, 2); // 1 to resolve, 1 to confirm convergence
    assert_eq!(env.get_type("src/app.ts::main", "user").as_deref(), Some("User"));
}

#[test]
fn test_fixpoint_chain_resolution() {
    let config = Config::for_cpus(4);
    let mut env = TypeEnv::new();
    let return_types = vec![("getUser".to_string(), "User".to_string())];

    let mut pending = vec![
        // const user = getUser()
        pending("user", AssignmentSource::FunctionCall("getUser".to_string()), "src/app.ts::main"),
        // const name = user (needs user's type to resolve)
        pending("name", AssignmentSource::Variable("user".to_string()), "src/app.ts::main"),
    ];

    let result = resolve_fixpoint(&mut pending, &mut env, &return_types, &config);
    assert!(result.converged);
    assert_eq!(result.total_resolved, 2);
    assert_eq!(env.get_type("src/app.ts::main", "name").as_deref(), Some("User"));
}

#[test]
fn test_simplify_type_name() {
    assert_eq!(simplify_type_name("Promise<User>"), "User");
    assert_eq!(simplify_type_name("Array<string>"), "string");
    assert_eq!(simplify_type_name("User[]"), "User");
    assert_eq!(simplify_type_name("User | null"), "User");
    assert_eq!(simplify_type_name("User | undefined"), "User");
    assert_eq!(simplify_type_name("string"), "string");
}

#[test]
fn simplify_nested_and_nullish_unions() {
    assert_eq!(simplify_type_name("  Promise<Array<User>>  "), "User");
    assert_eq!(simplify_type_name("null | void | Account[]"), "Account");
    assert_eq!(simplify_type_name("null | undefined"), "null | undefined");
    assert_eq!(simplify_type_name(""), "");
}

#[test]
fn simplified_names_are_in_simplest_form() {
    for t in ["  Promise<Array<User>>  ", "null | void | Account[]", "null | undefined", "Map<K, V>[]", " Array<Promise<X | null>> "] {
        let once = simplify_type_name(t);
        assert_eq!(simplify_type_name(&once), once);
        assert_eq!(once.trim(), once);
        assert!(!once.ends_with("[]"));
    }
    assert_eq!(simplify_type_name("Map<K, V>[]"), "Map<K, V>");
    assert_eq!(simplify_type_name(" Array<Promise<X | null>> "), "X");
}

#[test]
fn latest_binding_wins_and_counts_once() {
    let mut env = TypeEnv::new();
    env.set_type("a.ts::f", "x", "Old");
    env.set_type("a.ts::f", "x", "New");
    env.set_type("a.ts", "y", "Y");
    assert_eq!(env.get_type("a.ts::f", "x").as_deref(), Some("New"));
    assert_eq!(env.binding_count(), 2);
    let all = env.all_bindings();
    assert_eq!(all.len(), 2);
    assert!(all.contains(&("a.ts::f".to_string(), "x".to_string(), "New".to_string())));
    assert!(all.contains(&("a.ts".to_string(), "y".to_string(), "Y".to_string())));
    // The file scope itself has no file scope to fall back to.
    assert!(env.get_type("a.ts", "x").is_none());
}

#[test]
fn constructor_bindings_feed_variable_assignments() {
    let config = Config::for_cpus(1);
    let mut env = TypeEnv::new();
    env.set_constructor_type("svc", "Service");
    assert_eq!(env.get_constructor_type("svc").as_deref(), Some("Service"));
    assert!(env.get_constructor_type("other").is_none());
    let mut pending = vec![
        pending("s2", AssignmentSource::Variable("svc".to_string()), "a.ts::main"),
        pending("t", AssignmentSource::TypeAnnotation("Token".to_string()), "a.ts::main"),
        pending("u", AssignmentSource::Variable("nowhere".to_string()), "a.ts::main"),
    ];
    let result = resolve_fixpoint(&mut pending, &mut env, &[], &config);
    assert!(result.converged);
    assert_eq!(result.total_resolved, 2);
    assert_eq!(result.iterations, 2);
    assert_eq!(pending[0].resolved_type.as_deref(), Some("Service"));
    assert_eq!(pending[1].resolved_type.as_deref(), Some("Token"));
    assert!(pending[2].resolved_type.is_none());
}

#[test]
fn fixpoint_stops_at_the_iteration_cap() {
    let mut config = Config::for_cpus(2);
    config.fixpoint_max_iterations = 1;
    let mut env = TypeEnv::new();
    // `b` is listed before `a`, so it is only resolved in the second round.
    let mut pending = vec![
        pending("b", AssignmentSource::Variable("a".to_string()), "m.ts::f"),
        pending("a", AssignmentSource::Constructor("A".to_string()), "m.ts::f"),
    ];
    let result = resolve_fixpoint(&mut pending, &mut env, &[], &config);
    assert!(!result.converged);
    assert_eq!(result.iterations, 1);
    assert_eq!(result.total_resolved, 1);
    assert!(pending[0].resolved_type.is_none());
}

#[test]
fn fixpoint_threshold_stops_after_small_gain() {
    let mut config = Config::for_cpus(2);
    // Stop when the newly resolved share is below 60%.
    config.fixpoint_convergence_threshold_ppm = 600_000;
    let mut env = TypeEnv::new();
    let mut pending = vec![
        pending("c", AssignmentSource::Variable("b".to_string()), "m.ts::f"),
        pending("b", AssignmentSource::Variable("a".to_string()), "m.ts::f"),
        pending("a", AssignmentSource::Constructor("A".to_string()), "m.ts::f"),
    ];
    // Round 1 resolves `a`, round 2 `b` (1 of 2 new: 50% < 60%).
    let result = resolve_fixpoint(&mut pending, &mut env, &[], &config);
    assert!(result.converged);
    assert_eq!(result.iterations, 2);
    assert_eq!(result.total_resolved, 2);
    assert!(pending[0].resolved_type.is_none());
}

fn def(name: &str, file: &str, exported: bool, return_type: Option<&str>) -> SymbolDefinition {
    SymbolDefinition {
        node_id: format!("Function:{file}:{name}"),
        name: name.to_string(),
        label: NodeLabel::Function,
        file_path: file.to_string(),
        language: Language::TypeScript,
        is_exported: exported,
        return_type: return_type.map(|s| s.to_string()),
        start_line: None,
        end_line: None,
    }
}

#[test]
fn exported_type_map_keeps_exported_typed_symbols() {
    let mut table = SymbolTable::new();
    table.insert(def("getUser", "a.ts", true, Some("User")));
    table.insert(def("helper", "a.ts", false, Some("Helper")));
    table.insert(def("noType", "a.ts", true, None));
    table.insert(def("long", "a.ts", true, Some(&"X".repeat(257))));
    table.insert(def("getUser", "a.ts", true, Some("Admin")));
    table.insert(def("internal", "b.ts", false, Some("B")));
    let paths = vec!["a.ts".to_string(), "b.ts".to_string(), "a.ts".to_string()];
    let map = build_exported_type_map(&table, &paths);
    assert_eq!(map.len(), 1);
    assert_eq!(map[0].0, "a.ts");
    assert_eq!(map[0].1, vec![("getUser".to_string(), "Admin".to_string())]);
}

#[test]
fn exported_type_map_caps_names_per_file() {
    let mut table = SymbolTable::new();
    for i in 0..600 {
        table.insert(def(&format!("f{i}"), "big.ts", true, Some("T")));
    }
    let map = build_exported_type_map(&table, &["big.ts".to_string()]);
    assert_eq!(map.len(), 1);
    assert_eq!(map[0].1.len(), 500);
    assert_eq!(map[0].1[499].0, "f499");
}

#[test]
fn simplifying_twice_changes_nothing() {
    for t in ["Promise<User>", "Array<string>", "User[]", "User | null", "null | undefined", "  Map<K, V>  ", "Promise<Array<User>>"] {
        let once = simplify_type_name(t);
        assert_eq!(simplify_type_name(&once), once);
    }
}
