use gitgrapher::call_resolver::{build_implementor_map, CallResolver, ImplementorMap};
use gitgrapher::heritage_resolver::{edge_confidence, HeritageResolver};
use gitgrapher::resolution::{ResolutionContext, ResolutionTier};
use gitgrapher::symbol_table::{SymbolDefinition, SymbolTable};
use gitgrapher::types::{ExtractedCall, ExtractedHeritage, HeritageKind, Language, NodeLabel, RelationType};

fn make_def(name: &str, file: &str, label: NodeLabel) -> SymbolDefinition {
    SymbolDefinition {
        node_id: format!("{file}::{name}::1"),
        name: name.to_string(),
        label,
        file_path: file.to_string(),
        language: Language::TypeScript,
        is_exported: true,
        return_type: None,
        start_line: Some(1),
        end_line: Some(10),
    }
}

fn make_def_50(name: &str, file: &str, label: NodeLabel) -> SymbolDefinition {
    let mut d = make_def(name, file, label);
    d.end_line = Some(50);
    d
}

fn symbols_of(defs: Vec<SymbolDefinition>) -> SymbolTable {
    let mut t = SymbolTable::new();
    for d in defs {
        t.insert(d);
    }
    t
}

fn make_table_def(name: &str, file: &str, exported: bool) -> SymbolDefinition {
    SymbolDefinition {
        node_id: format!("{file}::{name}"),
        name: name.to_string(),
        label: NodeLabel::Function,
        file_path: file.to_string(),
        language: Language::TypeScript,
        is_exported: exported,
        return_type: None,
        start_line: Some(1),
        end_line: Some(10),
    }
}

#[test]
fn test_insert_and_lookup() {
    let mut table = SymbolTable::new();
    table.insert(make_table_def("foo", "src/a.ts", true));
    table.insert(make_table_def("bar", "src/a.ts", false));
    table.insert(make_table_def("foo", "src/b.ts", true));

    assert_eq!(table.lookup_in_file("src/a.ts", "foo").len(), 1);
    assert_eq!(table.lookup_global("foo").len(), 2);
    assert_eq!(table.lookup_exported("bar").len(), 0);
    assert_eq!(table.total_symbols(), 3);
}

#[test]
fn symbol_table_test_remove_file() {
    let mut table = SymbolTable::new();
    table.insert(make_table_def("foo", "src/a.ts", true));
    table.insert(make_table_def("foo", "src/b.ts", true));

    table.remove_file("src/a.ts");
    assert_eq!(table.lookup_global("foo").len(), 1);
    assert!(table.lookup_in_file("src/a.ts", "foo").is_empty());
}

#[test]
fn symbols_in_file_keeps_insertion_order() {
    let mut table = SymbolTable::new();
    table.insert(make_table_def("b", "src/a.ts", true));
    table.insert(make_table_def("x", "src/c.ts", true));
    table.insert(make_table_def("a", "src/a.ts", true));
    let names: Vec<String> = table.symbols_in_file("src/a.ts").into_iter().map(|d| d.name).collect();
    assert_eq!(names, vec!["b".to_string(), "a".to_string()]);
}

#[test]
fn test_same_file_resolution() {
    let symbols = symbols_of(vec![make_def("User", "src/models.ts", NodeLabel::Class)]);

    let mut ctx = ResolutionContext::new();
    let result = ctx.resolve("User", "src/models.ts", &symbols).unwrap();

    assert_eq!(result.tier, ResolutionTier::SameFile);
    assert_eq!(result.candidates.len(), 1);
    assert_eq!(result.candidates[0].confidence, 950);
}

#[test]
fn test_import_scoped_resolution() {
    let symbols = symbols_of(vec![
        make_def("User", "src/models.ts", NodeLabel::Class),
        make_def("User", "lib/models.ts", NodeLabel::Class),
    ]);

    let mut ctx = ResolutionContext::new();
    ctx.add_import_edge("src/app.ts".to_string(), "src/models.ts".to_string());

    let result = ctx.resolve("User", "src/app.ts", &symbols).unwrap();
    assert_eq!(result.tier, ResolutionTier::ImportScoped);
    assert_eq!(result.candidates.len(), 1);
    assert_eq!(result.candidates[0].definition.file_path.as_str(), "src/models.ts");
}

#[test]
fn test_named_binding_resolution() {
    let symbols = symbols_of(vec![make_def("User", "src/models.ts", NodeLabel::Class)]);

    let mut ctx = ResolutionContext::new();
    ctx.add_named_binding(
        "src/app.ts".to_string(),
        "U".to_string(),
        "src/models.ts".to_string(),
        "User".to_string(),
    );

    let result = ctx.resolve("U", "src/app.ts", &symbols).unwrap();
    assert_eq!(result.tier, ResolutionTier::ImportScoped);
    assert_eq!(result.candidates[0].definition.name.as_str(), "User");
}

#[test]
fn test_binding_chain_resolution() {
    let symbols = symbols_of(vec![make_def("User", "src/models/user.ts", NodeLabel::Class)]);

    let mut ctx = ResolutionContext::new();
    ctx.add_named_binding(
        "src/app.ts".to_string(),
        "User".to_string(),
        "src/models/index.ts".to_string(),
        "User".to_string(),
    );
    ctx.add_named_binding(
        "src/models/index.ts".to_string(),
        "User".to_string(),
        "src/models/user.ts".to_string(),
        "User".to_string(),
    );

    let result = ctx.resolve("User", "src/app.ts", &symbols).unwrap();
    assert_eq!(result.tier, ResolutionTier::ImportScoped);
    assert_eq!(result.candidates[0].definition.file_path.as_str(), "src/models/user.ts");
}

#[test]
fn test_global_fallback() {
    let symbols = symbols_of(vec![make_def("User", "src/models.ts", NodeLabel::Class)]);

    let mut ctx = ResolutionContext::new();
    let result = ctx.resolve("User", "src/app.ts", &symbols).unwrap();
    assert_eq!(result.tier, ResolutionTier::Global);
    assert_eq!(result.candidates[0].confidence, 500);
}

#[test]
fn test_unresolvable() {
    let symbols = SymbolTable::new();
    let mut ctx = ResolutionContext::new();
    assert!(ctx.resolve("Nonexistent", "src/app.ts", &symbols).is_none());
}

#[test]
fn module_alias_resolution_and_stale_cache() {
    let symbols = symbols_of(vec![
        make_def("models", "src/models.py", NodeLabel::Variable),
        make_def("models", "lib/other.py", NodeLabel::Variable),
    ]);
    let mut ctx = ResolutionContext::new();
    // Before the alias is known, the name is global and ambiguous.
    let before = ctx.resolve("models", "src/app.py", &symbols).unwrap();
    assert_eq!(before.tier, ResolutionTier::Global);
    assert_eq!(before.candidates.len(), 2);
    ctx.add_module_alias("src/app.py".to_string(), "models".to_string(), "src/models.py".to_string());
    // The cached answer stands until the cache is cleared.
    assert_eq!(ctx.resolve("models", "src/app.py", &symbols).unwrap().tier, ResolutionTier::Global);
    ctx.clear_cache();
    let after = ctx.resolve("models", "src/app.py", &symbols).unwrap();
    assert_eq!(after.tier, ResolutionTier::ImportScoped);
    assert_eq!(after.candidates.len(), 1);
    assert_eq!(after.candidates[0].definition.file_path, "src/models.py");
    let stats = ctx.stats();
    assert_eq!(stats.module_aliases, 1);
    assert_eq!(stats.import_edges, 0);
}

#[test]
fn imports_of_and_named_bindings() {
    let mut ctx = ResolutionContext::new();
    assert!(ctx.imports_of("src/app.ts").is_none());
    ctx.add_import_edge("src/app.ts".to_string(), "src/a.ts".to_string());
    ctx.add_import_edge("src/app.ts".to_string(), "src/a.ts".to_string());
    ctx.add_import_edge("src/app.ts".to_string(), "src/b.ts".to_string());
    assert_eq!(ctx.imports_of("src/app.ts").unwrap(), vec!["src/a.ts".to_string(), "src/b.ts".to_string()]);
    assert!(ctx.named_bindings("src/app.ts").is_none());
    ctx.add_named_binding("src/app.ts".into(), "U".into(), "src/a.ts".into(), "User".into());
    let b = ctx.named_bindings("src/app.ts").unwrap();
    assert_eq!(b.len(), 1);
    assert_eq!(b[0].0, "U");
    assert_eq!(b[0].1.exported_name, "User");
}

#[test]
fn test_resolve_same_file_call() {
    let symbols = symbols_of(vec![make_def_50("greet", "src/app.ts", NodeLabel::Function)]);

    let mut ctx = ResolutionContext::new();

    let calls = vec![ExtractedCall {
        caller_id: "src/app.ts::main::1".to_string(),
        callee_name: "greet".to_string(),
        receiver: None,
        file_path: "src/app.ts".to_string(),
        line: 5,
        arguments_count: 1,
    }];

    let targets = CallResolver::resolve_calls(&calls, "src/app.ts", &mut ctx, &symbols, &ImplementorMap::new());

    assert_eq!(targets.len(), 1);
    assert_eq!(targets[0].confidence, 950);
}

#[test]
fn test_resolve_cross_file_call() {
    let symbols = symbols_of(vec![make_def_50("getUser", "src/user-service.ts", NodeLabel::Function)]);

    let mut ctx = ResolutionContext::new();
    ctx.add_named_binding(
        "src/app.ts".to_string(),
        "getUser".to_string(),
        "src/user-service.ts".to_string(),
        "getUser".to_string(),
    );

    let calls = vec![ExtractedCall {
        caller_id: "src/app.ts::main::1".to_string(),
        callee_name: "getUser".to_string(),
        receiver: None,
        file_path: "src/app.ts".to_string(),
        line: 5,
        arguments_count: 1,
    }];

    let targets = CallResolver::resolve_calls(&calls, "src/app.ts", &mut ctx, &symbols, &ImplementorMap::new());

    assert_eq!(targets.len(), 1);
    assert_eq!(targets[0].target_node_id.as_str(), "src/user-service.ts::getUser::1");
}

#[test]
fn member_calls_use_receiver_type_and_interface_dispatch() {
    let mut repo = make_def_50("Repo", "src/repo.ts", NodeLabel::Interface);
    repo.start_line = Some(1);
    let mut save = make_def_50("save", "src/repo.ts", NodeLabel::Method);
    save.start_line = Some(5);
    let mut impl_save = make_def_50("save", "src/sql.ts", NodeLabel::Method);
    impl_save.node_id = "src/sql.ts::save::7".to_string();
    let symbols = symbols_of(vec![repo, save, impl_save]);
    let mut ctx = ResolutionContext::new();
    ctx.add_named_binding("src/app.ts".into(), "repo".into(), "src/repo.ts".into(), "Repo".into());
    let heritage = vec![(
        "src/sql.ts".to_string(),
        ExtractedHeritage {
            child_id: "src/sql.ts::SqlRepo::1".to_string(),
            parent_name: "Repo".to_string(),
            kind: HeritageKind::Implements,
            file_path: "src/sql.ts".to_string(),
        },
    )];
    let impls = build_implementor_map(&heritage);
    assert_eq!(impls.get("Repo"), vec!["src/sql.ts".to_string()]);
    let calls = vec![ExtractedCall {
        caller_id: "src/app.ts::main::1".to_string(),
        callee_name: "save".to_string(),
        receiver: Some("repo".to_string()),
        file_path: "src/app.ts".to_string(),
        line: 3,
        arguments_count: 0,
    }];
    let targets = CallResolver::resolve_calls(&calls, "src/app.ts", &mut ctx, &symbols, &impls);
    assert_eq!(targets.len(), 2);
    assert_eq!(targets[0].target_node_id, "src/repo.ts::save::1");
    assert_eq!(targets[0].confidence, 900);
    assert_eq!(targets[0].reason, "receiver-typed method call");
    assert_eq!(targets[1].target_node_id, "src/sql.ts::save::7");
    assert_eq!(targets[1].confidence, 700);
    assert_eq!(targets[1].reason, "interface-dispatch");
}

#[test]
fn untyped_member_call_is_discounted() {
    let symbols = symbols_of(vec![make_def_50("flush", "src/app.ts", NodeLabel::Function)]);
    let mut ctx = ResolutionContext::new();
    let calls = vec![ExtractedCall {
        caller_id: "src/app.ts::main::1".to_string(),
        callee_name: "flush".to_string(),
        receiver: Some("thing".to_string()),
        file_path: "src/app.ts".to_string(),
        line: 3,
        arguments_count: 0,
    }];
    let targets = CallResolver::resolve_calls(&calls, "src/app.ts", &mut ctx, &symbols, &ImplementorMap::new());
    assert_eq!(targets.len(), 1);
    assert_eq!(targets[0].confidence, 760);
    assert_eq!(targets[0].reason, "untyped method call");
}

#[test]
fn ambiguous_global_plain_call_is_refused() {
    let symbols = symbols_of(vec![
        make_def_50("helper", "src/a.ts", NodeLabel::Function),
        make_def_50("helper", "src/b.ts", NodeLabel::Function),
    ]);
    let mut ctx = ResolutionContext::new();
    let calls = vec![ExtractedCall {
        caller_id: "src/app.ts::main::1".to_string(),
        callee_name: "helper".to_string(),
        receiver: None,
        file_path: "src/app.ts".to_string(),
        line: 3,
        arguments_count: 0,
    }];
    let targets = CallResolver::resolve_calls(&calls, "src/app.ts", &mut ctx, &symbols, &ImplementorMap::new());
    assert!(targets.is_empty());
}

#[test]
fn test_resolve_extends_same_file() {
    let symbols = symbols_of(vec![make_def_50("Base", "src/app.ts", NodeLabel::Class)]);

    let mut ctx = ResolutionContext::new();

    let heritage = vec![ExtractedHeritage {
        child_id: "src/app.ts::Child::10".to_string(),
        parent_name: "Base".to_string(),
        kind: HeritageKind::Extends,
        file_path: "src/app.ts".to_string(),
    }];

    let resolved = HeritageResolver::resolve_heritage(&heritage, &mut ctx, &symbols);
    assert_eq!(resolved.len(), 1);
    assert_eq!(resolved[0].rel_type, RelationType::Extends);
    // sqrt(0.95 * 0.95) = 0.95 > 0.9
    assert!(((0.95f64 * resolved[0].parent_confidence as f64 / 1000.0).sqrt()) > 0.9);
    assert_eq!(resolved[0].reason, "heritage: src/app.ts::Child::10 extends Base");
}

#[test]
fn test_resolve_implements_cross_file() {
    let symbols = symbols_of(vec![make_def_50("Serializable", "src/interfaces.ts", NodeLabel::Interface)]);

    let mut ctx = ResolutionContext::new();
    ctx.add_named_binding(
        "src/user.ts".to_string(),
        "Serializable".to_string(),
        "src/interfaces.ts".to_string(),
        "Serializable".to_string(),
    );

    let heritage = vec![ExtractedHeritage {
        child_id: "src/user.ts::User::1".to_string(),
        parent_name: "Serializable".to_string(),
        kind: HeritageKind::Implements,
        file_path: "src/user.ts".to_string(),
    }];

    let resolved = HeritageResolver::resolve_heritage(&heritage, &mut ctx, &symbols);
    assert_eq!(resolved.len(), 1);
    assert_eq!(resolved[0].rel_type, RelationType::Implements);
    assert_eq!(resolved[0].parent_id.as_str(), "src/interfaces.ts::Serializable::1");
}

#[test]
fn test_unresolved_heritage_gets_synthetic_id() {
    let symbols = SymbolTable::new();
    let mut ctx = ResolutionContext::new();

    let heritage = vec![ExtractedHeritage {
        child_id: "src/user.ts::User::1".to_string(),
        parent_name: "ExternalBase".to_string(),
        kind: HeritageKind::Extends,
        file_path: "src/user.ts".to_string(),
    }];

    let resolved = HeritageResolver::resolve_heritage(&heritage, &mut ctx, &symbols);
    assert_eq!(resolved.len(), 1);
    assert_eq!(resolved[0].parent_id.as_str(), "Class::ExternalBase");
    // sqrt(0.95 * 0.5) < 0.75
    assert!(((0.95f64 * resolved[0].parent_confidence as f64 / 1000.0).sqrt()) < 0.75);
}

#[test]
fn extends_an_interface_becomes_implements() {
    let symbols = symbols_of(vec![make_def_50("Shape", "src/app.ts", NodeLabel::Interface)]);
    let mut ctx = ResolutionContext::new();
    let heritage = vec![ExtractedHeritage {
        child_id: "src/app.ts::Circle::3".to_string(),
        parent_name: "Shape".to_string(),
        kind: HeritageKind::Extends,
        file_path: "src/app.ts".to_string(),
    }];
    let resolved = HeritageResolver::resolve_heritage(&heritage, &mut ctx, &symbols);
    assert_eq!(resolved[0].rel_type, RelationType::Implements);
    assert_eq!(resolved[0].reason, "heritage: src/app.ts::Circle::3 implements Shape");
}

#[test]
fn heritage_uses_a_cached_answer_as_it_is() {
    let mut ctx = ResolutionContext::new();
    let empty = SymbolTable::new();
    // Cache "nothing found" for Base, then define it: the stale answer stands.
    assert!(ctx.resolve("Base", "src/app.ts", &empty).is_none());
    let symbols = symbols_of(vec![make_def_50("Base", "src/app.ts", NodeLabel::Class)]);
    let heritage = vec![ExtractedHeritage {
        child_id: "src/app.ts::Child::3".to_string(),
        parent_name: "Base".to_string(),
        kind: HeritageKind::Extends,
        file_path: "src/app.ts".to_string(),
    }];
    let stale = HeritageResolver::resolve_heritage(&heritage, &mut ctx, &symbols);
    assert_eq!(stale[0].parent_id.as_str(), "Class::Base");
    ctx.clear_cache();
    let fresh = HeritageResolver::resolve_heritage(&heritage, &mut ctx, &symbols);
    assert_ne!(fresh[0].parent_id.as_str(), "Class::Base");
}

#[test]
fn heritage_edge_confidence_is_the_rounded_geometric_mean() {
    // sqrt(0.95 * 0.95) = 0.95, sqrt(0.95 * 0.9) = 0.9246, sqrt(0.95 * 0.5) = 0.6892
    assert_eq!(edge_confidence(950), 950);
    assert_eq!(edge_confidence(900), 924);
    assert_eq!(edge_confidence(500), 689);
    assert_eq!(edge_confidence(0), 0);
    assert_eq!(edge_confidence(1000), 974);
}
