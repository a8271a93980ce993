use gitgrapher::graph::{GraphNode, GraphStore, NodeProps};
use gitgrapher::linking::{build_structure, link_parse_results, record_hashes, start_index, update_structure, ParseResult};
use gitgrapher::pipeline::IndexPlan;
use gitgrapher::pipeline::ChangeSet;
use gitgrapher::scanner::SourceFile;
use gitgrapher::symbol_table::SymbolDefinition;
use gitgrapher::types::{ExtractedCall, ExtractedHeritage, ExtractedImport, HeritageKind, Language, NodeLabel, RelationType};

fn def(name: &str, file: &str, label: NodeLabel) -> SymbolDefinition {
    SymbolDefinition {
        node_id: format!("{}:{}:{}", label.as_str(), file, name),
        name: name.to_string(),
        label,
        file_path: file.to_string(),
        language: Language::TypeScript,
        is_exported: true,
        return_type: None,
        start_line: Some(1),
        end_line: Some(5),
    }
}

fn named_import(file: &str, name: &str, module: &str) -> ExtractedImport {
    ExtractedImport {
        source_file: file.to_string(),
        imported_name: name.to_string(),
        module_source: module.to_string(),
        alias: None,
        is_default: false,
        is_namespace: false,
        line: 1,
    }
}

fn call(caller: &str, callee: &str, receiver: Option<&str>, file: &str) -> ExtractedCall {
    ExtractedCall {
        caller_id: caller.to_string(),
        callee_name: callee.to_string(),
        receiver: receiver.map(|r| r.to_string()),
        file_path: file.to_string(),
        line: 3,
        arguments_count: 0,
    }
}

fn empty_result() -> ParseResult {
    ParseResult { nodes: vec![], imports: vec![], calls: vec![], heritage: vec![] }
}

fn source(path: &str) -> SourceFile {
    SourceFile {
        path: format!("/repo/{path}"),
        relative_path: path.to_string(),
        language: Language::TypeScript,
        size: 10,
    }
}

#[test]
fn links_cross_file_imports_and_calls() {
    let mut user = empty_result();
    user.nodes.push(def("User", "src/user.ts", NodeLabel::Interface));
    user.nodes.push(def("UserService", "src/user.ts", NodeLabel::Class));
    user.nodes.push(def("getUser", "src/user.ts", NodeLabel::Method));

    let mut main = empty_result();
    main.nodes.push(def("main", "src/main.ts", NodeLabel::Function));
    main.imports.push(named_import("src/main.ts", "UserService", "./user"));
    main.calls.push(call("Function:src/main.ts:main", "UserService", None, "src/main.ts"));

    let results = vec![("src/user.ts".to_string(), user), ("src/main.ts".to_string(), main)];
    let mut store = GraphStore::new();
    let stats = link_parse_results(&results, &mut store);

    assert_eq!(stats.import_edges_resolved, 1);
    assert_eq!(stats.named_bindings, 1);
    assert_eq!(stats.call_edges_resolved, 1);
    assert_eq!(stats.heritage_edges_resolved, 0);
    assert_eq!(store.node_count(), 4);
    assert!(store.get_edge("file::src/main.ts-[IMPORTS]->file::src/user.ts").is_some());
    assert!(store.get_edge("file::src/user.ts-[CONTAINS]->Class:src/user.ts:UserService").is_some());
    assert!(store
        .get_edge("Function:src/main.ts:main-[CALLS]->Class:src/user.ts:UserService")
        .is_some());
    // 4 CONTAINS + 1 IMPORTS + 1 CALLS
    assert_eq!(store.edge_count(), 6);
}

#[test]
fn links_cross_file_heritage() {
    let mut base = empty_result();
    base.nodes.push(def("BaseService", "src/base.ts", NodeLabel::Class));

    let mut service = empty_result();
    service.nodes.push(def("UserService", "src/user-service.ts", NodeLabel::Class));
    service.imports.push(named_import("src/user-service.ts", "BaseService", "./base"));
    service.heritage.push(ExtractedHeritage {
        child_id: "Class:src/user-service.ts:UserService".to_string(),
        parent_name: "BaseService".to_string(),
        kind: HeritageKind::Extends,
        file_path: "src/user-service.ts".to_string(),
    });

    let results = vec![("src/base.ts".to_string(), base), ("src/user-service.ts".to_string(), service)];
    let mut store = GraphStore::new();
    let stats = link_parse_results(&results, &mut store);

    assert_eq!(stats.import_edges_resolved, 1);
    assert_eq!(stats.heritage_edges_resolved, 1);
    assert!(store
        .get_edge("Class:src/user-service.ts:UserService-[EXTENDS]->Class:src/base.ts:BaseService")
        .is_some());
}

#[test]
fn links_barrel_exports() {
    let mut user = empty_result();
    user.nodes.push(def("User", "src/models/user.ts", NodeLabel::Class));
    let mut index = empty_result();
    index.imports.push(named_import("src/models/index.ts", "User", "./user"));
    let mut app = empty_result();
    app.imports.push(named_import("src/app.ts", "User", "./models"));

    let results = vec![
        ("src/models/user.ts".to_string(), user),
        ("src/models/index.ts".to_string(), index),
        ("src/app.ts".to_string(), app),
    ];
    let mut store = GraphStore::new();
    let stats = link_parse_results(&results, &mut store);

    assert_eq!(stats.import_edges_resolved, 2);
    assert!(store.get_edge("file::src/app.ts-[IMPORTS]->file::src/models/index.ts").is_some());
    assert!(store.get_edge("file::src/models/index.ts-[IMPORTS]->file::src/models/user.ts").is_some());
}

#[test]
fn unresolved_imports_make_no_edges() {
    let mut a = empty_result();
    a.imports.push(named_import("src/a.ts", "x", "./missing"));
    let mut ns = named_import("src/a.ts", "fs", "node:fs");
    ns.is_namespace = true;
    a.imports.push(ns);
    let results = vec![("src/a.ts".to_string(), a)];
    let mut store = GraphStore::new();
    let stats = link_parse_results(&results, &mut store);
    assert_eq!(stats.import_edges_resolved, 0);
    assert_eq!(stats.named_bindings, 0);
    assert_eq!(store.edge_count(), 0);
}

#[test]
fn linking_keeps_existing_nodes() {
    let mut store = GraphStore::new();
    store.add_node(GraphNode {
        id: "project::root".to_string(),
        label: NodeLabel::Project,
        name: "repo".to_string(),
        file_path: "/repo".to_string(),
        props: NodeProps::none(),
    });
    let mut a = empty_result();
    a.nodes.push(def("f", "src/a.ts", NodeLabel::Function));
    let results = vec![("src/a.ts".to_string(), a)];
    link_parse_results(&results, &mut store);
    assert!(store.get_node("project::root").is_some());
    assert!(store.get_node("Function:src/a.ts:f").is_some());
    assert!(store.get_edge("file::src/a.ts-[CONTAINS]->Function:src/a.ts:f").is_some());
}

#[test]
fn structure_has_project_files_and_folders() {
    let files = vec![source("src/a.ts"), source("src/b.ts"), source("top.ts")];
    let mut store = GraphStore::new();
    build_structure(&files, "/repo", &mut store);

    let root = store.get_node("project::root").unwrap();
    assert_eq!(root.name, "repo");
    assert_eq!(root.label, NodeLabel::Project);
    let a = store.get_node("file::src/a.ts").unwrap();
    assert_eq!(a.name, "a.ts");
    assert_eq!(a.file_path, "src/a.ts");
    let folder = store.get_node("folder::src").unwrap();
    assert_eq!(folder.name, "src");
    assert_eq!(folder.label, NodeLabel::Folder);
    // project + 3 files + 1 folder
    assert_eq!(store.node_count(), 5);
    // only the first file of a folder gets the folder's CONTAINS edge
    assert_eq!(store.edge_count(), 1);
    assert!(store.get_edge("folder::src-[CONTAINS]->file::src/a.ts").is_some());
    assert_eq!(store.outgoing_edges("folder::src", Some(RelationType::Contains)).len(), 1);
}

#[test]
fn structure_root_without_name_is_project() {
    let mut store = GraphStore::new();
    build_structure(&[], "/", &mut store);
    assert_eq!(store.get_node("project::root").unwrap().name, "project");
}

#[test]
fn incremental_update_replaces_changed_files() {
    let files = vec![source("src/a.ts"), source("src/b.ts"), source("src/c.ts")];
    let mut store = GraphStore::new();
    build_structure(&files[..2], "/repo", &mut store);
    store.add_node(GraphNode {
        id: "Function:src/b.ts:old".to_string(),
        label: NodeLabel::Function,
        name: "old".to_string(),
        file_path: "src/b.ts".to_string(),
        props: NodeProps::none(),
    });
    // a deleted, b modified, c added
    let cs = ChangeSet { added: vec![2], modified: vec![1], deleted: vec!["src/a.ts".to_string()], unchanged: vec![] };
    update_structure(&mut store, &cs, &files, "/repo");
    assert!(store.get_node("file::src/a.ts").is_none());
    assert!(store.get_node("file::src/b.ts").is_none());
    assert!(store.get_node("Function:src/b.ts:old").is_none());
    assert!(store.get_node("file::src/c.ts").is_some());
    assert!(store.get_node("folder::src").is_some());

    record_hashes(&mut store, &files, &[(2, 77), (1, 5)]);
    assert_eq!(store.get_file_hash("src/c.ts"), Some(77));
    assert_eq!(store.get_file_hash("src/b.ts"), Some(5));
    assert_eq!(store.get_file_hash("src/a.ts"), None);
}

#[test]
fn start_index_without_files_is_empty() {
    let start = start_index(&[], "/repo", &[], None);
    assert_eq!(start.store.node_count(), 0);
    assert_eq!(start.plan, IndexPlan::Full(vec![]));
}

#[test]
fn start_index_full_then_incremental_then_up_to_date() {
    let files = vec![source("src/a.ts"), source("src/b.ts")];
    let first = start_index(&files, "/repo", &[(0, 1), (1, 2)], None);
    assert_eq!(first.plan, IndexPlan::Full(vec![0, 1]));
    assert_eq!(first.store.node_count(), 4);
    assert_eq!(first.store.get_file_hash("src/b.ts"), Some(2));

    let same = start_index(&files, "/repo", &[(0, 1), (1, 2)], Some(first.store));
    assert_eq!(same.plan, IndexPlan::UpToDate);
    assert_eq!(same.store.node_count(), 4);

    let files2 = vec![source("src/a.ts"), source("src/b.ts"), source("src/c.ts")];
    let changed = start_index(&files2, "/repo", &[(0, 1), (1, 9), (2, 3)], Some(same.store));
    assert_eq!(changed.plan, IndexPlan::Incremental(vec![2, 1]));
    assert_eq!(changed.changes.added, vec![2]);
    assert_eq!(changed.changes.modified, vec![1]);
    assert_eq!(changed.changes.unchanged, vec![0]);
    assert!(changed.store.get_node("file::src/b.ts").is_none());
    assert!(changed.store.get_node("file::src/c.ts").is_some());
    assert_eq!(changed.store.get_file_hash("src/b.ts"), Some(9));
}

#[test]
fn links_files_whose_paths_hold_a_colon() {
    let mut user = empty_result();
    user.nodes.push(def("User", "src/a:b.ts", NodeLabel::Class));
    let mut main = empty_result();
    main.nodes.push(def("main", "src/main.ts", NodeLabel::Function));
    main.imports.push(named_import("src/main.ts", "User", "./a:b"));
    let results = vec![("src/a:b.ts".to_string(), user), ("src/main.ts".to_string(), main)];
    let mut store = GraphStore::new();
    let stats = link_parse_results(&results, &mut store);
    assert_eq!(stats.import_edges_resolved, 1);
    assert_eq!(stats.named_bindings, 1);
    assert!(store.get_edge("file::src/main.ts-[IMPORTS]->file::src/a:b.ts").is_some());
    assert_eq!(store.node_count(), 2);
}

#[test]
fn linked_edges_carry_confidence_and_reason() {
    let mut base = empty_result();
    base.nodes.push(def("BaseService", "src/base.ts", NodeLabel::Class));

    let mut service = empty_result();
    service.nodes.push(def("UserService", "src/user-service.ts", NodeLabel::Class));
    service.nodes.push(def("main", "src/user-service.ts", NodeLabel::Function));
    service.imports.push(named_import("src/user-service.ts", "BaseService", "./base"));
    service.calls.push(call("Function:src/user-service.ts:main", "BaseService", None, "src/user-service.ts"));
    service.heritage.push(ExtractedHeritage {
        child_id: "Class:src/user-service.ts:UserService".to_string(),
        parent_name: "BaseService".to_string(),
        kind: HeritageKind::Extends,
        file_path: "src/user-service.ts".to_string(),
    });

    let results = vec![("src/base.ts".to_string(), base), ("src/user-service.ts".to_string(), service)];
    let mut store = GraphStore::new();
    link_parse_results(&results, &mut store);

    let contains = store.get_edge("file::src/base.ts-[CONTAINS]->Class:src/base.ts:BaseService").unwrap();
    assert_eq!(contains.confidence, 1000);
    assert_eq!(contains.reason, "file contains definition");
    assert_eq!(contains.step, None);

    let imports = store.get_edge("file::src/user-service.ts-[IMPORTS]->file::src/base.ts").unwrap();
    assert_eq!(imports.confidence, 900);
    assert_eq!(imports.reason, "imports ./base");

    let calls = store
        .get_edge("Function:src/user-service.ts:main-[CALLS]->Class:src/base.ts:BaseService")
        .unwrap();
    assert_eq!(calls.confidence, 900);
    assert_eq!(calls.reason, "import-scoped call");

    // sqrt(0.95 * 0.9) = 0.9246...
    let extends = store
        .get_edge("Class:src/user-service.ts:UserService-[EXTENDS]->Class:src/base.ts:BaseService")
        .unwrap();
    assert_eq!(extends.confidence, 924);
    assert_eq!(extends.reason, "heritage: Class:src/user-service.ts:UserService extends BaseService");
}
