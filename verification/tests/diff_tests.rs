use gitgrapher::symbol_diff::build_diff_data;
use gitgrapher::diff::MatchKind;
use gitgrapher::diff::{diff_files, diff_graphs, select_file_paths, select_symbol_ids, DiffStatus, SymbolRecord};
use gitgrapher::graph::{GraphEdge, GraphNode, GraphStore, NodeProps};
use gitgrapher::types::{NodeLabel, RelationType};

fn file_node(path: &str) -> GraphNode {
    GraphNode {
        id: format!("file::{path}"),
        label: NodeLabel::File,
        name: path.rsplit('/').next().unwrap().to_string(),
        file_path: path.to_string(),
        props: NodeProps::none(),
    }
}

fn symbol_node(id: &str, name: &str, file: &str) -> GraphNode {
    GraphNode { id: id.to_string(), label: NodeLabel::Function, name: name.to_string(), file_path: file.to_string(), props: NodeProps::none() }
}

fn record(id: &str, status: DiffStatus, base: Option<GraphNode>, head: Option<GraphNode>, degree: usize) -> SymbolRecord {
    SymbolRecord {
        canonical_id: id.to_string(),
        status,
        match_kind: None,
        body_changed: status == DiffStatus::Modified,
        base,
        head,
        degree,
        in_deg: 0,
        out_deg: degree,
    }
}

fn stores() -> (GraphStore, GraphStore, Vec<SymbolRecord>) {
    let mut base = GraphStore::new();
    base.add_node(file_node("src/a.ts"));
    base.add_node(file_node("src/old.ts"));
    base.set_file_hash("src/a.ts".to_string(), 11);
    base.set_file_hash("src/old.ts".to_string(), 22);
    let foo_base = symbol_node("src/a.ts::foo::1", "foo", "src/a.ts");
    let bar_base = symbol_node("src/old.ts::bar::1", "bar", "src/old.ts");
    let gone = symbol_node("src/old.ts::gone::10", "gone", "src/old.ts");
    base.add_node(foo_base.clone());
    base.add_node(bar_base.clone());
    base.add_node(gone.clone());
    base.add_edge(GraphEdge::new("file::src/a.ts", "src/a.ts::foo::1", RelationType::Contains, 1000, ""));
    base.add_edge(GraphEdge::new("file::src/old.ts", "src/old.ts::bar::1", RelationType::Contains, 1000, ""));
    base.add_edge(GraphEdge::new("src/old.ts::gone::10", "src/a.ts::foo::1", RelationType::Calls, 900, ""));

    let mut head = GraphStore::new();
    head.add_node(file_node("src/a.ts"));
    head.add_node(file_node("src/new.ts"));
    head.set_file_hash("src/a.ts".to_string(), 33);
    head.set_file_hash("src/new.ts".to_string(), 44);
    let foo_head = symbol_node("src/a.ts::foo::1", "foo", "src/a.ts");
    let bar_head = symbol_node("src/new.ts::bar::1", "bar", "src/new.ts");
    let baz = symbol_node("src/new.ts::baz::9", "baz", "src/new.ts");
    head.add_node(foo_head.clone());
    head.add_node(bar_head.clone());
    head.add_node(baz.clone());
    head.add_edge(GraphEdge::new("file::src/a.ts", "src/a.ts::foo::1", RelationType::Contains, 1000, ""));
    head.add_edge(GraphEdge::new("file::src/new.ts", "src/new.ts::bar::1", RelationType::Contains, 1000, ""));
    head.add_edge(GraphEdge::new("file::src/new.ts", "src/new.ts::baz::9", RelationType::Contains, 1000, ""));

    let records = vec![
        record("src/a.ts::foo::1", DiffStatus::Modified, Some(foo_base), Some(foo_head), 1),
        record("src/new.ts::bar::1", DiffStatus::Moved, Some(bar_base), Some(bar_head), 1),
        record("src/new.ts::baz::9", DiffStatus::Added, None, Some(baz), 1),
        record("removed::src/old.ts::gone::10", DiffStatus::Removed, Some(gone), None, 1),
    ];
    (base, head, records)
}

#[test]
fn files_compare_by_node_and_hash() {
    let (base, head, _) = stores();
    let files = diff_files(&base, &head);
    let summary: Vec<(&str, DiffStatus, Option<u64>, Option<u64>)> =
        files.iter().map(|f| (f.path.as_str(), f.status, f.base_hash, f.head_hash)).collect();
    assert_eq!(
        summary,
        vec![
            ("src/a.ts", DiffStatus::Modified, Some(11), Some(33)),
            ("src/new.ts", DiffStatus::Added, None, Some(44)),
            ("src/old.ts", DiffStatus::Removed, Some(22), None),
        ]
    );
}

#[test]
fn diff_counts_files_and_given_symbol_records() {
    let (base, head, records) = stores();
    let diff = diff_graphs("HEAD~1", &base, "HEAD", &head, &records, Some(20));
    assert_eq!(diff.summary.files_added, 1);
    assert_eq!(diff.summary.files_removed, 1);
    assert_eq!(diff.summary.files_modified, 1);
    assert_eq!(diff.summary.files_unchanged, 0);
    assert_eq!(diff.summary.symbols_added, 1);
    assert_eq!(diff.summary.symbols_removed, 1);
    assert_eq!(diff.summary.symbols_modified, 1);
    assert_eq!(diff.summary.symbols_moved, 1);
    assert_eq!(diff.summary.base_ref, "HEAD~1");
    assert_eq!(diff.symbol_ids.len(), 4);
    // links are sorted by source, target, relation
    let links: Vec<(&str, &str, DiffStatus)> =
        diff.links.iter().map(|l| (l.source.as_str(), l.target.as_str(), l.status)).collect();
    assert_eq!(
        links,
        vec![
            ("file::src/a.ts", "src/a.ts::foo::1", DiffStatus::Unchanged),
            ("file::src/new.ts", "src/new.ts::bar::1", DiffStatus::Added),
            ("file::src/new.ts", "src/new.ts::baz::9", DiffStatus::Added),
            ("file::src/old.ts", "src/new.ts::bar::1", DiffStatus::Removed),
            ("removed::src/old.ts::gone::10", "src/a.ts::foo::1", DiffStatus::Removed),
        ]
    );
    assert_eq!(diff.links[4].confidence, 900);
    assert_eq!(diff.links[0].confidence, 1000);
    assert_eq!(diff.summary.edges_added, 2);
    assert_eq!(diff.summary.edges_removed, 2);
}

#[test]
fn symbol_selection_prefers_changes_then_degree() {
    let n = |id: &str| Some(symbol_node(id, id, "src/x.ts"));
    let records = vec![
        record("u_low", DiffStatus::Unchanged, n("u_low"), n("u_low"), 1),
        record("added", DiffStatus::Added, None, n("added"), 0),
        record("u_high", DiffStatus::Unchanged, n("u_high"), n("u_high"), 9),
        record("modified", DiffStatus::Modified, n("modified"), n("modified"), 0),
        record("u_base_only", DiffStatus::Unchanged, n("u_base_only"), None, 50),
    ];
    assert_eq!(select_symbol_ids(&records, 1), vec!["modified".to_string()]);
    assert_eq!(select_symbol_ids(&records, 3), vec!["modified".to_string(), "added".to_string(), "u_high".to_string()]);
    let all = select_symbol_ids(&records, 10);
    assert_eq!(all.len(), 4);
    assert!(!all.contains(&"u_base_only".to_string()));
    for max in 0..6 {
        assert_eq!(select_symbol_ids(&records, max).len(), max.min(4));
    }
}

#[test]
fn shown_files_are_changed_files_and_files_of_shown_symbols() {
    let (base, head, records) = stores();
    let files = diff_files(&base, &head);
    let only_foo = vec!["src/a.ts::foo::1".to_string()];
    let mut paths = select_file_paths(&only_foo, &records, &files);
    paths.sort();
    assert_eq!(paths, vec!["src/a.ts".to_string(), "src/new.ts".to_string(), "src/old.ts".to_string()]);
}

#[test]
fn diff_file_nodes_take_the_head_where_it_has_the_file() {
    let (base, head, records) = stores();
    let diff = diff_graphs("HEAD~1", &base, "HEAD", &head, &records, Some(20));
    let nodes: Vec<(&str, &str, &str, &str, DiffStatus, usize, Option<&str>, bool)> = diff
        .file_nodes
        .iter()
        .map(|n| {
            (
                n.id.as_str(),
                n.file_name.as_str(),
                n.folder.as_str(),
                n.layer.as_str(),
                n.status,
                n.degree,
                n.head_file.as_deref(),
                n.body_changed,
            )
        })
        .collect();
    assert_eq!(
        nodes,
        vec![
            ("file::src/a.ts", "a.ts", "src", "head", DiffStatus::Modified, 1, Some("src/a.ts"), true),
            ("file::src/new.ts", "new.ts", "src", "head", DiffStatus::Added, 2, Some("src/new.ts"), false),
            ("file::src/old.ts", "old.ts", "src", "base", DiffStatus::Removed, 1, None, false),
        ]
    );
    for n in &diff.file_nodes {
        assert_eq!(n.label, "File");
        assert_eq!(n.group, 0);
        assert_eq!(n.base_file.as_deref(), Some(n.file.as_str()));
        assert_eq!(n.qualified_name, n.file);
        assert!(n.file_changed);
        assert_eq!(n.match_kind, None);
    }
}

fn diff_symbol_node(id: &str, name: &str, label: NodeLabel, file: &str, line: u32, container: Option<&str>, body_hash: u64) -> GraphNode {
    let mut props = NodeProps::none();
    props.start_line = Some(line);
    props.parameter_count = Some(1);
    props.container_name = container.map(|c| c.to_string());
    props.body_hash = Some(body_hash);
    GraphNode { id: id.to_string(), label, name: name.to_string(), file_path: file.to_string(), props }
}

#[test]
fn test_build_diff_detects_symbol_changes() {
    let mut base = GraphStore::new();
    base.add_node(file_node("src/a.ts"));
    base.add_node(file_node("src/old.ts"));
    base.set_file_hash("src/a.ts".to_string(), 11);
    base.set_file_hash("src/old.ts".to_string(), 22);

    let foo_base = diff_symbol_node("src/a.ts::foo::1", "foo", NodeLabel::Function, "src/a.ts", 1, None, 100);
    let moved_base = diff_symbol_node("src/old.ts::bar::1", "bar", NodeLabel::Function, "src/old.ts", 1, None, 200);
    let removed_base = diff_symbol_node("src/old.ts::gone::10", "gone", NodeLabel::Function, "src/old.ts", 10, None, 300);
    base.add_node(foo_base.clone());
    base.add_node(moved_base.clone());
    base.add_node(removed_base.clone());
    base.add_edge(GraphEdge::new("file::src/a.ts", &foo_base.id, RelationType::Contains, 1000, ""));
    base.add_edge(GraphEdge::new("file::src/old.ts", &moved_base.id, RelationType::Contains, 1000, ""));

    let mut head = GraphStore::new();
    head.add_node(file_node("src/a.ts"));
    head.add_node(file_node("src/new.ts"));
    head.set_file_hash("src/a.ts".to_string(), 33);
    head.set_file_hash("src/new.ts".to_string(), 44);

    let foo_head = diff_symbol_node("src/a.ts::foo::1", "foo", NodeLabel::Function, "src/a.ts", 1, None, 101);
    let moved_head = diff_symbol_node("src/new.ts::bar::1", "bar", NodeLabel::Function, "src/new.ts", 1, None, 200);
    let added_head = diff_symbol_node("src/new.ts::baz::9", "baz", NodeLabel::Function, "src/new.ts", 9, None, 500);
    head.add_node(foo_head.clone());
    head.add_node(moved_head.clone());
    head.add_node(added_head.clone());
    head.add_edge(GraphEdge::new("file::src/a.ts", &foo_head.id, RelationType::Contains, 1000, ""));
    head.add_edge(GraphEdge::new("file::src/new.ts", &moved_head.id, RelationType::Contains, 1000, ""));
    head.add_edge(GraphEdge::new("file::src/new.ts", &added_head.id, RelationType::Contains, 1000, ""));

    let data = build_diff_data("HEAD~1", &base, "HEAD", &head, Some(20));
    let diff = &data.diff;

    assert_eq!(diff.summary.files_added, 1);
    assert_eq!(diff.summary.files_removed, 1);
    assert_eq!(diff.summary.files_modified, 1);
    assert_eq!(diff.summary.symbols_added, 1);
    assert_eq!(diff.summary.symbols_removed, 1);
    assert_eq!(diff.summary.symbols_modified, 1);
    assert_eq!(diff.summary.symbols_moved, 1);

    let statuses: std::collections::HashMap<&str, DiffStatus> = data
        .nodes
        .iter()
        .filter(|node| node.label != "File")
        .map(|node| (node.name.as_str(), node.status))
        .collect();
    assert_eq!(statuses.get("foo"), Some(&DiffStatus::Modified));
    assert_eq!(statuses.get("bar"), Some(&DiffStatus::Moved));
    assert_eq!(statuses.get("baz"), Some(&DiffStatus::Added));
    assert_eq!(statuses.get("gone"), Some(&DiffStatus::Removed));
    assert_eq!(data.nodes.len(), diff.file_nodes.len() + data.symbol_nodes.len());
    for w in data.nodes.windows(2) {
        assert!((w[0].label.as_str(), w[0].name.as_str()) <= (w[1].label.as_str(), w[1].name.as_str()));
    }
}

#[test]
fn symbol_nodes_carry_the_records_properties() {
    let mut base = GraphStore::new();
    base.add_node(diff_symbol_node("b", "run", NodeLabel::Method, "src/a.ts", 4, Some("Job"), 7));
    let mut head = GraphStore::new();
    head.add_node(diff_symbol_node("h", "run", NodeLabel::Method, "src/a.ts", 4, Some("Job"), 7));
    let data = build_diff_data("A", &base, "B", &head, None);
    assert_eq!(data.records.len(), 1);
    assert_eq!(data.records[0].status, DiffStatus::Unchanged);
    assert_eq!(data.records[0].match_kind, Some(MatchKind::Location));
    let n = &data.symbol_nodes[0];
    assert_eq!(n.qualified_name, "Job.run");
    assert_eq!(n.container_name, "Job");
    assert_eq!(n.line, 4);
    assert_eq!(n.layer, "head");
    assert_eq!(n.match_kind.as_deref(), Some("location"));
    assert_eq!(n.base_line, Some(4));
    assert!(!n.file_changed);
}

#[test]
fn a_store_diffed_against_itself_is_unchanged() {
    let mut store = GraphStore::new();
    store.add_node(file_node("src/a.ts"));
    store.set_file_hash("src/a.ts".to_string(), 11);
    let foo = diff_symbol_node("src/a.ts::foo::1", "foo", NodeLabel::Function, "src/a.ts", 1, None, 100);
    let bar = diff_symbol_node("src/a.ts::bar::5", "bar", NodeLabel::Function, "src/a.ts", 5, None, 200);
    store.add_node(foo.clone());
    store.add_node(bar.clone());
    store.add_edge(GraphEdge::new("file::src/a.ts", &foo.id, RelationType::Contains, 1000, ""));
    store.add_edge(GraphEdge::new(&foo.id, &bar.id, RelationType::Calls, 900, ""));
    let data = build_diff_data("HEAD", &store, "HEAD", &store, None);
    let s = &data.diff.summary;
    assert_eq!((s.files_added, s.files_removed, s.files_modified, s.files_unchanged), (0, 0, 0, 1));
    assert_eq!((s.symbols_added, s.symbols_removed, s.symbols_modified, s.symbols_moved, s.symbols_unchanged), (0, 0, 0, 0, 2));
    assert_eq!((s.edges_added, s.edges_removed), (0, 0));
    assert!(data.diff.links.iter().all(|l| l.status == DiffStatus::Unchanged));
    assert!(data.nodes.iter().all(|n| n.status == DiffStatus::Unchanged));
}
