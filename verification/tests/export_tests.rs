use gitgrapher::export::{export_dot_text, export_html_graph, export_json_graph};
use gitgrapher::graph::{GraphEdge, GraphNode, GraphStore, NodeProps};
use gitgrapher::types::{NodeLabel, RelationType};

fn node(id: &str, name: &str, label: NodeLabel) -> GraphNode {
    GraphNode { id: id.to_string(), label, name: name.to_string(), file_path: "src/a.ts".to_string(), props: NodeProps::none() }
}

#[test]
fn dot_lists_symbols_and_edges_between_them() {
    let nodes = vec![
        node("file::src/a.ts", "a.ts", NodeLabel::File),
        node("Class:a:User", "User", NodeLabel::Class),
        node("Function:a:main", "main", NodeLabel::Function),
    ];
    let edges = vec![
        GraphEdge::new("file::src/a.ts", "Class:a:User", RelationType::Contains, 1000, ""),
        GraphEdge::new("Function:a:main", "Class:a:User", RelationType::Calls, 900, ""),
    ];
    let dot = export_dot_text(&nodes, &edges, None);
    let expected = [
        "digraph gitgrapher {\n  rankdir=LR;\n  node [shape=box, style=filled];\n\n",
        "  Class_a_User [label=\"User\\n(Class)\", fillcolor=\"#4FC3F7\"];\n",
        "  Function_a_main [label=\"main\\n(Function)\", fillcolor=\"#FFB74D\"];\n",
        "\n",
        "  Function_a_main -> Class_a_User [color=red, label=\"CALLS\"];\n",
        "}\n",
    ]
    .concat();
    assert_eq!(dot, expected);
}

#[test]
fn dot_limit_keeps_first_symbols() {
    let nodes = vec![node("a", "a", NodeLabel::Method), node("b", "b", NodeLabel::Enum)];
    let edges = vec![GraphEdge::new("a", "b", RelationType::Imports, 900, "")];
    let dot = export_dot_text(&nodes, &edges, Some(1));
    assert!(dot.contains("  a [label=\"a\\n(Method)\", fillcolor=\"#FF8A65\"];\n"));
    assert!(!dot.contains("(Enum)"));
    assert!(!dot.contains("->"));
    let all = export_dot_text(&nodes, &edges, Some(5));
    assert!(all.contains("  a -> b [color=blue, label=\"IMPORTS\"];\n"));
    assert!(all.contains("fillcolor=\"#CE93D8\""));
}

fn ids_of(nodes: &[GraphNode]) -> Vec<String> {
    nodes.iter().map(|n| n.id.clone()).collect()
}

fn edge_pairs(edges: &[GraphEdge]) -> Vec<(String, String)> {
    edges.iter().map(|e| (e.source_id.clone(), e.target_id.clone())).collect()
}

#[test]
fn json_export_keeps_files_and_symbols_with_all_their_edges() {
    let nodes = vec![
        node("folder::src", "src", NodeLabel::Folder),
        node("file::src/a.ts", "a.ts", NodeLabel::File),
        node("Class:a:User", "User", NodeLabel::Class),
    ];
    let edges = vec![
        GraphEdge::new("folder::src", "file::src/a.ts", RelationType::Contains, 1000, ""),
        GraphEdge::new("file::src/a.ts", "Class:a:User", RelationType::Contains, 1000, ""),
    ];
    let (ns, es) = export_json_graph(&nodes, &edges, None);
    assert_eq!(ids_of(&ns), vec!["file::src/a.ts".to_string(), "Class:a:User".to_string()]);
    assert_eq!(edge_pairs(&es), vec![("file::src/a.ts".to_string(), "Class:a:User".to_string())]);
    let (limited, limited_edges) = export_json_graph(&nodes, &edges, Some(1));
    assert_eq!(ids_of(&limited), vec!["file::src/a.ts".to_string()]);
    assert!(limited_edges.is_empty());
}

#[test]
fn html_export_orders_symbols_by_degree_and_drops_contains() {
    let mut store = GraphStore::new();
    store.add_node(node("file::src/a.ts", "a.ts", NodeLabel::File));
    store.add_node(node("f", "f", NodeLabel::Function));
    store.add_node(node("g", "g", NodeLabel::Function));
    store.add_node(node("h", "h", NodeLabel::Function));
    store.add_edge(GraphEdge::new("file::src/a.ts", "f", RelationType::Contains, 1000, ""));
    store.add_edge(GraphEdge::new("g", "h", RelationType::Calls, 900, ""));
    store.add_edge(GraphEdge::new("f", "h", RelationType::Calls, 900, ""));
    store.add_edge(GraphEdge::new("h", "f", RelationType::Contains, 1000, ""));
    // Degrees: f 3, g 1, h 3; f comes before h in the store.
    let (ns, es) = export_html_graph(&store, None);
    assert_eq!(ids_of(&ns), vec!["f".to_string(), "h".to_string(), "g".to_string()]);
    assert_eq!(edge_pairs(&es), vec![("g".to_string(), "h".to_string()), ("f".to_string(), "h".to_string())]);
    let (top, top_edges) = export_html_graph(&store, Some(2));
    assert_eq!(ids_of(&top), vec!["f".to_string(), "h".to_string()]);
    assert_eq!(edge_pairs(&top_edges), vec![("f".to_string(), "h".to_string())]);
}
