use gitgrapher::bench::{edge_counts_by_type, node_counts_by_label};
use gitgrapher::graph::{Direction, GraphEdge, GraphNode, GraphStore, NodeProps};
use gitgrapher::types::{NodeLabel, RelationType};

fn make_node(id: &str, name: &str, label: NodeLabel, file: &str) -> GraphNode {
    GraphNode { id: id.to_string(), label, name: name.to_string(), file_path: file.to_string(), props: NodeProps::none() }
}

#[test]
fn test_add_and_query() {
    let mut store = GraphStore::new();
    store.add_node(make_node("f1", "index.ts", NodeLabel::File, "src/index.ts"));
    store.add_node(make_node("fn1", "main", NodeLabel::Function, "src/index.ts"));
    store.add_edge(GraphEdge::new("f1", "fn1", RelationType::Contains, 1000, "file contains"));

    assert_eq!(store.node_count(), 2);
    assert_eq!(store.edge_count(), 1);
    assert_eq!(store.nodes_in_file("src/index.ts").len(), 2);
    assert_eq!(store.nodes_by_label(NodeLabel::Function).len(), 1);
    assert_eq!(store.outgoing_edges("f1", Some(RelationType::Contains)).len(), 1);
}

#[test]
fn store_test_remove_file() {
    let mut store = GraphStore::new();
    store.add_node(make_node("f1", "a.ts", NodeLabel::File, "src/a.ts"));
    store.add_node(make_node("fn1", "foo", NodeLabel::Function, "src/a.ts"));
    store.add_node(make_node("f2", "b.ts", NodeLabel::File, "src/b.ts"));
    store.add_edge(GraphEdge::new("fn1", "f2", RelationType::Imports, 900, "imports"));

    let removed = store.remove_file("src/a.ts");
    assert_eq!(removed, 2);
    assert_eq!(store.node_count(), 1);
    assert_eq!(store.edge_count(), 0);
}

#[test]
fn test_bfs() {
    let mut store = GraphStore::new();
    store.add_node(make_node("a", "a", NodeLabel::Function, "f.ts"));
    store.add_node(make_node("b", "b", NodeLabel::Function, "f.ts"));
    store.add_node(make_node("c", "c", NodeLabel::Function, "f.ts"));
    store.add_edge(GraphEdge::new("a", "b", RelationType::Calls, 900, ""));
    store.add_edge(GraphEdge::new("b", "c", RelationType::Calls, 900, ""));

    let hits = store.bfs("a", Direction::Outgoing, 3, None);
    assert_eq!(hits.len(), 2);
    assert_eq!(hits[0].node_id.as_str(), "b");
    assert_eq!(hits[1].node_id.as_str(), "c");
    assert_eq!(hits[1].depth, 2);
}

#[test]
fn edge_ids_name_their_relation() {
    let e = GraphEdge::new("a", "b", RelationType::Calls, 900, "");
    assert_eq!(e.id, "a-[CALLS]->b");
    assert_eq!(e.source_id, "a");
    assert_eq!(e.target_id, "b");
}

#[test]
fn bfs_respects_direction_depth_and_filter() {
    let mut store = GraphStore::new();
    for id in ["a", "b", "c", "d"] {
        store.add_node(make_node(id, id, NodeLabel::Function, "f.ts"));
    }
    store.add_edge(GraphEdge::new("a", "b", RelationType::Calls, 900, ""));
    store.add_edge(GraphEdge::new("b", "c", RelationType::Imports, 900, ""));
    store.add_edge(GraphEdge::new("d", "a", RelationType::Calls, 900, ""));
    store.add_edge(GraphEdge::new("c", "a", RelationType::Calls, 900, ""));

    let hits = store.bfs("a", Direction::Outgoing, 1, None);
    assert_eq!(hits.len(), 1);
    assert_eq!(hits[0].path, vec!["a".to_string(), "b".to_string()]);

    let only_calls = [RelationType::Calls];
    let hits = store.bfs("a", Direction::Outgoing, 5, Some(&only_calls));
    assert_eq!(hits.len(), 1);

    let hits = store.bfs("a", Direction::Incoming, 5, None);
    let ids: Vec<&str> = hits.iter().map(|h| h.node_id.as_str()).collect();
    assert_eq!(ids, vec!["d", "c", "b"]);

    // Going both ways follows every connection: successors first, then
    // predecessors.
    let hits = store.bfs("a", Direction::Both, 1, None);
    let ids: Vec<&str> = hits.iter().map(|h| h.node_id.as_str()).collect();
    assert_eq!(ids, vec!["b", "d", "c"]);
}

#[test]
fn bfs_reports_hits_level_by_level() {
    let mut store = GraphStore::new();
    for id in ["a", "b", "c", "d", "e"] {
        store.add_node(make_node(id, id, NodeLabel::Function, "f.ts"));
    }
    store.add_edge(GraphEdge::new("a", "b", RelationType::Calls, 900, ""));
    store.add_edge(GraphEdge::new("b", "c", RelationType::Calls, 900, ""));
    store.add_edge(GraphEdge::new("a", "d", RelationType::Calls, 900, ""));
    store.add_edge(GraphEdge::new("c", "e", RelationType::Calls, 900, ""));
    store.add_edge(GraphEdge::new("d", "e", RelationType::Calls, 900, ""));
    let hits = store.bfs("a", Direction::Outgoing, 5, None);
    let depths: Vec<usize> = hits.iter().map(|h| h.depth as usize).collect();
    assert_eq!(depths, vec![1, 1, 2, 2]);
    let ids: Vec<&str> = hits.iter().map(|h| h.node_id.as_str()).collect();
    assert_eq!(ids, vec!["b", "d", "c", "e"]);
    for w in hits.windows(2) {
        assert!(w[0].depth <= w[1].depth);
    }
}

#[test]
fn replaced_nodes_and_degrees() {
    let mut store = GraphStore::new();
    store.add_node(make_node("x", "old", NodeLabel::Function, "a.ts"));
    store.add_node(make_node("x", "new", NodeLabel::Method, "a.ts"));
    assert_eq!(store.node_count(), 1);
    assert_eq!(store.get_node("x").unwrap().name, "new");
    // The file index keeps both additions.
    assert_eq!(store.nodes_in_file("a.ts").len(), 2);
    assert_eq!(store.nodes_by_name("old").len(), 1);
    assert_eq!(store.file_count(), 1);
    store.add_edge(GraphEdge::new("x", "y", RelationType::Calls, 900, ""));
    store.add_edge(GraphEdge::new("z", "x", RelationType::Uses, 1000, ""));
    assert_eq!(store.out_degree("x"), 1);
    assert_eq!(store.in_degree("x"), 1);
    assert_eq!(store.degree("x"), 2);
    assert_eq!(store.incoming_edges("x", Some(RelationType::Calls)).len(), 0);
    assert!(store.get_edge("x-[CALLS]->y").is_some());
    assert!(store.get_node("nope").is_none());
}

#[test]
fn file_hashes_and_listing() {
    let mut store = GraphStore::new();
    assert_eq!(store.get_file_hash("a.ts"), None);
    store.set_file_hash("a.ts".to_string(), 7);
    store.set_file_hash("a.ts".to_string(), 9);
    assert_eq!(store.get_file_hash("a.ts"), Some(9));
    store.add_node(make_node("n1", "Alpha", NodeLabel::Function, "a.ts"));
    store.add_node(make_node("n2", "alphabet", NodeLabel::Class, "b.ts"));
    store.add_node(make_node("n3", "alpha.ts", NodeLabel::File, "alpha.ts"));
    assert_eq!(store.nodes().len(), 3);
    assert_eq!(store.edges().len(), 0);
    let found = store.search_nodes("ALPHA", 10);
    assert_eq!(found.len(), 2);
    assert_eq!(store.search_nodes("alpha", 1).len(), 1);
    assert!(store.search_nodes("zzz", 10).is_empty());
}

#[test]
fn removing_a_file_drops_its_edges_only() {
    let mut store = GraphStore::new();
    store.add_node(make_node("a1", "a1", NodeLabel::Function, "a.ts"));
    store.add_node(make_node("b1", "b1", NodeLabel::Function, "b.ts"));
    store.add_node(make_node("b2", "b2", NodeLabel::Function, "b.ts"));
    store.add_edge(GraphEdge::new("a1", "b1", RelationType::Calls, 900, ""));
    store.add_edge(GraphEdge::new("b2", "b1", RelationType::Calls, 900, ""));
    assert_eq!(store.remove_file("missing.ts"), 0);
    assert_eq!(store.remove_file("a.ts"), 1);
    assert_eq!(store.node_count(), 2);
    assert_eq!(store.edge_count(), 1);
    assert_eq!(store.incoming_edges("b1", None).len(), 1);
    assert!(store.nodes_by_name("a1").is_empty());
}

#[test]
fn test_edge_id_generation() {
    let edge = GraphEdge::new("a", "b", RelationType::Calls, 900, "direct call");
    assert_eq!(edge.id.as_str(), "a-[CALLS]->b");
}

#[test]
fn counts_by_kind_are_sorted_by_name() {
    let mut store = GraphStore::new();
    store.add_node(GraphNode { id: "f1".to_string(), label: NodeLabel::Function, name: "a".to_string(), file_path: "a.ts".to_string(), props: NodeProps::none() });
    store.add_node(GraphNode { id: "c1".to_string(), label: NodeLabel::Class, name: "B".to_string(), file_path: "a.ts".to_string(), props: NodeProps::none() });
    store.add_node(GraphNode { id: "f2".to_string(), label: NodeLabel::Function, name: "c".to_string(), file_path: "a.ts".to_string(), props: NodeProps::none() });
    store.add_node(GraphNode { id: "file".to_string(), label: NodeLabel::File, name: "a.ts".to_string(), file_path: "a.ts".to_string(), props: NodeProps::none() });
    store.add_edge(GraphEdge::new("f1", "f2", RelationType::Calls, 900, ""));
    store.add_edge(GraphEdge::new("file", "f1", RelationType::Contains, 1000, ""));
    store.add_edge(GraphEdge::new("f2", "f1", RelationType::Calls, 900, ""));
    assert_eq!(
        node_counts_by_label(&store),
        vec![("Class".to_string(), 1), ("File".to_string(), 1), ("Function".to_string(), 2)]
    );
    assert_eq!(edge_counts_by_type(&store), vec![("CALLS".to_string(), 2), ("CONTAINS".to_string(), 1)]);
    assert!(node_counts_by_label(&GraphStore::new()).is_empty());
}

#[test]
fn both_directions_reach_predecessors_and_successors() {
    let mut store = GraphStore::new();
    store.add_node(make_node("x", "x", NodeLabel::Function, "f.ts"));
    store.add_node(make_node("a", "a", NodeLabel::Function, "f.ts"));
    store.add_node(make_node("y", "y", NodeLabel::Function, "f.ts"));
    store.add_edge(GraphEdge::new("x", "a", RelationType::Calls, 900, ""));
    let hits = store.bfs("a", Direction::Both, 1, None);
    assert_eq!(hits.len(), 1);
    assert_eq!(hits[0].node_id, "x");
    assert_eq!(hits[0].depth, 1);
    assert_eq!(hits[0].path, vec!["a".to_string(), "x".to_string()]);
    store.add_edge(GraphEdge::new("a", "y", RelationType::Calls, 900, ""));
    let ids: Vec<String> = store.bfs("a", Direction::Both, 2, None).into_iter().map(|h| h.node_id).collect();
    assert_eq!(ids, vec!["y".to_string(), "x".to_string()]);
}

#[test]
fn bfs_finds_each_node_at_its_shortest_distance() {
    let mut store = GraphStore::new();
    for id in ["a", "b", "c", "d"] {
        store.add_node(make_node(id, id, NodeLabel::Function, "f.ts"));
    }
    store.add_edge(GraphEdge::new("a", "b", RelationType::Calls, 900, ""));
    store.add_edge(GraphEdge::new("b", "c", RelationType::Calls, 900, ""));
    store.add_edge(GraphEdge::new("c", "d", RelationType::Calls, 900, ""));
    store.add_edge(GraphEdge::new("a", "d", RelationType::Calls, 900, ""));
    let hits = store.bfs("a", Direction::Outgoing, 3, None);
    let found: Vec<(&str, u32)> = hits.iter().map(|h| (h.node_id.as_str(), h.depth as u32)).collect();
    assert_eq!(found, vec![("b", 1), ("d", 1), ("c", 2)]);
    let d = hits.iter().find(|h| h.node_id == "d").unwrap();
    assert_eq!(d.path, vec!["a".to_string(), "d".to_string()]);
    // Every node a path of at most two steps leads to is reported.
    let hits = store.bfs("a", Direction::Outgoing, 2, None);
    assert_eq!(hits.len(), 3);
}
