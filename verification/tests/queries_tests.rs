use gitgrapher::graph::{Direction, GraphEdge, GraphNode, GraphStore, NodeProps};
use gitgrapher::queries::{impact, list_symbols, parse_direction, symbol_context, symbol_label};
use gitgrapher::mcp::bounded_arg;
use gitgrapher::types::{NodeLabel, RelationType};

fn add(store: &mut GraphStore, id: &str, name: &str, label: NodeLabel) {
    store.add_node(GraphNode { id: id.to_string(), label, name: name.to_string(), file_path: "f.ts".to_string(), props: NodeProps::none() });
}

fn sample() -> GraphStore {
    let mut store = GraphStore::new();
    add(&mut store, "file", "f.ts", NodeLabel::File);
    add(&mut store, "a", "a", NodeLabel::Function);
    add(&mut store, "b", "b", NodeLabel::Function);
    add(&mut store, "c", "c", NodeLabel::Function);
    add(&mut store, "d", "d", NodeLabel::Function);
    store.add_edge(GraphEdge::new("b", "a", RelationType::Calls, 900, ""));
    store.add_edge(GraphEdge::new("c", "b", RelationType::Calls, 900, ""));
    store.add_edge(GraphEdge::new("file", "a", RelationType::Contains, 1000, ""));
    store.add_edge(GraphEdge::new("file", "b", RelationType::Imports, 900, ""));
    store.add_edge(GraphEdge::new("a", "d", RelationType::Calls, 900, ""));
    store
}

#[test]
fn directions_by_name() {
    assert_eq!(parse_direction("up"), Some(Direction::Incoming));
    assert_eq!(parse_direction("upstream"), Some(Direction::Incoming));
    assert_eq!(parse_direction("down"), Some(Direction::Outgoing));
    assert_eq!(parse_direction("downstream"), Some(Direction::Outgoing));
    assert_eq!(parse_direction("both"), Some(Direction::Both));
    assert_eq!(parse_direction("sideways"), None);
}

#[test]
fn upstream_impact_follows_impact_edges_to_symbols() {
    let store = sample();
    let hits = impact(&store, "a", Direction::Incoming, 3, 100);
    // b calls a, c calls b; the file reaches b by an import but is not a symbol,
    // and the CONTAINS edge carries no impact.
    let ids: Vec<&str> = hits.iter().map(|h| h.node.id.as_str()).collect();
    assert_eq!(ids, vec!["b", "c"]);
    assert_eq!(hits[0].depth, 1);
    assert_eq!(hits[1].depth, 2);
    assert_eq!(hits[1].path, vec!["a".to_string(), "b".to_string(), "c".to_string()]);
    assert!(hits.iter().all(|h| h.origin_id == "a"));
}

#[test]
fn impact_respects_depth_and_limit() {
    let store = sample();
    assert_eq!(impact(&store, "a", Direction::Incoming, 1, 100).len(), 1);
    assert_eq!(impact(&store, "a", Direction::Incoming, 3, 1).len(), 1);
    let down = impact(&store, "a", Direction::Outgoing, 3, 100);
    assert_eq!(down.len(), 1);
    assert_eq!(down[0].node.id, "d");
    assert!(impact(&store, "f.ts", Direction::Both, 3, 100).is_empty());
    assert!(impact(&store, "nothing", Direction::Both, 3, 100).is_empty());
}

#[test]
fn numeric_arguments_are_clamped() {
    assert_eq!(bounded_arg(None, 3, 1, 20), 3);
    assert_eq!(bounded_arg(Some(0), 3, 1, 20), 1);
    assert_eq!(bounded_arg(Some(50), 3, 1, 20), 20);
    assert_eq!(bounded_arg(Some(7), 3, 1, 20), 7);
}

#[test]
fn context_lists_first_edges_with_end_names() {
    let mut store = sample();
    store.add_edge(GraphEdge::new("ghost", "a", RelationType::Calls, 900, ""));
    let ctx = symbol_context(&store, "a", 2);
    assert_eq!(ctx.len(), 1);
    assert_eq!(ctx[0].node.id, "a");
    // incoming: b CALLS a, file CONTAINS a (limit 2 drops ghost)
    assert_eq!(ctx[0].incoming.len(), 2);
    assert_eq!(ctx[0].incoming[0].edge.source_id, "b");
    assert_eq!(ctx[0].incoming[0].source_name.as_deref(), Some("b"));
    assert_eq!(ctx[0].incoming[1].source_name.as_deref(), Some("f.ts"));
    assert_eq!(ctx[0].outgoing.len(), 1);
    assert_eq!(ctx[0].outgoing[0].target_name.as_deref(), Some("d"));
    let wide = symbol_context(&store, "a", 10);
    assert_eq!(wide[0].incoming.len(), 3);
    assert_eq!(wide[0].incoming[2].source_name, None);
    assert!(symbol_context(&store, "zzz", 10).is_empty());
}

#[test]
fn symbol_kinds_by_name() {
    assert_eq!(symbol_label("fn"), Some(NodeLabel::Function));
    assert_eq!(symbol_label("Function"), Some(NodeLabel::Function));
    assert_eq!(symbol_label("TYPE"), Some(NodeLabel::TypeAlias));
    assert_eq!(symbol_label("prop"), Some(NodeLabel::Property));
    assert_eq!(symbol_label("trait"), Some(NodeLabel::Trait));
    assert_eq!(symbol_label("file"), None);
}

#[test]
fn listing_symbols_by_kind_or_all() {
    let mut store = sample();
    add(&mut store, "K", "K", NodeLabel::Class);
    let fns = list_symbols(&store, Some(NodeLabel::Function), 2);
    let ids: Vec<&str> = fns.iter().map(|n| n.id.as_str()).collect();
    assert_eq!(ids, vec!["a", "b"]);
    let all = list_symbols(&store, None, 10);
    let ids: Vec<&str> = all.iter().map(|n| n.id.as_str()).collect();
    assert_eq!(ids, vec!["a", "b", "c", "d", "K"]);
    assert!(list_symbols(&store, Some(NodeLabel::Enum), 5).is_empty());
}

#[test]
fn impact_limit_caps_all_origins_together() {
    let mut store = GraphStore::new();
    add(&mut store, "f1", "f", NodeLabel::Function);
    add(&mut store, "f2", "f", NodeLabel::Function);
    add(&mut store, "c1", "c1", NodeLabel::Function);
    add(&mut store, "c2", "c2", NodeLabel::Function);
    store.add_edge(GraphEdge::new("c1", "f1", RelationType::Calls, 900, ""));
    store.add_edge(GraphEdge::new("c2", "f2", RelationType::Calls, 900, ""));
    assert_eq!(impact(&store, "f", Direction::Incoming, 3, 1).len(), 1);
    assert_eq!(impact(&store, "f", Direction::Incoming, 3, 10).len(), 2);
}
