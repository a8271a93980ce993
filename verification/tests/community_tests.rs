use gitgrapher::community::{cluster_adjacency, cluster_links, community_graph, community_groups, community_label};
use gitgrapher::graph::{GraphEdge, GraphNode, GraphStore, NodeProps};
use gitgrapher::types::{NodeLabel, RelationType};

fn store_with(nodes: &[(&str, &str)]) -> GraphStore {
    let mut store = GraphStore::new();
    for (id, file) in nodes {
        store.add_node(GraphNode {
            id: id.to_string(),
            label: NodeLabel::Function,
            name: id.to_string(),
            file_path: file.to_string(),
            props: NodeProps::none(),
        });
    }
    store
}

fn ids(v: &[&str]) -> Vec<String> {
    v.iter().map(|s| s.to_string()).collect()
}

#[test]
fn label_is_most_common_folder() {
    let store = store_with(&[("a", "src/auth/login.ts"), ("b", "src/auth/logout.ts"), ("c", "src/db/conn.ts")]);
    assert_eq!(community_label(&ids(&["c", "a", "b"]), &store, 0), "Auth");
}

#[test]
fn label_skips_generic_folders_in_any_case() {
    let store = store_with(&[("a", "src/a.ts"), ("b", "pkg/Utils/b.ts"), ("c", "pkg/billing/c.ts")]);
    assert_eq!(community_label(&ids(&["a", "b", "c"]), &store, 0), "Billing");
}

#[test]
fn label_falls_back_to_cluster_index() {
    let store = store_with(&[("a", "src/a.ts"), ("b", "main.ts")]);
    assert_eq!(community_label(&ids(&["a", "b", "missing"]), &store, 12), "Cluster_12");
}

#[test]
fn label_tie_goes_to_first_seen_folder() {
    let store = store_with(&[("a", "x/payments/a.ts"), ("b", "x/orders/b.ts")]);
    assert_eq!(community_label(&ids(&["b", "a"]), &store, 0), "Orders");
}

#[test]
fn label_keeps_non_letter_start() {
    let store = store_with(&[("a", "x/2fa/a.ts"), ("b", "x/Éclair/b.ts"), ("c", "x/2fa/c.ts")]);
    assert_eq!(community_label(&ids(&["a", "b", "c"]), &store, 0), "2fa");
    assert_eq!(community_label(&ids(&["b"]), &store, 0), "Éclair");
}

#[test]
fn community_graph_makes_nodes_and_memberships() {
    let store = store_with(&[("a", "src/auth/a.ts"), ("b", "src/auth/b.ts"), ("c", "lib/c.ts"), ("d", "lib/d.ts")]);
    let groups = vec![ids(&["a", "b"]), ids(&["c", "d"])];
    let (nodes, edges) = community_graph(&groups, &store);
    assert_eq!(nodes.len(), 2);
    assert_eq!(nodes[0].id, "comm_0");
    assert_eq!(nodes[0].name, "Auth");
    assert_eq!(nodes[0].label, NodeLabel::Community);
    assert_eq!(nodes[1].id, "comm_1");
    assert_eq!(nodes[1].name, "Cluster_1");
    assert_eq!(nodes[0].props.symbol_count, Some(2));
    assert_eq!(nodes[0].props.heuristic_label.as_deref(), Some("Auth"));
    assert_eq!(edges.len(), 4);
    assert_eq!(edges[0].id, "a-[MEMBER_OF]->comm_0");
    assert_eq!(edges[3].id, "d-[MEMBER_OF]->comm_1");
    assert_eq!(edges[3].confidence, 1000);
    assert_eq!(edges[3].reason, "community membership");
}

#[test]
fn clustering_keeps_confident_links_between_symbols() {
    let mut store = store_with(&[("a", "a.ts"), ("b", "b.ts"), ("c", "c.ts")]);
    store.add_node(GraphNode {
        id: "file::a.ts".to_string(),
        label: NodeLabel::File,
        name: "a.ts".to_string(),
        file_path: "a.ts".to_string(),
        props: NodeProps::none(),
    });
    store.add_edge(GraphEdge::new("a", "b", RelationType::Calls, 900, ""));
    store.add_edge(GraphEdge::new("b", "c", RelationType::Calls, 400, ""));
    store.add_edge(GraphEdge::new("c", "a", RelationType::Extends, 500, ""));
    store.add_edge(GraphEdge::new("a", "a", RelationType::Calls, 900, ""));
    store.add_edge(GraphEdge::new("file::a.ts", "a", RelationType::Contains, 1000, ""));
    store.add_edge(GraphEdge::new("b", "c", RelationType::Imports, 900, ""));
    let links = cluster_links(&store);
    assert_eq!(links, vec![("a".to_string(), "b".to_string()), ("c".to_string(), "a".to_string())]);
    let adjacency = cluster_adjacency(&store);
    assert_eq!(
        adjacency,
        vec![
            ("a".to_string(), ids(&["b", "c"])),
            ("b".to_string(), ids(&["a"])),
            ("c".to_string(), ids(&["a"])),
        ]
    );
}

#[test]
fn community_groups_drop_singletons_and_put_the_largest_first() {
    let assignment: Vec<(String, usize)> = vec![
        ("a".to_string(), 3),
        ("b".to_string(), 7),
        ("c".to_string(), 3),
        ("d".to_string(), 9),
        ("e".to_string(), 7),
        ("f".to_string(), 7),
    ];
    let groups = community_groups(&assignment);
    assert_eq!(groups, vec![ids(&["b", "e", "f"]), ids(&["a", "c"])]);
}
