use gitgrapher::graph::{GraphEdge, GraphNode, GraphStore, NodeProps};
use gitgrapher::process::{
    call_adjacency, call_links, capitalize, deduplicate_by_endpoints, deduplicate_traces, process_graph, process_id, process_label, process_traces,
    sanitize, step_reason, trace_from_entry, ProcessConfig,
};
use gitgrapher::types::{NodeLabel, RelationType};

fn ids(v: &[&str]) -> Vec<String> {
    v.iter().map(|s| s.to_string()).collect()
}

fn forward(edges: &[(&str, &[&str])]) -> Vec<(String, Vec<String>)> {
    edges.iter().map(|(a, bs)| (a.to_string(), ids(bs))).collect()
}

#[test]
fn traces_follow_calls_without_cycles() {
    let fwd = forward(&[("a", &["b"]), ("b", &["c", "a"]), ("c", &["d"])]);
    let config = ProcessConfig::default();
    let traces = trace_from_entry("a", &fwd, &config);
    assert_eq!(traces, vec![ids(&["a", "b", "c", "d"])]);
}

#[test]
fn traces_branch_and_stop_at_depth() {
    let fwd = forward(&[("a", &["b", "c", "d"]), ("b", &["e"])]);
    let config = ProcessConfig { max_trace_depth: 10, max_branching: 2, max_processes: 75, min_steps: 3 };
    let traces = trace_from_entry("a", &fwd, &config);
    // Only the first two callees of `a` are followed; `c` calls nothing.
    assert_eq!(traces, vec![ids(&["a", "c"]), ids(&["a", "b", "e"])]);

    let shallow = ProcessConfig { max_trace_depth: 1, max_branching: 4, max_processes: 75, min_steps: 3 };
    let traces = trace_from_entry("a", &fwd, &shallow);
    assert_eq!(traces, vec![ids(&["a", "b"]), ids(&["a", "c"]), ids(&["a", "d"])]);

    let lone = trace_from_entry("z", &fwd, &config);
    assert_eq!(lone, vec![ids(&["z"])]);
}

#[test]
fn default_process_config() {
    let c = ProcessConfig::default();
    assert_eq!((c.max_trace_depth, c.max_branching, c.max_processes, c.min_steps), (10, 4, 75, 3));
}

#[test]
fn subsumed_traces_are_dropped() {
    let traces = vec![ids(&["a", "b"]), ids(&["a", "b", "c"]), ids(&["x", "y"]), ids(&["c", "a"])];
    let kept = deduplicate_traces(traces);
    assert_eq!(kept, vec![ids(&["a", "b", "c"]), ids(&["x", "y"])]);
    assert!(deduplicate_traces(vec![]).is_empty());
}

#[test]
fn longest_trace_per_endpoint_pair() {
    let traces = vec![
        ids(&["a", "z"]),
        ids(&["a", "b", "z"]),
        ids(&["a", "c", "z"]),
        vec![],
        ids(&["q", "r"]),
    ];
    let best = deduplicate_by_endpoints(traces);
    assert_eq!(best, vec![ids(&["a", "b", "z"]), ids(&["q", "r"])]);
}

#[test]
fn process_names() {
    assert_eq!(capitalize("handleRequest"), "HandleRequest");
    assert_eq!(capitalize(""), "");
    assert_eq!(capitalize("ßig"), "SSig");
    assert_eq!(sanitize("get-user.v2"), "get_user_v2");
    assert_eq!(sanitize("ok_1"), "ok_1");
    assert_eq!(process_id(3, "handle request"), "proc_3_handle_request");
    assert_eq!(process_label("main", "formatResponse"), "Main -> FormatResponse");
    assert_eq!(step_reason(2, 5), "step 2 of 5");
}

#[test]
fn process_traces_from_ranked_entries() {
    let forward = vec![
        ("main".to_string(), vec!["load".to_string()]),
        ("load".to_string(), vec!["parse".to_string()]),
        ("other".to_string(), vec!["load".to_string()]),
    ];
    let config = ProcessConfig { max_trace_depth: 10, max_branching: 4, max_processes: 75, min_steps: 3 };
    let traces = process_traces(&["main".to_string(), "other".to_string(), "parse".to_string()], &forward, &config);
    assert_eq!(
        traces,
        vec![
            vec!["main".to_string(), "load".to_string(), "parse".to_string()],
            vec!["other".to_string(), "load".to_string(), "parse".to_string()],
        ]
    );
    let short = ProcessConfig { max_trace_depth: 10, max_branching: 4, max_processes: 75, min_steps: 4 };
    assert!(process_traces(&["main".to_string()], &forward, &short).is_empty());
}

#[test]
fn process_graph_names_and_links_steps() {
    let mut store = GraphStore::new();
    for (id, name) in [("f1", "handleRequest"), ("f2", "load"), ("f3", "save")] {
        store.add_node(GraphNode {
            id: id.to_string(),
            label: NodeLabel::Function,
            name: name.to_string(),
            file_path: "a.ts".to_string(),
            props: NodeProps::none(),
        });
    }
    let traces = vec![
        vec!["f1".to_string(), "f2".to_string(), "f3".to_string()],
        vec!["f2".to_string(), "ghost".to_string()],
    ];
    let membership = vec![
        ("f1".to_string(), "comm_0".to_string()),
        ("f3".to_string(), "comm_1".to_string()),
        ("f2".to_string(), "comm_0".to_string()),
    ];
    let g = process_graph(&traces, &store, &membership);
    assert_eq!(g.nodes.len(), 2);
    assert_eq!(g.nodes[0].id, "proc_0_handleRequest");
    assert_eq!(g.nodes[0].name, "HandleRequest -> Save");
    assert_eq!(g.nodes[0].label, NodeLabel::Process);
    assert_eq!(g.nodes[1].id, "proc_1_load");
    assert_eq!(g.nodes[1].name, "Load -> ?");
    assert_eq!(g.edges.len(), 5);
    assert_eq!(g.edges[0].id, "f1-[STEP_IN_PROCESS]->proc_0_handleRequest");
    assert_eq!(g.edges[4].id, "ghost-[STEP_IN_PROCESS]->proc_1_load");
    assert_eq!(g.nodes[0].props.step_count, Some(3));
    assert_eq!(g.nodes[0].props.entry_point_id.as_deref(), Some("f1"));
    assert_eq!(g.nodes[0].props.terminal_id.as_deref(), Some("f3"));
    assert_eq!(g.nodes[0].props.process_type.as_deref(), Some("cross_community"));
    assert_eq!(g.nodes[1].props.process_type.as_deref(), Some("intra_community"));
    assert_eq!(g.nodes[1].props.step_count, Some(2));
    assert_eq!(g.nodes[0].props.communities, Some(vec!["comm_0".to_string(), "comm_1".to_string()]));
    assert_eq!(g.nodes[1].props.communities, Some(vec!["comm_0".to_string()]));
    assert_eq!(g.edges[1].reason, "step 2 of 3");
    assert_eq!(g.edges[1].step, Some(2));
    assert_eq!(g.edges[1].confidence, 1000);
    assert_eq!(g.edges[4].reason, "step 2 of 2");
    assert_eq!(g.cross_community, 1);
}

#[test]
fn tracing_follows_confident_calls_grouped_by_caller() {
    let mut store = GraphStore::new();
    store.add_edge(GraphEdge::new("a", "b", RelationType::Calls, 900, ""));
    store.add_edge(GraphEdge::new("c", "d", RelationType::Calls, 950, ""));
    store.add_edge(GraphEdge::new("a", "c", RelationType::Calls, 500, ""));
    store.add_edge(GraphEdge::new("a", "d", RelationType::Calls, 499, ""));
    store.add_edge(GraphEdge::new("a", "e", RelationType::Imports, 900, ""));
    let links = call_links(&store);
    assert_eq!(links.len(), 3);
    let adjacency = call_adjacency(&links);
    assert_eq!(adjacency, forward(&[("a", &["b", "c"]), ("c", &["d"])]));
}
