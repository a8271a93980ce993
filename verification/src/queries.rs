//! Queries over the graph's symbols: listing them, the edges into and out
//! of a symbol, and what depends on it, or what it depends on, found by a
//! bounded traversal over CALLS, IMPORTS, EXTENDS, IMPLEMENTS and USES edges.

use vstd::prelude::*;
use crate::text::str_eq;
use crate::types::{NodeLabel, RelationType, spec_is_symbol};
use crate::graph::{spec_to_lowercase, to_lowercase};
use crate::graph::{
    Direction, EdgeView, GraphEdge, GraphNode, GraphStore, GraphView, HitView, NodeView, TraversalHit, edges_listed,
    edges_named, follows, hits_view, ids_view, lemma_bfs_hits, lemma_bfs_shortest, lemma_listed_edge_is_neighbor, listed,
    neighbor_edges, nodes_named, path_follows, spec_bfs, step_ok,
};

verus! {

/// The direction a user names: `up`/`upstream` is what depends on the
/// symbol, `down`/`downstream` what it depends on, `both` either.
pub open spec fn spec_parse_direction(s: Seq<char>) -> Option<Direction> {
    if s == "up"@ || s == "upstream"@ {
        Some(Direction::Incoming)
    } else if s == "down"@ || s == "downstream"@ {
        Some(Direction::Outgoing)
    } else if s == "both"@ {
        Some(Direction::Both)
    } else {
        None
    }
}

/// The direction a user names, if it is one of `up`, `upstream`, `down`,
/// `downstream` or `both`.
pub fn parse_direction(s: &str) -> (r: Option<Direction>)
    ensures
        r == spec_parse_direction(s@),
{
    if str_eq(s, "up") || str_eq(s, "upstream") {
        Some(Direction::Incoming)
    } else if str_eq(s, "down") || str_eq(s, "downstream") {
        Some(Direction::Outgoing)
    } else if str_eq(s, "both") {
        Some(Direction::Both)
    } else {
        None
    }
}

/// The relations that carry impact.
pub open spec fn impact_relations() -> Seq<RelationType> {
    seq![
        RelationType::Calls,
        RelationType::Imports,
        RelationType::Extends,
        RelationType::Implements,
        RelationType::Uses,
    ]
}

/// Impact follows exactly the calls, imports, extends, implements and uses
/// edges.
pub proof fn lemma_impact_follows(e: EdgeView)
    ensures
        follows(Some(impact_relations()), e) <==> (e.rel_type == RelationType::Calls || e.rel_type == RelationType::Imports
            || e.rel_type == RelationType::Extends || e.rel_type == RelationType::Implements || e.rel_type
            == RelationType::Uses),
{
    let rs = impact_relations();
    if e.rel_type == RelationType::Calls {
        assert(rs[0] == e.rel_type);
    } else if e.rel_type == RelationType::Imports {
        assert(rs[1] == e.rel_type);
    } else if e.rel_type == RelationType::Extends {
        assert(rs[2] == e.rel_type);
    } else if e.rel_type == RelationType::Implements {
        assert(rs[3] == e.rel_type);
    } else if e.rel_type == RelationType::Uses {
        assert(rs[4] == e.rel_type);
    }
}

/// Every calls, imports, extends, implements or uses edge of a store whose
/// edges are listed under their ends is one step of impact: its source is
/// reached at depth 1 from its target going upstream, and its target from
/// its source going downstream (for any depth of at least 1).
pub proof fn lemma_impact_one_step(g: GraphView, eid: Seq<char>, depth: nat)
    requires
        g.edges.dom().finite(),
        edges_listed(g),
        g.edges.dom().contains(eid),
        depth >= 1,
        g.edges[eid].rel_type == RelationType::Calls || g.edges[eid].rel_type == RelationType::Imports
            || g.edges[eid].rel_type == RelationType::Extends || g.edges[eid].rel_type == RelationType::Implements
            || g.edges[eid].rel_type == RelationType::Uses,
        g.edges[eid].source_id != g.edges[eid].target_id,
    ensures
        exists|i: int|
            0 <= i < spec_bfs(g, g.edges[eid].target_id, Direction::Incoming, depth, Some(impact_relations())).len()
                && (#[trigger] spec_bfs(g, g.edges[eid].target_id, Direction::Incoming, depth, Some(impact_relations()))[i]).node_id
                == g.edges[eid].source_id && spec_bfs(
                g,
                g.edges[eid].target_id,
                Direction::Incoming,
                depth,
                Some(impact_relations()),
            )[i].depth == 1,
        exists|i: int|
            0 <= i < spec_bfs(g, g.edges[eid].source_id, Direction::Outgoing, depth, Some(impact_relations())).len()
                && (#[trigger] spec_bfs(g, g.edges[eid].source_id, Direction::Outgoing, depth, Some(impact_relations()))[i]).node_id
                == g.edges[eid].target_id && spec_bfs(
                g,
                g.edges[eid].source_id,
                Direction::Outgoing,
                depth,
                Some(impact_relations()),
            )[i].depth == 1,
{
    let e = g.edges[eid];
    let f = Some(impact_relations());
    lemma_impact_follows(e);
    lemma_listed_edge_is_neighbor(g, eid);
    // Upstream: from the target back to the source.
    let ni = neighbor_edges(g, e.target_id, Direction::Incoming);
    let ki = choose|k: int| 0 <= k < ni.len() && ni[k] == e;
    assert(step_ok(g, Direction::Incoming, f, e.target_id, e.source_id));
    let pi = seq![e.target_id, e.source_id];
    assert(path_follows(g, Direction::Incoming, f, pi)) by {
        assert forall|k: int| 0 <= k < pi.len() - 1 implies step_ok(g, Direction::Incoming, f, #[trigger] pi[k], pi[k + 1]) by {
            assert(k == 0);
        }
    }
    lemma_bfs_shortest(g, e.target_id, Direction::Incoming, depth, f);
    lemma_bfs_hits(g, e.target_id, Direction::Incoming, depth, f);
    assert(pi.last() == e.source_id);
    // Downstream: from the source on to the target.
    let no = neighbor_edges(g, e.source_id, Direction::Outgoing);
    let ko = choose|k: int| 0 <= k < no.len() && no[k] == e;
    assert(step_ok(g, Direction::Outgoing, f, e.source_id, e.target_id));
    let po = seq![e.source_id, e.target_id];
    assert(path_follows(g, Direction::Outgoing, f, po)) by {
        assert forall|k: int| 0 <= k < po.len() - 1 implies step_ok(g, Direction::Outgoing, f, #[trigger] po[k], po[k + 1]) by {
            assert(k == 0);
        }
    }
    lemma_bfs_shortest(g, e.source_id, Direction::Outgoing, depth, f);
    lemma_bfs_hits(g, e.source_id, Direction::Outgoing, depth, f);
    assert(po.last() == e.target_id);
}

fn impact_relation_list() -> (r: Vec<RelationType>)
    ensures
        r@ == impact_relations(),
{
    let r = vec![
        RelationType::Calls,
        RelationType::Imports,
        RelationType::Extends,
        RelationType::Implements,
        RelationType::Uses,
    ];
    assert(r@ =~= impact_relations());
    r
}

/// The content of an impact hit.
pub struct ImpactView {
    pub origin: Seq<char>,
    pub hit: HitView,
    pub node: NodeView,
}

/// A symbol reached from the symbol `origin_id`: its depth, the path of ids
/// that reached it, and its node.
#[derive(Debug)]
pub struct ImpactHit {
    pub origin_id: String,
    pub depth: usize,
    pub path: Vec<String>,
    pub node: GraphNode,
}

impl View for ImpactHit {
    type V = ImpactView;

    open spec fn view(&self) -> ImpactView {
        ImpactView {
            origin: self.origin_id@,
            hit: HitView { node_id: self.node.id@, depth: self.depth as nat, path: ids_view(self.path@) },
            node: self.node@,
        }
    }
}

/// The views of a sequence of impact hits.
pub open spec fn impact_views(s: Seq<ImpactHit>) -> Seq<ImpactView> {
    s.map_values(|h: ImpactHit| h@)
}

/// The first `n` entries of `s` (all of them when there are fewer).
pub open spec fn first_n<A>(s: Seq<A>, n: nat) -> Seq<A> {
    if s.len() <= n {
        s
    } else {
        s.take(n as int)
    }
}

/// The hits among `hits` whose node is in the graph and is a symbol, each
/// with its node.
pub open spec fn symbol_hits(g: GraphView, origin: Seq<char>, hits: Seq<HitView>) -> Seq<ImpactView>
    decreases hits.len(),
{
    if hits.len() == 0 {
        Seq::empty()
    } else {
        let prev = symbol_hits(g, origin, hits.drop_last());
        let h = hits.last();
        if g.nodes.dom().contains(h.node_id) && spec_is_symbol(g.nodes[h.node_id].label) {
            prev.push(ImpactView { origin, hit: h, node: g.nodes[h.node_id] })
        } else {
            prev
        }
    }
}

/// The impact of each symbol among `origins`, origin by origin: of the first
/// `limit` nodes that the traversal reaches within `depth` steps, those that
/// are symbols.
pub open spec fn impact_of(g: GraphView, origins: Seq<NodeView>, dir: Direction, depth: nat, limit: nat) -> Seq<ImpactView>
    decreases origins.len(),
{
    if origins.len() == 0 {
        Seq::empty()
    } else {
        let prev = impact_of(g, origins.drop_last(), dir, depth, limit);
        let o = origins.last();
        if spec_is_symbol(o.label) {
            prev + symbol_hits(g, o.id, first_n(spec_bfs(g, o.id, dir, depth, Some(impact_relations())), limit))
        } else {
            prev
        }
    }
}

/// The impact of every symbol named `name`, at most `limit` nodes in all:
/// for each symbol, in the order the store lists them by name, the symbols
/// among the first `limit` nodes reached within `depth` steps in
/// `direction` over impact-carrying edges; of all these, the first `limit`.
pub fn impact(store: &GraphStore, name: &str, direction: Direction, depth: usize, limit: usize) -> (r: Vec<ImpactHit>)
    requires
        store.wf(),
    ensures
        impact_views(r@) == first_n(
            impact_of(
                store@,
                nodes_named(store@.nodes, listed(store@.by_name, name@)),
                direction,
                depth as nat,
                limit as nat,
            ),
            limit as nat,
        ),
        r@.len() <= limit,
{
    proof {
        store.lemma_stored_under_id();
    }
    let origins = store.nodes_by_name(name);
    let ghost ov = origins@.map_values(|n: GraphNode| n@);
    let rels = impact_relation_list();
    let mut out: Vec<ImpactHit> = Vec::new();
    let mut i: usize = 0;
    while i < origins.len()
        invariant
            i <= origins@.len(),
            store.wf(),
            rels@ == impact_relations(),
            ov == origins@.map_values(|n: GraphNode| n@),
            impact_views(out@) == impact_of(store@, ov.subrange(0, i as int), direction, depth as nat, limit as nat),
            forall|k: Seq<char>| #[trigger] store@.nodes.dom().contains(k) ==> store@.nodes[k].id == k,
        decreases origins.len() - i,
    {
        let o = &origins[i];
        assert(ov.subrange(0, i + 1).drop_last() =~= ov.subrange(0, i as int));
        assert(ov.subrange(0, i + 1).last() == o@);
        if o.label.is_symbol() {
            let hits = store.bfs(o.id.as_str(), direction, depth, Some(rels.as_slice()));
            let ghost hv = hits_view(hits@);
            let n = if hits.len() <= limit { hits.len() } else { limit };
            let ghost taken = first_n(hv, limit as nat);
            assert(taken =~= hv.subrange(0, n as int));
            let ghost base = impact_views(out@);
            let mut j: usize = 0;
            while j < n
                invariant
                    j <= n <= hits@.len(),
                    store.wf(),
                    hv == hits_view(hits@),
                    impact_views(out@) == base + symbol_hits(store@, o.id@, hv.subrange(0, j as int)),
                    forall|k: Seq<char>| #[trigger] store@.nodes.dom().contains(k) ==> store@.nodes[k].id == k,
                decreases n - j,
            {
                let h: &TraversalHit = &hits[j];
                assert(hv.subrange(0, j + 1).drop_last() =~= hv.subrange(0, j as int));
                assert(hv.subrange(0, j + 1).last() == h@);
                match store.get_node(h.node_id.as_str()) {
                    Some(node) => {
                        if node.label.is_symbol() {
                            let ghost before = impact_views(out@);
                            let item = ImpactHit {
                                origin_id: o.id.clone(),
                                depth: h.depth,
                                path: h.path.clone(),
                                node,
                            };
                            assert(ids_view(item.path@) == ids_view(h.path@));
                            out.push(item);
                            assert(impact_views(out@) =~= before.push(item@));
                        }
                    },
                    None => {},
                }
                j = j + 1;
            }
            assert(impact_views(out@) =~= base + symbol_hits(store@, o.id@, taken));
        }
        i = i + 1;
    }
    assert(ov.subrange(0, ov.len() as int) =~= ov);
    let ghost all = out@;
    out.truncate(limit);
    assert(impact_views(out@) =~= first_n(impact_views(all), limit as nat));
    out
}

/// The name of the node `id`, if the graph holds it.
pub open spec fn node_name(g: GraphView, id: Seq<char>) -> Option<Seq<char>> {
    if g.nodes.dom().contains(id) {
        Some(g.nodes[id].name)
    } else {
        None
    }
}

/// The content of an edge shown with the names of its two ends.
pub struct NamedEdgeView {
    pub edge: EdgeView,
    pub source_name: Option<Seq<char>>,
    pub target_name: Option<Seq<char>>,
}

/// An edge with the names of its two ends, where the graph holds them.
#[derive(Debug)]
pub struct NamedEdge {
    pub edge: GraphEdge,
    pub source_name: Option<String>,
    pub target_name: Option<String>,
}

impl View for NamedEdge {
    type V = NamedEdgeView;

    open spec fn view(&self) -> NamedEdgeView {
        NamedEdgeView {
            edge: self.edge@,
            source_name: match self.source_name {
                Some(n) => Some(n@),
                None => None,
            },
            target_name: match self.target_name {
                Some(n) => Some(n@),
                None => None,
            },
        }
    }
}

/// The edge `e` with the names of its ends in `g`.
pub open spec fn named_edge(g: GraphView, e: EdgeView) -> NamedEdgeView {
    NamedEdgeView { edge: e, source_name: node_name(g, e.source_id), target_name: node_name(g, e.target_id) }
}

/// The content of a symbol's context.
pub struct ContextView {
    pub node: NodeView,
    pub incoming: Seq<NamedEdgeView>,
    pub outgoing: Seq<NamedEdgeView>,
}

/// A node with the first edges into it and out of it.
#[derive(Debug)]
pub struct SymbolContext {
    pub node: GraphNode,
    pub incoming: Vec<NamedEdge>,
    pub outgoing: Vec<NamedEdge>,
}

impl View for SymbolContext {
    type V = ContextView;

    open spec fn view(&self) -> ContextView {
        ContextView {
            node: self.node@,
            incoming: self.incoming@.map_values(|e: NamedEdge| e@),
            outgoing: self.outgoing@.map_values(|e: NamedEdge| e@),
        }
    }
}

/// The context of the node `n`: the first `limit` edges into it and out of
/// it, in the order they were added, with the names of their ends.
pub open spec fn context_of(g: GraphView, n: NodeView, limit: nat) -> ContextView {
    ContextView {
        node: n,
        incoming: first_n(edges_named(g.edges, listed(g.incoming, n.id), None), limit).map_values(
            |e: EdgeView| named_edge(g, e),
        ),
        outgoing: first_n(edges_named(g.edges, listed(g.outgoing, n.id), None), limit).map_values(
            |e: EdgeView| named_edge(g, e),
        ),
    }
}

/// The name of the node `id`, if the store holds it.
pub(crate) fn name_of(store: &GraphStore, id: &str) -> (r: Option<String>)
    requires
        store.wf(),
    ensures
        match r {
            Some(n) => node_name(store@, id@) == Some(n@),
            None => node_name(store@, id@) is None,
        },
{
    match store.get_node(id) {
        Some(n) => Some(n.name),
        None => None,
    }
}

/// The first `limit` of `edges`, each with the names of its ends.
fn name_edges(store: &GraphStore, edges: &Vec<GraphEdge>, limit: usize) -> (r: Vec<NamedEdge>)
    requires
        store.wf(),
    ensures
        r@.map_values(|e: NamedEdge| e@) == first_n(edges@.map_values(|e: GraphEdge| e@), limit as nat).map_values(
            |e: EdgeView| named_edge(store@, e),
        ),
{
    let ghost ev = edges@.map_values(|e: GraphEdge| e@);
    let n = if edges.len() <= limit { edges.len() } else { limit };
    assert(first_n(ev, limit as nat) =~= ev.subrange(0, n as int));
    let mut out: Vec<NamedEdge> = Vec::new();
    let mut i: usize = 0;
    while i < n
        invariant
            i <= n <= edges@.len(),
            store.wf(),
            ev == edges@.map_values(|e: GraphEdge| e@),
            out@.map_values(|e: NamedEdge| e@) == ev.subrange(0, i as int).map_values(|e: EdgeView| named_edge(store@, e)),
        decreases n - i,
    {
        let e = &edges[i];
        let item = NamedEdge {
            edge: e.duplicate(),
            source_name: name_of(store, e.source_id.as_str()),
            target_name: name_of(store, e.target_id.as_str()),
        };
        let ghost before = out@;
        out.push(item);
        assert(out@.map_values(|e: NamedEdge| e@) =~= before.map_values(|e: NamedEdge| e@).push(named_edge(store@, ev[i as int])));
        assert(ev.subrange(0, i + 1).map_values(|e: EdgeView| named_edge(store@, e)) =~= ev.subrange(0, i as int).map_values(
            |e: EdgeView| named_edge(store@, e),
        ).push(named_edge(store@, ev[i as int])));
        i = i + 1;
    }
    out
}

/// The context of every node named `name`, in the order the store lists
/// them by name: the first `limit` edges into it and out of it, with the
/// names of their ends.
pub fn symbol_context(store: &GraphStore, name: &str, limit: usize) -> (r: Vec<SymbolContext>)
    requires
        store.wf(),
    ensures
        r@.map_values(|c: SymbolContext| c@) == nodes_named(store@.nodes, listed(store@.by_name, name@)).map_values(
            |n: NodeView| context_of(store@, n, limit as nat),
        ),
{
    let nodes = store.nodes_by_name(name);
    let ghost nv = nodes@.map_values(|n: GraphNode| n@);
    let mut out: Vec<SymbolContext> = Vec::new();
    let mut i: usize = 0;
    while i < nodes.len()
        invariant
            i <= nodes@.len(),
            store.wf(),
            nv == nodes@.map_values(|n: GraphNode| n@),
            out@.map_values(|c: SymbolContext| c@) == nv.subrange(0, i as int).map_values(
                |n: NodeView| context_of(store@, n, limit as nat),
            ),
        decreases nodes.len() - i,
    {
        let n = &nodes[i];
        let incoming = store.incoming_edges(n.id.as_str(), None);
        let outgoing = store.outgoing_edges(n.id.as_str(), None);
        let item = SymbolContext {
            node: n.duplicate(),
            incoming: name_edges(store, &incoming, limit),
            outgoing: name_edges(store, &outgoing, limit),
        };
        let ghost before = out@;
        out.push(item);
        assert(out@.map_values(|c: SymbolContext| c@) =~= before.map_values(|c: SymbolContext| c@).push(
            context_of(store@, nv[i as int], limit as nat),
        ));
        assert(nv.subrange(0, i + 1).map_values(|n: NodeView| context_of(store@, n, limit as nat)) =~= nv.subrange(
            0,
            i as int,
        ).map_values(|n: NodeView| context_of(store@, n, limit as nat)).push(context_of(store@, nv[i as int], limit as nat)));
        i = i + 1;
    }
    assert(nv.subrange(0, nv.len() as int) =~= nv);
    out
}

/// The kind of symbol a user names (compared in lowercase): `function` or
/// `fn`, `class`, `method`, `interface`, `enum`, `type` or `typealias`,
/// `variable` or `var`, `property` or `prop`, `struct`, `trait`.
pub open spec fn spec_symbol_label(s: Seq<char>) -> Option<NodeLabel> {
    let l = spec_to_lowercase(s);
    if l == "function"@ || l == "fn"@ {
        Some(NodeLabel::Function)
    } else if l == "class"@ {
        Some(NodeLabel::Class)
    } else if l == "method"@ {
        Some(NodeLabel::Method)
    } else if l == "interface"@ {
        Some(NodeLabel::Interface)
    } else if l == "enum"@ {
        Some(NodeLabel::Enum)
    } else if l == "type"@ || l == "typealias"@ {
        Some(NodeLabel::TypeAlias)
    } else if l == "variable"@ || l == "var"@ {
        Some(NodeLabel::Variable)
    } else if l == "property"@ || l == "prop"@ {
        Some(NodeLabel::Property)
    } else if l == "struct"@ {
        Some(NodeLabel::Struct)
    } else if l == "trait"@ {
        Some(NodeLabel::Trait)
    } else {
        None
    }
}

/// The kind of symbol a user names, if it is a known one.
pub fn symbol_label(s: &str) -> (r: Option<NodeLabel>)
    ensures
        r == spec_symbol_label(s@),
{
    let lower = to_lowercase(s);
    let l = lower.as_str();
    if str_eq(l, "function") || str_eq(l, "fn") {
        Some(NodeLabel::Function)
    } else if str_eq(l, "class") {
        Some(NodeLabel::Class)
    } else if str_eq(l, "method") {
        Some(NodeLabel::Method)
    } else if str_eq(l, "interface") {
        Some(NodeLabel::Interface)
    } else if str_eq(l, "enum") {
        Some(NodeLabel::Enum)
    } else if str_eq(l, "type") || str_eq(l, "typealias") {
        Some(NodeLabel::TypeAlias)
    } else if str_eq(l, "variable") || str_eq(l, "var") {
        Some(NodeLabel::Variable)
    } else if str_eq(l, "property") || str_eq(l, "prop") {
        Some(NodeLabel::Property)
    } else if str_eq(l, "struct") {
        Some(NodeLabel::Struct)
    } else if str_eq(l, "trait") {
        Some(NodeLabel::Trait)
    } else {
        None
    }
}

/// The symbol nodes among `ns`, in order, at most `limit` of them.
pub open spec fn first_symbols(ns: Seq<NodeView>, limit: nat) -> Seq<NodeView>
    decreases ns.len(),
{
    if ns.len() == 0 {
        Seq::empty()
    } else {
        let prev = first_symbols(ns.drop_last(), limit);
        if spec_is_symbol(ns.last().label) && prev.len() < limit {
            prev.push(ns.last())
        } else {
            prev
        }
    }
}

/// The symbols to list: with a kind, the first `limit` nodes of that kind in
/// the order they were added; without, the first `limit` symbol nodes in the
/// order the store keeps its nodes.
pub fn list_symbols(store: &GraphStore, label: Option<NodeLabel>, limit: usize) -> (r: Vec<GraphNode>)
    requires
        store.wf(),
    ensures
        r@.map_values(|n: GraphNode| n@) == match label {
            Some(l) => first_n(nodes_named(store@.nodes, listed(store@.by_label, l)), limit as nat),
            None => first_symbols(store.node_list(), limit as nat),
        },
{
    match label {
        Some(l) => {
            let all = store.nodes_by_label(l);
            let ghost av = all@.map_values(|n: GraphNode| n@);
            let n = if all.len() <= limit { all.len() } else { limit };
            assert(first_n(av, limit as nat) =~= av.subrange(0, n as int));
            let mut out: Vec<GraphNode> = Vec::new();
            let mut i: usize = 0;
            while i < n
                invariant
                    i <= n <= all@.len(),
                    av == all@.map_values(|n: GraphNode| n@),
                    out@.map_values(|n: GraphNode| n@) == av.subrange(0, i as int),
                decreases n - i,
            {
                let ghost before = out@;
                out.push(all[i].duplicate());
                assert(out@.map_values(|n: GraphNode| n@) =~= before.map_values(|n: GraphNode| n@).push(av[i as int]));
                i = i + 1;
            }
            out
        },
        None => {
            let all = store.nodes();
            let ghost av = all@.map_values(|n: GraphNode| n@);
            let mut out: Vec<GraphNode> = Vec::new();
            let mut i: usize = 0;
            while i < all.len()
                invariant
                    i <= all@.len(),
                    av == all@.map_values(|n: GraphNode| n@),
                    out@.map_values(|n: GraphNode| n@) == first_symbols(av.subrange(0, i as int), limit as nat),
                decreases all.len() - i,
            {
                assert(av.subrange(0, i + 1).drop_last() =~= av.subrange(0, i as int));
                assert(av.subrange(0, i + 1).last() == all@[i as int]@);
                if all[i].label.is_symbol() && out.len() < limit {
                    let ghost before = out@;
                    out.push(all[i].duplicate());
                    assert(out@.map_values(|n: GraphNode| n@) =~= before.map_values(|n: GraphNode| n@).push(av[i as int]));
                }
                i = i + 1;
            }
            assert(av.subrange(0, av.len() as int) =~= av);
            out
        },
    }
}

} // verus!
