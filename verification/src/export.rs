//! Graph export: the Graphviz DOT text of a graph's symbols and the edges
//! between them, and the nodes and edges the JSON and HTML exports write.

use vstd::prelude::*;
use crate::text::{chars_of, string_of};
use crate::types::{NodeLabel, RelationType, label_name, relation_name, spec_is_symbol};
use crate::graph::{EdgeView, GraphEdge, GraphNode, GraphStore, GraphView, NodeView, listed};
use vstd::hash_map::StringHashMap;
use crate::process::{sanitize, spec_sanitize};
use crate::call_resolver::contains_str;
use crate::queries::first_symbols;

verus! {

/// The fill color of a node in DOT output.
pub open spec fn dot_node_color(l: NodeLabel) -> Seq<char> {
    match l {
        NodeLabel::Class => "#4FC3F7"@,
        NodeLabel::Interface => "#81C784"@,
        NodeLabel::Function => "#FFB74D"@,
        NodeLabel::Method => "#FF8A65"@,
        NodeLabel::Enum => "#CE93D8"@,
        _ => "#E0E0E0"@,
    }
}

/// The color of an edge in DOT output.
pub open spec fn dot_edge_color(r: RelationType) -> Seq<char> {
    match r {
        RelationType::Calls => "red"@,
        RelationType::Imports => "blue"@,
        RelationType::Extends | RelationType::Implements => "green"@,
        RelationType::Contains => "gray"@,
        _ => "black"@,
    }
}

/// The opening of the DOT text.
pub open spec fn dot_header() -> Seq<char> {
    "digraph gitgrapher {\n  rankdir=LR;\n  node [shape=box, style=filled];\n\n"@
}

/// The DOT line of a node: its sanitized id, a label of its name and kind,
/// and its color.
pub open spec fn dot_node_line(n: NodeView) -> Seq<char> {
    "  "@ + spec_sanitize(n.id) + " [label=\""@ + n.name + "\\n("@ + label_name(n.label) + ")\", fillcolor=\""@
        + dot_node_color(n.label) + "\"];\n"@
}

/// The DOT line of an edge: its sanitized endpoints, its color and its
/// relation.
pub open spec fn dot_edge_line(e: EdgeView) -> Seq<char> {
    "  "@ + spec_sanitize(e.source_id) + " -> "@ + spec_sanitize(e.target_id) + " [color="@ + dot_edge_color(
        e.rel_type,
    ) + ", label=\""@ + relation_name(e.rel_type) + "\"];\n"@
}

/// The edges among `es` whose two endpoints are both among `ids`, in order.
pub open spec fn dot_edges(es: Seq<EdgeView>, ids: Seq<Seq<char>>) -> Seq<EdgeView>
    decreases es.len(),
{
    if es.len() == 0 {
        Seq::empty()
    } else {
        let prev = dot_edges(es.drop_last(), ids);
        if ids.contains(es.last().source_id) && ids.contains(es.last().target_id) {
            prev.push(es.last())
        } else {
            prev
        }
    }
}

/// The node lines of `ns`, in order.
pub open spec fn node_lines(ns: Seq<NodeView>) -> Seq<char>
    decreases ns.len(),
{
    if ns.len() == 0 {
        Seq::empty()
    } else {
        node_lines(ns.drop_last()) + dot_node_line(ns.last())
    }
}

/// The edge lines of `es`, in order.
pub open spec fn edge_lines(es: Seq<EdgeView>) -> Seq<char>
    decreases es.len(),
{
    if es.len() == 0 {
        Seq::empty()
    } else {
        edge_lines(es.drop_last()) + dot_edge_line(es.last())
    }
}

/// The DOT text of the nodes `ns` and edges `es`: the first `limit` symbol
/// nodes, then every edge between two of them.
pub open spec fn spec_dot_text(ns: Seq<NodeView>, es: Seq<EdgeView>, limit: nat) -> Seq<char> {
    let sel = first_symbols(ns, limit);
    dot_header() + node_lines(sel) + "\n"@ + edge_lines(dot_edges(es, sel.map_values(|n: NodeView| n.id)))
        + "}\n"@
}

/// Appends the characters of `s` to `out`.
fn append(out: &mut Vec<char>, s: &str)
    ensures
        final(out)@ == old(out)@ + s@,
{
    let cs = chars_of(s);
    let mut i: usize = 0;
    while i < cs.len()
        invariant
            i <= cs@.len(),
            cs@ == s@,
            out@ == old(out)@ + cs@.subrange(0, i as int),
        decreases cs.len() - i,
    {
        out.push(cs[i]);
        assert(old(out)@ + cs@.subrange(0, i + 1) =~= (old(out)@ + cs@.subrange(0, i as int)).push(cs@[i as int]));
        i = i + 1;
    }
    assert(cs@.subrange(0, cs@.len() as int) =~= cs@);
}

fn node_color(l: NodeLabel) -> (r: &'static str)
    ensures
        r@ == dot_node_color(l),
{
    proof {
        reveal_strlit("#4FC3F7");
        reveal_strlit("#81C784");
        reveal_strlit("#FFB74D");
        reveal_strlit("#FF8A65");
        reveal_strlit("#CE93D8");
        reveal_strlit("#E0E0E0");
    }
    match l {
        NodeLabel::Class => "#4FC3F7",
        NodeLabel::Interface => "#81C784",
        NodeLabel::Function => "#FFB74D",
        NodeLabel::Method => "#FF8A65",
        NodeLabel::Enum => "#CE93D8",
        _ => "#E0E0E0",
    }
}

fn edge_color(r: RelationType) -> (c: &'static str)
    ensures
        c@ == dot_edge_color(r),
{
    match r {
        RelationType::Calls => "red",
        RelationType::Imports => "blue",
        RelationType::Extends | RelationType::Implements => "green",
        RelationType::Contains => "gray",
        _ => "black",
    }
}

/// Appends the DOT line of a node.
fn push_node_line(out: &mut Vec<char>, n: &GraphNode)
    ensures
        final(out)@ == old(out)@ + dot_node_line(n@),
{
    let id = sanitize(n.id.as_str());
    append(out, "  ");
    append(out, id.as_str());
    append(out, " [label=\"");
    append(out, n.name.as_str());
    append(out, "\\n(");
    append(out, n.label.as_str());
    append(out, ")\", fillcolor=\"");
    append(out, node_color(n.label));
    append(out, "\"];\n");
    assert(out@ =~= old(out)@ + dot_node_line(n@));
}

/// Appends the DOT line of an edge.
fn push_edge_line(out: &mut Vec<char>, e: &GraphEdge)
    ensures
        final(out)@ == old(out)@ + dot_edge_line(e@),
{
    let src = sanitize(e.source_id.as_str());
    let tgt = sanitize(e.target_id.as_str());
    append(out, "  ");
    append(out, src.as_str());
    append(out, " -> ");
    append(out, tgt.as_str());
    append(out, " [color=");
    append(out, edge_color(e.rel_type));
    append(out, ", label=\"");
    append(out, e.rel_type.as_str());
    append(out, "\"];\n");
    assert(out@ =~= old(out)@ + dot_edge_line(e@));
}

/// The Graphviz DOT text of a graph given by its nodes and edges: the first
/// `limit` symbol nodes (500 when no limit is given), colored by kind, and
/// every edge between two of them, colored by relation; ids are sanitized to
/// letters, digits and `_`.
pub fn export_dot_text(nodes: &[GraphNode], edges: &[GraphEdge], limit: Option<usize>) -> (r: String)
    ensures
        r@ == spec_dot_text(
            nodes@.map_values(|n: GraphNode| n@),
            edges@.map_values(|e: GraphEdge| e@),
            match limit {
                Some(l) => l as nat,
                None => 500,
            },
        ),
{
    let max: usize = match limit {
        Some(l) => l,
        None => 500,
    };
    let ghost nv = nodes@.map_values(|n: GraphNode| n@);
    let ghost ev = edges@.map_values(|e: GraphEdge| e@);
    let mut out: Vec<char> = Vec::new();
    append(&mut out, "digraph gitgrapher {\n  rankdir=LR;\n  node [shape=box, style=filled];\n\n");
    let mut ids: Vec<String> = Vec::new();
    let mut count: usize = 0;
    let mut i: usize = 0;
    while i < nodes.len()
        invariant
            i <= nodes@.len(),
            nv == nodes@.map_values(|n: GraphNode| n@),
            count == first_symbols(nv.subrange(0, i as int), max as nat).len(),
            ids@.map_values(|s: String| s@) == first_symbols(nv.subrange(0, i as int), max as nat).map_values(
                |n: NodeView| n.id,
            ),
            out@ == dot_header() + node_lines(first_symbols(nv.subrange(0, i as int), max as nat)),
        decreases nodes.len() - i,
    {
        let n = &nodes[i];
        let ghost prev = first_symbols(nv.subrange(0, i as int), max as nat);
        assert(nv.subrange(0, i + 1).drop_last() =~= nv.subrange(0, i as int));
        assert(nv.subrange(0, i + 1).last() == n@);
        if n.label.is_symbol() && count < max {
            let ghost ib = ids@;
            push_node_line(&mut out, n);
            ids.push(n.id.clone());
            count = count + 1;
            assert(ids@.map_values(|s: String| s@) =~= ib.map_values(|s: String| s@).push(n.id@));
            assert(prev.push(n@).map_values(|m: NodeView| m.id) =~= prev.map_values(|m: NodeView| m.id).push(n.id@));
            assert(node_lines(prev.push(n@)) == node_lines(prev) + dot_node_line(n@)) by {
                assert(prev.push(n@).drop_last() =~= prev);
            }
            assert(out@ =~= dot_header() + node_lines(prev.push(n@)));
        }
        i = i + 1;
    }
    assert(nv.subrange(0, nv.len() as int) =~= nv);
    let ghost sel = first_symbols(nv, max as nat);
    let ghost sel_ids = sel.map_values(|n: NodeView| n.id);
    append(&mut out, "\n");
    let ghost base = out@;
    let mut j: usize = 0;
    while j < edges.len()
        invariant
            j <= edges@.len(),
            ev == edges@.map_values(|e: GraphEdge| e@),
            ids@.map_values(|s: String| s@) == sel_ids,
            out@ == base + edge_lines(dot_edges(ev.subrange(0, j as int), sel_ids)),
        decreases edges.len() - j,
    {
        let e = &edges[j];
        let ghost prev = dot_edges(ev.subrange(0, j as int), sel_ids);
        assert(ev.subrange(0, j + 1).drop_last() =~= ev.subrange(0, j as int));
        assert(ev.subrange(0, j + 1).last() == e@);
        if contains_str(&ids, e.source_id.as_str()) && contains_str(&ids, e.target_id.as_str()) {
            push_edge_line(&mut out, e);
            assert(edge_lines(prev.push(e@)) == edge_lines(prev) + dot_edge_line(e@)) by {
                assert(prev.push(e@).drop_last() =~= prev);
            }
            assert(out@ =~= base + edge_lines(prev.push(e@)));
        }
        j = j + 1;
    }
    assert(ev.subrange(0, ev.len() as int) =~= ev);
    append(&mut out, "}\n");
    proof {
        reveal_strlit("digraph gitgrapher {\n  rankdir=LR;\n  node [shape=box, style=filled];\n\n");
    }
    assert(out@ =~= spec_dot_text(nv, ev, max as nat));
    string_of(out.as_slice())
}

/// The nodes the JSON export writes: the first `limit` nodes of `ns`, in
/// order, that are symbols or files.
pub open spec fn json_nodes(ns: Seq<NodeView>, limit: nat) -> Seq<NodeView>
    decreases ns.len(),
{
    if ns.len() == 0 {
        Seq::empty()
    } else {
        let prev = json_nodes(ns.drop_last(), limit);
        if (spec_is_symbol(ns.last().label) || ns.last().label == NodeLabel::File) && prev.len() < limit {
            prev.push(ns.last())
        } else {
            prev
        }
    }
}

/// The edges among `es`, in order, whose two endpoints are among `ids`;
/// `CONTAINS` edges only where `keep_contains` holds.
pub open spec fn linked_edges(es: Seq<EdgeView>, ids: Seq<Seq<char>>, keep_contains: bool) -> Seq<EdgeView>
    decreases es.len(),
{
    if es.len() == 0 {
        Seq::empty()
    } else {
        let prev = linked_edges(es.drop_last(), ids, keep_contains);
        let e = es.last();
        if ids.contains(e.source_id) && ids.contains(e.target_id) && (keep_contains || e.rel_type
            != RelationType::Contains) {
            prev.push(e)
        } else {
            prev
        }
    }
}

/// The ids of a list of nodes.
pub open spec fn node_ids(ns: Seq<NodeView>) -> Seq<Seq<char>> {
    ns.map_values(|n: NodeView| n.id)
}

/// A set of the ids of `ns`, with its contents stated.
fn id_set(ns: &Vec<GraphNode>) -> (m: StringHashMap<()>)
    ensures
        forall|x: Seq<char>| #[trigger] m@.contains_key(x) <==> node_ids(ns@.map_values(|n: GraphNode| n@)).contains(x),
{
    let ghost ids = node_ids(ns@.map_values(|n: GraphNode| n@));
    let mut m: StringHashMap<()> = StringHashMap::new();
    let mut i: usize = 0;
    while i < ns.len()
        invariant
            i <= ns@.len(),
            ids == node_ids(ns@.map_values(|n: GraphNode| n@)),
            forall|x: Seq<char>| #[trigger] m@.contains_key(x) <==> ids.subrange(0, i as int).contains(x),
        decreases ns.len() - i,
    {
        m.insert(ns[i].id.clone(), ());
        proof {
            assert(ids.subrange(0, i + 1) =~= ids.subrange(0, i as int).push(ns@[i as int].id@));
            assert forall|x: Seq<char>| #[trigger] m@.contains_key(x) <==> ids.subrange(0, i + 1).contains(x) by {
                if x == ns@[i as int].id@ {
                    assert(ids.subrange(0, i + 1)[i as int] == x);
                } else if ids.subrange(0, i + 1).contains(x) {
                    let k = choose|k: int| 0 <= k < i + 1 && #[trigger] ids.subrange(0, i + 1)[k] == x;
                    assert(ids.subrange(0, i as int)[k] == x);
                }
            }
        }
        i = i + 1;
    }
    assert(ids.subrange(0, ns@.len() as int) =~= ids);
    m
}

/// The edges of `edges`, in order, between two ids of `ids`; `CONTAINS`
/// edges only where `keep_contains` holds.
fn edges_among(
    edges: &[GraphEdge],
    ids: &StringHashMap<()>,
    Ghost(id_seq): Ghost<Seq<Seq<char>>>,
    keep_contains: bool,
) -> (r: Vec<GraphEdge>)
    requires
        forall|x: Seq<char>| #[trigger] ids@.contains_key(x) <==> id_seq.contains(x),
    ensures
        r@.map_values(|e: GraphEdge| e@) == linked_edges(edges@.map_values(|e: GraphEdge| e@), id_seq, keep_contains),
{
    let ghost ev = edges@.map_values(|e: GraphEdge| e@);
    let mut out: Vec<GraphEdge> = Vec::new();
    let mut j: usize = 0;
    while j < edges.len()
        invariant
            j <= edges@.len(),
            ev == edges@.map_values(|e: GraphEdge| e@),
            forall|x: Seq<char>| #[trigger] ids@.contains_key(x) <==> id_seq.contains(x),
            out@.map_values(|e: GraphEdge| e@) == linked_edges(ev.subrange(0, j as int), id_seq, keep_contains),
        decreases edges.len() - j,
    {
        let e = &edges[j];
        assert(ev.subrange(0, j + 1).drop_last() =~= ev.subrange(0, j as int));
        assert(ev.subrange(0, j + 1).last() == e@);
        let keep = ids.contains_key(e.source_id.as_str()) && ids.contains_key(e.target_id.as_str()) && (keep_contains
            || !matches!(e.rel_type, RelationType::Contains));
        if keep {
            let ghost before = out@.map_values(|e: GraphEdge| e@);
            out.push(e.duplicate());
            assert(out@.map_values(|e: GraphEdge| e@) =~= before.push(e@));
        }
        j = j + 1;
    }
    assert(ev.subrange(0, ev.len() as int) =~= ev);
    out
}

/// The nodes and edges the JSON export writes: the first `limit` nodes that
/// are symbols or files (all of them when no limit is given), and every edge
/// between two of them.
pub fn export_json_graph(nodes: &[GraphNode], edges: &[GraphEdge], limit: Option<usize>) -> (r: (
    Vec<GraphNode>,
    Vec<GraphEdge>,
))
    ensures
        r.0@.map_values(|n: GraphNode| n@) == json_nodes(
            nodes@.map_values(|n: GraphNode| n@),
            match limit {
                Some(l) => l as nat,
                None => usize::MAX as nat,
            },
        ),
        r.1@.map_values(|e: GraphEdge| e@) == linked_edges(
            edges@.map_values(|e: GraphEdge| e@),
            node_ids(r.0@.map_values(|n: GraphNode| n@)),
            true,
        ),
{
    let max: usize = match limit {
        Some(l) => l,
        None => usize::MAX,
    };
    let ghost nv = nodes@.map_values(|n: GraphNode| n@);
    let mut sel: Vec<GraphNode> = Vec::new();
    let mut i: usize = 0;
    while i < nodes.len()
        invariant
            i <= nodes@.len(),
            nv == nodes@.map_values(|n: GraphNode| n@),
            sel@.map_values(|n: GraphNode| n@) == json_nodes(nv.subrange(0, i as int), max as nat),
        decreases nodes.len() - i,
    {
        let n = &nodes[i];
        let ghost prev = json_nodes(nv.subrange(0, i as int), max as nat);
        assert(nv.subrange(0, i + 1).drop_last() =~= nv.subrange(0, i as int));
        assert(nv.subrange(0, i + 1).last() == n@);
        if (n.label.is_symbol() || matches!(n.label, NodeLabel::File)) && sel.len() < max {
            sel.push(n.duplicate());
            assert(sel@.map_values(|n: GraphNode| n@) =~= prev.push(n@));
        }
        i = i + 1;
    }
    assert(nv.subrange(0, nv.len() as int) =~= nv);
    let ids = id_set(&sel);
    let linked = edges_among(edges, &ids, Ghost(node_ids(sel@.map_values(|n: GraphNode| n@))), true);
    (sel, linked)
}

/// The number of edges listed out of and into node `id`.
pub open spec fn node_degree(v: GraphView, id: Seq<char>) -> nat {
    listed(v.outgoing, id).len() + listed(v.incoming, id).len()
}

/// The rank key of the node at position `i`: its degree from high to low,
/// then its position.
pub open spec fn rank_key(ns: Seq<NodeView>, v: GraphView, i: int) -> (usize, usize) {
    ((usize::MAX - node_degree(v, ns[i].id)) as usize, i as usize)
}

/// The rank keys of the symbol nodes among the first `n` of `ns`, in order.
pub open spec fn rank_keys(ns: Seq<NodeView>, v: GraphView, n: nat) -> Seq<(usize, usize)>
    decreases n,
{
    if n == 0 {
        Seq::empty()
    } else {
        let prev = rank_keys(ns, v, (n - 1) as nat);
        if spec_is_symbol(ns[n - 1].label) {
            prev.push(rank_key(ns, v, n - 1))
        } else {
            prev
        }
    }
}

/// Pairs of numbers compared by the first, then the second.
pub open spec fn rank_le(a: (usize, usize), b: (usize, usize)) -> bool {
    a.0 < b.0 || (a.0 == b.0 && a.1 <= b.1)
}

/// `ks` lists the rank keys of the symbol nodes of `ns` in ascending order.
pub open spec fn ranked_by_degree(ks: Seq<(usize, usize)>, ns: Seq<NodeView>, v: GraphView) -> bool {
    &&& ks.to_multiset() == rank_keys(ns, v, ns.len()).to_multiset()
    &&& forall|i: int, j: int| 0 <= i < j < ks.len() ==> rank_le(#[trigger] ks[i], #[trigger] ks[j])
}

/// The nodes of the first `max` keys of `ks`.
pub open spec fn top_ranked(ks: Seq<(usize, usize)>, ns: Seq<NodeView>, max: nat) -> Seq<NodeView> {
    let n = if ks.len() <= max { ks.len() } else { max };
    ks.subrange(0, n as int).map_values(|k: (usize, usize)| ns[k.1 as int])
}

/// Every rank key names a symbol node among the first `n`, by its own key.
proof fn lemma_rank_keys(ns: Seq<NodeView>, v: GraphView, n: nat)
    requires
        n <= ns.len(),
        n <= usize::MAX,
    ensures
        forall|k: (usize, usize)| #[trigger] rank_keys(ns, v, n).contains(k) ==> k.1 < n && spec_is_symbol(
            ns[k.1 as int].label,
        ) && k == rank_key(ns, v, k.1 as int),
    decreases n,
{
    if n > 0 {
        lemma_rank_keys(ns, v, (n - 1) as nat);
        let prev = rank_keys(ns, v, (n - 1) as nat);
        assert forall|k: (usize, usize)| #[trigger] rank_keys(ns, v, n).contains(k) implies k.1 < n
            && spec_is_symbol(ns[k.1 as int].label) && k == rank_key(ns, v, k.1 as int) by {
            let cur = rank_keys(ns, v, n);
            let t = choose|t: int| 0 <= t < cur.len() && cur[t] == k;
            if t < prev.len() {
                assert(prev[t] == k);
                assert(prev.contains(k));
            } else {
                assert(k == rank_key(ns, v, n - 1));
                assert(k.1 == n - 1);
            }
        }
    }
}

/// `slice::sort` of pairs of numbers: the result holds the same pairs,
/// ordered by the first number, then the second.
#[verifier::external_body]
fn sort_ranks(v: &mut Vec<(usize, usize)>)
    ensures
        final(v)@.to_multiset() == old(v)@.to_multiset(),
        forall|i: int, j: int| 0 <= i < j < final(v)@.len() ==> rank_le(#[trigger] final(v)@[i], #[trigger] final(v)@[j]),
{
    v.sort();
}

/// The nodes and edges the HTML export writes: the symbol nodes ordered by
/// degree from high to low (nodes of equal degree in store order), the
/// first `limit` of them (3000 when no limit is given), and every edge
/// between two of them but `CONTAINS` edges.
pub fn export_html_graph(store: &GraphStore, limit: Option<usize>) -> (r: (Vec<GraphNode>, Vec<GraphEdge>))
    requires
        store.wf(),
        forall|id: Seq<char>| #[trigger] node_degree(store@, id) <= usize::MAX,
    ensures
        exists|ks: Seq<(usize, usize)>| #[trigger] ranked_by_degree(ks, store.node_list(), store@)
            && r.0@.map_values(|n: GraphNode| n@) == top_ranked(
                ks,
                store.node_list(),
                match limit {
                    Some(l) => l as nat,
                    None => 3000,
                },
            ),
        r.1@.map_values(|e: GraphEdge| e@) == linked_edges(
            store.edge_list(),
            node_ids(r.0@.map_values(|n: GraphNode| n@)),
            false,
        ),
{
    let max: usize = match limit {
        Some(l) => l,
        None => 3000,
    };
    let nodes = store.nodes();
    let ghost nv = store.node_list();
    let mut keys: Vec<(usize, usize)> = Vec::new();
    let mut i: usize = 0;
    while i < nodes.len()
        invariant
            i <= nodes@.len(),
            store.wf(),
            forall|id: Seq<char>| #[trigger] node_degree(store@, id) <= usize::MAX,
            nv == store.node_list(),
            nodes@.map_values(|n: GraphNode| n@) == nv,
            keys@ == rank_keys(nv, store@, i as nat),
        decreases nodes.len() - i,
    {
        let n = &nodes[i];
        assert(nv[i as int] == n@);
        if n.label.is_symbol() {
            let o = store.out_degree(n.id.as_str());
            let d = store.in_degree(n.id.as_str());
            assert(node_degree(store@, n.id@) <= usize::MAX);
            let degree = o + d;
            keys.push((usize::MAX - degree, i));
        }
        i = i + 1;
    }
    let ghost unsorted = keys@;
    proof {
        lemma_rank_keys(nv, store@, nv.len());
    }
    sort_ranks(&mut keys);
    let ghost ks = keys@;
    proof {
        ks.to_multiset_ensures();
        unsorted.to_multiset_ensures();
    }
    assert(unsorted == rank_keys(nv, store@, nv.len()));
    assert forall|k: (usize, usize)| #[trigger] ks.contains(k) implies k.1 < nv.len() by {
        assert(ks.to_multiset().count(k) > 0);
        assert(unsorted.to_multiset().count(k) > 0);
        assert(unsorted.contains(k));
    }
    let count: usize = if keys.len() <= max { keys.len() } else { max };
    let mut sel: Vec<GraphNode> = Vec::new();
    let mut t: usize = 0;
    while t < count
        invariant
            t <= count <= keys@.len(),
            ks == keys@,
            nodes@.map_values(|n: GraphNode| n@) == nv,
            forall|k: (usize, usize)| #[trigger] ks.contains(k) ==> k.1 < nv.len(),
            sel@.map_values(|n: GraphNode| n@) == ks.subrange(0, t as int).map_values(|k: (usize, usize)| nv[k.1 as int]),
        decreases count - t,
    {
        let idx = keys[t].1;
        assert(ks.contains(ks[t as int]));
        let ghost before = sel@.map_values(|n: GraphNode| n@);
        sel.push(nodes[idx].duplicate());
        assert(ks.subrange(0, t + 1).map_values(|k: (usize, usize)| nv[k.1 as int]) =~= ks.subrange(0, t as int).map_values(
            |k: (usize, usize)| nv[k.1 as int],
        ).push(nv[idx as int]));
        assert(sel@.map_values(|n: GraphNode| n@) =~= before.push(nv[idx as int]));
        t = t + 1;
    }
    assert(ranked_by_degree(ks, nv, store@));
    let edges = store.edges();
    let ids = id_set(&sel);
    let linked = edges_among(edges.as_slice(), &ids, Ghost(node_ids(sel@.map_values(|n: GraphNode| n@))), false);
    (sel, linked)
}

} // verus!
