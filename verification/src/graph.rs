//! The in-memory graph store: nodes and edges by id, with adjacency and
//! secondary indexes, file hashes for incremental indexing, and traversal.

use vstd::prelude::*;
use crate::assoc::{
    distinct_keys, find_string_key, lemma_to_map_dom, lemma_to_map_index, lemma_to_map_len, lemma_to_map_push,
    lemma_to_map_remove, lemma_to_map_update, to_map,
};
use crate::text::{chars_of, concat, str_eq, string_of};
use crate::types::{Language, NodeLabel, RelationType, relation_name, spec_is_symbol};
use crate::text::{spec_find_from, find_str};

verus! {

/// The properties of a node that the diff reads, as text.
pub struct PropsView {
    pub start_line: Option<u32>,
    pub end_line: Option<u32>,
    pub language: Option<Language>,
    pub is_exported: bool,
    pub return_type: Option<Seq<char>>,
    pub is_async: bool,
    pub container_name: Option<Seq<char>>,
    pub body_hash: Option<u64>,
    pub parameter_count: Option<u32>,
    pub visibility: Option<Seq<char>>,
    pub is_static: bool,
    pub annotations: Option<Seq<Seq<char>>>,
    pub heuristic_label: Option<Seq<char>>,
    pub symbol_count: Option<u32>,
    pub cohesion: Option<u32>,
    pub process_type: Option<Seq<char>>,
    pub step_count: Option<u32>,
    pub communities: Option<Seq<Seq<char>>>,
    pub entry_point_id: Option<Seq<char>>,
    pub terminal_id: Option<Seq<char>>,
}

/// No properties: what a file, folder or other structural node carries.
pub open spec fn no_props() -> PropsView {
    PropsView {
        start_line: None,
        end_line: None,
        language: None,
        is_exported: false,
        return_type: None,
        is_async: false,
        container_name: None,
        body_hash: None,
        parameter_count: None,
        visibility: None,
        is_static: false,
        annotations: None,
        heuristic_label: None,
        symbol_count: None,
        cohesion: None,
        process_type: None,
        step_count: None,
        communities: None,
        entry_point_id: None,
        terminal_id: None,
    }
}

/// The text of an optional string.
pub open spec fn opt_str(o: Option<String>) -> Option<Seq<char>> {
    match o {
        Some(s) => Some(s@),
        None => None,
    }
}

/// The texts of an optional list of strings.
pub open spec fn opt_strs(o: Option<Vec<String>>) -> Option<Seq<Seq<char>>> {
    match o {
        Some(v) => Some(ids_view(v@)),
        None => None,
    }
}

/// The properties of a symbol node: where it starts, its signature, the
/// container it is declared in, and a hash of its body.
#[derive(Debug, Clone)]
pub struct NodeProps {
    pub start_line: Option<u32>,
    pub end_line: Option<u32>,
    pub language: Option<Language>,
    pub is_exported: bool,
    pub return_type: Option<String>,
    pub is_async: bool,
    pub container_name: Option<String>,
    pub body_hash: Option<u64>,
    pub parameter_count: Option<u32>,
    pub visibility: Option<String>,
    pub is_static: bool,
    pub annotations: Option<Vec<String>>,
    /// The label a community was named by.
    pub heuristic_label: Option<String>,
    /// How many symbols a community holds.
    pub symbol_count: Option<u32>,
    /// How closely a community's members link among themselves, in
    /// thousandths.
    pub cohesion: Option<u32>,
    /// Whether a process stays in one community or crosses several.
    pub process_type: Option<String>,
    /// How many steps a process has.
    pub step_count: Option<u32>,
    /// The communities a process's steps belong to, each once.
    pub communities: Option<Vec<String>>,
    /// The first and last step of a process.
    pub entry_point_id: Option<String>,
    pub terminal_id: Option<String>,
}

impl View for NodeProps {
    type V = PropsView;

    open spec fn view(&self) -> PropsView {
        PropsView {
            start_line: self.start_line,
            end_line: self.end_line,
            language: self.language,
            is_exported: self.is_exported,
            return_type: opt_str(self.return_type),
            is_async: self.is_async,
            container_name: opt_str(self.container_name),
            body_hash: self.body_hash,
            parameter_count: self.parameter_count,
            visibility: opt_str(self.visibility),
            is_static: self.is_static,
            annotations: opt_strs(self.annotations),
            heuristic_label: opt_str(self.heuristic_label),
            symbol_count: self.symbol_count,
            cohesion: self.cohesion,
            process_type: opt_str(self.process_type),
            step_count: self.step_count,
            communities: opt_strs(self.communities),
            entry_point_id: opt_str(self.entry_point_id),
            terminal_id: opt_str(self.terminal_id),
        }
    }
}

fn clone_opt(o: &Option<String>) -> (r: Option<String>)
    ensures
        opt_str(r) == opt_str(*o),
{
    match o {
        Some(s) => Some(s.clone()),
        None => None,
    }
}

impl NodeProps {
    /// No properties.
    pub fn none() -> (r: NodeProps)
        ensures
            r@ == no_props(),
    {
        NodeProps {
            start_line: None,
            end_line: None,
            language: None,
            is_exported: false,
            return_type: None,
            is_async: false,
            container_name: None,
            body_hash: None,
            parameter_count: None,
            visibility: None,
            is_static: false,
            annotations: None,
            heuristic_label: None,
            symbol_count: None,
            cohesion: None,
            process_type: None,
            step_count: None,
            communities: None,
            entry_point_id: None,
            terminal_id: None,
        }
    }

    /// A copy of these properties.
    pub fn duplicate(&self) -> (r: NodeProps)
        ensures
            r@ == self@,
    {
        let annotations = match &self.annotations {
            Some(v) => Some(clone_ids(v)),
            None => None,
        };
        let communities = match &self.communities {
            Some(v) => Some(clone_ids(v)),
            None => None,
        };
        NodeProps {
            start_line: self.start_line,
            end_line: self.end_line,
            language: self.language,
            is_exported: self.is_exported,
            return_type: clone_opt(&self.return_type),
            is_async: self.is_async,
            container_name: clone_opt(&self.container_name),
            body_hash: self.body_hash,
            parameter_count: self.parameter_count,
            visibility: clone_opt(&self.visibility),
            is_static: self.is_static,
            annotations,
            heuristic_label: clone_opt(&self.heuristic_label),
            symbol_count: self.symbol_count,
            cohesion: self.cohesion,
            process_type: clone_opt(&self.process_type),
            step_count: self.step_count,
            communities,
            entry_point_id: clone_opt(&self.entry_point_id),
            terminal_id: clone_opt(&self.terminal_id),
        }
    }
}

/// The content of a node as the store reads it.
pub struct NodeView {
    pub id: Seq<char>,
    pub label: NodeLabel,
    pub name: Seq<char>,
    pub file_path: Seq<char>,
    pub props: PropsView,
}

/// A graph node as the store keeps it: its id, label, name, file and
/// properties.
#[derive(Debug, Clone)]
pub struct GraphNode {
    pub id: String,
    pub label: NodeLabel,
    pub name: String,
    pub file_path: String,
    pub props: NodeProps,
}

impl View for GraphNode {
    type V = NodeView;

    open spec fn view(&self) -> NodeView {
        NodeView { id: self.id@, label: self.label, name: self.name@, file_path: self.file_path@, props: self.props@ }
    }
}

impl GraphNode {
    /// A copy of this node.
    pub fn duplicate(&self) -> (r: GraphNode)
        ensures
            r@ == self@,
    {
        GraphNode {
            id: self.id.clone(),
            label: self.label,
            name: self.name.clone(),
            file_path: self.file_path.clone(),
            props: self.props.duplicate(),
        }
    }
}

/// The content of an edge as the store reads it.
pub struct EdgeView {
    pub id: Seq<char>,
    pub source_id: Seq<char>,
    pub target_id: Seq<char>,
    pub rel_type: RelationType,
    pub confidence: u32,
    pub reason: Seq<char>,
    pub step: Option<i32>,
}

/// A graph edge as the store keeps it: its id, endpoints and relation, how
/// sure the link is (in thousandths), why it was made, and for a step of a
/// process, which step it is.
#[derive(Debug, Clone)]
pub struct GraphEdge {
    pub id: String,
    pub source_id: String,
    pub target_id: String,
    pub rel_type: RelationType,
    pub confidence: u32,
    pub reason: String,
    pub step: Option<i32>,
}

impl View for GraphEdge {
    type V = EdgeView;

    open spec fn view(&self) -> EdgeView {
        EdgeView {
            id: self.id@,
            source_id: self.source_id@,
            target_id: self.target_id@,
            rel_type: self.rel_type,
            confidence: self.confidence,
            reason: self.reason@,
            step: self.step,
        }
    }
}

/// The id of the edge from `source` to `target` with relation `rel`:
/// `source-[REL]->target`.
pub open spec fn spec_edge_id(source: Seq<char>, rel: RelationType, target: Seq<char>) -> Seq<char> {
    source + "-["@ + relation_name(rel) + "]->"@ + target
}

impl GraphEdge {
    /// The edge from `source_id` to `target_id` with relation `rel_type`,
    /// `confidence` (in thousandths) and `reason`.
    pub fn new(source_id: &str, target_id: &str, rel_type: RelationType, confidence: u32, reason: &str) -> (r: GraphEdge)
        ensures
            r@ == (EdgeView {
                id: spec_edge_id(source_id@, rel_type, target_id@),
                source_id: source_id@,
                target_id: target_id@,
                rel_type,
                confidence,
                reason: reason@,
                step: None,
            }),
    {
        let a = concat(&chars_of(source_id), &chars_of("-["));
        let b = concat(&a, &chars_of(rel_type.as_str()));
        let c = concat(&b, &chars_of("]->"));
        let d = concat(&c, &chars_of(target_id));
        GraphEdge {
            id: string_of(&d),
            source_id: source_id.to_owned(),
            target_id: target_id.to_owned(),
            rel_type,
            confidence,
            reason: reason.to_owned(),
            step: None,
        }
    }

    /// A copy of this edge.
    pub fn duplicate(&self) -> (r: GraphEdge)
        ensures
            r@ == self@,
    {
        GraphEdge {
            id: self.id.clone(),
            source_id: self.source_id.clone(),
            target_id: self.target_id.clone(),
            rel_type: self.rel_type,
            confidence: self.confidence,
            reason: self.reason.clone(),
            step: self.step,
        }
    }
}

/// Direction for graph traversal.
#[derive(Debug, Clone, Copy, PartialEq, Eq, Structural)]
pub enum Direction {
    Outgoing,
    Incoming,
    Both,
}

/// The content of a graph store: its nodes and edges by id, the edge ids
/// out of and into each node, the node ids by file, label and name, and the
/// file hashes.
#[verifier::ext_equal]
pub struct GraphView {
    pub nodes: Map<Seq<char>, NodeView>,
    pub edges: Map<Seq<char>, EdgeView>,
    pub outgoing: Map<Seq<char>, Seq<Seq<char>>>,
    pub incoming: Map<Seq<char>, Seq<Seq<char>>>,
    pub by_file: Map<Seq<char>, Seq<Seq<char>>>,
    pub by_label: Map<NodeLabel, Seq<Seq<char>>>,
    pub by_name: Map<Seq<char>, Seq<Seq<char>>>,
    pub file_hashes: Map<Seq<char>, u64>,
}

/// The ids a list of strings holds.
pub open spec fn ids_view(v: Seq<String>) -> Seq<Seq<char>> {
    v.map_values(|s: String| s@)
}

/// The ids listed under `k` in an index; none when `k` has no entry.
pub open spec fn listed<K>(m: Map<K, Seq<Seq<char>>>, k: K) -> Seq<Seq<char>> {
    if m.dom().contains(k) {
        m[k]
    } else {
        Seq::empty()
    }
}

/// `ids` without any occurrence of `x`.
pub open spec fn without(ids: Seq<Seq<char>>, x: Seq<char>) -> Seq<Seq<char>>
    decreases ids.len(),
{
    if ids.len() == 0 {
        ids
    } else if ids.last() == x {
        without(ids.drop_last(), x)
    } else {
        without(ids.drop_last(), x).push(ids.last())
    }
}

/// An index after `x` is dropped from the list under `k`, if there is one.
pub open spec fn index_drop<K>(m: Map<K, Seq<Seq<char>>>, k: K, x: Seq<char>) -> Map<K, Seq<Seq<char>>> {
    if m.dom().contains(k) {
        m.insert(k, without(m[k], x))
    } else {
        m
    }
}

/// The nodes that a list of ids names, skipping ids with no node.
pub open spec fn nodes_named(nodes: Map<Seq<char>, NodeView>, ids: Seq<Seq<char>>) -> Seq<NodeView>
    decreases ids.len(),
{
    if ids.len() == 0 {
        Seq::empty()
    } else {
        let r = nodes_named(nodes, ids.drop_last());
        if nodes.dom().contains(ids.last()) {
            r.push(nodes[ids.last()])
        } else {
            r
        }
    }
}

/// The edges that a list of ids names, skipping ids with no edge, and, when
/// `rel` is given, edges of another relation.
pub open spec fn edges_named(edges: Map<Seq<char>, EdgeView>, ids: Seq<Seq<char>>, rel: Option<RelationType>) -> Seq<EdgeView>
    decreases ids.len(),
{
    if ids.len() == 0 {
        Seq::empty()
    } else {
        let r = edges_named(edges, ids.drop_last(), rel);
        if edges.dom().contains(ids.last()) && (match rel {
            Some(t) => edges[ids.last()].rel_type == t,
            None => true,
        }) {
            r.push(edges[ids.last()])
        } else {
            r
        }
    }
}

type Index = Vec<(String, Vec<String>)>;

/// The pairs of a string-keyed index, as text.
pub open spec fn index_pairs(s: Seq<(String, Vec<String>)>) -> Seq<(Seq<char>, Seq<Seq<char>>)> {
    s.map_values(|e: (String, Vec<String>)| (e.0@, ids_view(e.1@)))
}

/// The pairs of the label index, as text.
pub open spec fn label_pairs(s: Seq<(NodeLabel, Vec<String>)>) -> Seq<(NodeLabel, Seq<Seq<char>>)> {
    s.map_values(|e: (NodeLabel, Vec<String>)| (e.0, ids_view(e.1@)))
}

/// The pairs of a string-keyed table, keys as text and values through `f`.
pub open spec fn pairs_by<V, W>(s: Seq<(String, V)>, f: spec_fn(V) -> W) -> Seq<(Seq<char>, W)> {
    s.map_values(|e: (String, V)| (e.0@, f(e.1)))
}

/// The view of a node.
pub open spec fn node_of(n: GraphNode) -> NodeView {
    n@
}

/// The view of an edge.
pub open spec fn edge_of(e: GraphEdge) -> EdgeView {
    e@
}

/// A hash as it is.
pub open spec fn hash_of(h: u64) -> u64 {
    h
}

/// The pairs of the node table, as views.
pub open spec fn node_pairs(s: Seq<(String, GraphNode)>) -> Seq<(Seq<char>, NodeView)> {
    pairs_by(s, |n: GraphNode| node_of(n))
}

/// The pairs of the edge table, as views.
pub open spec fn edge_pairs(s: Seq<(String, GraphEdge)>) -> Seq<(Seq<char>, EdgeView)> {
    pairs_by(s, |e: GraphEdge| edge_of(e))
}

/// The pairs of the file hash table, as text.
pub open spec fn hash_pairs(s: Seq<(String, u64)>) -> Seq<(Seq<char>, u64)> {
    pairs_by(s, |h: u64| hash_of(h))
}

/// In-memory graph store with adjacency indexes.
#[derive(Debug)]
pub struct GraphStore {
    nodes: Vec<(String, GraphNode)>,
    edges: Vec<(String, GraphEdge)>,
    outgoing: Index,
    incoming: Index,
    by_file: Index,
    by_label: Vec<(NodeLabel, Vec<String>)>,
    by_name: Index,
    file_hashes: Vec<(String, u64)>,
}

impl View for GraphStore {
    type V = GraphView;

    closed spec fn view(&self) -> GraphView {
        GraphView {
            nodes: to_map(node_pairs(self.nodes@)),
            edges: to_map(edge_pairs(self.edges@)),
            outgoing: to_map(index_pairs(self.outgoing@)),
            incoming: to_map(index_pairs(self.incoming@)),
            by_file: to_map(index_pairs(self.by_file@)),
            by_label: to_map(label_pairs(self.by_label@)),
            by_name: to_map(index_pairs(self.by_name@)),
            file_hashes: to_map(hash_pairs(self.file_hashes@)),
        }
    }
}

/// An index after `id` is added to the list under `k`, made when missing.
pub open spec fn index_push<K>(m: Map<K, Seq<Seq<char>>>, k: K, id: Seq<char>) -> Map<K, Seq<Seq<char>>> {
    m.insert(k, listed(m, k).push(id))
}

fn push_id(idx: &mut Index, key: &str, id: String)
    requires
        distinct_keys(index_pairs(old(idx)@)),
    ensures
        distinct_keys(index_pairs(final(idx)@)),
        to_map(index_pairs(final(idx)@)) == index_push(to_map(index_pairs(old(idx)@)), key@, id@),
{
    let ghost before = index_pairs(idx@);
    match find_string_key(idx, key) {
        Some(i) => {
            proof {
                lemma_to_map_index(before, i as int);
            }
            let ghost new_ids = before[i as int].1.push(id@);
            let mut entry = idx.remove(i);
            let ghost ids_before = entry.1@;
            entry.1.push(id);
            assert(ids_view(entry.1@) =~= new_ids);
            idx.insert(i, entry);
            proof {
                lemma_to_map_update(before, i as int, new_ids);
                assert(index_pairs(idx@) =~= before.update(i as int, (before[i as int].0, new_ids)));
            }
        },
        None => {
            let mut ids: Vec<String> = Vec::new();
            ids.push(id);
            let ghost entry = (key@, ids_view(ids@));
            proof {
                assert forall|j: int| 0 <= j < before.len() implies (#[trigger] before[j]).0 != key@ by {
                    assert(before[j].0 == idx@[j].0@);
                }
                lemma_to_map_push(before, key@, ids_view(ids@));
                lemma_to_map_dom(before, key@);
                assert(ids_view(ids@) =~= Seq::<Seq<char>>::empty().push(id@));
            }
            idx.push((key.to_owned(), ids));
            assert(index_pairs(idx@) =~= before.push(entry));
        },
    }
}


fn push_label_id(idx: &mut Vec<(NodeLabel, Vec<String>)>, key: NodeLabel, id: String)
    requires
        distinct_keys(label_pairs(old(idx)@)),
    ensures
        distinct_keys(label_pairs(final(idx)@)),
        to_map(label_pairs(final(idx)@)) == index_push(to_map(label_pairs(old(idx)@)), key, id@),
{
    let ghost before = label_pairs(idx@);
    let mut i: usize = 0;
    while i < idx.len()
        invariant
            before == label_pairs(idx@),
            before == label_pairs(old(idx)@),
            distinct_keys(before),
            i <= idx@.len(),
            forall|j: int| 0 <= j < i ==> (#[trigger] idx@[j]).0 != key,
        decreases idx.len() - i,
    {
        if idx[i].0 == key {
            proof {
                lemma_to_map_index(before, i as int);
            }
            let ghost new_ids = before[i as int].1.push(id@);
            let mut entry = idx.remove(i);
            entry.1.push(id);
            assert(ids_view(entry.1@) =~= new_ids);
            idx.insert(i, entry);
            proof {
                lemma_to_map_update(before, i as int, new_ids);
                assert(label_pairs(idx@) =~= before.update(i as int, (before[i as int].0, new_ids)));
            }
            return;
        }
        i = i + 1;
    }
    let mut ids: Vec<String> = Vec::new();
    ids.push(id);
    let ghost entry = (key, ids_view(ids@));
    proof {
        assert forall|j: int| 0 <= j < before.len() implies (#[trigger] before[j]).0 != key by {
            assert(before[j].0 == idx@[j].0);
        }
        lemma_to_map_push(before, key, ids_view(ids@));
        lemma_to_map_dom(before, key);
        assert(ids_view(ids@) =~= Seq::<Seq<char>>::empty().push(id@));
    }
    idx.push((key, ids));
    assert(label_pairs(idx@) =~= before.push(entry));
}

fn retain_other(ids: &mut Vec<String>, x: &str)
    ensures
        ids_view(final(ids)@) == without(ids_view(old(ids)@), x@),
{
    let ghost v = ids_view(ids@);
    let mut kept: Vec<String> = Vec::new();
    let mut i: usize = 0;
    while i < ids.len()
        invariant
            v == ids_view(ids@),
            i <= ids@.len(),
            ids_view(kept@) == without(v.subrange(0, i as int), x@),
        decreases ids.len() - i,
    {
        assert(v.subrange(0, i + 1).drop_last() =~= v.subrange(0, i as int));
        assert(v.subrange(0, i + 1).last() == ids@[i as int]@);
        if !str_eq(ids[i].as_str(), x) {
            let ghost before = ids_view(kept@);
            kept.push(ids[i].clone());
            assert(ids_view(kept@) =~= before.push(ids@[i as int]@));
        }
        i = i + 1;
    }
    assert(v.subrange(0, v.len() as int) =~= v);
    *ids = kept;
}

fn drop_id(idx: &mut Index, key: &str, x: &str)
    requires
        distinct_keys(index_pairs(old(idx)@)),
    ensures
        distinct_keys(index_pairs(final(idx)@)),
        to_map(index_pairs(final(idx)@)) == index_drop(to_map(index_pairs(old(idx)@)), key@, x@),
{
    let ghost before = index_pairs(idx@);
    match find_string_key(idx, key) {
        Some(i) => {
            proof {
                lemma_to_map_index(before, i as int);
            }
            let ghost new_ids = without(before[i as int].1, x@);
            let mut entry = idx.remove(i);
            retain_other(&mut entry.1, x);
            idx.insert(i, entry);
            proof {
                lemma_to_map_update(before, i as int, new_ids);
                assert(index_pairs(idx@) =~= before.update(i as int, (before[i as int].0, new_ids)));
            }
        },
        None => {
            proof {
                lemma_to_map_dom(before, key@);
                if to_map(before).dom().contains(key@) {
                    let j = choose|j: int| 0 <= j < before.len() && (#[trigger] before[j]).0 == key@;
                    assert(before[j].0 == idx@[j].0@);
                }
            }
        },
    }
}

fn drop_label_id(idx: &mut Vec<(NodeLabel, Vec<String>)>, key: NodeLabel, x: &str)
    requires
        distinct_keys(label_pairs(old(idx)@)),
    ensures
        distinct_keys(label_pairs(final(idx)@)),
        to_map(label_pairs(final(idx)@)) == index_drop(to_map(label_pairs(old(idx)@)), key, x@),
{
    let ghost before = label_pairs(idx@);
    let mut i: usize = 0;
    while i < idx.len()
        invariant
            before == label_pairs(idx@),
            before == label_pairs(old(idx)@),
            distinct_keys(before),
            i <= idx@.len(),
            forall|j: int| 0 <= j < i ==> (#[trigger] idx@[j]).0 != key,
        decreases idx.len() - i,
    {
        if idx[i].0 == key {
            proof {
                lemma_to_map_index(before, i as int);
            }
            let ghost new_ids = without(before[i as int].1, x@);
            let mut entry = idx.remove(i);
            retain_other(&mut entry.1, x);
            idx.insert(i, entry);
            proof {
                lemma_to_map_update(before, i as int, new_ids);
                assert(label_pairs(idx@) =~= before.update(i as int, (before[i as int].0, new_ids)));
            }
            return;
        }
        i = i + 1;
    }
    proof {
        lemma_to_map_dom(before, key);
        if to_map(before).dom().contains(key) {
            let j = choose|j: int| 0 <= j < before.len() && (#[trigger] before[j]).0 == key;
            assert(before[j].0 == idx@[j].0);
        }
    }
}

fn take_ids(idx: &mut Index, key: &str) -> (r: Option<Vec<String>>)
    requires
        distinct_keys(index_pairs(old(idx)@)),
    ensures
        distinct_keys(index_pairs(final(idx)@)),
        to_map(index_pairs(final(idx)@)) == to_map(index_pairs(old(idx)@)).remove(key@),
        match r {
            Some(v) => to_map(index_pairs(old(idx)@)).dom().contains(key@) && ids_view(v@) == to_map(
                index_pairs(old(idx)@),
            )[key@],
            None => !to_map(index_pairs(old(idx)@)).dom().contains(key@),
        },
{
    let ghost before = index_pairs(idx@);
    match find_string_key(idx, key) {
        Some(i) => {
            proof {
                lemma_to_map_index(before, i as int);
                lemma_to_map_remove(before, i as int);
            }
            let entry = idx.remove(i);
            assert(index_pairs(idx@) =~= before.remove(i as int));
            Some(entry.1)
        },
        None => {
            proof {
                lemma_to_map_dom(before, key@);
                if to_map(before).dom().contains(key@) {
                    let j = choose|j: int| 0 <= j < before.len() && (#[trigger] before[j]).0 == key@;
                    assert(before[j].0 == idx@[j].0@);
                }
                assert(to_map(before).remove(key@) =~= to_map(before));
            }
            None
        },
    }
}

fn ids_under(idx: &Index, key: &str) -> (r: Vec<String>)
    requires
        distinct_keys(index_pairs(idx@)),
    ensures
        ids_view(r@) == listed(to_map(index_pairs(idx@)), key@),
{
    let ghost pairs = index_pairs(idx@);
    match find_string_key(idx, key) {
        Some(i) => {
            proof {
                lemma_to_map_index(pairs, i as int);
            }
            let v = clone_ids(&idx[i].1);
            v
        },
        None => {
            proof {
                lemma_to_map_dom(pairs, key@);
                if to_map(pairs).dom().contains(key@) {
                    let j = choose|j: int| 0 <= j < pairs.len() && (#[trigger] pairs[j]).0 == key@;
                    assert(pairs[j].0 == idx@[j].0@);
                }
            }
            let v: Vec<String> = Vec::new();
            assert(ids_view(v@) =~= Seq::<Seq<char>>::empty());
            v
        },
    }
}

fn clone_ids(v: &Vec<String>) -> (r: Vec<String>)
    ensures
        ids_view(r@) == ids_view(v@),
{
    let mut r: Vec<String> = Vec::new();
    let mut i: usize = 0;
    while i < v.len()
        invariant
            i <= v@.len(),
            r@.len() == i,
            forall|k: int| 0 <= k < i ==> #[trigger] r@[k]@ == v@[k]@,
        decreases v.len() - i,
    {
        r.push(v[i].clone());
        i = i + 1;
    }
    assert(ids_view(r@) =~= ids_view(v@));
    r
}


fn table_put<V, W>(t: &mut Vec<(String, V)>, key: String, v: V, Ghost(f): Ghost<spec_fn(V) -> W>)
    requires
        distinct_keys(pairs_by(old(t)@, f)),
    ensures
        distinct_keys(pairs_by(final(t)@, f)),
        to_map(pairs_by(final(t)@, f)) == to_map(pairs_by(old(t)@, f)).insert(key@, f(v)),
        forall|j: int| 0 <= j < final(t)@.len() ==> #[trigger] final(t)@[j] == (key, v) || (j < old(t)@.len()
            && final(t)@[j] == old(t)@[j]),
{
    let ghost before = pairs_by(t@, f);
    match find_string_key(t, key.as_str()) {
        Some(i) => {
            proof {
                lemma_to_map_update(before, i as int, f(v));
            }
            let ghost fv = f(v);
            t.set(i, (key, v));
            assert(pairs_by(t@, f) =~= before.update(i as int, (before[i as int].0, fv)));
        },
        None => {
            proof {
                assert forall|j: int| 0 <= j < before.len() implies (#[trigger] before[j]).0 != key@ by {
                    assert(before[j].0 == t@[j].0@);
                }
                lemma_to_map_push(before, key@, f(v));
            }
            let ghost kv = key@;
            let ghost fv = f(v);
            t.push((key, v));
            assert(pairs_by(t@, f) =~= before.push((kv, fv)));
        },
    }
}

fn table_find<V, W>(t: &Vec<(String, V)>, key: &str, Ghost(f): Ghost<spec_fn(V) -> W>) -> (r: Option<usize>)
    requires
        distinct_keys(pairs_by(t@, f)),
    ensures
        match r {
            Some(i) => i < t@.len() && t@[i as int].0@ == key@ && to_map(pairs_by(t@, f)).dom().contains(key@)
                && to_map(pairs_by(t@, f))[key@] == f(t@[i as int].1),
            None => !to_map(pairs_by(t@, f)).dom().contains(key@),
        },
{
    let ghost pairs = pairs_by(t@, f);
    let r = find_string_key(t, key);
    proof {
        match r {
            Some(i) => {
                lemma_to_map_index(pairs, i as int);
            },
            None => {
                lemma_to_map_dom(pairs, key@);
                if to_map(pairs).dom().contains(key@) {
                    let j = choose|j: int| 0 <= j < pairs.len() && (#[trigger] pairs[j]).0 == key@;
                    assert(pairs[j].0 == t@[j].0@);
                }
            },
        }
    }
    r
}

fn table_take<V, W>(t: &mut Vec<(String, V)>, key: &str, Ghost(f): Ghost<spec_fn(V) -> W>) -> (r: Option<V>)
    requires
        distinct_keys(pairs_by(old(t)@, f)),
    ensures
        distinct_keys(pairs_by(final(t)@, f)),
        to_map(pairs_by(final(t)@, f)) == to_map(pairs_by(old(t)@, f)).remove(key@),
        forall|j: int| 0 <= j < final(t)@.len() ==> exists|m: int| 0 <= m < old(t)@.len() && #[trigger] final(t)@[j] == old(t)@[m],
        match r {
            Some(v) => to_map(pairs_by(old(t)@, f)).dom().contains(key@) && to_map(pairs_by(old(t)@, f))[key@] == f(v),
            None => !to_map(pairs_by(old(t)@, f)).dom().contains(key@),
        },
{
    let ghost before = pairs_by(t@, f);
    match table_find::<V, W>(t, key, Ghost(f)) {
        Some(i) => {
            proof {
                lemma_to_map_index(before, i as int);
                lemma_to_map_remove(before, i as int);
            }
            let ghost raw = t@;
            let entry = t.remove(i);
            assert(pairs_by(t@, f) =~= before.remove(i as int));
            assert forall|j: int| 0 <= j < t@.len() implies exists|m: int| 0 <= m < raw.len() && #[trigger] t@[j] == raw[m] by {
                if j < i {
                    assert(t@[j] == raw[j]);
                } else {
                    assert(t@[j] == raw[j + 1]);
                }
            }
            Some(entry.1)
        },
        None => {
            assert(to_map(before).remove(key@) =~= to_map(before));
            assert forall|j: int| 0 <= j < t@.len() implies exists|m: int| 0 <= m < t@.len() && #[trigger] t@[j] == t@[m] by {}
            None
        },
    }
}

/// The view of a store whose tables all have distinct keys.
pub open spec fn empty_graph() -> GraphView {
    GraphView {
        nodes: Map::empty(),
        edges: Map::empty(),
        outgoing: Map::empty(),
        incoming: Map::empty(),
        by_file: Map::empty(),
        by_label: Map::empty(),
        by_name: Map::empty(),
        file_hashes: Map::empty(),
    }
}

impl GraphStore {
    /// Whether every table of the store has distinct keys.
    pub closed spec fn wf(&self) -> bool {
        &&& forall|i: int| 0 <= i < self.nodes@.len() ==> (#[trigger] self.nodes@[i]).0@ == self.nodes@[i].1.id@
        &&& forall|i: int| 0 <= i < self.edges@.len() ==> (#[trigger] self.edges@[i]).0@ == self.edges@[i].1.id@
        &&& distinct_keys(node_pairs(self.nodes@))
        &&& distinct_keys(edge_pairs(self.edges@))
        &&& distinct_keys(index_pairs(self.outgoing@))
        &&& distinct_keys(index_pairs(self.incoming@))
        &&& distinct_keys(index_pairs(self.by_file@))
        &&& distinct_keys(label_pairs(self.by_label@))
        &&& distinct_keys(index_pairs(self.by_name@))
        &&& distinct_keys(hash_pairs(self.file_hashes@))
    }

    /// A store holds finitely many edges.
    pub proof fn lemma_finitely_many_edges(&self)
        ensures
            self@.edges.dom().finite(),
    {
        lemma_to_map_dom(edge_pairs(self.edges@), Seq::empty());
    }

    /// Every node and every edge is stored under its own id.
    pub proof fn lemma_stored_under_id(&self)
        requires
            self.wf(),
        ensures
            forall|k: Seq<char>| #[trigger] self@.nodes.dom().contains(k) ==> self@.nodes[k].id == k,
            forall|k: Seq<char>| #[trigger] self@.edges.dom().contains(k) ==> self@.edges[k].id == k,
    {
        let np = node_pairs(self.nodes@);
        let ep = edge_pairs(self.edges@);
        assert forall|k: Seq<char>| #[trigger] self@.nodes.dom().contains(k) implies self@.nodes[k].id == k by {
            lemma_to_map_dom(np, k);
            let i = choose|i: int| 0 <= i < np.len() && (#[trigger] np[i]).0 == k;
            lemma_to_map_index(np, i);
            assert(np[i] == (self.nodes@[i].0@, self.nodes@[i].1@));
        }
        assert forall|k: Seq<char>| #[trigger] self@.edges.dom().contains(k) implies self@.edges[k].id == k by {
            lemma_to_map_dom(ep, k);
            let i = choose|i: int| 0 <= i < ep.len() && (#[trigger] ep[i]).0 == k;
            lemma_to_map_index(ep, i);
            assert(ep[i] == (self.edges@[i].0@, self.edges@[i].1@));
        }
    }

    /// An empty store.
    pub fn new() -> (r: Self)
        ensures
            r.wf(),
            r@ == empty_graph(),
    {
        let r = GraphStore {
            nodes: Vec::new(),
            edges: Vec::new(),
            outgoing: Vec::new(),
            incoming: Vec::new(),
            by_file: Vec::new(),
            by_label: Vec::new(),
            by_name: Vec::new(),
            file_hashes: Vec::new(),
        };
        assert(node_pairs(r.nodes@) =~= Seq::empty());
        assert(edge_pairs(r.edges@) =~= Seq::empty());
        assert(index_pairs(r.outgoing@) =~= Seq::empty());
        assert(label_pairs(r.by_label@) =~= Seq::empty());
        assert(hash_pairs(r.file_hashes@) =~= Seq::empty());
        r
    }

    /// Add a node: it is indexed by file, label and name, and stored under its id.
    pub fn add_node(&mut self, node: GraphNode)
        requires
            old(self).wf(),
        ensures
            final(self).wf(),
            final(self)@ == (GraphView {
                nodes: old(self)@.nodes.insert(node@.id, node@),
                by_file: index_push(old(self)@.by_file, node@.file_path, node@.id),
                by_label: index_push(old(self)@.by_label, node@.label, node@.id),
                by_name: index_push(old(self)@.by_name, node@.name, node@.id),
                ..old(self)@
            }),
    {
        let id = node.id.clone();
        push_id(&mut self.by_file, node.file_path.as_str(), id.clone());
        push_label_id(&mut self.by_label, node.label, id.clone());
        push_id(&mut self.by_name, node.name.as_str(), id.clone());
        table_put::<GraphNode, NodeView>(&mut self.nodes, id, node, Ghost(|n: GraphNode| node_of(n)));
    }

    /// Add an edge: it is listed out of its source and into its target, and
    /// stored under its id.
    pub fn add_edge(&mut self, edge: GraphEdge)
        requires
            old(self).wf(),
        ensures
            final(self).wf(),
            final(self)@ == (GraphView {
                edges: old(self)@.edges.insert(edge@.id, edge@),
                outgoing: index_push(old(self)@.outgoing, edge@.source_id, edge@.id),
                incoming: index_push(old(self)@.incoming, edge@.target_id, edge@.id),
                ..old(self)@
            }),
    {
        let id = edge.id.clone();
        push_id(&mut self.outgoing, edge.source_id.as_str(), id.clone());
        push_id(&mut self.incoming, edge.target_id.as_str(), id.clone());
        table_put::<GraphEdge, EdgeView>(&mut self.edges, id, edge, Ghost(|e: GraphEdge| edge_of(e)));
    }

    /// The node with id `id`.
    pub fn get_node(&self, id: &str) -> (r: Option<GraphNode>)
        requires
            self.wf(),
        ensures
            match r {
                Some(n) => self@.nodes.dom().contains(id@) && self@.nodes[id@] == n@,
                None => !self@.nodes.dom().contains(id@),
            },
    {
        match table_find::<GraphNode, NodeView>(&self.nodes, id, Ghost(|n: GraphNode| node_of(n))) {
            Some(i) => Some(self.nodes[i].1.duplicate()),
            None => None,
        }
    }

    /// The edge with id `id`.
    pub fn get_edge(&self, id: &str) -> (r: Option<GraphEdge>)
        requires
            self.wf(),
        ensures
            match r {
                Some(e) => self@.edges.dom().contains(id@) && self@.edges[id@] == e@,
                None => !self@.edges.dom().contains(id@),
            },
    {
        match table_find::<GraphEdge, EdgeView>(&self.edges, id, Ghost(|e: GraphEdge| edge_of(e))) {
            Some(i) => Some(self.edges[i].1.duplicate()),
            None => None,
        }
    }

    fn edges_by_ids(&self, ids: &Vec<String>, rel_type: Option<RelationType>) -> (r: Vec<GraphEdge>)
        requires
            self.wf(),
        ensures
            r@.map_values(|e: GraphEdge| e@) == edges_named(self@.edges, ids_view(ids@), rel_type),
    {
        let ghost iv = ids_view(ids@);
        let mut out: Vec<GraphEdge> = Vec::new();
        let mut i: usize = 0;
        while i < ids.len()
            invariant
                self.wf(),
                iv == ids_view(ids@),
                i <= ids@.len(),
                out@.map_values(|e: GraphEdge| e@) == edges_named(self@.edges, iv.subrange(0, i as int), rel_type),
            decreases ids.len() - i,
        {
            assert(iv.subrange(0, i + 1).drop_last() =~= iv.subrange(0, i as int));
            assert(iv.subrange(0, i + 1).last() == ids@[i as int]@);
            match self.get_edge(ids[i].as_str()) {
                Some(e) => {
                    let keep = match rel_type {
                        Some(t) => e.rel_type == t,
                        None => true,
                    };
                    if keep {
                        let ghost before = out@.map_values(|e: GraphEdge| e@);
                        let ghost ev = e@;
                        out.push(e);
                        assert(out@.map_values(|e: GraphEdge| e@) =~= before.push(ev));
                    }
                },
                None => {},
            }
            i = i + 1;
        }
        assert(iv.subrange(0, iv.len() as int) =~= iv);
        out
    }

    fn nodes_by_ids(&self, ids: &Vec<String>) -> (r: Vec<GraphNode>)
        requires
            self.wf(),
        ensures
            r@.map_values(|n: GraphNode| n@) == nodes_named(self@.nodes, ids_view(ids@)),
    {
        let ghost iv = ids_view(ids@);
        let mut out: Vec<GraphNode> = Vec::new();
        let mut i: usize = 0;
        while i < ids.len()
            invariant
                self.wf(),
                iv == ids_view(ids@),
                i <= ids@.len(),
                out@.map_values(|n: GraphNode| n@) == nodes_named(self@.nodes, iv.subrange(0, i as int)),
            decreases ids.len() - i,
        {
            assert(iv.subrange(0, i + 1).drop_last() =~= iv.subrange(0, i as int));
            assert(iv.subrange(0, i + 1).last() == ids@[i as int]@);
            match self.get_node(ids[i].as_str()) {
                Some(n) => {
                    let ghost before = out@.map_values(|n: GraphNode| n@);
                    let ghost nv = n@;
                    out.push(n);
                    assert(out@.map_values(|n: GraphNode| n@) =~= before.push(nv));
                },
                None => {},
            }
            i = i + 1;
        }
        assert(iv.subrange(0, iv.len() as int) =~= iv);
        out
    }

    /// The edges out of a node, in the order they were added, optionally of
    /// one relation only.
    pub fn outgoing_edges(&self, node_id: &str, rel_type: Option<RelationType>) -> (r: Vec<GraphEdge>)
        requires
            self.wf(),
        ensures
            r@.map_values(|e: GraphEdge| e@) == edges_named(self@.edges, listed(self@.outgoing, node_id@), rel_type),
    {
        let ids = ids_under(&self.outgoing, node_id);
        self.edges_by_ids(&ids, rel_type)
    }

    /// The edges into a node, in the order they were added, optionally of
    /// one relation only.
    pub fn incoming_edges(&self, node_id: &str, rel_type: Option<RelationType>) -> (r: Vec<GraphEdge>)
        requires
            self.wf(),
        ensures
            r@.map_values(|e: GraphEdge| e@) == edges_named(self@.edges, listed(self@.incoming, node_id@), rel_type),
    {
        let ids = ids_under(&self.incoming, node_id);
        self.edges_by_ids(&ids, rel_type)
    }

    /// The nodes with a label, in the order they were added.
    pub fn nodes_by_label(&self, label: NodeLabel) -> (r: Vec<GraphNode>)
        requires
            self.wf(),
        ensures
            r@.map_values(|n: GraphNode| n@) == nodes_named(self@.nodes, listed(self@.by_label, label)),
    {
        let ghost pairs = label_pairs(self.by_label@);
        let mut i: usize = 0;
        while i < self.by_label.len()
            invariant
                self.wf(),
                pairs == label_pairs(self.by_label@),
                i <= self.by_label@.len(),
                forall|j: int| 0 <= j < i ==> (#[trigger] self.by_label@[j]).0 != label,
            decreases self.by_label.len() - i,
        {
            if self.by_label[i].0 == label {
                proof {
                    lemma_to_map_index(pairs, i as int);
                }
                return self.nodes_by_ids(&self.by_label[i].1);
            }
            i = i + 1;
        }
        proof {
            lemma_to_map_dom(pairs, label);
            if to_map(pairs).dom().contains(label) {
                let j = choose|j: int| 0 <= j < pairs.len() && (#[trigger] pairs[j]).0 == label;
                assert(pairs[j].0 == self.by_label@[j].0);
            }
        }
        let none: Vec<String> = Vec::new();
        assert(ids_view(none@) =~= Seq::<Seq<char>>::empty());
        self.nodes_by_ids(&none)
    }

    /// The nodes with a name, in the order they were added.
    pub fn nodes_by_name(&self, name: &str) -> (r: Vec<GraphNode>)
        requires
            self.wf(),
        ensures
            r@.map_values(|n: GraphNode| n@) == nodes_named(self@.nodes, listed(self@.by_name, name@)),
    {
        let ids = ids_under(&self.by_name, name);
        self.nodes_by_ids(&ids)
    }

    /// The nodes in a file, in the order they were added.
    pub fn nodes_in_file(&self, file_path: &str) -> (r: Vec<GraphNode>)
        requires
            self.wf(),
        ensures
            r@.map_values(|n: GraphNode| n@) == nodes_named(self@.nodes, listed(self@.by_file, file_path@)),
    {
        let ids = ids_under(&self.by_file, file_path);
        self.nodes_by_ids(&ids)
    }

    /// The number of edge ids listed out of a node.
    pub fn out_degree(&self, node_id: &str) -> (r: usize)
        requires
            self.wf(),
        ensures
            r == listed(self@.outgoing, node_id@).len(),
    {
        let ids = ids_under(&self.outgoing, node_id);
        ids.len()
    }

    /// The number of edge ids listed into a node.
    pub fn in_degree(&self, node_id: &str) -> (r: usize)
        requires
            self.wf(),
        ensures
            r == listed(self@.incoming, node_id@).len(),
    {
        let ids = ids_under(&self.incoming, node_id);
        ids.len()
    }

    /// The number of edge ids listed out of and into a node.
    pub fn degree(&self, node_id: &str) -> (r: usize)
        requires
            self.wf(),
            listed(self@.outgoing, node_id@).len() + listed(self@.incoming, node_id@).len() <= usize::MAX,
        ensures
            r == listed(self@.outgoing, node_id@).len() + listed(self@.incoming, node_id@).len(),
    {
        self.out_degree(node_id) + self.in_degree(node_id)
    }

    /// The number of nodes.
    pub fn node_count(&self) -> (r: usize)
        requires
            self.wf(),
        ensures
            r == self@.nodes.len(),
    {
        proof {
            lemma_to_map_len(node_pairs(self.nodes@));
        }
        self.nodes.len()
    }

    /// The number of edges.
    pub fn edge_count(&self) -> (r: usize)
        requires
            self.wf(),
        ensures
            r == self@.edges.len(),
    {
        proof {
            lemma_to_map_len(edge_pairs(self.edges@));
        }
        self.edges.len()
    }

    /// The number of files with an entry in the file index.
    pub fn file_count(&self) -> (r: usize)
        requires
            self.wf(),
        ensures
            r == self@.by_file.len(),
    {
        proof {
            lemma_to_map_len(index_pairs(self.by_file@));
        }
        self.by_file.len()
    }

    /// Set the hash for a file (for incremental indexing).
    pub fn set_file_hash(&mut self, file_path: String, hash: u64)
        requires
            old(self).wf(),
        ensures
            final(self).wf(),
            final(self)@ == (GraphView { file_hashes: old(self)@.file_hashes.insert(file_path@, hash), ..old(self)@ }),
    {
        table_put::<u64, u64>(&mut self.file_hashes, file_path, hash, Ghost(|h: u64| hash_of(h)));
    }

    /// The stored hash of a file.
    pub fn get_file_hash(&self, file_path: &str) -> (r: Option<u64>)
        requires
            self.wf(),
        ensures
            match r {
                Some(h) => self@.file_hashes.dom().contains(file_path@) && self@.file_hashes[file_path@] == h,
                None => !self@.file_hashes.dom().contains(file_path@),
            },
    {
        match table_find::<u64, u64>(&self.file_hashes, file_path, Ghost(|h: u64| hash_of(h))) {
            Some(i) => Some(self.file_hashes[i].1),
            None => None,
        }
    }
}


/// The store after the edge `eid`, listed out of a removed node, is
/// dropped: the edge goes, and its id leaves its target's incoming list.
pub open spec fn drop_out_edge(g: GraphView, eid: Seq<char>) -> GraphView {
    if g.edges.dom().contains(eid) {
        GraphView { edges: g.edges.remove(eid), incoming: index_drop(g.incoming, g.edges[eid].target_id, eid), ..g }
    } else {
        g
    }
}

/// The store after the edge `eid`, listed into a removed node, is dropped:
/// the edge goes, and its id leaves its source's outgoing list.
pub open spec fn drop_in_edge(g: GraphView, eid: Seq<char>) -> GraphView {
    if g.edges.dom().contains(eid) {
        GraphView { edges: g.edges.remove(eid), outgoing: index_drop(g.outgoing, g.edges[eid].source_id, eid), ..g }
    } else {
        g
    }
}

/// The store after the out-edges `eids` are dropped in turn.
pub open spec fn drop_out_edges(g: GraphView, eids: Seq<Seq<char>>) -> GraphView
    decreases eids.len(),
{
    if eids.len() == 0 {
        g
    } else {
        drop_out_edge(drop_out_edges(g, eids.drop_last()), eids.last())
    }
}

/// The store after the in-edges `eids` are dropped in turn.
pub open spec fn drop_in_edges(g: GraphView, eids: Seq<Seq<char>>) -> GraphView
    decreases eids.len(),
{
    if eids.len() == 0 {
        g
    } else {
        drop_in_edge(drop_in_edges(g, eids.drop_last()), eids.last())
    }
}

/// The store after the node `nid` is removed: the edges listed out of it,
/// then those listed into it, then the node itself with its label and name
/// index entries.
pub open spec fn remove_node(g: GraphView, nid: Seq<char>) -> GraphView {
    let g1 = if g.outgoing.dom().contains(nid) {
        drop_out_edges(GraphView { outgoing: g.outgoing.remove(nid), ..g }, g.outgoing[nid])
    } else {
        g
    };
    let g2 = if g1.incoming.dom().contains(nid) {
        drop_in_edges(GraphView { incoming: g1.incoming.remove(nid), ..g1 }, g1.incoming[nid])
    } else {
        g1
    };
    if g2.nodes.dom().contains(nid) {
        GraphView {
            nodes: g2.nodes.remove(nid),
            by_label: index_drop(g2.by_label, g2.nodes[nid].label, nid),
            by_name: index_drop(g2.by_name, g2.nodes[nid].name, nid),
            ..g2
        }
    } else {
        g2
    }
}

/// The store after the nodes `ids` are removed in turn.
pub open spec fn remove_nodes(g: GraphView, ids: Seq<Seq<char>>) -> GraphView
    decreases ids.len(),
{
    if ids.len() == 0 {
        g
    } else {
        remove_node(remove_nodes(g, ids.drop_last()), ids.last())
    }
}

/// The store after the file `fp` is removed, and the number of node ids it
/// listed.
pub open spec fn spec_remove_file(g: GraphView, fp: Seq<char>) -> (GraphView, nat) {
    if g.by_file.dom().contains(fp) {
        (remove_nodes(GraphView { by_file: g.by_file.remove(fp), ..g }, g.by_file[fp]), g.by_file[fp].len())
    } else {
        (g, 0)
    }
}

impl GraphStore {
    fn drop_listed_edges(&mut self, eids: &Vec<String>, outward: bool)
        requires
            old(self).wf(),
        ensures
            final(self).wf(),
            final(self)@ == if outward {
                drop_out_edges(old(self)@, ids_view(eids@))
            } else {
                drop_in_edges(old(self)@, ids_view(eids@))
            },
    {
        let ghost iv = ids_view(eids@);
        let ghost start = self@;
        let mut i: usize = 0;
        while i < eids.len()
            invariant
                self.wf(),
                iv == ids_view(eids@),
                start == old(self)@,
                i <= eids@.len(),
                self@ == if outward {
                    drop_out_edges(start, iv.subrange(0, i as int))
                } else {
                    drop_in_edges(start, iv.subrange(0, i as int))
                },
            decreases eids.len() - i,
        {
            assert(iv.subrange(0, i + 1).drop_last() =~= iv.subrange(0, i as int));
            assert(iv.subrange(0, i + 1).last() == eids@[i as int]@);
            let eid = eids[i].as_str();
            let ghost before = self@;
            match table_take::<GraphEdge, EdgeView>(&mut self.edges, eid, Ghost(|e: GraphEdge| edge_of(e))) {
                Some(edge) => {
                    if outward {
                        drop_id(&mut self.incoming, edge.target_id.as_str(), eid);
                    } else {
                        drop_id(&mut self.outgoing, edge.source_id.as_str(), eid);
                    }
                    assert(self@ == if outward { drop_out_edge(before, eid@) } else { drop_in_edge(before, eid@) });
                },
                None => {
                    assert(self@ =~= before);
                },
            }
            i = i + 1;
        }
        assert(iv.subrange(0, iv.len() as int) =~= iv);
    }

    fn remove_node_links(&mut self, nid: &str)
        requires
            old(self).wf(),
        ensures
            final(self).wf(),
            final(self)@ == remove_node(old(self)@, nid@),
    {
        let ghost g = self@;
        if let Some(out_edges) = take_ids(&mut self.outgoing, nid) {
            assert(self@ =~= GraphView { outgoing: g.outgoing.remove(nid@), ..g });
            self.drop_listed_edges(&out_edges, true);
        } else {
            assert(self@ =~= g);
        }
        let ghost g1 = self@;
        assert(g1 == if g.outgoing.dom().contains(nid@) {
            drop_out_edges(GraphView { outgoing: g.outgoing.remove(nid@), ..g }, g.outgoing[nid@])
        } else {
            g
        });
        if let Some(in_edges) = take_ids(&mut self.incoming, nid) {
            assert(self@ =~= GraphView { incoming: g1.incoming.remove(nid@), ..g1 });
            self.drop_listed_edges(&in_edges, false);
        } else {
            assert(self@ =~= g1);
        }
        let ghost g2 = self@;
        assert(g2 == if g1.incoming.dom().contains(nid@) {
            drop_in_edges(GraphView { incoming: g1.incoming.remove(nid@), ..g1 }, g1.incoming[nid@])
        } else {
            g1
        });
        if let Some(node) = table_take::<GraphNode, NodeView>(&mut self.nodes, nid, Ghost(|n: GraphNode| node_of(n))) {
            drop_label_id(&mut self.by_label, node.label, nid);
            drop_id(&mut self.by_name, node.name.as_str(), nid);
        } else {
            assert(self@ =~= g2);
        }
    }

    /// Remove all nodes and edges associated with a file, for incremental
    /// re-indexing; the number of node ids the file listed is returned.
    pub fn remove_file(&mut self, file_path: &str) -> (r: usize)
        requires
            old(self).wf(),
        ensures
            final(self).wf(),
            final(self)@ == spec_remove_file(old(self)@, file_path@).0,
            r == spec_remove_file(old(self)@, file_path@).1,
    {
        let ghost g = self@;
        let node_ids = match take_ids(&mut self.by_file, file_path) {
            Some(ids) => ids,
            None => {
                assert(self@ =~= g);
                return 0;
            },
        };
        assert(self@ =~= GraphView { by_file: g.by_file.remove(file_path@), ..g });
        let count = node_ids.len();
        let ghost iv = ids_view(node_ids@);
        let ghost start = self@;
        let mut i: usize = 0;
        while i < node_ids.len()
            invariant
                self.wf(),
                iv == ids_view(node_ids@),
                i <= node_ids@.len(),
                self@ == remove_nodes(start, iv.subrange(0, i as int)),
            decreases node_ids.len() - i,
        {
            assert(iv.subrange(0, i + 1).drop_last() =~= iv.subrange(0, i as int));
            assert(iv.subrange(0, i + 1).last() == node_ids@[i as int]@);
            self.remove_node_links(node_ids[i].as_str());
            i = i + 1;
        }
        assert(iv.subrange(0, iv.len() as int) =~= iv);
        count
    }
}


/// The content of a traversal hit.
pub struct HitView {
    pub node_id: Seq<char>,
    pub depth: nat,
    pub path: Seq<Seq<char>>,
}

/// A node reached by a traversal: its id, its depth and the path to it.
#[derive(Debug, Clone)]
pub struct TraversalHit {
    pub node_id: String,
    pub depth: usize,
    pub path: Vec<String>,
}

impl View for TraversalHit {
    type V = HitView;

    open spec fn view(&self) -> HitView {
        HitView { node_id: self.node_id@, depth: self.depth as nat, path: ids_view(self.path@) }
    }
}

/// The views of a sequence of hits.
pub open spec fn hits_view(s: Seq<TraversalHit>) -> Seq<HitView> {
    s.map_values(|h: TraversalHit| h@)
}

/// The edges a traversal looks at from a node: those listed out of it,
/// into it, or both (out first).
pub open spec fn neighbor_edges(g: GraphView, node: Seq<char>, dir: Direction) -> Seq<EdgeView> {
    match dir {
        Direction::Outgoing => edges_named(g.edges, listed(g.outgoing, node), None),
        Direction::Incoming => edges_named(g.edges, listed(g.incoming, node), None),
        Direction::Both => edges_named(g.edges, listed(g.outgoing, node), None) + edges_named(
            g.edges,
            listed(g.incoming, node),
            None,
        ),
    }
}

/// Whether a traversal follows an edge: any edge without a filter, else
/// only edges of the listed relations.
pub open spec fn follows(filter: Option<Seq<RelationType>>, e: EdgeView) -> bool {
    match filter {
        None => true,
        Some(ts) => ts.contains(e.rel_type),
    }
}

/// The node an edge leads to from the node `from`: its source when going
/// backwards, its target when going forwards, and in both directions the end
/// that is not `from` (the target of an edge out of `from`, the source of an
/// edge into it).
pub open spec fn leads_to(dir: Direction, e: EdgeView, from: Seq<char>) -> Seq<char> {
    match dir {
        Direction::Incoming => e.source_id,
        Direction::Outgoing => e.target_id,
        Direction::Both => if e.source_id == from {
            e.target_id
        } else {
            e.source_id
        },
    }
}

/// The visited set and queue after the edges `es` out of `hit` are
/// looked at in turn: each followed edge to an unvisited node visits it and
/// queues it one level deeper.
pub open spec fn expand(
    hit: HitView,
    es: Seq<EdgeView>,
    dir: Direction,
    filter: Option<Seq<RelationType>>,
    visited: Set<Seq<char>>,
    queue: Seq<HitView>,
) -> (Set<Seq<char>>, Seq<HitView>)
    decreases es.len(),
{
    if es.len() == 0 {
        (visited, queue)
    } else {
        let (v, q) = expand(hit, es.drop_last(), dir, filter, visited, queue);
        let n = leads_to(dir, es.last(), hit.node_id);
        if follows(filter, es.last()) && !v.contains(n) {
            (v.insert(n), q.push(HitView { node_id: n, depth: hit.depth + 1, path: hit.path.push(n) }))
        } else {
            (v, q)
        }
    }
}

/// Breadth-first traversal from the queue, for at most `fuel` steps: each
/// step takes the first queued hit, reports it unless it is the start, and,
/// below `max_depth`, expands it.
pub open spec fn bfs_steps(
    g: GraphView,
    dir: Direction,
    max_depth: nat,
    filter: Option<Seq<RelationType>>,
    queue: Seq<HitView>,
    visited: Set<Seq<char>>,
    results: Seq<HitView>,
    fuel: nat,
) -> Seq<HitView>
    decreases fuel,
{
    if fuel == 0 || queue.len() == 0 {
        results
    } else {
        let hit = queue[0];
        let results2 = if hit.depth > 0 { results.push(hit) } else { results };
        if hit.depth >= max_depth {
            bfs_steps(g, dir, max_depth, filter, queue.drop_first(), visited, results2, (fuel - 1) as nat)
        } else {
            let (v2, q2) = expand(hit, neighbor_edges(g, hit.node_id, dir), dir, filter, visited, queue.drop_first());
            bfs_steps(g, dir, max_depth, filter, q2, v2, results2, (fuel - 1) as nat)
        }
    }
}

/// The node ids that edges of the store start or end at.
pub open spec fn endpoints(g: GraphView) -> Set<Seq<char>> {
    g.edges.dom().map(|eid: Seq<char>| g.edges[eid].source_id) + g.edges.dom().map(
        |eid: Seq<char>| g.edges[eid].target_id,
    )
}

/// The hits of a breadth-first traversal from `start`, in the order they
/// are reached, each node at most once, the start itself not reported.
pub open spec fn spec_bfs(
    g: GraphView,
    start: Seq<char>,
    dir: Direction,
    max_depth: nat,
    filter: Option<Seq<RelationType>>,
) -> Seq<HitView> {
    bfs_steps(
        g,
        dir,
        max_depth,
        filter,
        seq![HitView { node_id: start, depth: 0, path: seq![start] }],
        set![start],
        Seq::empty(),
        1 + endpoints(g).difference(set![start]).len(),
    )
}

proof fn lemma_edges_named_in_map(edges: Map<Seq<char>, EdgeView>, ids: Seq<Seq<char>>, rel: Option<RelationType>, k: int)
    requires
        0 <= k < edges_named(edges, ids, rel).len(),
    ensures
        exists|eid: Seq<char>| edges.dom().contains(eid) && edges[eid] == #[trigger] edges_named(edges, ids, rel)[k],
    decreases ids.len(),
{
    if ids.len() > 0 {
        let r = edges_named(edges, ids.drop_last(), rel);
        if k < r.len() {
            lemma_edges_named_in_map(edges, ids.drop_last(), rel, k);
            let eid = choose|eid: Seq<char>| edges.dom().contains(eid) && edges[eid] == #[trigger] edges_named(edges, ids.drop_last(), rel)[k];
            assert(edges_named(edges, ids, rel)[k] == r[k]);
        } else {
            assert(edges.dom().contains(ids.last()));
        }
    }
}

proof fn lemma_neighbor_in_endpoints(g: GraphView, node: Seq<char>, dir: Direction, k: int)
    requires
        0 <= k < neighbor_edges(g, node, dir).len(),
    ensures
        endpoints(g).contains(leads_to(dir, neighbor_edges(g, node, dir)[k], node)),
{
    let es = neighbor_edges(g, node, dir);
    let outs = edges_named(g.edges, listed(g.outgoing, node), None);
    let ins = edges_named(g.edges, listed(g.incoming, node), None);
    match dir {
        Direction::Outgoing => {
            lemma_edges_named_in_map(g.edges, listed(g.outgoing, node), None, k);
        },
        Direction::Incoming => {
            lemma_edges_named_in_map(g.edges, listed(g.incoming, node), None, k);
        },
        Direction::Both => {
            if k < outs.len() {
                lemma_edges_named_in_map(g.edges, listed(g.outgoing, node), None, k);
                assert(es[k] == outs[k]);
            } else {
                lemma_edges_named_in_map(g.edges, listed(g.incoming, node), None, k - outs.len());
                assert(es[k] == ins[k - outs.len()]);
            }
        },
    }
    let e = es[k];
    let eid = choose|eid: Seq<char>| g.edges.dom().contains(eid) && g.edges[eid] == e;
    assert(g.edges.dom().map(|eid: Seq<char>| g.edges[eid].source_id).contains(e.source_id));
    assert(g.edges.dom().map(|eid: Seq<char>| g.edges[eid].target_id).contains(e.target_id));
}

proof fn lemma_endpoints_finite(g: GraphView)
    requires
        g.edges.dom().finite(),
    ensures
        endpoints(g).finite(),
{
    g.edges.dom().lemma_map_finite(|eid: Seq<char>| g.edges[eid].source_id);
    g.edges.dom().lemma_map_finite(|eid: Seq<char>| g.edges[eid].target_id);
}

proof fn lemma_visit_one(u: Set<Seq<char>>, v: Set<Seq<char>>, n: Seq<char>)
    requires
        u.finite(),
        u.contains(n),
        !v.contains(n),
    ensures
        u.difference(v.insert(n)).len() + 1 == u.difference(v).len(),
{
    assert(u.difference(v.insert(n)) =~= u.difference(v).remove(n));
    vstd::set_lib::lemma_set_subset_finite(u, u.difference(v));
}

impl GraphStore {
    /// Breadth-first traversal from `start`, up to `max_depth` levels, along
    /// the edges the direction selects and, when `edge_filter` is given,
    /// only along edges of the listed relations.
    pub fn bfs(&self, start: &str, direction: Direction, max_depth: usize, edge_filter: Option<&[RelationType]>) -> (r: Vec<
        TraversalHit,
    >)
        requires
            self.wf(),
        ensures
            hits_view(r@) == spec_bfs(
                self@,
                start@,
                direction,
                max_depth as nat,
                match edge_filter {
                    Some(ts) => Some(ts@),
                    None => None,
                },
            ),
    {
        let ghost filt = match edge_filter {
            Some(ts) => Some(ts@),
            None => None::<Seq<RelationType>>,
        };
        let ghost g = self@;
        let ghost u = endpoints(g);
        proof {
            lemma_to_map_dom(edge_pairs(self.edges@), start@);
            lemma_endpoints_finite(g);
        }
        let mut visited: Vec<String> = Vec::new();
        let mut queue: Vec<TraversalHit> = Vec::new();
        let mut results: Vec<TraversalHit> = Vec::new();
        visited.push(start.to_owned());
        let mut start_path: Vec<String> = Vec::new();
        start_path.push(start.to_owned());
        queue.push(TraversalHit { node_id: start.to_owned(), depth: 0, path: start_path });
        let ghost mut vset: Set<Seq<char>> = set![start@];
        let ghost mut fuel: nat = (1 + u.difference(vset).len()) as nat;
        let mut head: usize = 0;
        assert(ids_view(queue@[0].path@) =~= seq![start@]);
        assert(hits_view(queue@).subrange(0, 1) =~= seq![HitView { node_id: start@, depth: 0, path: seq![start@] }]);
        assert(ids_view(visited@) =~= seq![start@]);
        assert forall|x: Seq<char>| #[trigger] vset.contains(x) <==> ids_view(visited@).contains(x) by {
            if ids_view(visited@).contains(x) {
                let j = choose|j: int| 0 <= j < ids_view(visited@).len() && ids_view(visited@)[j] == x;
                assert(j == 0);
            }
            if x == start@ {
                assert(ids_view(visited@)[0] == x);
            }
        }
        assert(hits_view(results@) =~= Seq::<HitView>::empty());
        while head < queue.len()
            invariant
                self.wf(),
                g == self@,
                u == endpoints(g),
                u.finite(),
                filt == (match edge_filter {
                    Some(ts) => Some(ts@),
                    None => None::<Seq<RelationType>>,
                }),
                head <= queue@.len(),
                forall|x: Seq<char>| #[trigger] vset.contains(x) <==> ids_view(visited@).contains(x),
                fuel == (queue@.len() - head) + u.difference(vset).len(),
                spec_bfs(g, start@, direction, max_depth as nat, filt) == bfs_steps(
                    g,
                    direction,
                    max_depth as nat,
                    filt,
                    hits_view(queue@).subrange(head as int, queue@.len() as int),
                    vset,
                    hits_view(results@),
                    fuel,
                ),
            decreases fuel,
        {
            let ghost qv = hits_view(queue@).subrange(head as int, queue@.len() as int);
            let ghost rv = hits_view(results@);
            let hit_node = queue[head].node_id.clone();
            let hit_depth = queue[head].depth;
            let hit_path = clone_ids(&queue[head].path);
            let ghost hv = HitView { node_id: hit_node@, depth: hit_depth as nat, path: ids_view(hit_path@) };
            assert(qv[0] == hv);
            head = head + 1;
            assert(qv.drop_first() =~= hits_view(queue@).subrange(head as int, queue@.len() as int));
            if hit_depth > 0 {
                let copy = TraversalHit { node_id: hit_node.clone(), depth: hit_depth, path: clone_ids(&hit_path) };
                results.push(copy);
                assert(hits_view(results@) =~= rv.push(hv));
            }
            let ghost rv2 = hits_view(results@);
            if hit_depth >= max_depth {
                proof {
                    fuel = (fuel - 1) as nat;
                }
                continue;
            }
            let neighbors = match direction {
                Direction::Outgoing => self.outgoing_edges(hit_node.as_str(), None),
                Direction::Incoming => self.incoming_edges(hit_node.as_str(), None),
                Direction::Both => {
                    let mut out = self.outgoing_edges(hit_node.as_str(), None);
                    let inc = self.incoming_edges(hit_node.as_str(), None);
                    let ghost ov = out@.map_values(|e: GraphEdge| e@);
                    let ghost iv = inc@.map_values(|e: GraphEdge| e@);
                    let mut k: usize = 0;
                    assert(ov + iv.subrange(0, 0) =~= ov);
                    while k < inc.len()
                        invariant
                            k <= inc@.len(),
                            iv == inc@.map_values(|e: GraphEdge| e@),
                            out@.map_values(|e: GraphEdge| e@) == ov + iv.subrange(0, k as int),
                        decreases inc.len() - k,
                    {
                        let ghost before = out@.map_values(|e: GraphEdge| e@);
                        let d = inc[k].duplicate();
                        assert(d@ == iv[k as int]);
                        out.push(d);
                        assert(out@.map_values(|e: GraphEdge| e@) =~= before.push(iv[k as int]));
                        assert(ov + iv.subrange(0, k + 1) =~= (ov + iv.subrange(0, k as int)).push(iv[k as int]));
                        k = k + 1;
                    }
                    assert(inc@.map_values(|e: GraphEdge| e@).subrange(0, inc@.len() as int) =~= inc@.map_values(|e: GraphEdge| e@));
                    out
                },
            };
            let ghost nv = neighbors@.map_values(|e: GraphEdge| e@);
            assert(nv == neighbor_edges(g, hit_node@, direction));
            let ghost vset0 = vset;
            let ghost q0 = hits_view(queue@).subrange(head as int, queue@.len() as int);
            let ghost diff0 = u.difference(vset0).len();
            let mut k: usize = 0;
            while k < neighbors.len()
                invariant
                    g == self@,
                    u == endpoints(g),
                    u.finite(),
                    nv == neighbors@.map_values(|e: GraphEdge| e@),
                    nv == neighbor_edges(g, hit_node@, direction),
                    hv == (HitView { node_id: hit_node@, depth: hit_depth as nat, path: ids_view(hit_path@) }),
                    hit_depth < max_depth,
                    filt == (match edge_filter {
                        Some(ts) => Some(ts@),
                        None => None::<Seq<RelationType>>,
                    }),
                    k <= nv.len(),
                    head <= queue@.len(),
                    forall|x: Seq<char>| #[trigger] vset.contains(x) <==> ids_view(visited@).contains(x),
                    (vset, hits_view(queue@).subrange(head as int, queue@.len() as int)) == expand(
                        hv,
                        nv.subrange(0, k as int),
                        direction,
                        filt,
                        vset0,
                        q0,
                    ),
                    (queue@.len() - head) + u.difference(vset).len() == q0.len() + diff0,
                decreases neighbors.len() - k,
            {
                let edge = &neighbors[k];
                assert(nv.subrange(0, k + 1).drop_last() =~= nv.subrange(0, k as int));
                assert(nv.subrange(0, k + 1).last() == edge@);
                let followed = match edge_filter {
                    Some(ts) => {
                        let mut found = false;
                        let mut m: usize = 0;
                        while m < ts.len()
                            invariant
                                m <= ts@.len(),
                                found == ts@.subrange(0, m as int).contains(edge.rel_type),
                            decreases ts.len() - m,
                        {
                            let ghost prefix = ts@.subrange(0, m + 1);
                            let ghost before = ts@.subrange(0, m as int);
                            if ts[m] == edge.rel_type {
                                assert(prefix[m as int] == edge.rel_type);
                                found = true;
                            } else {
                                proof {
                                    if prefix.contains(edge.rel_type) {
                                        let j = choose|j: int| 0 <= j < prefix.len() && prefix[j] == edge.rel_type;
                                        assert(before[j] == edge.rel_type);
                                    }
                                }
                            }
                            proof {
                                if found && !prefix.contains(edge.rel_type) {
                                    let j = choose|j: int| 0 <= j < before.len() && before[j] == edge.rel_type;
                                    assert(prefix[j] == edge.rel_type);
                                }
                            }
                            m = m + 1;
                        }
                        assert(ts@.subrange(0, ts@.len() as int) =~= ts@);
                        found
                    },
                    None => true,
                };
                let next_id = match direction {
                    Direction::Incoming => edge.source_id.clone(),
                    Direction::Outgoing => edge.target_id.clone(),
                    Direction::Both => if str_eq(edge.source_id.as_str(), hit_node.as_str()) {
                        edge.target_id.clone()
                    } else {
                        edge.source_id.clone()
                    },
                };
                assert(next_id@ == leads_to(direction, edge@, hit_node@));
                let mut seen = false;
                let mut m: usize = 0;
                while m < visited.len()
                    invariant
                        m <= visited@.len(),
                        seen == ids_view(visited@).subrange(0, m as int).contains(next_id@),
                    decreases visited.len() - m,
                {
                    let ghost prefix = ids_view(visited@).subrange(0, m + 1);
                    let ghost before = ids_view(visited@).subrange(0, m as int);
                    if str_eq(visited[m].as_str(), next_id.as_str()) {
                        assert(prefix[m as int] == next_id@);
                        seen = true;
                    } else {
                        proof {
                            if prefix.contains(next_id@) {
                                let j = choose|j: int| 0 <= j < prefix.len() && prefix[j] == next_id@;
                                assert(before[j] == next_id@);
                            }
                        }
                    }
                    proof {
                        if seen && !prefix.contains(next_id@) {
                            let j = choose|j: int| 0 <= j < before.len() && before[j] == next_id@;
                            assert(prefix[j] == next_id@);
                        }
                    }
                    m = m + 1;
                }
                assert(ids_view(visited@).subrange(0, visited@.len() as int) =~= ids_view(visited@));
                if followed && !seen {
                    proof {
                        lemma_neighbor_in_endpoints(g, hit_node@, direction, k as int);
                        lemma_visit_one(u, vset, next_id@);
                    }
                    let ghost vbefore = ids_view(visited@);
                    let ghost qbefore = hits_view(queue@).subrange(head as int, queue@.len() as int);
                    visited.push(next_id.clone());
                    assert(ids_view(visited@) =~= vbefore.push(next_id@));
                    proof {
                        vset = vset.insert(next_id@);
                        assert forall|x: Seq<char>| #[trigger] vset.contains(x) <==> ids_view(visited@).contains(x) by {
                            if ids_view(visited@).contains(x) && x != next_id@ {
                                let j = choose|j: int| 0 <= j < ids_view(visited@).len() && ids_view(visited@)[j] == x;
                                assert(vbefore[j] == x);
                            }
                            if vbefore.contains(x) {
                                let j = choose|j: int| 0 <= j < vbefore.len() && vbefore[j] == x;
                                assert(ids_view(visited@)[j] == x);
                            }
                            if x == next_id@ {
                                assert(ids_view(visited@)[vbefore.len() as int] == x);
                            }
                        }
                    }
                    let mut path = clone_ids(&hit_path);
                    path.push(next_id.clone());
                    assert(ids_view(path@) =~= ids_view(hit_path@).push(next_id@));
                    let new_hit = TraversalHit { node_id: next_id, depth: hit_depth + 1, path };
                    let ghost nh = new_hit@;
                    queue.push(new_hit);
                    assert(hits_view(queue@).subrange(head as int, queue@.len() as int) =~= qbefore.push(nh));
                } else {
                    proof {
                        if followed {
                            assert(ids_view(visited@).contains(next_id@));
                        }
                    }
                }
                k = k + 1;
            }
            assert(nv.subrange(0, nv.len() as int) =~= nv);
            proof {
                fuel = (fuel - 1) as nat;
            }
        }
        results
    }
}


/// `str::to_lowercase` of a text (Unicode lowercase mapping).
pub uninterp spec fn spec_to_lowercase(s: Seq<char>) -> Seq<char>;

/// `str::to_lowercase`.
#[verifier::external_body]
pub(crate) fn to_lowercase(s: &str) -> (r: String)
    ensures
        r@ == spec_to_lowercase(s@),
{
    s.to_lowercase()
}

/// Whether a node is found by a name search for `query`: it is a symbol
/// and its lowercase name holds the lowercase query.
pub open spec fn search_hit(n: NodeView, query: Seq<char>) -> bool {
    spec_is_symbol(n.label) && spec_find_from(spec_to_lowercase(n.name), spec_to_lowercase(query), 0) is Some
}

impl GraphStore {
    /// The stored nodes in the order the store keeps them: each id where it
    /// was first added.
    pub closed spec fn node_list(&self) -> Seq<NodeView> {
        self.nodes@.map_values(|p: (String, GraphNode)| p.1@)
    }

    /// The stored edges in the order the store keeps them: each id where it
    /// was first added.
    pub closed spec fn edge_list(&self) -> Seq<EdgeView> {
        self.edges@.map_values(|p: (String, GraphEdge)| p.1@)
    }

    /// The stored file hashes as (path, hash) pairs, in the order the store
    /// keeps them.
    pub closed spec fn hash_list(&self) -> Seq<(Seq<char>, u64)> {
        hash_pairs(self.file_hashes@)
    }

    /// The file hashes of the store are those its pairs give.
    pub proof fn lemma_hash_list(&self)
        ensures
            to_map(self.hash_list()) == self@.file_hashes,
    {
    }

    /// The node list holds each stored node once, under its id: every entry
    /// is the node stored under its id, and every stored id has an entry.
    pub proof fn lemma_node_list(&self)
        requires
            self.wf(),
        ensures
            self.node_list().len() == self@.nodes.len(),
            forall|i: int| 0 <= i < self.node_list().len() ==> self@.nodes.dom().contains((#[trigger] self.node_list()[i]).id)
                && self@.nodes[self.node_list()[i].id] == self.node_list()[i],
            forall|k: Seq<char>| #[trigger] self@.nodes.dom().contains(k) ==> exists|i: int| 0 <= i < self.node_list().len()
                && self.node_list()[i].id == k,
    {
        let pairs = node_pairs(self.nodes@);
        lemma_to_map_len(pairs);
        assert forall|i: int| 0 <= i < self.node_list().len() implies self@.nodes.dom().contains((#[trigger] self.node_list()[i]).id)
            && self@.nodes[self.node_list()[i].id] == self.node_list()[i] by {
            lemma_to_map_index(pairs, i);
            assert(pairs[i] == (self.nodes@[i].0@, self.nodes@[i].1@));
        }
        assert forall|k: Seq<char>| #[trigger] self@.nodes.dom().contains(k) implies exists|i: int| 0 <= i < self.node_list().len()
            && self.node_list()[i].id == k by {
            lemma_to_map_dom(pairs, k);
            let j = choose|j: int| 0 <= j < pairs.len() && (#[trigger] pairs[j]).0 == k;
            assert(pairs[j] == (self.nodes@[j].0@, self.nodes@[j].1@));
            assert(self.node_list()[j].id == k);
        }
    }

    /// The node list holds each id once.
    pub proof fn lemma_node_ids_distinct(&self)
        requires
            self.wf(),
        ensures
            forall|i: int, j: int| 0 <= i < j < self.node_list().len() ==> (#[trigger] self.node_list()[i]).id
                != (#[trigger] self.node_list()[j]).id,
    {
        let pairs = node_pairs(self.nodes@);
        assert forall|i: int, j: int| 0 <= i < j < self.node_list().len() implies (#[trigger] self.node_list()[i]).id
            != (#[trigger] self.node_list()[j]).id by {
            assert(pairs[i] == (self.nodes@[i].0@, self.nodes@[i].1@));
            assert(pairs[j] == (self.nodes@[j].0@, self.nodes@[j].1@));
        }
    }

    /// The stored file hashes, as (path, hash) pairs.
    pub fn file_hash_list(&self) -> (r: Vec<(String, u64)>)
        ensures
            r@.map_values(|e: (String, u64)| (e.0@, e.1)) == self.hash_list(),
    {
        let mut out: Vec<(String, u64)> = Vec::new();
        let mut i: usize = 0;
        while i < self.file_hashes.len()
            invariant
                i <= self.file_hashes@.len(),
                out@.map_values(|e: (String, u64)| (e.0@, e.1)) == hash_pairs(self.file_hashes@).subrange(0, i as int),
            decreases self.file_hashes.len() - i,
        {
            let ghost before = out@;
            out.push((self.file_hashes[i].0.clone(), self.file_hashes[i].1));
            assert(out@.map_values(|e: (String, u64)| (e.0@, e.1)) =~= before.map_values(|e: (String, u64)| (e.0@, e.1)).push(
                (self.file_hashes@[i as int].0@, self.file_hashes@[i as int].1),
            ));
            assert(hash_pairs(self.file_hashes@).subrange(0, i + 1) =~= hash_pairs(self.file_hashes@).subrange(0, i as int).push(
                (self.file_hashes@[i as int].0@, self.file_hashes@[i as int].1),
            ));
            i = i + 1;
        }
        assert(hash_pairs(self.file_hashes@).subrange(0, self.file_hashes@.len() as int) =~= hash_pairs(self.file_hashes@));
        out
    }

    /// All nodes.
    pub fn nodes(&self) -> (r: Vec<GraphNode>)
        requires
            self.wf(),
        ensures
            r@.map_values(|n: GraphNode| n@) == self.node_list(),
            r@.len() == self@.nodes.len(),
            forall|i: int| 0 <= i < r@.len() ==> self@.nodes.dom().contains((#[trigger] r@[i]).id@) && self@.nodes[r@[i].id@] == r@[i]@,
            forall|k: Seq<char>| #[trigger] self@.nodes.dom().contains(k) ==> exists|i: int| 0 <= i < r@.len() && r@[i].id@ == k,
    {
        let ghost pairs = node_pairs(self.nodes@);
        proof {
            lemma_to_map_len(pairs);
        }
        let mut out: Vec<GraphNode> = Vec::new();
        let mut i: usize = 0;
        while i < self.nodes.len()
            invariant
                self.wf(),
                pairs == node_pairs(self.nodes@),
                i <= self.nodes@.len(),
                out@.len() == i,
                forall|j: int| 0 <= j < i ==> (#[trigger] out@[j])@ == self.nodes@[j].1@,
            decreases self.nodes.len() - i,
        {
            out.push(self.nodes[i].1.duplicate());
            i = i + 1;
        }
        assert forall|j: int| 0 <= j < out@.len() implies self@.nodes.dom().contains((#[trigger] out@[j]).id@) && self@.nodes[out@[j].id@] == out@[j]@ by {
            lemma_to_map_index(pairs, j);
            assert(pairs[j] == (self.nodes@[j].0@, self.nodes@[j].1@));
        }
        assert forall|k: Seq<char>| #[trigger] self@.nodes.dom().contains(k) implies exists|j: int| 0 <= j < out@.len() && out@[j].id@ == k by {
            lemma_to_map_dom(pairs, k);
            let j = choose|j: int| 0 <= j < pairs.len() && (#[trigger] pairs[j]).0 == k;
            assert(pairs[j] == (self.nodes@[j].0@, self.nodes@[j].1@));
            assert(out@[j].id@ == k);
        }
        out
    }

    /// All edges.
    pub fn edges(&self) -> (r: Vec<GraphEdge>)
        requires
            self.wf(),
        ensures
            r@.map_values(|e: GraphEdge| e@) == self.edge_list(),
            r@.len() == self@.edges.len(),
            forall|i: int| 0 <= i < r@.len() ==> self@.edges.dom().contains((#[trigger] r@[i]).id@) && self@.edges[r@[i].id@] == r@[i]@,
            forall|k: Seq<char>| #[trigger] self@.edges.dom().contains(k) ==> exists|i: int| 0 <= i < r@.len() && r@[i].id@ == k,
    {
        let ghost pairs = edge_pairs(self.edges@);
        proof {
            lemma_to_map_len(pairs);
        }
        let mut out: Vec<GraphEdge> = Vec::new();
        let mut i: usize = 0;
        while i < self.edges.len()
            invariant
                self.wf(),
                pairs == edge_pairs(self.edges@),
                i <= self.edges@.len(),
                out@.len() == i,
                forall|j: int| 0 <= j < i ==> (#[trigger] out@[j])@ == self.edges@[j].1@,
            decreases self.edges.len() - i,
        {
            out.push(self.edges[i].1.duplicate());
            i = i + 1;
        }
        assert forall|j: int| 0 <= j < out@.len() implies self@.edges.dom().contains((#[trigger] out@[j]).id@) && self@.edges[out@[j].id@] == out@[j]@ by {
            lemma_to_map_index(pairs, j);
            assert(pairs[j] == (self.edges@[j].0@, self.edges@[j].1@));
        }
        assert forall|k: Seq<char>| #[trigger] self@.edges.dom().contains(k) implies exists|j: int| 0 <= j < out@.len() && out@[j].id@ == k by {
            lemma_to_map_dom(pairs, k);
            let j = choose|j: int| 0 <= j < pairs.len() && (#[trigger] pairs[j]).0 == k;
            assert(pairs[j] == (self.edges@[j].0@, self.edges@[j].1@));
            assert(out@[j].id@ == k);
        }
        out
    }

    /// Search symbol nodes by name substring, ignoring case; at most
    /// `limit` nodes, each once. The store's nodes are taken in no stated
    /// order, so which nodes come back when more than `limit` match is not
    /// stated.
    pub fn search_nodes(&self, query: &str, limit: usize) -> (r: Vec<GraphNode>)
        requires
            self.wf(),
        ensures
            r@.len() <= limit,
            forall|i: int| 0 <= i < r@.len() ==> self@.nodes.dom().contains((#[trigger] r@[i]).id@) && self@.nodes[r@[i].id@]
                == r@[i]@ && search_hit(r@[i]@, query@),
            forall|i: int, j: int| 0 <= i < j < r@.len() ==> (#[trigger] r@[i]).id@ != (#[trigger] r@[j]).id@,
            r@.len() < limit ==> forall|k: Seq<char>| #[trigger] self@.nodes.dom().contains(k) && search_hit(self@.nodes[k], query@)
                ==> exists|i: int| 0 <= i < r@.len() && r@[i].id@ == k,
    {
        let ghost pairs = node_pairs(self.nodes@);
        let q = chars_of(to_lowercase(query).as_str());
        let mut out: Vec<GraphNode> = Vec::new();
        let mut i: usize = 0;
        while i < self.nodes.len() && out.len() < limit
            invariant
                self.wf(),
                pairs == node_pairs(self.nodes@),
                q@ == spec_to_lowercase(query@),
                i <= self.nodes@.len(),
                out@.len() <= limit,
                forall|j: int| 0 <= j < out@.len() ==> self@.nodes.dom().contains((#[trigger] out@[j]).id@) && self@.nodes[out@[j].id@]
                    == out@[j]@ && search_hit(out@[j]@, query@),
                forall|j: int| 0 <= j < out@.len() ==> exists|m: int| 0 <= m < i && #[trigger] out@[j].id@ == self.nodes@[m].0@,
                forall|a: int, b: int| 0 <= a < b < out@.len() ==> (#[trigger] out@[a]).id@ != (#[trigger] out@[b]).id@,
                forall|m: int| 0 <= m < i && search_hit(#[trigger] self.nodes@[m].1@, query@) ==> exists|j: int|
                    0 <= j < out@.len() && out@[j].id@ == self.nodes@[m].0@,
            decreases self.nodes.len() - i,
        {
            let node = &self.nodes[i].1;
            proof {
                lemma_to_map_index(pairs, i as int);
                assert(pairs[i as int] == (self.nodes@[i as int].0@, node@));
            }
            let name = chars_of(to_lowercase(node.name.as_str()).as_str());
            let hit = node.label.is_symbol() && find_str(&name, &q, 0).is_some();
            if hit {
                proof {
                    assert forall|a: int| 0 <= a < out@.len() implies (#[trigger] out@[a]).id@ != node.id@ by {
                        let m = choose|m: int| 0 <= m < i && #[trigger] out@[a].id@ == self.nodes@[m].0@;
                        assert(pairs[m] == (self.nodes@[m].0@, self.nodes@[m].1@));
                        assert(pairs[m].0 != pairs[i as int].0);
                    }
                }
                let ghost before = out@;
                out.push(node.duplicate());
                assert forall|j: int| 0 <= j < out@.len() implies exists|m: int| 0 <= m < i + 1 && #[trigger] out@[j].id@ == self.nodes@[m].0@ by {
                    if j < before.len() {
                        assert(out@[j] == before[j]);
                        let m = choose|m: int| 0 <= m < i && #[trigger] before[j].id@ == self.nodes@[m].0@;
                    } else {
                        assert(out@[j].id@ == self.nodes@[i as int].0@);
                    }
                }
                assert forall|m: int| 0 <= m < i + 1 && search_hit(#[trigger] self.nodes@[m].1@, query@) implies exists|j: int|
                    0 <= j < out@.len() && out@[j].id@ == self.nodes@[m].0@ by {
                    if m < i {
                        let j = choose|j: int| 0 <= j < before.len() && before[j].id@ == self.nodes@[m].0@;
                        assert(out@[j] == before[j]);
                    } else {
                        assert(out@[before.len() as int].id@ == self.nodes@[m].0@);
                    }
                }
            }
            i = i + 1;
        }
        proof {
            if out@.len() < limit {
                assert forall|k: Seq<char>| #[trigger] self@.nodes.dom().contains(k) && search_hit(self@.nodes[k], query@) implies exists|j: int|
                    0 <= j < out@.len() && out@[j].id@ == k by {
                    lemma_to_map_dom(pairs, k);
                    let m = choose|m: int| 0 <= m < pairs.len() && (#[trigger] pairs[m]).0 == k;
                    lemma_to_map_index(pairs, m);
                    assert(pairs[m] == (self.nodes@[m].0@, self.nodes@[m].1@));
                    assert(search_hit(self.nodes@[m].1@, query@));
                }
            }
        }
        out
    }
}


/// A node added to the store is found under its id, and is the last node
/// listed for its file, label and name.
pub proof fn lemma_read_after_add_node(g: GraphView, n: NodeView)
    ensures
        ({
            let g2 = GraphView {
                nodes: g.nodes.insert(n.id, n),
                by_file: index_push(g.by_file, n.file_path, n.id),
                by_label: index_push(g.by_label, n.label, n.id),
                by_name: index_push(g.by_name, n.name, n.id),
                ..g
            };
            &&& g2.nodes.dom().contains(n.id) && g2.nodes[n.id] == n
            &&& nodes_named(g2.nodes, listed(g2.by_file, n.file_path)).last() == n
            &&& nodes_named(g2.nodes, listed(g2.by_label, n.label)).last() == n
            &&& nodes_named(g2.nodes, listed(g2.by_name, n.name)).last() == n
        }),
{
    let nodes = g.nodes.insert(n.id, n);
    assert(listed(index_push(g.by_file, n.file_path, n.id), n.file_path).drop_last() =~= listed(g.by_file, n.file_path));
    assert(listed(index_push(g.by_label, n.label, n.id), n.label).drop_last() =~= listed(g.by_label, n.label));
    assert(listed(index_push(g.by_name, n.name, n.id), n.name).drop_last() =~= listed(g.by_name, n.name));
}

/// An edge added to the store is found under its id, and is the last edge
/// listed out of its source and into its target.
pub proof fn lemma_read_after_add_edge(g: GraphView, e: EdgeView)
    ensures
        ({
            let g2 = GraphView {
                edges: g.edges.insert(e.id, e),
                outgoing: index_push(g.outgoing, e.source_id, e.id),
                incoming: index_push(g.incoming, e.target_id, e.id),
                ..g
            };
            &&& g2.edges.dom().contains(e.id) && g2.edges[e.id] == e
            &&& edges_named(g2.edges, listed(g2.outgoing, e.source_id), None).last() == e
            &&& edges_named(g2.edges, listed(g2.incoming, e.target_id), None).last() == e
        }),
{
    assert(listed(index_push(g.outgoing, e.source_id, e.id), e.source_id).drop_last() =~= listed(g.outgoing, e.source_id));
    assert(listed(index_push(g.incoming, e.target_id, e.id), e.target_id).drop_last() =~= listed(g.incoming, e.target_id));
}

/// Dropping out-edges removes edges only, and touches no node or file entry.
proof fn lemma_drop_out_frame(g: GraphView, eids: Seq<Seq<char>>)
    ensures
        drop_out_edges(g, eids).nodes == g.nodes,
        drop_out_edges(g, eids).by_file == g.by_file,
        forall|k: Seq<char>| #[trigger] drop_out_edges(g, eids).edges.dom().contains(k) ==> g.edges.dom().contains(k)
            && drop_out_edges(g, eids).edges[k] == g.edges[k],
    decreases eids.len(),
{
    if eids.len() > 0 {
        lemma_drop_out_frame(g, eids.drop_last());
        let p = drop_out_edges(g, eids.drop_last());
        assert forall|k: Seq<char>| #[trigger] drop_out_edge(p, eids.last()).edges.dom().contains(k) implies p.edges.dom().contains(k)
            && drop_out_edge(p, eids.last()).edges[k] == p.edges[k] by {}
    }
}

/// Dropping in-edges removes edges only, and touches no node or file entry.
proof fn lemma_drop_in_frame(g: GraphView, eids: Seq<Seq<char>>)
    ensures
        drop_in_edges(g, eids).nodes == g.nodes,
        drop_in_edges(g, eids).by_file == g.by_file,
        forall|k: Seq<char>| #[trigger] drop_in_edges(g, eids).edges.dom().contains(k) ==> g.edges.dom().contains(k)
            && drop_in_edges(g, eids).edges[k] == g.edges[k],
    decreases eids.len(),
{
    if eids.len() > 0 {
        lemma_drop_in_frame(g, eids.drop_last());
        let p = drop_in_edges(g, eids.drop_last());
        assert forall|k: Seq<char>| #[trigger] drop_in_edge(p, eids.last()).edges.dom().contains(k) implies p.edges.dom().contains(k)
            && drop_in_edge(p, eids.last()).edges[k] == p.edges[k] by {}
    }
}

/// Removing one node removes it and edges only.
proof fn lemma_remove_node_frame(g: GraphView, nid: Seq<char>)
    ensures
        remove_node(g, nid).by_file == g.by_file,
        forall|k: Seq<char>| #[trigger] remove_node(g, nid).nodes.dom().contains(k) <==> g.nodes.dom().contains(k) && k != nid,
        forall|k: Seq<char>| #[trigger] remove_node(g, nid).nodes.dom().contains(k) ==> remove_node(g, nid).nodes[k] == g.nodes[k],
        forall|k: Seq<char>| #[trigger] remove_node(g, nid).edges.dom().contains(k) ==> g.edges.dom().contains(k)
            && remove_node(g, nid).edges[k] == g.edges[k],
{
    if g.outgoing.dom().contains(nid) {
        lemma_drop_out_frame(GraphView { outgoing: g.outgoing.remove(nid), ..g }, g.outgoing[nid]);
    }
    let g1 = if g.outgoing.dom().contains(nid) {
        drop_out_edges(GraphView { outgoing: g.outgoing.remove(nid), ..g }, g.outgoing[nid])
    } else {
        g
    };
    if g1.incoming.dom().contains(nid) {
        lemma_drop_in_frame(GraphView { incoming: g1.incoming.remove(nid), ..g1 }, g1.incoming[nid]);
    }
    let g2 = if g1.incoming.dom().contains(nid) {
        drop_in_edges(GraphView { incoming: g1.incoming.remove(nid), ..g1 }, g1.incoming[nid])
    } else {
        g1
    };
    assert forall|k: Seq<char>| #[trigger] remove_node(g, nid).edges.dom().contains(k) implies g.edges.dom().contains(k)
        && remove_node(g, nid).edges[k] == g.edges[k] by {
        assert(remove_node(g, nid).edges == g2.edges);
        assert(g2.edges.dom().contains(k));
        assert(g1.edges.dom().contains(k));
    }
}

/// Removing nodes in turn removes them and edges only.
proof fn lemma_remove_nodes_frame(g: GraphView, ids: Seq<Seq<char>>)
    ensures
        remove_nodes(g, ids).by_file == g.by_file,
        forall|k: Seq<char>| #[trigger] remove_nodes(g, ids).nodes.dom().contains(k) <==> g.nodes.dom().contains(k) && !ids.contains(k),
        forall|k: Seq<char>| #[trigger] remove_nodes(g, ids).nodes.dom().contains(k) ==> remove_nodes(g, ids).nodes[k] == g.nodes[k],
        forall|k: Seq<char>| #[trigger] remove_nodes(g, ids).edges.dom().contains(k) ==> g.edges.dom().contains(k)
            && remove_nodes(g, ids).edges[k] == g.edges[k],
    decreases ids.len(),
{
    if ids.len() > 0 {
        let d = ids.drop_last();
        lemma_remove_nodes_frame(g, d);
        lemma_remove_node_frame(remove_nodes(g, d), ids.last());
        assert forall|k: Seq<char>| #[trigger] ids.contains(k) <==> d.contains(k) || k == ids.last() by {
            if ids.contains(k) && k != ids.last() {
                let j = choose|j: int| 0 <= j < ids.len() && ids[j] == k;
                assert(d[j] == k);
            }
            if d.contains(k) {
                let j = choose|j: int| 0 <= j < d.len() && d[j] == k;
                assert(ids[j] == k);
            }
            if k == ids.last() {
                assert(ids[ids.len() - 1] == k);
            }
        }
    }
}

/// Removing a file removes exactly the nodes it listed, along with its own
/// entry in the file index, and removes edges only: every node of another
/// file and every remaining edge is as it was.
pub proof fn lemma_remove_file_effect(g: GraphView, fp: Seq<char>)
    ensures
        !spec_remove_file(g, fp).0.by_file.dom().contains(fp),
        spec_remove_file(g, fp).1 == listed(g.by_file, fp).len(),
        forall|k: Seq<char>| #[trigger] spec_remove_file(g, fp).0.nodes.dom().contains(k) <==> g.nodes.dom().contains(k)
            && !listed(g.by_file, fp).contains(k),
        forall|k: Seq<char>| #[trigger] spec_remove_file(g, fp).0.nodes.dom().contains(k) ==> spec_remove_file(g, fp).0.nodes[k]
            == g.nodes[k],
        forall|k: Seq<char>| #[trigger] spec_remove_file(g, fp).0.edges.dom().contains(k) ==> g.edges.dom().contains(k)
            && spec_remove_file(g, fp).0.edges[k] == g.edges[k],
        forall|f: Seq<char>| f != fp ==> #[trigger] listed(spec_remove_file(g, fp).0.by_file, f) == listed(g.by_file, f),
{
    if g.by_file.dom().contains(fp) {
        lemma_remove_nodes_frame(GraphView { by_file: g.by_file.remove(fp), ..g }, g.by_file[fp]);
    } else {
        assert forall|k: Seq<char>| !#[trigger] listed(g.by_file, fp).contains(k) by {}
    }
}


/// Every edge of the store is listed out of its source and into its target.
pub open spec fn edges_listed(g: GraphView) -> bool {
    forall|k: Seq<char>| #[trigger] g.edges.dom().contains(k) ==> listed(g.outgoing, g.edges[k].source_id).contains(k)
        && listed(g.incoming, g.edges[k].target_id).contains(k)
}

proof fn lemma_push_contains(ids: Seq<Seq<char>>, a: Seq<char>, y: Seq<char>)
    ensures
        ids.push(a).contains(y) <==> ids.contains(y) || a == y,
{
    if ids.contains(y) {
        let i = choose|i: int| 0 <= i < ids.len() && ids[i] == y;
        assert(ids.push(a)[i] == y);
    }
    if a == y {
        assert(ids.push(a)[ids.len() as int] == y);
    }
    if ids.push(a).contains(y) {
        let i = choose|i: int| 0 <= i < ids.len() + 1 && ids.push(a)[i] == y;
        if i < ids.len() {
            assert(ids[i] == y);
        }
    }
}

proof fn lemma_without_contains(ids: Seq<Seq<char>>, x: Seq<char>, y: Seq<char>)
    ensures
        without(ids, x).contains(y) <==> ids.contains(y) && y != x,
    decreases ids.len(),
{
    if ids.len() > 0 {
        let d = ids.drop_last();
        lemma_without_contains(d, x, y);
        assert(ids =~= d.push(ids.last()));
        lemma_push_contains(d, ids.last(), y);
        if ids.last() != x {
            lemma_push_contains(without(d, x), ids.last(), y);
        }
    }
}

/// Dropping `x` from the list under `k` takes `x` out of that list alone.
proof fn lemma_index_drop_listed<K>(m: Map<K, Seq<Seq<char>>>, k: K, x: Seq<char>, j: K, y: Seq<char>)
    ensures
        listed(index_drop(m, k, x), j).contains(y) <==> listed(m, j).contains(y) && !(j == k && y == x),
{
    if m.dom().contains(k) && j == k {
        lemma_without_contains(m[k], x, y);
    }
}

/// Dropping out-edges takes them out of the store and out of their targets'
/// incoming lists, and leaves the rest listed as it was.
proof fn lemma_drop_out_listing(h: GraphView, eids: Seq<Seq<char>>)
    ensures
        drop_out_edges(h, eids).outgoing == h.outgoing,
        forall|e: Seq<char>| #[trigger] eids.contains(e) ==> !drop_out_edges(h, eids).edges.dom().contains(e),
        forall|k: Seq<char>, t: Seq<char>| #![trigger listed(drop_out_edges(h, eids).incoming, t).contains(k)]
            drop_out_edges(h, eids).edges.dom().contains(k) ==> (listed(drop_out_edges(h, eids).incoming, t).contains(k)
                <==> listed(h.incoming, t).contains(k)),
        forall|k: Seq<char>| #[trigger] drop_out_edges(h, eids).edges.dom().contains(k) <==> h.edges.dom().contains(k)
            && !eids.contains(k),
        forall|k: Seq<char>, t: Seq<char>| #[trigger] listed(drop_out_edges(h, eids).incoming, t).contains(k) ==> listed(
            h.incoming,
            t,
        ).contains(k) && (drop_out_edges(h, eids).edges.dom().contains(k) || !h.edges.dom().contains(k)
            || h.edges[k].target_id != t),
    decreases eids.len(),
{
    if eids.len() > 0 {
        let d = eids.drop_last();
        let p = drop_out_edges(h, d);
        let eid = eids.last();
        lemma_drop_out_listing(h, d);
        let r = drop_out_edges(h, eids);
        assert(r == drop_out_edge(p, eid));
        assert forall|e: Seq<char>| #[trigger] eids.contains(e) implies !r.edges.dom().contains(e) by {
            assert(eids =~= d.push(eid));
            lemma_push_contains(d, eid, e);
        }
        assert forall|k: Seq<char>, t: Seq<char>| #![trigger listed(r.incoming, t).contains(k)]
            r.edges.dom().contains(k) implies (listed(r.incoming, t).contains(k) <==> listed(h.incoming, t).contains(k)) by {
            if p.edges.dom().contains(eid) {
                lemma_index_drop_listed(p.incoming, p.edges[eid].target_id, eid, t, k);
            }
            assert(listed(p.incoming, t).contains(k) <==> listed(h.incoming, t).contains(k));
        }
        lemma_drop_out_frame(h, d);
        assert forall|k: Seq<char>| #[trigger] r.edges.dom().contains(k) <==> h.edges.dom().contains(k) && !eids.contains(k) by {
            assert(eids =~= d.push(eid));
            lemma_push_contains(d, eid, k);
        }
        assert forall|k: Seq<char>, t: Seq<char>| #[trigger] listed(r.incoming, t).contains(k) implies listed(h.incoming, t).contains(k)
            && (r.edges.dom().contains(k) || !h.edges.dom().contains(k) || h.edges[k].target_id != t) by {
            if p.edges.dom().contains(eid) {
                lemma_index_drop_listed(p.incoming, p.edges[eid].target_id, eid, t, k);
            }
            assert(listed(p.incoming, t).contains(k));
        }
    }
}

/// Dropping in-edges takes them out of the store and out of their sources'
/// outgoing lists, and leaves the rest listed as it was.
proof fn lemma_drop_in_listing(h: GraphView, eids: Seq<Seq<char>>)
    ensures
        drop_in_edges(h, eids).incoming == h.incoming,
        forall|e: Seq<char>| #[trigger] eids.contains(e) ==> !drop_in_edges(h, eids).edges.dom().contains(e),
        forall|k: Seq<char>, t: Seq<char>| #![trigger listed(drop_in_edges(h, eids).outgoing, t).contains(k)]
            drop_in_edges(h, eids).edges.dom().contains(k) ==> (listed(drop_in_edges(h, eids).outgoing, t).contains(k)
                <==> listed(h.outgoing, t).contains(k)),
        forall|k: Seq<char>| #[trigger] drop_in_edges(h, eids).edges.dom().contains(k) <==> h.edges.dom().contains(k)
            && !eids.contains(k),
        forall|k: Seq<char>, t: Seq<char>| #[trigger] listed(drop_in_edges(h, eids).outgoing, t).contains(k) ==> listed(
            h.outgoing,
            t,
        ).contains(k) && (drop_in_edges(h, eids).edges.dom().contains(k) || !h.edges.dom().contains(k)
            || h.edges[k].source_id != t),
    decreases eids.len(),
{
    if eids.len() > 0 {
        let d = eids.drop_last();
        let p = drop_in_edges(h, d);
        let eid = eids.last();
        lemma_drop_in_listing(h, d);
        let r = drop_in_edges(h, eids);
        assert(r == drop_in_edge(p, eid));
        assert forall|e: Seq<char>| #[trigger] eids.contains(e) implies !r.edges.dom().contains(e) by {
            assert(eids =~= d.push(eid));
            lemma_push_contains(d, eid, e);
        }
        assert forall|k: Seq<char>, t: Seq<char>| #![trigger listed(r.outgoing, t).contains(k)]
            r.edges.dom().contains(k) implies (listed(r.outgoing, t).contains(k) <==> listed(h.outgoing, t).contains(k)) by {
            if p.edges.dom().contains(eid) {
                lemma_index_drop_listed(p.outgoing, p.edges[eid].source_id, eid, t, k);
            }
            assert(listed(p.outgoing, t).contains(k) <==> listed(h.outgoing, t).contains(k));
        }
        lemma_drop_in_frame(h, d);
        assert forall|k: Seq<char>| #[trigger] r.edges.dom().contains(k) <==> h.edges.dom().contains(k) && !eids.contains(k) by {
            assert(eids =~= d.push(eid));
            lemma_push_contains(d, eid, k);
        }
        assert forall|k: Seq<char>, t: Seq<char>| #[trigger] listed(r.outgoing, t).contains(k) implies listed(h.outgoing, t).contains(k)
            && (r.edges.dom().contains(k) || !h.edges.dom().contains(k) || h.edges[k].source_id != t) by {
            if p.edges.dom().contains(eid) {
                lemma_index_drop_listed(p.outgoing, p.edges[eid].source_id, eid, t, k);
            }
            assert(listed(p.outgoing, t).contains(k));
        }
    }
}

/// Removing a node from a store whose edges are listed removes every edge
/// that starts or ends at it, and keeps the others listed.
proof fn lemma_remove_node_listing(h: GraphView, n: Seq<char>)
    requires
        edges_listed(h),
    ensures
        edges_listed(remove_node(h, n)),
        forall|k: Seq<char>| #[trigger] remove_node(h, n).edges.dom().contains(k) ==> remove_node(h, n).edges[k].source_id != n
            && remove_node(h, n).edges[k].target_id != n,
{
    lemma_remove_node_frame(h, n);
    let g1 = if h.outgoing.dom().contains(n) {
        drop_out_edges(GraphView { outgoing: h.outgoing.remove(n), ..h }, h.outgoing[n])
    } else {
        h
    };
    if h.outgoing.dom().contains(n) {
        let h1 = GraphView { outgoing: h.outgoing.remove(n), ..h };
        lemma_drop_out_listing(h1, h.outgoing[n]);
        lemma_drop_out_frame(h1, h.outgoing[n]);
        assert forall|k: Seq<char>| #[trigger] g1.edges.dom().contains(k) implies g1.edges[k].source_id != n
            && listed(g1.outgoing, g1.edges[k].source_id).contains(k) && listed(g1.incoming, g1.edges[k].target_id).contains(k) by {
            assert(h.edges.dom().contains(k));
            assert(listed(g1.incoming, g1.edges[k].target_id).contains(k) <==> listed(h1.incoming, g1.edges[k].target_id).contains(k));
        }
    } else {
        assert forall|k: Seq<char>| #[trigger] g1.edges.dom().contains(k) implies g1.edges[k].source_id != n by {
            assert(listed(h.outgoing, h.edges[k].source_id).contains(k));
        }
    }
    let g2 = if g1.incoming.dom().contains(n) {
        drop_in_edges(GraphView { incoming: g1.incoming.remove(n), ..g1 }, g1.incoming[n])
    } else {
        g1
    };
    if g1.incoming.dom().contains(n) {
        let h2 = GraphView { incoming: g1.incoming.remove(n), ..g1 };
        lemma_drop_in_listing(h2, g1.incoming[n]);
        lemma_drop_in_frame(h2, g1.incoming[n]);
        assert forall|k: Seq<char>| #[trigger] g2.edges.dom().contains(k) implies g2.edges[k].source_id != n
            && g2.edges[k].target_id != n
            && listed(g2.outgoing, g2.edges[k].source_id).contains(k) && listed(g2.incoming, g2.edges[k].target_id).contains(k) by {
            assert(g1.edges.dom().contains(k));
            assert(listed(g2.outgoing, g2.edges[k].source_id).contains(k) <==> listed(h2.outgoing, g2.edges[k].source_id).contains(k));
        }
    } else {
        assert forall|k: Seq<char>| #[trigger] g2.edges.dom().contains(k) implies g2.edges[k].target_id != n by {
            assert(listed(g1.incoming, g1.edges[k].target_id).contains(k));
        }
    }
    assert(remove_node(h, n).edges == g2.edges);
    assert(remove_node(h, n).outgoing == g2.outgoing);
    assert(remove_node(h, n).incoming == g2.incoming);
}

/// Removing nodes in turn from a store whose edges are listed leaves no edge
/// that starts or ends at one of them, and keeps the others listed.
proof fn lemma_remove_nodes_listing(h: GraphView, ids: Seq<Seq<char>>)
    requires
        edges_listed(h),
    ensures
        edges_listed(remove_nodes(h, ids)),
        forall|k: Seq<char>| #[trigger] remove_nodes(h, ids).edges.dom().contains(k) ==> !ids.contains(
            remove_nodes(h, ids).edges[k].source_id,
        ) && !ids.contains(remove_nodes(h, ids).edges[k].target_id),
    decreases ids.len(),
{
    if ids.len() > 0 {
        let d = ids.drop_last();
        let p = remove_nodes(h, d);
        lemma_remove_nodes_listing(h, d);
        lemma_remove_node_listing(p, ids.last());
        lemma_remove_node_frame(p, ids.last());
        let r = remove_nodes(h, ids);
        assert forall|k: Seq<char>| #[trigger] r.edges.dom().contains(k) implies !ids.contains(r.edges[k].source_id)
            && !ids.contains(r.edges[k].target_id) by {
            assert(p.edges.dom().contains(k));
            assert(ids =~= d.push(ids.last()));
            lemma_push_contains(d, ids.last(), r.edges[k].source_id);
            lemma_push_contains(d, ids.last(), r.edges[k].target_id);
        }
    }
}

/// Every id listed out of a node names an edge of the store out of that
/// node, and every id listed into a node names an edge into it.
pub open spec fn listings_exact(g: GraphView) -> bool {
    &&& forall|n: Seq<char>, k: Seq<char>| #[trigger] listed(g.outgoing, n).contains(k) ==> g.edges.dom().contains(k)
        && g.edges[k].source_id == n
    &&& forall|n: Seq<char>, k: Seq<char>| #[trigger] listed(g.incoming, n).contains(k) ==> g.edges.dom().contains(k)
        && g.edges[k].target_id == n
}

/// Removing a node from a store whose listings are exact keeps them exact,
/// and keeps every edge that neither starts nor ends at the node.
proof fn lemma_remove_node_exact(h: GraphView, n: Seq<char>)
    requires
        listings_exact(h),
    ensures
        listings_exact(remove_node(h, n)),
        forall|k: Seq<char>| #[trigger] h.edges.dom().contains(k) && h.edges[k].source_id != n && h.edges[k].target_id != n
            ==> remove_node(h, n).edges.dom().contains(k),
{
    lemma_remove_node_frame(h, n);
    let g1 = if h.outgoing.dom().contains(n) {
        drop_out_edges(GraphView { outgoing: h.outgoing.remove(n), ..h }, h.outgoing[n])
    } else {
        h
    };
    if h.outgoing.dom().contains(n) {
        let h1 = GraphView { outgoing: h.outgoing.remove(n), ..h };
        let l = h.outgoing[n];
        lemma_drop_out_listing(h1, l);
        lemma_drop_out_frame(h1, l);
        assert forall|k: Seq<char>| #[trigger] h.edges.dom().contains(k) && h.edges[k].source_id != n implies g1.edges.dom().contains(k) by {
            if l.contains(k) {
                assert(listed(h.outgoing, n).contains(k));
            }
        }
        assert forall|m: Seq<char>, k: Seq<char>| #[trigger] listed(g1.outgoing, m).contains(k) implies g1.edges.dom().contains(k)
            && g1.edges[k].source_id == m by {
            assert(m != n);
            assert(listed(h.outgoing, m).contains(k));
            assert(h.edges[k].source_id != n);
        }
        assert forall|m: Seq<char>, k: Seq<char>| #[trigger] listed(g1.incoming, m).contains(k) implies g1.edges.dom().contains(k)
            && g1.edges[k].target_id == m by {
            assert(listed(h1.incoming, m).contains(k));
        }
    }
    assert(listings_exact(g1));
    let g2 = if g1.incoming.dom().contains(n) {
        drop_in_edges(GraphView { incoming: g1.incoming.remove(n), ..g1 }, g1.incoming[n])
    } else {
        g1
    };
    if g1.incoming.dom().contains(n) {
        let h2 = GraphView { incoming: g1.incoming.remove(n), ..g1 };
        let l = g1.incoming[n];
        lemma_drop_in_listing(h2, l);
        lemma_drop_in_frame(h2, l);
        assert forall|k: Seq<char>| #[trigger] g1.edges.dom().contains(k) && g1.edges[k].target_id != n implies g2.edges.dom().contains(k) by {
            if l.contains(k) {
                assert(listed(g1.incoming, n).contains(k));
            }
        }
        assert forall|m: Seq<char>, k: Seq<char>| #[trigger] listed(g2.incoming, m).contains(k) implies g2.edges.dom().contains(k)
            && g2.edges[k].target_id == m by {
            assert(m != n);
            assert(listed(g1.incoming, m).contains(k));
            assert(g1.edges[k].target_id != n);
        }
        assert forall|m: Seq<char>, k: Seq<char>| #[trigger] listed(g2.outgoing, m).contains(k) implies g2.edges.dom().contains(k)
            && g2.edges[k].source_id == m by {
            assert(listed(h2.outgoing, m).contains(k));
        }
    }
    assert(listings_exact(g2));
    assert(remove_node(h, n).edges == g2.edges);
    assert(remove_node(h, n).outgoing == g2.outgoing);
    assert(remove_node(h, n).incoming == g2.incoming);
}

/// Removing nodes in turn from a store whose listings are exact keeps them
/// exact, and keeps every edge that neither starts nor ends at one of them.
proof fn lemma_remove_nodes_exact(h: GraphView, ids: Seq<Seq<char>>)
    requires
        listings_exact(h),
    ensures
        listings_exact(remove_nodes(h, ids)),
        forall|k: Seq<char>| #[trigger] h.edges.dom().contains(k) && !ids.contains(h.edges[k].source_id) && !ids.contains(
            h.edges[k].target_id,
        ) ==> remove_nodes(h, ids).edges.dom().contains(k),
    decreases ids.len(),
{
    if ids.len() > 0 {
        let d = ids.drop_last();
        let p = remove_nodes(h, d);
        lemma_remove_nodes_exact(h, d);
        lemma_remove_nodes_frame(h, d);
        lemma_remove_node_exact(p, ids.last());
        assert forall|k: Seq<char>| #[trigger] h.edges.dom().contains(k) && !ids.contains(h.edges[k].source_id) && !ids.contains(
            h.edges[k].target_id,
        ) implies remove_nodes(h, ids).edges.dom().contains(k) by {
            assert(ids =~= d.push(ids.last()));
            lemma_push_contains(d, ids.last(), h.edges[k].source_id);
            lemma_push_contains(d, ids.last(), h.edges[k].target_id);
            assert(p.edges.dom().contains(k));
            assert(p.edges[k] == h.edges[k]);
        }
    }
}

/// An empty store's listings are exact.
pub proof fn lemma_empty_listings_exact()
    ensures
        listings_exact(empty_graph()),
{
}

/// Adding an edge under a new id keeps the listings exact.
pub proof fn lemma_add_edge_exact(g: GraphView, e: EdgeView)
    requires
        listings_exact(g),
        !g.edges.dom().contains(e.id),
    ensures
        listings_exact(GraphView {
            edges: g.edges.insert(e.id, e),
            outgoing: index_push(g.outgoing, e.source_id, e.id),
            incoming: index_push(g.incoming, e.target_id, e.id),
            ..g
        }),
{
    let r = GraphView {
        edges: g.edges.insert(e.id, e),
        outgoing: index_push(g.outgoing, e.source_id, e.id),
        incoming: index_push(g.incoming, e.target_id, e.id),
        ..g
    };
    assert forall|m: Seq<char>, k: Seq<char>| #[trigger] listed(r.outgoing, m).contains(k) implies r.edges.dom().contains(k)
        && r.edges[k].source_id == m by {
        if m == e.source_id {
            lemma_push_contains(listed(g.outgoing, e.source_id), e.id, k);
        }
        if k != e.id {
            assert(listed(g.outgoing, m).contains(k));
        }
    }
    assert forall|m: Seq<char>, k: Seq<char>| #[trigger] listed(r.incoming, m).contains(k) implies r.edges.dom().contains(k)
        && r.edges[k].target_id == m by {
        if m == e.target_id {
            lemma_push_contains(listed(g.incoming, e.target_id), e.id, k);
        }
        if k != e.id {
            assert(listed(g.incoming, m).contains(k));
        }
    }
}

/// Removing a file from a store whose listings are exact keeps them exact,
/// and, where its edges are listed too, removes exactly the edges that start
/// or end at a node of the file.
pub proof fn lemma_remove_file_exact(g: GraphView, fp: Seq<char>)
    requires
        edges_listed(g),
        listings_exact(g),
    ensures
        listings_exact(spec_remove_file(g, fp).0),
        forall|k: Seq<char>| #[trigger] spec_remove_file(g, fp).0.edges.dom().contains(k) <==> g.edges.dom().contains(k)
            && !listed(g.by_file, fp).contains(g.edges[k].source_id) && !listed(g.by_file, fp).contains(g.edges[k].target_id),
{
    lemma_remove_file_edges(g, fp);
    lemma_remove_file_effect(g, fp);
    if g.by_file.dom().contains(fp) {
        let g0 = GraphView { by_file: g.by_file.remove(fp), ..g };
        lemma_remove_nodes_exact(g0, g.by_file[fp]);
    } else {
        assert forall|k: Seq<char>| !#[trigger] listed(g.by_file, fp).contains(k) by {}
    }
}

/// Whether edges are listed, and listed exactly, depends on the edges and
/// the adjacency lists alone: adding a node or recording a file hash keeps
/// both.
pub proof fn lemma_listing_depends_on_edges(g: GraphView, h: GraphView)
    requires
        g.edges == h.edges,
        g.outgoing == h.outgoing,
        g.incoming == h.incoming,
    ensures
        edges_listed(g) == edges_listed(h),
        listings_exact(g) == listings_exact(h),
{
}

/// Each node that a list of ids names is the node stored under one of them.
proof fn lemma_nodes_named_from(nodes: Map<Seq<char>, NodeView>, ids: Seq<Seq<char>>)
    ensures
        forall|i: int| 0 <= i < nodes_named(nodes, ids).len() ==> exists|k: Seq<char>|
            nodes.dom().contains(k) && #[trigger] nodes_named(nodes, ids)[i] == nodes[k],
    decreases ids.len(),
{
    if ids.len() > 0 {
        lemma_nodes_named_from(nodes, ids.drop_last());
        let r = nodes_named(nodes, ids.drop_last());
        assert forall|i: int| 0 <= i < nodes_named(nodes, ids).len() implies exists|k: Seq<char>|
            nodes.dom().contains(k) && #[trigger] nodes_named(nodes, ids)[i] == nodes[k] by {
            if i < r.len() {
                assert(nodes_named(nodes, ids)[i] == r[i]);
            } else {
                assert(nodes_named(nodes, ids)[i] == nodes[ids.last()]);
            }
        }
    }
}

/// What removing a file does, as a whole, to a store whose nodes are stored
/// under their ids and whose edges are listed exactly (as in every store
/// built by adding nodes and edges under new ids): it returns how many node
/// ids the file listed; the file lists nothing after; the nodes left are the
/// old ones but those the file listed; the edges left are exactly the old
/// edges that neither start nor end at such a node; and no lookup by file,
/// label or name gives a removed node.
pub proof fn lemma_remove_file_law(g: GraphView, fp: Seq<char>)
    requires
        forall|k: Seq<char>| #[trigger] g.nodes.dom().contains(k) ==> g.nodes[k].id == k,
        edges_listed(g),
        listings_exact(g),
    ensures
        ({
            let (r, n) = spec_remove_file(g, fp);
            let removed = listed(g.by_file, fp);
            &&& n == removed.len()
            &&& listed(r.by_file, fp).len() == 0
            &&& forall|k: Seq<char>| #[trigger] r.nodes.dom().contains(k) <==> g.nodes.dom().contains(k) && !removed.contains(k)
            &&& forall|k: Seq<char>| #[trigger] r.nodes.dom().contains(k) ==> r.nodes[k] == g.nodes[k]
            &&& forall|k: Seq<char>| #[trigger] r.edges.dom().contains(k) <==> g.edges.dom().contains(k)
                && !removed.contains(g.edges[k].source_id) && !removed.contains(g.edges[k].target_id)
            &&& forall|k: Seq<char>| #[trigger] r.edges.dom().contains(k) ==> r.edges[k] == g.edges[k]
            &&& forall|ids: Seq<Seq<char>>, i: int| 0 <= i < nodes_named(r.nodes, ids).len() ==> !removed.contains(
                (#[trigger] nodes_named(r.nodes, ids)[i]).id,
            )
        }),
{
    lemma_remove_file_effect(g, fp);
    lemma_remove_file_exact(g, fp);
    let r = spec_remove_file(g, fp).0;
    let removed = listed(g.by_file, fp);
    assert forall|ids: Seq<Seq<char>>, i: int| 0 <= i < nodes_named(r.nodes, ids).len() implies !removed.contains(
        (#[trigger] nodes_named(r.nodes, ids)[i]).id,
    ) by {
        lemma_nodes_named_from(r.nodes, ids);
        let k = choose|k: Seq<char>| r.nodes.dom().contains(k) && nodes_named(r.nodes, ids)[i] == r.nodes[k];
        assert(g.nodes.dom().contains(k));
    }
}

/// An empty store lists all of its (no) edges.
pub proof fn lemma_empty_edges_listed()
    ensures
        edges_listed(empty_graph()),
{
}

/// Adding an edge lists it out of its source and into its target, and keeps
/// every other edge listed.
pub proof fn lemma_add_edge_listed(g: GraphView, e: EdgeView)
    requires
        edges_listed(g),
    ensures
        edges_listed(GraphView {
            edges: g.edges.insert(e.id, e),
            outgoing: index_push(g.outgoing, e.source_id, e.id),
            incoming: index_push(g.incoming, e.target_id, e.id),
            ..g
        }),
{
    let r = GraphView {
        edges: g.edges.insert(e.id, e),
        outgoing: index_push(g.outgoing, e.source_id, e.id),
        incoming: index_push(g.incoming, e.target_id, e.id),
        ..g
    };
    assert forall|k: Seq<char>| #[trigger] r.edges.dom().contains(k) implies listed(r.outgoing, r.edges[k].source_id).contains(k)
        && listed(r.incoming, r.edges[k].target_id).contains(k) by {
        let s = r.edges[k].source_id;
        let t = r.edges[k].target_id;
        lemma_push_contains(listed(g.outgoing, e.source_id), e.id, k);
        lemma_push_contains(listed(g.incoming, e.target_id), e.id, k);
        if k != e.id {
            assert(g.edges.dom().contains(k));
        }
    }
}

/// Removing a file from a store whose edges are listed (as every store built
/// by adding nodes and edges is) removes every edge that starts or ends at a
/// node of the file: no edge left touches a removed node, and the edges
/// left stay listed.
pub proof fn lemma_remove_file_edges(g: GraphView, fp: Seq<char>)
    requires
        edges_listed(g),
    ensures
        edges_listed(spec_remove_file(g, fp).0),
        forall|k: Seq<char>| #[trigger] spec_remove_file(g, fp).0.edges.dom().contains(k) ==> !listed(g.by_file, fp).contains(
            spec_remove_file(g, fp).0.edges[k].source_id,
        ) && !listed(g.by_file, fp).contains(spec_remove_file(g, fp).0.edges[k].target_id),
{
    if g.by_file.dom().contains(fp) {
        let g0 = GraphView { by_file: g.by_file.remove(fp), ..g };
        assert(edges_listed(g0));
        lemma_remove_nodes_listing(g0, g.by_file[fp]);
    } else {
        assert forall|k: Seq<char>| !#[trigger] listed(g.by_file, fp).contains(k) by {}
    }
}

/// A hit reached from `start`: a path from `start` to the hit's node, one
/// node longer than the hit's depth, which is at most `max_depth`.
pub open spec fn hit_ok(h: HitView, start: Seq<char>, max_depth: nat) -> bool {
    &&& h.path.len() == h.depth + 1
    &&& h.path[0] == start
    &&& h.path.last() == h.node_id
    &&& h.depth <= max_depth
}

/// No node id occurs twice among the hits.
pub open spec fn distinct_hits(hs: Seq<HitView>) -> bool {
    forall|i: int, j: int| 0 <= i < j < hs.len() ==> (#[trigger] hs[i]).node_id != (#[trigger] hs[j]).node_id
}

/// What holds of a traversal's state at every step.
pub open spec fn bfs_invariant(
    start: Seq<char>,
    max_depth: nat,
    queue: Seq<HitView>,
    visited: Set<Seq<char>>,
    results: Seq<HitView>,
) -> bool {
    &&& visited.contains(start)
    &&& forall|i: int| 0 <= i < queue.len() ==> {
        &&& hit_ok(#[trigger] queue[i], start, max_depth)
        &&& visited.contains(queue[i].node_id)
        &&& (queue[i].node_id == start <==> queue[i].depth == 0)
    }
    &&& forall|i: int| 0 <= i < results.len() ==> {
        &&& hit_ok(#[trigger] results[i], start, max_depth)
        &&& visited.contains(results[i].node_id)
        &&& results[i].depth >= 1
        &&& results[i].node_id != start
    }
    &&& distinct_hits(results + queue)
}

proof fn lemma_expand_keeps(
    hit: HitView,
    es: Seq<EdgeView>,
    dir: Direction,
    filter: Option<Seq<RelationType>>,
    start: Seq<char>,
    max_depth: nat,
    visited: Set<Seq<char>>,
    queue: Seq<HitView>,
    results: Seq<HitView>,
)
    requires
        hit_ok(hit, start, max_depth),
        hit.depth < max_depth,
        bfs_invariant(start, max_depth, queue, visited, results),
    ensures
        bfs_invariant(start, max_depth, expand(hit, es, dir, filter, visited, queue).1, expand(hit, es, dir, filter, visited, queue).0, results),
    decreases es.len(),
{
    if es.len() > 0 {
        lemma_expand_keeps(hit, es.drop_last(), dir, filter, start, max_depth, visited, queue, results);
        let (v, q) = expand(hit, es.drop_last(), dir, filter, visited, queue);
        let n = leads_to(dir, es.last(), hit.node_id);
        if follows(filter, es.last()) && !v.contains(n) {
            let nh = HitView { node_id: n, depth: hit.depth + 1, path: hit.path.push(n) };
            let q2 = q.push(nh);
            let v2 = v.insert(n);
            assert(hit_ok(nh, start, max_depth));
            assert forall|i: int| 0 <= i < q2.len() implies {
                &&& hit_ok(#[trigger] q2[i], start, max_depth)
                &&& v2.contains(q2[i].node_id)
                &&& (q2[i].node_id == start <==> q2[i].depth == 0)
            } by {
                if i < q.len() {
                    assert(q2[i] == q[i]);
                }
            }
            let c = results + q;
            let c2 = results + q2;
            assert(c2 =~= c.push(nh));
            assert forall|i: int, j: int| 0 <= i < j < c2.len() implies (#[trigger] c2[i]).node_id != (#[trigger] c2[j]).node_id by {
                if j < c.len() {
                    assert(c2[i] == c[i] && c2[j] == c[j]);
                } else {
                    assert(c2[i] == c[i]);
                    if i < results.len() {
                        assert(c[i] == results[i]);
                    } else {
                        assert(c[i] == q[i - results.len()]);
                    }
                }
            }
        }
    }
}

/// Taking the first queued hit off the queue, and reporting it unless it
/// is the start, keeps what holds of a traversal's state.
proof fn lemma_pop_keeps(
    start: Seq<char>,
    max_depth: nat,
    queue: Seq<HitView>,
    visited: Set<Seq<char>>,
    results: Seq<HitView>,
)
    requires
        bfs_invariant(start, max_depth, queue, visited, results),
        queue.len() > 0,
    ensures
        hit_ok(queue[0], start, max_depth),
        bfs_invariant(
            start,
            max_depth,
            queue.drop_first(),
            visited,
            if queue[0].depth > 0 { results.push(queue[0]) } else { results },
        ),
{
    let hit = queue[0];
    let rest = queue.drop_first();
    let results2 = if hit.depth > 0 { results.push(hit) } else { results };
    assert forall|i: int| 0 <= i < rest.len() implies {
        &&& hit_ok(#[trigger] rest[i], start, max_depth)
        &&& visited.contains(rest[i].node_id)
        &&& (rest[i].node_id == start <==> rest[i].depth == 0)
    } by {
        assert(rest[i] == queue[i + 1]);
    }
    if hit.depth > 0 {
        assert(results2 + rest =~= results + queue);
        assert forall|i: int| 0 <= i < results2.len() implies {
            &&& hit_ok(#[trigger] results2[i], start, max_depth)
            &&& visited.contains(results2[i].node_id)
            &&& results2[i].depth >= 1
            &&& results2[i].node_id != start
        } by {
            if i < results.len() {
                assert(results2[i] == results[i]);
            }
        }
    } else {
        let c = results + queue;
        let c2 = results + rest;
        assert forall|i: int, j: int| 0 <= i < j < c2.len() implies (#[trigger] c2[i]).node_id != (#[trigger] c2[j]).node_id by {
            let ci = if i < results.len() { i } else { i + 1 };
            let cj = if j < results.len() { j } else { j + 1 };
            assert(c2[i] == c[ci] && c2[j] == c[cj]);
        }
    }
}

proof fn lemma_bfs_steps_keeps(
    g: GraphView,
    dir: Direction,
    max_depth: nat,
    filter: Option<Seq<RelationType>>,
    start: Seq<char>,
    queue: Seq<HitView>,
    visited: Set<Seq<char>>,
    results: Seq<HitView>,
    fuel: nat,
)
    requires
        bfs_invariant(start, max_depth, queue, visited, results),
    ensures
        ({
            let r = bfs_steps(g, dir, max_depth, filter, queue, visited, results, fuel);
            &&& forall|i: int| 0 <= i < r.len() ==> hit_ok(#[trigger] r[i], start, max_depth) && r[i].depth >= 1 && r[i].node_id != start
            &&& distinct_hits(r)
        }),
    decreases fuel,
{
    if fuel == 0 || queue.len() == 0 {
        let c = results + queue;
        assert forall|i: int, j: int| 0 <= i < j < results.len() implies (#[trigger] results[i]).node_id
            != (#[trigger] results[j]).node_id by {
            assert(c[i] == results[i] && c[j] == results[j]);
        }
    } else {
        let hit = queue[0];
        let rest = queue.drop_first();
        let results2 = if hit.depth > 0 { results.push(hit) } else { results };
        lemma_pop_keeps(start, max_depth, queue, visited, results);
        if hit.depth >= max_depth {
            lemma_bfs_steps_keeps(g, dir, max_depth, filter, start, rest, visited, results2, (fuel - 1) as nat);
        } else {
            lemma_expand_keeps(hit, neighbor_edges(g, hit.node_id, dir), dir, filter, start, max_depth, visited, rest, results2);
            let (v2, q2) = expand(hit, neighbor_edges(g, hit.node_id, dir), dir, filter, visited, rest);
            lemma_bfs_steps_keeps(g, dir, max_depth, filter, start, q2, v2, results2, (fuel - 1) as nat);
        }
    }
}

/// A traversal reports each node at most once, never the start, each at a
/// depth from 1 to `max_depth`, with a path from the start to it that is
/// one node longer than its depth.
pub proof fn lemma_bfs_hits(g: GraphView, start: Seq<char>, dir: Direction, max_depth: nat, filter: Option<Seq<RelationType>>)
    ensures
        forall|i: int| 0 <= i < spec_bfs(g, start, dir, max_depth, filter).len() ==> {
            &&& hit_ok(#[trigger] spec_bfs(g, start, dir, max_depth, filter)[i], start, max_depth)
            &&& spec_bfs(g, start, dir, max_depth, filter)[i].depth >= 1
            &&& spec_bfs(g, start, dir, max_depth, filter)[i].node_id != start
        },
        distinct_hits(spec_bfs(g, start, dir, max_depth, filter)),
{
    let q = seq![HitView { node_id: start, depth: 0, path: seq![start] }];
    let v = set![start];
    assert(bfs_invariant(start, max_depth, q, v, Seq::empty())) by {
        assert(Seq::<HitView>::empty() + q =~= q);
    }
    lemma_bfs_steps_keeps(g, dir, max_depth, filter, start, q, v, Seq::empty(), 1 + endpoints(g).difference(set![start]).len());
}

/// Whether a traversal can step from `u` to `v`: some edge that it looks at
/// from `u` and follows leads to `v`.
pub open spec fn step_ok(g: GraphView, dir: Direction, filter: Option<Seq<RelationType>>, u: Seq<char>, v: Seq<char>) -> bool {
    exists|k: int|
        0 <= k < neighbor_edges(g, u, dir).len() && follows(filter, #[trigger] neighbor_edges(g, u, dir)[k])
            && leads_to(dir, neighbor_edges(g, u, dir)[k], u) == v
}

/// Whether each step of `path` follows an edge the traversal follows.
pub open spec fn path_follows(g: GraphView, dir: Direction, filter: Option<Seq<RelationType>>, path: Seq<Seq<char>>) -> bool {
    forall|k: int| 0 <= k < path.len() - 1 ==> step_ok(g, dir, filter, #[trigger] path[k], path[k + 1])
}

/// Every hit of `hs` ends its path at its node, along followed edges.
spec fn hits_follow(g: GraphView, dir: Direction, filter: Option<Seq<RelationType>>, hs: Seq<HitView>) -> bool {
    forall|i: int| 0 <= i < hs.len() ==> {
        &&& (#[trigger] hs[i]).path.len() >= 1
        &&& hs[i].path.last() == hs[i].node_id
        &&& path_follows(g, dir, filter, hs[i].path)
    }
}

proof fn lemma_expand_follows(
    g: GraphView,
    hit: HitView,
    es: Seq<EdgeView>,
    dir: Direction,
    filter: Option<Seq<RelationType>>,
    visited: Set<Seq<char>>,
    queue: Seq<HitView>,
)
    requires
        hit.path.len() >= 1,
        hit.path.last() == hit.node_id,
        path_follows(g, dir, filter, hit.path),
        es.len() <= neighbor_edges(g, hit.node_id, dir).len(),
        es == neighbor_edges(g, hit.node_id, dir).take(es.len() as int),
        hits_follow(g, dir, filter, queue),
    ensures
        hits_follow(g, dir, filter, expand(hit, es, dir, filter, visited, queue).1),
    decreases es.len(),
{
    if es.len() > 0 {
        let ne = neighbor_edges(g, hit.node_id, dir);
        assert(es.drop_last() == ne.take(es.len() - 1));
        lemma_expand_follows(g, hit, es.drop_last(), dir, filter, visited, queue);
        let (v, q) = expand(hit, es.drop_last(), dir, filter, visited, queue);
        let n = leads_to(dir, es.last(), hit.node_id);
        if follows(filter, es.last()) && !v.contains(n) {
            let np = hit.path.push(n);
            let nh = HitView { node_id: n, depth: hit.depth + 1, path: np };
            let k = es.len() - 1;
            assert(ne[k] == es.last());
            assert(step_ok(g, dir, filter, hit.node_id, n));
            assert forall|j: int| 0 <= j < np.len() - 1 implies step_ok(g, dir, filter, #[trigger] np[j], np[j + 1]) by {
                if j < hit.path.len() - 1 {
                    assert(np[j] == hit.path[j] && np[j + 1] == hit.path[j + 1]);
                } else {
                    assert(np[j] == hit.node_id && np[j + 1] == n);
                }
            }
            let q2 = q.push(nh);
            assert forall|i: int| 0 <= i < q2.len() implies {
                &&& (#[trigger] q2[i]).path.len() >= 1
                &&& q2[i].path.last() == q2[i].node_id
                &&& path_follows(g, dir, filter, q2[i].path)
            } by {
                if i < q.len() {
                    assert(q2[i] == q[i]);
                }
            }
        }
    }
}

proof fn lemma_steps_follow(
    g: GraphView,
    dir: Direction,
    max_depth: nat,
    filter: Option<Seq<RelationType>>,
    queue: Seq<HitView>,
    visited: Set<Seq<char>>,
    results: Seq<HitView>,
    fuel: nat,
)
    requires
        hits_follow(g, dir, filter, queue),
        hits_follow(g, dir, filter, results),
    ensures
        hits_follow(g, dir, filter, bfs_steps(g, dir, max_depth, filter, queue, visited, results, fuel)),
    decreases fuel,
{
    if fuel > 0 && queue.len() > 0 {
        let hit = queue[0];
        let rest = queue.drop_first();
        let results2 = if hit.depth > 0 { results.push(hit) } else { results };
        assert(hits_follow(g, dir, filter, rest)) by {
            assert forall|i: int| 0 <= i < rest.len() implies {
                &&& (#[trigger] rest[i]).path.len() >= 1
                &&& rest[i].path.last() == rest[i].node_id
                &&& path_follows(g, dir, filter, rest[i].path)
            } by {
                assert(rest[i] == queue[i + 1]);
            }
        }
        assert(hits_follow(g, dir, filter, results2)) by {
            assert forall|i: int| 0 <= i < results2.len() implies {
                &&& (#[trigger] results2[i]).path.len() >= 1
                &&& results2[i].path.last() == results2[i].node_id
                &&& path_follows(g, dir, filter, results2[i].path)
            } by {
                if i < results.len() {
                    assert(results2[i] == results[i]);
                } else {
                    assert(results2[i] == queue[0]);
                }
            }
        }
        if hit.depth >= max_depth {
            lemma_steps_follow(g, dir, max_depth, filter, rest, visited, results2, (fuel - 1) as nat);
        } else {
            let ne = neighbor_edges(g, hit.node_id, dir);
            assert(ne == ne.take(ne.len() as int));
            lemma_expand_follows(g, hit, ne, dir, filter, visited, rest);
            let (v2, q2) = expand(hit, ne, dir, filter, visited, rest);
            lemma_steps_follow(g, dir, max_depth, filter, q2, v2, results2, (fuel - 1) as nat);
        }
    }
}

/// Each step of a traversal's path follows an edge: from each node of the
/// path to the next, some edge that the direction selects out of (or into)
/// the node, and that the filter lets through, leads there.
pub proof fn lemma_bfs_paths_follow_edges(
    g: GraphView,
    start: Seq<char>,
    dir: Direction,
    max_depth: nat,
    filter: Option<Seq<RelationType>>,
)
    ensures
        forall|i: int| 0 <= i < spec_bfs(g, start, dir, max_depth, filter).len() ==> path_follows(
            g,
            dir,
            filter,
            (#[trigger] spec_bfs(g, start, dir, max_depth, filter)[i]).path,
        ),
{
    let q = seq![HitView { node_id: start, depth: 0, path: seq![start] }];
    assert(hits_follow(g, dir, filter, q)) by {
        assert(q[0].path.last() == start);
    }
    lemma_steps_follow(g, dir, max_depth, filter, q, set![start], Seq::empty(), 1 + endpoints(g).difference(set![start]).len());
    let r = spec_bfs(g, start, dir, max_depth, filter);
    assert forall|i: int| 0 <= i < r.len() implies path_follows(g, dir, filter, (#[trigger] r[i]).path) by {}
}


/// Expanding a hit keeps the queue and appends hits one level below it.
proof fn lemma_expand_depths(
    hit: HitView,
    es: Seq<EdgeView>,
    dir: Direction,
    filter: Option<Seq<RelationType>>,
    visited: Set<Seq<char>>,
    queue: Seq<HitView>,
)
    ensures
        expand(hit, es, dir, filter, visited, queue).1.len() >= queue.len(),
        forall|i: int| 0 <= i < queue.len() ==> #[trigger] expand(hit, es, dir, filter, visited, queue).1[i] == queue[i],
        forall|i: int| queue.len() <= i < expand(hit, es, dir, filter, visited, queue).1.len()
            ==> (#[trigger] expand(hit, es, dir, filter, visited, queue).1[i]).depth == hit.depth + 1,
    decreases es.len(),
{
    if es.len() > 0 {
        lemma_expand_depths(hit, es.drop_last(), dir, filter, visited, queue);
    }
}

/// The hits already reported, then those queued, come in order of depth,
/// and no queued hit is more than one level below the first one queued.
spec fn depth_layered(queue: Seq<HitView>, results: Seq<HitView>) -> bool {
    &&& forall|i: int, j: int| 0 <= i < j < (results + queue).len() ==> (#[trigger] (results + queue)[i]).depth
        <= (#[trigger] (results + queue)[j]).depth
    &&& forall|j: int| 0 <= j < queue.len() ==> (#[trigger] queue[j]).depth <= queue[0].depth + 1
}

/// One step of a traversal keeps the hits layered by depth, whether or not
/// the first queued hit is expanded.
proof fn lemma_step_layered(
    g: GraphView,
    dir: Direction,
    filter: Option<Seq<RelationType>>,
    queue: Seq<HitView>,
    visited: Set<Seq<char>>,
    results: Seq<HitView>,
)
    requires
        depth_layered(queue, results),
        queue.len() > 0,
    ensures
        ({
            let hit = queue[0];
            let results2 = if hit.depth > 0 { results.push(hit) } else { results };
            &&& depth_layered(queue.drop_first(), results2)
            &&& depth_layered(expand(hit, neighbor_edges(g, hit.node_id, dir), dir, filter, visited, queue.drop_first()).1, results2)
            &&& forall|i: int| 0 <= i < results2.len() ==> (#[trigger] results2[i]).depth <= hit.depth
            &&& forall|j: int| 0 <= j < queue.len() ==> hit.depth <= (#[trigger] queue[j]).depth <= hit.depth + 1
        }),
{
    let c = results + queue;
    let hit = queue[0];
    let rest = queue.drop_first();
    let results2 = if hit.depth > 0 { results.push(hit) } else { results };
    let c2 = results2 + rest;
    // Everything reported so far is no deeper than the first queued hit.
    assert forall|i: int| 0 <= i < results2.len() implies (#[trigger] results2[i]).depth <= hit.depth by {
        if i < results.len() {
            assert(c[i] == results[i] && c[results.len() as int] == hit);
        }
    }
    assert forall|i: int, j: int| 0 <= i < j < c2.len() implies (#[trigger] c2[i]).depth <= (#[trigger] c2[j]).depth by {
        if hit.depth > 0 {
            assert(c2 =~= c);
        } else {
            let ci = if i < results.len() { i } else { i + 1 };
            let cj = if j < results.len() { j } else { j + 1 };
            assert(c2[i] == c[ci] && c2[j] == c[cj]);
        }
    }
    assert forall|j: int| 0 <= j < queue.len() implies hit.depth <= (#[trigger] queue[j]).depth <= hit.depth + 1 by {
        if j > 0 {
            assert(c[results.len() as int] == queue[0] && c[results.len() + j] == queue[j]);
        }
    }
    assert forall|j: int| 0 <= j < rest.len() implies hit.depth <= (#[trigger] rest[j]).depth && rest[j].depth <= hit.depth + 1 by {
        assert(rest[j] == queue[j + 1]);
    }
    assert forall|j: int| 0 <= j < rest.len() implies (#[trigger] rest[j]).depth <= rest[0].depth + 1 by {}
    let ne = neighbor_edges(g, hit.node_id, dir);
    lemma_expand_depths(hit, ne, dir, filter, visited, rest);
    let (v2, q2) = expand(hit, ne, dir, filter, visited, rest);
    let c3 = results2 + q2;
    assert forall|i: int| 0 <= i < q2.len() implies hit.depth <= (#[trigger] q2[i]).depth && q2[i].depth <= hit.depth + 1 by {
        if i < rest.len() {
            assert(q2[i] == rest[i]);
        }
    }
    assert forall|i: int, j: int| 0 <= i < j < c3.len() implies (#[trigger] c3[i]).depth <= (#[trigger] c3[j]).depth by {
        if j < results2.len() {
            assert(c3[i] == c2[i] && c3[j] == c2[j]);
        } else if i < results2.len() {
            assert(c3[i] == results2[i]);
            assert(c3[j] == q2[j - results2.len()]);
        } else if j < results2.len() + rest.len() {
            assert(c3[i] == q2[i - results2.len()] && q2[i - results2.len()] == rest[i - results2.len()]);
            assert(c3[j] == q2[j - results2.len()] && q2[j - results2.len()] == rest[j - results2.len()]);
            assert(c2[i] == rest[i - results2.len()] && c2[j] == rest[j - results2.len()]);
        } else {
            assert(c3[j] == q2[j - results2.len()]);
            assert(c3[i] == q2[i - results2.len()]);
        }
    }
    assert forall|j: int| 0 <= j < q2.len() implies (#[trigger] q2[j]).depth <= q2[0].depth + 1 by {
        if rest.len() > 0 {
            assert(q2[0] == rest[0]);
            if j < rest.len() {
                assert(q2[j] == rest[j]);
            }
        }
    }
}

proof fn lemma_steps_layered(
    g: GraphView,
    dir: Direction,
    max_depth: nat,
    filter: Option<Seq<RelationType>>,
    queue: Seq<HitView>,
    visited: Set<Seq<char>>,
    results: Seq<HitView>,
    fuel: nat,
)
    requires
        depth_layered(queue, results),
    ensures
        forall|i: int, j: int| 0 <= i < j < bfs_steps(g, dir, max_depth, filter, queue, visited, results, fuel).len()
            ==> (#[trigger] bfs_steps(g, dir, max_depth, filter, queue, visited, results, fuel)[i]).depth
            <= (#[trigger] bfs_steps(g, dir, max_depth, filter, queue, visited, results, fuel)[j]).depth,
    decreases fuel,
{
    if fuel == 0 || queue.len() == 0 {
        let c = results + queue;
        assert forall|i: int, j: int| 0 <= i < j < results.len() implies (#[trigger] results[i]).depth <= (#[trigger] results[j]).depth by {
            assert(c[i] == results[i] && c[j] == results[j]);
        }
    } else {
        let hit = queue[0];
        let rest = queue.drop_first();
        let results2 = if hit.depth > 0 { results.push(hit) } else { results };
        lemma_step_layered(g, dir, filter, queue, visited, results);
        if hit.depth >= max_depth {
            lemma_steps_layered(g, dir, max_depth, filter, rest, visited, results2, (fuel - 1) as nat);
            assert(bfs_steps(g, dir, max_depth, filter, queue, visited, results, fuel) == bfs_steps(
                g,
                dir,
                max_depth,
                filter,
                rest,
                visited,
                results2,
                (fuel - 1) as nat,
            ));
        } else {
            let (v2, q2) = expand(hit, neighbor_edges(g, hit.node_id, dir), dir, filter, visited, rest);
            lemma_steps_layered(g, dir, max_depth, filter, q2, v2, results2, (fuel - 1) as nat);
            assert(bfs_steps(g, dir, max_depth, filter, queue, visited, results, fuel) == bfs_steps(
                g,
                dir,
                max_depth,
                filter,
                q2,
                v2,
                results2,
                (fuel - 1) as nat,
            ));
        }
    }
}

/// A traversal reports its hits level by level: their depths never
/// decrease along the result.
pub proof fn lemma_bfs_depths_ordered(
    g: GraphView,
    start: Seq<char>,
    dir: Direction,
    max_depth: nat,
    filter: Option<Seq<RelationType>>,
)
    ensures
        forall|i: int, j: int| 0 <= i < j < spec_bfs(g, start, dir, max_depth, filter).len()
            ==> (#[trigger] spec_bfs(g, start, dir, max_depth, filter)[i]).depth
            <= (#[trigger] spec_bfs(g, start, dir, max_depth, filter)[j]).depth,
{
    let q = seq![HitView { node_id: start, depth: 0, path: seq![start] }];
    assert(depth_layered(q, Seq::empty())) by {
        assert(Seq::<HitView>::empty() + q =~= q);
    }
    lemma_steps_layered(g, dir, max_depth, filter, q, set![start], Seq::empty(), 1 + endpoints(g).difference(set![start]).len());
}


/// Whether `n` is the start, or some hit of `all` is at `n` no deeper than
/// `d`.
pub open spec fn reached_within(all: Seq<HitView>, start: Seq<char>, n: Seq<char>, d: int) -> bool {
    n == start || exists|j: int| 0 <= j < all.len() && (#[trigger] all[j]).node_id == n && all[j].depth <= d
}

/// Every edge that a traversal follows from `x` leads to a node that `all`
/// reaches no deeper than one level below `d`.
pub open spec fn neighbors_reached(
    g: GraphView,
    dir: Direction,
    filter: Option<Seq<RelationType>>,
    all: Seq<HitView>,
    start: Seq<char>,
    x: Seq<char>,
    d: int,
) -> bool {
    forall|k: int|
        0 <= k < neighbor_edges(g, x, dir).len() && follows(filter, #[trigger] neighbor_edges(g, x, dir)[k])
            ==> reached_within(all, start, leads_to(dir, neighbor_edges(g, x, dir)[k], x), d + 1)
}

/// Each visited node is the start or the node of a hit of `all`.
spec fn covered(visited: Set<Seq<char>>, all: Seq<HitView>, start: Seq<char>) -> bool {
    forall|n: Seq<char>| #[trigger] visited.contains(n) ==> n == start || exists|j: int| 0 <= j < all.len() && (#[trigger] all[j]).node_id == n
}

/// Whether the start has left the queue.
spec fn start_expanded(queue: Seq<HitView>) -> bool {
    !(queue.len() > 0 && queue[0].depth == 0)
}

/// What a traversal has settled: every visited node is recorded, and every
/// node taken off the queue above `max_depth` has its followed neighbours
/// recorded at most one level below it.
spec fn bfs_closed(
    g: GraphView,
    dir: Direction,
    filter: Option<Seq<RelationType>>,
    max_depth: nat,
    start: Seq<char>,
    queue: Seq<HitView>,
    visited: Set<Seq<char>>,
    results: Seq<HitView>,
) -> bool {
    &&& covered(visited, results + queue, start)
    &&& forall|i: int|
        0 <= i < results.len() && (#[trigger] results[i]).depth < max_depth ==> neighbors_reached(
            g,
            dir,
            filter,
            results + queue,
            start,
            results[i].node_id,
            results[i].depth as int,
        )
    &&& start_expanded(queue) && 0 < max_depth ==> neighbors_reached(g, dir, filter, results + queue, start, start, 0)
}

/// Every hit of `all` away from the start is also a hit of `all2`.
spec fn kept(all: Seq<HitView>, all2: Seq<HitView>, start: Seq<char>) -> bool {
    forall|j: int|
        0 <= j < all.len() && (#[trigger] all[j]).node_id != start ==> exists|j2: int| 0 <= j2 < all2.len() && #[trigger] all2[j2] == all[j]
}

proof fn lemma_reached_kept(all: Seq<HitView>, all2: Seq<HitView>, start: Seq<char>, n: Seq<char>, d: int)
    requires
        reached_within(all, start, n, d),
        kept(all, all2, start),
    ensures
        reached_within(all2, start, n, d),
{
    if n != start {
        let j = choose|j: int| 0 <= j < all.len() && (#[trigger] all[j]).node_id == n && all[j].depth <= d;
        assert(all[j].node_id != start);
        let j2 = choose|j2: int| 0 <= j2 < all2.len() && #[trigger] all2[j2] == all[j];
        assert(all2[j2].node_id == n);
    }
}

proof fn lemma_neighbors_kept(
    g: GraphView,
    dir: Direction,
    filter: Option<Seq<RelationType>>,
    all: Seq<HitView>,
    all2: Seq<HitView>,
    start: Seq<char>,
    x: Seq<char>,
    d: int,
)
    requires
        neighbors_reached(g, dir, filter, all, start, x, d),
        kept(all, all2, start),
    ensures
        neighbors_reached(g, dir, filter, all2, start, x, d),
{
    let ne = neighbor_edges(g, x, dir);
    assert forall|k: int| 0 <= k < ne.len() && follows(filter, #[trigger] ne[k]) implies reached_within(
        all2,
        start,
        leads_to(dir, ne[k], x),
        d + 1,
    ) by {
        lemma_reached_kept(all, all2, start, leads_to(dir, ne[k], x), d + 1);
    }
}

/// Expanding a hit along a prefix of its edges visits each node a followed
/// edge leads to, queues every node it newly visits, and moves one node from
/// the unvisited endpoints to the queue for each hit queued.
proof fn lemma_expand_visits(
    g: GraphView,
    hit: HitView,
    es: Seq<EdgeView>,
    dir: Direction,
    filter: Option<Seq<RelationType>>,
    visited: Set<Seq<char>>,
    queue: Seq<HitView>,
    u: Set<Seq<char>>,
)
    requires
        u == endpoints(g),
        u.finite(),
        es.len() <= neighbor_edges(g, hit.node_id, dir).len(),
        es == neighbor_edges(g, hit.node_id, dir).take(es.len() as int),
    ensures
        ({
            let (v2, q2) = expand(hit, es, dir, filter, visited, queue);
            &&& forall|n: Seq<char>| visited.contains(n) ==> #[trigger] v2.contains(n)
            &&& forall|n: Seq<char>| #[trigger] v2.contains(n) ==> visited.contains(n) || exists|j: int|
                queue.len() <= j < q2.len() && (#[trigger] q2[j]).node_id == n
            &&& forall|k: int| 0 <= k < es.len() && follows(filter, #[trigger] es[k]) ==> v2.contains(leads_to(dir, es[k], hit.node_id))
            &&& q2.len() + u.difference(v2).len() == queue.len() + u.difference(visited).len()
        }),
    decreases es.len(),
{
    if es.len() > 0 {
        let ne = neighbor_edges(g, hit.node_id, dir);
        let es0 = es.drop_last();
        assert(es0 == ne.take(es.len() - 1));
        lemma_expand_visits(g, hit, es0, dir, filter, visited, queue, u);
        lemma_expand_depths(hit, es0, dir, filter, visited, queue);
        let (v, q) = expand(hit, es0, dir, filter, visited, queue);
        let (v2, q2) = expand(hit, es, dir, filter, visited, queue);
        let n = leads_to(dir, es.last(), hit.node_id);
        assert(ne[es.len() - 1] == es.last());
        if follows(filter, es.last()) && !v.contains(n) {
            lemma_neighbor_in_endpoints(g, hit.node_id, dir, es.len() - 1);
            lemma_visit_one(u, v, n);
            assert(q2 == q.push(HitView { node_id: n, depth: hit.depth + 1, path: hit.path.push(n) }));
            assert forall|m: Seq<char>| #[trigger] v2.contains(m) implies visited.contains(m) || exists|j: int|
                queue.len() <= j < q2.len() && (#[trigger] q2[j]).node_id == m by {
                if m == n {
                    assert(q2[q.len() as int].node_id == m);
                } else if !visited.contains(m) {
                    let j = choose|j: int| queue.len() <= j < q.len() && (#[trigger] q[j]).node_id == m;
                    assert(q2[j] == q[j]);
                }
            }
        }
        assert forall|k: int| 0 <= k < es.len() && follows(filter, #[trigger] es[k]) implies v2.contains(
            leads_to(dir, es[k], hit.node_id),
        ) by {
            if k < es.len() - 1 {
                assert(es[k] == es0[k]);
            }
        }
    }
}

/// Taking the first hit off the queue keeps every recorded hit away from the
/// start, and expanding it only adds hits.
proof fn lemma_step_kept(
    start: Seq<char>,
    queue: Seq<HitView>,
    results: Seq<HitView>,
    q2: Seq<HitView>,
)
    requires
        queue.len() > 0,
        queue[0].node_id == start <==> queue[0].depth == 0,
        q2.len() >= queue.len() - 1,
        forall|i: int| 0 <= i < queue.len() - 1 ==> #[trigger] q2[i] == queue[i + 1],
    ensures
        kept(results + queue, (if queue[0].depth > 0 { results.push(queue[0]) } else { results }) + q2, start),
{
    let all = results + queue;
    let results2 = if queue[0].depth > 0 { results.push(queue[0]) } else { results };
    let all2 = results2 + q2;
    let rl = results.len() as int;
    assert forall|j: int| 0 <= j < all.len() && (#[trigger] all[j]).node_id != start implies exists|j2: int|
        0 <= j2 < all2.len() && #[trigger] all2[j2] == all[j] by {
        if j < rl {
            assert(all2[j] == all[j]);
        } else if j == rl {
            assert(all[j] == queue[0]);
            assert(all2[rl] == queue[0]);
        } else {
            let j2 = results2.len() + (j - rl - 1);
            assert(q2[j - rl - 1] == queue[j - rl]);
            assert(all2[j2] == all[j]);
        }
    }
}

/// Passing over a hit at `max_depth` keeps what the traversal has settled.
proof fn lemma_closed_skip(
    g: GraphView,
    dir: Direction,
    max_depth: nat,
    filter: Option<Seq<RelationType>>,
    start: Seq<char>,
    queue: Seq<HitView>,
    visited: Set<Seq<char>>,
    results: Seq<HitView>,
)
    requires
        queue.len() > 0,
        queue[0].depth >= max_depth,
        bfs_invariant(start, max_depth, queue, visited, results),
        bfs_closed(g, dir, filter, max_depth, start, queue, visited, results),
    ensures
        bfs_closed(
            g,
            dir,
            filter,
            max_depth,
            start,
            queue.drop_first(),
            visited,
            if queue[0].depth > 0 { results.push(queue[0]) } else { results },
        ),
{
    let hit = queue[0];
    let rest = queue.drop_first();
    let results2 = if hit.depth > 0 { results.push(hit) } else { results };
    let all = results + queue;
    let all2 = results2 + rest;
    let rl = results.len() as int;
    assert(all[rl] == hit);
    assert forall|i: int| 0 <= i < queue.len() - 1 implies #[trigger] rest[i] == queue[i + 1] by {}
    lemma_step_kept(start, queue, results, rest);
    assert forall|n: Seq<char>| #[trigger] visited.contains(n) implies n == start || exists|j: int|
        0 <= j < all2.len() && (#[trigger] all2[j]).node_id == n by {
        if n != start {
            let j = choose|j: int| 0 <= j < all.len() && (#[trigger] all[j]).node_id == n;
            let j2 = choose|j2: int| 0 <= j2 < all2.len() && #[trigger] all2[j2] == all[j];
        }
    }
    assert forall|i: int| 0 <= i < results2.len() && (#[trigger] results2[i]).depth < max_depth implies neighbors_reached(
        g,
        dir,
        filter,
        all2,
        start,
        results2[i].node_id,
        results2[i].depth as int,
    ) by {
        assert(results2[i] == results[i]);
        lemma_neighbors_kept(g, dir, filter, all, all2, start, results[i].node_id, results[i].depth as int);
    }
    if start_expanded(rest) && 0 < max_depth {
        assert(start_expanded(queue));
        lemma_neighbors_kept(g, dir, filter, all, all2, start, start, 0);
    }
}

/// Expanding the first queued hit below `max_depth` keeps what the
/// traversal has settled, and settles that hit.
#[verifier::rlimit(40)]
proof fn lemma_closed_expand(
    g: GraphView,
    dir: Direction,
    max_depth: nat,
    filter: Option<Seq<RelationType>>,
    start: Seq<char>,
    u: Set<Seq<char>>,
    queue: Seq<HitView>,
    visited: Set<Seq<char>>,
    results: Seq<HitView>,
)
    requires
        u == endpoints(g),
        u.finite(),
        queue.len() > 0,
        queue[0].depth < max_depth,
        bfs_invariant(start, max_depth, queue, visited, results),
        depth_layered(queue, results),
        bfs_closed(g, dir, filter, max_depth, start, queue, visited, results),
    ensures
        ({
            let hit = queue[0];
            let results2 = if hit.depth > 0 { results.push(hit) } else { results };
            let (v2, q2) = expand(hit, neighbor_edges(g, hit.node_id, dir), dir, filter, visited, queue.drop_first());
            bfs_closed(g, dir, filter, max_depth, start, q2, v2, results2)
        }),
{
    let hit = queue[0];
    let rest = queue.drop_first();
    let results2 = if hit.depth > 0 { results.push(hit) } else { results };
    let all = results + queue;
    let rl = results.len() as int;
    assert(all[rl] == hit);
    lemma_step_layered(g, dir, filter, queue, visited, results);
    let ne = neighbor_edges(g, hit.node_id, dir);
    assert(ne.take(ne.len() as int) =~= ne);
    lemma_expand_visits(g, hit, ne, dir, filter, visited, rest, u);
    lemma_expand_depths(hit, ne, dir, filter, visited, rest);
    let (v2, q2) = expand(hit, ne, dir, filter, visited, rest);
    let all2 = results2 + q2;
    assert forall|i: int| 0 <= i < queue.len() - 1 implies #[trigger] q2[i] == queue[i + 1] by {
        assert(q2[i] == rest[i]);
    }
    lemma_step_kept(start, queue, results, q2);
    // Every visited node is recorded.
    assert forall|n: Seq<char>| #[trigger] v2.contains(n) implies n == start || exists|j: int|
        0 <= j < all2.len() && (#[trigger] all2[j]).node_id == n by {
        if n != start {
            if visited.contains(n) {
                let j = choose|j: int| 0 <= j < all.len() && (#[trigger] all[j]).node_id == n;
                let j2 = choose|j2: int| 0 <= j2 < all2.len() && #[trigger] all2[j2] == all[j];
            } else {
                let j = choose|j: int| rest.len() <= j < q2.len() && (#[trigger] q2[j]).node_id == n;
                assert(all2[results2.len() + j] == q2[j]);
            }
        }
    }
    // The hit just expanded has its followed neighbours recorded.
    assert forall|k: int| 0 <= k < ne.len() && follows(filter, #[trigger] ne[k]) implies reached_within(
        all2,
        start,
        leads_to(dir, ne[k], hit.node_id),
        hit.depth as int + 1,
    ) by {
        let n = leads_to(dir, ne[k], hit.node_id);
        assert(v2.contains(n));
        if n != start {
            if visited.contains(n) {
                let j = choose|j: int| 0 <= j < all.len() && (#[trigger] all[j]).node_id == n;
                if j < rl {
                    assert(all[j] == results[j]);
                    assert(results2[j] == results[j]);
                } else {
                    assert(all[j] == queue[j - rl]);
                }
                let j2 = choose|j2: int| 0 <= j2 < all2.len() && #[trigger] all2[j2] == all[j];
            } else {
                let j = choose|j: int| rest.len() <= j < q2.len() && (#[trigger] q2[j]).node_id == n;
                assert(all2[results2.len() + j] == q2[j]);
            }
        }
    }
    assert(neighbors_reached(g, dir, filter, all2, start, hit.node_id, hit.depth as int));
    assert forall|i: int| 0 <= i < results2.len() && (#[trigger] results2[i]).depth < max_depth implies neighbors_reached(
        g,
        dir,
        filter,
        all2,
        start,
        results2[i].node_id,
        results2[i].depth as int,
    ) by {
        if i < rl {
            assert(results2[i] == results[i]);
            lemma_neighbors_kept(g, dir, filter, all, all2, start, results[i].node_id, results[i].depth as int);
        } else {
            assert(results2[i] == hit);
        }
    }
    if 0 < max_depth {
        if hit.depth == 0 {
            assert(hit.node_id == start);
        } else {
            assert(start_expanded(queue));
            lemma_neighbors_kept(g, dir, filter, all, all2, start, start, 0);
        }
    }
}

proof fn lemma_steps_complete(
    g: GraphView,
    dir: Direction,
    max_depth: nat,
    filter: Option<Seq<RelationType>>,
    start: Seq<char>,
    u: Set<Seq<char>>,
    queue: Seq<HitView>,
    visited: Set<Seq<char>>,
    results: Seq<HitView>,
    fuel: nat,
)
    requires
        u == endpoints(g),
        u.finite(),
        fuel >= queue.len() + u.difference(visited).len(),
        bfs_invariant(start, max_depth, queue, visited, results),
        depth_layered(queue, results),
        bfs_closed(g, dir, filter, max_depth, start, queue, visited, results),
    ensures
        ({
            let r = bfs_steps(g, dir, max_depth, filter, queue, visited, results, fuel);
            &&& forall|i: int|
                0 <= i < r.len() && (#[trigger] r[i]).depth < max_depth ==> neighbors_reached(
                    g,
                    dir,
                    filter,
                    r,
                    start,
                    r[i].node_id,
                    r[i].depth as int,
                )
            &&& 0 < max_depth ==> neighbors_reached(g, dir, filter, r, start, start, 0)
        }),
    decreases fuel,
{
    if fuel == 0 || queue.len() == 0 {
        assert(results + queue =~= results);
    } else {
        let hit = queue[0];
        let rest = queue.drop_first();
        let results2 = if hit.depth > 0 { results.push(hit) } else { results };
        lemma_pop_keeps(start, max_depth, queue, visited, results);
        lemma_step_layered(g, dir, filter, queue, visited, results);
        if hit.depth >= max_depth {
            lemma_closed_skip(g, dir, max_depth, filter, start, queue, visited, results);
            lemma_steps_complete(g, dir, max_depth, filter, start, u, rest, visited, results2, (fuel - 1) as nat);
            assert(bfs_steps(g, dir, max_depth, filter, queue, visited, results, fuel) == bfs_steps(
                g,
                dir,
                max_depth,
                filter,
                rest,
                visited,
                results2,
                (fuel - 1) as nat,
            ));
        } else {
            let ne = neighbor_edges(g, hit.node_id, dir);
            assert(ne.take(ne.len() as int) =~= ne);
            lemma_expand_visits(g, hit, ne, dir, filter, visited, rest, u);
            lemma_expand_keeps(hit, ne, dir, filter, start, max_depth, visited, rest, results2);
            lemma_closed_expand(g, dir, max_depth, filter, start, u, queue, visited, results);
            let (v2, q2) = expand(hit, ne, dir, filter, visited, rest);
            lemma_steps_complete(g, dir, max_depth, filter, start, u, q2, v2, results2, (fuel - 1) as nat);
            assert(bfs_steps(g, dir, max_depth, filter, queue, visited, results, fuel) == bfs_steps(
                g,
                dir,
                max_depth,
                filter,
                q2,
                v2,
                results2,
                (fuel - 1) as nat,
            ));
        }
    }
}

/// Along a followed path from the start of at most `max_depth` steps, a
/// settled traversal reaches each node no deeper than its position.
proof fn lemma_path_reached(
    g: GraphView,
    dir: Direction,
    max_depth: nat,
    filter: Option<Seq<RelationType>>,
    start: Seq<char>,
    r: Seq<HitView>,
    p: Seq<Seq<char>>,
    i: int,
)
    requires
        forall|i: int|
            0 <= i < r.len() && (#[trigger] r[i]).depth < max_depth ==> neighbors_reached(
                g,
                dir,
                filter,
                r,
                start,
                r[i].node_id,
                r[i].depth as int,
            ),
        0 < max_depth ==> neighbors_reached(g, dir, filter, r, start, start, 0),
        1 <= p.len() <= max_depth + 1,
        p[0] == start,
        path_follows(g, dir, filter, p),
        0 <= i < p.len(),
    ensures
        reached_within(r, start, p[i], i),
    decreases i,
{
    if i > 0 {
        lemma_path_reached(g, dir, max_depth, filter, start, r, p, i - 1);
        let prev = p[i - 1];
        assert(step_ok(g, dir, filter, prev, p[i]));
        let ne = neighbor_edges(g, prev, dir);
        let k = choose|k: int| 0 <= k < ne.len() && follows(filter, #[trigger] ne[k]) && leads_to(dir, ne[k], prev) == p[i];
        if prev == start {
            assert(reached_within(r, start, p[i], 1));
            if p[i] != start {
                let j = choose|j: int| 0 <= j < r.len() && (#[trigger] r[j]).node_id == p[i] && r[j].depth <= 1;
            }
        } else {
            let j = choose|j: int| 0 <= j < r.len() && (#[trigger] r[j]).node_id == prev && r[j].depth <= i - 1;
            assert(neighbors_reached(g, dir, filter, r, start, r[j].node_id, r[j].depth as int));
            assert(reached_within(r, start, p[i], r[j].depth as int + 1));
            if p[i] != start {
                let j2 = choose|j2: int| 0 <= j2 < r.len() && (#[trigger] r[j2]).node_id == p[i] && r[j2].depth <= r[j].depth + 1;
            }
        }
    }
}

/// A traversal is complete and finds shortest paths: every node other than
/// the start that a followed path of at most `max_depth` steps leads to from
/// the start is reported, and each reported node's depth is the length of
/// the shortest followed path from the start to it. (The view of a store has
/// finitely many edges: `GraphStore::lemma_finitely_many_edges`.)
pub proof fn lemma_bfs_shortest(
    g: GraphView,
    start: Seq<char>,
    dir: Direction,
    max_depth: nat,
    filter: Option<Seq<RelationType>>,
)
    requires
        g.edges.dom().finite(),
    ensures
        forall|p: Seq<Seq<char>>|
            2 <= p.len() <= max_depth + 1 && p[0] == start && p.last() != start && #[trigger] path_follows(g, dir, filter, p)
                ==> exists|i: int|
                0 <= i < spec_bfs(g, start, dir, max_depth, filter).len() && (#[trigger] spec_bfs(
                    g,
                    start,
                    dir,
                    max_depth,
                    filter,
                )[i]).node_id == p.last() && spec_bfs(g, start, dir, max_depth, filter)[i].depth <= p.len() - 1,
        forall|i: int, p: Seq<Seq<char>>|
            0 <= i < spec_bfs(g, start, dir, max_depth, filter).len() && 1 <= p.len() && p[0] == start && p.last()
                == (#[trigger] spec_bfs(g, start, dir, max_depth, filter)[i]).node_id && #[trigger] path_follows(
                g,
                dir,
                filter,
                p,
            ) ==> spec_bfs(g, start, dir, max_depth, filter)[i].depth <= p.len() - 1,
{
    let r = spec_bfs(g, start, dir, max_depth, filter);
    let q = seq![HitView { node_id: start, depth: 0, path: seq![start] }];
    let v = set![start];
    let u = endpoints(g);
    lemma_endpoints_finite(g);
    assert(Seq::<HitView>::empty() + q =~= q);
    assert(bfs_invariant(start, max_depth, q, v, Seq::empty()));
    assert(depth_layered(q, Seq::empty()));
    assert(bfs_closed(g, dir, filter, max_depth, start, q, v, Seq::empty()));
    lemma_steps_complete(g, dir, max_depth, filter, start, u, q, v, Seq::empty(), 1 + u.difference(v).len());
    lemma_bfs_hits(g, start, dir, max_depth, filter);
    assert forall|p: Seq<Seq<char>>|
        2 <= p.len() <= max_depth + 1 && p[0] == start && p.last() != start && #[trigger] path_follows(g, dir, filter, p)
        implies exists|i: int| 0 <= i < r.len() && (#[trigger] r[i]).node_id == p.last() && r[i].depth <= p.len() - 1 by {
        lemma_path_reached(g, dir, max_depth, filter, start, r, p, p.len() - 1);
    }
    assert forall|i: int, p: Seq<Seq<char>>|
        0 <= i < r.len() && 1 <= p.len() && p[0] == start && p.last() == (#[trigger] r[i]).node_id
            && #[trigger] path_follows(g, dir, filter, p) implies r[i].depth <= p.len() - 1 by {
        assert(hit_ok(r[i], start, max_depth));
        if p.len() <= max_depth + 1 {
            lemma_path_reached(g, dir, max_depth, filter, start, r, p, p.len() - 1);
            let j = choose|j: int| 0 <= j < r.len() && (#[trigger] r[j]).node_id == p.last() && r[j].depth <= p.len() - 1;
            if j != i {
                if j < i {
                    assert(r[j].node_id != r[i].node_id);
                } else {
                    assert(r[i].node_id != r[j].node_id);
                }
            }
        }
    }
}


proof fn lemma_edges_named_has(edges: Map<Seq<char>, EdgeView>, ids: Seq<Seq<char>>, eid: Seq<char>)
    requires
        ids.contains(eid),
        edges.dom().contains(eid),
    ensures
        edges_named(edges, ids, None).contains(edges[eid]),
    decreases ids.len(),
{
    let r = edges_named(edges, ids.drop_last(), None);
    if ids.last() == eid {
        assert(edges_named(edges, ids, None) == r.push(edges[eid]));
        assert(edges_named(edges, ids, None)[r.len() as int] == edges[eid]);
    } else {
        let i = choose|i: int| 0 <= i < ids.len() && ids[i] == eid;
        assert(ids.drop_last()[i] == eid);
        lemma_edges_named_has(edges, ids.drop_last(), eid);
        let j = choose|j: int| 0 <= j < r.len() && r[j] == edges[eid];
        assert(edges_named(edges, ids, None)[j] == r[j]);
    }
}

/// In a store whose edges are all listed under their ends, a traversal
/// looks at every edge: going forwards from its source and backwards from
/// its target.
pub proof fn lemma_listed_edge_is_neighbor(g: GraphView, eid: Seq<char>)
    requires
        edges_listed(g),
        g.edges.dom().contains(eid),
    ensures
        neighbor_edges(g, g.edges[eid].source_id, Direction::Outgoing).contains(g.edges[eid]),
        neighbor_edges(g, g.edges[eid].target_id, Direction::Incoming).contains(g.edges[eid]),
{
    lemma_edges_named_has(g.edges, listed(g.outgoing, g.edges[eid].source_id), eid);
    lemma_edges_named_has(g.edges, listed(g.incoming, g.edges[eid].target_id), eid);
}

} // verus!
