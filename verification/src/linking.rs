//! Linking parsed files into the graph: each definition and the file that
//! contains it, import edges between files, call edges and heritage edges,
//! and the project, file and folder nodes of the repository.

use vstd::prelude::*;
use crate::text::{chars_of, concat, string_of};
use crate::types::{ExtractedCall, ExtractedHeritage, ExtractedImport, Language, RelationType};
use crate::symbol_table::{SymbolDefinition, SymbolInfo, SymbolTable};
use crate::graph::{
    EdgeView, GraphEdge, GraphNode, GraphStore, GraphView, NodeProps, NodeView, PropsView, empty_graph, index_push, no_props,
    spec_edge_id, spec_remove_file,
};
use crate::pipeline::{
    ChangeSet, ChangeSetView, IndexPlan, changeset_without_index, compute_changeset, indices_of_class, paths_view,
    plan_index, spec_changeset, spec_plan_kind,
};
use crate::import_resolver::{CacheView, ImportResolver, empty_cache, opt_view, resolve_with_cache, spec_normalize, spec_resolve_uncached};
use crate::resolution::{LinkView, ResolutionContext};
use crate::paths::{path_extension, spec_path_extension};
use crate::call_resolver::{
    CallResolver, ImplementorMap, TargetView, build_implementor_map, call_targets, calls_targets, contains_str,
    heritage_pairs_view, impl_files, targets_view,
};
use crate::heritage_resolver::{HeritageEdgeView, HeritageResolver, ResolvedHeritage, edge_confidence, heritage_edge_confidence, heritage_edges};
use crate::types::{HeritageView, NodeLabel, spec_language_from_extension};
use crate::text::{clone_opt_string, str_eq};
use crate::scanner::{SourceFile, SourceView};
use crate::paths::{path_file_name, path_parent_str, spec_path_file_name, spec_path_parent};

verus! {

/// What parsing one file found: its definitions, imports, calls and heritage
/// clauses. Each definition is given as the symbol it defines.
#[derive(Debug)]
pub struct ParseResult {
    pub nodes: Vec<SymbolDefinition>,
    pub imports: Vec<ExtractedImport>,
    pub calls: Vec<ExtractedCall>,
    pub heritage: Vec<ExtractedHeritage>,
}

/// One change to a graph: a node or an edge put under its id.
pub enum GraphChange {
    Node(NodeView),
    Edge(EdgeView),
}

/// The graph after one change, as `add_node` and `add_edge` make it.
pub open spec fn apply_change(g: GraphView, c: GraphChange) -> GraphView {
    match c {
        GraphChange::Node(n) => GraphView {
            nodes: g.nodes.insert(n.id, n),
            by_file: index_push(g.by_file, n.file_path, n.id),
            by_label: index_push(g.by_label, n.label, n.id),
            by_name: index_push(g.by_name, n.name, n.id),
            ..g
        },
        GraphChange::Edge(e) => GraphView {
            edges: g.edges.insert(e.id, e),
            outgoing: index_push(g.outgoing, e.source_id, e.id),
            incoming: index_push(g.incoming, e.target_id, e.id),
            ..g
        },
    }
}

/// The graph after the changes `cs`, in order.
pub open spec fn apply_changes(g: GraphView, cs: Seq<GraphChange>) -> GraphView
    decreases cs.len(),
{
    if cs.len() == 0 {
        g
    } else {
        apply_change(apply_changes(g, cs.drop_last()), cs.last())
    }
}

/// Applying two runs of changes is applying the first, then the second.
pub proof fn lemma_apply_concat(g: GraphView, a: Seq<GraphChange>, b: Seq<GraphChange>)
    ensures
        apply_changes(g, a + b) == apply_changes(apply_changes(g, a), b),
    decreases b.len(),
{
    if b.len() == 0 {
        assert(a + b =~= a);
    } else {
        assert((a + b).drop_last() =~= a + b.drop_last());
        assert((a + b).last() == b.last());
        lemma_apply_concat(g, a, b.drop_last());
    }
}

/// Applying one more change.
pub proof fn lemma_apply_push(g: GraphView, a: Seq<GraphChange>, c: GraphChange)
    ensures
        apply_changes(g, a.push(c)) == apply_change(apply_changes(g, a), c),
{
    assert(a.push(c).drop_last() =~= a);
}

/// The id of the node of the file `path`: `file::path`.
pub open spec fn file_node_id(path: Seq<char>) -> Seq<char> {
    "file::"@ + path
}

/// The edge from `source` to `target` with relation `rel`, `confidence` (in
/// thousandths) and `reason`.
pub open spec fn link_edge(
    source: Seq<char>,
    rel: RelationType,
    target: Seq<char>,
    confidence: u32,
    reason: Seq<char>,
) -> EdgeView {
    EdgeView {
        id: spec_edge_id(source, rel, target),
        source_id: source,
        target_id: target,
        rel_type: rel,
        confidence,
        reason,
        step: None,
    }
}

/// The CONTAINS edge from a file's node to a definition in the file.
pub open spec fn definition_edge(file: Seq<char>, def: Seq<char>) -> EdgeView {
    link_edge(file, RelationType::Contains, def, 1000, "file contains definition"@)
}

/// The CONTAINS edge from a folder's node to a file's node.
pub open spec fn folder_edge(folder: Seq<char>, file: Seq<char>) -> EdgeView {
    link_edge(folder, RelationType::Contains, file, 1000, "folder contains file"@)
}

/// The IMPORTS edge between two files' nodes, for an import of `module`.
pub open spec fn import_edge(from: Seq<char>, to: Seq<char>, module: Seq<char>) -> EdgeView {
    link_edge(from, RelationType::Imports, to, 900, "imports "@ + module)
}

/// The CALLS edge from `caller` to a resolved target, with the target's
/// confidence and reason.
pub open spec fn call_edge(caller: Seq<char>, t: TargetView) -> EdgeView {
    link_edge(caller, RelationType::Calls, t.target_node_id, t.confidence, t.reason)
}

/// The EXTENDS or IMPLEMENTS edge of a resolved heritage clause.
pub open spec fn heritage_graph_edge(e: HeritageEdgeView) -> EdgeView {
    link_edge(e.child_id, e.rel_type, e.parent_id, heritage_edge_confidence(e.parent_confidence), e.reason)
}

/// The graph node of a definition.
pub open spec fn definition_node(d: SymbolInfo) -> NodeView {
    NodeView {
        id: d.node_id,
        label: d.label,
        name: d.name,
        file_path: d.file_path,
        props: PropsView {
            start_line: d.start_line,
            end_line: d.end_line,
            language: Some(d.language),
            is_exported: d.is_exported,
            return_type: d.return_type,
            ..no_props()
        },
    }
}

/// The changes that the definitions `ds` of the file `path` make: each
/// definition's node, then the edge from the file to it.
pub open spec fn node_changes(path: Seq<char>, ds: Seq<SymbolDefinition>) -> Seq<GraphChange>
    decreases ds.len(),
{
    if ds.len() == 0 {
        Seq::empty()
    } else {
        node_changes(path, ds.drop_last()) + seq![
            GraphChange::Node(definition_node(ds.last()@)),
            GraphChange::Edge(definition_edge(file_node_id(path), ds.last().node_id@)),
        ]
    }
}

/// The changes that the definitions of all parsed files make, file by file.
pub open spec fn definition_changes(rs: Seq<(String, ParseResult)>) -> Seq<GraphChange>
    decreases rs.len(),
{
    if rs.len() == 0 {
        Seq::empty()
    } else {
        definition_changes(rs.drop_last()) + node_changes(rs.last().0@, rs.last().1.nodes@)
    }
}

/// The symbol of a definition found in the file `path`: the definition, filed
/// under that path.
pub open spec fn file_symbol(path: Seq<char>, d: SymbolInfo) -> SymbolInfo {
    SymbolInfo { file_path: path, ..d }
}

/// The symbols of the definitions `ds` found in the file `path`.
pub open spec fn node_symbols(path: Seq<char>, ds: Seq<SymbolDefinition>) -> Seq<SymbolInfo> {
    ds.map_values(|d: SymbolDefinition| file_symbol(path, d@))
}

/// The symbols of all parsed files, file by file.
pub open spec fn definition_symbols(rs: Seq<(String, ParseResult)>) -> Seq<SymbolInfo>
    decreases rs.len(),
{
    if rs.len() == 0 {
        Seq::empty()
    } else {
        definition_symbols(rs.drop_last()) + node_symbols(rs.last().0@, rs.last().1.nodes@)
    }
}

/// `file::path` for the file `path`.
pub fn file_id(path: &str) -> (r: String)
    ensures
        r@ == file_node_id(path@),
{
    let p = chars_of("file::");
    proof {
        reveal_strlit("file::");
    }
    string_of(&concat(&p, &chars_of(path)))
}

/// Put each definition of the parsed files into the store and the symbol
/// table, with an edge from its file's node to it.
pub fn add_definitions(results: &[(String, ParseResult)], store: &mut GraphStore, symbols: &mut SymbolTable)
    requires
        old(store).wf(),
    ensures
        final(store).wf(),
        final(store)@ == apply_changes(old(store)@, definition_changes(results@)),
        final(symbols)@ == old(symbols)@ + definition_symbols(results@),
{
    let mut i: usize = 0;
    while i < results.len()
        invariant
            i <= results@.len(),
            store.wf(),
            store@ == apply_changes(old(store)@, definition_changes(results@.subrange(0, i as int))),
            symbols@ == old(symbols)@ + definition_symbols(results@.subrange(0, i as int)),
        decreases results.len() - i,
    {
        let path = results[i].0.as_str();
        let nodes = &results[i].1.nodes;
        let fid = file_id(path);
        let ghost g0 = store@;
        let ghost s0 = symbols@;
        let mut j: usize = 0;
        while j < nodes.len()
            invariant
                j <= nodes@.len(),
                store.wf(),
                fid@ == file_node_id(path@),
                store@ == apply_changes(g0, node_changes(path@, nodes@.subrange(0, j as int))),
                symbols@ == s0 + node_symbols(path@, nodes@.subrange(0, j as int)),
            decreases nodes.len() - j,
        {
            let d = &nodes[j];
            let ghost before = node_changes(path@, nodes@.subrange(0, j as int));
            let ghost gb = store@;
            let mut props = NodeProps::none();
            props.start_line = d.start_line;
            props.end_line = d.end_line;
            props.language = Some(d.language);
            props.is_exported = d.is_exported;
            props.return_type = clone_opt_string(&d.return_type);
            store.add_node(GraphNode {
                id: d.node_id.clone(),
                label: d.label,
                name: d.name.clone(),
                file_path: d.file_path.clone(),
                props,
            });
            store.add_edge(GraphEdge::new(fid.as_str(), d.node_id.as_str(), RelationType::Contains, 1000, "file contains definition"));
            let mut sym = d.duplicate();
            sym.file_path = path.to_owned();
            symbols.insert(sym);
            proof {
                let cn = GraphChange::Node(definition_node(d@));
                let ce = GraphChange::Edge(definition_edge(file_node_id(path@), d.node_id@));
                assert(nodes@.subrange(0, j + 1).drop_last() =~= nodes@.subrange(0, j as int));
                assert(node_changes(path@, nodes@.subrange(0, j + 1)) == before + seq![cn, ce]);
                assert(before + seq![cn, ce] =~= before.push(cn).push(ce));
                lemma_apply_push(g0, before, cn);
                lemma_apply_push(g0, before.push(cn), ce);
                assert(node_symbols(path@, nodes@.subrange(0, j + 1)) =~= node_symbols(
                    path@,
                    nodes@.subrange(0, j as int),
                ).push(file_symbol(path@, d@)));
            }
            j = j + 1;
        }
        proof {
            assert(nodes@.subrange(0, nodes@.len() as int) =~= nodes@);
            let pre = results@.subrange(0, i as int);
            assert(results@.subrange(0, i + 1).drop_last() =~= pre);
            assert(results@.subrange(0, i + 1).last() == results@[i as int]);
            lemma_apply_concat(old(store)@, definition_changes(pre), node_changes(path@, nodes@));
            assert(old(symbols)@ + definition_symbols(pre) + node_symbols(path@, nodes@) =~= old(symbols)@ + (
            definition_symbols(pre) + node_symbols(path@, nodes@)));
        }
        i = i + 1;
    }
    assert(results@.subrange(0, results@.len() as int) =~= results@);
}

/// The changes that adding the edges `es` makes, in order.
pub open spec fn edge_changes(es: Seq<EdgeView>) -> Seq<GraphChange> {
    es.map_values(|e: EdgeView| GraphChange::Edge(e))
}

/// Add the edges `edges` to the store, in order.
fn add_edges(edges: &Vec<GraphEdge>, store: &mut GraphStore)
    requires
        old(store).wf(),
    ensures
        final(store).wf(),
        final(store)@ == apply_changes(old(store)@, edge_changes(edges@.map_values(|e: GraphEdge| e@))),
{
    let ghost ev = edges@.map_values(|e: GraphEdge| e@);
    let mut i: usize = 0;
    while i < edges.len()
        invariant
            i <= edges@.len(),
            ev == edges@.map_values(|e: GraphEdge| e@),
            store.wf(),
            store@ == apply_changes(old(store)@, edge_changes(ev.subrange(0, i as int))),
        decreases edges.len() - i,
    {
        let ghost before = edge_changes(ev.subrange(0, i as int));
        store.add_edge(edges[i].duplicate());
        proof {
            assert(edge_changes(ev.subrange(0, i + 1)) =~= before.push(GraphChange::Edge(ev[i as int])));
            lemma_apply_push(old(store)@, before, GraphChange::Edge(ev[i as int]));
        }
        i = i + 1;
    }
    assert(ev.subrange(0, ev.len() as int) =~= ev);
}

/// The paths of the parsed files, in order.
pub open spec fn parsed_paths(rs: Seq<(String, ParseResult)>) -> Seq<Seq<char>> {
    rs.map_values(|r: (String, ParseResult)| r.0@)
}


/// The name an import binds in the importing file: its alias, else the
/// imported name.
pub open spec fn local_name(imp: ExtractedImport) -> Seq<char> {
    match imp.alias {
        Some(a) => a@,
        None => imp.imported_name@,
    }
}

/// The import phase so far: the links recorded, the import edges made, how
/// many named bindings were recorded, and the import resolver's cache.
pub struct ImportPhase {
    pub links: LinkView,
    pub edges: Seq<EdgeView>,
    pub bindings: nat,
    pub cache: CacheView,
}

/// Links with `from` importing from `target` (recorded once).
pub open spec fn with_import(l: LinkView, from: Seq<char>, target: Seq<char>) -> LinkView {
    LinkView {
        imports: if l.imports.contains((from, target)) {
            l.imports
        } else {
            l.imports.push((from, target))
        },
        ..l
    }
}

/// One import of the file `from`, resolved through the resolver's cache:
/// when it names a known file, the import is recorded, a named binding too
/// unless it is a namespace import, and an IMPORTS edge is made between the
/// two files' nodes.
pub open spec fn import_step(known: Seq<Seq<char>>, st: ImportPhase, from: Seq<char>, imp: ExtractedImport) -> ImportPhase {
    let (target, cache) = resolve_with_cache(known, st.cache, imp.module_source@, from);
    match target {
        None => ImportPhase { cache, ..st },
        Some(t) => {
            let l = with_import(st.links, from, t);
            ImportPhase {
                links: if imp.is_namespace {
                    l
                } else {
                    LinkView { named: l.named.push((from, local_name(imp), (t, imp.imported_name@))), ..l }
                },
                edges: st.edges.push(import_edge(file_node_id(from), file_node_id(t), imp.module_source@)),
                bindings: if imp.is_namespace {
                    st.bindings
                } else {
                    st.bindings + 1
                },
                cache,
            }
        },
    }
}

/// The imports `imps` of the file `from`, in order.
pub open spec fn file_import_phase(known: Seq<Seq<char>>, st: ImportPhase, from: Seq<char>, imps: Seq<ExtractedImport>) -> ImportPhase
    decreases imps.len(),
{
    if imps.len() == 0 {
        st
    } else {
        import_step(known, file_import_phase(known, st, from, imps.drop_last()), from, imps.last())
    }
}

/// The imports of all parsed files, file by file.
pub open spec fn import_phase(known: Seq<Seq<char>>, st: ImportPhase, rs: Seq<(String, ParseResult)>) -> ImportPhase
    decreases rs.len(),
{
    if rs.len() == 0 {
        st
    } else {
        file_import_phase(known, import_phase(known, st, rs.drop_last()), rs.last().0@, rs.last().1.imports@)
    }
}

/// The language of the file `path` by its extension, TypeScript when the
/// extension is missing or unknown.
pub open spec fn spec_language_of_path(path: Seq<char>) -> Language {
    match spec_path_extension(path) {
        Some(e) => match spec_language_from_extension(e) {
            Some(l) => l,
            None => Language::TypeScript,
        },
        None => Language::TypeScript,
    }
}

/// The language of the file `path` by its extension, TypeScript when the
/// extension is missing or unknown.
fn language_of_path(path: &str) -> (r: Language)
    ensures
        r == spec_language_of_path(path@),
{
    proof {
        reveal_strlit("ts");
    }
    let lang = match path_extension(path) {
        Some(e) => Language::from_extension(e.as_str()),
        None => Language::from_extension("ts"),
    };
    match lang {
        Some(l) => l,
        None => Language::TypeScript,
    }
}

/// Resolve the imports of the parsed files through the resolver (and its
/// cache): record each resolved import (and its named binding) in the
/// context, and return the IMPORTS edges between file nodes with the number
/// of named bindings recorded.
fn link_imports(results: &[(String, ParseResult)], resolver: &mut ImportResolver, ctx: &mut ResolutionContext) -> (r: (Vec<GraphEdge>, usize))
    requires
        old(resolver).wf(),
        old(resolver).files() == parsed_paths(results@),
    ensures
        final(resolver).wf(),
        final(resolver).files() == old(resolver).files(),
        forall|f: Seq<char>, n: Seq<char>| #[trigger] final(ctx).cached(f, n) == old(ctx).cached(f, n),
        r.1 <= r.0@.len(),
        ({
            let ip = import_phase(
                parsed_paths(results@),
                ImportPhase { links: old(ctx).links(), edges: Seq::empty(), bindings: 0, cache: old(resolver).cache_view() },
                results@,
            );
            &&& final(ctx).links() == ip.links
            &&& r.0@.map_values(|e: GraphEdge| e@) == ip.edges
            &&& r.1 == ip.bindings
            &&& final(resolver).cache_view() == ip.cache
        }),
{
    let ghost known = parsed_paths(results@);
    let ghost st0 = ImportPhase { links: ctx.links(), edges: Seq::empty(), bindings: 0, cache: resolver.cache_view() };
    let mut edges: Vec<GraphEdge> = Vec::new();
    let mut bindings: usize = 0;
    let mut i: usize = 0;
    while i < results.len()
        invariant
            i <= results@.len(),
            known == parsed_paths(results@),
            resolver.wf(),
            resolver.files() == known,
            forall|f: Seq<char>, n: Seq<char>| #[trigger] ctx.cached(f, n) == old(ctx).cached(f, n),
            bindings <= edges@.len(),
            ({
                let ip = import_phase(known, st0, results@.subrange(0, i as int));
                &&& ctx.links() == ip.links
                &&& edges@.map_values(|e: GraphEdge| e@) == ip.edges
                &&& bindings == ip.bindings
                &&& resolver.cache_view() == ip.cache
            }),
        decreases results.len() - i,
    {
        let from = results[i].0.as_str();
        let imports = &results[i].1.imports;
        let lang = language_of_path(from);
        let ghost pre = results@.subrange(0, i as int);
        let ghost st_file = import_phase(known, st0, pre);
        let mut j: usize = 0;
        while j < imports.len()
            invariant
                j <= imports@.len(),
                known == parsed_paths(results@),
                resolver.wf(),
                resolver.files() == known,
                forall|f: Seq<char>, n: Seq<char>| #[trigger] ctx.cached(f, n) == old(ctx).cached(f, n),
                bindings <= edges@.len(),
                ({
                    let ip = file_import_phase(known, st_file, from@, imports@.subrange(0, j as int));
                    &&& ctx.links() == ip.links
                    &&& edges@.map_values(|e: GraphEdge| e@) == ip.edges
                    &&& bindings == ip.bindings
                    &&& resolver.cache_view() == ip.cache
                }),
            decreases imports.len() - j,
        {
            let imp = &imports[j];
            let ghost st = file_import_phase(known, st_file, from@, imports@.subrange(0, j as int));
            let ghost ev0 = edges@.map_values(|e: GraphEdge| e@);
            let target = resolver.resolve(imp.module_source.as_str(), from, lang);
            proof {
                assert(imports@.subrange(0, j + 1).drop_last() =~= imports@.subrange(0, j as int));
                assert(imports@.subrange(0, j + 1).last() == *imp);
            }
            match target {
                Some(t) => {
                    ctx.add_import_edge(from.to_owned(), t.clone());
                    if !imp.is_namespace {
                        let local = match &imp.alias {
                            Some(a) => a.clone(),
                            None => imp.imported_name.clone(),
                        };
                        ctx.add_named_binding(from.to_owned(), local, t.clone(), imp.imported_name.clone());
                    }
                    let src = file_id(from);
                    let dst = file_id(t.as_str());
                    let reason = string_of(&concat(&chars_of("imports "), &chars_of(imp.module_source.as_str())));
                    edges.push(GraphEdge::new(src.as_str(), dst.as_str(), RelationType::Imports, 900, reason.as_str()));
                    let made: usize = edges.len();
                    if !imp.is_namespace {
                        assert(bindings < made);
                        bindings = bindings + 1;
                    }
                    proof {
                        assert(edges@.map_values(|e: GraphEdge| e@) =~= ev0.push(
                            import_edge(file_node_id(from@), file_node_id(t@), imp.module_source@),
                        ));
                        assert(ctx.links().imports == with_import(st.links, from@, t@).imports);
                    }
                },
                None => {},
            }
            j = j + 1;
        }
        proof {
            assert(imports@.subrange(0, imports@.len() as int) =~= imports@);
            assert(results@.subrange(0, i + 1).drop_last() =~= pre);
            assert(results@.subrange(0, i + 1).last() == results@[i as int]);
        }
        i = i + 1;
    }
    assert(results@.subrange(0, results@.len() as int) =~= results@);
    (edges, bindings)
}

/// The receiver of a call, as text.
pub open spec fn receiver_view(c: ExtractedCall) -> Option<Seq<char>> {
    match c.receiver {
        Some(r) => Some(r@),
        None => None,
    }
}

/// The CALLS edges of one call made in `from`: from its caller to each target.
pub open spec fn call_edges(
    links: LinkView,
    s: Seq<SymbolInfo>,
    impls: spec_fn(Seq<char>) -> Seq<Seq<char>>,
    from: Seq<char>,
    c: ExtractedCall,
) -> Seq<EdgeView> {
    call_targets(links, s, impls, c.callee_name@, receiver_view(c), from).map_values(
        |t: TargetView| call_edge(c.caller_id@, t),
    )
}

/// The CALLS edges of the calls `cs` made in `from`, call by call.
pub open spec fn file_call_edges(
    links: LinkView,
    s: Seq<SymbolInfo>,
    impls: spec_fn(Seq<char>) -> Seq<Seq<char>>,
    from: Seq<char>,
    cs: Seq<ExtractedCall>,
) -> Seq<EdgeView>
    decreases cs.len(),
{
    if cs.len() == 0 {
        Seq::empty()
    } else {
        file_call_edges(links, s, impls, from, cs.drop_last()) + call_edges(links, s, impls, from, cs.last())
    }
}

/// The CALLS edges of all parsed files, file by file.
pub open spec fn all_call_edges(
    links: LinkView,
    s: Seq<SymbolInfo>,
    impls: spec_fn(Seq<char>) -> Seq<Seq<char>>,
    rs: Seq<(String, ParseResult)>,
) -> Seq<EdgeView>
    decreases rs.len(),
{
    if rs.len() == 0 {
        Seq::empty()
    } else {
        all_call_edges(links, s, impls, rs.drop_last()) + file_call_edges(links, s, impls, rs.last().0@, rs.last().1.calls@)
    }
}

/// A copy of a call.
fn copy_call(c: &ExtractedCall) -> (r: ExtractedCall)
    ensures
        r.caller_id@ == c.caller_id@,
        r.callee_name@ == c.callee_name@,
        receiver_view(r) == receiver_view(*c),
{
    ExtractedCall {
        caller_id: c.caller_id.clone(),
        callee_name: c.callee_name.clone(),
        receiver: match &c.receiver {
            Some(x) => Some(x.clone()),
            None => None,
        },
        file_path: c.file_path.clone(),
        line: c.line,
        arguments_count: c.arguments_count,
    }
}

/// Resolve every call of the parsed files, one call at a time, and return the
/// CALLS edges from each caller to each of its targets.
fn link_calls(
    results: &[(String, ParseResult)],
    ctx: &mut ResolutionContext,
    symbols: &SymbolTable,
    implementors: &ImplementorMap,
) -> (r: Vec<GraphEdge>)
    requires
        implementors.wf(),
    ensures
        final(ctx).links() == old(ctx).links(),
        old(ctx).cache_consistent(symbols@) ==> final(ctx).cache_consistent(symbols@) && r@.map_values(
            |e: GraphEdge| e@,
        ) == all_call_edges(old(ctx).links(), symbols@, |t: Seq<char>| implementors.files_of(t), results@),
{
    let ghost impls = |t: Seq<char>| implementors.files_of(t);
    let ghost links = ctx.links();
    let ghost consistent = ctx.cache_consistent(symbols@);
    let mut edges: Vec<GraphEdge> = Vec::new();
    let mut i: usize = 0;
    while i < results.len()
        invariant
            i <= results@.len(),
            implementors.wf(),
            impls == (|t: Seq<char>| implementors.files_of(t)),
            links == ctx.links(),
            links == old(ctx).links(),
            consistent == old(ctx).cache_consistent(symbols@),
            consistent ==> ctx.cache_consistent(symbols@) && edges@.map_values(|e: GraphEdge| e@) == all_call_edges(
                links,
                symbols@,
                impls,
                results@.subrange(0, i as int),
            ),
        decreases results.len() - i,
    {
        let from = results[i].0.as_str();
        let calls = &results[i].1.calls;
        let ghost pre = all_call_edges(links, symbols@, impls, results@.subrange(0, i as int));
        let mut j: usize = 0;
        while j < calls.len()
            invariant
                j <= calls@.len(),
                implementors.wf(),
                impls == (|t: Seq<char>| implementors.files_of(t)),
                links == ctx.links(),
                consistent ==> ctx.cache_consistent(symbols@) && edges@.map_values(|e: GraphEdge| e@) == pre
                    + file_call_edges(links, symbols@, impls, from@, calls@.subrange(0, j as int)),
            decreases calls.len() - j,
        {
            let call = &calls[j];
            let single = vec![copy_call(call)];
            let targets = CallResolver::resolve_calls(single.as_slice(), from, ctx, symbols, implementors);
            let ghost tv = targets_view(targets@);
            let ghost e0 = edges@.map_values(|e: GraphEdge| e@);
            proof {
                assert(single@.drop_last() =~= Seq::<ExtractedCall>::empty());
                if consistent {
                    assert(tv == calls_targets(links, symbols@, impls, single@, from@));
                    let c = single@.last();
                    assert(calls_targets(links, symbols@, impls, single@.drop_last(), from@) =~= Seq::empty());
                    assert(receiver_view(c) == (match c.receiver {
                        Some(r) => Some(r@),
                        None => None,
                    }));
                    assert(calls_targets(links, symbols@, impls, single@, from@) =~= call_targets(
                        links,
                        symbols@,
                        impls,
                        c.callee_name@,
                        receiver_view(c),
                        from@,
                    ));
                    assert(tv == call_targets(links, symbols@, impls, call.callee_name@, receiver_view(*call), from@));
                }
            }
            let mut k: usize = 0;
            while k < targets.len()
                invariant
                    k <= targets@.len(),
                    tv == targets_view(targets@),
                    edges@.map_values(|e: GraphEdge| e@) == e0 + tv.subrange(0, k as int).map_values(
                        |t: TargetView| call_edge(call.caller_id@, t),
                    ),
                decreases targets.len() - k,
            {
                let ghost before = edges@.map_values(|e: GraphEdge| e@);
                edges.push(GraphEdge::new(
                    call.caller_id.as_str(),
                    targets[k].target_node_id.as_str(),
                    RelationType::Calls,
                    targets[k].confidence,
                    targets[k].reason.as_str(),
                ));
                proof {
                    assert(edges@.map_values(|e: GraphEdge| e@) =~= before.push(
                        call_edge(call.caller_id@, tv[k as int]),
                    ));
                    assert(tv.subrange(0, k + 1).map_values(
                        |t: TargetView| call_edge(call.caller_id@, t),
                    ) =~= tv.subrange(0, k as int).map_values(
                        |t: TargetView| call_edge(call.caller_id@, t),
                    ).push(call_edge(call.caller_id@, tv[k as int])));
                }
                k = k + 1;
            }
            proof {
                assert(tv.subrange(0, tv.len() as int) =~= tv);
                assert(calls@.subrange(0, j + 1).drop_last() =~= calls@.subrange(0, j as int));
                assert(calls@.subrange(0, j + 1).last() == *call);
                if consistent {
                    assert(edges@.map_values(|e: GraphEdge| e@) =~= pre + file_call_edges(
                        links,
                        symbols@,
                        impls,
                        from@,
                        calls@.subrange(0, j + 1),
                    ));
                }
            }
            j = j + 1;
        }
        proof {
            assert(calls@.subrange(0, calls@.len() as int) =~= calls@);
            assert(results@.subrange(0, i + 1).drop_last() =~= results@.subrange(0, i as int));
            assert(results@.subrange(0, i + 1).last() == results@[i as int]);
        }
        i = i + 1;
    }
    assert(results@.subrange(0, results@.len() as int) =~= results@);
    edges
}

/// The heritage clauses of all parsed files, file by file.
pub open spec fn all_heritage(rs: Seq<(String, ParseResult)>) -> Seq<HeritageView>
    decreases rs.len(),
{
    if rs.len() == 0 {
        Seq::empty()
    } else {
        all_heritage(rs.drop_last()) + rs.last().1.heritage@.map_values(|h: ExtractedHeritage| h@)
    }
}

/// The heritage clauses of all parsed files, each with the path of its file.
pub open spec fn heritage_pair_views(rs: Seq<(String, ParseResult)>) -> Seq<(Seq<char>, HeritageView)>
    decreases rs.len(),
{
    if rs.len() == 0 {
        Seq::empty()
    } else {
        heritage_pair_views(rs.drop_last()) + rs.last().1.heritage@.map_values(
            |h: ExtractedHeritage| (rs.last().0@, h@),
        )
    }
}

/// The graph edges of resolved heritage: from each child to its parent.
pub open spec fn heritage_link_edges(es: Seq<HeritageEdgeView>) -> Seq<EdgeView> {
    es.map_values(|e: HeritageEdgeView| heritage_graph_edge(e))
}

/// A copy of a heritage clause.
fn copy_heritage(h: &ExtractedHeritage) -> (r: ExtractedHeritage)
    ensures
        r@ == h@,
{
    ExtractedHeritage {
        child_id: h.child_id.clone(),
        parent_name: h.parent_name.clone(),
        kind: h.kind,
        file_path: h.file_path.clone(),
    }
}

/// The heritage clauses of the parsed files, once paired with their file's
/// path and once alone.
fn collect_heritage(results: &[(String, ParseResult)]) -> (r: (Vec<(String, ExtractedHeritage)>, Vec<ExtractedHeritage>))
    ensures
        heritage_pairs_view(r.0@) == heritage_pair_views(results@),
        r.1@.map_values(|h: ExtractedHeritage| h@) == all_heritage(results@),
{
    let mut pairs: Vec<(String, ExtractedHeritage)> = Vec::new();
    let mut items: Vec<ExtractedHeritage> = Vec::new();
    let mut i: usize = 0;
    while i < results.len()
        invariant
            i <= results@.len(),
            heritage_pairs_view(pairs@) == heritage_pair_views(results@.subrange(0, i as int)),
            items@.map_values(|h: ExtractedHeritage| h@) == all_heritage(results@.subrange(0, i as int)),
        decreases results.len() - i,
    {
        let path = &results[i].0;
        let hs = &results[i].1.heritage;
        let ghost p0 = heritage_pairs_view(pairs@);
        let ghost i0 = items@.map_values(|h: ExtractedHeritage| h@);
        let mut j: usize = 0;
        while j < hs.len()
            invariant
                j <= hs@.len(),
                heritage_pairs_view(pairs@) == p0 + hs@.subrange(0, j as int).map_values(
                    |h: ExtractedHeritage| (path@, h@),
                ),
                items@.map_values(|h: ExtractedHeritage| h@) == i0 + hs@.subrange(0, j as int).map_values(
                    |h: ExtractedHeritage| h@,
                ),
            decreases hs.len() - j,
        {
            let ghost pb = pairs@;
            let ghost ib = items@;
            pairs.push((path.clone(), copy_heritage(&hs[j])));
            items.push(copy_heritage(&hs[j]));
            proof {
                assert(heritage_pairs_view(pairs@) =~= heritage_pairs_view(pb).push((path@, hs@[j as int]@)));
                assert(hs@.subrange(0, j + 1).map_values(|h: ExtractedHeritage| (path@, h@)) =~= hs@.subrange(
                    0,
                    j as int,
                ).map_values(|h: ExtractedHeritage| (path@, h@)).push((path@, hs@[j as int]@)));
                assert(items@.map_values(|h: ExtractedHeritage| h@) =~= ib.map_values(|h: ExtractedHeritage| h@).push(
                    hs@[j as int]@,
                ));
                assert(hs@.subrange(0, j + 1).map_values(|h: ExtractedHeritage| h@) =~= hs@.subrange(
                    0,
                    j as int,
                ).map_values(|h: ExtractedHeritage| h@).push(hs@[j as int]@));
            }
            j = j + 1;
        }
        proof {
            assert(hs@.subrange(0, hs@.len() as int) =~= hs@);
            assert(results@.subrange(0, i + 1).drop_last() =~= results@.subrange(0, i as int));
            assert(results@.subrange(0, i + 1).last() == results@[i as int]);
        }
        i = i + 1;
    }
    assert(results@.subrange(0, results@.len() as int) =~= results@);
    (pairs, items)
}

/// The graph edges of resolved heritage: from each child to its parent.
fn heritage_graph_edges(resolved: &Vec<ResolvedHeritage>) -> (r: Vec<GraphEdge>)
    ensures
        r@.map_values(|e: GraphEdge| e@) == heritage_link_edges(resolved@.map_values(|h: ResolvedHeritage| h@)),
{
    let ghost hv = resolved@.map_values(|h: ResolvedHeritage| h@);
    let mut edges: Vec<GraphEdge> = Vec::new();
    let mut i: usize = 0;
    while i < resolved.len()
        invariant
            i <= resolved@.len(),
            hv == resolved@.map_values(|h: ResolvedHeritage| h@),
            edges@.map_values(|e: GraphEdge| e@) == heritage_link_edges(hv.subrange(0, i as int)),
        decreases resolved.len() - i,
    {
        let h = &resolved[i];
        let ghost before = edges@;
        let confidence = edge_confidence(h.parent_confidence);
        edges.push(GraphEdge::new(h.child_id.as_str(), h.parent_id.as_str(), h.rel_type, confidence, h.reason.as_str()));
        assert(edges@.map_values(|e: GraphEdge| e@) =~= before.map_values(|e: GraphEdge| e@).push(
            heritage_graph_edge(h@),
        ));
        assert(heritage_link_edges(hv.subrange(0, i + 1)) =~= heritage_link_edges(hv.subrange(0, i as int)).push(
            heritage_graph_edge(h@),
        ));
        i = i + 1;
    }
    assert(hv.subrange(0, hv.len() as int) =~= hv);
    edges
}

/// Counts of what linking made.
#[derive(Debug, Clone, Copy, PartialEq, Eq, Structural)]
pub struct ResolutionStats {
    pub import_edges_resolved: usize,
    pub call_edges_resolved: usize,
    pub heritage_edges_resolved: usize,
    pub named_bindings: usize,
    pub communities: usize,
    pub processes: usize,
}

/// Links with no import, binding or alias recorded.
pub open spec fn no_links() -> LinkView {
    LinkView { imports: Seq::empty(), named: Seq::empty(), aliases: Seq::empty() }
}

/// The import phase of the parsed files, from no links.
pub open spec fn imports_of_results(rs: Seq<(String, ParseResult)>) -> ImportPhase {
    import_phase(
        parsed_paths(rs),
        ImportPhase { links: no_links(), edges: Seq::empty(), bindings: 0, cache: empty_cache() },
        rs,
    )
}

/// The CALLS edges of the parsed files, resolved under the links that their
/// imports recorded.
pub open spec fn calls_of_results(rs: Seq<(String, ParseResult)>) -> Seq<EdgeView> {
    all_call_edges(
        imports_of_results(rs).links,
        definition_symbols(rs),
        |t: Seq<char>| impl_files(heritage_pair_views(rs), t),
        rs,
    )
}

/// The heritage edges of the parsed files, resolved under the links that
/// their imports recorded.
pub open spec fn heritage_of_results(rs: Seq<(String, ParseResult)>) -> Seq<EdgeView> {
    heritage_link_edges(heritage_edges(imports_of_results(rs).links, definition_symbols(rs), all_heritage(rs)))
}

/// Everything that linking the parsed files adds to the graph, in order:
/// definitions with their CONTAINS edges, then IMPORTS, CALLS and heritage
/// edges.
pub open spec fn link_changes(rs: Seq<(String, ParseResult)>) -> Seq<GraphChange> {
    definition_changes(rs) + edge_changes(imports_of_results(rs).edges) + edge_changes(calls_of_results(rs))
        + edge_changes(heritage_of_results(rs))
}

/// Link the parsed files into the store: every definition becomes a node
/// contained in its file's node and a symbol; imports are resolved among the
/// parsed files and become IMPORTS edges and bindings; calls and heritage
/// clauses are then resolved against the symbols and those bindings and
/// become CALLS, EXTENDS and IMPLEMENTS edges. Imports are resolved through
/// the resolver's cache as `ImportResolver::resolve` does.
pub fn link_parse_results(results: &[(String, ParseResult)], store: &mut GraphStore) -> (r: ResolutionStats)
    requires
        old(store).wf(),
        results@.len() < usize::MAX,
    ensures
        final(store).wf(),
        r.communities == 0,
        r.processes == 0,
        r.named_bindings <= r.import_edges_resolved,
        final(store)@ == apply_changes(old(store)@, link_changes(results@)),
        r.import_edges_resolved == imports_of_results(results@).edges.len(),
        r.named_bindings == imports_of_results(results@).bindings,
        r.call_edges_resolved == calls_of_results(results@).len(),
        r.heritage_edges_resolved == heritage_of_results(results@).len(),
{
    let ghost rs = results@;
    let mut symbols = SymbolTable::new();
    add_definitions(results, store, &mut symbols);
    assert(symbols@ =~= definition_symbols(rs));
    let ghost g1 = store@;

    let mut paths: Vec<String> = Vec::new();
    let mut i: usize = 0;
    while i < results.len()
        invariant
            i <= results@.len(),
            paths@.map_values(|p: String| p@) == parsed_paths(results@.subrange(0, i as int)),
        decreases results.len() - i,
    {
        let ghost before = paths@;
        paths.push(results[i].0.clone());
        assert(paths@.map_values(|p: String| p@) =~= before.map_values(|p: String| p@).push(results@[i as int].0@));
        assert(parsed_paths(results@.subrange(0, i + 1)) =~= parsed_paths(results@.subrange(0, i as int)).push(
            results@[i as int].0@,
        ));
        i = i + 1;
    }
    assert(results@.subrange(0, results@.len() as int) =~= results@);
    let mut resolver = ImportResolver::new(paths);
    let mut ctx = ResolutionContext::new();
    assert(ctx.links() == no_links()) by {
        assert(ctx.links().imports =~= no_links().imports);
        assert(ctx.links().named =~= no_links().named);
        assert(ctx.links().aliases =~= no_links().aliases);
    }
    let (import_edges, named) = link_imports(results, &mut resolver, &mut ctx);
    add_edges(&import_edges, store);
    let ghost g2 = store@;
    let ghost links = ctx.links();
    assert(ctx.cache_consistent(symbols@));

    let (pairs, items) = collect_heritage(results);
    let implementors = build_implementor_map(pairs.as_slice());
    assert((|t: Seq<char>| implementors.files_of(t)) =~= (|t: Seq<char>| impl_files(heritage_pair_views(rs), t)));
    let call_edges = link_calls(results, &mut ctx, &symbols, &implementors);
    add_edges(&call_edges, store);
    let ghost g3 = store@;

    let resolved = HeritageResolver::resolve_heritage(items.as_slice(), &mut ctx, &symbols);
    let h_edges = heritage_graph_edges(&resolved);
    add_edges(&h_edges, store);

    proof {
        {
            let ip = imports_of_results(rs);
            assert(links == ip.links);
            let ce = calls_of_results(rs);
            assert(call_edges@.map_values(|e: GraphEdge| e@) == ce);
            let he = heritage_of_results(rs);
            assert(h_edges@.map_values(|e: GraphEdge| e@) == he);
            lemma_apply_concat(old(store)@, definition_changes(rs), edge_changes(ip.edges));
            lemma_apply_concat(old(store)@, definition_changes(rs) + edge_changes(ip.edges), edge_changes(ce));
            lemma_apply_concat(
                old(store)@,
                definition_changes(rs) + edge_changes(ip.edges) + edge_changes(ce),
                edge_changes(he),
            );
        }
    }
    ResolutionStats {
        import_edges_resolved: import_edges.len(),
        call_edges_resolved: call_edges.len(),
        heritage_edges_resolved: h_edges.len(),
        named_bindings: named,
        communities: 0,
        processes: 0,
    }
}

/// `name` when present, else `fallback`.
pub open spec fn name_or(name: Option<Seq<char>>, fallback: Seq<char>) -> Seq<char> {
    match name {
        Some(n) => n,
        None => fallback,
    }
}

/// The node of the repository root `root`: named after its last component,
/// or `project`.
pub open spec fn project_node(root: Seq<char>) -> NodeView {
    NodeView {
        id: "project::root"@,
        label: NodeLabel::Project,
        name: name_or(spec_path_file_name(root), "project"@),
        file_path: root,
        props: no_props(),
    }
}

/// The id of the node of the folder `path`: `folder::path`.
pub open spec fn folder_node_id(path: Seq<char>) -> Seq<char> {
    "folder::"@ + path
}

/// The node of the folder `path`, named after its last component.
pub open spec fn folder_node(path: Seq<char>) -> NodeView {
    NodeView {
        id: folder_node_id(path),
        label: NodeLabel::Folder,
        name: name_or(spec_path_file_name(path), path),
        file_path: path,
        props: no_props(),
    }
}

/// The node of a scanned file, named after its file name.
pub open spec fn source_file_node(f: SourceView) -> NodeView {
    NodeView {
        id: file_node_id(f.relative_path),
        label: NodeLabel::File,
        name: name_or(spec_path_file_name(f.path), Seq::empty()),
        file_path: f.relative_path,
        props: no_props(),
    }
}

/// The folders seen so far and the changes made so far.
pub struct StructureState {
    pub seen: Set<Seq<char>>,
    pub changes: Seq<GraphChange>,
}

/// One scanned file: its node, and when its folder (a non-empty parent path)
/// is seen for the first time, the folder's node and an edge from the folder
/// to this file.
pub open spec fn structure_step(st: StructureState, f: SourceView) -> StructureState {
    let with_file = st.changes.push(GraphChange::Node(source_file_node(f)));
    match spec_path_parent(f.relative_path) {
        Some(p) => if p.len() > 0 && !st.seen.contains(p) {
            StructureState {
                seen: st.seen.insert(p),
                changes: with_file.push(GraphChange::Node(folder_node(p))).push(
                    GraphChange::Edge(
                        folder_edge(folder_node_id(p), file_node_id(f.relative_path)),
                    ),
                ),
            }
        } else {
            StructureState { seen: st.seen, changes: with_file }
        },
        None => StructureState { seen: st.seen, changes: with_file },
    }
}

/// The scanned files `fs`, in order.
pub open spec fn structure_fold(st: StructureState, fs: Seq<SourceView>) -> StructureState
    decreases fs.len(),
{
    if fs.len() == 0 {
        st
    } else {
        structure_step(structure_fold(st, fs.drop_last()), fs.last())
    }
}

/// The structure changes for the root `root` and the scanned files `fs`: the
/// project node, then each file and first-seen folder.
pub open spec fn structure_changes(root: Seq<char>, fs: Seq<SourceView>) -> Seq<GraphChange> {
    structure_fold(
        StructureState { seen: Set::empty(), changes: seq![GraphChange::Node(project_node(root))] },
        fs,
    ).changes
}

/// `prefix` followed by `path`.
fn prefixed(prefix: &str, path: &str) -> (r: String)
    ensures
        r@ == prefix@ + path@,
{
    string_of(&concat(&chars_of(prefix), &chars_of(path)))
}

/// Add the project node, and a node for each scanned file and for each folder
/// that holds one, with an edge from each folder to the first file found in it.
pub fn build_structure(files: &[SourceFile], root: &str, store: &mut GraphStore)
    requires
        old(store).wf(),
    ensures
        final(store).wf(),
        final(store)@ == apply_changes(old(store)@, structure_changes(root@, files@.map_values(|f: SourceFile| f@))),
{
    let ghost fv = files@.map_values(|f: SourceFile| f@);
    let root_name = match path_file_name(root) {
        Some(n) => n,
        None => "project".to_owned(),
    };
    proof {
        reveal_strlit("project");
        reveal_strlit("project::root");
        reveal_strlit("folder::");
        reveal_strlit("file::");
    }
    store.add_node(
        GraphNode {
            id: "project::root".to_owned(),
            label: NodeLabel::Project,
            name: root_name,
            file_path: root.to_owned(),
            props: NodeProps::none(),
        },
    );
    let ghost st0 = StructureState { seen: Set::empty(), changes: seq![GraphChange::Node(project_node(root@))] };
    proof {
        lemma_apply_push(old(store)@, Seq::empty(), GraphChange::Node(project_node(root@)));
        assert(seq![GraphChange::Node(project_node(root@))] =~= Seq::<GraphChange>::empty().push(
            GraphChange::Node(project_node(root@)),
        ));
    }
    let mut seen: Vec<String> = Vec::new();
    let mut i: usize = 0;
    while i < files.len()
        invariant
            i <= files@.len(),
            store.wf(),
            fv == files@.map_values(|f: SourceFile| f@),
            seen@.map_values(|s: String| s@).to_set() == structure_fold(st0, fv.subrange(0, i as int)).seen,
            store@ == apply_changes(old(store)@, structure_fold(st0, fv.subrange(0, i as int)).changes),
        decreases files.len() - i,
    {
        let f = &files[i];
        let ghost st = structure_fold(st0, fv.subrange(0, i as int));
        let fid = file_id(f.relative_path.as_str());
        let file_name = match path_file_name(f.path.as_str()) {
            Some(n) => n,
            None => String::new(),
        };
        store.add_node(
            GraphNode {
                id: fid.clone(),
                label: NodeLabel::File,
                name: file_name,
                file_path: f.relative_path.clone(),
                props: NodeProps::none(),
            },
        );
        proof {
            lemma_apply_push(old(store)@, st.changes, GraphChange::Node(source_file_node(f@)));
            assert(fv.subrange(0, i + 1).drop_last() =~= fv.subrange(0, i as int));
            assert(fv.subrange(0, i + 1).last() == f@);
        }
        match path_parent_str(f.relative_path.as_str()) {
            Some(parent) => {
                let ghost pm = seen@.map_values(|s: String| s@);
                let known = contains_str(&seen, parent.as_str());
                proof {
                    assert(pm.to_set().contains(parent@) == pm.contains(parent@));
                }
                if parent.as_str().unicode_len() > 0 && !known {
                    let folder_id = prefixed("folder::", parent.as_str());
                    let folder_name = match path_file_name(parent.as_str()) {
                        Some(n) => n,
                        None => parent.clone(),
                    };
                    let ghost c1 = st.changes.push(GraphChange::Node(source_file_node(f@)));
                    store.add_node(
                        GraphNode {
                            id: folder_id.clone(),
                            label: NodeLabel::Folder,
                            name: folder_name,
                            file_path: parent.clone(),
                            props: NodeProps::none(),
                        },
                    );
                    store.add_edge(GraphEdge::new(folder_id.as_str(), fid.as_str(), RelationType::Contains, 1000, "folder contains file"));
                    seen.push(parent);
                    proof {
                        let p = spec_path_parent(f.relative_path@)->0;
                        lemma_apply_push(old(store)@, c1, GraphChange::Node(folder_node(p)));
                        lemma_apply_push(
                            old(store)@,
                            c1.push(GraphChange::Node(folder_node(p))),
                            GraphChange::Edge(
                                folder_edge(folder_node_id(p), file_node_id(f.relative_path@)),
                            ),
                        );
                        assert(seen@.map_values(|s: String| s@) =~= pm.push(p));
                        assert(pm.push(p).to_set() =~= pm.to_set().insert(p)) by {
                            assert forall|x: Seq<char>| pm.push(p).contains(x) <==> pm.contains(x) || x == p by {
                                if pm.push(p).contains(x) && x != p {
                                    let k = choose|k: int| 0 <= k < pm.push(p).len() && pm.push(p)[k] == x;
                                    assert(pm[k] == x);
                                }
                                if pm.contains(x) {
                                    let k = choose|k: int| 0 <= k < pm.len() && pm[k] == x;
                                    assert(pm.push(p)[k] == x);
                                }
                                if x == p {
                                    assert(pm.push(p)[pm.len() as int] == x);
                                }
                            }
                        }
                    }
                }
            },
            None => {},
        }
        i = i + 1;
    }
    assert(fv.subrange(0, fv.len() as int) =~= fv);
}

/// The graph without the files `paths`, removed in order.
pub open spec fn without_files(g: GraphView, paths: Seq<Seq<char>>) -> GraphView
    decreases paths.len(),
{
    if paths.len() == 0 {
        g
    } else {
        spec_remove_file(without_files(g, paths.drop_last()), paths.last()).0
    }
}

/// Remove the files `paths` from the store, in order.
fn remove_files(store: &mut GraphStore, paths: &Vec<String>)
    requires
        old(store).wf(),
    ensures
        final(store).wf(),
        final(store)@ == without_files(old(store)@, paths@.map_values(|p: String| p@)),
{
    let ghost pv = paths@.map_values(|p: String| p@);
    let mut i: usize = 0;
    while i < paths.len()
        invariant
            i <= paths@.len(),
            pv == paths@.map_values(|p: String| p@),
            store.wf(),
            store@ == without_files(old(store)@, pv.subrange(0, i as int)),
        decreases paths.len() - i,
    {
        store.remove_file(paths[i].as_str());
        assert(pv.subrange(0, i + 1).drop_last() =~= pv.subrange(0, i as int));
        i = i + 1;
    }
    assert(pv.subrange(0, pv.len() as int) =~= pv);
}

/// The scanned files at the positions `idx`.
pub open spec fn files_at(files: Seq<SourceView>, idx: Seq<usize>) -> Seq<SourceView> {
    idx.map_values(|i: usize| files[i as int])
}

/// Update a previous index for an incremental run: remove the deleted files,
/// then the modified ones, and add the structure of the added files.
pub fn update_structure(store: &mut GraphStore, cs: &ChangeSet, files: &[SourceFile], root: &str)
    requires
        old(store).wf(),
        forall|k: int| 0 <= k < cs.modified@.len() ==> #[trigger] cs.modified@[k] < files@.len(),
        forall|k: int| 0 <= k < cs.added@.len() ==> #[trigger] cs.added@[k] < files@.len(),
    ensures
        final(store).wf(),
        final(store)@ == apply_changes(
            without_files(
                without_files(old(store)@, cs@.deleted),
                files_at(files@.map_values(|f: SourceFile| f@), cs@.modified).map_values(|f: SourceView| f.relative_path),
            ),
            structure_changes(root@, files_at(files@.map_values(|f: SourceFile| f@), cs@.added)),
        ),
{
    let ghost fv = files@.map_values(|f: SourceFile| f@);
    remove_files(store, &cs.deleted);
    let mut modified: Vec<String> = Vec::new();
    let mut i: usize = 0;
    while i < cs.modified.len()
        invariant
            i <= cs.modified@.len(),
            fv == files@.map_values(|f: SourceFile| f@),
            forall|k: int| 0 <= k < cs.modified@.len() ==> #[trigger] cs.modified@[k] < files@.len(),
            modified@.map_values(|p: String| p@) == files_at(fv, cs@.modified.subrange(0, i as int)).map_values(
                |f: SourceView| f.relative_path,
            ),
        decreases cs.modified.len() - i,
    {
        let ghost before = modified@;
        let k = cs.modified[i];
        modified.push(files[k].relative_path.clone());
        assert(modified@.map_values(|p: String| p@) =~= before.map_values(|p: String| p@).push(fv[k as int].relative_path));
        assert(files_at(fv, cs@.modified.subrange(0, i + 1)).map_values(|f: SourceView| f.relative_path) =~= files_at(
            fv,
            cs@.modified.subrange(0, i as int),
        ).map_values(|f: SourceView| f.relative_path).push(fv[k as int].relative_path));
        i = i + 1;
    }
    assert(cs@.modified.subrange(0, cs@.modified.len() as int) =~= cs@.modified);
    remove_files(store, &modified);
    let mut added: Vec<SourceFile> = Vec::new();
    let mut j: usize = 0;
    while j < cs.added.len()
        invariant
            j <= cs.added@.len(),
            fv == files@.map_values(|f: SourceFile| f@),
            forall|k: int| 0 <= k < cs.added@.len() ==> #[trigger] cs.added@[k] < files@.len(),
            added@.map_values(|f: SourceFile| f@) == files_at(fv, cs@.added.subrange(0, j as int)),
        decreases cs.added.len() - j,
    {
        let ghost before = added@;
        let k = cs.added[j];
        added.push(files[k].duplicate());
        assert(added@.map_values(|f: SourceFile| f@) =~= before.map_values(|f: SourceFile| f@).push(fv[k as int]));
        assert(files_at(fv, cs@.added.subrange(0, j + 1)) =~= files_at(fv, cs@.added.subrange(0, j as int)).push(
            fv[k as int],
        ));
        j = j + 1;
    }
    assert(cs@.added.subrange(0, cs@.added.len() as int) =~= cs@.added);
    build_structure(added.as_slice(), root, store);
}

/// The hashes of a graph after recording `hashes` (by position in `files`),
/// in order.
pub open spec fn with_hashes(g: GraphView, files: Seq<SourceView>, hashes: Seq<(usize, u64)>) -> GraphView
    decreases hashes.len(),
{
    if hashes.len() == 0 {
        g
    } else {
        let prev = with_hashes(g, files, hashes.drop_last());
        GraphView {
            file_hashes: prev.file_hashes.insert(files[hashes.last().0 as int].relative_path, hashes.last().1),
            ..prev
        }
    }
}

/// Record the hash of each hashed file (by its position in `files`) under its
/// relative path, for the next incremental run.
pub fn record_hashes(store: &mut GraphStore, files: &[SourceFile], hashes: &[(usize, u64)])
    requires
        old(store).wf(),
        forall|k: int| 0 <= k < hashes@.len() ==> (#[trigger] hashes@[k]).0 < files@.len(),
    ensures
        final(store).wf(),
        final(store)@ == with_hashes(old(store)@, files@.map_values(|f: SourceFile| f@), hashes@),
{
    let ghost fv = files@.map_values(|f: SourceFile| f@);
    let mut i: usize = 0;
    while i < hashes.len()
        invariant
            i <= hashes@.len(),
            fv == files@.map_values(|f: SourceFile| f@),
            forall|k: int| 0 <= k < hashes@.len() ==> (#[trigger] hashes@[k]).0 < files@.len(),
            store.wf(),
            store@ == with_hashes(old(store)@, fv, hashes@.subrange(0, i as int)),
        decreases hashes.len() - i,
    {
        let (k, h) = hashes[i];
        store.set_file_hash(files[k].relative_path.clone(), h);
        assert(hashes@.subrange(0, i + 1).drop_last() =~= hashes@.subrange(0, i as int));
        assert(hashes@.subrange(0, i + 1).last() == hashes@[i as int]);
        i = i + 1;
    }
    assert(hashes@.subrange(0, hashes@.len() as int) =~= hashes@);
}

/// Changes only add: every node and edge id of the graph stays in it.
pub proof fn lemma_changes_keep(g: GraphView, cs: Seq<GraphChange>)
    ensures
        forall|id: Seq<char>| #[trigger] g.nodes.dom().contains(id) ==> apply_changes(g, cs).nodes.dom().contains(id),
        forall|id: Seq<char>| #[trigger] g.edges.dom().contains(id) ==> apply_changes(g, cs).edges.dom().contains(id),
    decreases cs.len(),
{
    if cs.len() > 0 {
        lemma_changes_keep(g, cs.drop_last());
    }
}

/// A change among `cs` leaves its node or edge id in the graph.
pub proof fn lemma_change_lands(g: GraphView, cs: Seq<GraphChange>, c: GraphChange)
    requires
        cs.contains(c),
    ensures
        match c {
            GraphChange::Node(n) => apply_changes(g, cs).nodes.dom().contains(n.id),
            GraphChange::Edge(e) => apply_changes(g, cs).edges.dom().contains(e.id),
        },
    decreases cs.len(),
{
    if cs.last() != c {
        let k = choose|k: int| 0 <= k < cs.len() && cs[k] == c;
        assert(cs.drop_last()[k] == c);
        lemma_change_lands(g, cs.drop_last(), c);
    }
}

/// The changes of the definitions of one file hold each definition's node
/// and the edge from the file to it.
proof fn lemma_node_changes_hold(path: Seq<char>, ds: Seq<SymbolDefinition>, b: int)
    requires
        0 <= b < ds.len(),
    ensures
        node_changes(path, ds).contains(GraphChange::Node(definition_node(ds[b]@))),
        node_changes(path, ds).contains(
            GraphChange::Edge(definition_edge(file_node_id(path), ds[b].node_id@)),
        ),
    decreases ds.len(),
{
    let prev = node_changes(path, ds.drop_last());
    let tail = seq![
        GraphChange::Node(definition_node(ds.last()@)),
        GraphChange::Edge(definition_edge(file_node_id(path), ds.last().node_id@)),
    ];
    let all = node_changes(path, ds);
    assert(all == prev + tail);
    if b == ds.len() - 1 {
        assert(all[prev.len() as int] == tail[0]);
        assert(all[prev.len() as int + 1] == tail[1]);
    } else {
        assert(ds.drop_last()[b] == ds[b]);
        lemma_node_changes_hold(path, ds.drop_last(), b);
        let k1 = choose|k: int| 0 <= k < prev.len() && prev[k] == GraphChange::Node(definition_node(ds[b]@));
        let k2 = choose|k: int| 0 <= k < prev.len() && prev[k] == GraphChange::Edge(
            definition_edge(file_node_id(path), ds[b].node_id@),
        );
        assert(all[k1] == prev[k1]);
        assert(all[k2] == prev[k2]);
    }
}

/// The definition changes of all files hold each definition's node and the
/// edge from its file to it.
proof fn lemma_definition_changes_hold(rs: Seq<(String, ParseResult)>, a: int, b: int)
    requires
        0 <= a < rs.len(),
        0 <= b < rs[a].1.nodes@.len(),
    ensures
        definition_changes(rs).contains(GraphChange::Node(definition_node(rs[a].1.nodes@[b]@))),
        definition_changes(rs).contains(
            GraphChange::Edge(definition_edge(file_node_id(rs[a].0@), rs[a].1.nodes@[b].node_id@)),
        ),
    decreases rs.len(),
{
    let prev = definition_changes(rs.drop_last());
    let last = node_changes(rs.last().0@, rs.last().1.nodes@);
    let all = definition_changes(rs);
    let cn = GraphChange::Node(definition_node(rs[a].1.nodes@[b]@));
    let ce = GraphChange::Edge(definition_edge(file_node_id(rs[a].0@), rs[a].1.nodes@[b].node_id@));
    assert(all == prev + last);
    if a == rs.len() - 1 {
        lemma_node_changes_hold(rs.last().0@, rs.last().1.nodes@, b);
        let k1 = choose|k: int| 0 <= k < last.len() && last[k] == cn;
        let k2 = choose|k: int| 0 <= k < last.len() && last[k] == ce;
        assert(all[prev.len() as int + k1] == cn);
        assert(all[prev.len() as int + k2] == ce);
    } else {
        assert(rs.drop_last()[a] == rs[a]);
        lemma_definition_changes_hold(rs.drop_last(), a, b);
        let k1 = choose|k: int| 0 <= k < prev.len() && prev[k] == cn;
        let k2 = choose|k: int| 0 <= k < prev.len() && prev[k] == ce;
        assert(all[k1] == cn);
        assert(all[k2] == ce);
    }
}

/// Linking only adds to the graph: every node and edge it held stays, and
/// every definition of every parsed file ends up as a node, with a CONTAINS
/// edge from its file's node.
pub proof fn lemma_linking_adds_definitions(g: GraphView, rs: Seq<(String, ParseResult)>, a: int, b: int)
    requires
        0 <= a < rs.len(),
        0 <= b < rs[a].1.nodes@.len(),
    ensures
        forall|id: Seq<char>| #[trigger] g.nodes.dom().contains(id) ==> apply_changes(g, link_changes(rs)).nodes.dom().contains(id),
        forall|id: Seq<char>| #[trigger] g.edges.dom().contains(id) ==> apply_changes(g, link_changes(rs)).edges.dom().contains(id),
        apply_changes(g, link_changes(rs)).nodes.dom().contains(rs[a].1.nodes@[b].node_id@),
        apply_changes(g, link_changes(rs)).edges.dom().contains(
            spec_edge_id(file_node_id(rs[a].0@), RelationType::Contains, rs[a].1.nodes@[b].node_id@),
        ),
{
    let cs = link_changes(rs);
    lemma_changes_keep(g, cs);
    lemma_definition_changes_hold(rs, a, b);
    let d = definition_changes(rs);
    let rest = edge_changes(imports_of_results(rs).edges) + edge_changes(calls_of_results(rs)) + edge_changes(
        heritage_of_results(rs),
    );
    assert(cs =~= d + rest);
    let cn = GraphChange::Node(definition_node(rs[a].1.nodes@[b]@));
    let ce = GraphChange::Edge(definition_edge(file_node_id(rs[a].0@), rs[a].1.nodes@[b].node_id@));
    let k1 = choose|k: int| 0 <= k < d.len() && d[k] == cn;
    let k2 = choose|k: int| 0 <= k < d.len() && d[k] == ce;
    assert(cs[k1] == cn);
    assert(cs[k2] == ce);
    lemma_change_lands(g, cs, cn);
    lemma_change_lands(g, cs, ce);
}


/// The paths of the File nodes among `ns`, in order.
pub open spec fn file_path_seq(ns: Seq<NodeView>) -> Seq<Seq<char>>
    decreases ns.len(),
{
    if ns.len() == 0 {
        Seq::empty()
    } else if ns.last().label == NodeLabel::File {
        file_path_seq(ns.drop_last()).push(ns.last().file_path)
    } else {
        file_path_seq(ns.drop_last())
    }
}

/// The paths of the store's File nodes, in the order the store keeps them.
fn indexed_paths(store: &GraphStore) -> (r: Vec<String>)
    requires
        store.wf(),
    ensures
        paths_view(r@) == file_path_seq(store.node_list()),
{
    let nodes = store.nodes();
    let ghost nv = nodes@.map_values(|n: GraphNode| n@);
    let mut out: Vec<String> = Vec::new();
    let mut i: usize = 0;
    while i < nodes.len()
        invariant
            i <= nodes@.len(),
            nv == nodes@.map_values(|n: GraphNode| n@),
            paths_view(out@) == file_path_seq(nv.subrange(0, i as int)),
        decreases nodes.len() - i,
    {
        assert(nv.subrange(0, i + 1).drop_last() =~= nv.subrange(0, i as int));
        assert(nv.subrange(0, i + 1).last() == nodes@[i as int]@);
        if nodes[i].label == NodeLabel::File {
            let ghost before = out@;
            out.push(nodes[i].file_path.clone());
            assert(paths_view(out@) =~= paths_view(before).push(nodes@[i as int].file_path@));
        }
        i = i + 1;
    }
    assert(nv.subrange(0, nv.len() as int) =~= nv);
    out
}

/// Positions of one class are positions of hashed files.
proof fn lemma_class_indices_in_range(
    paths: Seq<Seq<char>>,
    hashes: Seq<(usize, u64)>,
    stored: Seq<(Seq<char>, u64)>,
    class: int,
)
    requires
        forall|k: int| 0 <= k < hashes.len() ==> (#[trigger] hashes[k]).0 < paths.len(),
    ensures
        forall|i: int| 0 <= i < indices_of_class(paths, hashes, stored, class).len() ==> #[trigger] indices_of_class(
            paths,
            hashes,
            stored,
            class,
        )[i] < paths.len(),
    decreases hashes.len(),
{
    if hashes.len() > 0 {
        assert forall|k: int| 0 <= k < hashes.drop_last().len() implies (#[trigger] hashes.drop_last()[k]).0 < paths.len() by {
            assert(hashes.drop_last()[k] == hashes[k]);
        }
        lemma_class_indices_in_range(paths, hashes.drop_last(), stored, class);
        assert(hashes[hashes.len() - 1] == hashes.last());
        let r = indices_of_class(paths, hashes.drop_last(), stored, class);
        let all = indices_of_class(paths, hashes, stored, class);
        assert forall|i: int| 0 <= i < all.len() implies #[trigger] all[i] < paths.len() by {
            if i < r.len() {
                assert(all[i] == r[i]);
            } else {
                assert(all[i] == hashes.last().0);
            }
        }
    }
}

/// The change set a run computes: against the previous index when there is
/// one, else every scanned file added.
pub open spec fn run_changes(
    files: Seq<SourceView>,
    hashes: Seq<(usize, u64)>,
    previous: Option<(Seq<(Seq<char>, u64)>, Seq<NodeView>)>,
) -> ChangeSetView {
    match previous {
        Some((stored, nodes)) => spec_changeset(
            files.map_values(|f: SourceView| f.relative_path),
            hashes,
            stored,
            file_path_seq(nodes),
        ),
        None => ChangeSetView {
            added: Seq::new(files.len(), |i: int| i as usize),
            modified: Seq::empty(),
            deleted: Seq::empty(),
            unchanged: Seq::empty(),
        },
    }
}

/// Where an analysis run starts: how the scan compares with the previous
/// index, what the run does about it, and the store it fills.
#[derive(Debug)]
pub struct IndexStart {
    pub changes: ChangeSet,
    pub plan: IndexPlan,
    pub store: GraphStore,
}

/// Start an analysis run over the scanned files `files` of the repository
/// at `root`, given the (position, hash) pairs of the files that could be
/// read and the previous index, if any: with no files the store is empty;
/// when nothing changed the previous index is kept; an incremental run drops
/// the deleted and modified files from it and adds the structure of the new
/// ones; otherwise the structure of every file is built afresh. Each hash is
/// then recorded, except when nothing changed.
pub fn start_index(files: &[SourceFile], root: &str, hashes: &[(usize, u64)], previous: Option<GraphStore>) -> (r: IndexStart)
    requires
        forall|k: int| 0 <= k < hashes@.len() ==> (#[trigger] hashes@[k]).0 < files@.len(),
        previous matches Some(s) ==> s.wf(),
    ensures
        r.store.wf(),
        r.plan is UpToDate <==> files@.len() > 0 && previous is Some && r.changes@.added.len() == 0
            && r.changes@.modified.len() == 0 && r.changes@.deleted.len() == 0,
        files@.len() == 0 ==> r.store@ == empty_graph() && (r.plan matches IndexPlan::Full(v) && v@.len() == 0),
        files@.len() > 0 ==> {
            let fv = files@.map_values(|f: SourceFile| f@);
            let cs = run_changes(
                fv,
                hashes@,
                match previous {
                    Some(s) => Some((s.hash_list(), s.node_list())),
                    None => None,
                },
            );
            &&& r.changes@ == cs
            &&& match r.plan {
                IndexPlan::UpToDate => spec_plan_kind(previous is Some, cs) == 0 && r.store@ == previous->0@,
                IndexPlan::Incremental(v) => spec_plan_kind(previous is Some, cs) == 1 && v@ == cs.added + cs.modified
                    && r.store@ == with_hashes(
                    apply_changes(
                        without_files(
                            without_files(previous->0@, cs.deleted),
                            files_at(fv, cs.modified).map_values(|f: SourceView| f.relative_path),
                        ),
                        structure_changes(root@, files_at(fv, cs.added)),
                    ),
                    fv,
                    hashes@,
                ),
                IndexPlan::Full(v) => spec_plan_kind(previous is Some, cs) == 2 && v@ == Seq::new(
                    files@.len(),
                    |i: int| i as usize,
                ) && r.store@ == with_hashes(apply_changes(empty_graph(), structure_changes(root@, fv)), fv, hashes@),
            }
        },
{
    if files.len() == 0 {
        return IndexStart { changes: changeset_without_index(0), plan: IndexPlan::Full(Vec::new()), store: GraphStore::new() };
    }
    let ghost fv = files@.map_values(|f: SourceFile| f@);
    let mut paths: Vec<String> = Vec::new();
    let mut i: usize = 0;
    while i < files.len()
        invariant
            i <= files@.len(),
            paths_view(paths@) == files@.subrange(0, i as int).map_values(|f: SourceFile| f.relative_path@),
        decreases files.len() - i,
    {
        let ghost before = paths@;
        paths.push(files[i].relative_path.clone());
        assert(paths_view(paths@) =~= paths_view(before).push(files@[i as int].relative_path@));
        assert(files@.subrange(0, i + 1).map_values(|f: SourceFile| f.relative_path@) =~= files@.subrange(0, i as int).map_values(
            |f: SourceFile| f.relative_path@,
        ).push(files@[i as int].relative_path@));
        i = i + 1;
    }
    assert(files@.subrange(0, files@.len() as int) =~= files@);
    assert(fv.map_values(|f: SourceView| f.relative_path) =~= files@.map_values(|f: SourceFile| f.relative_path@));
    let has_index = previous.is_some();
    let changes = match &previous {
        Some(s) => {
            let stored = s.file_hash_list();
            let indexed = indexed_paths(s);
            assert(crate::pipeline::stored_view(stored@) =~= stored@.map_values(|e: (String, u64)| (e.0@, e.1)));
            compute_changeset(paths.as_slice(), hashes, stored.as_slice(), indexed.as_slice())
        },
        None => changeset_without_index(files.len()),
    };
    proof {
        if !has_index {
            assert(changes@.modified =~= Seq::<usize>::empty());
            assert(changes@.deleted =~= Seq::<Seq<char>>::empty());
            assert(changes@.unchanged =~= Seq::<usize>::empty());
        }
        let pv = paths_view(paths@);
        let sl: Seq<(Seq<char>, u64)> = if previous is Some {
            previous->0.hash_list()
        } else {
            Seq::empty()
        };
        lemma_class_indices_in_range(pv, hashes@, sl, 0);
        lemma_class_indices_in_range(pv, hashes@, sl, 1);
    }
    let plan = plan_index(has_index, &changes, files.len());
    match plan {
        IndexPlan::UpToDate => {
            let store = match previous {
                Some(s) => s,
                None => GraphStore::new(),
            };
            IndexStart { changes, plan: IndexPlan::UpToDate, store }
        },
        IndexPlan::Incremental(v) => {
            let mut store = match previous {
                Some(s) => s,
                None => GraphStore::new(),
            };
            update_structure(&mut store, &changes, files, root);
            record_hashes(&mut store, files, hashes);
            IndexStart { changes, plan: IndexPlan::Incremental(v), store }
        },
        IndexPlan::Full(v) => {
            let mut store = GraphStore::new();
            build_structure(files, root, &mut store);
            record_hashes(&mut store, files, hashes);
            IndexStart { changes, plan: IndexPlan::Full(v), store }
        },
    }
}

} // verus!
