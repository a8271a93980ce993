//! The symbol part of a graph diff: the keys by which the symbols of two
//! revisions are matched, the record of how each symbol changed, and the
//! diff-view nodes of the selected symbols.

use vstd::prelude::*;
use vstd::hash_map::StringHashMap;
use crate::text::{chars_of, concat, spec_starts_with, string_of, str_eq};
use crate::types::{NodeLabel, label_name};
use crate::graph::{GraphNode, GraphStore, GraphView, NodeView, PropsView, listed, ids_view, opt_str, opt_strs};
use crate::matching::{KeyedSymbol, KeyedView, SymbolMatch, keyed_views, match_symbol_nodes, match_views, symbol_matches};
use crate::diff::{
    DiffNodeRecord, DiffNodeView, DiffStatus, FileDiffRecord, GraphDiff, MatchKind, SymbolRecord, diff_graphs,
    file_name_or_empty, group_for_label, is_graph_diff, match_kind_name, spec_group_for_label, spec_match_kind_name,
    text_set, texts, diff_node_le, sort_diff_nodes,
};
use crate::types::spec_is_symbol;
use crate::paths::{path_file_name, path_parent_str, spec_parent_or_empty};
use crate::bench::{decimal, decimal_digits};
use crate::export::node_degree;

verus! {

/// The qualified name of a symbol: `container.name` inside a container,
/// else its name.
pub open spec fn qualified_name(n: NodeView) -> Seq<char> {
    match n.props.container_name {
        Some(c) => c + "."@ + n.name,
        None => n.name,
    }
}

/// The line a symbol starts on, 0 when unknown.
pub open spec fn line_of(n: NodeView) -> u32 {
    match n.props.start_line {
        Some(l) => l,
        None => 0,
    }
}

/// The location key of a symbol: its kind, file and start line.
pub open spec fn location_key(n: NodeView) -> Seq<char> {
    label_name(n.label) + "|"@ + n.file_path + "|"@ + decimal(line_of(n) as nat)
}

/// The symbol key of a symbol: its kind and qualified name.
pub open spec fn symbol_key(n: NodeView) -> Seq<char> {
    label_name(n.label) + "|"@ + qualified_name(n)
}

/// The body key of a symbol: its kind and body hash, where it has one.
pub open spec fn body_key(n: NodeView) -> Option<Seq<char>> {
    match n.props.body_hash {
        Some(h) => Some(label_name(n.label) + "::"@ + decimal(h as nat)),
        None => None,
    }
}

/// A symbol with the keys by which it is matched.
pub open spec fn keyed_of(n: NodeView) -> KeyedView {
    KeyedView { id: n.id, location_key: Some(location_key(n)), symbol_key: Some(symbol_key(n)), body_key: body_key(n) }
}

/// The keyed symbols of a list of nodes.
pub open spec fn keyed_nodes(ns: Seq<NodeView>) -> Seq<KeyedView> {
    ns.map_values(|n: NodeView| keyed_of(n))
}

/// The characters of `a`, `sep` and `b`, in order.
fn join3(a: &str, sep: &str, b: &[char]) -> (r: Vec<char>)
    ensures
        r@ == a@ + sep@ + b@,
{
    let x = concat(&chars_of(a), &chars_of(sep));
    concat(&x, b)
}

/// The qualified name of a symbol.
pub fn symbol_qualified_name(n: &GraphNode) -> (r: String)
    ensures
        r@ == qualified_name(n@),
{
    match &n.props.container_name {
        Some(c) => {
            proof {
                reveal_strlit(".");
            }
            string_of(&join3(c.as_str(), ".", &chars_of(n.name.as_str())))
        },
        None => n.name.clone(),
    }
}

/// A symbol with its keys.
pub fn keyed_symbol(n: &GraphNode) -> (r: KeyedSymbol)
    ensures
        r@ == keyed_of(n@),
{
    proof {
        reveal_strlit("|");
        reveal_strlit("::");
    }
    let label = n.label.as_str();
    let line: u32 = match n.props.start_line {
        Some(l) => l,
        None => 0,
    };
    let head = join3(label, "|", &chars_of(n.file_path.as_str()));
    let tail = join3("|", "", &decimal_digits(line as u64));
    let location = string_of(&concat(&head, &tail));
    let qn = symbol_qualified_name(n);
    let symbol = string_of(&join3(label, "|", &chars_of(qn.as_str())));
    let body = match n.props.body_hash {
        Some(h) => Some(string_of(&join3(label, "::", &decimal_digits(h)))),
        None => None,
    };
    proof {
        reveal_strlit("");
    }
    let r = KeyedSymbol { id: n.id.clone(), location_key: Some(location), symbol_key: Some(symbol), body_key: body };
    assert(r@.location_key == Some(location_key(n@)));
    r
}

/// The keyed symbols of a list of nodes.
fn keyed_list(ns: &[GraphNode]) -> (r: Vec<KeyedSymbol>)
    ensures
        keyed_views(r@) == keyed_nodes(ns@.map_values(|n: GraphNode| n@)),
{
    let ghost nv = ns@.map_values(|n: GraphNode| n@);
    let mut out: Vec<KeyedSymbol> = Vec::new();
    let mut i: usize = 0;
    while i < ns.len()
        invariant
            i <= ns@.len(),
            nv == ns@.map_values(|n: GraphNode| n@),
            keyed_views(out@) == keyed_nodes(nv.take(i as int)),
        decreases ns.len() - i,
    {
        let k = keyed_symbol(&ns[i]);
        let ghost before = keyed_views(out@);
        out.push(k);
        assert(keyed_views(out@) =~= before.push(keyed_of(nv[i as int])));
        assert(keyed_nodes(nv.take(i + 1)) =~= keyed_nodes(nv.take(i as int)).push(keyed_of(nv[i as int])));
        i = i + 1;
    }
    assert(nv.take(ns@.len() as int) =~= nv);
    out
}

/// The content of a symbol record.
pub struct RecordView {
    pub canonical_id: Seq<char>,
    pub status: DiffStatus,
    pub match_kind: Option<MatchKind>,
    pub body_changed: bool,
    pub base: Option<NodeView>,
    pub head: Option<NodeView>,
    pub degree: usize,
    pub in_deg: usize,
    pub out_deg: usize,
}

/// The view of an optional node.
pub open spec fn opt_node(n: Option<GraphNode>) -> Option<NodeView> {
    match n {
        Some(x) => Some(x@),
        None => None,
    }
}

/// The content of a record.
pub open spec fn record_view(r: SymbolRecord) -> RecordView {
    RecordView {
        canonical_id: r.canonical_id@,
        status: r.status,
        match_kind: r.match_kind,
        body_changed: r.body_changed,
        base: opt_node(r.base),
        head: opt_node(r.head),
        degree: r.degree,
        in_deg: r.in_deg,
        out_deg: r.out_deg,
    }
}

/// The contents of a list of records.
pub open spec fn records_view(rs: Seq<SymbolRecord>) -> Seq<RecordView> {
    rs.map_values(|r: SymbolRecord| record_view(r))
}

/// Whether a symbol's body or signature changed: its body hash, number of
/// parameters, return type, visibility, async or static marking, or
/// annotations differ.
pub open spec fn body_changed(b: NodeView, h: NodeView) -> bool {
    b.props.body_hash != h.props.body_hash || b.props.parameter_count != h.props.parameter_count
        || b.props.return_type != h.props.return_type || b.props.visibility != h.props.visibility
        || b.props.is_async != h.props.is_async || b.props.is_static != h.props.is_static
        || b.props.annotations != h.props.annotations
}

/// The base id and stage of the first match of the head symbol `id`.
pub open spec fn head_match(m: Seq<(Seq<char>, Seq<char>, MatchKind)>, id: Seq<char>) -> Option<(Seq<char>, MatchKind)>
    decreases m.len(),
{
    if m.len() == 0 {
        None
    } else if m[0].1 == id {
        Some((m[0].0, m[0].2))
    } else {
        head_match(m.drop_first(), id)
    }
}

/// Whether the base symbol `id` is matched.
pub open spec fn base_matched(m: Seq<(Seq<char>, Seq<char>, MatchKind)>, id: Seq<char>) -> bool {
    exists|i: int| 0 <= i < m.len() && #[trigger] m[i].0 == id
}

/// The first node of `ns` with the id `id`.
pub open spec fn node_with_id(ns: Seq<NodeView>, id: Seq<char>) -> Option<NodeView>
    decreases ns.len(),
{
    if ns.len() == 0 {
        None
    } else if ns[0].id == id {
        Some(ns[0])
    } else {
        node_with_id(ns.drop_first(), id)
    }
}

/// The record of a symbol that only the head has.
pub open spec fn added_record(h: NodeView, hg: GraphView) -> RecordView {
    RecordView {
        canonical_id: h.id,
        status: DiffStatus::Added,
        match_kind: None,
        body_changed: false,
        base: None,
        head: Some(h),
        degree: node_degree(hg, h.id) as usize,
        in_deg: listed(hg.incoming, h.id).len() as usize,
        out_deg: listed(hg.outgoing, h.id).len() as usize,
    }
}

/// The record of a head symbol matched with the base symbol `b` by stage
/// `kind`: moved when not matched by location or when its file or qualified
/// name changed, else modified when its body changed, else unchanged.
pub open spec fn matched_record(b: NodeView, h: NodeView, kind: MatchKind, hg: GraphView) -> RecordView {
    let moved = kind != MatchKind::Location || b.file_path != h.file_path || qualified_name(b) != qualified_name(h);
    let changed = body_changed(b, h);
    RecordView {
        canonical_id: h.id,
        status: if moved {
            DiffStatus::Moved
        } else if changed {
            DiffStatus::Modified
        } else {
            DiffStatus::Unchanged
        },
        match_kind: Some(kind),
        body_changed: changed,
        base: Some(b),
        head: Some(h),
        degree: node_degree(hg, h.id) as usize,
        in_deg: listed(hg.incoming, h.id).len() as usize,
        out_deg: listed(hg.outgoing, h.id).len() as usize,
    }
}

/// The record of a head symbol.
pub open spec fn head_record(h: NodeView, base: Seq<NodeView>, m: Seq<(Seq<char>, Seq<char>, MatchKind)>, hg: GraphView) -> RecordView {
    match head_match(m, h.id) {
        Some((bid, kind)) => match node_with_id(base, bid) {
            Some(b) => matched_record(b, h, kind, hg),
            None => added_record(h, hg),
        },
        None => added_record(h, hg),
    }
}

/// The record of a base symbol that no head symbol matched.
pub open spec fn removed_record(b: NodeView, bg: GraphView) -> RecordView {
    RecordView {
        canonical_id: "removed::"@ + b.id,
        status: DiffStatus::Removed,
        match_kind: None,
        body_changed: false,
        base: Some(b),
        head: None,
        degree: node_degree(bg, b.id) as usize,
        in_deg: listed(bg.incoming, b.id).len() as usize,
        out_deg: listed(bg.outgoing, b.id).len() as usize,
    }
}

/// The records of the head symbols `hs`, in order.
pub open spec fn head_records(hs: Seq<NodeView>, base: Seq<NodeView>, m: Seq<(Seq<char>, Seq<char>, MatchKind)>, hg: GraphView) -> Seq<RecordView>
    decreases hs.len(),
{
    if hs.len() == 0 {
        Seq::empty()
    } else {
        head_records(hs.drop_last(), base, m, hg).push(head_record(hs.last(), base, m, hg))
    }
}

/// The records of the base symbols among `bs` that no head symbol matched,
/// in order.
pub open spec fn removed_records(bs: Seq<NodeView>, m: Seq<(Seq<char>, Seq<char>, MatchKind)>, bg: GraphView) -> Seq<RecordView>
    decreases bs.len(),
{
    if bs.len() == 0 {
        Seq::empty()
    } else {
        let prev = removed_records(bs.drop_last(), m, bg);
        if base_matched(m, bs.last().id) {
            prev
        } else {
            prev.push(removed_record(bs.last(), bg))
        }
    }
}

/// How the symbols of two revisions compare: the head symbols in order,
/// each matched (by location, then symbol key, then body) or added, then
/// the unmatched base symbols in order, removed.
pub open spec fn spec_diff_symbols(base: Seq<NodeView>, bg: GraphView, head: Seq<NodeView>, hg: GraphView) -> Seq<RecordView> {
    let m = symbol_matches(keyed_nodes(base), keyed_nodes(head));
    head_records(head, base, m, hg) + removed_records(base, m, bg)
}

/// The status a diff record must carry: added when only the head has the
/// symbol, removed when only the base has it; for a matched pair, moved when
/// the match was not by location or the file or qualified name changed,
/// else modified when the body hash, parameter count, return type,
/// visibility, async or static flag, or annotations changed, else unchanged.
pub open spec fn status_fits(r: RecordView) -> bool {
    match (r.base, r.head) {
        (None, Some(_)) => r.status == DiffStatus::Added,
        (Some(_), None) => r.status == DiffStatus::Removed,
        (Some(b), Some(h)) => {
            let moved = r.match_kind != Some(MatchKind::Location) || b.file_path != h.file_path || qualified_name(b)
                != qualified_name(h);
            let body = b.props.body_hash != h.props.body_hash || b.props.parameter_count != h.props.parameter_count
                || b.props.return_type != h.props.return_type || b.props.visibility != h.props.visibility
                || b.props.is_async != h.props.is_async || b.props.is_static != h.props.is_static
                || b.props.annotations != h.props.annotations;
            r.status == if moved {
                DiffStatus::Moved
            } else if body {
                DiffStatus::Modified
            } else {
                DiffStatus::Unchanged
            }
        },
        (None, None) => false,
    }
}

proof fn lemma_head_records_fit(hs: Seq<NodeView>, base: Seq<NodeView>, m: Seq<(Seq<char>, Seq<char>, MatchKind)>, hg: GraphView)
    ensures
        forall|i: int| 0 <= i < head_records(hs, base, m, hg).len() ==> status_fits(#[trigger] head_records(hs, base, m, hg)[i]),
    decreases hs.len(),
{
    if hs.len() > 0 {
        lemma_head_records_fit(hs.drop_last(), base, m, hg);
        let prev = head_records(hs.drop_last(), base, m, hg);
        let r = head_records(hs, base, m, hg);
        assert(status_fits(head_record(hs.last(), base, m, hg)));
        assert forall|i: int| 0 <= i < r.len() implies status_fits(#[trigger] r[i]) by {
            if i < prev.len() {
                assert(r[i] == prev[i]);
            }
        }
    }
}

proof fn lemma_removed_records_fit(bs: Seq<NodeView>, m: Seq<(Seq<char>, Seq<char>, MatchKind)>, bg: GraphView)
    ensures
        forall|i: int| 0 <= i < removed_records(bs, m, bg).len() ==> status_fits(#[trigger] removed_records(bs, m, bg)[i]),
    decreases bs.len(),
{
    if bs.len() > 0 {
        lemma_removed_records_fit(bs.drop_last(), m, bg);
        let prev = removed_records(bs.drop_last(), m, bg);
        let r = removed_records(bs, m, bg);
        assert forall|i: int| 0 <= i < r.len() implies status_fits(#[trigger] r[i]) by {
            if i < prev.len() {
                assert(r[i] == prev[i]);
            }
        }
    }
}

/// Every record of a symbol diff carries the status its base and head
/// symbols call for (see `status_fits`).
pub proof fn lemma_diff_status_law(base: Seq<NodeView>, bg: GraphView, head: Seq<NodeView>, hg: GraphView)
    ensures
        forall|i: int|
            0 <= i < spec_diff_symbols(base, bg, head, hg).len() ==> status_fits(#[trigger] spec_diff_symbols(base, bg, head, hg)[i]),
{
    let m = symbol_matches(keyed_nodes(base), keyed_nodes(head));
    let hr = head_records(head, base, m, hg);
    let rr = removed_records(base, m, bg);
    lemma_head_records_fit(head, base, m, hg);
    lemma_removed_records_fit(base, m, bg);
    let r = hr + rr;
    assert forall|i: int| 0 <= i < r.len() implies status_fits(#[trigger] r[i]) by {
        if i < hr.len() {
            assert(r[i] == hr[i]);
        } else {
            assert(r[i] == rr[i - hr.len()]);
        }
    }
}

/// Equality of two optional strings.
fn opt_text_eq(a: &Option<String>, b: &Option<String>) -> (r: bool)
    ensures
        r == (opt_str(*a) == opt_str(*b)),
{
    match (a, b) {
        (Some(x), Some(y)) => str_eq(x.as_str(), y.as_str()),
        (None, None) => true,
        _ => false,
    }
}

/// Equality of two optional lists of strings.
fn opt_texts_eq(a: &Option<Vec<String>>, b: &Option<Vec<String>>) -> (r: bool)
    ensures
        r == (opt_strs(*a) == opt_strs(*b)),
{
    match (a, b) {
        (Some(x), Some(y)) => {
            if x.len() != y.len() {
                assert(ids_view(x@).len() != ids_view(y@).len());
                return false;
            }
            assert(opt_strs(*a) == Some(ids_view(x@)));
            assert(opt_strs(*b) == Some(ids_view(y@)));
            let mut i: usize = 0;
            while i < x.len()
                invariant
                    i <= x@.len(),
                    x@.len() == y@.len(),
                    opt_strs(*a) == Some(ids_view(x@)),
                    opt_strs(*b) == Some(ids_view(y@)),
                    forall|k: int| 0 <= k < i ==> x@[k]@ == y@[k]@,
                decreases x.len() - i,
            {
                if !str_eq(x[i].as_str(), y[i].as_str()) {
                    assert(ids_view(x@)[i as int] != ids_view(y@)[i as int]);
                    assert(opt_strs(*a) == Some(ids_view(x@)));
                    assert(opt_strs(*b) == Some(ids_view(y@)));
                    assert(ids_view(x@) != ids_view(y@));
                    return false;
                }
                i = i + 1;
            }
            assert(ids_view(x@) =~= ids_view(y@));
            true
        },
        (None, None) => true,
        _ => false,
    }
}

/// Whether a symbol's body or signature changed.
fn symbol_body_changed(b: &GraphNode, h: &GraphNode) -> (r: bool)
    ensures
        r == body_changed(b@, h@),
{
    b.props.body_hash != h.props.body_hash || b.props.parameter_count != h.props.parameter_count
        || !opt_text_eq(&b.props.return_type, &h.props.return_type) || !opt_text_eq(
        &b.props.visibility,
        &h.props.visibility,
    ) || b.props.is_async != h.props.is_async || b.props.is_static != h.props.is_static || !opt_texts_eq(
        &b.props.annotations,
        &h.props.annotations,
    )
}

/// The record built from a node's view and degrees in `store`.
fn degrees_of(store: &GraphStore, id: &str) -> (r: (usize, usize, usize))
    requires
        store.wf(),
        forall|x: Seq<char>| #[trigger] node_degree(store@, x) <= usize::MAX,
    ensures
        r.0 == node_degree(store@, id@) as usize,
        r.1 == listed(store@.incoming, id@).len() as usize,
        r.2 == listed(store@.outgoing, id@).len() as usize,
{
    let i = store.in_degree(id);
    let o = store.out_degree(id);
    assert(node_degree(store@, id@) <= usize::MAX);
    (o + i, i, o)
}

/// The base id and stage of the first match of head symbol `id`.
fn find_head_match(m: &Vec<SymbolMatch>, id: &str) -> (r: Option<(usize, MatchKind)>)
    ensures
        match r {
            Some((k, kind)) => k < m@.len() && head_match(match_views(m@), id@) == Some((m@[k as int].base_id@, kind)),
            None => head_match(match_views(m@), id@) is None,
        },
{
    let ghost mv = match_views(m@);
    assert(mv.skip(0) =~= mv);
    let mut i: usize = 0;
    while i < m.len()
        invariant
            i <= m@.len(),
            mv == match_views(m@),
            head_match(mv, id@) == head_match(mv.skip(i as int), id@),
        decreases m.len() - i,
    {
        assert(mv.skip(i as int)[0] == m@[i as int]@);
        if str_eq(m[i].head_id.as_str(), id) {
            return Some((i, m[i].kind));
        }
        assert(mv.skip(i as int).drop_first() =~= mv.skip(i + 1));
        i = i + 1;
    }
    None
}

/// The position of the first node of `ns` with the id `id`.
fn find_node(ns: &[GraphNode], id: &str) -> (r: Option<usize>)
    ensures
        match r {
            Some(k) => k < ns@.len() && node_with_id(ns@.map_values(|n: GraphNode| n@), id@) == Some(ns@[k as int]@),
            None => node_with_id(ns@.map_values(|n: GraphNode| n@), id@) is None,
        },
{
    let ghost nv = ns@.map_values(|n: GraphNode| n@);
    assert(nv.skip(0) =~= nv);
    let mut i: usize = 0;
    while i < ns.len()
        invariant
            i <= ns@.len(),
            nv == ns@.map_values(|n: GraphNode| n@),
            node_with_id(nv, id@) == node_with_id(nv.skip(i as int), id@),
        decreases ns.len() - i,
    {
        assert(nv.skip(i as int)[0] == ns@[i as int]@);
        if str_eq(ns[i].id.as_str(), id) {
            return Some(i);
        }
        assert(nv.skip(i as int).drop_first() =~= nv.skip(i + 1));
        i = i + 1;
    }
    None
}

/// Whether some match has the base id `id`.
fn base_is_matched(m: &Vec<SymbolMatch>, id: &str) -> (r: bool)
    ensures
        r == base_matched(match_views(m@), id@),
{
    let ghost mv = match_views(m@);
    let mut i: usize = 0;
    while i < m.len()
        invariant
            i <= m@.len(),
            mv == match_views(m@),
            forall|k: int| 0 <= k < i ==> #[trigger] mv[k].0 != id@,
        decreases m.len() - i,
    {
        assert(mv[i as int] == m@[i as int]@);
        if str_eq(m[i].base_id.as_str(), id) {
            assert(mv[i as int].0 == id@);
            return true;
        }
        i = i + 1;
    }
    false
}

/// How the symbols of two revisions compare. The head symbols come first, in
/// order: each matched with a base symbol (by location, then by symbol key,
/// then by body) is moved when it was not matched by location or its file or
/// qualified name changed, else modified when its body or signature changed,
/// else unchanged; an unmatched one is added. Then the base symbols that no
/// head symbol matched, in order, are removed, under the id `removed::id`.
/// Degrees are taken in the revision the record's node comes from (the head
/// where it has one).
pub fn diff_symbols(base_symbols: &[GraphNode], base_store: &GraphStore, head_symbols: &[GraphNode], head_store: &GraphStore) -> (r: Vec<SymbolRecord>)
    requires
        base_store.wf(),
        head_store.wf(),
        forall|x: Seq<char>| #[trigger] node_degree(base_store@, x) <= usize::MAX,
        forall|x: Seq<char>| #[trigger] node_degree(head_store@, x) <= usize::MAX,
    ensures
        records_view(r@) == spec_diff_symbols(
            base_symbols@.map_values(|n: GraphNode| n@),
            base_store@,
            head_symbols@.map_values(|n: GraphNode| n@),
            head_store@,
        ),
{
    let ghost bv = base_symbols@.map_values(|n: GraphNode| n@);
    let ghost hv = head_symbols@.map_values(|n: GraphNode| n@);
    let bk = keyed_list(base_symbols);
    let hk = keyed_list(head_symbols);
    let matches = match_symbol_nodes(&bk, &hk);
    let ghost m = match_views(matches@);
    assert(m == symbol_matches(keyed_nodes(bv), keyed_nodes(hv)));
    let mut out: Vec<SymbolRecord> = Vec::new();
    let mut i: usize = 0;
    while i < head_symbols.len()
        invariant
            i <= head_symbols@.len(),
            head_store.wf(),
            forall|x: Seq<char>| #[trigger] node_degree(head_store@, x) <= usize::MAX,
            hv == head_symbols@.map_values(|n: GraphNode| n@),
            bv == base_symbols@.map_values(|n: GraphNode| n@),
            m == match_views(matches@),
            records_view(out@) == head_records(hv.take(i as int), bv, m, head_store@),
        decreases head_symbols.len() - i,
    {
        let h = &head_symbols[i];
        let (degree, in_deg, out_deg) = degrees_of(head_store, h.id.as_str());
        let rec = match find_head_match(&matches, h.id.as_str()) {
            Some((k, kind)) => match find_node(base_symbols, matches[k].base_id.as_str()) {
                Some(bi) => {
                    let b = &base_symbols[bi];
                    let moved = !matches!(kind, MatchKind::Location) || !str_eq(b.file_path.as_str(), h.file_path.as_str())
                        || !str_eq(symbol_qualified_name(b).as_str(), symbol_qualified_name(h).as_str());
                    let changed = symbol_body_changed(b, h);
                    let status = if moved {
                        DiffStatus::Moved
                    } else if changed {
                        DiffStatus::Modified
                    } else {
                        DiffStatus::Unchanged
                    };
                    SymbolRecord {
                        canonical_id: h.id.clone(),
                        status,
                        match_kind: Some(kind),
                        body_changed: changed,
                        base: Some(b.duplicate()),
                        head: Some(h.duplicate()),
                        degree,
                        in_deg,
                        out_deg,
                    }
                },
                None => SymbolRecord {
                    canonical_id: h.id.clone(),
                    status: DiffStatus::Added,
                    match_kind: None,
                    body_changed: false,
                    base: None,
                    head: Some(h.duplicate()),
                    degree,
                    in_deg,
                    out_deg,
                },
            },
            None => SymbolRecord {
                canonical_id: h.id.clone(),
                status: DiffStatus::Added,
                match_kind: None,
                body_changed: false,
                base: None,
                head: Some(h.duplicate()),
                degree,
                in_deg,
                out_deg,
            },
        };
        assert(record_view(rec) == head_record(hv[i as int], bv, m, head_store@));
        let ghost before = records_view(out@);
        out.push(rec);
        assert(records_view(out@) =~= before.push(record_view(rec)));
        assert(hv.take(i + 1).drop_last() =~= hv.take(i as int));
        i = i + 1;
    }
    assert(hv.take(head_symbols@.len() as int) =~= hv);
    let ghost head_part = records_view(out@);
    let mut j: usize = 0;
    while j < base_symbols.len()
        invariant
            j <= base_symbols@.len(),
            base_store.wf(),
            forall|x: Seq<char>| #[trigger] node_degree(base_store@, x) <= usize::MAX,
            bv == base_symbols@.map_values(|n: GraphNode| n@),
            m == match_views(matches@),
            records_view(out@) == head_part + removed_records(bv.take(j as int), m, base_store@),
        decreases base_symbols.len() - j,
    {
        let b = &base_symbols[j];
        assert(bv.take(j + 1).drop_last() =~= bv.take(j as int));
        assert(bv.take(j + 1).last() == b@);
        if !base_is_matched(&matches, b.id.as_str()) {
            let (degree, in_deg, out_deg) = degrees_of(base_store, b.id.as_str());
            proof {
                reveal_strlit("removed::");
            }
            let cid = string_of(&concat(&chars_of("removed::"), &chars_of(b.id.as_str())));
            let rec = SymbolRecord {
                canonical_id: cid,
                status: DiffStatus::Removed,
                match_kind: None,
                body_changed: false,
                base: Some(b.duplicate()),
                head: None,
                degree,
                in_deg,
                out_deg,
            };
            assert(record_view(rec) == removed_record(b@, base_store@));
            let ghost before = records_view(out@);
            out.push(rec);
            assert(records_view(out@) =~= before.push(record_view(rec)));
        }
        j = j + 1;
    }
    assert(bv.take(base_symbols@.len() as int) =~= bv);
    out
}

/// The node a record is drawn from: its head node where it has one, else
/// its base node.
pub open spec fn primary_node(r: RecordView) -> NodeView {
    match r.head {
        Some(h) => h,
        None => r.base->0,
    }
}

/// A text, or the empty text.
pub open spec fn text_or_empty(o: Option<Seq<char>>) -> Seq<char> {
    match o {
        Some(t) => t,
        None => Seq::empty(),
    }
}

/// The status of the file `p` in the file diff, unchanged when it is not
/// listed.
pub open spec fn file_status_of(fs: Map<Seq<char>, DiffStatus>, p: Seq<char>) -> DiffStatus {
    if fs.contains_key(p) {
        fs[p]
    } else {
        DiffStatus::Unchanged
    }
}

/// The diff-view node of a symbol record.
pub open spec fn symbol_node_view(r: RecordView, fs: Map<Seq<char>, DiffStatus>) -> DiffNodeView {
    let p = primary_node(r);
    DiffNodeView {
        id: r.canonical_id,
        name: p.name,
        label: label_name(p.label),
        file: p.file_path,
        file_name: file_name_or_empty(p.file_path),
        folder: spec_parent_or_empty(p.file_path),
        line: line_of(p),
        base_file: match r.base {
            Some(b) => Some(b.file_path),
            None => None,
        },
        base_line: match r.base {
            Some(b) => b.props.start_line,
            None => None,
        },
        head_file: match r.head {
            Some(h) => Some(h.file_path),
            None => None,
        },
        head_line: match r.head {
            Some(h) => h.props.start_line,
            None => None,
        },
        status: r.status,
        layer: if r.head is Some { "head"@ } else { "base"@ },
        group: spec_group_for_label(p.label),
        degree: r.degree,
        in_deg: r.in_deg,
        out_deg: r.out_deg,
        return_type: text_or_empty(p.props.return_type),
        is_async: p.props.is_async,
        container_name: text_or_empty(p.props.container_name),
        qualified_name: qualified_name(p),
        body_changed: r.body_changed,
        file_changed: file_status_of(fs, p.file_path) != DiffStatus::Unchanged,
        match_kind: match r.match_kind {
            Some(k) => Some(spec_match_kind_name(k)),
            None => None,
        },
    }
}

/// The diff-view nodes of the selected records, in order.
pub open spec fn spec_symbol_nodes(selected: Set<Seq<char>>, rs: Seq<RecordView>, fs: Map<Seq<char>, DiffStatus>) -> Seq<DiffNodeView>
    decreases rs.len(),
{
    if rs.len() == 0 {
        Seq::empty()
    } else {
        let prev = spec_symbol_nodes(selected, rs.drop_last(), fs);
        if selected.contains(rs.last().canonical_id) {
            prev.push(symbol_node_view(rs.last(), fs))
        } else {
            prev
        }
    }
}

fn text_or_new(o: &Option<String>) -> (r: String)
    ensures
        r@ == text_or_empty(opt_str(*o)),
{
    match o {
        Some(t) => t.clone(),
        None => String::new(),
    }
}

/// The diff-view node of one record.
fn symbol_node_record(r: &SymbolRecord, file_status: &StringHashMap<DiffStatus>) -> (n: DiffNodeRecord)
    requires
        r.head is Some || r.base is Some,
    ensures
        n@ == symbol_node_view(record_view(*r), file_status@),
{
    let p: &GraphNode = if r.head.is_some() {
        r.head.as_ref().unwrap()
    } else {
        r.base.as_ref().unwrap()
    };
    let file_name = match path_file_name(p.file_path.as_str()) {
        Some(n) => n,
        None => String::new(),
    };
    let folder = match path_parent_str(p.file_path.as_str()) {
        Some(d) => d,
        None => String::new(),
    };
    let fstatus = match file_status.get(p.file_path.as_str()) {
        Some(s) => *s,
        None => DiffStatus::Unchanged,
    };
    proof {
        reveal_strlit("head");
        reveal_strlit("base");
    }
    let n = DiffNodeRecord {
        id: r.canonical_id.clone(),
        name: p.name.clone(),
        label: p.label.as_str().to_owned(),
        file: p.file_path.clone(),
        file_name,
        folder,
        line: match p.props.start_line {
            Some(l) => l,
            None => 0,
        },
        base_file: match &r.base {
            Some(b) => Some(b.file_path.clone()),
            None => None,
        },
        base_line: match &r.base {
            Some(b) => b.props.start_line,
            None => None,
        },
        head_file: match &r.head {
            Some(h) => Some(h.file_path.clone()),
            None => None,
        },
        head_line: match &r.head {
            Some(h) => h.props.start_line,
            None => None,
        },
        status: r.status,
        layer: if r.head.is_some() { "head".to_owned() } else { "base".to_owned() },
        group: group_for_label(p.label),
        degree: r.degree,
        in_deg: r.in_deg,
        out_deg: r.out_deg,
        return_type: text_or_new(&p.props.return_type),
        is_async: p.props.is_async,
        container_name: text_or_new(&p.props.container_name),
        qualified_name: symbol_qualified_name(p),
        body_changed: r.body_changed,
        file_changed: fstatus.is_changed(),
        match_kind: match r.match_kind {
            Some(k) => Some(match_kind_name(k).to_owned()),
            None => None,
        },
    };
    assert(n@ == symbol_node_view(record_view(*r), file_status@));
    n
}

/// The diff-view nodes of the records whose canonical ids are selected, in
/// order: each drawn from its head node where it has one, else its base
/// node, with its file changed where the file diff lists its file as changed.
pub fn build_symbol_nodes(
    selected: &StringHashMap<()>,
    records: &[SymbolRecord],
    file_status: &StringHashMap<DiffStatus>,
) -> (r: Vec<DiffNodeRecord>)
    requires
        forall|i: int| 0 <= i < records@.len() && selected@.dom().contains(#[trigger] records@[i].canonical_id@)
            ==> records@[i].head is Some || records@[i].base is Some,
    ensures
        r@.map_values(|n: DiffNodeRecord| n@) == spec_symbol_nodes(selected@.dom(), records_view(records@), file_status@),
{
    let ghost rv = records_view(records@);
    let mut out: Vec<DiffNodeRecord> = Vec::new();
    let mut i: usize = 0;
    while i < records.len()
        invariant
            i <= records@.len(),
            rv == records_view(records@),
            forall|k: int| 0 <= k < records@.len() && selected@.dom().contains(#[trigger] records@[k].canonical_id@)
                ==> records@[k].head is Some || records@[k].base is Some,
            out@.map_values(|n: DiffNodeRecord| n@) == spec_symbol_nodes(selected@.dom(), rv.take(i as int), file_status@),
        decreases records.len() - i,
    {
        let rec = &records[i];
        assert(rv.take(i + 1).drop_last() =~= rv.take(i as int));
        assert(rv.take(i + 1).last() == record_view(*rec));
        if selected.contains_key(rec.canonical_id.as_str()) {
            let n = symbol_node_record(rec, file_status);
            let ghost before = out@.map_values(|n: DiffNodeRecord| n@);
            out.push(n);
            assert(out@.map_values(|n: DiffNodeRecord| n@) =~= before.push(n@));
        }
        i = i + 1;
    }
    assert(rv.take(records@.len() as int) =~= rv);
    out
}

/// The symbol nodes among `ns`, in order.
pub open spec fn symbols_of(ns: Seq<NodeView>) -> Seq<NodeView>
    decreases ns.len(),
{
    if ns.len() == 0 {
        Seq::empty()
    } else if spec_is_symbol(ns.last().label) {
        symbols_of(ns.drop_last()).push(ns.last())
    } else {
        symbols_of(ns.drop_last())
    }
}

/// The status of each file of a file diff, by path (a later entry wins).
pub open spec fn file_statuses(fs: Seq<FileDiffRecord>) -> Map<Seq<char>, DiffStatus>
    decreases fs.len(),
{
    if fs.len() == 0 {
        Map::empty()
    } else {
        file_statuses(fs.drop_last()).insert(fs.last().path@, fs.last().status)
    }
}

/// Every record of a symbol diff has a node in one revision at least.
proof fn lemma_records_have_nodes(base: Seq<NodeView>, bg: GraphView, head: Seq<NodeView>, hg: GraphView)
    ensures
        forall|i: int| 0 <= i < spec_diff_symbols(base, bg, head, hg).len() ==> (#[trigger] spec_diff_symbols(
            base,
            bg,
            head,
            hg,
        )[i]).head is Some || spec_diff_symbols(base, bg, head, hg)[i].base is Some,
{
    let m = symbol_matches(keyed_nodes(base), keyed_nodes(head));
    lemma_head_records_have_heads(head, base, m, hg);
    lemma_removed_records_have_bases(base, m, bg);
    let hr = head_records(head, base, m, hg);
    let rr = removed_records(base, m, bg);
    assert forall|i: int| 0 <= i < (hr + rr).len() implies (#[trigger] (hr + rr)[i]).head is Some || (hr + rr)[i].base is Some by {
        if i < hr.len() {
            assert((hr + rr)[i] == hr[i]);
        } else {
            assert((hr + rr)[i] == rr[i - hr.len()]);
        }
    }
}

proof fn lemma_head_records_have_heads(hs: Seq<NodeView>, base: Seq<NodeView>, m: Seq<(Seq<char>, Seq<char>, MatchKind)>, hg: GraphView)
    ensures
        forall|i: int| 0 <= i < head_records(hs, base, m, hg).len() ==> (#[trigger] head_records(hs, base, m, hg)[i]).head is Some,
    decreases hs.len(),
{
    if hs.len() > 0 {
        lemma_head_records_have_heads(hs.drop_last(), base, m, hg);
    }
}

proof fn lemma_removed_records_have_bases(bs: Seq<NodeView>, m: Seq<(Seq<char>, Seq<char>, MatchKind)>, bg: GraphView)
    ensures
        forall|i: int| 0 <= i < removed_records(bs, m, bg).len() ==> (#[trigger] removed_records(bs, m, bg)[i]).base is Some,
    decreases bs.len(),
{
    if bs.len() > 0 {
        lemma_removed_records_have_bases(bs.drop_last(), m, bg);
    }
}

/// The symbol nodes of a store, in the order it keeps its nodes.
fn store_symbols(store: &GraphStore) -> (r: Vec<GraphNode>)
    requires
        store.wf(),
    ensures
        r@.map_values(|n: GraphNode| n@) == symbols_of(store.node_list()),
{
    let nodes = store.nodes();
    let ghost nv = store.node_list();
    let mut out: Vec<GraphNode> = Vec::new();
    let mut i: usize = 0;
    while i < nodes.len()
        invariant
            i <= nodes@.len(),
            nv == store.node_list(),
            nodes@.map_values(|n: GraphNode| n@) == nv,
            out@.map_values(|n: GraphNode| n@) == symbols_of(nv.take(i as int)),
        decreases nodes.len() - i,
    {
        assert(nv.take(i + 1).drop_last() =~= nv.take(i as int));
        assert(nv.take(i + 1).last() == nodes@[i as int]@);
        if nodes[i].label.is_symbol() {
            let ghost before = out@.map_values(|n: GraphNode| n@);
            out.push(nodes[i].duplicate());
            assert(out@.map_values(|n: GraphNode| n@) =~= before.push(nodes@[i as int]@));
        }
        i = i + 1;
    }
    assert(nv.take(nodes@.len() as int) =~= nv);
    out
}

/// The status of each file of a file diff, by path.
fn status_map(files: &Vec<FileDiffRecord>) -> (m: StringHashMap<DiffStatus>)
    ensures
        m@ == file_statuses(files@),
{
    let mut m: StringHashMap<DiffStatus> = StringHashMap::new();
    let mut i: usize = 0;
    while i < files.len()
        invariant
            i <= files@.len(),
            m@ == file_statuses(files@.take(i as int)),
        decreases files.len() - i,
    {
        m.insert(files[i].path.clone(), files[i].status);
        assert(files@.take(i + 1).drop_last() =~= files@.take(i as int));
        i = i + 1;
    }
    assert(files@.take(files@.len() as int) =~= files@);
    m
}

/// A graph diff with its symbol records and the diff-view nodes of its
/// selected symbols.
pub struct DiffData {
    pub diff: GraphDiff,
    pub records: Vec<SymbolRecord>,
    pub symbol_nodes: Vec<DiffNodeRecord>,
    /// The file nodes and the symbol nodes together, by label, then name.
    pub nodes: Vec<DiffNodeRecord>,
}

/// The diff of two revisions' graphs: the symbols of each store are matched
/// and compared, the graphs are diffed with those records (at most `limit`
/// symbols shown, 2000 when no limit is given), and the selected symbols
/// become diff-view nodes.
pub fn build_diff_data(
    base_ref: &str,
    base_store: &GraphStore,
    head_ref: &str,
    head_store: &GraphStore,
    limit: Option<usize>,
) -> (r: DiffData)
    requires
        base_store.wf(),
        head_store.wf(),
        forall|id: Seq<char>| #[trigger] node_degree(base_store@, id) <= usize::MAX,
        forall|id: Seq<char>| #[trigger] node_degree(head_store@, id) <= usize::MAX,
    ensures
        records_view(r.records@) == spec_diff_symbols(
            symbols_of(base_store.node_list()),
            base_store@,
            symbols_of(head_store.node_list()),
            head_store@,
        ),
        is_graph_diff(r.diff, base_ref@, *base_store, head_ref@, *head_store, r.records@, limit),
        r.symbol_nodes@.map_values(|n: DiffNodeRecord| n@) == spec_symbol_nodes(
            texts(r.diff.symbol_ids@).to_set(),
            records_view(r.records@),
            file_statuses(r.diff.files@),
        ),
        r.nodes@.map_values(|n: DiffNodeRecord| n@).to_multiset() == (r.diff.file_nodes@.map_values(
            |n: DiffNodeRecord| n@,
        ) + r.symbol_nodes@.map_values(|n: DiffNodeRecord| n@)).to_multiset(),
        forall|i: int, j: int| 0 <= i < j < r.nodes@.len() ==> diff_node_le(#[trigger] r.nodes@[i]@, #[trigger] r.nodes@[j]@),
{
    let base_symbols = store_symbols(base_store);
    let head_symbols = store_symbols(head_store);
    let records = diff_symbols(base_symbols.as_slice(), base_store, head_symbols.as_slice(), head_store);
    let diff = diff_graphs(base_ref, base_store, head_ref, head_store, records.as_slice(), limit);
    let selected = text_set(&diff.symbol_ids);
    let statuses = status_map(&diff.files);
    proof {
        lemma_records_have_nodes(
            symbols_of(base_store.node_list()),
            base_store@,
            symbols_of(head_store.node_list()),
            head_store@,
        );
        assert forall|i: int| 0 <= i < records@.len() && selected@.dom().contains(#[trigger] records@[i].canonical_id@)
            implies records@[i].head is Some || records@[i].base is Some by {
            assert(records_view(records@)[i] == record_view(records@[i]));
        }
        assert(selected@.dom() =~= texts(diff.symbol_ids@).to_set());
    }
    let symbol_nodes = build_symbol_nodes(&selected, records.as_slice(), &statuses);
    let nodes = all_diff_nodes(&diff.file_nodes, &symbol_nodes);
    DiffData { diff, records, symbol_nodes, nodes }
}

/// The file nodes, then the symbol nodes, of a diff, sorted by label, then
/// name.
fn all_diff_nodes(file_nodes: &Vec<DiffNodeRecord>, symbol_nodes: &Vec<DiffNodeRecord>) -> (r: Vec<DiffNodeRecord>)
    ensures
        r@.map_values(|n: DiffNodeRecord| n@).to_multiset() == (file_nodes@.map_values(|n: DiffNodeRecord| n@)
            + symbol_nodes@.map_values(|n: DiffNodeRecord| n@)).to_multiset(),
        forall|i: int, j: int| 0 <= i < j < r@.len() ==> diff_node_le(#[trigger] r@[i]@, #[trigger] r@[j]@),
{
    let ghost fv = file_nodes@.map_values(|n: DiffNodeRecord| n@);
    let ghost sv = symbol_nodes@.map_values(|n: DiffNodeRecord| n@);
    let mut out: Vec<DiffNodeRecord> = Vec::new();
    let mut i: usize = 0;
    while i < file_nodes.len()
        invariant
            i <= file_nodes@.len(),
            fv == file_nodes@.map_values(|n: DiffNodeRecord| n@),
            out@.map_values(|n: DiffNodeRecord| n@) == fv.subrange(0, i as int),
        decreases file_nodes.len() - i,
    {
        let ghost b = out@.map_values(|n: DiffNodeRecord| n@);
        let d = file_nodes[i].duplicate();
        out.push(d);
        assert(out@.map_values(|n: DiffNodeRecord| n@) =~= b.push(fv[i as int]));
        assert(out@.map_values(|n: DiffNodeRecord| n@) =~= fv.subrange(0, i + 1));
        i = i + 1;
    }
    let mut j: usize = 0;
    while j < symbol_nodes.len()
        invariant
            j <= symbol_nodes@.len(),
            fv == file_nodes@.map_values(|n: DiffNodeRecord| n@),
            sv == symbol_nodes@.map_values(|n: DiffNodeRecord| n@),
            out@.map_values(|n: DiffNodeRecord| n@) == fv + sv.subrange(0, j as int),
        decreases symbol_nodes.len() - j,
    {
        let ghost b = out@.map_values(|n: DiffNodeRecord| n@);
        let d = symbol_nodes[j].duplicate();
        out.push(d);
        assert(out@.map_values(|n: DiffNodeRecord| n@) =~= b.push(sv[j as int]));
        assert(out@.map_values(|n: DiffNodeRecord| n@) =~= fv + sv.subrange(0, j + 1));
        j = j + 1;
    }
    assert(fv.subrange(0, fv.len() as int) =~= fv);
    assert(sv.subrange(0, sv.len() as int) =~= sv);
    sort_diff_nodes(&mut out);
    out
}


/// How many records of `rs` have the status `st`.
pub open spec fn records_with(rs: Seq<RecordView>, st: DiffStatus) -> nat
    decreases rs.len(),
{
    if rs.len() == 0 {
        0
    } else {
        records_with(rs.drop_last(), st) + if rs.last().status == st {
            1nat
        } else {
            0nat
        }
    }
}

/// The ids of a list of nodes.
pub open spec fn node_ids(ns: Seq<NodeView>) -> Seq<Seq<char>> {
    ns.map_values(|n: NodeView| n.id)
}

/// How many of the ids `s` occur in `k`.
pub open spec fn count_in(s: Seq<Seq<char>>, k: Seq<Seq<char>>) -> nat
    decreases s.len(),
{
    if s.len() == 0 {
        0
    } else {
        count_in(s.drop_last(), k) + if k.contains(s.last()) {
            1nat
        } else {
            0nat
        }
    }
}

proof fn lemma_count_in_same(s: Seq<Seq<char>>, k: Seq<Seq<char>>, k2: Seq<Seq<char>>)
    requires
        forall|i: int| 0 <= i < s.len() ==> (k.contains(#[trigger] s[i]) <==> k2.contains(s[i])),
    ensures
        count_in(s, k) == count_in(s, k2),
    decreases s.len(),
{
    if s.len() > 0 {
        assert forall|i: int| 0 <= i < s.drop_last().len() implies (k.contains(#[trigger] s.drop_last()[i]) <==> k2.contains(
            s.drop_last()[i],
        )) by {
            assert(s.drop_last()[i] == s[i]);
        }
        lemma_count_in_same(s.drop_last(), k, k2);
        assert(s[s.len() - 1] == s.last());
    }
}

/// Where `s` and `k` hold distinct ids and every id of `k` is in `s`, as
/// many ids of `s` occur in `k` as `k` holds.
proof fn lemma_count_in_all(s: Seq<Seq<char>>, k: Seq<Seq<char>>)
    requires
        s.no_duplicates(),
        k.no_duplicates(),
        forall|t: int| 0 <= t < k.len() ==> s.contains(#[trigger] k[t]),
    ensures
        count_in(s, k) == k.len(),
    decreases s.len(),
{
    if s.len() == 0 {
        if k.len() > 0 {
            assert(s.contains(k[0]));
        }
    } else {
        let d = s.drop_last();
        let x = s.last();
        assert(d.no_duplicates()) by {
            assert forall|i: int, j: int| 0 <= i < d.len() && 0 <= j < d.len() && i != j implies d[i] != d[j] by {
                assert(d[i] == s[i] && d[j] == s[j]);
            }
        }
        assert(!d.contains(x)) by {
            if d.contains(x) {
                let i = choose|i: int| 0 <= i < d.len() && d[i] == x;
                assert(s[i] == s[s.len() - 1]);
            }
        }
        if k.contains(x) {
            let idx = choose|idx: int| 0 <= idx < k.len() && k[idx] == x;
            let k2 = k.remove(idx);
            assert(k2.no_duplicates()) by {
                assert forall|i: int, j: int| 0 <= i < k2.len() && 0 <= j < k2.len() && i != j implies k2[i] != k2[j] by {
                    let ii = if i < idx { i } else { i + 1 };
                    let jj = if j < idx { j } else { j + 1 };
                    assert(k2[i] == k[ii] && k2[j] == k[jj]);
                }
            }
            assert forall|t: int| 0 <= t < k2.len() implies d.contains(#[trigger] k2[t]) by {
                let tt = if t < idx { t } else { t + 1 };
                assert(k2[t] == k[tt]);
                assert(k[tt] != k[idx]);
                assert(s.contains(k[tt]));
                let i = choose|i: int| 0 <= i < s.len() && s[i] == k[tt];
                assert(i != s.len() - 1);
                assert(d[i] == k[tt]);
            }
            lemma_count_in_all(d, k2);
            assert forall|i: int| 0 <= i < d.len() implies (k.contains(#[trigger] d[i]) <==> k2.contains(d[i])) by {
                if k.contains(d[i]) {
                    let a = choose|a: int| 0 <= a < k.len() && k[a] == d[i];
                    assert(a != idx);
                    let aa = if a < idx { a } else { a - 1 };
                    assert(k2[aa] == d[i]);
                }
                if k2.contains(d[i]) {
                    let a = choose|a: int| 0 <= a < k2.len() && k2[a] == d[i];
                    let aa = if a < idx { a } else { a + 1 };
                    assert(k[aa] == d[i]);
                }
            }
            lemma_count_in_same(d, k, k2);
        } else {
            assert forall|t: int| 0 <= t < k.len() implies d.contains(#[trigger] k[t]) by {
                let i = choose|i: int| 0 <= i < s.len() && s[i] == k[t];
                assert(i != s.len() - 1);
                assert(d[i] == k[t]);
            }
            lemma_count_in_all(d, k);
        }
    }
}

proof fn lemma_head_match_found(m: Seq<(Seq<char>, Seq<char>, MatchKind)>, id: Seq<char>)
    ensures
        head_match(m, id) is Some <==> m.map_values(|e: (Seq<char>, Seq<char>, MatchKind)| e.1).contains(id),
        head_match(m, id) matches Some((b, k)) ==> exists|t: int| 0 <= t < m.len() && #[trigger] m[t] == (b, id, k),
    decreases m.len(),
{
    let mh = m.map_values(|e: (Seq<char>, Seq<char>, MatchKind)| e.1);
    if m.len() > 0 {
        let r = m.drop_first();
        let rh = r.map_values(|e: (Seq<char>, Seq<char>, MatchKind)| e.1);
        lemma_head_match_found(r, id);
        assert(mh =~= seq![m[0].1] + rh);
        if m[0].1 == id {
            assert(mh[0] == id);
        } else {
            if rh.contains(id) {
                let i = choose|i: int| 0 <= i < rh.len() && rh[i] == id;
                assert(mh[i + 1] == id);
            }
            if mh.contains(id) {
                let i = choose|i: int| 0 <= i < mh.len() && mh[i] == id;
                assert(i > 0);
                assert(rh[i - 1] == id);
            }
            if let Some((b, k)) = head_match(m, id) {
                let t = choose|t: int| 0 <= t < r.len() && #[trigger] r[t] == (b, id, k);
                assert(m[t + 1] == (b, id, k));
            }
        }
    }
}

proof fn lemma_node_with_id_found(ns: Seq<NodeView>, id: Seq<char>)
    ensures
        node_with_id(ns, id) is Some <==> node_ids(ns).contains(id),
    decreases ns.len(),
{
    if ns.len() > 0 {
        lemma_node_with_id_found(ns.drop_first(), id);
        let a = node_ids(ns);
        let b = node_ids(ns.drop_first());
        assert(a =~= seq![ns[0].id] + b);
        if b.contains(id) {
            let i = choose|i: int| 0 <= i < b.len() && b[i] == id;
            assert(a[i + 1] == id);
        }
        if a.contains(id) && ns[0].id != id {
            let i = choose|i: int| 0 <= i < a.len() && a[i] == id;
            assert(b[i - 1] == id);
        }
        if ns[0].id == id {
            assert(a[0] == id);
        }
    }
}

/// The head records: each added, moved, modified or unchanged; and those
/// not added are those whose head symbol was matched (to a base symbol that
/// the base holds).
proof fn lemma_head_record_counts(hs: Seq<NodeView>, base: Seq<NodeView>, m: Seq<(Seq<char>, Seq<char>, MatchKind)>, hg: GraphView)
    requires
        forall|t: int| 0 <= t < m.len() ==> node_ids(base).contains(#[trigger] m[t].0),
    ensures
        ({
            let rs = head_records(hs, base, m, hg);
            let mh = m.map_values(|e: (Seq<char>, Seq<char>, MatchKind)| e.1);
            &&& records_with(rs, DiffStatus::Removed) == 0
            &&& records_with(rs, DiffStatus::Added) + records_with(rs, DiffStatus::Modified) + records_with(
                rs,
                DiffStatus::Moved,
            ) + records_with(rs, DiffStatus::Unchanged) == hs.len()
            &&& records_with(rs, DiffStatus::Added) + count_in(node_ids(hs), mh) == hs.len()
        }),
    decreases hs.len(),
{
    if hs.len() > 0 {
        let d = hs.drop_last();
        lemma_head_record_counts(d, base, m, hg);
        let h = hs.last();
        let rs = head_records(hs, base, m, hg);
        assert(rs.drop_last() =~= head_records(d, base, m, hg));
        assert(rs.last() == head_record(h, base, m, hg));
        assert(node_ids(hs).drop_last() =~= node_ids(d));
        assert(node_ids(hs).last() == h.id);
        lemma_head_match_found(m, h.id);
        match head_match(m, h.id) {
            Some((bid, kind)) => {
                let t = choose|t: int| 0 <= t < m.len() && #[trigger] m[t] == (bid, h.id, kind);
                assert(node_ids(base).contains(m[t].0));
                lemma_node_with_id_found(base, bid);
            },
            None => {},
        }
    }
}

/// The removed records: all removed, one for each base symbol not matched.
proof fn lemma_removed_record_counts(bs: Seq<NodeView>, m: Seq<(Seq<char>, Seq<char>, MatchKind)>, bg: GraphView)
    ensures
        ({
            let rs = removed_records(bs, m, bg);
            let mb = m.map_values(|e: (Seq<char>, Seq<char>, MatchKind)| e.0);
            &&& records_with(rs, DiffStatus::Removed) + count_in(node_ids(bs), mb) == bs.len()
            &&& records_with(rs, DiffStatus::Added) == 0
            &&& records_with(rs, DiffStatus::Modified) == 0
            &&& records_with(rs, DiffStatus::Moved) == 0
            &&& records_with(rs, DiffStatus::Unchanged) == 0
        }),
    decreases bs.len(),
{
    if bs.len() > 0 {
        let d = bs.drop_last();
        lemma_removed_record_counts(d, m, bg);
        let b = bs.last();
        let mb = m.map_values(|e: (Seq<char>, Seq<char>, MatchKind)| e.0);
        let rs = removed_records(bs, m, bg);
        if !base_matched(m, b.id) {
            assert(rs.drop_last() =~= removed_records(d, m, bg));
            assert(rs.last() == removed_record(b, bg));
        }
        assert(node_ids(bs).drop_last() =~= node_ids(d));
        assert(node_ids(bs).last() == b.id);
        if base_matched(m, b.id) {
            let i = choose|i: int| 0 <= i < m.len() && #[trigger] m[i].0 == b.id;
            assert(mb[i] == b.id);
        }
        if mb.contains(b.id) {
            let i = choose|i: int| 0 <= i < mb.len() && mb[i] == b.id;
            assert(m[i].0 == b.id);
        }
    }
}

proof fn lemma_records_with_concat(a: Seq<RecordView>, b: Seq<RecordView>, st: DiffStatus)
    ensures
        records_with(a + b, st) == records_with(a, st) + records_with(b, st),
    decreases b.len(),
{
    if b.len() == 0 {
        assert(a + b =~= a);
    } else {
        lemma_records_with_concat(a, b.drop_last(), st);
        assert((a + b).drop_last() =~= a + b.drop_last());
        assert((a + b).last() == b.last());
    }
}

/// How the symbols of two revisions compare, counted: where each revision's
/// symbol ids are distinct, the added, modified, moved and unchanged
/// symbols are the head's symbols, and the removed, modified, moved and
/// unchanged ones are the base's.
pub proof fn lemma_symbol_totals(base: Seq<NodeView>, bg: GraphView, head: Seq<NodeView>, hg: GraphView)
    requires
        node_ids(base).no_duplicates(),
        node_ids(head).no_duplicates(),
    ensures
        ({
            let rs = spec_diff_symbols(base, bg, head, hg);
            &&& records_with(rs, DiffStatus::Added) + records_with(rs, DiffStatus::Modified) + records_with(
                rs,
                DiffStatus::Moved,
            ) + records_with(rs, DiffStatus::Unchanged) == head.len()
            &&& records_with(rs, DiffStatus::Removed) + records_with(rs, DiffStatus::Modified) + records_with(
                rs,
                DiffStatus::Moved,
            ) + records_with(rs, DiffStatus::Unchanged) == base.len()
        }),
{
    let kb = keyed_nodes(base);
    let kh = keyed_nodes(head);
    let m = symbol_matches(kb, kh);
    assert(crate::matching::ids_distinct(kb)) by {
        assert forall|i: int, j: int| 0 <= i < j < kb.len() implies #[trigger] kb[i].id != #[trigger] kb[j].id by {
            assert(kb[i].id == node_ids(base)[i] && kb[j].id == node_ids(base)[j]);
        }
    }
    assert(crate::matching::ids_distinct(kh)) by {
        assert forall|i: int, j: int| 0 <= i < j < kh.len() implies #[trigger] kh[i].id != #[trigger] kh[j].id by {
            assert(kh[i].id == node_ids(head)[i] && kh[j].id == node_ids(head)[j]);
        }
    }
    crate::matching::lemma_matching_one_to_one(kb, kh);
    let mb = m.map_values(|e: (Seq<char>, Seq<char>, MatchKind)| e.0);
    let mh = m.map_values(|e: (Seq<char>, Seq<char>, MatchKind)| e.1);
    assert forall|t: int| 0 <= t < m.len() implies node_ids(base).contains(#[trigger] m[t].0) && node_ids(head).contains(
        m[t].1,
    ) by {
        assert(crate::matching::pair_in(m[t], kb, kh));
        let (i, j) = choose|i: int, j: int| #[trigger] crate::matching::pair_at(m[t], kb, kh, i, j);
        assert(node_ids(base)[i] == m[t].0);
        assert(node_ids(head)[j] == m[t].1);
    }
    assert forall|t: int| 0 <= t < mb.len() implies node_ids(base).contains(#[trigger] mb[t]) by {
        assert(mb[t] == m[t].0);
    }
    assert forall|t: int| 0 <= t < mh.len() implies node_ids(head).contains(#[trigger] mh[t]) by {
        assert(node_ids(base).contains(m[t].0));
        assert(mh[t] == m[t].1);
    }
    assert(mb.no_duplicates()) by {
        assert forall|a: int, b: int| 0 <= a < mb.len() && 0 <= b < mb.len() && a != b implies mb[a] != mb[b] by {
            if a < b {
                assert(m[a].0 != m[b].0);
            } else {
                assert(m[b].0 != m[a].0);
            }
        }
    }
    assert(mh.no_duplicates()) by {
        assert forall|a: int, b: int| 0 <= a < mh.len() && 0 <= b < mh.len() && a != b implies mh[a] != mh[b] by {
            if a < b {
                assert(m[a].0 != m[b].0 && m[a].1 != m[b].1);
            } else {
                assert(m[b].0 != m[a].0 && m[b].1 != m[a].1);
            }
        }
    }
    lemma_count_in_all(node_ids(base), mb);
    lemma_count_in_all(node_ids(head), mh);
    lemma_head_record_counts(head, base, m, hg);
    lemma_removed_record_counts(base, m, bg);
    let hr = head_records(head, base, m, hg);
    let rr = removed_records(base, m, bg);
    lemma_records_with_concat(hr, rr, DiffStatus::Added);
    lemma_records_with_concat(hr, rr, DiffStatus::Removed);
    lemma_records_with_concat(hr, rr, DiffStatus::Modified);
    lemma_records_with_concat(hr, rr, DiffStatus::Moved);
    lemma_records_with_concat(hr, rr, DiffStatus::Unchanged);
}


proof fn lemma_symbols_of_from(ns: Seq<NodeView>)
    ensures
        forall|i: int| 0 <= i < symbols_of(ns).len() ==> ns.contains(#[trigger] symbols_of(ns)[i]),
    decreases ns.len(),
{
    if ns.len() > 0 {
        lemma_symbols_of_from(ns.drop_last());
        let p = symbols_of(ns.drop_last());
        assert forall|i: int| 0 <= i < symbols_of(ns).len() implies ns.contains(#[trigger] symbols_of(ns)[i]) by {
            if i < p.len() {
                assert(symbols_of(ns)[i] == p[i]);
                let k = choose|k: int| 0 <= k < ns.drop_last().len() && ns.drop_last()[k] == p[i];
                assert(ns[k] == p[i]);
            } else {
                assert(ns[ns.len() - 1] == symbols_of(ns)[i]);
            }
        }
    }
}

/// The symbols of a node list with distinct ids have distinct ids.
pub proof fn lemma_symbol_ids_distinct(ns: Seq<NodeView>)
    requires
        forall|i: int, j: int| 0 <= i < j < ns.len() ==> (#[trigger] ns[i]).id != (#[trigger] ns[j]).id,
    ensures
        node_ids(symbols_of(ns)).no_duplicates(),
    decreases ns.len(),
{
    if ns.len() > 0 {
        let d = ns.drop_last();
        assert forall|i: int, j: int| 0 <= i < j < d.len() implies (#[trigger] d[i]).id != (#[trigger] d[j]).id by {
            assert(d[i] == ns[i] && d[j] == ns[j]);
        }
        lemma_symbol_ids_distinct(d);
        lemma_symbols_of_from(d);
        let p = symbols_of(d);
        let q = symbols_of(ns);
        let ids = node_ids(q);
        if spec_is_symbol(ns.last().label) {
            assert forall|a: int, b: int| 0 <= a < ids.len() && 0 <= b < ids.len() && a != b implies ids[a] != ids[b] by {
                if a < p.len() && b < p.len() {
                    assert(ids[a] == node_ids(p)[a] && ids[b] == node_ids(p)[b]);
                } else {
                    let x = if a < p.len() { a } else { b };
                    assert(x < p.len());
                    assert(d.contains(p[x]));
                    let k = choose|k: int| 0 <= k < d.len() && d[k] == p[x];
                    assert(ns[k] == p[x]);
                    assert(ns[k].id != ns[ns.len() - 1].id);
                }
            }
        } else {
            assert(ids =~= node_ids(p));
        }
    }
}

proof fn lemma_symbols_with_view(rs: Seq<SymbolRecord>, st: DiffStatus)
    ensures
        crate::diff::symbols_with(rs, st) == records_with(records_view(rs), st),
    decreases rs.len(),
{
    if rs.len() > 0 {
        lemma_symbols_with_view(rs.drop_last(), st);
        assert(records_view(rs).drop_last() =~= records_view(rs.drop_last()));
    }
}

/// The symbol totals of a diff of two stores add up: the added, modified,
/// moved and unchanged symbols are the head's symbols, and the removed,
/// modified, moved and unchanged ones are the base's.
pub proof fn lemma_diff_data_totals(
    d: DiffData,
    base_ref: Seq<char>,
    base_store: GraphStore,
    head_ref: Seq<char>,
    head_store: GraphStore,
    limit: Option<usize>,
)
    requires
        base_store.wf(),
        head_store.wf(),
        records_view(d.records@) == spec_diff_symbols(
            symbols_of(base_store.node_list()),
            base_store@,
            symbols_of(head_store.node_list()),
            head_store@,
        ),
        is_graph_diff(d.diff, base_ref, base_store, head_ref, head_store, d.records@, limit),
    ensures
        d.diff.summary.symbols_added + d.diff.summary.symbols_modified + d.diff.summary.symbols_moved
            + d.diff.summary.symbols_unchanged == symbols_of(head_store.node_list()).len(),
        d.diff.summary.symbols_removed + d.diff.summary.symbols_modified + d.diff.summary.symbols_moved
            + d.diff.summary.symbols_unchanged == symbols_of(base_store.node_list()).len(),
{
    base_store.lemma_node_ids_distinct();
    head_store.lemma_node_ids_distinct();
    lemma_symbol_ids_distinct(base_store.node_list());
    lemma_symbol_ids_distinct(head_store.node_list());
    lemma_symbol_totals(symbols_of(base_store.node_list()), base_store@, symbols_of(head_store.node_list()), head_store@);
    lemma_symbols_with_view(d.records@, DiffStatus::Added);
    lemma_symbols_with_view(d.records@, DiffStatus::Removed);
    lemma_symbols_with_view(d.records@, DiffStatus::Modified);
    lemma_symbols_with_view(d.records@, DiffStatus::Moved);
    lemma_symbols_with_view(d.records@, DiffStatus::Unchanged);
}


proof fn lemma_head_records_canon(hs: Seq<NodeView>, base: Seq<NodeView>, m: Seq<(Seq<char>, Seq<char>, MatchKind)>, hg: GraphView)
    ensures
        head_records(hs, base, m, hg).len() == hs.len(),
        forall|i: int| 0 <= i < hs.len() ==> (#[trigger] head_records(hs, base, m, hg)[i]).canonical_id == hs[i].id,
    decreases hs.len(),
{
    if hs.len() > 0 {
        lemma_head_records_canon(hs.drop_last(), base, m, hg);
        let r = head_records(hs, base, m, hg);
        let p = head_records(hs.drop_last(), base, m, hg);
        assert forall|i: int| 0 <= i < hs.len() implies (#[trigger] r[i]).canonical_id == hs[i].id by {
            if i < hs.len() - 1 {
                assert(r[i] == p[i]);
                assert(hs.drop_last()[i] == hs[i]);
            }
        }
    }
}

proof fn lemma_removed_prefix(a: Seq<char>, b: Seq<char>)
    ensures
        ("removed::"@ + a == "removed::"@ + b) ==> a == b,
        spec_starts_with("removed::"@ + a, "removed::"@),
{
    let x = "removed::"@ + a;
    let y = "removed::"@ + b;
    assert(x.subrange(0, "removed::"@.len() as int) =~= "removed::"@);
    if x == y {
        assert(a =~= x.subrange("removed::"@.len() as int, x.len() as int));
        assert(b =~= y.subrange("removed::"@.len() as int, y.len() as int));
    }
}

proof fn lemma_removed_records_canon(bs: Seq<NodeView>, m: Seq<(Seq<char>, Seq<char>, MatchKind)>, bg: GraphView)
    requires
        node_ids(bs).no_duplicates(),
    ensures
        forall|i: int| 0 <= i < removed_records(bs, m, bg).len() ==> exists|j: int| 0 <= j < bs.len()
            && (#[trigger] removed_records(bs, m, bg)[i]).canonical_id == "removed::"@ + bs[j].id,
        forall|i: int, j: int| 0 <= i < j < removed_records(bs, m, bg).len() ==> (#[trigger] removed_records(bs, m, bg)[i]).canonical_id
            != (#[trigger] removed_records(bs, m, bg)[j]).canonical_id,
    decreases bs.len(),
{
    if bs.len() > 0 {
        let d = bs.drop_last();
        assert(node_ids(d).no_duplicates()) by {
            assert forall|a: int, b: int| 0 <= a < node_ids(d).len() && 0 <= b < node_ids(d).len() && a != b implies node_ids(d)[a]
                != node_ids(d)[b] by {
                assert(node_ids(d)[a] == node_ids(bs)[a] && node_ids(d)[b] == node_ids(bs)[b]);
            }
        }
        lemma_removed_records_canon(d, m, bg);
        let p = removed_records(d, m, bg);
        let r = removed_records(bs, m, bg);
        let last = bs.last();
        assert forall|i: int| 0 <= i < r.len() implies exists|j: int| 0 <= j < bs.len()
            && (#[trigger] r[i]).canonical_id == "removed::"@ + bs[j].id by {
            if i < p.len() {
                assert(r[i] == p[i]);
                let j = choose|j: int| 0 <= j < d.len() && p[i].canonical_id == "removed::"@ + d[j].id;
                assert(bs[j] == d[j]);
            } else {
                assert(r[i].canonical_id == "removed::"@ + bs[bs.len() - 1].id);
            }
        }
        assert forall|i: int, j: int| 0 <= i < j < r.len() implies (#[trigger] r[i]).canonical_id != (#[trigger] r[j]).canonical_id by {
            if j < p.len() {
                assert(r[i] == p[i] && r[j] == p[j]);
            } else {
                assert(r[i] == p[i]);
                let k = choose|k: int| 0 <= k < d.len() && p[i].canonical_id == "removed::"@ + d[k].id;
                assert(node_ids(bs)[k] == d[k].id);
                assert(node_ids(bs)[bs.len() - 1] == last.id);
                assert(d[k].id != last.id);
                lemma_removed_prefix(d[k].id, last.id);
            }
        }
    }
}

/// The records of a diff name each symbol once: where each revision's symbol
/// ids are distinct and no head symbol id starts with `removed::`, no two
/// records share a canonical id.
pub proof fn lemma_canonical_ids_distinct(base: Seq<NodeView>, bg: GraphView, head: Seq<NodeView>, hg: GraphView)
    requires
        node_ids(base).no_duplicates(),
        node_ids(head).no_duplicates(),
        forall|i: int| 0 <= i < head.len() ==> !spec_starts_with(#[trigger] head[i].id, "removed::"@),
    ensures
        forall|i: int, j: int| 0 <= i < j < spec_diff_symbols(base, bg, head, hg).len() ==> (#[trigger] spec_diff_symbols(
            base,
            bg,
            head,
            hg,
        )[i]).canonical_id != (#[trigger] spec_diff_symbols(base, bg, head, hg)[j]).canonical_id,
{
    let m = symbol_matches(keyed_nodes(base), keyed_nodes(head));
    let hr = head_records(head, base, m, hg);
    let rr = removed_records(base, m, bg);
    let rs = spec_diff_symbols(base, bg, head, hg);
    lemma_head_records_canon(head, base, m, hg);
    lemma_removed_records_canon(base, m, bg);
    assert(rs == hr + rr);
    assert forall|i: int, j: int| 0 <= i < j < rs.len() implies (#[trigger] rs[i]).canonical_id != (#[trigger] rs[j]).canonical_id by {
        if j < hr.len() {
            assert(rs[i] == hr[i] && rs[j] == hr[j]);
            assert(node_ids(head)[i] == head[i].id && node_ids(head)[j] == head[j].id);
        } else if i < hr.len() {
            assert(rs[i] == hr[i] && rs[j] == rr[j - hr.len()]);
            let k = choose|k: int| 0 <= k < base.len() && rr[j - hr.len()].canonical_id == "removed::"@ + base[k].id;
            lemma_removed_prefix(base[k].id, base[k].id);
            assert(!spec_starts_with(head[i].id, "removed::"@));
        } else {
            assert(rs[i] == rr[i - hr.len()] && rs[j] == rr[j - hr.len()]);
        }
    }
}

/// The diff-view nodes of the selected records: where the records' canonical
/// ids are distinct and every selected id is one of them, one node for each
/// selected id, each node's id selected and no id twice, each the view of
/// the record it stands for.
pub proof fn lemma_symbol_nodes_of_selection(sel: Set<Seq<char>>, rs: Seq<RecordView>, fs: Map<Seq<char>, DiffStatus>)
    requires
        sel.finite(),
        forall|i: int, j: int| 0 <= i < j < rs.len() ==> (#[trigger] rs[i]).canonical_id != (#[trigger] rs[j]).canonical_id,
        forall|x: Seq<char>| #[trigger] sel.contains(x) ==> exists|i: int| 0 <= i < rs.len() && rs[i].canonical_id == x,
    ensures
        spec_symbol_nodes(sel, rs, fs).len() == sel.len(),
        forall|a: int, b: int| 0 <= a < b < spec_symbol_nodes(sel, rs, fs).len() ==> (#[trigger] spec_symbol_nodes(sel, rs, fs)[a]).id
            != (#[trigger] spec_symbol_nodes(sel, rs, fs)[b]).id,
        forall|a: int| 0 <= a < spec_symbol_nodes(sel, rs, fs).len() ==> exists|i: int| 0 <= i < rs.len()
            && sel.contains(rs[i].canonical_id) && #[trigger] spec_symbol_nodes(sel, rs, fs)[a] == symbol_node_view(rs[i], fs),
    decreases rs.len(),
{
    let out = spec_symbol_nodes(sel, rs, fs);
    if rs.len() == 0 {
        if sel.len() > 0 {
            let x = sel.choose();
            assert(sel.contains(x));
        }
    } else {
        let d = rs.drop_last();
        let last = rs.last();
        let sel2 = sel.remove(last.canonical_id);
        assert forall|i: int, j: int| 0 <= i < j < d.len() implies (#[trigger] d[i]).canonical_id != (#[trigger] d[j]).canonical_id by {
            assert(d[i] == rs[i] && d[j] == rs[j]);
        }
        assert forall|x: Seq<char>| #[trigger] sel2.contains(x) implies exists|i: int| 0 <= i < d.len() && d[i].canonical_id == x by {
            let i = choose|i: int| 0 <= i < rs.len() && rs[i].canonical_id == x;
            assert(i != rs.len() - 1);
            assert(d[i] == rs[i]);
        }
        lemma_symbol_nodes_of_selection(sel2, d, fs);
        let p2 = spec_symbol_nodes(sel2, d, fs);
        let p = spec_symbol_nodes(sel, d, fs);
        // Dropping the last record's id changes nothing among the earlier records.
        assert(p == p2) by {
            lemma_symbol_nodes_same_selection(sel, sel2, d, fs, last.canonical_id);
        }
        if sel.contains(last.canonical_id) {
            assert(out == p.push(symbol_node_view(last, fs)));
            assert(sel.len() == sel2.len() + 1);
            assert forall|a: int| 0 <= a < p.len() implies (#[trigger] p[a]).id != last.canonical_id by {
                let i = choose|i: int| 0 <= i < d.len() && sel2.contains(d[i].canonical_id) && #[trigger] p2[a] == symbol_node_view(d[i], fs);
                assert(d[i] == rs[i]);
                assert(rs[i].canonical_id != rs[rs.len() - 1].canonical_id);
            }
            assert forall|a: int, b: int| 0 <= a < b < out.len() implies (#[trigger] out[a]).id != (#[trigger] out[b]).id by {
                if b < p.len() {
                    assert(out[a] == p[a] && out[b] == p[b]);
                } else {
                    assert(out[a] == p[a]);
                    assert(out[b].id == last.canonical_id);
                }
            }
            assert forall|a: int| 0 <= a < out.len() implies exists|i: int| 0 <= i < rs.len()
                && sel.contains(rs[i].canonical_id) && #[trigger] out[a] == symbol_node_view(rs[i], fs) by {
                if a < p.len() {
                    let i = choose|i: int| 0 <= i < d.len() && sel2.contains(d[i].canonical_id) && #[trigger] p2[a] == symbol_node_view(d[i], fs);
                    assert(out[a] == p[a]);
                    assert(rs[i] == d[i]);
                } else {
                    assert(out[a] == symbol_node_view(rs[rs.len() - 1], fs));
                }
            }
        } else {
            assert(sel2 =~= sel);
            assert(out == p);

            assert forall|a: int| 0 <= a < out.len() implies exists|i: int| 0 <= i < rs.len()
                && sel.contains(rs[i].canonical_id) && #[trigger] out[a] == symbol_node_view(rs[i], fs) by {
                let i = choose|i: int| 0 <= i < d.len() && sel2.contains(d[i].canonical_id) && #[trigger] p2[a] == symbol_node_view(d[i], fs);
                assert(rs[i] == d[i]);
            }
        }
    }
}

proof fn lemma_symbol_nodes_same_selection(
    sel: Set<Seq<char>>,
    sel2: Set<Seq<char>>,
    rs: Seq<RecordView>,
    fs: Map<Seq<char>, DiffStatus>,
    x: Seq<char>,
)
    requires
        sel2 == sel.remove(x),
        forall|i: int| 0 <= i < rs.len() ==> (#[trigger] rs[i]).canonical_id != x,
    ensures
        spec_symbol_nodes(sel, rs, fs) == spec_symbol_nodes(sel2, rs, fs),
    decreases rs.len(),
{
    if rs.len() > 0 {
        assert forall|i: int| 0 <= i < rs.drop_last().len() implies (#[trigger] rs.drop_last()[i]).canonical_id != x by {
            assert(rs.drop_last()[i] == rs[i]);
        }
        lemma_symbol_nodes_same_selection(sel, sel2, rs.drop_last(), fs, x);
        assert(rs[rs.len() - 1] == rs.last());
    }
}


/// Every selected record has its node.
proof fn lemma_selected_records_shown(sel: Set<Seq<char>>, rs: Seq<RecordView>, fs: Map<Seq<char>, DiffStatus>)
    ensures
        forall|i: int| 0 <= i < rs.len() && sel.contains(#[trigger] rs[i].canonical_id) ==> spec_symbol_nodes(sel, rs, fs).contains(
            symbol_node_view(rs[i], fs),
        ),
    decreases rs.len(),
{
    if rs.len() > 0 {
        let d = rs.drop_last();
        lemma_selected_records_shown(sel, d, fs);
        let p = spec_symbol_nodes(sel, d, fs);
        let out = spec_symbol_nodes(sel, rs, fs);
        assert forall|i: int| 0 <= i < rs.len() && sel.contains(#[trigger] rs[i].canonical_id) implies out.contains(
            symbol_node_view(rs[i], fs),
        ) by {
            if i < d.len() {
                assert(rs[i] == d[i]);
                assert(p.contains(symbol_node_view(d[i], fs)));
                let a = choose|a: int| 0 <= a < p.len() && p[a] == symbol_node_view(d[i], fs);
                if sel.contains(rs.last().canonical_id) {
                    assert(out[a] == p[a]);
                }
            } else {
                assert(out[out.len() - 1] == symbol_node_view(rs[i], fs));
            }
        }
    }
}

/// The unchanged records of a diff are matched head symbols: each has a head.
proof fn lemma_unchanged_have_heads(base: Seq<NodeView>, bg: GraphView, head: Seq<NodeView>, hg: GraphView)
    ensures
        forall|i: int| 0 <= i < spec_diff_symbols(base, bg, head, hg).len() && (#[trigger] spec_diff_symbols(base, bg, head, hg)[i]).status
            == DiffStatus::Unchanged ==> spec_diff_symbols(base, bg, head, hg)[i].head is Some,
{
    let m = symbol_matches(keyed_nodes(base), keyed_nodes(head));
    let hr = head_records(head, base, m, hg);
    let rr = removed_records(base, m, bg);
    let rv = spec_diff_symbols(base, bg, head, hg);
    lemma_head_records_have_heads(head, base, m, hg);
    assert forall|i: int| 0 <= i < rv.len() && (#[trigger] rv[i]).status == DiffStatus::Unchanged implies rv[i].head is Some by {
        assert(rv == hr + rr);
        if i >= hr.len() {
            lemma_removed_all_removed(base, m, bg, i - hr.len());
            assert(rv[i] == rr[i - hr.len()]);
        } else {
            assert(rv[i] == hr[i]);
        }
    }
}

proof fn lemma_key_counts(rs: Seq<SymbolRecord>)
    requires
        forall|i: int| 0 <= i < rs.len() && (#[trigger] rs[i]).status == DiffStatus::Unchanged ==> rs[i].head is Some,
    ensures
        crate::diff::changed_keys(rs).len() == crate::diff::symbols_with(rs, DiffStatus::Added) + crate::diff::symbols_with(
            rs,
            DiffStatus::Removed,
        ) + crate::diff::symbols_with(rs, DiffStatus::Modified) + crate::diff::symbols_with(rs, DiffStatus::Moved),
        crate::diff::unchanged_keys(rs).len() == crate::diff::symbols_with(rs, DiffStatus::Unchanged),
    decreases rs.len(),
{
    if rs.len() > 0 {
        assert forall|i: int| 0 <= i < rs.drop_last().len() && (#[trigger] rs.drop_last()[i]).status == DiffStatus::Unchanged
            implies rs.drop_last()[i].head is Some by {
            assert(rs.drop_last()[i] == rs[i]);
        }
        lemma_key_counts(rs.drop_last());
        assert(rs[rs.len() - 1] == rs.last());
    }
}

/// Which symbols a diff shows, as a whole: where no head symbol id starts
/// with `removed::`, the symbol nodes have distinct ids and number the
/// limit (2000 when none is given) or the changed symbols and the unchanged
/// head symbols together, whichever is less; changed symbols come first:
/// when at least as many changed as there is room for, no unchanged symbol
/// is shown, and otherwise every changed symbol is.
pub proof fn lemma_diff_data_symbol_nodes(
    d: DiffData,
    base_ref: Seq<char>,
    base_store: GraphStore,
    head_ref: Seq<char>,
    head_store: GraphStore,
    limit: Option<usize>,
)
    requires
        base_store.wf(),
        head_store.wf(),
        records_view(d.records@) == spec_diff_symbols(
            symbols_of(base_store.node_list()),
            base_store@,
            symbols_of(head_store.node_list()),
            head_store@,
        ),
        is_graph_diff(d.diff, base_ref, base_store, head_ref, head_store, d.records@, limit),
        d.symbol_nodes@.map_values(|n: DiffNodeRecord| n@) == spec_symbol_nodes(
            texts(d.diff.symbol_ids@).to_set(),
            records_view(d.records@),
            file_statuses(d.diff.files@),
        ),
        forall|i: int| 0 <= i < symbols_of(head_store.node_list()).len() ==> !spec_starts_with(
            #[trigger] symbols_of(head_store.node_list())[i].id,
            "removed::"@,
        ),
    ensures
        ({
            let nodes = d.symbol_nodes@.map_values(|n: DiffNodeRecord| n@);
            let n = crate::diff::symbol_limit(limit);
            let s = d.diff.summary;
            let c = s.symbols_added + s.symbols_removed + s.symbols_modified + s.symbols_moved;
            let m = c + s.symbols_unchanged;
            &&& forall|a: int, b: int| 0 <= a < b < nodes.len() ==> (#[trigger] nodes[a]).id != (#[trigger] nodes[b]).id
            &&& nodes.len() == if m < n { m } else { n as int }
            &&& c >= n ==> forall|a: int| 0 <= a < nodes.len() ==> (#[trigger] nodes[a]).status != DiffStatus::Unchanged
            &&& c < n ==> forall|i: int| 0 <= i < d.records@.len() && (#[trigger] d.records@[i]).status != DiffStatus::Unchanged
                ==> exists|a: int| 0 <= a < nodes.len() && nodes[a].id == d.records@[i].canonical_id@
        }),
{
    let base = symbols_of(base_store.node_list());
    let head = symbols_of(head_store.node_list());
    let rs = d.records@;
    let rv = records_view(rs);
    let n = crate::diff::symbol_limit(limit);
    let chosen = texts(d.diff.symbol_ids@).to_set();
    base_store.lemma_node_ids_distinct();
    head_store.lemma_node_ids_distinct();
    lemma_symbol_ids_distinct(base_store.node_list());
    lemma_symbol_ids_distinct(head_store.node_list());
    lemma_canonical_ids_distinct(base, base_store@, head, head_store@);
    assert forall|i: int, j: int| 0 <= i < j < rs.len() implies (#[trigger] rs[i]).canonical_id@ != (#[trigger] rs[j]).canonical_id@ by {
        assert(rv[i] == record_view(rs[i]) && rv[j] == record_view(rs[j]));
    }
    // Unchanged records are matched ones: they have a head.
    lemma_unchanged_have_heads(base, base_store@, head, head_store@);
    assert forall|i: int| 0 <= i < rs.len() && (#[trigger] rs[i]).status == DiffStatus::Unchanged implies rs[i].head is Some by {
        assert(rv[i] == record_view(rs[i]));
    }
    lemma_key_counts(rs);
    crate::diff::lemma_symbol_count(rs, n, chosen);
    crate::diff::lemma_symbol_choice_within(rs, n, chosen);
    assert forall|x: Seq<char>| #[trigger] chosen.contains(x) implies exists|i: int| 0 <= i < rv.len() && rv[i].canonical_id == x by {
        let i = choose|i: int| 0 <= i < rs.len() && rs[i].canonical_id@ == x;
        assert(rv[i] == record_view(rs[i]));
    }
    lemma_symbol_nodes_of_selection(chosen, rv, file_statuses(d.diff.files@));
    let nodes = d.symbol_nodes@.map_values(|n: DiffNodeRecord| n@);
    if crate::diff::changed_keys(rs).len() >= n {
        crate::diff::lemma_unchanged_symbols_wait(rs, n, chosen);
        assert forall|a: int| 0 <= a < nodes.len() implies (#[trigger] nodes[a]).status != DiffStatus::Unchanged by {
            let i = choose|i: int| 0 <= i < rv.len() && chosen.contains(rv[i].canonical_id) && #[trigger] nodes[a]
                == symbol_node_view(rv[i], file_statuses(d.diff.files@));
            assert(rv[i] == record_view(rs[i]));
        }
    } else {
        crate::diff::lemma_changed_symbols_shown(rs, n, chosen);
        assert forall|i: int| 0 <= i < rs.len() && (#[trigger] rs[i]).status != DiffStatus::Unchanged implies exists|a: int|
            0 <= a < nodes.len() && nodes[a].id == rs[i].canonical_id@ by {
            assert(rv[i] == record_view(rs[i]));
            assert(chosen.contains(rv[i].canonical_id));
            lemma_selected_records_shown(chosen, rv, file_statuses(d.diff.files@));
            let a = choose|a: int| 0 <= a < nodes.len() && nodes[a] == symbol_node_view(rv[i], file_statuses(d.diff.files@));
        }
    }
}

proof fn lemma_removed_all_removed(bs: Seq<NodeView>, m: Seq<(Seq<char>, Seq<char>, MatchKind)>, bg: GraphView, k: int)
    requires
        0 <= k < removed_records(bs, m, bg).len(),
    ensures
        removed_records(bs, m, bg)[k].status == DiffStatus::Removed,
    decreases bs.len(),
{
    let p = removed_records(bs.drop_last(), m, bg);
    if k < p.len() {
        lemma_removed_all_removed(bs.drop_last(), m, bg, k);
    }
}


proof fn lemma_node_with_id_is(ns: Seq<NodeView>, id: Seq<char>)
    ensures
        node_with_id(ns, id) matches Some(n) ==> exists|j: int| 0 <= j < ns.len() && ns[j] == n && n.id == id,
    decreases ns.len(),
{
    if ns.len() > 0 && ns[0].id != id {
        lemma_node_with_id_is(ns.drop_first(), id);
        if let Some(n) = node_with_id(ns, id) {
            let j = choose|j: int| 0 <= j < ns.drop_first().len() && ns.drop_first()[j] == n && n.id == id;
            assert(ns[j + 1] == n);
        }
    }
}

proof fn lemma_all_matched_removed_none(bs: Seq<NodeView>, m: Seq<(Seq<char>, Seq<char>, MatchKind)>, bg: GraphView)
    requires
        forall|j: int| 0 <= j < bs.len() ==> base_matched(m, #[trigger] bs[j].id),
    ensures
        removed_records(bs, m, bg).len() == 0,
    decreases bs.len(),
{
    if bs.len() > 0 {
        assert forall|j: int| 0 <= j < bs.drop_last().len() implies base_matched(m, #[trigger] bs.drop_last()[j].id) by {
            assert(bs.drop_last()[j] == bs[j]);
        }
        lemma_all_matched_removed_none(bs.drop_last(), m, bg);
        assert(base_matched(m, bs[bs.len() - 1].id));
    }
}

/// Comparing a revision's symbols with themselves, where their ids and their
/// locations are distinct: one record per symbol, in order, each unchanged,
/// with the symbol as its base and its head.
pub proof fn lemma_self_records(ns: Seq<NodeView>, g: GraphView)
    requires
        node_ids(ns).no_duplicates(),
        crate::matching::locations_distinct(keyed_nodes(ns)),
    ensures
        spec_diff_symbols(ns, g, ns, g).len() == ns.len(),
        forall|i: int| 0 <= i < ns.len() ==> {
            let r = #[trigger] spec_diff_symbols(ns, g, ns, g)[i];
            &&& r.status == DiffStatus::Unchanged
            &&& r.base == Some(ns[i])
            &&& r.head == Some(ns[i])
            &&& r.canonical_id == ns[i].id
        },
{
    let kn = keyed_nodes(ns);
    crate::matching::lemma_self_matches(kn);
    let m = symbol_matches(kn, kn);
    assert forall|j: int| 0 <= j < ns.len() implies base_matched(m, #[trigger] ns[j].id) by {
        assert(m[j].0 == kn[j].id);
    }
    lemma_all_matched_removed_none(ns, m, g);
    let hr = head_records(ns, ns, m, g);
    let rr = removed_records(ns, m, g);
    lemma_head_records_canon(ns, ns, m, g);
    assert(spec_diff_symbols(ns, g, ns, g) =~= hr);
    assert forall|i: int| 0 <= i < ns.len() implies {
        let r = #[trigger] spec_diff_symbols(ns, g, ns, g)[i];
        &&& r.status == DiffStatus::Unchanged
        &&& r.base == Some(ns[i])
        &&& r.head == Some(ns[i])
        &&& r.canonical_id == ns[i].id
    } by {
        let h = ns[i];
        lemma_head_records_index(ns, ns, m, g, i);
        let mh = m.map_values(|e: (Seq<char>, Seq<char>, MatchKind)| e.1);
        assert(mh[i] == h.id);
        lemma_head_match_found(m, h.id);
        let (b, kind) = head_match(m, h.id).unwrap();
        let t = choose|t: int| 0 <= t < m.len() && #[trigger] m[t] == (b, h.id, kind);
        assert(m[t] == (kn[t].id, kn[t].id, MatchKind::Location));
        lemma_node_with_id_found(ns, h.id);
        assert(node_ids(ns)[i] == h.id);
        lemma_node_with_id_is(ns, h.id);
        let n = node_with_id(ns, h.id).unwrap();
        let j = choose|j: int| 0 <= j < ns.len() && ns[j] == n && n.id == h.id;
        assert(node_ids(ns)[j] == node_ids(ns)[i]);
        assert(j == i);
    }
}

proof fn lemma_head_records_index(hs: Seq<NodeView>, base: Seq<NodeView>, m: Seq<(Seq<char>, Seq<char>, MatchKind)>, hg: GraphView, i: int)
    requires
        0 <= i < hs.len(),
    ensures
        head_records(hs, base, m, hg)[i] == head_record(hs[i], base, m, hg),
    decreases hs.len(),
{
    let p = head_records(hs.drop_last(), base, m, hg);
    lemma_head_records_canon(hs.drop_last(), base, m, hg);
    assert(head_records(hs, base, m, hg) == p.push(head_record(hs.last(), base, m, hg)));
    if i < hs.len() - 1 {
        lemma_head_records_index(hs.drop_last(), base, m, hg, i);
        assert(hs.drop_last()[i] == hs[i]);
    }
}


/// A store diffed against itself, where its symbols' locations are distinct:
/// every symbol record is unchanged with the same node on both sides; every
/// file is unchanged; nothing is added, removed, modified or moved, symbols
/// and edges alike; and every link and every symbol node is unchanged.
pub proof fn lemma_self_diff_data(d: DiffData, base_ref: Seq<char>, store: GraphStore, head_ref: Seq<char>, limit: Option<usize>)
    requires
        store.wf(),
        crate::matching::locations_distinct(keyed_nodes(symbols_of(store.node_list()))),
        records_view(d.records@) == spec_diff_symbols(symbols_of(store.node_list()), store@, symbols_of(store.node_list()), store@),
        is_graph_diff(d.diff, base_ref, store, head_ref, store, d.records@, limit),
        d.symbol_nodes@.map_values(|n: DiffNodeRecord| n@) == spec_symbol_nodes(
            texts(d.diff.symbol_ids@).to_set(),
            records_view(d.records@),
            file_statuses(d.diff.files@),
        ),
    ensures
        forall|i: int| 0 <= i < d.records@.len() ==> (#[trigger] d.records@[i]).status == DiffStatus::Unchanged,
        forall|i: int| 0 <= i < d.diff.files@.len() ==> (#[trigger] d.diff.files@[i]).status == DiffStatus::Unchanged,
        d.diff.summary.files_added == 0 && d.diff.summary.files_removed == 0 && d.diff.summary.files_modified == 0,
        d.diff.summary.symbols_added == 0 && d.diff.summary.symbols_removed == 0 && d.diff.summary.symbols_modified == 0
            && d.diff.summary.symbols_moved == 0,
        d.diff.summary.edges_added == 0 && d.diff.summary.edges_removed == 0,
        forall|i: int| 0 <= i < d.diff.links@.len() ==> (#[trigger] d.diff.links@[i]).status == DiffStatus::Unchanged,
        forall|i: int| 0 <= i < d.symbol_nodes@.len() ==> (#[trigger] d.symbol_nodes@[i])@.status == DiffStatus::Unchanged,
{
    let ns = symbols_of(store.node_list());
    store.lemma_node_ids_distinct();
    lemma_symbol_ids_distinct(store.node_list());
    lemma_self_records(ns, store@);
    let rs = d.records@;
    let rv = records_view(rs);
    assert forall|i: int| 0 <= i < rs.len() implies (#[trigger] rs[i]).status == DiffStatus::Unchanged
        && crate::diff::same_both_sides(rs[i]) by {
        assert(rv[i] == record_view(rs[i]));
        assert(rv[i].base == Some(ns[i]) && rv[i].head == Some(ns[i]));
    }
    crate::diff::lemma_self_graph_diff(d.diff, base_ref, store, head_ref, rs, limit);
    let sel = texts(d.diff.symbol_ids@).to_set();
    let fs = file_statuses(d.diff.files@);
    let nodes = d.symbol_nodes@.map_values(|n: DiffNodeRecord| n@);
    lemma_symbol_nodes_from_records(sel, rv, fs);
    assert forall|i: int| 0 <= i < d.symbol_nodes@.len() implies (#[trigger] d.symbol_nodes@[i])@.status == DiffStatus::Unchanged by {
        assert(nodes[i] == d.symbol_nodes@[i]@);
        let k = choose|k: int| 0 <= k < rv.len() && #[trigger] nodes[i] == symbol_node_view(rv[k], fs);
        assert(rv[k] == record_view(rs[k]));
    }
}

/// Each diff-view node is the view of one of the records.
proof fn lemma_symbol_nodes_from_records(sel: Set<Seq<char>>, rs: Seq<RecordView>, fs: Map<Seq<char>, DiffStatus>)
    ensures
        forall|a: int| 0 <= a < spec_symbol_nodes(sel, rs, fs).len() ==> exists|k: int| 0 <= k < rs.len()
            && #[trigger] spec_symbol_nodes(sel, rs, fs)[a] == symbol_node_view(rs[k], fs),
    decreases rs.len(),
{
    if rs.len() > 0 {
        let d = rs.drop_last();
        lemma_symbol_nodes_from_records(sel, d, fs);
        let p = spec_symbol_nodes(sel, d, fs);
        let out = spec_symbol_nodes(sel, rs, fs);
        assert forall|a: int| 0 <= a < out.len() implies exists|k: int| 0 <= k < rs.len() && #[trigger] out[a] == symbol_node_view(
            rs[k],
            fs,
        ) by {
            if a < p.len() {
                assert(out[a] == p[a]);
                let k = choose|k: int| 0 <= k < d.len() && #[trigger] p[a] == symbol_node_view(d[k], fs);
                assert(rs[k] == d[k]);
            } else {
                assert(out[a] == symbol_node_view(rs[rs.len() - 1], fs));
            }
        }
    }
}

} // verus!
