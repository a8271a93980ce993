//! Graph diff between two revisions: the status of a changed item, how a
//! symbol was matched across revisions, the keys and groups the diff view
//! uses, and the diff of the files the two graphs index.

use vstd::prelude::*;
use crate::text::{chars_of, concat, string_of, str_eq};
use crate::types::{NodeLabel, RelationType, relation_name};
use crate::graph::{EdgeView, GraphEdge, GraphNode, GraphStore, GraphView, NodeView, listed};
use crate::linking::{file_id, file_node_id};
use crate::paths::{path_file_name, path_parent_str, spec_parent_or_empty, spec_path_file_name};
use crate::export::node_degree;
use crate::scanner::{lex_lt, lex_lt_exec, lemma_lex_total, lemma_lex_transitive};
use crate::call_resolver::contains_str;
use vstd::hash_map::StringHashMap;

verus! {

/// How an item changed between two revisions.
#[derive(Debug, Clone, Copy, PartialEq, Eq, Structural)]
pub enum DiffStatus {
    Added,
    Removed,
    Modified,
    Moved,
    Unchanged,
}

impl DiffStatus {
    /// Whether the item changed at all.
    pub fn is_changed(self) -> (r: bool)
        ensures
            r == !(self is Unchanged),
    {
        !matches!(self, DiffStatus::Unchanged)
    }
}

/// How a symbol of one revision was matched with one of the other.
#[derive(Debug, Clone, Copy, PartialEq, Eq, Structural)]
pub enum MatchKind {
    Location,
    Symbol,
    Body,
}

/// The rank of a status when changes are listed: modified first, then
/// moved, added, removed, unchanged.
pub open spec fn spec_status_priority(status: DiffStatus) -> usize {
    match status {
        DiffStatus::Modified => 0,
        DiffStatus::Moved => 1,
        DiffStatus::Added => 2,
        DiffStatus::Removed => 3,
        DiffStatus::Unchanged => 4,
    }
}

/// The rank of a status when changes are listed.
pub fn status_priority(status: DiffStatus) -> (r: usize)
    ensures
        r == spec_status_priority(status),
{
    match status {
        DiffStatus::Modified => 0,
        DiffStatus::Moved => 1,
        DiffStatus::Added => 2,
        DiffStatus::Removed => 3,
        DiffStatus::Unchanged => 4,
    }
}

/// Changed items rank before unchanged ones, and no two statuses share a rank.
pub proof fn lemma_status_priority_order(a: DiffStatus, b: DiffStatus)
    ensures
        a != b ==> spec_status_priority(a) != spec_status_priority(b),
        (!(a is Unchanged) && b is Unchanged) ==> spec_status_priority(a) < spec_status_priority(b),
{
}

/// The name of a match kind.
pub open spec fn spec_match_kind_name(kind: MatchKind) -> Seq<char> {
    match kind {
        MatchKind::Location => "location"@,
        MatchKind::Symbol => "symbol"@,
        MatchKind::Body => "body"@,
    }
}

/// The name of a match kind.
pub fn match_kind_name(kind: MatchKind) -> (r: &'static str)
    ensures
        r@ == spec_match_kind_name(kind),
{
    match kind {
        MatchKind::Location => "location",
        MatchKind::Symbol => "symbol",
        MatchKind::Body => "body",
    }
}

/// The display group of a node label in the diff view.
pub open spec fn spec_group_for_label(label: NodeLabel) -> u8 {
    match label {
        NodeLabel::File => 0,
        NodeLabel::Class => 1,
        NodeLabel::Interface => 2,
        NodeLabel::Function => 3,
        NodeLabel::Method => 4,
        NodeLabel::Enum => 5,
        NodeLabel::Property => 6,
        NodeLabel::TypeAlias => 7,
        _ => 8,
    }
}

/// The display group of a node label in the diff view.
pub fn group_for_label(label: NodeLabel) -> (r: u8)
    ensures
        r == spec_group_for_label(label),
{
    match label {
        NodeLabel::File => 0,
        NodeLabel::Class => 1,
        NodeLabel::Interface => 2,
        NodeLabel::Function => 3,
        NodeLabel::Method => 4,
        NodeLabel::Enum => 5,
        NodeLabel::Property => 6,
        NodeLabel::TypeAlias => 7,
        _ => 8,
    }
}

/// The key that identifies an edge across revisions:
/// `source::RELATION::target`.
pub open spec fn spec_canonical_edge_key(source: Seq<char>, rel_type: RelationType, target: Seq<char>) -> Seq<char> {
    source + "::"@ + relation_name(rel_type) + "::"@ + target
}

/// The key that identifies an edge across revisions.
pub fn canonical_edge_key(source: &str, rel_type: RelationType, target: &str) -> (r: String)
    ensures
        r@ == spec_canonical_edge_key(source@, rel_type, target@),
{
    let sep = chars_of("::");
    let rel = chars_of(rel_type.as_str());
    let a = concat(&chars_of(source), &sep);
    let b = concat(&a, &rel);
    let c = concat(&b, &sep);
    let d = concat(&c, &chars_of(target));
    string_of(&d)
}

/// The texts of a list of strings.
pub open spec fn texts(v: Seq<String>) -> Seq<Seq<char>> {
    v.map_values(|s: String| s@)
}

/// Whether the texts are in strictly increasing order.
pub open spec fn strictly_sorted(s: Seq<Seq<char>>) -> bool {
    forall|i: int, j: int| 0 <= i < j < s.len() ==> lex_lt(#[trigger] s[i], #[trigger] s[j])
}

/// Insert `p` into the strictly sorted list `v` unless it is there.
fn insert_sorted(v: &mut Vec<String>, p: &str)
    requires
        strictly_sorted(texts(old(v)@)),
    ensures
        strictly_sorted(texts(final(v)@)),
        forall|x: Seq<char>| #[trigger] texts(final(v)@).contains(x) <==> texts(old(v)@).contains(x) || x == p@,
{
    let ghost t = texts(v@);
    let mut k: usize = 0;
    while k < v.len() && lex_lt_exec(v[k].as_str(), p)
        invariant
            k <= v@.len(),
            t == texts(v@),
            t == texts(old(v)@),
            forall|i: int| 0 <= i < k ==> lex_lt(#[trigger] t[i], p@),
        decreases v.len() - k,
    {
        k = k + 1;
    }
    if k < v.len() && str_eq(v[k].as_str(), p) {
        assert(t[k as int] == p@);
        assert forall|x: Seq<char>| #[trigger] t.contains(x) <==> t.contains(x) || x == p@ by {
            if x == p@ {
                assert(t[k as int] == x);
            }
        }
        return;
    }
    proof {
        if k < t.len() {
            lemma_lex_total(t[k as int], p@);
            assert(lex_lt(p@, t[k as int]));
        }
    }
    v.insert(k, p.to_owned());
    proof {
        let n = texts(v@);
        assert(n =~= t.insert(k as int, p@));
        assert forall|i: int, j: int| 0 <= i < j < n.len() implies lex_lt(#[trigger] n[i], #[trigger] n[j]) by {
            if j < k {
                assert(n[i] == t[i] && n[j] == t[j]);
            } else if j == k {
                assert(n[i] == t[i]);
            } else if i == k {
                assert(n[j] == t[j - 1]);
                if j - 1 > k {
                    lemma_lex_transitive(p@, t[k as int], t[j - 1]);
                }
            } else if i < k {
                assert(n[i] == t[i] && n[j] == t[j - 1]);
                if j - 1 >= k {
                    lemma_lex_transitive(t[i], p@, t[k as int]);
                    if j - 1 > k {
                        lemma_lex_transitive(t[i], t[k as int], t[j - 1]);
                    }
                }
            } else {
                assert(n[i] == t[i - 1] && n[j] == t[j - 1]);
            }
        }
        assert forall|x: Seq<char>| #[trigger] n.contains(x) <==> t.contains(x) || x == p@ by {
            if n.contains(x) {
                let m = choose|m: int| 0 <= m < n.len() && n[m] == x;
                if m < k {
                    assert(t[m] == x);
                } else if m > k {
                    assert(t[m - 1] == x);
                }
            }
            if t.contains(x) {
                let m = choose|m: int| 0 <= m < t.len() && t[m] == x;
                if m < k {
                    assert(n[m] == x);
                } else {
                    assert(n[m + 1] == x);
                }
            }
            if x == p@ {
                assert(n[k as int] == x);
            }
        }
    }
}

/// What a list holds once `x` is pushed on it.
proof fn lemma_contains_push(s: Seq<Seq<char>>, x: Seq<char>)
    ensures
        forall|p: Seq<char>| #[trigger] s.push(x).contains(p) <==> s.contains(p) || p == x,
{
    assert forall|p: Seq<char>| #[trigger] s.push(x).contains(p) <==> s.contains(p) || p == x by {
        if s.push(x).contains(p) && p != x {
            let m = choose|m: int| 0 <= m < s.push(x).len() && s.push(x)[m] == p;
            assert(s[m] == p);
        }
        if s.contains(p) {
            let m = choose|m: int| 0 <= m < s.len() && s[m] == p;
            assert(s.push(x)[m] == p);
        }
        if p == x {
            assert(s.push(x)[s.len() as int] == p);
        }
    }
}

/// The paths of the File nodes among `ns`.
pub open spec fn file_paths_of(ns: Seq<NodeView>) -> Set<Seq<char>> {
    Set::new(|p: Seq<char>| exists|i: int| 0 <= i < ns.len() && ns[i].label == NodeLabel::File && #[trigger] ns[i].file_path == p)
}

/// The stored hash of the file `p`, if any.
pub open spec fn stored_hash_of(g: GraphView, p: Seq<char>) -> Option<u64> {
    if g.file_hashes.dom().contains(p) {
        Some(g.file_hashes[p])
    } else {
        None
    }
}

/// A file's status: added when only the head indexes it, removed when only
/// the base does, modified when both do with different hashes, else
/// unchanged.
pub open spec fn spec_file_status(in_base: bool, in_head: bool, base_hash: Option<u64>, head_hash: Option<u64>) -> DiffStatus {
    if !in_base && in_head {
        DiffStatus::Added
    } else if in_base && !in_head {
        DiffStatus::Removed
    } else if in_base && in_head && base_hash != head_hash {
        DiffStatus::Modified
    } else {
        DiffStatus::Unchanged
    }
}

/// The content of a file's diff record.
pub struct FileDiffView {
    pub path: Seq<char>,
    pub status: DiffStatus,
    pub base_hash: Option<u64>,
    pub head_hash: Option<u64>,
}

/// How a file differs between the two revisions.
#[derive(Debug, Clone)]
pub struct FileDiffRecord {
    pub path: String,
    pub status: DiffStatus,
    pub base_hash: Option<u64>,
    pub head_hash: Option<u64>,
}

impl View for FileDiffRecord {
    type V = FileDiffView;

    open spec fn view(&self) -> FileDiffView {
        FileDiffView { path: self.path@, status: self.status, base_hash: self.base_hash, head_hash: self.head_hash }
    }
}

/// The paths of a list of file diff records.
pub open spec fn diff_paths(s: Seq<FileDiffRecord>) -> Seq<Seq<char>> {
    s.map_values(|f: FileDiffRecord| f.path@)
}

/// The diff record of the file `p` between the graphs `base` and `head`,
/// whose File nodes have the paths `in_base` and `in_head`.
pub open spec fn file_diff_of(
    base: GraphView,
    in_base: Set<Seq<char>>,
    head: GraphView,
    in_head: Set<Seq<char>>,
    p: Seq<char>,
) -> FileDiffView {
    FileDiffView {
        path: p,
        status: spec_file_status(in_base.contains(p), in_head.contains(p), stored_hash_of(base, p), stored_hash_of(head, p)),
        base_hash: stored_hash_of(base, p),
        head_hash: stored_hash_of(head, p),
    }
}

/// The paths of the File nodes of `nodes`, in order.
fn file_paths(nodes: &Vec<GraphNode>) -> (r: Vec<String>)
    ensures
        forall|p: Seq<char>| #[trigger] texts(r@).contains(p) <==> file_paths_of(nodes@.map_values(|n: GraphNode| n@)).contains(p),
{
    let ghost nv = nodes@.map_values(|n: GraphNode| n@);
    let mut out: Vec<String> = Vec::new();
    let mut i: usize = 0;
    while i < nodes.len()
        invariant
            i <= nodes@.len(),
            nv == nodes@.map_values(|n: GraphNode| n@),
            forall|p: Seq<char>| #[trigger] texts(out@).contains(p) <==> exists|k: int| 0 <= k < i && nv[k].label
                == NodeLabel::File && #[trigger] nv[k].file_path == p,
        decreases nodes.len() - i,
    {
        let ghost before = texts(out@);
        if nodes[i].label == NodeLabel::File {
            out.push(nodes[i].file_path.clone());
            assert(texts(out@) =~= before.push(nv[i as int].file_path));
        }
        assert forall|p: Seq<char>| #[trigger] texts(out@).contains(p) <==> exists|k: int| 0 <= k < i + 1 && nv[k].label
            == NodeLabel::File && #[trigger] nv[k].file_path == p by {
            if texts(out@).contains(p) && !before.contains(p) {
                assert(p == nv[i as int].file_path);
            }
            if before.contains(p) {
                let m = choose|m: int| 0 <= m < before.len() && before[m] == p;
                assert(texts(out@)[m] == p);
            }
            if nv[i as int].label == NodeLabel::File && nv[i as int].file_path == p {
                assert(texts(out@)[before.len() as int] == p);
            }
        }
        i = i + 1;
    }
    assert forall|p: Seq<char>| #[trigger] texts(out@).contains(p) <==> file_paths_of(nv).contains(p) by {
        if texts(out@).contains(p) {
            let k = choose|k: int| 0 <= k < nv.len() && nv[k].label == NodeLabel::File && #[trigger] nv[k].file_path == p;
            assert(file_paths_of(nv).contains(p));
        }
    }
    out
}

/// The files of two revisions' graphs, compared: every path of a File node
/// in either graph once, in increasing order, with its stored hash in each
/// and its status.
pub fn diff_files(base_store: &GraphStore, head_store: &GraphStore) -> (r: Vec<FileDiffRecord>)
    requires
        base_store.wf(),
        head_store.wf(),
    ensures
        strictly_sorted(diff_paths(r@)),
        forall|p: Seq<char>| #[trigger] diff_paths(r@).contains(p) <==> file_paths_of(
            base_store.node_list(),
        ).contains(p) || file_paths_of(head_store.node_list()).contains(p),
        forall|i: int| 0 <= i < r@.len() ==> (#[trigger] r@[i])@ == file_diff_of(
            base_store@,
            file_paths_of(base_store.node_list()),
            head_store@,
            file_paths_of(head_store.node_list()),
            r@[i].path@,
        ),
{
    let base_paths = file_paths(&base_store.nodes());
    let head_paths = file_paths(&head_store.nodes());
    let ghost bset = file_paths_of(base_store.node_list());
    let ghost hset = file_paths_of(head_store.node_list());
    let mut paths: Vec<String> = Vec::new();
    let mut i: usize = 0;
    while i < base_paths.len()
        invariant
            i <= base_paths@.len(),
            strictly_sorted(texts(paths@)),
            forall|p: Seq<char>| #[trigger] texts(paths@).contains(p) <==> texts(base_paths@).subrange(0, i as int).contains(p),
        decreases base_paths.len() - i,
    {
        insert_sorted(&mut paths, base_paths[i].as_str());
        proof {
            let b = texts(base_paths@);
            assert(b.subrange(0, i + 1) =~= b.subrange(0, i as int).push(b[i as int]));
            lemma_contains_push(b.subrange(0, i as int), b[i as int]);
        }
        i = i + 1;
    }
    assert(texts(base_paths@).subrange(0, base_paths@.len() as int) =~= texts(base_paths@));
    let mut j: usize = 0;
    while j < head_paths.len()
        invariant
            j <= head_paths@.len(),
            strictly_sorted(texts(paths@)),
            forall|p: Seq<char>| #[trigger] texts(paths@).contains(p) <==> texts(base_paths@).contains(p) || texts(
                head_paths@,
            ).subrange(0, j as int).contains(p),
        decreases head_paths.len() - j,
    {
        insert_sorted(&mut paths, head_paths[j].as_str());
        proof {
            let b = texts(head_paths@);
            assert(b.subrange(0, j + 1) =~= b.subrange(0, j as int).push(b[j as int]));
            lemma_contains_push(b.subrange(0, j as int), b[j as int]);
        }
        j = j + 1;
    }
    assert(texts(head_paths@).subrange(0, head_paths@.len() as int) =~= texts(head_paths@));
    let mut out: Vec<FileDiffRecord> = Vec::new();
    let mut k: usize = 0;
    while k < paths.len()
        invariant
            k <= paths@.len(),
            base_store.wf(),
            head_store.wf(),
            bset == file_paths_of(base_store.node_list()),
            hset == file_paths_of(head_store.node_list()),
            forall|p: Seq<char>| #[trigger] texts(base_paths@).contains(p) <==> bset.contains(p),
            forall|p: Seq<char>| #[trigger] texts(head_paths@).contains(p) <==> hset.contains(p),
            diff_paths(out@) == texts(paths@).subrange(0, k as int),
            forall|i: int| 0 <= i < out@.len() ==> (#[trigger] out@[i])@ == file_diff_of(
                base_store@,
                bset,
                head_store@,
                hset,
                out@[i].path@,
            ),
        decreases paths.len() - k,
    {
        let p = paths[k].as_str();
        let base_hash = base_store.get_file_hash(p);
        let head_hash = head_store.get_file_hash(p);
        let in_base = contains_str(&base_paths, p);
        let in_head = contains_str(&head_paths, p);
        assert(texts(base_paths@) =~= base_paths@.map_values(|x: String| x@));
        assert(texts(head_paths@) =~= head_paths@.map_values(|x: String| x@));
        let status = if !in_base && in_head {
            DiffStatus::Added
        } else if in_base && !in_head {
            DiffStatus::Removed
        } else if in_base && in_head && base_hash != head_hash {
            DiffStatus::Modified
        } else {
            DiffStatus::Unchanged
        };
        let rec = FileDiffRecord { path: p.to_owned(), status, base_hash, head_hash };
        assert(base_hash == stored_hash_of(base_store@, p@));
        assert(head_hash == stored_hash_of(head_store@, p@));
        assert(in_base == bset.contains(p@));
        assert(in_head == hset.contains(p@));
        assert(rec@ == file_diff_of(base_store@, bset, head_store@, hset, p@));
        let ghost before = diff_paths(out@);
        out.push(rec);
        assert(diff_paths(out@) =~= before.push(p@));
        assert(texts(paths@).subrange(0, k + 1) =~= texts(paths@).subrange(0, k as int).push(p@));
        k = k + 1;
    }
    assert(texts(paths@).subrange(0, paths@.len() as int) =~= texts(paths@));
    out
}

/// How one symbol differs between the two revisions: its canonical id, its
/// status, how it was matched, whether its body changed, its node in each
/// revision where it has one, and its degrees in the revision it is taken
/// from.
#[derive(Debug)]
pub struct SymbolRecord {
    pub canonical_id: String,
    pub status: DiffStatus,
    pub match_kind: Option<MatchKind>,
    pub body_changed: bool,
    pub base: Option<GraphNode>,
    pub head: Option<GraphNode>,
    pub degree: usize,
    pub in_deg: usize,
    pub out_deg: usize,
}

/// The file path of an optional node.
pub open spec fn opt_file(n: Option<GraphNode>) -> Option<Seq<char>> {
    match n {
        Some(x) => Some(x.file_path@),
        None => None,
    }
}

/// The files to show: every changed file, and the files (in either revision)
/// of every selected symbol.
pub open spec fn shown_file(
    selected: Set<Seq<char>>,
    records: Seq<SymbolRecord>,
    files: Seq<FileDiffRecord>,
    p: Seq<char>,
) -> bool {
    ||| exists|i: int| 0 <= i < files.len() && files[i].status != DiffStatus::Unchanged && #[trigger] files[i].path@ == p
    ||| exists|j: int| #![trigger records[j]] 0 <= j < records.len() && selected.contains(records[j].canonical_id@) && (
        opt_file(records[j].head) == Some(p) || opt_file(records[j].base) == Some(p))
}

/// Add `p` to the list `v` unless `seen` holds it, keeping `seen` the set of
/// `v`'s texts.
fn add_once(v: &mut Vec<String>, seen: &mut StringHashMap<()>, p: &str)
    requires
        forall|x: Seq<char>| #[trigger] old(seen)@.contains_key(x) <==> texts(old(v)@).contains(x),
        texts(old(v)@).no_duplicates(),
    ensures
        forall|x: Seq<char>| #[trigger] final(seen)@.contains_key(x) <==> texts(final(v)@).contains(x),
        forall|x: Seq<char>| #[trigger] texts(final(v)@).contains(x) <==> texts(old(v)@).contains(x) || x == p@,
        texts(final(v)@).no_duplicates(),
{
    if !seen.contains_key(p) {
        let ghost before = texts(v@);
        v.push(p.to_owned());
        seen.insert(p.to_owned(), ());
        proof {
            assert(texts(v@) =~= before.push(p@));
            lemma_contains_push(before, p@);
            assert forall|i: int, j: int| 0 <= i < j < texts(v@).len() implies texts(v@)[i] != texts(v@)[j] by {
                if j == before.len() {
                    assert(texts(v@)[i] == before[i]);
                }
            }
        }
    } else {
        assert forall|x: Seq<char>| #[trigger] texts(v@).contains(x) <==> texts(v@).contains(x) || x == p@ by {}
    }
}

/// The file paths to show in the diff: each changed file, and the files in
/// either revision of each selected symbol; each once.
pub fn select_file_paths(selected_ids: &Vec<String>, records: &[SymbolRecord], files: &[FileDiffRecord]) -> (r: Vec<String>)
    ensures
        texts(r@).no_duplicates(),
        forall|p: Seq<char>| #[trigger] texts(r@).contains(p) <==> shown_file(
            texts(selected_ids@).to_set(),
            records@,
            files@,
            p,
        ),
{
    let ghost sel = texts(selected_ids@).to_set();
    let mut out: Vec<String> = Vec::new();
    let mut seen: StringHashMap<()> = StringHashMap::new();
    let mut i: usize = 0;
    while i < files.len()
        invariant
            i <= files@.len(),
            texts(out@).no_duplicates(),
            forall|x: Seq<char>| #[trigger] seen@.contains_key(x) <==> texts(out@).contains(x),
            forall|p: Seq<char>| #[trigger] texts(out@).contains(p) <==> exists|k: int| 0 <= k < i && files@[k].status
                != DiffStatus::Unchanged && #[trigger] files@[k].path@ == p,
        decreases files.len() - i,
    {
        if files[i].status.is_changed() {
            add_once(&mut out, &mut seen, files[i].path.as_str());
        }
        i = i + 1;
    }
    let mut j: usize = 0;
    while j < records.len()
        invariant
            j <= records@.len(),
            sel == texts(selected_ids@).to_set(),
            texts(out@).no_duplicates(),
            forall|x: Seq<char>| #[trigger] seen@.contains_key(x) <==> texts(out@).contains(x),
            forall|p: Seq<char>| #[trigger] texts(out@).contains(p) <==> (exists|k: int| 0 <= k < files@.len() && files@[k].status
                != DiffStatus::Unchanged && #[trigger] files@[k].path@ == p) || (exists|k: int| #![trigger records@[k]] 0 <= k
                < j && sel.contains(records@[k].canonical_id@) && (opt_file(records@[k].head) == Some(p) || opt_file(
                records@[k].base,
            ) == Some(p))),
        decreases records.len() - j,
    {
        let rec = &records[j];
        let chosen = contains_str(selected_ids, rec.canonical_id.as_str());
        assert(texts(selected_ids@) =~= selected_ids@.map_values(|x: String| x@));
        assert(chosen == sel.contains(rec.canonical_id@));
        if chosen {
            match &rec.head {
                Some(h) => add_once(&mut out, &mut seen, h.file_path.as_str()),
                None => {},
            }
            match &rec.base {
                Some(b) => add_once(&mut out, &mut seen, b.file_path.as_str()),
                None => {},
            }
        }
        j = j + 1;
    }
    out
}

/// The canonical id of each node of one revision: each record's node maps
/// to its canonical id (a later record wins), and each shown file's node
/// `file::p` maps to itself.
pub open spec fn canonical_map(records: Seq<SymbolRecord>, paths: Seq<Seq<char>>, head: bool) -> Map<Seq<char>, Seq<char>>
    decreases records.len() + paths.len(),
{
    if paths.len() > 0 {
        let fid = "file::"@ + paths.last();
        canonical_map(records, paths.drop_last(), head).insert(fid, fid)
    } else if records.len() > 0 {
        let prev = canonical_map(records.drop_last(), paths, head);
        let r = records.last();
        match (if head { r.head } else { r.base }) {
            Some(n) => prev.insert(n.id@, r.canonical_id@),
            None => prev,
        }
    } else {
        Map::empty()
    }
}

/// The texts of a map's string values.
pub open spec fn text_values(m: Map<Seq<char>, String>) -> Map<Seq<char>, Seq<char>> {
    m.map_values(|v: String| v@)
}

/// The canonical ids of the nodes of the base (`head` false) or head
/// revision.
pub fn canonical_ids(records: &[SymbolRecord], paths: &Vec<String>, head: bool) -> (r: StringHashMap<String>)
    ensures
        text_values(r@) == canonical_map(records@, texts(paths@), head),
{
    let mut m: StringHashMap<String> = StringHashMap::new();
    let mut i: usize = 0;
    assert(text_values(m@) =~= canonical_map(Seq::empty(), Seq::empty(), head));
    while i < records.len()
        invariant
            i <= records@.len(),
            text_values(m@) == canonical_map(records@.subrange(0, i as int), Seq::empty(), head),
        decreases records.len() - i,
    {
        let rec = &records[i];
        let ghost before = m@;
        let node = if head { &rec.head } else { &rec.base };
        match node {
            Some(n) => {
                m.insert(n.id.clone(), rec.canonical_id.clone());
                assert(text_values(m@) =~= text_values(before).insert(n.id@, rec.canonical_id@));
            },
            None => {},
        }
        assert(records@.subrange(0, i + 1).drop_last() =~= records@.subrange(0, i as int));
        assert(records@.subrange(0, i + 1).last() == records@[i as int]);
        i = i + 1;
    }
    assert(records@.subrange(0, records@.len() as int) =~= records@);
    assert(texts(paths@).subrange(0, 0) =~= Seq::<Seq<char>>::empty());
    let mut k: usize = 0;
    while k < paths.len()
        invariant
            k <= paths@.len(),
            text_values(m@) == canonical_map(records@, texts(paths@).subrange(0, k as int), head),
        decreases paths.len() - k,
    {
        let ghost before = m@;
        let pre = chars_of("file::");
        proof {
            reveal_strlit("file::");
        }
        let fid = string_of(concat(pre.as_slice(), chars_of(paths[k].as_str()).as_slice()).as_slice());
        m.insert(fid.clone(), fid);
        assert(text_values(m@) =~= text_values(before).insert("file::"@ + paths@[k as int]@, "file::"@ + paths@[k as int]@));
        assert(texts(paths@).subrange(0, k + 1).drop_last() =~= texts(paths@).subrange(0, k as int));
        k = k + 1;
    }
    assert(texts(paths@).subrange(0, paths@.len() as int) =~= texts(paths@));
    m
}

/// The content of an edge between canonical ids.
pub struct CanonEdgeView {
    pub source: Seq<char>,
    pub target: Seq<char>,
    pub rel_type: RelationType,
    pub confidence: u32,
}

/// An edge of one revision, its ends given by canonical id.
#[derive(Debug)]
pub struct CanonEdge {
    pub source: String,
    pub target: String,
    pub rel_type: RelationType,
    pub confidence: u32,
}

impl View for CanonEdge {
    type V = CanonEdgeView;

    open spec fn view(&self) -> CanonEdgeView {
        CanonEdgeView { source: self.source@, target: self.target@, rel_type: self.rel_type, confidence: self.confidence }
    }
}

/// The edge `e` under its canonical key, when both its ends have a canonical
/// id.
pub open spec fn canon_entry(canon: Map<Seq<char>, Seq<char>>, e: EdgeView) -> Option<(Seq<char>, CanonEdgeView)> {
    if canon.contains_key(e.source_id) && canon.contains_key(e.target_id) {
        let s = canon[e.source_id];
        let t = canon[e.target_id];
        Some((spec_canonical_edge_key(s, e.rel_type, t), CanonEdgeView { source: s, target: t, rel_type: e.rel_type, confidence: e.confidence }))
    } else {
        None
    }
}

/// The canonical edges of a revision: by key (a later edge wins), and the
/// keys in the order first seen.
pub open spec fn canon_edges(canon: Map<Seq<char>, Seq<char>>, es: Seq<EdgeView>) -> (Map<Seq<char>, CanonEdgeView>, Seq<Seq<char>>)
    decreases es.len(),
{
    if es.len() == 0 {
        (Map::empty(), Seq::empty())
    } else {
        let (m, ks) = canon_edges(canon, es.drop_last());
        match canon_entry(canon, es.last()) {
            Some((k, v)) => (m.insert(k, v), if m.contains_key(k) {
                ks
            } else {
                ks.push(k)
            }),
            None => (m, ks),
        }
    }
}

/// The views of a map's canonical edges.
pub open spec fn canon_values(m: Map<Seq<char>, CanonEdge>) -> Map<Seq<char>, CanonEdgeView> {
    m.map_values(|e: CanonEdge| e@)
}

/// The edges of a revision's store between canonical ids.
pub fn canonical_edges(store: &GraphStore, canon: &StringHashMap<String>) -> (r: (StringHashMap<CanonEdge>, Vec<String>))
    requires
        store.wf(),
    ensures
        (canon_values(r.0@), texts(r.1@)) == canon_edges(text_values(canon@), store.edge_list()),
        forall|k: Seq<char>| #[trigger] r.0@.contains_key(k) <==> texts(r.1@).contains(k),
{
    let edges = store.edges();
    let ghost ev = edges@.map_values(|e: GraphEdge| e@);
    let ghost cv = text_values(canon@);
    let mut m: StringHashMap<CanonEdge> = StringHashMap::new();
    let mut keys: Vec<String> = Vec::new();
    let mut i: usize = 0;
    assert(canon_values(m@) =~= Map::empty());
    while i < edges.len()
        invariant
            i <= edges@.len(),
            ev == edges@.map_values(|e: GraphEdge| e@),
            cv == text_values(canon@),
            (canon_values(m@), texts(keys@)) == canon_edges(cv, ev.subrange(0, i as int)),
            forall|k: Seq<char>| #[trigger] m@.contains_key(k) <==> texts(keys@).contains(k),
        decreases edges.len() - i,
    {
        let e = &edges[i];
        assert(ev.subrange(0, i + 1).drop_last() =~= ev.subrange(0, i as int));
        assert(ev.subrange(0, i + 1).last() == e@);
        match (canon.get(e.source_id.as_str()), canon.get(e.target_id.as_str())) {
            (Some(s), Some(t)) => {
                let key = canonical_edge_key(s.as_str(), e.rel_type, t.as_str());
                let ghost before = m@;
                let ghost kb = texts(keys@);
                let fresh = !m.contains_key(key.as_str());
                if fresh {
                    keys.push(key.clone());
                    assert(texts(keys@) =~= kb.push(key@));
                    proof {
                        lemma_contains_push(kb, key@);
                    }
                }
                m.insert(key, CanonEdge { source: s.clone(), target: t.clone(), rel_type: e.rel_type, confidence: e.confidence });
                assert(canon_values(m@) =~= canon_values(before).insert(
                    key@,
                    CanonEdgeView { source: s@, target: t@, rel_type: e.rel_type, confidence: e.confidence },
                ));
            },
            _ => {},
        }
        i = i + 1;
    }
    assert(ev.subrange(0, ev.len() as int) =~= ev);
    (m, keys)
}

/// The content of a diff link.
pub struct DiffLinkView {
    pub source: Seq<char>,
    pub target: Seq<char>,
    pub rel_type: RelationType,
    pub status: DiffStatus,
    pub confidence: u32,
}

/// An edge of the diff, between canonical ids, with its status.
#[derive(Debug, Clone)]
pub struct DiffLink {
    pub source: String,
    pub target: String,
    pub rel_type: RelationType,
    pub status: DiffStatus,
    /// The edge's confidence, in thousandths.
    pub confidence: u32,
}

impl View for DiffLink {
    type V = DiffLinkView;

    open spec fn view(&self) -> DiffLinkView {
        DiffLinkView {
            source: self.source@,
            target: self.target@,
            rel_type: self.rel_type,
            status: self.status,
            confidence: self.confidence,
        }
    }
}

/// The link of a canonical edge with a status.
pub open spec fn link_of(e: CanonEdgeView, status: DiffStatus) -> DiffLinkView {
    DiffLinkView { source: e.source, target: e.target, rel_type: e.rel_type, status, confidence: e.confidence }
}

/// The head's edges between shown nodes, in key order: unchanged when the
/// base has the same key, else added.
pub open spec fn head_links(
    hm: Map<Seq<char>, CanonEdgeView>,
    hks: Seq<Seq<char>>,
    bm: Map<Seq<char>, CanonEdgeView>,
    shown: Set<Seq<char>>,
) -> Seq<DiffLinkView>
    decreases hks.len(),
{
    if hks.len() == 0 {
        Seq::empty()
    } else {
        let prev = head_links(hm, hks.drop_last(), bm, shown);
        let e = hm[hks.last()];
        if shown.contains(e.source) && shown.contains(e.target) {
            prev.push(link_of(e, if bm.contains_key(hks.last()) { DiffStatus::Unchanged } else { DiffStatus::Added }))
        } else {
            prev
        }
    }
}

/// The base's edges between shown nodes whose key the head lacks: removed.
pub open spec fn removed_links(
    bm: Map<Seq<char>, CanonEdgeView>,
    bks: Seq<Seq<char>>,
    hm: Map<Seq<char>, CanonEdgeView>,
    shown: Set<Seq<char>>,
) -> Seq<DiffLinkView>
    decreases bks.len(),
{
    if bks.len() == 0 {
        Seq::empty()
    } else {
        let prev = removed_links(bm, bks.drop_last(), hm, shown);
        let e = bm[bks.last()];
        if !hm.contains_key(bks.last()) && shown.contains(e.source) && shown.contains(e.target) {
            prev.push(link_of(e, DiffStatus::Removed))
        } else {
            prev
        }
    }
}

/// Every link of a diff joins two shown nodes; a link from the head is
/// added or unchanged, and one from the base is removed.
pub proof fn lemma_links_join_shown_nodes(
    hm: Map<Seq<char>, CanonEdgeView>,
    hks: Seq<Seq<char>>,
    bm: Map<Seq<char>, CanonEdgeView>,
    bks: Seq<Seq<char>>,
    shown: Set<Seq<char>>,
)
    ensures
        forall|i: int| 0 <= i < head_links(hm, hks, bm, shown).len() ==> {
            let l = #[trigger] head_links(hm, hks, bm, shown)[i];
            &&& shown.contains(l.source) && shown.contains(l.target)
            &&& (l.status == DiffStatus::Added || l.status == DiffStatus::Unchanged)
        },
        forall|i: int| 0 <= i < removed_links(bm, bks, hm, shown).len() ==> {
            let l = #[trigger] removed_links(bm, bks, hm, shown)[i];
            &&& shown.contains(l.source) && shown.contains(l.target)
            &&& l.status == DiffStatus::Removed
        },
    decreases hks.len() + bks.len(),
{
    if hks.len() > 0 {
        lemma_links_join_shown_nodes(hm, hks.drop_last(), bm, bks, shown);
    }
    if bks.len() > 0 {
        lemma_links_join_shown_nodes(hm, hks, bm, bks.drop_last(), shown);
    }
}

/// How many links of `ls` have the status `st`.
pub open spec fn count_status(ls: Seq<DiffLinkView>, st: DiffStatus) -> nat
    decreases ls.len(),
{
    if ls.len() == 0 {
        0
    } else {
        count_status(ls.drop_last(), st) + if ls.last().status == st {
            1nat
        } else {
            0nat
        }
    }
}

/// The links of the diff between shown nodes, head edges first (in the
/// order their keys were first seen) then removed base edges, with the
/// number added and the number removed.
pub fn diff_links(
    base_edges: &StringHashMap<CanonEdge>,
    base_keys: &Vec<String>,
    head_edges: &StringHashMap<CanonEdge>,
    head_keys: &Vec<String>,
    shown: &StringHashMap<()>,
) -> (r: (Vec<DiffLink>, usize, usize))
    requires
        forall|k: Seq<char>| #[trigger] base_edges@.contains_key(k) <==> texts(base_keys@).contains(k),
        forall|k: Seq<char>| #[trigger] head_edges@.contains_key(k) <==> texts(head_keys@).contains(k),
    ensures
        ({
            let hl = head_links(canon_values(head_edges@), texts(head_keys@), canon_values(base_edges@), shown@.dom());
            let rl = removed_links(canon_values(base_edges@), texts(base_keys@), canon_values(head_edges@), shown@.dom());
            &&& r.0@.map_values(|l: DiffLink| l@) == hl + rl
            &&& r.1 == count_status(hl, DiffStatus::Added)
            &&& r.2 == rl.len()
        }),
{
    let ghost hm = canon_values(head_edges@);
    let ghost bm = canon_values(base_edges@);
    let ghost hk = texts(head_keys@);
    let ghost bk = texts(base_keys@);
    let ghost sh = shown@.dom();
    let mut links: Vec<DiffLink> = Vec::new();
    let mut added: usize = 0;
    let mut i: usize = 0;
    while i < head_keys.len()
        invariant
            i <= head_keys@.len(),
            hm == canon_values(head_edges@),
            bm == canon_values(base_edges@),
            hk == texts(head_keys@),
            sh == shown@.dom(),
            forall|k: Seq<char>| #[trigger] head_edges@.contains_key(k) <==> texts(head_keys@).contains(k),
            links@.map_values(|l: DiffLink| l@) == head_links(hm, hk.subrange(0, i as int), bm, sh),
            added == count_status(head_links(hm, hk.subrange(0, i as int), bm, sh), DiffStatus::Added),
            added <= links@.len(),
        decreases head_keys.len() - i,
    {
        let key = head_keys[i].as_str();
        assert(hk.subrange(0, i + 1).drop_last() =~= hk.subrange(0, i as int));
        assert(hk.subrange(0, i + 1).last() == key@);
        assert(hk[i as int] == key@);
        assert(head_edges@.contains_key(key@));
        match head_edges.get(key) {
            Some(e) => {
                if shown.contains_key(e.source.as_str()) && shown.contains_key(e.target.as_str()) {
                    let status = if base_edges.contains_key(key) { DiffStatus::Unchanged } else { DiffStatus::Added };
                    let ghost before = links@.map_values(|l: DiffLink| l@);
                    links.push(DiffLink {
                        source: e.source.clone(),
                        target: e.target.clone(),
                        rel_type: e.rel_type,
                        status,
                        confidence: e.confidence,
                    });
                    assert(links@.map_values(|l: DiffLink| l@) =~= before.push(link_of(e@, status)));
                    assert(before.push(link_of(e@, status)).drop_last() =~= before);
                    let made: usize = links.len();
                    if status == DiffStatus::Added {
                        assert(added < made);
                        added = added + 1;
                    }
                }
            },
            None => {},
        }
        i = i + 1;
    }
    assert(hk.subrange(0, hk.len() as int) =~= hk);
    let ghost hl = links@.map_values(|l: DiffLink| l@);
    let mut removed: usize = 0;
    let mut j: usize = 0;
    while j < base_keys.len()
        invariant
            j <= base_keys@.len(),
            hm == canon_values(head_edges@),
            bm == canon_values(base_edges@),
            bk == texts(base_keys@),
            sh == shown@.dom(),
            forall|k: Seq<char>| #[trigger] base_edges@.contains_key(k) <==> texts(base_keys@).contains(k),
            links@.map_values(|l: DiffLink| l@) == hl + removed_links(bm, bk.subrange(0, j as int), hm, sh),
            removed == removed_links(bm, bk.subrange(0, j as int), hm, sh).len(),
            removed <= links@.len(),
        decreases base_keys.len() - j,
    {
        let key = base_keys[j].as_str();
        assert(bk.subrange(0, j + 1).drop_last() =~= bk.subrange(0, j as int));
        assert(bk.subrange(0, j + 1).last() == key@);
        assert(bk[j as int] == key@);
        assert(base_edges@.contains_key(key@));
        if !head_edges.contains_key(key) {
            match base_edges.get(key) {
                Some(e) => {
                    if shown.contains_key(e.source.as_str()) && shown.contains_key(e.target.as_str()) {
                        let ghost before = links@.map_values(|l: DiffLink| l@);
                        links.push(DiffLink {
                            source: e.source.clone(),
                            target: e.target.clone(),
                            rel_type: e.rel_type,
                            status: DiffStatus::Removed,
                            confidence: e.confidence,
                        });
                        assert(links@.map_values(|l: DiffLink| l@) =~= before.push(link_of(e@, DiffStatus::Removed)));
                        let made: usize = links.len();
                        assert(removed < made);
                        removed = removed + 1;
                    }
                },
                None => {},
            }
        }
        j = j + 1;
    }
    assert(bk.subrange(0, bk.len() as int) =~= bk);
    (links, added, removed)
}

/// The nodes the diff shows: the node `file::p` of each listed file whose
/// path is shown, and each record whose canonical id is selected.
pub open spec fn shown_ids(
    paths: Set<Seq<char>>,
    files: Seq<FileDiffRecord>,
    symbol_ids: Set<Seq<char>>,
    records: Seq<SymbolRecord>,
) -> Set<Seq<char>> {
    Set::new(
        |x: Seq<char>|
            (exists|i: int| 0 <= i < files.len() && paths.contains(files[i].path@) && x == "file::"@ + #[trigger] files[i].path@)
                || (exists|j: int| 0 <= j < records.len() && symbol_ids.contains(records[j].canonical_id@) && x
                == #[trigger] records[j].canonical_id@),
    )
}

/// The ids of the nodes the diff shows.
pub fn shown_node_ids(
    paths: &Vec<String>,
    files: &[FileDiffRecord],
    symbol_ids: &Vec<String>,
    records: &[SymbolRecord],
) -> (r: StringHashMap<()>)
    ensures
        r@.dom() == shown_ids(texts(paths@).to_set(), files@, texts(symbol_ids@).to_set(), records@),
{
    let ghost ps = texts(paths@).to_set();
    let ghost ss = texts(symbol_ids@).to_set();
    let ghost target = shown_ids(ps, files@, ss, records@);
    let mut m: StringHashMap<()> = StringHashMap::new();
    assert(texts(paths@) =~= paths@.map_values(|x: String| x@));
    assert(texts(symbol_ids@) =~= symbol_ids@.map_values(|x: String| x@));
    let mut i: usize = 0;
    while i < files.len()
        invariant
            i <= files@.len(),
            ps == texts(paths@).to_set(),
            texts(paths@) == paths@.map_values(|x: String| x@),
            forall|x: Seq<char>| #[trigger] m@.contains_key(x) <==> exists|k: int| 0 <= k < i && ps.contains(files@[k].path@)
                && x == "file::"@ + #[trigger] files@[k].path@,
        decreases files.len() - i,
    {
        let f = &files[i];
        if contains_str(paths, f.path.as_str()) {
            let pre = chars_of("file::");
            proof {
                reveal_strlit("file::");
            }
            let fid = string_of(concat(pre.as_slice(), chars_of(f.path.as_str()).as_slice()).as_slice());
            m.insert(fid, ());
        }
        i = i + 1;
    }
    let mut j: usize = 0;
    while j < records.len()
        invariant
            j <= records@.len(),
            ps == texts(paths@).to_set(),
            ss == texts(symbol_ids@).to_set(),
            texts(symbol_ids@) == symbol_ids@.map_values(|x: String| x@),
            forall|x: Seq<char>| #[trigger] m@.contains_key(x) <==> (exists|k: int| 0 <= k < files@.len() && ps.contains(
                files@[k].path@,
            ) && x == "file::"@ + #[trigger] files@[k].path@) || (exists|k: int| 0 <= k < j && ss.contains(
                records@[k].canonical_id@,
            ) && x == #[trigger] records@[k].canonical_id@),
        decreases records.len() - j,
    {
        let rec = &records[j];
        if contains_str(symbol_ids, rec.canonical_id.as_str()) {
            m.insert(rec.canonical_id.clone(), ());
        }
        j = j + 1;
    }
    assert(m@.dom() =~= target);
    m
}

/// Links in order: by source, then target, then relation name.
pub open spec fn link_le(a: DiffLinkView, b: DiffLinkView) -> bool {
    lex_lt(a.source, b.source) || (a.source == b.source && (lex_lt(a.target, b.target) || (a.target == b.target
        && !lex_lt(relation_name(b.rel_type), relation_name(a.rel_type)))))
}

/// The key links are sorted by: source, target and relation name.
pub fn link_sort_key(l: &DiffLink) -> (r: (String, String, String))
    ensures
        r.0@ == l.source@,
        r.1@ == l.target@,
        r.2@ == relation_name(l.rel_type),
{
    (l.source.clone(), l.target.clone(), l.rel_type.as_str().to_owned())
}

/// `slice::sort_by_key` of the links by `link_sort_key`: the result holds the
/// same links, and tuples of `String`s compare field by field, each by its
/// characters in order (the order of their UTF-8 bytes), so it is in
/// `link_le` order.
#[verifier::external_body]
fn sort_links(v: &mut Vec<DiffLink>)
    ensures
        final(v)@.map_values(|l: DiffLink| l@).to_multiset() == old(v)@.map_values(|l: DiffLink| l@).to_multiset(),
        forall|i: int, j: int| 0 <= i < j < final(v)@.len() ==> link_le(#[trigger] final(v)@[i]@, #[trigger] final(v)@[j]@),
{
    v.sort_by_key(|l| link_sort_key(l));
}

/// The links of the diff between shown nodes, sorted by source, target and
/// relation: each head edge (unchanged when the base has it, else added)
/// and each base edge the head lacks (removed); with the numbers added and
/// removed.
pub fn build_links(
    base_store: &GraphStore,
    head_store: &GraphStore,
    base_canonical: &StringHashMap<String>,
    head_canonical: &StringHashMap<String>,
    shown: &StringHashMap<()>,
) -> (r: (Vec<DiffLink>, usize, usize))
    requires
        base_store.wf(),
        head_store.wf(),
    ensures
        ({
            let (bm, bks) = canon_edges(text_values(base_canonical@), base_store.edge_list());
            let (hm, hks) = canon_edges(text_values(head_canonical@), head_store.edge_list());
            let hl = head_links(hm, hks, bm, shown@.dom());
            let rl = removed_links(bm, bks, hm, shown@.dom());
            &&& r.0@.map_values(|l: DiffLink| l@).to_multiset() == (hl + rl).to_multiset()
            &&& forall|i: int, j: int| 0 <= i < j < r.0@.len() ==> link_le(#[trigger] r.0@[i]@, #[trigger] r.0@[j]@)
            &&& r.1 == count_status(hl, DiffStatus::Added)
            &&& r.2 == rl.len()
        }),
{
    let (base_edges, base_keys) = canonical_edges(base_store, base_canonical);
    let (head_edges, head_keys) = canonical_edges(head_store, head_canonical);
    let (mut links, added, removed) = diff_links(&base_edges, &base_keys, &head_edges, &head_keys, shown);
    sort_links(&mut links);
    (links, added, removed)
}

/// The order key of a changed record: its status priority, then its degree
/// from high to low, then its canonical id.
pub open spec fn changed_key(r: SymbolRecord) -> (usize, usize, Seq<char>) {
    (spec_status_priority(r.status), (usize::MAX - r.degree) as usize, r.canonical_id@)
}

/// The order key of an unchanged record: its degree from high to low, then
/// its canonical id.
pub open spec fn unchanged_key(r: SymbolRecord) -> (usize, Seq<char>) {
    ((usize::MAX - r.degree) as usize, r.canonical_id@)
}

/// The keys of the changed records, in record order.
pub open spec fn changed_keys(rs: Seq<SymbolRecord>) -> Seq<(usize, usize, Seq<char>)>
    decreases rs.len(),
{
    if rs.len() == 0 {
        Seq::empty()
    } else if rs.last().status != DiffStatus::Unchanged {
        changed_keys(rs.drop_last()).push(changed_key(rs.last()))
    } else {
        changed_keys(rs.drop_last())
    }
}

/// The keys of the unchanged records present in the head, in record order.
pub open spec fn unchanged_keys(rs: Seq<SymbolRecord>) -> Seq<(usize, Seq<char>)>
    decreases rs.len(),
{
    if rs.len() == 0 {
        Seq::empty()
    } else if rs.last().status == DiffStatus::Unchanged && rs.last().head is Some {
        unchanged_keys(rs.drop_last()).push(unchanged_key(rs.last()))
    } else {
        unchanged_keys(rs.drop_last())
    }
}

/// Tuples of two numbers and a text, compared field by field.
pub open spec fn key3_le(a: (usize, usize, Seq<char>), b: (usize, usize, Seq<char>)) -> bool {
    a.0 < b.0 || (a.0 == b.0 && (a.1 < b.1 || (a.1 == b.1 && !lex_lt(b.2, a.2))))
}

/// Tuples of a number and a text, compared field by field.
pub open spec fn key2_le(a: (usize, Seq<char>), b: (usize, Seq<char>)) -> bool {
    a.0 < b.0 || (a.0 == b.0 && !lex_lt(b.1, a.1))
}

/// The ids chosen: the first `max` changed keys' ids, then unchanged ids in
/// order while fewer than `max` ids are chosen.
pub open spec fn fill_unchanged(chosen: Set<Seq<char>>, us: Seq<(usize, Seq<char>)>, max: nat) -> Set<Seq<char>>
    decreases us.len(),
{
    if us.len() == 0 || chosen.len() >= max {
        chosen
    } else {
        fill_unchanged(chosen.insert(us[0].1), us.drop_first(), max)
    }
}

/// The ids of the first `n` keys of `cs`.
pub open spec fn first_ids(cs: Seq<(usize, usize, Seq<char>)>, n: nat) -> Set<Seq<char>> {
    Set::new(|x: Seq<char>| exists|i: int| 0 <= i < cs.len() && i < n && #[trigger] cs[i].2 == x)
}

/// Whether `chosen` is the set of symbols chosen from `records` with room for
/// `max`: the first `max` changed keys in order, then unchanged keys in
/// order while fewer than `max` ids are chosen.
pub open spec fn is_symbol_choice(records: Seq<SymbolRecord>, max: nat, chosen: Set<Seq<char>>) -> bool {
    exists|cs: Seq<(usize, usize, Seq<char>)>, us: Seq<(usize, Seq<char>)>|
        {
            &&& cs.to_multiset() == changed_keys(records).to_multiset()
            &&& forall|i: int, j: int| 0 <= i < j < cs.len() ==> key3_le(#[trigger] cs[i], #[trigger] cs[j])
            &&& us.to_multiset() == unchanged_keys(records).to_multiset()
            &&& forall|i: int, j: int| 0 <= i < j < us.len() ==> key2_le(#[trigger] us[i], #[trigger] us[j])
            &&& chosen == fill_unchanged(first_ids(cs, max), us, max)
        }
}

/// Filling in unchanged ids only adds to what was chosen.
proof fn lemma_fill_keeps(chosen: Set<Seq<char>>, us: Seq<(usize, Seq<char>)>, max: nat)
    ensures
        chosen.subset_of(fill_unchanged(chosen, us, max)),
    decreases us.len(),
{
    if !(us.len() == 0 || chosen.len() >= max) {
        lemma_fill_keeps(chosen.insert(us[0].1), us.drop_first(), max);
    }
}

/// Every changed record has its key among the changed keys.
proof fn lemma_changed_keys_hold(rs: Seq<SymbolRecord>, i: int)
    requires
        0 <= i < rs.len(),
        rs[i].status != DiffStatus::Unchanged,
    ensures
        changed_keys(rs).contains(changed_key(rs[i])),
    decreases rs.len(),
{
    if i == rs.len() - 1 {
        let ck = changed_keys(rs);
        assert(ck[ck.len() - 1] == changed_key(rs[i]));
    } else {
        lemma_changed_keys_hold(rs.drop_last(), i);
        let ck = changed_keys(rs.drop_last());
        let k = choose|k: int| 0 <= k < ck.len() && ck[k] == changed_key(rs[i]);
        if rs.last().status != DiffStatus::Unchanged {
            assert(changed_keys(rs)[k] == ck[k]);
        }
    }
}

/// Changed symbols come first: where no more symbols changed than there is
/// room for, every changed symbol is shown.
pub proof fn lemma_changed_symbols_shown(records: Seq<SymbolRecord>, max: nat, chosen: Set<Seq<char>>)
    requires
        is_symbol_choice(records, max, chosen),
        changed_keys(records).len() <= max,
    ensures
        forall|i: int| 0 <= i < records.len() && (#[trigger] records[i]).status != DiffStatus::Unchanged
            ==> chosen.contains(records[i].canonical_id@),
{
    let (cs, us) = choose|cs: Seq<(usize, usize, Seq<char>)>, us: Seq<(usize, Seq<char>)>|
        {
            &&& cs.to_multiset() == changed_keys(records).to_multiset()
            &&& forall|i: int, j: int| 0 <= i < j < cs.len() ==> key3_le(#[trigger] cs[i], #[trigger] cs[j])
            &&& us.to_multiset() == unchanged_keys(records).to_multiset()
            &&& forall|i: int, j: int| 0 <= i < j < us.len() ==> key2_le(#[trigger] us[i], #[trigger] us[j])
            &&& chosen == fill_unchanged(first_ids(cs, max), us, max)
        };
    lemma_fill_keeps(first_ids(cs, max), us, max);
    cs.to_multiset_ensures();
    changed_keys(records).to_multiset_ensures();
    assert(cs.len() == changed_keys(records).len());
    assert forall|i: int| 0 <= i < records.len() && (#[trigger] records[i]).status != DiffStatus::Unchanged
        implies chosen.contains(records[i].canonical_id@) by {
        lemma_changed_keys_hold(records, i);
        let key = changed_key(records[i]);
        assert(changed_keys(records).to_multiset().count(key) > 0);
        assert(cs.to_multiset().count(key) > 0);
        let k = choose|k: int| 0 <= k < cs.len() && cs[k] == key;
        assert(first_ids(cs, max).contains(cs[k].2));
    }
}

/// Every changed key is the key of a changed record.
proof fn lemma_changed_keys_from(rs: Seq<SymbolRecord>)
    ensures
        forall|k: int| 0 <= k < changed_keys(rs).len() ==> exists|x: int|
            0 <= x < rs.len() && rs[x].status != DiffStatus::Unchanged && #[trigger] changed_keys(rs)[k] == changed_key(rs[x]),
    decreases rs.len(),
{
    if rs.len() > 0 {
        let q = rs.drop_last();
        lemma_changed_keys_from(q);
        let ck = changed_keys(rs);
        let cq = changed_keys(q);
        assert forall|k: int| 0 <= k < ck.len() implies exists|x: int|
            0 <= x < rs.len() && rs[x].status != DiffStatus::Unchanged && #[trigger] ck[k] == changed_key(rs[x]) by {
            if k < cq.len() {
                assert(ck[k] == cq[k]);
                let x = choose|x: int| 0 <= x < q.len() && q[x].status != DiffStatus::Unchanged && #[trigger] cq[k] == changed_key(q[x]);
                assert(rs[x] == q[x]);
            } else {
                assert(ck[k] == changed_key(rs[rs.len() - 1]));
            }
        }
    }
}

/// Changed symbols come first: where at least as many symbols changed as
/// there is room for, and canonical ids are distinct, no unchanged symbol is
/// shown.
pub proof fn lemma_unchanged_symbols_wait(records: Seq<SymbolRecord>, max: nat, chosen: Set<Seq<char>>)
    requires
        is_symbol_choice(records, max, chosen),
        changed_keys(records).len() >= max,
        forall|i: int, j: int| 0 <= i < j < records.len() ==> (#[trigger] records[i]).canonical_id@
            != (#[trigger] records[j]).canonical_id@,
    ensures
        forall|i: int| 0 <= i < records.len() && (#[trigger] records[i]).status == DiffStatus::Unchanged
            ==> !chosen.contains(records[i].canonical_id@),
{
    let (cs, us) = choose|cs: Seq<(usize, usize, Seq<char>)>, us: Seq<(usize, Seq<char>)>|
        {
            &&& cs.to_multiset() == changed_keys(records).to_multiset()
            &&& forall|i: int, j: int| 0 <= i < j < cs.len() ==> key3_le(#[trigger] cs[i], #[trigger] cs[j])
            &&& us.to_multiset() == unchanged_keys(records).to_multiset()
            &&& forall|i: int, j: int| 0 <= i < j < us.len() ==> key2_le(#[trigger] us[i], #[trigger] us[j])
            &&& chosen == fill_unchanged(first_ids(cs, max), us, max)
        };
    let ck = changed_keys(records);
    cs.to_multiset_ensures();
    ck.to_multiset_ensures();
    lemma_changed_keys_from(records);
    // Each entry of `cs` is the key of a changed record.
    assert forall|a: int| 0 <= a < cs.len() implies exists|x: int|
        0 <= x < records.len() && records[x].status != DiffStatus::Unchanged && #[trigger] cs[a] == changed_key(records[x]) by {
        assert(cs.to_multiset().count(cs[a]) > 0);
        assert(ck.to_multiset().count(cs[a]) > 0);
        let k = choose|k: int| 0 <= k < ck.len() && ck[k] == cs[a];
        assert(ck[k] == cs[a]);
    }
    // The changed keys hold each key once, so `cs` does too.
    assert(ck.no_duplicates()) by {
        assert forall|a: int, b: int| 0 <= a < ck.len() && 0 <= b < ck.len() && a != b implies ck[a] != ck[b] by {
            let x = choose|x: int| 0 <= x < records.len() && records[x].status != DiffStatus::Unchanged && #[trigger] ck[a]
                == changed_key(records[x]);
            let y = choose|y: int| 0 <= y < records.len() && records[y].status != DiffStatus::Unchanged && #[trigger] ck[b]
                == changed_key(records[y]);
            if x == y {
                lemma_changed_keys_distinct_positions(records, a, b);
            }
        }
    }
    ck.lemma_multiset_has_no_duplicates();
    assert forall|x: (usize, usize, Seq<char>)| cs.to_multiset().contains(x) implies cs.to_multiset().count(x) == 1 by {
        assert(ck.to_multiset().contains(x));
    }
    cs.lemma_multiset_has_no_duplicates_conv();
    let ids = cs.take(max as int).map_values(|k: (usize, usize, Seq<char>)| k.2);
    assert(ids.no_duplicates()) by {
        assert forall|a: int, b: int| 0 <= a < ids.len() && 0 <= b < ids.len() && a != b implies ids[a] != ids[b] by {
            let x = choose|x: int| 0 <= x < records.len() && records[x].status != DiffStatus::Unchanged && #[trigger] cs[a]
                == changed_key(records[x]);
            let y = choose|y: int| 0 <= y < records.len() && records[y].status != DiffStatus::Unchanged && #[trigger] cs[b]
                == changed_key(records[y]);
            assert(cs[a] != cs[b]);
            if x < y {
                assert(records[x].canonical_id@ != records[y].canonical_id@);
            } else if y < x {
                assert(records[y].canonical_id@ != records[x].canonical_id@);
            }
        }
    }
    ids.unique_seq_to_set();
    assert(first_ids(cs, max) =~= ids.to_set()) by {
        assert forall|x: Seq<char>| first_ids(cs, max).contains(x) <==> ids.to_set().contains(x) by {
            if first_ids(cs, max).contains(x) {
                let i = choose|i: int| 0 <= i < cs.len() && i < max && #[trigger] cs[i].2 == x;
                assert(ids[i] == x);
            }
            if ids.to_set().contains(x) {
                let i = choose|i: int| 0 <= i < ids.len() && ids[i] == x;
                assert(cs[i].2 == x);
            }
        }
    }
    assert(first_ids(cs, max).len() >= max);
    assert(chosen == first_ids(cs, max));
    assert forall|i: int| 0 <= i < records.len() && (#[trigger] records[i]).status == DiffStatus::Unchanged
        implies !chosen.contains(records[i].canonical_id@) by {
        if chosen.contains(records[i].canonical_id@) {
            let a = choose|a: int| 0 <= a < cs.len() && a < max && #[trigger] cs[a].2 == records[i].canonical_id@;
            let x = choose|x: int| 0 <= x < records.len() && records[x].status != DiffStatus::Unchanged && #[trigger] cs[a]
                == changed_key(records[x]);
            if x < i {
                assert(records[x].canonical_id@ != records[i].canonical_id@);
            } else {
                assert(records[i].canonical_id@ != records[x].canonical_id@);
            }
        }
    }
}

/// Two positions of the changed keys hold keys of two different records.
proof fn lemma_changed_keys_distinct_positions(rs: Seq<SymbolRecord>, a: int, b: int)
    requires
        0 <= a < changed_keys(rs).len(),
        0 <= b < changed_keys(rs).len(),
        a != b,
        forall|i: int, j: int| 0 <= i < j < rs.len() ==> (#[trigger] rs[i]).canonical_id@ != (#[trigger] rs[j]).canonical_id@,
    ensures
        changed_keys(rs)[a] != changed_keys(rs)[b],
    decreases rs.len(),
{
    let q = rs.drop_last();
    let ck = changed_keys(rs);
    let cq = changed_keys(q);
    assert forall|i: int, j: int| 0 <= i < j < q.len() implies (#[trigger] q[i]).canonical_id@ != (#[trigger] q[j]).canonical_id@ by {
        assert(q[i] == rs[i] && q[j] == rs[j]);
    }
    if a < cq.len() && b < cq.len() {
        assert(ck[a] == cq[a] && ck[b] == cq[b]);
        lemma_changed_keys_distinct_positions(q, a, b);
    } else {
        lemma_changed_keys_from(q);
        let last = rs[rs.len() - 1];
        let other = if a < cq.len() { a } else { b };
        assert(ck[other] == cq[other]);
        let x = choose|x: int| 0 <= x < q.len() && q[x].status != DiffStatus::Unchanged && #[trigger] cq[other] == changed_key(q[x]);
        assert(q[x] == rs[x]);
        assert(rs[x].canonical_id@ != last.canonical_id@);
    }
}

/// Whether `key` is the key of an unchanged record of `rs`.
pub open spec fn unchanged_key_of(rs: Seq<SymbolRecord>, key: (usize, Seq<char>)) -> bool {
    exists|x: int| 0 <= x < rs.len() && rs[x].status == DiffStatus::Unchanged && key == #[trigger] unchanged_key(rs[x])
}

/// Every unchanged key is the key of an unchanged record.
proof fn lemma_unchanged_keys_from(rs: Seq<SymbolRecord>)
    ensures
        forall|k: int| 0 <= k < unchanged_keys(rs).len() ==> unchanged_key_of(rs, #[trigger] unchanged_keys(rs)[k]),
    decreases rs.len(),
{
    if rs.len() > 0 {
        let q = rs.drop_last();
        lemma_unchanged_keys_from(q);
        let uk = unchanged_keys(rs);
        let uq = unchanged_keys(q);
        assert forall|k: int| 0 <= k < uk.len() implies unchanged_key_of(rs, #[trigger] uk[k]) by {
            if k < uq.len() {
                assert(uk[k] == uq[k]);
                assert(unchanged_key_of(q, uq[k]));
                let x = choose|x: int| 0 <= x < q.len() && q[x].status == DiffStatus::Unchanged && uq[k] == #[trigger] unchanged_key(q[x]);
                assert(rs[x] == q[x]);
                assert(uk[k] == unchanged_key(rs[x]));
            } else {
                if !(rs.last().status == DiffStatus::Unchanged && rs.last().head is Some) {
                    assert(uk == uq);
                }
                assert(uk == uq.push(unchanged_key(rs.last())));
                assert(uk[k] == unchanged_key(rs[rs.len() - 1]));
            }
        }
    }
}

/// Two positions of the unchanged keys hold keys of two different records.
proof fn lemma_unchanged_keys_distinct_positions(rs: Seq<SymbolRecord>, a: int, b: int)
    requires
        0 <= a < unchanged_keys(rs).len(),
        0 <= b < unchanged_keys(rs).len(),
        a != b,
        forall|i: int, j: int| 0 <= i < j < rs.len() ==> (#[trigger] rs[i]).canonical_id@ != (#[trigger] rs[j]).canonical_id@,
    ensures
        unchanged_keys(rs)[a] != unchanged_keys(rs)[b],
    decreases rs.len(),
{
    let q = rs.drop_last();
    let uk = unchanged_keys(rs);
    let uq = unchanged_keys(q);
    assert forall|i: int, j: int| 0 <= i < j < q.len() implies (#[trigger] q[i]).canonical_id@ != (#[trigger] q[j]).canonical_id@ by {
        assert(q[i] == rs[i] && q[j] == rs[j]);
    }
    if a < uq.len() && b < uq.len() {
        assert(uk[a] == uq[a] && uk[b] == uq[b]);
        lemma_unchanged_keys_distinct_positions(q, a, b);
    } else {
        lemma_unchanged_keys_from(q);
        let last = rs[rs.len() - 1];
        let other = if a < uq.len() { a } else { b };
        assert(uk[other] == uq[other]);
        assert(unchanged_key_of(q, uq[other]));
        let x = choose|x: int| 0 <= x < q.len() && q[x].status == DiffStatus::Unchanged && uq[other] == #[trigger] unchanged_key(q[x]);
        assert(q[x] == rs[x]);
        assert(rs[x].canonical_id@ != last.canonical_id@);
    }
}

/// Filling in unchanged ids that are new and distinct adds one id each,
/// until `max` ids are chosen.
proof fn lemma_fill_len(chosen: Set<Seq<char>>, us: Seq<(usize, Seq<char>)>, max: nat)
    requires
        chosen.finite(),
        chosen.len() <= max,
        forall|b: int| 0 <= b < us.len() ==> !chosen.contains(#[trigger] us[b].1),
        forall|a: int, b: int| 0 <= a < b < us.len() ==> (#[trigger] us[a]).1 != (#[trigger] us[b]).1,
    ensures
        fill_unchanged(chosen, us, max).finite(),
        fill_unchanged(chosen, us, max).len() == if chosen.len() + us.len() < max {
            chosen.len() + us.len()
        } else {
            max
        },
    decreases us.len(),
{
    if !(us.len() == 0 || chosen.len() >= max) {
        let next = chosen.insert(us[0].1);
        let rest = us.drop_first();
        assert forall|b: int| 0 <= b < rest.len() implies !next.contains(#[trigger] rest[b].1) by {
            assert(rest[b] == us[b + 1]);
        }
        assert forall|a: int, b: int| 0 <= a < b < rest.len() implies (#[trigger] rest[a]).1 != (#[trigger] rest[b]).1 by {
            assert(rest[a] == us[a + 1] && rest[b] == us[b + 1]);
        }
        lemma_fill_len(next, rest, max);
    }
}

/// How many symbols a diff shows: where canonical ids are distinct, the
/// changed symbols and the unchanged symbols present in the head together,
/// but no more than `max`.
pub proof fn lemma_symbol_count(records: Seq<SymbolRecord>, max: nat, chosen: Set<Seq<char>>)
    requires
        is_symbol_choice(records, max, chosen),
        forall|i: int, j: int| 0 <= i < j < records.len() ==> (#[trigger] records[i]).canonical_id@
            != (#[trigger] records[j]).canonical_id@,
    ensures
        chosen.finite(),
        chosen.len() == if changed_keys(records).len() + unchanged_keys(records).len() < max {
            changed_keys(records).len() + unchanged_keys(records).len()
        } else {
            max
        },
{
    let (cs, us) = choose|cs: Seq<(usize, usize, Seq<char>)>, us: Seq<(usize, Seq<char>)>|
        {
            &&& cs.to_multiset() == changed_keys(records).to_multiset()
            &&& forall|i: int, j: int| 0 <= i < j < cs.len() ==> key3_le(#[trigger] cs[i], #[trigger] cs[j])
            &&& us.to_multiset() == unchanged_keys(records).to_multiset()
            &&& forall|i: int, j: int| 0 <= i < j < us.len() ==> key2_le(#[trigger] us[i], #[trigger] us[j])
            &&& chosen == fill_unchanged(first_ids(cs, max), us, max)
        };
    let ck = changed_keys(records);
    let uk = unchanged_keys(records);
    cs.to_multiset_ensures();
    ck.to_multiset_ensures();
    us.to_multiset_ensures();
    uk.to_multiset_ensures();
    lemma_changed_keys_from(records);
    lemma_unchanged_keys_from(records);
    assert(cs.len() == ck.len());
    assert(us.len() == uk.len());
    // Each entry of `cs` and `us` is the key of a record of the right kind.
    assert forall|a: int| 0 <= a < cs.len() implies exists|x: int|
        0 <= x < records.len() && records[x].status != DiffStatus::Unchanged && #[trigger] cs[a] == changed_key(records[x]) by {
        assert(cs.to_multiset().count(cs[a]) > 0);
        assert(ck.to_multiset().count(cs[a]) > 0);
        let k = choose|k: int| 0 <= k < ck.len() && ck[k] == cs[a];
        assert(ck[k] == cs[a]);
    }
    assert forall|b: int| 0 <= b < us.len() implies unchanged_key_of(records, #[trigger] us[b]) by {
        assert(us.to_multiset().count(us[b]) > 0);
        assert(uk.to_multiset().count(us[b]) > 0);
        let k = choose|k: int| 0 <= k < uk.len() && uk[k] == us[b];
        assert(uk[k] == us[b]);
        assert(unchanged_key_of(records, uk[k]));
    }
    // Neither list holds a key twice.
    assert(ck.no_duplicates()) by {
        assert forall|a: int, b: int| 0 <= a < ck.len() && 0 <= b < ck.len() && a != b implies ck[a] != ck[b] by {
            lemma_changed_keys_distinct_positions(records, a, b);
        }
    }
    assert(uk.no_duplicates()) by {
        assert forall|a: int, b: int| 0 <= a < uk.len() && 0 <= b < uk.len() && a != b implies uk[a] != uk[b] by {
            lemma_unchanged_keys_distinct_positions(records, a, b);
        }
    }
    ck.lemma_multiset_has_no_duplicates();
    uk.lemma_multiset_has_no_duplicates();
    assert forall|x: (usize, usize, Seq<char>)| cs.to_multiset().contains(x) implies cs.to_multiset().count(x) == 1 by {
        assert(ck.to_multiset().contains(x));
    }
    assert forall|x: (usize, Seq<char>)| us.to_multiset().contains(x) implies us.to_multiset().count(x) == 1 by {
        assert(uk.to_multiset().contains(x));
    }
    cs.lemma_multiset_has_no_duplicates_conv();
    us.lemma_multiset_has_no_duplicates_conv();
    // Distinct keys are keys of distinct records, so their ids differ.
    assert forall|a: int, b: int| 0 <= a < b < us.len() implies (#[trigger] us[a]).1 != (#[trigger] us[b]).1 by {
        assert(unchanged_key_of(records, us[a]));
        assert(unchanged_key_of(records, us[b]));
        let x = choose|x: int| 0 <= x < records.len() && records[x].status == DiffStatus::Unchanged && us[a]
            == #[trigger] unchanged_key(records[x]);
        let y = choose|y: int| 0 <= y < records.len() && records[y].status == DiffStatus::Unchanged && us[b]
            == #[trigger] unchanged_key(records[y]);
        assert(us[a] != us[b]);
        if x < y {
            assert(records[x].canonical_id@ != records[y].canonical_id@);
        } else if y < x {
            assert(records[y].canonical_id@ != records[x].canonical_id@);
        }
    }
    let m: int = if cs.len() < max { cs.len() as int } else { max as int };
    let ids = cs.take(m).map_values(|k: (usize, usize, Seq<char>)| k.2);
    assert(ids.no_duplicates()) by {
        assert forall|a: int, b: int| 0 <= a < ids.len() && 0 <= b < ids.len() && a != b implies ids[a] != ids[b] by {
            let x = choose|x: int| 0 <= x < records.len() && records[x].status != DiffStatus::Unchanged && #[trigger] cs[a]
                == changed_key(records[x]);
            let y = choose|y: int| 0 <= y < records.len() && records[y].status != DiffStatus::Unchanged && #[trigger] cs[b]
                == changed_key(records[y]);
            assert(cs[a] != cs[b]);
            if x < y {
                assert(records[x].canonical_id@ != records[y].canonical_id@);
            } else if y < x {
                assert(records[y].canonical_id@ != records[x].canonical_id@);
            }
        }
    }
    ids.unique_seq_to_set();
    let first = first_ids(cs, max);
    assert(first =~= ids.to_set()) by {
        assert forall|x: Seq<char>| first.contains(x) <==> ids.to_set().contains(x) by {
            if first.contains(x) {
                let i = choose|i: int| 0 <= i < cs.len() && i < max && #[trigger] cs[i].2 == x;
                assert(ids[i] == x);
            }
            if ids.to_set().contains(x) {
                let i = choose|i: int| 0 <= i < ids.len() && ids[i] == x;
                assert(cs[i].2 == x);
            }
        }
    }
    assert(first.len() == m);
    // No unchanged id is among the changed ones.
    assert forall|b: int| 0 <= b < us.len() implies !first.contains(#[trigger] us[b].1) by {
        if first.contains(us[b].1) {
            let a = choose|a: int| 0 <= a < cs.len() && a < max && #[trigger] cs[a].2 == us[b].1;
            let x = choose|x: int| 0 <= x < records.len() && records[x].status != DiffStatus::Unchanged && #[trigger] cs[a]
                == changed_key(records[x]);
            assert(unchanged_key_of(records, us[b]));
            let y = choose|y: int| 0 <= y < records.len() && records[y].status == DiffStatus::Unchanged && us[b]
                == #[trigger] unchanged_key(records[y]);
            if x < y {
                assert(records[x].canonical_id@ != records[y].canonical_id@);
            } else {
                assert(records[y].canonical_id@ != records[x].canonical_id@);
            }
        }
    }
    lemma_fill_len(first, us, max);
}

proof fn lemma_fill_within(chosen: Set<Seq<char>>, us: Seq<(usize, Seq<char>)>, max: nat)
    ensures
        forall|x: Seq<char>| #[trigger] fill_unchanged(chosen, us, max).contains(x) ==> chosen.contains(x) || exists|b: int|
            0 <= b < us.len() && us[b].1 == x,
    decreases us.len(),
{
    if !(us.len() == 0 || chosen.len() >= max) {
        let rest = us.drop_first();
        lemma_fill_within(chosen.insert(us[0].1), rest, max);
        assert forall|x: Seq<char>| #[trigger] fill_unchanged(chosen, us, max).contains(x) implies chosen.contains(x)
            || exists|b: int| 0 <= b < us.len() && us[b].1 == x by {
            assert(fill_unchanged(chosen, us, max) == fill_unchanged(chosen.insert(us[0].1), rest, max));
            if x == us[0].1 {
                assert(us[0].1 == x);
            } else if !chosen.contains(x) {
                assert(!chosen.insert(us[0].1).contains(x));
                let b = choose|b: int| 0 <= b < rest.len() && rest[b].1 == x;
                assert(us[b + 1].1 == x);
            }
        }
    }
}

/// Only ids of the records are chosen: changed ones, then unchanged ones
/// present in the head.
pub proof fn lemma_symbol_choice_within(records: Seq<SymbolRecord>, max: nat, chosen: Set<Seq<char>>)
    requires
        is_symbol_choice(records, max, chosen),
    ensures
        forall|x: Seq<char>| #[trigger] chosen.contains(x) ==> exists|i: int| 0 <= i < records.len()
            && records[i].canonical_id@ == x,
{
    let (cs, us) = choose|cs: Seq<(usize, usize, Seq<char>)>, us: Seq<(usize, Seq<char>)>|
        {
            &&& cs.to_multiset() == changed_keys(records).to_multiset()
            &&& forall|i: int, j: int| 0 <= i < j < cs.len() ==> key3_le(#[trigger] cs[i], #[trigger] cs[j])
            &&& us.to_multiset() == unchanged_keys(records).to_multiset()
            &&& forall|i: int, j: int| 0 <= i < j < us.len() ==> key2_le(#[trigger] us[i], #[trigger] us[j])
            &&& chosen == fill_unchanged(first_ids(cs, max), us, max)
        };
    let ck = changed_keys(records);
    let uk = unchanged_keys(records);
    cs.to_multiset_ensures();
    ck.to_multiset_ensures();
    us.to_multiset_ensures();
    uk.to_multiset_ensures();
    lemma_changed_keys_from(records);
    lemma_unchanged_keys_from(records);
    lemma_fill_within(first_ids(cs, max), us, max);
    assert forall|x: Seq<char>| #[trigger] chosen.contains(x) implies exists|i: int| 0 <= i < records.len()
        && records[i].canonical_id@ == x by {
        if first_ids(cs, max).contains(x) {
            let a = choose|a: int| 0 <= a < cs.len() && a < max && #[trigger] cs[a].2 == x;
            assert(cs.to_multiset().count(cs[a]) > 0);
            assert(ck.to_multiset().count(cs[a]) > 0);
            let k = choose|k: int| 0 <= k < ck.len() && ck[k] == cs[a];
            let y = choose|y: int| 0 <= y < records.len() && records[y].status != DiffStatus::Unchanged && #[trigger] ck[k]
                == changed_key(records[y]);
            assert(records[y].canonical_id@ == x);
        } else {
            let b = choose|b: int| 0 <= b < us.len() && us[b].1 == x;
            assert(us.to_multiset().count(us[b]) > 0);
            assert(uk.to_multiset().count(us[b]) > 0);
            let k = choose|k: int| 0 <= k < uk.len() && uk[k] == us[b];
            assert(unchanged_key_of(records, uk[k]));
            let y = choose|y: int| 0 <= y < records.len() && records[y].status == DiffStatus::Unchanged && uk[k]
                == #[trigger] unchanged_key(records[y]);
            assert(records[y].canonical_id@ == x);
        }
    }
}

/// The number of symbols a diff shows at most: the limit, else 2000.
pub open spec fn symbol_limit(limit: Option<usize>) -> nat {
    match limit {
        Some(l) => l as nat,
        None => 2000,
    }
}

/// `slice::sort` of triples: the result holds the same triples, and tuples
/// compare field by field (numbers by value, `String`s by their characters
/// in order), so it is in `key3_le` order.
#[verifier::external_body]
fn sort_keys3(v: &mut Vec<(usize, usize, String)>)
    ensures
        final(v)@.map_values(|k: (usize, usize, String)| (k.0, k.1, k.2@)).to_multiset() == old(v)@.map_values(
            |k: (usize, usize, String)| (k.0, k.1, k.2@),
        ).to_multiset(),
        forall|i: int, j: int| 0 <= i < j < final(v)@.len() ==> key3_le(
            (final(v)@[i].0, final(v)@[i].1, final(v)@[i].2@),
            (final(v)@[j].0, final(v)@[j].1, final(v)@[j].2@),
        ),
{
    v.sort();
}

/// `slice::sort` of pairs: the result holds the same pairs, in `key2_le`
/// order.
#[verifier::external_body]
pub(crate) fn sort_keys2(v: &mut Vec<(usize, String)>)
    ensures
        final(v)@.map_values(|k: (usize, String)| (k.0, k.1@)).to_multiset() == old(v)@.map_values(
            |k: (usize, String)| (k.0, k.1@),
        ).to_multiset(),
        forall|i: int, j: int| 0 <= i < j < final(v)@.len() ==> key2_le(
            (final(v)@[i].0, final(v)@[i].1@),
            (final(v)@[j].0, final(v)@[j].1@),
        ),
{
    v.sort();
}

/// The symbols to show, at most `max` of them: changed symbols first
/// (modified, moved, added, removed; within each, the most connected first,
/// then by id), then unchanged symbols present in the head (the most
/// connected first, then by id) while room remains.
pub fn select_symbol_ids(records: &[SymbolRecord], max: usize) -> (r: Vec<String>)
    ensures
        is_symbol_choice(records@, max as nat, texts(r@).to_set()),
        texts(r@).no_duplicates(),
{
    let mut changed: Vec<(usize, usize, String)> = Vec::new();
    let mut unchanged: Vec<(usize, String)> = Vec::new();
    let mut i: usize = 0;
    while i < records.len()
        invariant
            i <= records@.len(),
            changed@.map_values(|k: (usize, usize, String)| (k.0, k.1, k.2@)) == changed_keys(records@.subrange(0, i as int)),
            unchanged@.map_values(|k: (usize, String)| (k.0, k.1@)) == unchanged_keys(records@.subrange(0, i as int)),
        decreases records.len() - i,
    {
        let r = &records[i];
        assert(records@.subrange(0, i + 1).drop_last() =~= records@.subrange(0, i as int));
        assert(records@.subrange(0, i + 1).last() == *r);
        if r.status.is_changed() {
            let ghost before = changed@;
            changed.push((status_priority(r.status), usize::MAX - r.degree, r.canonical_id.clone()));
            assert(changed@.map_values(|k: (usize, usize, String)| (k.0, k.1, k.2@)) =~= before.map_values(
                |k: (usize, usize, String)| (k.0, k.1, k.2@),
            ).push(changed_key(*r)));
        } else if r.head.is_some() {
            let ghost before = unchanged@;
            unchanged.push((usize::MAX - r.degree, r.canonical_id.clone()));
            assert(unchanged@.map_values(|k: (usize, String)| (k.0, k.1@)) =~= before.map_values(
                |k: (usize, String)| (k.0, k.1@),
            ).push(unchanged_key(*r)));
        }
        i = i + 1;
    }
    assert(records@.subrange(0, records@.len() as int) =~= records@);
    sort_keys3(&mut changed);
    sort_keys2(&mut unchanged);
    let ghost cs = changed@.map_values(|k: (usize, usize, String)| (k.0, k.1, k.2@));
    let ghost us = unchanged@.map_values(|k: (usize, String)| (k.0, k.1@));
    let mut selected: StringHashMap<()> = StringHashMap::new();
    let mut chosen: Vec<String> = Vec::new();
    let n = if changed.len() <= max { changed.len() } else { max };
    let mut k: usize = 0;
    while k < n
        invariant
            k <= n <= changed@.len(),
            n <= max,
            cs == changed@.map_values(|k: (usize, usize, String)| (k.0, k.1, k.2@)),
            selected@.dom() == first_ids(cs, k as nat),
            forall|x: Seq<char>| #[trigger] selected@.contains_key(x) <==> texts(chosen@).contains(x),
            texts(chosen@).no_duplicates(),
        decreases n - k,
    {
        let ghost before = selected@.dom();
        add_once(&mut chosen, &mut selected, changed[k].2.as_str());
        assert(selected@.dom() =~= before.insert(cs[k as int].2));
        assert(selected@.dom() =~= first_ids(cs, (k + 1) as nat));
        k = k + 1;
    }
    assert(first_ids(cs, n as nat) =~= first_ids(cs, max as nat));
    assert(us.subrange(0, us.len() as int) =~= us);
    let mut u: usize = 0;
    while u < unchanged.len() && selected.len() < max
        invariant
            u <= unchanged@.len(),
            us == unchanged@.map_values(|k: (usize, String)| (k.0, k.1@)),
            forall|x: Seq<char>| #[trigger] selected@.contains_key(x) <==> texts(chosen@).contains(x),
            texts(chosen@).no_duplicates(),
            fill_unchanged(first_ids(cs, max as nat), us, max as nat) == fill_unchanged(selected@.dom(), us.subrange(u as int, us.len() as int), max as nat),
        decreases unchanged.len() - u,
    {
        let ghost rest = us.subrange(u as int, us.len() as int);
        assert(rest.drop_first() =~= us.subrange(u + 1, us.len() as int));
        assert(rest[0].1 == unchanged@[u as int].1@);
        let ghost before = selected@.dom();
        add_once(&mut chosen, &mut selected, unchanged[u].1.as_str());
        assert(selected@.dom() =~= before.insert(rest[0].1));
        u = u + 1;
    }
    proof {
        let rest = us.subrange(u as int, us.len() as int);
        if u == unchanged@.len() {
            assert(rest.len() == 0);
        }
        assert(texts(chosen@).to_set() =~= selected@.dom());
    }
    chosen
}

/// How many files of `fs` have the status `st`.
pub open spec fn files_with(fs: Seq<FileDiffRecord>, st: DiffStatus) -> nat
    decreases fs.len(),
{
    if fs.len() == 0 {
        0
    } else {
        files_with(fs.drop_last(), st) + if fs.last().status == st {
            1nat
        } else {
            0nat
        }
    }
}

/// How many records of `rs` have the status `st`.
pub open spec fn symbols_with(rs: Seq<SymbolRecord>, st: DiffStatus) -> nat
    decreases rs.len(),
{
    if rs.len() == 0 {
        0
    } else {
        symbols_with(rs.drop_last(), st) + if rs.last().status == st {
            1nat
        } else {
            0nat
        }
    }
}

/// The totals of a diff.
#[derive(Debug, Clone)]
pub struct DiffSummary {
    pub base_ref: String,
    pub head_ref: String,
    pub files_added: usize,
    pub files_removed: usize,
    pub files_modified: usize,
    pub files_unchanged: usize,
    pub symbols_added: usize,
    pub symbols_removed: usize,
    pub symbols_modified: usize,
    pub symbols_moved: usize,
    pub symbols_unchanged: usize,
    pub edges_added: usize,
    pub edges_removed: usize,
}

fn count_files(fs: &[FileDiffRecord], st: DiffStatus) -> (r: usize)
    ensures
        r == files_with(fs@, st),
{
    let mut c: usize = 0;
    let mut i: usize = 0;
    while i < fs.len()
        invariant
            i <= fs@.len(),
            c <= i,
            c == files_with(fs@.subrange(0, i as int), st),
        decreases fs.len() - i,
    {
        assert(fs@.subrange(0, i + 1).drop_last() =~= fs@.subrange(0, i as int));
        if fs[i].status == st {
            c = c + 1;
        }
        i = i + 1;
    }
    assert(fs@.subrange(0, fs@.len() as int) =~= fs@);
    c
}

fn count_symbols(rs: &[SymbolRecord], st: DiffStatus) -> (r: usize)
    ensures
        r == symbols_with(rs@, st),
{
    let mut c: usize = 0;
    let mut i: usize = 0;
    while i < rs.len()
        invariant
            i <= rs@.len(),
            c <= i,
            c == symbols_with(rs@.subrange(0, i as int), st),
        decreases rs.len() - i,
    {
        assert(rs@.subrange(0, i + 1).drop_last() =~= rs@.subrange(0, i as int));
        if rs[i].status == st {
            c = c + 1;
        }
        i = i + 1;
    }
    assert(rs@.subrange(0, rs@.len() as int) =~= rs@);
    c
}

/// The totals of a diff: files and symbols by status, and the edges added
/// and removed.
pub fn diff_summary(
    base_ref: &str,
    head_ref: &str,
    files: &[FileDiffRecord],
    records: &[SymbolRecord],
    edges_added: usize,
    edges_removed: usize,
) -> (r: DiffSummary)
    ensures
        r.base_ref@ == base_ref@,
        r.head_ref@ == head_ref@,
        r.files_added == files_with(files@, DiffStatus::Added),
        r.files_removed == files_with(files@, DiffStatus::Removed),
        r.files_modified == files_with(files@, DiffStatus::Modified),
        r.files_unchanged == files_with(files@, DiffStatus::Unchanged),
        r.symbols_added == symbols_with(records@, DiffStatus::Added),
        r.symbols_removed == symbols_with(records@, DiffStatus::Removed),
        r.symbols_modified == symbols_with(records@, DiffStatus::Modified),
        r.symbols_moved == symbols_with(records@, DiffStatus::Moved),
        r.symbols_unchanged == symbols_with(records@, DiffStatus::Unchanged),
        r.edges_added == edges_added,
        r.edges_removed == edges_removed,
{
    DiffSummary {
        base_ref: base_ref.to_owned(),
        head_ref: head_ref.to_owned(),
        files_added: count_files(files, DiffStatus::Added),
        files_removed: count_files(files, DiffStatus::Removed),
        files_modified: count_files(files, DiffStatus::Modified),
        files_unchanged: count_files(files, DiffStatus::Unchanged),
        symbols_added: count_symbols(records, DiffStatus::Added),
        symbols_removed: count_symbols(records, DiffStatus::Removed),
        symbols_modified: count_symbols(records, DiffStatus::Modified),
        symbols_moved: count_symbols(records, DiffStatus::Moved),
        symbols_unchanged: count_symbols(records, DiffStatus::Unchanged),
        edges_added,
        edges_removed,
    }
}

/// A diff between two revisions' graphs, given how their symbols compare:
/// its totals, its files, the symbols and files it shows, and the links
/// between the nodes it shows.
#[derive(Debug)]
pub struct GraphDiff {
    pub summary: DiffSummary,
    pub files: Vec<FileDiffRecord>,
    pub symbol_ids: Vec<String>,
    pub file_paths: Vec<String>,
    pub file_nodes: Vec<DiffNodeRecord>,
    pub links: Vec<DiffLink>,
}

/// A node of the diff view: its id, name, kind, where it lies in each
/// revision, its status, the revision it is drawn from, its group and
/// degrees, and what changed.
#[derive(Debug)]
pub struct DiffNodeRecord {
    pub id: String,
    pub name: String,
    pub label: String,
    pub file: String,
    pub file_name: String,
    pub folder: String,
    pub line: u32,
    pub base_file: Option<String>,
    pub base_line: Option<u32>,
    pub head_file: Option<String>,
    pub head_line: Option<u32>,
    pub status: DiffStatus,
    pub layer: String,
    pub group: u8,
    pub degree: usize,
    pub in_deg: usize,
    pub out_deg: usize,
    pub return_type: String,
    pub is_async: bool,
    pub container_name: String,
    pub qualified_name: String,
    pub body_changed: bool,
    pub file_changed: bool,
    pub match_kind: Option<String>,
}

/// The content of a diff node.
pub struct DiffNodeView {
    pub id: Seq<char>,
    pub name: Seq<char>,
    pub label: Seq<char>,
    pub file: Seq<char>,
    pub file_name: Seq<char>,
    pub folder: Seq<char>,
    pub line: u32,
    pub base_file: Option<Seq<char>>,
    pub base_line: Option<u32>,
    pub head_file: Option<Seq<char>>,
    pub head_line: Option<u32>,
    pub status: DiffStatus,
    pub layer: Seq<char>,
    pub group: u8,
    pub degree: usize,
    pub in_deg: usize,
    pub out_deg: usize,
    pub return_type: Seq<char>,
    pub is_async: bool,
    pub container_name: Seq<char>,
    pub qualified_name: Seq<char>,
    pub body_changed: bool,
    pub file_changed: bool,
    pub match_kind: Option<Seq<char>>,
}

impl View for DiffNodeRecord {
    type V = DiffNodeView;

    open spec fn view(&self) -> DiffNodeView {
        DiffNodeView {
            id: self.id@,
            name: self.name@,
            label: self.label@,
            file: self.file@,
            file_name: self.file_name@,
            folder: self.folder@,
            line: self.line,
            base_file: opt_text(self.base_file),
            base_line: self.base_line,
            head_file: opt_text(self.head_file),
            head_line: self.head_line,
            status: self.status,
            layer: self.layer@,
            group: self.group,
            degree: self.degree,
            in_deg: self.in_deg,
            out_deg: self.out_deg,
            return_type: self.return_type@,
            is_async: self.is_async,
            container_name: self.container_name@,
            qualified_name: self.qualified_name@,
            body_changed: self.body_changed,
            file_changed: self.file_changed,
            match_kind: opt_text(self.match_kind),
        }
    }
}

fn clone_opt_text(o: &Option<String>) -> (r: Option<String>)
    ensures
        opt_text(r) == opt_text(*o),
{
    match o {
        Some(s) => Some(s.clone()),
        None => None,
    }
}

impl DiffNodeRecord {
    /// A copy of this node.
    pub fn duplicate(&self) -> (r: DiffNodeRecord)
        ensures
            r@ == self@,
    {
        DiffNodeRecord {
            id: self.id.clone(),
            name: self.name.clone(),
            label: self.label.clone(),
            file: self.file.clone(),
            file_name: self.file_name.clone(),
            folder: self.folder.clone(),
            line: self.line,
            base_file: clone_opt_text(&self.base_file),
            base_line: self.base_line,
            head_file: clone_opt_text(&self.head_file),
            head_line: self.head_line,
            status: self.status,
            layer: self.layer.clone(),
            group: self.group,
            degree: self.degree,
            in_deg: self.in_deg,
            out_deg: self.out_deg,
            return_type: self.return_type.clone(),
            is_async: self.is_async,
            container_name: self.container_name.clone(),
            qualified_name: self.qualified_name.clone(),
            body_changed: self.body_changed,
            file_changed: self.file_changed,
            match_kind: clone_opt_text(&self.match_kind),
        }
    }
}

/// Diff nodes in order: by label, then by name.
pub open spec fn diff_node_le(a: DiffNodeView, b: DiffNodeView) -> bool {
    lex_lt(a.label, b.label) || (a.label == b.label && !lex_lt(b.name, a.name))
}

/// The key diff nodes are sorted by: label, then name.
pub fn diff_node_sort_key(n: &DiffNodeRecord) -> (r: (String, String))
    ensures
        r.0@ == n.label@,
        r.1@ == n.name@,
{
    (n.label.clone(), n.name.clone())
}

/// `slice::sort_by_key` of diff nodes by `diff_node_sort_key`: the result
/// holds the same nodes, and pairs of `String`s compare field by field, each
/// by its characters in order (the order of their UTF-8 bytes), so it is in
/// `diff_node_le` order.
#[verifier::external_body]
pub(crate) fn sort_diff_nodes(v: &mut Vec<DiffNodeRecord>)
    ensures
        final(v)@.map_values(|n: DiffNodeRecord| n@).to_multiset() == old(v)@.map_values(|n: DiffNodeRecord| n@).to_multiset(),
        forall|i: int, j: int| 0 <= i < j < final(v)@.len() ==> diff_node_le(#[trigger] final(v)@[i]@, #[trigger] final(v)@[j]@),
{
    v.sort_by_key(|n| diff_node_sort_key(n));
}

/// The text of an optional string.
pub open spec fn opt_text(o: Option<String>) -> Option<Seq<char>> {
    match o {
        Some(s) => Some(s@),
        None => None,
    }
}

/// The file name of `p`, or the empty text when it has none.
pub open spec fn file_name_or_empty(p: Seq<char>) -> Seq<char> {
    match spec_path_file_name(p) {
        Some(n) => n,
        None => Seq::empty(),
    }
}

/// The diff node of a changed or shown file: drawn from the head where the
/// head indexes the file (`in_head`), else from the base, with that
/// revision's degrees of its file node.
pub open spec fn file_node_view(f: FileDiffView, in_head: bool, base: GraphView, head: GraphView) -> DiffNodeView {
    let id = file_node_id(f.path);
    let g = if in_head { head } else { base };
    DiffNodeView {
        id,
        name: file_name_or_empty(f.path),
        label: "File"@,
        file: f.path,
        file_name: file_name_or_empty(f.path),
        folder: spec_parent_or_empty(f.path),
        line: 0,
        base_file: Some(f.path),
        base_line: None,
        head_file: if in_head { Some(f.path) } else { None },
        head_line: None,
        status: f.status,
        layer: if in_head { "head"@ } else { "base"@ },
        group: spec_group_for_label(NodeLabel::File),
        degree: node_degree(g, id) as usize,
        in_deg: listed(g.incoming, id).len() as usize,
        out_deg: listed(g.outgoing, id).len() as usize,
        return_type: Seq::empty(),
        is_async: false,
        container_name: Seq::empty(),
        qualified_name: f.path,
        body_changed: f.status == DiffStatus::Modified,
        file_changed: f.status != DiffStatus::Unchanged,
        match_kind: None,
    }
}

/// The diff nodes of the files of `files` whose paths are `selected`, in
/// order.
pub open spec fn file_node_views(
    files: Seq<FileDiffView>,
    selected: Seq<Seq<char>>,
    base: GraphView,
    in_head: Set<Seq<char>>,
    head: GraphView,
) -> Seq<DiffNodeView>
    decreases files.len(),
{
    if files.len() == 0 {
        Seq::empty()
    } else {
        let prev = file_node_views(files.drop_last(), selected, base, in_head, head);
        let f = files.last();
        if selected.contains(f.path) {
            prev.push(file_node_view(f, in_head.contains(f.path), base, head))
        } else {
            prev
        }
    }
}

/// A set of the texts of `v`.
pub(crate) fn text_set(v: &Vec<String>) -> (m: StringHashMap<()>)
    ensures
        forall|x: Seq<char>| #[trigger] m@.contains_key(x) <==> texts(v@).contains(x),
{
    let mut m: StringHashMap<()> = StringHashMap::new();
    let mut i: usize = 0;
    while i < v.len()
        invariant
            i <= v@.len(),
            forall|x: Seq<char>| #[trigger] m@.contains_key(x) <==> texts(v@).take(i as int).contains(x),
        decreases v.len() - i,
    {
        m.insert(v[i].clone(), ());
        proof {
            let pre = texts(v@).take(i as int);
            let next = texts(v@).take(i + 1);
            assert(next =~= pre.push(v@[i as int]@));
            assert forall|x: Seq<char>| #[trigger] m@.contains_key(x) <==> next.contains(x) by {
                if next.contains(x) && x != v@[i as int]@ {
                    let k = choose|k: int| 0 <= k < next.len() && next[k] == x;
                    assert(pre[k] == x);
                }
                if pre.contains(x) {
                    let k = choose|k: int| 0 <= k < pre.len() && pre[k] == x;
                    assert(next[k] == x);
                }
                if x == v@[i as int]@ {
                    assert(next[i as int] == x);
                }
            }
        }
        i = i + 1;
    }
    assert(texts(v@).take(v@.len() as int) =~= texts(v@));
    m
}

/// The diff node of one file.
fn file_node_record(f: &FileDiffRecord, in_head: bool, base_store: &GraphStore, head_store: &GraphStore) -> (r: DiffNodeRecord)
    requires
        base_store.wf(),
        head_store.wf(),
        forall|id: Seq<char>| #[trigger] node_degree(base_store@, id) <= usize::MAX,
        forall|id: Seq<char>| #[trigger] node_degree(head_store@, id) <= usize::MAX,
    ensures
        r@ == file_node_view(f@, in_head, base_store@, head_store@),
{
    let id = file_id(f.path.as_str());
    let name = match path_file_name(f.path.as_str()) {
        Some(n) => n,
        None => String::new(),
    };
    let folder = match path_parent_str(f.path.as_str()) {
        Some(d) => d,
        None => String::new(),
    };
    let store = if in_head { head_store } else { base_store };
    let in_deg = store.in_degree(id.as_str());
    let out_deg = store.out_degree(id.as_str());
    assert(node_degree(store@, id@) <= usize::MAX);
    let degree = out_deg + in_deg;
    proof {
        reveal_strlit("File");
        reveal_strlit("head");
        reveal_strlit("base");
    }
    let r = DiffNodeRecord {
        id,
        name: name.clone(),
        label: "File".to_owned(),
        file: f.path.clone(),
        file_name: name,
        folder,
        line: 0,
        base_file: Some(f.path.clone()),
        base_line: None,
        head_file: if in_head { Some(f.path.clone()) } else { None },
        head_line: None,
        status: f.status,
        layer: if in_head { "head".to_owned() } else { "base".to_owned() },
        group: group_for_label(NodeLabel::File),
        degree,
        in_deg,
        out_deg,
        return_type: String::new(),
        is_async: false,
        container_name: String::new(),
        qualified_name: f.path.clone(),
        body_changed: matches!(f.status, DiffStatus::Modified),
        file_changed: f.status.is_changed(),
        match_kind: None,
    };
    assert(r@ == file_node_view(f@, in_head, base_store@, head_store@));
    r
}

/// The diff nodes of the selected files, in the order of `files`: each drawn
/// from the head where the head indexes it, else from the base.
pub fn build_file_nodes(
    selected: &Vec<String>,
    files: &[FileDiffRecord],
    base_store: &GraphStore,
    head_store: &GraphStore,
) -> (r: Vec<DiffNodeRecord>)
    requires
        base_store.wf(),
        head_store.wf(),
        forall|id: Seq<char>| #[trigger] node_degree(base_store@, id) <= usize::MAX,
        forall|id: Seq<char>| #[trigger] node_degree(head_store@, id) <= usize::MAX,
    ensures
        r@.map_values(|n: DiffNodeRecord| n@) == file_node_views(
            files@.map_values(|f: FileDiffRecord| f@),
            texts(selected@),
            base_store@,
            file_paths_of(head_store.node_list()),
            head_store@,
        ),
{
    let ghost fv = files@.map_values(|f: FileDiffRecord| f@);
    let ghost hset = file_paths_of(head_store.node_list());
    let chosen = text_set(selected);
    let head_nodes = head_store.nodes();
    let head_paths = file_paths(&head_nodes);
    let in_head = text_set(&head_paths);
    let mut out: Vec<DiffNodeRecord> = Vec::new();
    let mut i: usize = 0;
    while i < files.len()
        invariant
            i <= files@.len(),
            fv == files@.map_values(|f: FileDiffRecord| f@),
            hset == file_paths_of(head_store.node_list()),
            base_store.wf(),
            head_store.wf(),
            forall|id: Seq<char>| #[trigger] node_degree(base_store@, id) <= usize::MAX,
            forall|id: Seq<char>| #[trigger] node_degree(head_store@, id) <= usize::MAX,
            forall|x: Seq<char>| #[trigger] chosen@.contains_key(x) <==> texts(selected@).contains(x),
            forall|x: Seq<char>| #[trigger] in_head@.contains_key(x) <==> hset.contains(x),
            out@.map_values(|n: DiffNodeRecord| n@) == file_node_views(
                fv.take(i as int),
                texts(selected@),
                base_store@,
                hset,
                head_store@,
            ),
        decreases files.len() - i,
    {
        let f = &files[i];
        assert(fv.take(i + 1).drop_last() =~= fv.take(i as int));
        assert(fv.take(i + 1).last() == f@);
        if chosen.contains_key(f.path.as_str()) {
            let ghost before = out@.map_values(|n: DiffNodeRecord| n@);
            let rec = file_node_record(f, in_head.contains_key(f.path.as_str()), base_store, head_store);
            out.push(rec);
            assert(out@.map_values(|n: DiffNodeRecord| n@) =~= before.push(rec@));
        }
        i = i + 1;
    }
    assert(fv.take(files@.len() as int) =~= fv);
    out
}

/// What the diff of two revisions' graphs holds, given the records of how
/// their symbols compare (see `diff_graphs`).
pub open spec fn is_graph_diff(
    r: GraphDiff,
    base_ref: Seq<char>,
    base_store: GraphStore,
    head_ref: Seq<char>,
    head_store: GraphStore,
    records: Seq<SymbolRecord>,
    limit: Option<usize>,
) -> bool {
    &&& strictly_sorted(diff_paths(r.files@))
    &&& forall|p: Seq<char>| #[trigger] diff_paths(r.files@).contains(p) <==> file_paths_of(base_store.node_list()).contains(p)
        || file_paths_of(head_store.node_list()).contains(p)
    &&& forall|i: int| 0 <= i < r.files@.len() ==> (#[trigger] r.files@[i])@ == file_diff_of(
        base_store@,
        file_paths_of(base_store.node_list()),
        head_store@,
        file_paths_of(head_store.node_list()),
        r.files@[i].path@
    )
    &&& texts(r.symbol_ids@).no_duplicates()
    &&& is_symbol_choice(records, symbol_limit(limit), texts(r.symbol_ids@).to_set())
    &&& texts(r.file_paths@).no_duplicates()
    &&& forall|p: Seq<char>| #[trigger] texts(r.file_paths@).contains(p) <==> shown_file(
        texts(r.symbol_ids@).to_set(),
        records,
        r.files@,
        p
    )
    &&& ({
        let shown = shown_ids(texts(r.file_paths@).to_set(), r.files@, texts(r.symbol_ids@).to_set(), records);
        let (bm, bks) = canon_edges(canonical_map(records, texts(r.file_paths@), false), base_store.edge_list());
        let (hm, hks) = canon_edges(canonical_map(records, texts(r.file_paths@), true), head_store.edge_list());
        let hl = head_links(hm, hks, bm, shown);
        let rl = removed_links(bm, bks, hm, shown);
        &&& r.links@.map_values(|l: DiffLink| l@).to_multiset() == (hl + rl).to_multiset()
        &&& forall|i: int, j: int| 0 <= i < j < r.links@.len() ==> link_le(#[trigger] r.links@[i]@, #[trigger] r.links@[j]@)
        &&& r.summary.edges_added == count_status(hl, DiffStatus::Added)
        &&& r.summary.edges_removed == rl.len()
    })
    &&& r.file_nodes@.map_values(|n: DiffNodeRecord| n@) == file_node_views(
        r.files@.map_values(|f: FileDiffRecord| f@),
        texts(r.file_paths@),
        base_store@,
        file_paths_of(head_store.node_list()),
        head_store@
    )
    &&& r.summary.base_ref@ == base_ref
    &&& r.summary.head_ref@ == head_ref
    &&& r.summary.files_added == files_with(r.files@, DiffStatus::Added)
    &&& r.summary.files_removed == files_with(r.files@, DiffStatus::Removed)
    &&& r.summary.files_modified == files_with(r.files@, DiffStatus::Modified)
    &&& r.summary.files_unchanged == files_with(r.files@, DiffStatus::Unchanged)
    &&& r.summary.symbols_added == symbols_with(records, DiffStatus::Added)
    &&& r.summary.symbols_removed == symbols_with(records, DiffStatus::Removed)
    &&& r.summary.symbols_modified == symbols_with(records, DiffStatus::Modified)
    &&& r.summary.symbols_moved == symbols_with(records, DiffStatus::Moved)
    &&& r.summary.symbols_unchanged == symbols_with(records, DiffStatus::Unchanged)
}

proof fn lemma_files_with_total(fs: Seq<FileDiffRecord>)
    requires
        forall|i: int| 0 <= i < fs.len() ==> (#[trigger] fs[i]).status == DiffStatus::Added || fs[i].status == DiffStatus::Removed
            || fs[i].status == DiffStatus::Modified || fs[i].status == DiffStatus::Unchanged,
    ensures
        files_with(fs, DiffStatus::Added) + files_with(fs, DiffStatus::Removed) + files_with(fs, DiffStatus::Modified)
            + files_with(fs, DiffStatus::Unchanged) == fs.len(),
    decreases fs.len(),
{
    if fs.len() > 0 {
        assert forall|i: int| 0 <= i < fs.drop_last().len() implies (#[trigger] fs.drop_last()[i]).status == DiffStatus::Added
            || fs.drop_last()[i].status == DiffStatus::Removed || fs.drop_last()[i].status == DiffStatus::Modified
            || fs.drop_last()[i].status == DiffStatus::Unchanged by {
            assert(fs.drop_last()[i] == fs[i]);
        }
        lemma_files_with_total(fs.drop_last());
        assert(fs[fs.len() - 1] == fs.last());
    }
}

proof fn lemma_count_status_remove(b: Seq<DiffLinkView>, k: int, st: DiffStatus)
    requires
        0 <= k < b.len(),
    ensures
        count_status(b, st) == count_status(b.remove(k), st) + if b[k].status == st {
            1nat
        } else {
            0nat
        },
    decreases b.len(),
{
    if k == b.len() - 1 {
        assert(b.remove(k) =~= b.drop_last());
    } else {
        lemma_count_status_remove(b.drop_last(), k, st);
        assert(b.remove(k).drop_last() =~= b.drop_last().remove(k));
        assert(b.remove(k).last() == b.last());
    }
}

/// Two lists holding the same links hold as many of each status.
proof fn lemma_count_status_multiset(a: Seq<DiffLinkView>, b: Seq<DiffLinkView>, st: DiffStatus)
    requires
        a.to_multiset() == b.to_multiset(),
    ensures
        count_status(a, st) == count_status(b, st),
    decreases a.len(),
{
    a.to_multiset_ensures();
    b.to_multiset_ensures();
    if a.len() == 0 {
        assert(b.len() == 0);
    } else {
        let x = a.last();
        let d = a.drop_last();
        d.to_multiset_ensures();
        assert(a =~= d.push(x));
        assert(a.to_multiset() == d.to_multiset().insert(x));
        assert(b.to_multiset().count(x) > 0);
        assert(b.contains(x));
        let k = choose|k: int| 0 <= k < b.len() && b[k] == x;
        let br = b.remove(k);
        assert(br.to_multiset() =~= d.to_multiset());
        lemma_count_status_multiset(d, br, st);
        lemma_count_status_remove(b, k, st);
    }
}

proof fn lemma_count_status_concat(a: Seq<DiffLinkView>, b: Seq<DiffLinkView>, st: DiffStatus)
    ensures
        count_status(a + b, st) == count_status(a, st) + count_status(b, st),
    decreases b.len(),
{
    if b.len() == 0 {
        assert(a + b =~= a);
    } else {
        lemma_count_status_concat(a, b.drop_last(), st);
        assert((a + b).drop_last() =~= a + b.drop_last());
        assert((a + b).last() == b.last());
    }
}

proof fn lemma_count_status_all(ls: Seq<DiffLinkView>, st: DiffStatus)
    requires
        forall|i: int| 0 <= i < ls.len() ==> (#[trigger] ls[i]).status == st,
    ensures
        count_status(ls, st) == ls.len(),
    decreases ls.len(),
{
    if ls.len() > 0 {
        assert forall|i: int| 0 <= i < ls.drop_last().len() implies (#[trigger] ls.drop_last()[i]).status == st by {
            assert(ls.drop_last()[i] == ls[i]);
        }
        lemma_count_status_all(ls.drop_last(), st);
        assert(ls[ls.len() - 1] == ls.last());
    }
}

proof fn lemma_count_status_none(ls: Seq<DiffLinkView>, st: DiffStatus)
    requires
        forall|i: int| 0 <= i < ls.len() ==> (#[trigger] ls[i]).status != st,
    ensures
        count_status(ls, st) == 0,
    decreases ls.len(),
{
    if ls.len() > 0 {
        assert forall|i: int| 0 <= i < ls.drop_last().len() implies (#[trigger] ls.drop_last()[i]).status != st by {
            assert(ls.drop_last()[i] == ls[i]);
        }
        lemma_count_status_none(ls.drop_last(), st);
        assert(ls[ls.len() - 1] == ls.last());
    }
}

/// The totals of a graph diff add up: its files are the paths that either
/// revision has a File node for, each once and in sorted order, and the file
/// counts sum to how many there are; the added and removed edge counts are
/// the numbers of its links with those statuses.
pub proof fn lemma_graph_diff_totals(
    r: GraphDiff,
    base_ref: Seq<char>,
    base_store: GraphStore,
    head_ref: Seq<char>,
    head_store: GraphStore,
    records: Seq<SymbolRecord>,
    limit: Option<usize>,
)
    requires
        is_graph_diff(r, base_ref, base_store, head_ref, head_store, records, limit),
    ensures
        diff_paths(r.files@).to_set() == file_paths_of(base_store.node_list()) + file_paths_of(head_store.node_list()),
        diff_paths(r.files@).to_set().len() == r.files@.len(),
        strictly_sorted(diff_paths(r.files@)),
        r.summary.files_added + r.summary.files_removed + r.summary.files_modified + r.summary.files_unchanged
            == r.files@.len(),
        r.summary.edges_added == count_status(r.links@.map_values(|l: DiffLink| l@), DiffStatus::Added),
        r.summary.edges_removed == count_status(r.links@.map_values(|l: DiffLink| l@), DiffStatus::Removed),
{
    let ps = diff_paths(r.files@);
    let pb = file_paths_of(base_store.node_list());
    let ph = file_paths_of(head_store.node_list());
    assert(ps.to_set() =~= pb + ph) by {
        assert forall|p: Seq<char>| ps.to_set().contains(p) <==> (pb + ph).contains(p) by {
            assert(ps.to_set().contains(p) <==> ps.contains(p));
        }
    }
    assert(ps.no_duplicates()) by {
        assert forall|i: int, j: int| 0 <= i < ps.len() && 0 <= j < ps.len() && i != j implies ps[i] != ps[j] by {
            if i < j {
                assert(lex_lt(ps[i], ps[j]));
            } else {
                assert(lex_lt(ps[j], ps[i]));
            }
            if ps[i] == ps[j] {
                lemma_lex_total(ps[i], ps[i]);
            }
        }
    }
    ps.unique_seq_to_set();
    let fs = r.files@;
    assert forall|i: int| 0 <= i < fs.len() implies (#[trigger] fs[i]).status == DiffStatus::Added || fs[i].status
        == DiffStatus::Removed || fs[i].status == DiffStatus::Modified || fs[i].status == DiffStatus::Unchanged by {
        assert(fs[i]@.status == fs[i].status);
    }
    lemma_files_with_total(fs);
    let shown = shown_ids(texts(r.file_paths@).to_set(), r.files@, texts(r.symbol_ids@).to_set(), records);
    let (bm, bks) = canon_edges(canonical_map(records, texts(r.file_paths@), false), base_store.edge_list());
    let (hm, hks) = canon_edges(canonical_map(records, texts(r.file_paths@), true), head_store.edge_list());
    let hl = head_links(hm, hks, bm, shown);
    let rl = removed_links(bm, bks, hm, shown);
    let lv = r.links@.map_values(|l: DiffLink| l@);
    lemma_links_join_shown_nodes(hm, hks, bm, bks, shown);
    lemma_count_status_multiset(lv, hl + rl, DiffStatus::Added);
    lemma_count_status_multiset(lv, hl + rl, DiffStatus::Removed);
    lemma_count_status_concat(hl, rl, DiffStatus::Added);
    lemma_count_status_concat(hl, rl, DiffStatus::Removed);
    lemma_count_status_none(rl, DiffStatus::Added);
    lemma_count_status_none(hl, DiffStatus::Removed);
    lemma_count_status_all(rl, DiffStatus::Removed);
}

proof fn lemma_files_with_none(fs: Seq<FileDiffRecord>, st: DiffStatus)
    requires
        forall|i: int| 0 <= i < fs.len() ==> (#[trigger] fs[i]).status != st,
    ensures
        files_with(fs, st) == 0,
    decreases fs.len(),
{
    if fs.len() > 0 {
        assert forall|i: int| 0 <= i < fs.drop_last().len() implies (#[trigger] fs.drop_last()[i]).status != st by {
            assert(fs.drop_last()[i] == fs[i]);
        }
        lemma_files_with_none(fs.drop_last(), st);
        assert(fs[fs.len() - 1] == fs.last());
    }
}

proof fn lemma_symbols_with_none(rs: Seq<SymbolRecord>, st: DiffStatus)
    requires
        forall|i: int| 0 <= i < rs.len() ==> (#[trigger] rs[i]).status != st,
    ensures
        symbols_with(rs, st) == 0,
    decreases rs.len(),
{
    if rs.len() > 0 {
        assert forall|i: int| 0 <= i < rs.drop_last().len() implies (#[trigger] rs.drop_last()[i]).status != st by {
            assert(rs.drop_last()[i] == rs[i]);
        }
        lemma_symbols_with_none(rs.drop_last(), st);
        assert(rs[rs.len() - 1] == rs.last());
    }
}

/// Whether a record's base and head are the same node.
pub open spec fn same_both_sides(r: SymbolRecord) -> bool {
    r.base is Some && r.head is Some && r.base.unwrap()@ == r.head.unwrap()@
}

proof fn lemma_canonical_map_same(records: Seq<SymbolRecord>, paths: Seq<Seq<char>>)
    requires
        forall|i: int| 0 <= i < records.len() ==> same_both_sides(#[trigger] records[i]),
    ensures
        canonical_map(records, paths, false) == canonical_map(records, paths, true),
    decreases records.len() + paths.len(),
{
    if paths.len() > 0 {
        lemma_canonical_map_same(records, paths.drop_last());
    } else if records.len() > 0 {
        assert forall|i: int| 0 <= i < records.drop_last().len() implies same_both_sides(#[trigger] records.drop_last()[i]) by {
            assert(records.drop_last()[i] == records[i]);
        }
        lemma_canonical_map_same(records.drop_last(), paths);
        assert(same_both_sides(records[records.len() - 1]));
        assert(records[records.len() - 1] == records.last());
    }
}

proof fn lemma_canon_keys_in(c: Map<Seq<char>, Seq<char>>, es: Seq<EdgeView>)
    ensures
        forall|i: int| 0 <= i < canon_edges(c, es).1.len() ==> canon_edges(c, es).0.contains_key(#[trigger] canon_edges(c, es).1[i]),
    decreases es.len(),
{
    if es.len() > 0 {
        lemma_canon_keys_in(c, es.drop_last());
        let (m, ks) = canon_edges(c, es.drop_last());
        let (m2, ks2) = canon_edges(c, es);
        match canon_entry(c, es.last()) {
            Some((k, v)) => {
                assert forall|i: int| 0 <= i < ks2.len() implies m2.contains_key(#[trigger] ks2[i]) by {
                    if i < ks.len() {
                        assert(ks2[i] == ks[i]);
                        assert(m.contains_key(ks[i]));
                    }
                }
            },
            None => {},
        }
    }
}

proof fn lemma_head_links_unchanged(hm: Map<Seq<char>, CanonEdgeView>, hks: Seq<Seq<char>>, bm: Map<Seq<char>, CanonEdgeView>, shown: Set<Seq<char>>)
    requires
        forall|i: int| 0 <= i < hks.len() ==> bm.contains_key(#[trigger] hks[i]),
    ensures
        forall|i: int| 0 <= i < head_links(hm, hks, bm, shown).len() ==> (#[trigger] head_links(hm, hks, bm, shown)[i]).status
            == DiffStatus::Unchanged,
    decreases hks.len(),
{
    if hks.len() > 0 {
        assert forall|i: int| 0 <= i < hks.drop_last().len() implies bm.contains_key(#[trigger] hks.drop_last()[i]) by {
            assert(hks.drop_last()[i] == hks[i]);
        }
        lemma_head_links_unchanged(hm, hks.drop_last(), bm, shown);
        assert(bm.contains_key(hks[hks.len() - 1]));
    }
}

proof fn lemma_removed_links_none(bm: Map<Seq<char>, CanonEdgeView>, bks: Seq<Seq<char>>, hm: Map<Seq<char>, CanonEdgeView>, shown: Set<Seq<char>>)
    requires
        forall|i: int| 0 <= i < bks.len() ==> hm.contains_key(#[trigger] bks[i]),
    ensures
        removed_links(bm, bks, hm, shown).len() == 0,
    decreases bks.len(),
{
    if bks.len() > 0 {
        assert forall|i: int| 0 <= i < bks.drop_last().len() implies hm.contains_key(#[trigger] bks.drop_last()[i]) by {
            assert(bks.drop_last()[i] == bks[i]);
        }
        lemma_removed_links_none(bm, bks.drop_last(), hm, shown);
        assert(hm.contains_key(bks[bks.len() - 1]));
    }
}

/// A store diffed against itself, where every symbol record is unchanged
/// with the same node on both sides: every file is unchanged, no symbol is
/// added, removed, modified or moved, no edge is added or removed, and
/// every link is unchanged.
pub proof fn lemma_self_graph_diff(
    r: GraphDiff,
    base_ref: Seq<char>,
    store: GraphStore,
    head_ref: Seq<char>,
    records: Seq<SymbolRecord>,
    limit: Option<usize>,
)
    requires
        is_graph_diff(r, base_ref, store, head_ref, store, records, limit),
        forall|i: int| 0 <= i < records.len() ==> (#[trigger] records[i]).status == DiffStatus::Unchanged && same_both_sides(
            records[i],
        ),
    ensures
        forall|i: int| 0 <= i < r.files@.len() ==> (#[trigger] r.files@[i]).status == DiffStatus::Unchanged,
        r.summary.files_added == 0 && r.summary.files_removed == 0 && r.summary.files_modified == 0,
        r.summary.symbols_added == 0 && r.summary.symbols_removed == 0 && r.summary.symbols_modified == 0
            && r.summary.symbols_moved == 0,
        r.summary.edges_added == 0 && r.summary.edges_removed == 0,
        forall|i: int| 0 <= i < r.links@.len() ==> (#[trigger] r.links@[i]).status == DiffStatus::Unchanged,
{
    let fs = r.files@;
    assert forall|i: int| 0 <= i < fs.len() implies (#[trigger] fs[i]).status == DiffStatus::Unchanged by {
        assert(fs[i]@.status == fs[i].status);
    }
    lemma_files_with_none(fs, DiffStatus::Added);
    lemma_files_with_none(fs, DiffStatus::Removed);
    lemma_files_with_none(fs, DiffStatus::Modified);
    lemma_symbols_with_none(records, DiffStatus::Added);
    lemma_symbols_with_none(records, DiffStatus::Removed);
    lemma_symbols_with_none(records, DiffStatus::Modified);
    lemma_symbols_with_none(records, DiffStatus::Moved);
    let shown = shown_ids(texts(r.file_paths@).to_set(), r.files@, texts(r.symbol_ids@).to_set(), records);
    assert forall|i: int| 0 <= i < records.len() implies same_both_sides(#[trigger] records[i]) by {}
    lemma_canonical_map_same(records, texts(r.file_paths@));
    let c = canonical_map(records, texts(r.file_paths@), true);
    let (m, ks) = canon_edges(c, store.edge_list());
    lemma_canon_keys_in(c, store.edge_list());
    let hl = head_links(m, ks, m, shown);
    let rl = removed_links(m, ks, m, shown);
    lemma_head_links_unchanged(m, ks, m, shown);
    lemma_removed_links_none(m, ks, m, shown);
    lemma_count_status_none(hl, DiffStatus::Added);
    let lv = r.links@.map_values(|l: DiffLink| l@);
    assert(hl + rl =~= hl);
    lv.to_multiset_ensures();
    hl.to_multiset_ensures();
    assert forall|i: int| 0 <= i < r.links@.len() implies (#[trigger] r.links@[i]).status == DiffStatus::Unchanged by {
        assert(lv[i] == r.links@[i]@);
        assert(lv.to_multiset().count(lv[i]) > 0);
        assert(hl.to_multiset().count(lv[i]) > 0);
        let k = choose|k: int| 0 <= k < hl.len() && hl[k] == lv[i];
    }
}

/// The diff of two revisions' graphs, given the records of how their symbols
/// compare: the files compared, at most `limit` symbols shown (2000 when no
/// limit is given) with the files they and the changed files lie in and the
/// diff nodes of those files, the links between the shown nodes, and the
/// totals.
pub fn diff_graphs(
    base_ref: &str,
    base_store: &GraphStore,
    head_ref: &str,
    head_store: &GraphStore,
    records: &[SymbolRecord],
    limit: Option<usize>,
) -> (r: GraphDiff)
    requires
        base_store.wf(),
        head_store.wf(),
        forall|id: Seq<char>| #[trigger] node_degree(base_store@, id) <= usize::MAX,
        forall|id: Seq<char>| #[trigger] node_degree(head_store@, id) <= usize::MAX,
    ensures
        is_graph_diff(r, base_ref@, *base_store, head_ref@, *head_store, records@, limit),
{
    let files = diff_files(base_store, head_store);
    let max: usize = match limit {
        Some(l) => l,
        None => 2000,
    };
    let symbol_ids = select_symbol_ids(records, max);
    let file_paths = select_file_paths(&symbol_ids, records, files.as_slice());
    let shown = shown_node_ids(&file_paths, files.as_slice(), &symbol_ids, records);
    let base_canonical = canonical_ids(records, &file_paths, false);
    let head_canonical = canonical_ids(records, &file_paths, true);
    let (links, added, removed) = build_links(base_store, head_store, &base_canonical, &head_canonical, &shown);
    let file_nodes = build_file_nodes(&file_paths, files.as_slice(), base_store, head_store);
    let summary = diff_summary(base_ref, head_ref, files.as_slice(), records, added, removed);
    GraphDiff { summary, files, symbol_ids, file_paths, file_nodes, links }
}

} // verus!
