//! Communities of a clustering: each community's label, taken from the most
//! common folder of its members, and its node with membership edges.

use vstd::prelude::*;
use crate::text::{chars_of, concat, spec_split, split_char, str_eq, string_of, lemma_split_nonempty};
use crate::bench::{decimal, decimal_digits};
use crate::graph::{GraphEdge, GraphNode, GraphStore, GraphView, EdgeView, NodeProps, NodeView, PropsView, no_props, spec_to_lowercase, to_lowercase};
use crate::linking::link_edge;
use crate::types::{NodeLabel, RelationType, spec_is_symbol};
use crate::process::{adjacency_of, adjacency_view, call_adjacency, long_enough, longest_first, max_len, path_view, paths_view, sort_longest_first};

verus! {

/// The folder that directly holds the file `path`: the second-to-last part of
/// the path split at `/`, when there are at least two parts.
pub open spec fn path_folder(path: Seq<char>) -> Option<Seq<char>> {
    let parts = spec_split(path, '/');
    if parts.len() >= 2 {
        Some(parts[parts.len() - 2])
    } else {
        None
    }
}

/// Whether a folder name says nothing about what its code does (compared in
/// lowercase): `src`, `lib`, `core`, `utils`, `common`, `shared`, `helpers`,
/// `test`, `tests`.
pub open spec fn generic_folder(name: Seq<char>) -> bool {
    let l = spec_to_lowercase(name);
    l == "src"@ || l == "lib"@ || l == "core"@ || l == "utils"@ || l == "common"@ || l == "shared"@ || l
        == "helpers"@ || l == "test"@ || l == "tests"@
}

/// The telling folders of the members found in the graph, in member order.
pub open spec fn member_folders(g: GraphView, members: Seq<Seq<char>>) -> Seq<Seq<char>>
    decreases members.len(),
{
    if members.len() == 0 {
        Seq::empty()
    } else {
        let prev = member_folders(g, members.drop_last());
        let id = members.last();
        if g.nodes.dom().contains(id) {
            match path_folder(g.nodes[id].file_path) {
                Some(f) => if generic_folder(f) {
                    prev
                } else {
                    prev.push(f)
                },
                None => prev,
            }
        } else {
            prev
        }
    }
}

/// How many times `x` occurs in `s`.
pub open spec fn occurrences(s: Seq<Seq<char>>, x: Seq<char>) -> nat
    decreases s.len(),
{
    if s.len() == 0 {
        0
    } else {
        occurrences(s.drop_last(), x) + if s.last() == x {
            1nat
        } else {
            0nat
        }
    }
}

/// `k` is the first position of `s` whose entry occurs most often.
pub open spec fn first_most_common(s: Seq<Seq<char>>, k: int) -> bool {
    &&& 0 <= k < s.len()
    &&& forall|j: int| 0 <= j < s.len() ==> occurrences(s, #[trigger] s[j]) <= occurrences(s, s[k])
    &&& forall|j: int| 0 <= j < k ==> occurrences(s, #[trigger] s[j]) < occurrences(s, s[k])
}

/// `s` with its first character made uppercase when it is an ASCII lowercase
/// letter.
pub open spec fn ascii_capitalized(s: Seq<char>) -> Seq<char> {
    if s.len() > 0 && 'a' <= s[0] <= 'z' {
        s.update(0, (s[0] as int - 32) as char)
    } else {
        s
    }
}

/// The label of a community: its members' most common telling folder
/// (the first to reach the highest count), capitalized; `Cluster_` and the
/// community's index when no member has one.
pub open spec fn community_label_of(g: GraphView, members: Seq<Seq<char>>, idx: nat) -> Seq<char> {
    let fs = member_folders(g, members);
    if fs.len() == 0 {
        "Cluster_"@ + decimal(idx)
    } else {
        ascii_capitalized(fs[choose|k: int| first_most_common(fs, k)])
    }
}

/// Only one position is the first most common.
proof fn lemma_first_most_common_unique(s: Seq<Seq<char>>, a: int, b: int)
    requires
        first_most_common(s, a),
        first_most_common(s, b),
    ensures
        a == b,
{
    if a < b {
        assert(occurrences(s, s[a]) < occurrences(s, s[b]));
    } else if b < a {
        assert(occurrences(s, s[b]) < occurrences(s, s[a]));
    }
}

/// How many times `x` occurs in `s`.
fn count_of(s: &Vec<Vec<char>>, x: &Vec<char>) -> (r: usize)
    ensures
        r == occurrences(s@.map_values(|v: Vec<char>| v@), x@),
{
    let ghost sv = s@.map_values(|v: Vec<char>| v@);
    let mut c: usize = 0;
    let mut j: usize = 0;
    while j < s.len()
        invariant
            j <= s@.len(),
            sv == s@.map_values(|v: Vec<char>| v@),
            c <= j,
            c == occurrences(sv.subrange(0, j as int), x@),
        decreases s.len() - j,
    {
        assert(sv.subrange(0, j + 1).drop_last() =~= sv.subrange(0, j as int));
        let a = string_of(s[j].as_slice());
        let b = string_of(x.as_slice());
        if str_eq(a.as_str(), b.as_str()) {
            c = c + 1;
        }
        j = j + 1;
    }
    assert(sv.subrange(0, sv.len() as int) =~= sv);
    c
}

/// The folder that directly holds the file `path`, if the path has one.
fn folder_of(path: &str) -> (r: Option<Vec<char>>)
    ensures
        match r {
            Some(f) => path_folder(path@) == Some(f@),
            None => path_folder(path@) is None,
        },
{
    let parts = split_char(chars_of(path).as_slice(), '/');
    proof {
        lemma_split_nonempty(path@, '/');
    }
    if parts.len() >= 2 {
        let k = parts.len() - 2;
        Some(parts[k].clone())
    } else {
        None
    }
}

/// Whether a folder name is one that says nothing about its code.
fn is_generic_folder(name: &str) -> (r: bool)
    ensures
        r == generic_folder(name@),
{
    let l = to_lowercase(name);
    let s = l.as_str();
    str_eq(s, "src") || str_eq(s, "lib") || str_eq(s, "core") || str_eq(s, "utils") || str_eq(s, "common")
        || str_eq(s, "shared") || str_eq(s, "helpers") || str_eq(s, "test") || str_eq(s, "tests")
}

/// `s` with an ASCII lowercase first letter made uppercase.
fn capitalize_ascii(s: &Vec<char>) -> (r: Vec<char>)
    ensures
        r@ == ascii_capitalized(s@),
{
    let mut r = s.clone();
    assert(r@ == s@);
    if r.len() > 0 {
        let c = r[0];
        if 'a' <= c && c <= 'z' {
            let code: u32 = c as u32;
            let u = (code - 32) as u8 as char;
            r.set(0, u);
        }
    }
    r
}

/// The label of a community with members `members` (node ids) and index
/// `idx`: the most common folder among the members' files, leaving out
/// generic ones, with its first letter capitalized; `Cluster_<idx>` when
/// there is none.
pub fn community_label(members: &[String], store: &GraphStore, idx: usize) -> (r: String)
    requires
        store.wf(),
    ensures
        r@ == community_label_of(store@, members@.map_values(|m: String| m@), idx as nat),
{
    let ghost mv = members@.map_values(|m: String| m@);
    let mut folders: Vec<Vec<char>> = Vec::new();
    let mut i: usize = 0;
    while i < members.len()
        invariant
            i <= members@.len(),
            store.wf(),
            mv == members@.map_values(|m: String| m@),
            folders@.map_values(|v: Vec<char>| v@) == member_folders(store@, mv.subrange(0, i as int)),
        decreases members.len() - i,
    {
        assert(mv.subrange(0, i + 1).drop_last() =~= mv.subrange(0, i as int));
        assert(mv.subrange(0, i + 1).last() == members@[i as int]@);
        let ghost before = folders@;
        match store.get_node(members[i].as_str()) {
            Some(node) => {
                match folder_of(node.file_path.as_str()) {
                    Some(f) => {
                        let name = string_of(f.as_slice());
                        if !is_generic_folder(name.as_str()) {
                            folders.push(f);
                            assert(folders@.map_values(|v: Vec<char>| v@) =~= before.map_values(
                                |v: Vec<char>| v@,
                            ).push(name@));
                        }
                    },
                    None => {},
                }
            },
            None => {},
        }
        i = i + 1;
    }
    assert(mv.subrange(0, mv.len() as int) =~= mv);
    let ghost fs = folders@.map_values(|v: Vec<char>| v@);
    if folders.len() == 0 {
        let digits = decimal_digits(idx as u64);
        let prefix = chars_of("Cluster_");
        proof {
            reveal_strlit("Cluster_");
        }
        return string_of(concat(prefix.as_slice(), digits.as_slice()).as_slice());
    }
    let mut best: usize = 0;
    let mut best_count: usize = count_of(&folders, &folders[0]);
    let mut k: usize = 1;
    while k < folders.len()
        invariant
            1 <= k <= folders@.len(),
            fs == folders@.map_values(|v: Vec<char>| v@),
            best < k,
            best_count == occurrences(fs, fs[best as int]),
            forall|j: int| 0 <= j < k ==> occurrences(fs, #[trigger] fs[j]) <= occurrences(fs, fs[best as int]),
            forall|j: int| 0 <= j < best ==> occurrences(fs, #[trigger] fs[j]) < occurrences(fs, fs[best as int]),
        decreases folders.len() - k,
    {
        let c = count_of(&folders, &folders[k]);
        if c > best_count {
            best = k;
            best_count = c;
        }
        k = k + 1;
    }
    proof {
        assert(first_most_common(fs, best as int));
        let chosen = choose|k: int| first_most_common(fs, k);
        lemma_first_most_common_unique(fs, chosen, best as int);
    }
    let label = capitalize_ascii(&folders[best]);
    string_of(label.as_slice())
}

/// The id of the community at index `idx`: `comm_<idx>`.
pub open spec fn community_id(idx: nat) -> Seq<char> {
    "comm_"@ + decimal(idx)
}

/// The node of the community at index `idx` with label `label` and `size`
/// members (the count kept as a `u32`, wrapping as a cast does).
pub open spec fn community_node(idx: nat, label: Seq<char>, size: nat) -> NodeView {
    NodeView {
        id: community_id(idx),
        label: NodeLabel::Community,
        name: label,
        file_path: Seq::empty(),
        props: PropsView { heuristic_label: Some(label), symbol_count: Some(size as u32), ..no_props() },
    }
}

/// The MEMBER_OF edges from each member to the community `comm`.
pub open spec fn membership_edges(members: Seq<Seq<char>>, comm: Seq<char>) -> Seq<EdgeView> {
    members.map_values(|m: Seq<char>| link_edge(m, RelationType::MemberOf, comm, 1000, "community membership"@))
}

/// The MEMBER_OF edges of all communities, community by community.
pub open spec fn all_membership_edges(groups: Seq<Seq<Seq<char>>>) -> Seq<EdgeView>
    decreases groups.len(),
{
    if groups.len() == 0 {
        Seq::empty()
    } else {
        all_membership_edges(groups.drop_last()) + membership_edges(
            groups.last(),
            community_id((groups.len() - 1) as nat),
        )
    }
}

/// The member ids of each community, as text.
pub open spec fn groups_view(groups: Seq<Vec<String>>) -> Seq<Seq<Seq<char>>> {
    groups.map_values(|g: Vec<String>| g@.map_values(|m: String| m@))
}

/// The id of the community at index `idx`.
fn community_id_of(idx: usize) -> (r: String)
    ensures
        r@ == community_id(idx as nat),
{
    let digits = decimal_digits(idx as u64);
    let prefix = chars_of("comm_");
    proof {
        reveal_strlit("comm_");
    }
    string_of(concat(prefix.as_slice(), digits.as_slice()).as_slice())
}

/// The nodes of the communities `groups` (each a list of member node ids, in
/// community order) and the MEMBER_OF edges from their members: community
/// `i` is `comm_<i>`, labelled by `community_label`.
pub fn community_graph(groups: &[Vec<String>], store: &GraphStore) -> (r: (Vec<GraphNode>, Vec<GraphEdge>))
    requires
        store.wf(),
    ensures
        r.0@.map_values(|n: GraphNode| n@) == Seq::new(
            groups@.len(),
            |i: int| community_node(i as nat, community_label_of(store@, groups_view(groups@)[i], i as nat), groups@[i]@.len()),
        ),
        r.1@.map_values(|e: GraphEdge| e@) == all_membership_edges(groups_view(groups@)),
{
    let ghost gv = groups_view(groups@);
    let mut nodes: Vec<GraphNode> = Vec::new();
    let mut edges: Vec<GraphEdge> = Vec::new();
    let mut i: usize = 0;
    while i < groups.len()
        invariant
            i <= groups@.len(),
            store.wf(),
            gv == groups_view(groups@),
            nodes@.map_values(|n: GraphNode| n@) == Seq::new(
                i as nat,
                |k: int| community_node(k as nat, community_label_of(store@, gv[k], k as nat), gv[k].len()),
            ),
            edges@.map_values(|e: GraphEdge| e@) == all_membership_edges(gv.subrange(0, i as int)),
        decreases groups.len() - i,
    {
        let members = &groups[i];
        let comm = community_id_of(i);
        let label = community_label(members.as_slice(), store, i);
        let ghost nb = nodes@.map_values(|n: GraphNode| n@);
        let mut props = NodeProps::none();
        props.heuristic_label = Some(label.clone());
        props.symbol_count = Some(members.len() as u32);
        let node = GraphNode {
            id: comm.clone(),
            label: NodeLabel::Community,
            name: label,
            file_path: String::new(),
            props,
        };
        let ghost nv = node@;
        assert(gv[i as int] == members@.map_values(|m: String| m@));
        assert(nv == community_node(i as nat, community_label_of(store@, gv[i as int], i as nat), gv[i as int].len()));
        nodes.push(node);
        assert(nodes@.map_values(|n: GraphNode| n@) =~= nb.push(nv));
        assert(nodes@.map_values(|n: GraphNode| n@) =~= Seq::new(
            (i + 1) as nat,
            |k: int| community_node(k as nat, community_label_of(store@, gv[k], k as nat), gv[k].len()),
        ));
        let ghost e0 = edges@.map_values(|e: GraphEdge| e@);
        let ghost mv = gv[i as int];
        assert(mv == members@.map_values(|m: String| m@));
        let mut j: usize = 0;
        while j < members.len()
            invariant
                j <= members@.len(),
                mv == members@.map_values(|m: String| m@),
                comm@ == community_id(i as nat),
                edges@.map_values(|e: GraphEdge| e@) == e0 + membership_edges(mv.subrange(0, j as int), comm@),
            decreases members.len() - j,
        {
            let ghost eb = edges@;
            edges.push(GraphEdge::new(members[j].as_str(), comm.as_str(), RelationType::MemberOf, 1000, "community membership"));
            assert(edges@.map_values(|e: GraphEdge| e@) =~= eb.map_values(|e: GraphEdge| e@).push(
                link_edge(mv[j as int], RelationType::MemberOf, comm@, 1000, "community membership"@),
            ));
            assert(membership_edges(mv.subrange(0, j + 1), comm@) =~= membership_edges(
                mv.subrange(0, j as int),
                comm@,
            ).push(link_edge(mv[j as int], RelationType::MemberOf, comm@, 1000, "community membership"@)));
            j = j + 1;
        }
        proof {
            assert(mv.subrange(0, mv.len() as int) =~= mv);
            assert(gv.subrange(0, i + 1).drop_last() =~= gv.subrange(0, i as int));
            assert(gv.subrange(0, i + 1).last() == mv);
        }
        i = i + 1;
    }
    assert(gv.subrange(0, gv.len() as int) =~= gv);
    (nodes, edges)
}


/// Whether clustering counts edges of the relation `rel`: calls and
/// inheritance.
pub open spec fn spec_clustered(rel: RelationType) -> bool {
    rel == RelationType::Calls || rel == RelationType::Extends || rel == RelationType::Implements
}

/// Whether the node `id` of `g` is a symbol.
pub open spec fn is_symbol_node(g: GraphView, id: Seq<char>) -> bool {
    g.nodes.dom().contains(id) && spec_is_symbol(g.nodes[id].label)
}

/// The links that community detection clusters by, in edge order: each
/// calls, extends or implements edge of at least half confidence (500
/// thousandths) between two different symbol nodes, as (source, target).
pub open spec fn cluster_links_of(g: GraphView, es: Seq<EdgeView>) -> Seq<(Seq<char>, Seq<char>)>
    decreases es.len(),
{
    if es.len() == 0 {
        Seq::empty()
    } else {
        let p = cluster_links_of(g, es.drop_last());
        let e = es.last();
        if spec_clustered(e.rel_type) && e.confidence >= 500 && is_symbol_node(g, e.source_id) && is_symbol_node(
            g,
            e.target_id,
        ) && e.source_id != e.target_id {
            p.push((e.source_id, e.target_id))
        } else {
            p
        }
    }
}

/// The texts of (source, target) pairs.
pub open spec fn link_pairs(v: Seq<(String, String)>) -> Seq<(Seq<char>, Seq<char>)> {
    v.map_values(|p: (String, String)| (p.0@, p.1@))
}

/// A clustering link is exactly a calls, extends or implements edge of at
/// least 500 thousandths' confidence between two different symbol nodes:
/// each such edge gives the link (source, target), and every link comes
/// from one.
pub proof fn lemma_cluster_links_law(g: GraphView, es: Seq<EdgeView>)
    ensures
        forall|k: int|
            0 <= k < es.len() && ((#[trigger] es[k]).rel_type == RelationType::Calls || es[k].rel_type == RelationType::Extends
                || es[k].rel_type == RelationType::Implements) && es[k].confidence >= 500 && es[k].source_id != es[k].target_id
                && is_symbol_node(g, es[k].source_id) && is_symbol_node(g, es[k].target_id) ==> cluster_links_of(g, es).contains(
                (es[k].source_id, es[k].target_id),
            ),
        forall|a: Seq<char>, b: Seq<char>|
            #[trigger] cluster_links_of(g, es).contains((a, b)) ==> exists|k: int|
                0 <= k < es.len() && (#[trigger] es[k]).source_id == a && es[k].target_id == b && (es[k].rel_type
                    == RelationType::Calls || es[k].rel_type == RelationType::Extends || es[k].rel_type
                    == RelationType::Implements) && es[k].confidence >= 500 && a != b && is_symbol_node(g, a)
                    && is_symbol_node(g, b),
    decreases es.len(),
{
    if es.len() > 0 {
        let e0 = es.drop_last();
        lemma_cluster_links_law(g, e0);
        let p = cluster_links_of(g, e0);
        let r = cluster_links_of(g, es);
        let e = es.last();
        let taken = spec_clustered(e.rel_type) && e.confidence >= 500 && is_symbol_node(g, e.source_id) && is_symbol_node(
            g,
            e.target_id,
        ) && e.source_id != e.target_id;
        if taken {
            assert(r == p.push((e.source_id, e.target_id)));
        } else {
            assert(r == p);
        }
        assert forall|k: int|
            0 <= k < es.len() && ((#[trigger] es[k]).rel_type == RelationType::Calls || es[k].rel_type == RelationType::Extends
                || es[k].rel_type == RelationType::Implements) && es[k].confidence >= 500 && es[k].source_id != es[k].target_id
                && is_symbol_node(g, es[k].source_id) && is_symbol_node(g, es[k].target_id) implies r.contains(
            (es[k].source_id, es[k].target_id),
        ) by {
            if k < es.len() - 1 {
                assert(es[k] == e0[k]);
                assert(p.contains((e0[k].source_id, e0[k].target_id)));
                let j = choose|j: int| 0 <= j < p.len() && p[j] == (e0[k].source_id, e0[k].target_id);
                assert(r[j] == p[j]);
            } else {
                assert(r[p.len() as int] == (e.source_id, e.target_id));
            }
        }
        assert forall|a: Seq<char>, b: Seq<char>| #[trigger] r.contains((a, b)) implies exists|k: int|
            0 <= k < es.len() && (#[trigger] es[k]).source_id == a && es[k].target_id == b && (es[k].rel_type
                == RelationType::Calls || es[k].rel_type == RelationType::Extends || es[k].rel_type
                == RelationType::Implements) && es[k].confidence >= 500 && a != b && is_symbol_node(g, a) && is_symbol_node(
                g,
                b,
            ) by {
            let j = choose|j: int| 0 <= j < r.len() && r[j] == (a, b);
            if j < p.len() {
                assert(p[j] == (a, b));
                assert(p.contains((a, b)));
                let k = choose|k: int|
                    0 <= k < e0.len() && (#[trigger] e0[k]).source_id == a && e0[k].target_id == b && (e0[k].rel_type
                        == RelationType::Calls || e0[k].rel_type == RelationType::Extends || e0[k].rel_type
                        == RelationType::Implements) && e0[k].confidence >= 500 && a != b && is_symbol_node(g, a)
                        && is_symbol_node(g, b);
                assert(es[k] == e0[k]);
            } else {
                assert(es[es.len() - 1] == e);
            }
        }
    }
}

/// The links that community detection clusters by.
pub fn cluster_links(store: &GraphStore) -> (r: Vec<(String, String)>)
    requires
        store.wf(),
    ensures
        link_pairs(r@) == cluster_links_of(store@, store.edge_list()),
        forall|k: int|
            0 <= k < store.edge_list().len() && ((#[trigger] store.edge_list()[k]).rel_type == RelationType::Calls
                || store.edge_list()[k].rel_type == RelationType::Extends || store.edge_list()[k].rel_type
                == RelationType::Implements) && store.edge_list()[k].confidence >= 500 && store.edge_list()[k].source_id
                != store.edge_list()[k].target_id && is_symbol_node(store@, store.edge_list()[k].source_id)
                && is_symbol_node(store@, store.edge_list()[k].target_id) ==> link_pairs(r@).contains(
                (store.edge_list()[k].source_id, store.edge_list()[k].target_id),
            ),
{
    proof {
        lemma_cluster_links_law(store@, store.edge_list());
    }
    let edges = store.edges();
    let ghost ev = edges@.map_values(|e: GraphEdge| e@);
    let mut out: Vec<(String, String)> = Vec::new();
    let mut i: usize = 0;
    while i < edges.len()
        invariant
            i <= edges@.len(),
            store.wf(),
            ev == edges@.map_values(|e: GraphEdge| e@),
            ev == store.edge_list(),
            link_pairs(out@) == cluster_links_of(store@, ev.subrange(0, i as int)),
        decreases edges.len() - i,
    {
        let e = &edges[i];
        assert(ev.subrange(0, i + 1).drop_last() =~= ev.subrange(0, i as int));
        assert(ev.subrange(0, i + 1).last() == e@);
        let rel = e.rel_type;
        let clustered = rel == RelationType::Calls || rel == RelationType::Extends || rel == RelationType::Implements;
        if clustered && e.confidence >= 500 && !str_eq(e.source_id.as_str(), e.target_id.as_str()) {
            let src_symbol = match store.get_node(e.source_id.as_str()) {
                Some(n) => n.label.is_symbol(),
                None => false,
            };
            let dst_symbol = match store.get_node(e.target_id.as_str()) {
                Some(n) => n.label.is_symbol(),
                None => false,
            };
            if src_symbol && dst_symbol {
                let ghost before = link_pairs(out@);
                out.push((e.source_id.clone(), e.target_id.clone()));
                assert(link_pairs(out@) =~= before.push((e.source_id@, e.target_id@)));
            }
        }
        i = i + 1;
    }
    assert(ev.subrange(0, ev.len() as int) =~= ev);
    out
}

/// Each link followed by its reverse: the links of the undirected graph
/// that the links span.
pub open spec fn both_ways(ls: Seq<(Seq<char>, Seq<char>)>) -> Seq<(Seq<char>, Seq<char>)>
    decreases ls.len(),
{
    if ls.len() == 0 {
        Seq::empty()
    } else {
        both_ways(ls.drop_last()) + seq![ls.last(), (ls.last().1, ls.last().0)]
    }
}

/// The neighbours that clustering sees of each symbol: for each node, in
/// the order the clustered links first reach it, the nodes it links to or
/// is linked from, one entry per link.
pub fn cluster_adjacency(store: &GraphStore) -> (r: Vec<(String, Vec<String>)>)
    requires
        store.wf(),
    ensures
        adjacency_view(r@) == adjacency_of(both_ways(cluster_links_of(store@, store.edge_list()))),
{
    let links = cluster_links(store);
    let ghost lv = link_pairs(links@);
    let mut both: Vec<(String, String)> = Vec::new();
    let mut i: usize = 0;
    assert(lv.subrange(0, 0) =~= Seq::<(Seq<char>, Seq<char>)>::empty());
    assert(link_pairs(both@) =~= Seq::<(Seq<char>, Seq<char>)>::empty());
    while i < links.len()
        invariant
            i <= links@.len(),
            lv == link_pairs(links@),
            link_pairs(both@) == both_ways(lv.subrange(0, i as int)),
        decreases links.len() - i,
    {
        let ghost before = link_pairs(both@);
        let (a, b) = (links[i].0.clone(), links[i].1.clone());
        both.push((a.clone(), b.clone()));
        both.push((b, a));
        assert(lv.subrange(0, i + 1).drop_last() =~= lv.subrange(0, i as int));
        assert(lv.subrange(0, i + 1).last() == lv[i as int]);
        assert(link_pairs(both@) =~= before + seq![lv[i as int], (lv[i as int].1, lv[i as int].0)]);
        i = i + 1;
    }
    assert(lv.subrange(0, lv.len() as int) =~= lv);
    call_adjacency(&both)
}

/// The members of each community of an assignment of nodes to community
/// numbers, communities in the order first seen, members in order.
pub open spec fn groups_of(a: Seq<(Seq<char>, usize)>) -> Seq<(usize, Seq<Seq<char>>)>
    decreases a.len(),
{
    if a.len() == 0 {
        Seq::empty()
    } else {
        let g = groups_of(a.drop_last());
        let (id, c) = a.last();
        match group_index(g, c) {
            Some(k) => g.update(k, (c, g[k].1.push(id))),
            None => g.push((c, seq![id])),
        }
    }
}

/// The position of the community numbered `c` among the groups `g`.
pub open spec fn group_index(g: Seq<(usize, Seq<Seq<char>>)>, c: usize) -> Option<int>
    decreases g.len(),
{
    if g.len() == 0 {
        None
    } else if g.last().0 == c {
        Some(g.len() - 1)
    } else {
        group_index(g.drop_last(), c)
    }
}

proof fn lemma_group_index(g: Seq<(usize, Seq<Seq<char>>)>, c: usize)
    ensures
        group_index(g, c) matches Some(k) ==> 0 <= k < g.len() && g[k].0 == c,
        group_index(g, c) is None ==> forall|k: int| 0 <= k < g.len() ==> (#[trigger] g[k]).0 != c,
    decreases g.len(),
{
    if g.len() > 0 && g.last().0 != c {
        lemma_group_index(g.drop_last(), c);
        assert forall|k: int| 0 <= k < g.len() - 1 implies g[k] == g.drop_last()[k] by {}
    }
}

/// The communities of an assignment of nodes to community numbers, as
/// community detection reports them: the members of each, without
/// communities of a single member, largest first (communities of equal size
/// in the order first seen).
pub open spec fn spec_community_groups(a: Seq<(Seq<char>, usize)>) -> Seq<Seq<Seq<char>>> {
    let gs = long_enough(groups_of(a).map_values(|g: (usize, Seq<Seq<char>>)| g.1), 2);
    longest_first(gs, max_len(gs) as int)
}

/// The texts of an assignment of nodes to community numbers.
pub open spec fn assignment_view(a: Seq<(String, usize)>) -> Seq<(Seq<char>, usize)> {
    a.map_values(|p: (String, usize)| (p.0@, p.1))
}

fn find_group(g: &Vec<(usize, Vec<String>)>, c: usize) -> (r: Option<usize>)
    ensures
        match r {
            Some(k) => group_index(g@.map_values(|e: (usize, Vec<String>)| (e.0, path_view(e.1@))), c) == Some(k as int),
            None => group_index(g@.map_values(|e: (usize, Vec<String>)| (e.0, path_view(e.1@))), c) is None,
        },
{
    let ghost gv = g@.map_values(|e: (usize, Vec<String>)| (e.0, path_view(e.1@)));
    let mut k: usize = g.len();
    assert(gv.subrange(0, gv.len() as int) =~= gv);
    while k > 0
        invariant
            k <= g@.len(),
            gv == g@.map_values(|e: (usize, Vec<String>)| (e.0, path_view(e.1@))),
            group_index(gv, c) == group_index(gv.subrange(0, k as int), c),
        decreases k,
    {
        let ghost sub = gv.subrange(0, k as int);
        assert(sub.last() == gv[k - 1]);
        if g[k - 1].0 == c {
            return Some(k - 1);
        }
        assert(sub.drop_last() =~= gv.subrange(0, k - 1));
        k = k - 1;
    }
    None
}

/// The communities of an assignment of nodes to community numbers: the
/// members of each, without single-member communities, largest first.
pub fn community_groups(assignment: &[(String, usize)]) -> (r: Vec<Vec<String>>)
    ensures
        paths_view(r@) == spec_community_groups(assignment_view(assignment@)),
{
    let ghost av = assignment_view(assignment@);
    let mut groups: Vec<(usize, Vec<String>)> = Vec::new();
    let mut i: usize = 0;
    while i < assignment.len()
        invariant
            i <= assignment@.len(),
            av == assignment_view(assignment@),
            groups@.map_values(|e: (usize, Vec<String>)| (e.0, path_view(e.1@))) == groups_of(av.subrange(0, i as int)),
        decreases assignment.len() - i,
    {
        let ghost gv = groups@.map_values(|e: (usize, Vec<String>)| (e.0, path_view(e.1@)));
        let (id, c) = (&assignment[i].0, assignment[i].1);
        assert(av.subrange(0, i + 1).drop_last() =~= av.subrange(0, i as int));
        assert(av.subrange(0, i + 1).last() == (id@, c));
        proof {
            lemma_group_index(gv, c);
        }
        match find_group(&groups, c) {
            Some(k) => {
                let mut members = groups[k].1.clone();
                let ghost mv = path_view(groups@[k as int].1@);
                proof {
                    assert(path_view(members@) =~= mv) by {
                        assert forall|j: int| 0 <= j < members@.len() implies members@[j]@ == groups@[k as int].1@[j]@ by {}
                    }
                }
                members.push(id.clone());
                assert(path_view(members@) =~= mv.push(id@));
                groups.set(k, (c, members));
                assert(groups@.map_values(|e: (usize, Vec<String>)| (e.0, path_view(e.1@))) =~= gv.update(
                    k as int,
                    (c, gv[k as int].1.push(id@)),
                ));
            },
            None => {
                let ghost before = gv;
                let mut single: Vec<String> = Vec::new();
                single.push(id.clone());
                assert(path_view(single@) =~= seq![id@]);
                groups.push((c, single));
                assert(groups@.map_values(|e: (usize, Vec<String>)| (e.0, path_view(e.1@))) =~= before.push((c, seq![id@])));
            },
        }
        i = i + 1;
    }
    assert(av.subrange(0, av.len() as int) =~= av);
    let ghost gs = groups@.map_values(|e: (usize, Vec<String>)| (e.0, path_view(e.1@)));
    let mut kept: Vec<Vec<String>> = Vec::new();
    let mut j: usize = 0;
    let ghost members = gs.map_values(|g: (usize, Seq<Seq<char>>)| g.1);
    while j < groups.len()
        invariant
            j <= groups@.len(),
            gs == groups@.map_values(|e: (usize, Vec<String>)| (e.0, path_view(e.1@))),
            members == gs.map_values(|g: (usize, Seq<Seq<char>>)| g.1),
            paths_view(kept@) == long_enough(members.subrange(0, j as int), 2),
        decreases groups.len() - j,
    {
        assert(members.subrange(0, j + 1).drop_last() =~= members.subrange(0, j as int));
        assert(members.subrange(0, j + 1).last() == path_view(groups@[j as int].1@));
        if groups[j].1.len() >= 2 {
            let ghost before = paths_view(kept@);
            let g = groups[j].1.clone();
            proof {
                assert(path_view(g@) =~= path_view(groups@[j as int].1@)) by {
                    assert forall|t: int| 0 <= t < g@.len() implies g@[t]@ == groups@[j as int].1@[t]@ by {}
                }
            }
            kept.push(g);
            assert(paths_view(kept@) =~= before.push(path_view(groups@[j as int].1@)));
        }
        j = j + 1;
    }
    assert(members.subrange(0, members.len() as int) =~= members);
    sort_longest_first(&kept)
}

} // verus!
