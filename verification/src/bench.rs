//! Benchmark helpers: the line appended to a sample file to force a change,
//! the label of a timestamp, and the graph's node and edge counts by kind.

use vstd::prelude::*;
use crate::paths::{path_extension, spec_path_extension};
use crate::text::{chars_of, concat, push_char, str_eq};
use crate::types::{label_name, relation_name};
use crate::graph::{GraphEdge, GraphNode, GraphStore, EdgeView, NodeView, ids_view};
use crate::scanner::{lex_lt, lemma_lex_total};
use crate::diff::{key2_le, sort_keys2};
use vstd::hash_map::StringHashMap;

verus! {

/// The comment line appended to a source file of the extension `ext` to
/// change it: a `#` comment for Python, a `//` comment for the C-like
/// languages, none for others.
pub open spec fn spec_marker_for_extension(ext: Option<Seq<char>>) -> Option<Seq<char>> {
    match ext {
        Some(e) => if e == "py"@ || e == "pyi"@ {
            Some("\n# gitgrapher benchmark mutation\n"@)
        } else if e == "ts"@ || e == "tsx"@ || e == "mts"@ || e == "cts"@ || e == "js"@ || e == "jsx"@
            || e == "mjs"@ || e == "cjs"@ || e == "go"@ || e == "rs"@ {
            Some("\n// gitgrapher benchmark mutation\n"@)
        } else {
            None
        },
        None => None,
    }
}

/// The comment line appended to the file at `path` to change it, by its
/// extension.
pub fn mutation_marker(path: &str) -> (r: Option<&'static str>)
    ensures
        match r {
            Some(m) => spec_marker_for_extension(spec_path_extension(path@)) == Some(m@),
            None => spec_marker_for_extension(spec_path_extension(path@)) is None,
        },
{
    let ext = match path_extension(path) {
        Some(e) => e,
        None => return None,
    };
    let e = ext.as_str();
    if str_eq(e, "py") || str_eq(e, "pyi") {
        Some("\n# gitgrapher benchmark mutation\n")
    } else if str_eq(e, "ts") || str_eq(e, "tsx") || str_eq(e, "mts") || str_eq(e, "cts") || str_eq(e, "js")
        || str_eq(e, "jsx") || str_eq(e, "mjs") || str_eq(e, "cjs") || str_eq(e, "go") || str_eq(e, "rs") {
        Some("\n// gitgrapher benchmark mutation\n")
    } else {
        None
    }
}

/// The decimal digits of `n`.
pub open spec fn decimal(n: nat) -> Seq<char>
    decreases n,
{
    if n < 10 {
        seq![(48 + n) as char]
    } else {
        decimal(n / 10).push((48 + n % 10) as char)
    }
}

/// The decimal digits of `n`.
pub fn decimal_digits(n: u64) -> (r: Vec<char>)
    ensures
        r@ == decimal(n as nat),
    decreases n,
{
    let d = (48 + n % 10) as u8 as char;
    if n < 10 {
        let mut r = Vec::new();
        r.push(d);
        r
    } else {
        let mut r = decimal_digits(n / 10);
        r.push(d);
        r
    }
}

/// The label of the time `secs` seconds after the Unix epoch: `unix:` and
/// the decimal number.
pub open spec fn spec_time_label(secs: u64) -> Seq<char> {
    "unix:"@ + decimal(secs as nat)
}

/// The label of the time `secs` seconds after the Unix epoch.
pub fn time_label(secs: u64) -> (r: String)
    ensures
        r@ == spec_time_label(secs),
{
    let text = concat(&chars_of("unix:"), &decimal_digits(secs));
    let mut r = String::new();
    let mut i: usize = 0;
    while i < text.len()
        invariant
            i <= text@.len(),
            r@ == text@.subrange(0, i as int),
        decreases text.len() - i,
    {
        push_char(&mut r, text[i]);
        assert(text@.subrange(0, i + 1) =~= text@.subrange(0, i as int).push(text@[i as int]));
        i = i + 1;
    }
    assert(text@.subrange(0, text@.len() as int) =~= text@);
    r
}

/// How often `x` occurs in `names`.
pub open spec fn name_count(names: Seq<Seq<char>>, x: Seq<char>) -> nat
    decreases names.len(),
{
    if names.len() == 0 {
        0
    } else {
        name_count(names.drop_last(), x) + if names.last() == x { 1nat } else { 0nat }
    }
}

/// `r` lists each name of `names` once, in ascending order of the text,
/// with how often it occurs.
pub open spec fn counts_by_name(names: Seq<Seq<char>>, r: Seq<(Seq<char>, usize)>) -> bool {
    &&& forall|i: int, j: int| 0 <= i < j < r.len() ==> lex_lt(#[trigger] r[i].0, #[trigger] r[j].0)
    &&& forall|x: Seq<char>| #[trigger] names.contains(x) <==> exists|i: int| 0 <= i < r.len() && #[trigger] r[i].0 == x
    &&& forall|i: int| 0 <= i < r.len() ==> #[trigger] r[i].1 == name_count(names, r[i].0)
}

/// The contents of a list of name counts.
pub open spec fn count_views(r: Seq<(String, usize)>) -> Seq<(Seq<char>, usize)> {
    r.map_values(|p: (String, usize)| (p.0@, p.1))
}

/// A count is at most the number of names, and positive just where the
/// name occurs.
proof fn lemma_name_count(names: Seq<Seq<char>>, x: Seq<char>)
    ensures
        name_count(names, x) <= names.len(),
        name_count(names, x) > 0 <==> names.contains(x),
    decreases names.len(),
{
    if names.len() > 0 {
        let q = names.drop_last();
        lemma_name_count(q, x);
        if q.contains(x) {
            let k = choose|k: int| 0 <= k < q.len() && q[k] == x;
            assert(names[k] == x);
        }
        if names.contains(x) && names.last() != x {
            let k = choose|k: int| 0 <= k < names.len() && names[k] == x;
            assert(q[k] == x);
        }
    }
}

/// Each name of `names` once, in ascending order, with how often it occurs.
fn count_names(names: &Vec<String>) -> (r: Vec<(String, usize)>)
    ensures
        counts_by_name(ids_view(names@), count_views(r@)),
{
    let ghost nv = ids_view(names@);
    let mut uniq: Vec<String> = Vec::new();
    let mut counts: StringHashMap<usize> = StringHashMap::new();
    let mut i: usize = 0;
    while i < names.len()
        invariant
            i <= names@.len(),
            nv == ids_view(names@),
            forall|x: Seq<char>| #[trigger] counts@.contains_key(x) <==> nv.take(i as int).contains(x),
            forall|x: Seq<char>| #[trigger] counts@.contains_key(x) ==> counts@[x] == name_count(nv.take(i as int), x),
            ids_view(uniq@).no_duplicates(),
            forall|x: Seq<char>| #[trigger] ids_view(uniq@).contains(x) <==> nv.take(i as int).contains(x),
        decreases names.len() - i,
    {
        let ghost pre = nv.take(i as int);
        let ghost next = nv.take(i + 1);
        let name = &names[i];
        proof {
            assert(next.drop_last() =~= pre);
            assert(next.last() == name@);
            assert(next =~= pre.push(name@));
            lemma_name_count(pre, name@);
            assert forall|x: Seq<char>| #[trigger] next.contains(x) <==> pre.contains(x) || x == name@ by {
                if next.contains(x) && x != name@ {
                    let k = choose|k: int| 0 <= k < next.len() && next[k] == x;
                    assert(pre[k] == x);
                }
                if pre.contains(x) {
                    let k = choose|k: int| 0 <= k < pre.len() && pre[k] == x;
                    assert(next[k] == x);
                }
                if x == name@ {
                    assert(next[i as int] == x);
                }
            }
        }
        match counts.get(name.as_str()) {
            Some(c) => {
                let c1 = *c + 1;
                counts.insert(name.clone(), c1);
            },
            None => {
                counts.insert(name.clone(), 1);
                let ghost before = ids_view(uniq@);
                uniq.push(name.clone());
                proof {
                    assert(ids_view(uniq@) =~= before.push(name@));
                    assert forall|a: int, b: int| 0 <= a < b < ids_view(uniq@).len() implies ids_view(uniq@)[a]
                        != ids_view(uniq@)[b] by {
                        if b == before.len() {
                            assert(before.contains(before[a]));
                        }
                    }
                    assert forall|x: Seq<char>| #[trigger] ids_view(uniq@).contains(x) <==> before.contains(x) || x == name@ by {
                        if ids_view(uniq@).contains(x) && x != name@ {
                            let k = choose|k: int| 0 <= k < ids_view(uniq@).len() && ids_view(uniq@)[k] == x;
                            assert(before[k] == x);
                        }
                        if before.contains(x) {
                            let k = choose|k: int| 0 <= k < before.len() && before[k] == x;
                            assert(ids_view(uniq@)[k] == x);
                        }
                        if x == name@ {
                            assert(ids_view(uniq@)[before.len() as int] == x);
                        }
                    }
                }
            },
        }
        i = i + 1;
    }
    assert(nv.take(names@.len() as int) =~= nv);
    let mut keys: Vec<(usize, String)> = Vec::new();
    let mut j: usize = 0;
    while j < uniq.len()
        invariant
            j <= uniq@.len(),
            keys@.map_values(|k: (usize, String)| (k.0, k.1@)) == ids_view(uniq@).take(j as int).map_values(
                |x: Seq<char>| (0usize, x),
            ),
        decreases uniq.len() - j,
    {
        let ghost before = keys@.map_values(|k: (usize, String)| (k.0, k.1@));
        let entry: (usize, String) = (0, uniq[j].clone());
        keys.push(entry);
        assert(keys@.map_values(|k: (usize, String)| (k.0, k.1@)) =~= before.push((0usize, uniq@[j as int]@)));
        assert(ids_view(uniq@).take(j + 1).map_values(|x: Seq<char>| (0usize, x)) =~= ids_view(uniq@).take(
            j as int,
        ).map_values(|x: Seq<char>| (0usize, x)).push((0usize, uniq@[j as int]@)));
        assert(keys@.map_values(|k: (usize, String)| (k.0, k.1@)) =~= ids_view(uniq@).take(j + 1).map_values(
            |x: Seq<char>| (0usize, x),
        ));
        j = j + 1;
    }
    let ghost unsorted = keys@.map_values(|k: (usize, String)| (k.0, k.1@));
    assert(ids_view(uniq@).take(uniq@.len() as int) =~= ids_view(uniq@));
    sort_keys2(&mut keys);
    let ghost ks = keys@.map_values(|k: (usize, String)| (k.0, k.1@));
    proof {
        ks.to_multiset_ensures();
        unsorted.to_multiset_ensures();
        ids_view(uniq@).lemma_no_duplicates_injective(|x: Seq<char>| (0usize, x));
        unsorted.lemma_multiset_has_no_duplicates();
        assert forall|x: (usize, Seq<char>)| ks.to_multiset().contains(x) implies ks.to_multiset().count(x) == 1 by {
            assert(unsorted.to_multiset().contains(x));
        }
        ks.lemma_multiset_has_no_duplicates_conv();
        assert forall|x: (usize, Seq<char>)| #[trigger] ks.contains(x) <==> unsorted.contains(x) by {
            if ks.contains(x) {
                assert(ks.to_multiset().count(x) > 0);
            }
            if unsorted.contains(x) {
                assert(unsorted.to_multiset().count(x) > 0);
            }
        }
        assert forall|x: (usize, Seq<char>)| #[trigger] unsorted.contains(x) <==> x.0 == 0 && ids_view(uniq@).contains(x.1) by {
            if unsorted.contains(x) {
                let k = choose|k: int| 0 <= k < unsorted.len() && unsorted[k] == x;
                assert(ids_view(uniq@)[k] == x.1);
            }
            if x.0 == 0 && ids_view(uniq@).contains(x.1) {
                let k = choose|k: int| 0 <= k < ids_view(uniq@).len() && ids_view(uniq@)[k] == x.1;
                assert(unsorted[k] == x);
            }
        }
    }
    let mut out: Vec<(String, usize)> = Vec::new();
    let mut t: usize = 0;
    while t < keys.len()
        invariant
            t <= keys@.len(),
            ks == keys@.map_values(|k: (usize, String)| (k.0, k.1@)),
            forall|x: (usize, Seq<char>)| #[trigger] ks.contains(x) <==> x.0 == 0 && nv.contains(x.1),
            forall|x: Seq<char>| #[trigger] counts@.contains_key(x) <==> nv.contains(x),
            forall|x: Seq<char>| #[trigger] counts@.contains_key(x) ==> counts@[x] == name_count(nv, x),
            count_views(out@) == ks.take(t as int).map_values(|k: (usize, Seq<char>)| (k.1, name_count(nv, k.1) as usize)),
        decreases keys.len() - t,
    {
        assert(ks.contains(ks[t as int]));
        let name = &keys[t].1;
        let c: usize = match counts.get(name.as_str()) {
            Some(c) => *c,
            None => 0,
        };
        let ghost before = count_views(out@);
        proof {
            assert(nv.contains(name@));
            assert(counts@.contains_key(name@));
        }
        let entry: (String, usize) = (name.clone(), c);
        out.push(entry);
        assert(count_views(out@) =~= before.push((name@, c)));
        assert(ks.take(t + 1).map_values(|k: (usize, Seq<char>)| (k.1, name_count(nv, k.1) as usize)) =~= ks.take(
            t as int,
        ).map_values(|k: (usize, Seq<char>)| (k.1, name_count(nv, k.1) as usize)).push((ks[t as int].1, name_count(nv, ks[t as int].1) as usize)));
        assert(count_views(out@) =~= ks.take(t + 1).map_values(|k: (usize, Seq<char>)| (k.1, name_count(nv, k.1) as usize)));
        t = t + 1;
    }
    proof {
        let r = count_views(out@);
        assert(ks.take(ks.len() as int) =~= ks);
        assert forall|i: int| 0 <= i < r.len() implies #[trigger] r[i].1 == name_count(nv, r[i].0) by {
            assert(ks.contains(ks[i]));
            lemma_name_count(nv, ks[i].1);
        }
        assert forall|a: int, b: int| 0 <= a < b < r.len() implies lex_lt(#[trigger] r[a].0, #[trigger] r[b].0) by {
            assert(ks.contains(ks[a]) && ks.contains(ks[b]));
            assert(key2_le(ks[a], ks[b]));
            assert(ks[a] != ks[b]);
            lemma_lex_total(ks[a].1, ks[b].1);
        }
        assert forall|x: Seq<char>| #[trigger] nv.contains(x) <==> exists|i: int| 0 <= i < r.len() && #[trigger] r[i].0 == x by {
            if nv.contains(x) {
                assert(ks.contains((0usize, x)));
                let k = choose|k: int| 0 <= k < ks.len() && ks[k] == (0usize, x);
                assert(r[k].0 == x);
            }
            if exists|i: int| 0 <= i < r.len() && #[trigger] r[i].0 == x {
                let i = choose|i: int| 0 <= i < r.len() && #[trigger] r[i].0 == x;
                assert(ks.contains(ks[i]));
            }
        }
    }
    out
}

/// The label names of a list of nodes.
pub open spec fn label_names(ns: Seq<NodeView>) -> Seq<Seq<char>> {
    ns.map_values(|n: NodeView| label_name(n.label))
}

/// The relation names of a list of edges.
pub open spec fn relation_names(es: Seq<EdgeView>) -> Seq<Seq<char>> {
    es.map_values(|e: EdgeView| relation_name(e.rel_type))
}

/// The number of nodes of each kind, by the kind's name in ascending order.
pub fn node_counts_by_label(store: &GraphStore) -> (r: Vec<(String, usize)>)
    requires
        store.wf(),
    ensures
        counts_by_name(label_names(store.node_list()), count_views(r@)),
{
    let nodes = store.nodes();
    let mut names: Vec<String> = Vec::new();
    let mut i: usize = 0;
    while i < nodes.len()
        invariant
            i <= nodes@.len(),
            nodes@.map_values(|n: GraphNode| n@) == store.node_list(),
            ids_view(names@) == label_names(store.node_list()).take(i as int),
        decreases nodes.len() - i,
    {
        let ghost before = ids_view(names@);
        assert(store.node_list()[i as int] == nodes@[i as int]@);
        let name: String = nodes[i].label.as_str().to_owned();
        names.push(name);
        assert(ids_view(names@) =~= before.push(label_name(nodes@[i as int].label)));
        assert(label_names(store.node_list()).take(i + 1) =~= label_names(store.node_list()).take(i as int).push(
            label_name(nodes@[i as int].label),
        ));
        assert(ids_view(names@) =~= label_names(store.node_list()).take(i + 1));
        i = i + 1;
    }
    assert(label_names(store.node_list()).take(nodes@.len() as int) =~= label_names(store.node_list()));
    count_names(&names)
}

/// The number of edges of each relation, by the relation's name in
/// ascending order.
pub fn edge_counts_by_type(store: &GraphStore) -> (r: Vec<(String, usize)>)
    requires
        store.wf(),
    ensures
        counts_by_name(relation_names(store.edge_list()), count_views(r@)),
{
    let edges = store.edges();
    let mut names: Vec<String> = Vec::new();
    let mut i: usize = 0;
    while i < edges.len()
        invariant
            i <= edges@.len(),
            edges@.map_values(|e: GraphEdge| e@) == store.edge_list(),
            ids_view(names@) == relation_names(store.edge_list()).take(i as int),
        decreases edges.len() - i,
    {
        let ghost before = ids_view(names@);
        assert(store.edge_list()[i as int] == edges@[i as int]@);
        let name: String = edges[i].rel_type.as_str().to_owned();
        names.push(name);
        assert(ids_view(names@) =~= before.push(relation_name(edges@[i as int].rel_type)));
        assert(relation_names(store.edge_list()).take(i + 1) =~= relation_names(store.edge_list()).take(i as int).push(
            relation_name(edges@[i as int].rel_type),
        ));
        assert(ids_view(names@) =~= relation_names(store.edge_list()).take(i + 1));
        i = i + 1;
    }
    assert(relation_names(store.edge_list()).take(edges@.len() as int) =~= relation_names(store.edge_list()));
    count_names(&names)
}

} // verus!
