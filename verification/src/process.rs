//! Execution-flow tracing: paths along call edges from entry points, cut at
//! a depth and a branching limit, then deduplicated; and the names given to
//! the processes found.

use vstd::prelude::*;
use crate::bench::{decimal, decimal_digits};
use crate::text::{chars_of, concat, push_char, str_eq, string_of};
use crate::graph::{EdgeView, GraphEdge, GraphNode, GraphStore, NodeProps, NodeView, GraphView, PropsView, ids_view, no_props};
use crate::queries::{name_of, node_name};
use crate::linking::link_edge;
use crate::types::{NodeLabel, RelationType};

verus! {

/// Limits of process detection.
#[derive(Debug, Clone, Copy)]
pub struct ProcessConfig {
    pub max_trace_depth: usize,
    pub max_branching: usize,
    pub max_processes: usize,
    pub min_steps: usize,
}

impl Default for ProcessConfig {
    fn default() -> (r: Self)
        ensures
            r.max_trace_depth == 10,
            r.max_branching == 4,
            r.max_processes == 75,
            r.min_steps == 3,
    {
        ProcessConfig { max_trace_depth: 10, max_branching: 4, max_processes: 75, min_steps: 3 }
    }
}

/// A call path, as node ids.
pub open spec fn path_view(p: Seq<String>) -> Seq<Seq<char>> {
    p.map_values(|s: String| s@)
}

/// Call paths, as node ids.
pub open spec fn paths_view(ps: Seq<Vec<String>>) -> Seq<Seq<Seq<char>>> {
    ps.map_values(|p: Vec<String>| path_view(p@))
}

/// The callees listed for `id` by the first entry for it in `forward`.
pub open spec fn callees_of(forward: Seq<(Seq<char>, Seq<Seq<char>>)>, id: Seq<char>) -> Option<Seq<Seq<char>>>
    decreases forward.len(),
{
    if forward.len() == 0 {
        None
    } else if forward[0].0 == id {
        Some(forward[0].1)
    } else {
        callees_of(forward.drop_first(), id)
    }
}

/// The callees in `cs` that are not on `path`, at most `max` of them, in order.
pub open spec fn next_callees(cs: Seq<Seq<char>>, path: Seq<Seq<char>>, max: nat) -> Seq<Seq<char>>
    decreases cs.len(),
{
    if cs.len() == 0 || max == 0 {
        Seq::empty()
    } else if path.contains(cs[0]) {
        next_callees(cs.drop_first(), path, max)
    } else {
        seq![cs[0]] + next_callees(cs.drop_first(), path, (max - 1) as nat)
    }
}

/// The weight of a queued path: how much room it has left below the depth
/// limit (at least one).
pub open spec fn room(p: Seq<Seq<char>>, depth: nat) -> nat {
    if p.len() <= depth + 1 {
        (depth + 2 - p.len()) as nat
    } else {
        1
    }
}

/// The total room of the queued paths.
pub open spec fn total_room(q: Seq<Seq<Seq<char>>>, depth: nat) -> nat
    decreases q.len(),
{
    if q.len() == 0 {
        0
    } else {
        room(q[0], depth) + total_room(q.drop_first(), depth)
    }
}

pub proof fn lemma_total_room_append(a: Seq<Seq<Seq<char>>>, b: Seq<Seq<Seq<char>>>, depth: nat)
    ensures
        total_room(a + b, depth) == total_room(a, depth) + total_room(b, depth),
    decreases a.len(),
{
    if a.len() == 0 {
        assert(a + b =~= b);
    } else {
        assert((a + b).drop_first() =~= a.drop_first() + b);
        lemma_total_room_append(a.drop_first(), b, depth);
    }
}

/// The paths that extend `path` by each of `next`.
pub open spec fn extended(path: Seq<Seq<char>>, next: Seq<Seq<char>>) -> Seq<Seq<Seq<char>>> {
    next.map_values(|c: Seq<char>| path.push(c))
}

pub proof fn lemma_total_room_extended(path: Seq<Seq<char>>, next: Seq<Seq<char>>, depth: nat)
    requires
        path.len() <= depth,
    ensures
        total_room(extended(path, next), depth) == next.len() * ((depth + 1 - path.len()) as nat),
    decreases next.len(),
{
    if next.len() == 0 {
        assert(extended(path, next).len() == 0);
        assert(next.len() * ((depth + 1 - path.len()) as nat) == 0);
    } else {
        assert(extended(path, next).drop_first() =~= extended(path, next.drop_first()));
        assert(extended(path, next)[0] == path.push(next[0]));
        assert(room(path.push(next[0]), depth) == (depth + 1 - path.len()) as nat);
        lemma_total_room_extended(path, next.drop_first(), depth);
        assert(next.len() * ((depth + 1 - path.len()) as nat) == ((depth + 1 - path.len()) as nat) + (next.len() - 1) * ((
        depth + 1 - path.len()) as nat)) by (nonlinear_arith);
    }
}

pub proof fn lemma_next_callees_len(cs: Seq<Seq<char>>, path: Seq<Seq<char>>, max: nat)
    ensures
        next_callees(cs, path, max).len() <= max,
    decreases cs.len(),
{
    if cs.len() > 0 && max > 0 {
        if path.contains(cs[0]) {
            lemma_next_callees_len(cs.drop_first(), path, max);
        } else {
            lemma_next_callees_len(cs.drop_first(), path, (max - 1) as nat);
        }
    }
}

/// One tracing step on a non-empty queue: the first queued path becomes a
/// trace when it is longer than `depth`, or its last node calls nothing, or
/// nothing new; otherwise it is replaced by its extensions by up to
/// `branching` callees not yet on it.
pub open spec fn trace_step(
    forward: Seq<(Seq<char>, Seq<Seq<char>>)>,
    depth: nat,
    branching: nat,
    queue: Seq<Seq<Seq<char>>>,
    traces: Seq<Seq<Seq<char>>>,
) -> (Seq<Seq<Seq<char>>>, Seq<Seq<Seq<char>>>) {
    let path = queue[0];
    let rest = queue.drop_first();
    if path.len() > depth {
        (rest, traces.push(path))
    } else {
        match callees_of(forward, path.last()) {
            None => (rest, traces.push(path)),
            Some(cs) => {
                let next = next_callees(cs, path, branching);
                if next.len() == 0 {
                    (rest, traces.push(path))
                } else {
                    (rest + extended(path, next), traces)
                }
            },
        }
    }
}

/// A tracing step either grows the number of traces and queued paths, or
/// keeps it and lessens the room of the queue.
pub proof fn lemma_trace_step_measure(
    forward: Seq<(Seq<char>, Seq<Seq<char>>)>,
    depth: nat,
    branching: nat,
    queue: Seq<Seq<Seq<char>>>,
    traces: Seq<Seq<Seq<char>>>,
)
    requires
        queue.len() > 0,
    ensures
        ({
            let (q2, t2) = trace_step(forward, depth, branching, queue, traces);
            ||| t2.len() + q2.len() > traces.len() + queue.len()
            ||| (t2.len() + q2.len() == traces.len() + queue.len() && total_room(q2, depth) < total_room(queue, depth))
        }),
{
    let path = queue[0];
    let rest = queue.drop_first();
    assert(queue =~= seq![path] + rest);
    lemma_total_room_append(seq![path], rest, depth);
    assert(seq![path].drop_first() =~= Seq::<Seq<Seq<char>>>::empty());
    if path.len() <= depth {
        if let Some(cs) = callees_of(forward, path.last()) {
            let nx = next_callees(cs, path, branching);
            if nx.len() > 0 {
                lemma_total_room_append(rest, extended(path, nx), depth);
                lemma_total_room_extended(path, nx, depth);
                if nx.len() == 1 {
                    assert(nx.len() * ((depth + 1 - path.len()) as nat) == (depth + 1 - path.len()) as nat);
                }
            }
        }
    }
}

/// The traces found from the queued paths on, step by step; tracing stops
/// when the queue is empty or once traces and queued paths number more
/// than 500.
pub open spec fn trace_steps(
    forward: Seq<(Seq<char>, Seq<Seq<char>>)>,
    depth: nat,
    branching: nat,
    queue: Seq<Seq<Seq<char>>>,
    traces: Seq<Seq<Seq<char>>>,
) -> Seq<Seq<Seq<char>>>
    decreases 501 - (traces.len() + queue.len()), total_room(queue, depth),
{
    if queue.len() == 0 || traces.len() + queue.len() > 500 {
        traces
    } else {
        let (q2, t2) = trace_step(forward, depth, branching, queue, traces);
        if t2.len() + q2.len() > 500 {
            t2
        } else {
            proof {
                lemma_trace_step_measure(forward, depth, branching, queue, traces);
            }
            trace_steps(forward, depth, branching, q2, t2)
        }
    }
}

/// The traces from one entry point.
pub open spec fn spec_trace_from_entry(
    entry: Seq<char>,
    forward: Seq<(Seq<char>, Seq<Seq<char>>)>,
    depth: nat,
    branching: nat,
) -> Seq<Seq<Seq<char>>> {
    trace_steps(forward, depth, branching, seq![seq![entry]], Seq::empty())
}

/// The views of an adjacency list.
pub open spec fn adjacency_view(f: Seq<(String, Vec<String>)>) -> Seq<(Seq<char>, Seq<Seq<char>>)> {
    f.map_values(|e: (String, Vec<String>)| (e.0@, path_view(e.1@)))
}

fn clone_path(p: &Vec<String>) -> (r: Vec<String>)
    ensures
        path_view(r@) == path_view(p@),
{
    let mut r: Vec<String> = Vec::new();
    let mut i: usize = 0;
    while i < p.len()
        invariant
            i <= p@.len(),
            r@.len() == i,
            forall|k: int| 0 <= k < i ==> #[trigger] r@[k]@ == p@[k]@,
        decreases p.len() - i,
    {
        r.push(p[i].clone());
        i = i + 1;
    }
    assert(path_view(r@) =~= path_view(p@));
    r
}

fn path_contains(p: &Vec<String>, id: &str) -> (r: bool)
    ensures
        r == path_view(p@).contains(id@),
{
    let mut i: usize = 0;
    while i < p.len()
        invariant
            i <= p@.len(),
            forall|k: int| 0 <= k < i ==> p@[k]@ != id@,
        decreases p.len() - i,
    {
        if str_eq(p[i].as_str(), id) {
            assert(path_view(p@)[i as int] == id@);
            return true;
        }
        i = i + 1;
    }
    proof {
        if path_view(p@).contains(id@) {
            let k = choose|k: int| 0 <= k < path_view(p@).len() && path_view(p@)[k] == id@;
            assert(p@[k]@ == id@);
        }
    }
    false
}

fn find_callees(forward: &[(String, Vec<String>)], id: &str) -> (r: Option<usize>)
    ensures
        match r {
            Some(i) => i < forward@.len() && callees_of(adjacency_view(forward@), id@) == Some(path_view(forward@[i as int].1@)),
            None => callees_of(adjacency_view(forward@), id@) is None,
        },
{
    let ghost fv = adjacency_view(forward@);
    let mut i: usize = 0;
    assert(fv.subrange(0, fv.len() as int) =~= fv);
    while i < forward.len()
        invariant
            fv == adjacency_view(forward@),
            i <= forward@.len(),
            callees_of(fv, id@) == callees_of(fv.subrange(i as int, fv.len() as int), id@),
        decreases forward.len() - i,
    {
        let ghost rest = fv.subrange(i as int, fv.len() as int);
        assert(rest[0] == fv[i as int]);
        assert(rest.drop_first() =~= fv.subrange(i + 1, fv.len() as int));
        if str_eq(forward[i].0.as_str(), id) {
            return Some(i);
        }
        i = i + 1;
    }
    None
}

/// Trace execution paths from an entry point, breadth first, with a
/// branching limit and no node twice on a path.
pub fn trace_from_entry(entry: &str, forward: &[(String, Vec<String>)], config: &ProcessConfig) -> (r: Vec<Vec<String>>)
    ensures
        paths_view(r@) == spec_trace_from_entry(
            entry@,
            adjacency_view(forward@),
            config.max_trace_depth as nat,
            config.max_branching as nat,
        ),
{
    let ghost fv = adjacency_view(forward@);
    let ghost depth = config.max_trace_depth as nat;
    let ghost branching = config.max_branching as nat;
    let mut traces: Vec<Vec<String>> = Vec::new();
    let mut queue: Vec<Vec<String>> = Vec::new();
    let mut first: Vec<String> = Vec::new();
    first.push(entry.to_owned());
    queue.push(first);
    let mut head: usize = 0;
    assert(path_view(queue@[0]@) =~= seq![entry@]);
    assert(paths_view(queue@).subrange(0, 1) =~= seq![seq![entry@]]);
    assert(paths_view(traces@) =~= Seq::<Seq<Seq<char>>>::empty());
    while head < queue.len()
        invariant
            fv == adjacency_view(forward@),
            depth == config.max_trace_depth as nat,
            branching == config.max_branching as nat,
            head <= queue@.len(),
            traces@.len() + (queue@.len() - head) <= 500,
            forall|i: int| head <= i < queue@.len() ==> (#[trigger] queue@[i])@.len() >= 1,
            spec_trace_from_entry(entry@, fv, depth, branching) == trace_steps(
                fv,
                depth,
                branching,
                paths_view(queue@).subrange(head as int, queue@.len() as int),
                paths_view(traces@),
            ),
        decreases 501 - (traces@.len() + (queue@.len() - head)), total_room(
            paths_view(queue@).subrange(head as int, queue@.len() as int),
            depth,
        ),
    {
        let ghost qv = paths_view(queue@).subrange(head as int, queue@.len() as int);
        let ghost tv = paths_view(traces@);
        let path = clone_path(&queue[head]);
        assert(qv[0] == path_view(path@));
        head = head + 1;
        assert(qv.drop_first() =~= paths_view(queue@).subrange(head as int, queue@.len() as int));
        if path.len() > config.max_trace_depth {
            traces.push(path);
            assert(paths_view(traces@) =~= tv.push(qv[0]));
        } else {
            let current = path[path.len() - 1].as_str();
            assert(path_view(path@).last() == current@);
            match find_callees(forward, current) {
                None => {
                    traces.push(clone_path(&path));
                    assert(paths_view(traces@) =~= tv.push(qv[0]));
                },
                Some(ci) => {
                    let callees = &forward[ci].1;
                    let ghost cs = path_view(callees@);
                    // Filter out already-visited nodes (prevent cycles)
                    let mut next: Vec<String> = Vec::new();
                    let mut k: usize = 0;
                    let ghost pv = path_view(path@);
                    assert(cs.subrange(0, cs.len() as int) =~= cs);
                    assert(path_view(next@) =~= Seq::<Seq<char>>::empty());
                    while k < callees.len() && next.len() < config.max_branching
                        invariant
                            cs == path_view(callees@),
                            pv == path_view(path@),
                            k <= callees@.len(),
                            next@.len() <= config.max_branching,
                            next_callees(cs, pv, branching) == path_view(next@) + next_callees(
                                cs.subrange(k as int, cs.len() as int),
                                pv,
                                (branching - next@.len()) as nat,
                            ),
                            branching == config.max_branching as nat,
                        decreases callees.len() - k,
                    {
                        let ghost sub = cs.subrange(k as int, cs.len() as int);
                        assert(sub[0] == callees@[k as int]@);
                        assert(sub.drop_first() =~= cs.subrange(k + 1, cs.len() as int));
                        if !path_contains(&path, callees[k].as_str()) {
                            let ghost before = path_view(next@);
                            next.push(callees[k].clone());
                            assert(path_view(next@) =~= before + seq![callees@[k as int]@]);
                        }
                        k = k + 1;
                    }
                    proof {
                        let rest_cs = cs.subrange(k as int, cs.len() as int);
                        if k == callees.len() {
                            assert(rest_cs.len() == 0);
                        }
                        assert(next_callees(rest_cs, pv, (branching - next@.len()) as nat) =~= Seq::<Seq<char>>::empty());
                        assert(path_view(next@) + Seq::<Seq<char>>::empty() =~= path_view(next@));
                    }
                    if next.len() == 0 {
                        traces.push(clone_path(&path));
                        assert(paths_view(traces@) =~= tv.push(qv[0]));
                    } else {
                        let ghost qbefore = paths_view(queue@).subrange(head as int, queue@.len() as int);
                        let mut m: usize = 0;
                        while m < next.len()
                            invariant
                                m <= next@.len(),
                                head <= queue@.len(),
                                paths_view(queue@).subrange(head as int, queue@.len() as int) == qbefore + extended(
                                    pv,
                                    path_view(next@),
                                ).subrange(0, m as int),
                                pv == path_view(path@),
                                forall|i: int| head <= i < queue@.len() ==> (#[trigger] queue@[i])@.len() >= 1,
                            decreases next.len() - m,
                        {
                            let ghost before = paths_view(queue@).subrange(head as int, queue@.len() as int);
                            let mut new_path = clone_path(&path);
                            new_path.push(next[m].clone());
                            assert(path_view(new_path@) =~= pv.push(next@[m as int]@));
                            queue.push(new_path);
                            assert(paths_view(queue@).subrange(head as int, queue@.len() as int) =~= before.push(
                                pv.push(next@[m as int]@),
                            ));
                            assert(extended(pv, path_view(next@)).subrange(0, m + 1) =~= extended(pv, path_view(next@)).subrange(
                                0,
                                m as int,
                            ).push(pv.push(next@[m as int]@)));
                            m = m + 1;
                        }
                        assert(extended(pv, path_view(next@)).subrange(0, next@.len() as int) =~= extended(
                            pv,
                            path_view(next@),
                        ));
                    }
                },
            }
        }
        // Safety: limit total traces
        if traces.len() > 500 || queue.len() - head > 500 - traces.len() {
            return traces;
        }
        proof {
            lemma_trace_step_measure(fv, depth, branching, qv, tv);
        }
    }
    traces
}


/// The traces of length `len`, in order.
pub open spec fn with_len(ts: Seq<Seq<Seq<char>>>, len: nat) -> Seq<Seq<Seq<char>>>
    decreases ts.len(),
{
    if ts.len() == 0 {
        Seq::empty()
    } else {
        let r = with_len(ts.drop_last(), len);
        if ts.last().len() == len {
            r.push(ts.last())
        } else {
            r
        }
    }
}

/// The traces of length at most `len`, longest first, in order among equal
/// lengths (a stable sort by decreasing length).
pub open spec fn longest_first(ts: Seq<Seq<Seq<char>>>, len: int) -> Seq<Seq<Seq<char>>>
    decreases len + 1,
{
    if len < 0 {
        Seq::empty()
    } else {
        with_len(ts, len as nat) + longest_first(ts, len - 1)
    }
}

/// The length of the longest trace (0 for none).
pub open spec fn max_len(ts: Seq<Seq<Seq<char>>>) -> nat
    decreases ts.len(),
{
    if ts.len() == 0 {
        0
    } else if ts.last().len() > max_len(ts.drop_last()) {
        ts.last().len()
    } else {
        max_len(ts.drop_last())
    }
}

/// Whether every node of `t` is on `e`.
pub open spec fn nodes_within(t: Seq<Seq<char>>, e: Seq<Seq<char>>) -> bool {
    forall|i: int| 0 <= i < t.len() ==> e.contains(#[trigger] t[i])
}

/// The traces kept in turn: each unless its nodes all lie on a trace kept
/// before it.
pub open spec fn keep_unsubsumed(ts: Seq<Seq<Seq<char>>>) -> Seq<Seq<Seq<char>>>
    decreases ts.len(),
{
    if ts.len() == 0 {
        Seq::empty()
    } else {
        let r = keep_unsubsumed(ts.drop_last());
        if exists|j: int| 0 <= j < r.len() && #[trigger] nodes_within(ts.last(), r[j]) {
            r
        } else {
            r.push(ts.last())
        }
    }
}

/// Traces without those whose nodes all lie on a longer (or earlier, of
/// equal length) trace.
pub open spec fn spec_deduplicate_traces(ts: Seq<Seq<Seq<char>>>) -> Seq<Seq<Seq<char>>> {
    keep_unsubsumed(longest_first(ts, max_len(ts) as int))
}

proof fn lemma_max_len(ts: Seq<Seq<Seq<char>>>)
    ensures
        forall|i: int| 0 <= i < ts.len() ==> (#[trigger] ts[i]).len() <= max_len(ts),
    decreases ts.len(),
{
    if ts.len() > 0 {
        lemma_max_len(ts.drop_last());
        assert forall|i: int| 0 <= i < ts.len() implies (#[trigger] ts[i]).len() <= max_len(ts) by {
            if i < ts.len() - 1 {
                assert(ts[i] == ts.drop_last()[i]);
            }
        }
    }
}

fn traces_with_len(ts: &Vec<Vec<String>>, len: usize) -> (r: Vec<Vec<String>>)
    ensures
        paths_view(r@) == with_len(paths_view(ts@), len as nat),
{
    let ghost tv = paths_view(ts@);
    let mut r: Vec<Vec<String>> = Vec::new();
    let mut i: usize = 0;
    while i < ts.len()
        invariant
            tv == paths_view(ts@),
            i <= ts@.len(),
            paths_view(r@) == with_len(tv.subrange(0, i as int), len as nat),
        decreases ts.len() - i,
    {
        assert(tv.subrange(0, i + 1).drop_last() =~= tv.subrange(0, i as int));
        assert(tv.subrange(0, i + 1).last() == path_view(ts@[i as int]@));
        if ts[i].len() == len {
            let ghost before = paths_view(r@);
            r.push(clone_path(&ts[i]));
            assert(paths_view(r@) =~= before.push(tv[i as int]));
        }
        i = i + 1;
    }
    assert(tv.subrange(0, tv.len() as int) =~= tv);
    r
}

fn covered(t: &Vec<String>, e: &Vec<String>) -> (r: bool)
    ensures
        r == nodes_within(path_view(t@), path_view(e@)),
{
    let mut i: usize = 0;
    while i < t.len()
        invariant
            i <= t@.len(),
            forall|k: int| 0 <= k < i ==> path_view(e@).contains(#[trigger] path_view(t@)[k]),
        decreases t.len() - i,
    {
        if !path_contains(e, t[i].as_str()) {
            assert(!path_view(e@).contains(path_view(t@)[i as int]));
            return false;
        }
        i = i + 1;
    }
    true
}

fn longest_len(traces: &Vec<Vec<String>>) -> (r: usize)
    ensures
        r == max_len(paths_view(traces@)),
{
    let ghost tv = paths_view(traces@);
    let mut longest: usize = 0;
    let mut i: usize = 0;
    while i < traces.len()
        invariant
            tv == paths_view(traces@),
            i <= traces@.len(),
            longest == max_len(tv.subrange(0, i as int)),
        decreases traces.len() - i,
    {
        assert(tv.subrange(0, i + 1).drop_last() =~= tv.subrange(0, i as int));
        assert(tv.subrange(0, i + 1).last().len() == traces@[i as int]@.len());
        if traces[i].len() > longest {
            longest = traces[i].len();
        }
        i = i + 1;
    }
    assert(tv.subrange(0, tv.len() as int) =~= tv);
    longest
}

fn append_paths(dst: &mut Vec<Vec<String>>, src: &Vec<Vec<String>>)
    ensures
        paths_view(final(dst)@) == paths_view(old(dst)@) + paths_view(src@),
{
    let ghost before = paths_view(dst@);
    let ghost sv = paths_view(src@);
    let mut k: usize = 0;
    assert(before + sv.subrange(0, 0) =~= before);
    while k < src.len()
        invariant
            before == paths_view(old(dst)@),
            sv == paths_view(src@),
            k <= src@.len(),
            paths_view(dst@) == before + sv.subrange(0, k as int),
        decreases src.len() - k,
    {
        let ghost cur = paths_view(dst@);
        let p = clone_path(&src[k]);
        assert(path_view(p@) == sv[k as int]);
        dst.push(p);
        assert(paths_view(dst@) =~= cur.push(sv[k as int]));
        assert(before + sv.subrange(0, k + 1) =~= (before + sv.subrange(0, k as int)).push(sv[k as int]));
        k = k + 1;
    }
    assert(sv.subrange(0, sv.len() as int) =~= sv);
}

pub(crate) fn sort_longest_first(traces: &Vec<Vec<String>>) -> (r: Vec<Vec<String>>)
    ensures
        paths_view(r@) == longest_first(paths_view(traces@), max_len(paths_view(traces@)) as int),
{
    let ghost tv = paths_view(traces@);
    let longest = longest_len(traces);
    let mut sorted: Vec<Vec<String>> = Vec::new();
    // `left` lengths are left to take: from `left - 1` down to 0.
    assert(paths_view(sorted@) + longest_first(tv, longest as int) =~= longest_first(tv, longest as int));
    let mut left: u128 = (longest as u128) + 1;
    while left > 0
        invariant
            tv == paths_view(traces@),
            longest == max_len(tv),
            left <= longest + 1,
            paths_view(sorted@) + longest_first(tv, left - 1) == longest_first(tv, longest as int),
        decreases left,
    {
        let len = (left - 1) as usize;
        let part = traces_with_len(traces, len);
        let ghost before = paths_view(sorted@);
        append_paths(&mut sorted, &part);
        assert(longest_first(tv, left - 1) =~= with_len(tv, len as nat) + longest_first(tv, left - 2));
        assert(before + longest_first(tv, left - 1) =~= (before + with_len(tv, len as nat)) + longest_first(tv, left - 2));
        left = left - 1;
    }
    assert(longest_first(tv, -1) =~= Seq::<Seq<Seq<char>>>::empty());
    assert(paths_view(sorted@) + Seq::<Seq<Seq<char>>>::empty() =~= paths_view(sorted@));
    sorted
}

fn keep_unsubsumed_exec(sorted: &Vec<Vec<String>>) -> (r: Vec<Vec<String>>)
    ensures
        paths_view(r@) == keep_unsubsumed(paths_view(sorted@)),
{
    let ghost sv = paths_view(sorted@);
    let mut result: Vec<Vec<String>> = Vec::new();
    let mut j: usize = 0;
    assert(paths_view(result@) =~= Seq::<Seq<Seq<char>>>::empty());
    while j < sorted.len()
        invariant
            sv == paths_view(sorted@),
            j <= sorted@.len(),
            paths_view(result@) == keep_unsubsumed(sv.subrange(0, j as int)),
        decreases sorted.len() - j,
    {
        assert(sv.subrange(0, j + 1).drop_last() =~= sv.subrange(0, j as int));
        assert(sv.subrange(0, j + 1).last() == path_view(sorted@[j as int]@));
        let ghost rv = paths_view(result@);
        let ghost t = path_view(sorted@[j as int]@);
        let mut subsumed = false;
        let mut m: usize = 0;
        while m < result.len()
            invariant
                rv == paths_view(result@),
                t == path_view(sorted@[j as int]@),
                j < sorted@.len(),
                m <= result@.len(),
                subsumed == exists|q: int| 0 <= q < m && #[trigger] nodes_within(t, rv[q]),
            decreases result.len() - m,
        {
            let c = covered(&sorted[j], &result[m]);
            assert(rv[m as int] == path_view(result@[m as int]@));
            if c {
                subsumed = true;
            }
            proof {
                if subsumed && !(exists|q: int| 0 <= q < m && #[trigger] nodes_within(t, rv[q])) {
                    assert(nodes_within(t, rv[m as int]));
                }
                if exists|q: int| 0 <= q < m + 1 && #[trigger] nodes_within(t, rv[q]) {
                    let q = choose|q: int| 0 <= q < m + 1 && #[trigger] nodes_within(t, rv[q]);
                    if q < m {
                        assert(exists|q2: int| 0 <= q2 < m && #[trigger] nodes_within(t, rv[q2]));
                    }
                }
            }
            m = m + 1;
        }
        if !subsumed {
            let p = clone_path(&sorted[j]);
            result.push(p);
            assert(paths_view(result@) =~= rv.push(t));
        }
        j = j + 1;
    }
    assert(sv.subrange(0, sv.len() as int) =~= sv);
    result
}

/// Remove traces whose nodes all lie on a longer trace.
pub fn deduplicate_traces(traces: Vec<Vec<String>>) -> (r: Vec<Vec<String>>)
    ensures
        paths_view(r@) == spec_deduplicate_traces(paths_view(traces@)),
{
    let sorted = sort_longest_first(&traces);
    keep_unsubsumed_exec(&sorted)
}

/// The entry and terminal node of a non-empty trace.
pub open spec fn endpoints_of(t: Seq<Seq<char>>) -> (Seq<char>, Seq<char>) {
    (t[0], t.last())
}

/// The best trace per (entry, terminal) pair, pairs in the order they first
/// occur: the first of the longest traces with that pair. Empty traces are
/// skipped.
pub open spec fn best_by_endpoints(ts: Seq<Seq<Seq<char>>>) -> Seq<Seq<Seq<char>>>
    decreases ts.len(),
{
    if ts.len() == 0 {
        Seq::empty()
    } else {
        let r = best_by_endpoints(ts.drop_last());
        let t = ts.last();
        if t.len() == 0 {
            r
        } else {
            match index_with_endpoints(r, endpoints_of(t)) {
                Some(i) => if t.len() > r[i].len() {
                    r.update(i, t)
                } else {
                    r
                },
                None => r.push(t),
            }
        }
    }
}

/// The position of the first trace in `r` with the given endpoints.
pub open spec fn index_with_endpoints(r: Seq<Seq<Seq<char>>>, k: (Seq<char>, Seq<char>)) -> Option<int>
    decreases r.len(),
{
    if r.len() == 0 {
        None
    } else if r[0].len() > 0 && endpoints_of(r[0]) == k {
        Some(0)
    } else {
        match index_with_endpoints(r.drop_first(), k) {
            Some(i) => Some(i + 1),
            None => None,
        }
    }
}

proof fn lemma_index_with_endpoints(r: Seq<Seq<Seq<char>>>, k: (Seq<char>, Seq<char>))
    ensures
        index_with_endpoints(r, k) matches Some(i) ==> 0 <= i < r.len() && r[i].len() > 0 && endpoints_of(r[i]) == k,
    decreases r.len(),
{
    if r.len() > 0 && !(r[0].len() > 0 && endpoints_of(r[0]) == k) {
        lemma_index_with_endpoints(r.drop_first(), k);
    }
}

fn find_endpoints(r: &Vec<Vec<String>>, first: &str, last: &str) -> (res: Option<usize>)
    ensures
        match res {
            Some(i) => index_with_endpoints(paths_view(r@), (first@, last@)) == Some(i as int) && i < r@.len(),
            None => index_with_endpoints(paths_view(r@), (first@, last@)) is None,
        },
{
    let ghost rv = paths_view(r@);
    let mut i: usize = 0;
    assert(rv.subrange(0, rv.len() as int) =~= rv);
    while i < r.len()
        invariant
            rv == paths_view(r@),
            i <= r@.len(),
            index_with_endpoints(rv, (first@, last@)) == match index_with_endpoints(rv.subrange(i as int, rv.len() as int), (first@, last@)) {
                Some(j) => Some(j + i),
                None => None,
            },
        decreases r.len() - i,
    {
        let ghost sub = rv.subrange(i as int, rv.len() as int);
        assert(sub[0] == path_view(r@[i as int]@));
        assert(sub.drop_first() =~= rv.subrange(i + 1, rv.len() as int));
        let t = &r[i];
        if t.len() > 0 && str_eq(t[0].as_str(), first) && str_eq(t[t.len() - 1].as_str(), last) {
            assert(path_view(t@)[0] == first@);
            assert(path_view(t@).last() == last@);
            return Some(i);
        }
        proof {
            if path_view(t@).len() > 0 && endpoints_of(path_view(t@)) == (first@, last@) {
                assert(t@[0]@ == first@);
                assert(t@[t@.len() - 1]@ == path_view(t@).last());
            }
        }
        i = i + 1;
    }
    None
}

/// Keep the longest trace per (entry, terminal) pair.
pub fn deduplicate_by_endpoints(traces: Vec<Vec<String>>) -> (r: Vec<Vec<String>>)
    ensures
        paths_view(r@) == best_by_endpoints(paths_view(traces@)),
{
    let ghost tv = paths_view(traces@);
    let mut best: Vec<Vec<String>> = Vec::new();
    let mut i: usize = 0;
    assert(paths_view(best@) =~= Seq::<Seq<Seq<char>>>::empty());
    while i < traces.len()
        invariant
            tv == paths_view(traces@),
            i <= traces@.len(),
            paths_view(best@) == best_by_endpoints(tv.subrange(0, i as int)),
        decreases traces.len() - i,
    {
        assert(tv.subrange(0, i + 1).drop_last() =~= tv.subrange(0, i as int));
        assert(tv.subrange(0, i + 1).last() == path_view(traces@[i as int]@));
        let trace = &traces[i];
        if trace.len() > 0 {
            let ghost bv = paths_view(best@);
            let ghost tpv = path_view(trace@);
            assert(tpv[0] == trace@[0]@);
            assert(tpv.last() == trace@[trace@.len() - 1]@);
            match find_endpoints(&best, trace[0].as_str(), trace[trace.len() - 1].as_str()) {
                Some(j) => {
                    proof {
                        lemma_index_with_endpoints(bv, endpoints_of(tpv));
                    }
                    if trace.len() > best[j].len() {
                        best.set(j, clone_path(trace));
                        assert(paths_view(best@) =~= bv.update(j as int, tpv));
                    }
                },
                None => {
                    best.push(clone_path(trace));
                    assert(paths_view(best@) =~= bv.push(tpv));
                },
            }
        }
        i = i + 1;
    }
    assert(tv.subrange(0, tv.len() as int) =~= tv);
    best
}

/// What `char::to_uppercase` gives for a character (Unicode uppercase mapping).
pub uninterp spec fn spec_char_to_uppercase(c: char) -> Seq<char>;

/// Whether `char::is_alphanumeric` holds of a character.
pub uninterp spec fn spec_is_alphanumeric(c: char) -> bool;

/// `char::to_uppercase`, collected.
#[verifier::external_body]
fn char_to_uppercase(c: char) -> (r: String)
    ensures
        r@ == spec_char_to_uppercase(c),
{
    c.to_uppercase().collect()
}

/// `char::is_alphanumeric`.
#[verifier::external_body]
fn is_alphanumeric(c: char) -> (r: bool)
    ensures
        r == spec_is_alphanumeric(c),
{
    c.is_alphanumeric()
}

/// A text with its first character in upper case.
pub open spec fn spec_capitalize(s: Seq<char>) -> Seq<char> {
    if s.len() == 0 {
        s
    } else {
        spec_char_to_uppercase(s[0]) + s.drop_first()
    }
}

/// A text with its first character in upper case.
pub fn capitalize(s: &str) -> (r: String)
    ensures
        r@ == spec_capitalize(s@),
{
    let cs = chars_of(s);
    if cs.len() == 0 {
        return String::new();
    }
    let head = chars_of(char_to_uppercase(cs[0]).as_str());
    let tail = crate::text::sub_vec(&cs, 1, cs.len());
    string_of(&concat(&head, &tail))
}

/// A text with every character other than a letter, digit or `_` turned into `_`.
pub open spec fn spec_sanitize(s: Seq<char>) -> Seq<char> {
    s.map_values(|c: char| if spec_is_alphanumeric(c) || c == '_' { c } else { '_' })
}

/// A text with every character other than a letter, digit or `_` turned into `_`.
pub fn sanitize(s: &str) -> (r: String)
    ensures
        r@ == spec_sanitize(s@),
{
    let cs = chars_of(s);
    let mut out = String::new();
    let mut i: usize = 0;
    while i < cs.len()
        invariant
            i <= cs@.len(),
            out@ == spec_sanitize(cs@.subrange(0, i as int)),
        decreases cs.len() - i,
    {
        let c = cs[i];
        let kept = if is_alphanumeric(c) || c == '_' { c } else { '_' };
        push_char(&mut out, kept);
        assert(spec_sanitize(cs@.subrange(0, i + 1)) =~= spec_sanitize(cs@.subrange(0, i as int)).push(kept));
        i = i + 1;
    }
    assert(cs@.subrange(0, cs@.len() as int) =~= cs@);
    out
}

/// The id of the process at position `idx`: `proc_`, the position, `_` and
/// the sanitized entry name.
pub open spec fn spec_process_id(idx: u64, entry_name: Seq<char>) -> Seq<char> {
    "proc_"@ + decimal(idx as nat) + "_"@ + spec_sanitize(entry_name)
}

/// The id of the process at position `idx`.
pub fn process_id(idx: u64, entry_name: &str) -> (r: String)
    ensures
        r@ == spec_process_id(idx, entry_name@),
{
    let a = concat(&chars_of("proc_"), &decimal_digits(idx));
    let b = concat(&a, &chars_of("_"));
    let c = concat(&b, &chars_of(sanitize(entry_name).as_str()));
    string_of(&c)
}

/// The label of a process: its entry and terminal names, capitalized,
/// joined by ` -> `.
pub open spec fn spec_process_label(entry_name: Seq<char>, terminal_name: Seq<char>) -> Seq<char> {
    spec_capitalize(entry_name) + " -> "@ + spec_capitalize(terminal_name)
}

/// The label of a process.
pub fn process_label(entry_name: &str, terminal_name: &str) -> (r: String)
    ensures
        r@ == spec_process_label(entry_name@, terminal_name@),
{
    let a = concat(&chars_of(capitalize(entry_name).as_str()), &chars_of(" -> "));
    let b = concat(&a, &chars_of(capitalize(terminal_name).as_str()));
    string_of(&b)
}

/// The reason of the edge for step `step` of a `total`-step process.
pub open spec fn spec_step_reason(step: u64, total: u64) -> Seq<char> {
    "step "@ + decimal(step as nat) + " of "@ + decimal(total as nat)
}

/// The reason of the edge for step `step` of a `total`-step process.
pub fn step_reason(step: u64, total: u64) -> (r: String)
    ensures
        r@ == spec_step_reason(step, total),
{
    let a = concat(&chars_of("step "), &decimal_digits(step));
    let b = concat(&a, &chars_of(" of "));
    let c = concat(&b, &decimal_digits(total));
    string_of(&c)
}


/// A traced path: it starts at `entry`, is at most `depth + 1` nodes long,
/// holds no node twice, and each node after the first is a callee of the
/// node before it.
pub open spec fn path_ok(p: Seq<Seq<char>>, entry: Seq<char>, forward: Seq<(Seq<char>, Seq<Seq<char>>)>, depth: nat) -> bool {
    &&& p.len() >= 1
    &&& p[0] == entry
    &&& p.len() <= depth + 1
    &&& forall|i: int, j: int| 0 <= i < j < p.len() ==> #[trigger] p[i] != #[trigger] p[j]
    &&& forall|i: int| 0 <= i < p.len() - 1 ==> (match callees_of(forward, #[trigger] p[i]) {
        Some(cs) => cs.contains(p[i + 1]),
        None => false,
    })
}

proof fn lemma_next_callees_members(cs: Seq<Seq<char>>, path: Seq<Seq<char>>, max: nat)
    ensures
        forall|k: int| 0 <= k < next_callees(cs, path, max).len() ==> cs.contains(#[trigger] next_callees(cs, path, max)[k])
            && !path.contains(next_callees(cs, path, max)[k]),
    decreases cs.len(),
{
    if cs.len() > 0 && max > 0 {
        let m2: nat = if path.contains(cs[0]) { max } else { (max - 1) as nat };
        lemma_next_callees_members(cs.drop_first(), path, m2);
        let r = next_callees(cs.drop_first(), path, m2);
        assert forall|k: int| 0 <= k < next_callees(cs, path, max).len() implies cs.contains(#[trigger] next_callees(cs, path, max)[k])
            && !path.contains(next_callees(cs, path, max)[k]) by {
            if path.contains(cs[0]) {
                assert(next_callees(cs, path, max)[k] == r[k]);
                assert(cs.drop_first().contains(r[k]));
                let m = choose|m: int| 0 <= m < cs.drop_first().len() && cs.drop_first()[m] == r[k];
                assert(cs[m + 1] == r[k]);
            } else if k == 0 {
                assert(next_callees(cs, path, max)[0] == cs[0]);
            } else {
                assert(next_callees(cs, path, max)[k] == r[k - 1]);
                assert(cs.drop_first().contains(r[k - 1]));
                let m = choose|m: int| 0 <= m < cs.drop_first().len() && cs.drop_first()[m] == r[k - 1];
                assert(cs[m + 1] == r[k - 1]);
            }
        }
    }
}

proof fn lemma_trace_steps_paths(
    forward: Seq<(Seq<char>, Seq<Seq<char>>)>,
    depth: nat,
    branching: nat,
    entry: Seq<char>,
    queue: Seq<Seq<Seq<char>>>,
    traces: Seq<Seq<Seq<char>>>,
)
    requires
        forall|i: int| 0 <= i < queue.len() ==> path_ok(#[trigger] queue[i], entry, forward, depth),
        forall|i: int| 0 <= i < traces.len() ==> path_ok(#[trigger] traces[i], entry, forward, depth),
    ensures
        forall|i: int| 0 <= i < trace_steps(forward, depth, branching, queue, traces).len() ==> path_ok(
            #[trigger] trace_steps(forward, depth, branching, queue, traces)[i],
            entry,
            forward,
            depth,
        ),
    decreases 501 - (traces.len() + queue.len()), total_room(queue, depth),
{
    if !(queue.len() == 0 || traces.len() + queue.len() > 500) {
        let (q2, t2) = trace_step(forward, depth, branching, queue, traces);
        let path = queue[0];
        let rest = queue.drop_first();
        assert(path_ok(path, entry, forward, depth));
        assert forall|i: int| 0 <= i < rest.len() implies path_ok(#[trigger] rest[i], entry, forward, depth) by {
            assert(rest[i] == queue[i + 1]);
        }
        assert forall|i: int| 0 <= i < traces.push(path).len() implies path_ok(#[trigger] traces.push(path)[i], entry, forward, depth) by {
            if i < traces.len() {
                assert(traces.push(path)[i] == traces[i]);
            }
        }
        if path.len() <= depth {
            if let Some(cs) = callees_of(forward, path.last()) {
                let nx = next_callees(cs, path, branching);
                if nx.len() > 0 {
                    lemma_next_callees_members(cs, path, branching);
                    let ext = extended(path, nx);
                    assert forall|i: int| 0 <= i < q2.len() implies path_ok(#[trigger] q2[i], entry, forward, depth) by {
                        if i < rest.len() {
                            assert(q2[i] == rest[i]);
                        } else {
                            let k = i - rest.len();
                            let c = nx[k];
                            let child = path.push(c);
                            assert(q2[i] == ext[k]);
                            assert(ext[k] == child);
                            assert(cs.contains(c) && !path.contains(c));
                            assert forall|a: int, b: int| 0 <= a < b < child.len() implies #[trigger] child[a] != #[trigger] child[b] by {
                                if b == path.len() {
                                    assert(child[a] == path[a]);
                                    assert(path.contains(path[a]));
                                } else {
                                    assert(child[a] == path[a] && child[b] == path[b]);
                                }
                            }
                            assert forall|a: int| 0 <= a < child.len() - 1 implies (match callees_of(forward, #[trigger] child[a]) {
                                Some(cs2) => cs2.contains(child[a + 1]),
                                None => false,
                            }) by {
                                if a < path.len() - 1 {
                                    assert(child[a] == path[a] && child[a + 1] == path[a + 1]);
                                } else {
                                    assert(child[a] == path.last());
                                    assert(child[a + 1] == c);
                                }
                            }
                        }
                    }
                }
            }
        }
        assert(t2 == traces || t2 == traces.push(path));
        assert forall|i: int| 0 <= i < t2.len() implies path_ok(#[trigger] t2[i], entry, forward, depth) by {
            if t2 == traces.push(path) {
                assert(path_ok(traces.push(path)[i], entry, forward, depth));
            }
        }
        assert forall|i: int| 0 <= i < q2.len() implies path_ok(#[trigger] q2[i], entry, forward, depth) by {
            if q2 == rest {
                assert(path_ok(rest[i], entry, forward, depth));
            }
        }
        if t2.len() + q2.len() <= 500 {
            lemma_trace_step_measure(forward, depth, branching, queue, traces);
            lemma_trace_steps_paths(forward, depth, branching, entry, q2, t2);
            assert(trace_steps(forward, depth, branching, queue, traces) == trace_steps(forward, depth, branching, q2, t2));
        } else {
            assert(trace_steps(forward, depth, branching, queue, traces) == t2);
        }
    }
}

/// Every traced path starts at the entry point, holds no node twice, is at
/// most one node longer than the depth limit, and follows call edges.
pub proof fn lemma_traces_are_call_paths(
    entry: Seq<char>,
    forward: Seq<(Seq<char>, Seq<Seq<char>>)>,
    depth: nat,
    branching: nat,
)
    ensures
        forall|i: int| 0 <= i < spec_trace_from_entry(entry, forward, depth, branching).len() ==> path_ok(
            #[trigger] spec_trace_from_entry(entry, forward, depth, branching)[i],
            entry,
            forward,
            depth,
        ),
{
    let q = seq![seq![entry]];
    assert(path_ok(seq![entry], entry, forward, depth));
    lemma_trace_steps_paths(forward, depth, branching, entry, q, Seq::empty());
}


/// The longest `max` traces, longest first, in order among equal lengths.
pub fn longest_traces(traces: Vec<Vec<String>>, max: usize) -> (r: Vec<Vec<String>>)
    ensures
        paths_view(r@) == ({
            let s = longest_first(paths_view(traces@), max_len(paths_view(traces@)) as int);
            if s.len() <= max { s } else { s.take(max as int) }
        }),
{
    let sorted = sort_longest_first(&traces);
    let ghost sv = paths_view(sorted@);
    if sorted.len() <= max {
        return sorted;
    }
    let mut r: Vec<Vec<String>> = Vec::new();
    let mut i: usize = 0;
    while i < max
        invariant
            sv == paths_view(sorted@),
            max < sorted@.len(),
            i <= max,
            paths_view(r@) == sv.take(i as int),
        decreases max - i,
    {
        let ghost before = paths_view(r@);
        let p = clone_path(&sorted[i]);
        assert(path_view(p@) == sv[i as int]);
        r.push(p);
        assert(paths_view(r@) =~= before.push(sv[i as int]));
        assert(sv.take(i + 1) =~= sv.take(i as int).push(sv[i as int]));
        i = i + 1;
    }
    r
}


/// The traces of `ts` with at least `min` nodes, in order.
pub open spec fn long_enough(ts: Seq<Seq<Seq<char>>>, min: nat) -> Seq<Seq<Seq<char>>>
    decreases ts.len(),
{
    if ts.len() == 0 {
        Seq::empty()
    } else if ts.last().len() >= min {
        long_enough(ts.drop_last(), min).push(ts.last())
    } else {
        long_enough(ts.drop_last(), min)
    }
}

/// The traces gathered from the entry points `entries` in order, after the
/// traces `acc`: each entry's traces with at least `min` nodes, until `cap`
/// traces are gathered.
pub open spec fn gather_traces(
    acc: Seq<Seq<Seq<char>>>,
    entries: Seq<Seq<char>>,
    forward: Seq<(Seq<char>, Seq<Seq<char>>)>,
    depth: nat,
    branching: nat,
    min: nat,
    cap: nat,
) -> Seq<Seq<Seq<char>>>
    decreases entries.len(),
{
    if entries.len() == 0 || acc.len() >= cap {
        acc
    } else {
        gather_traces(
            acc + long_enough(spec_trace_from_entry(entries[0], forward, depth, branching), min),
            entries.drop_first(),
            forward,
            depth,
            branching,
            min,
            cap,
        )
    }
}

/// The process traces found from the ranked entry points: the traces of
/// each entry point in rank order (of at least `min_steps` nodes, stopping
/// once twice `max_processes` are gathered), without traces whose nodes lie
/// within a longer one, the longest per entry and terminal pair, and at most
/// `max_processes` of them, longest first.
pub open spec fn spec_process_traces(
    entries: Seq<Seq<char>>,
    forward: Seq<(Seq<char>, Seq<Seq<char>>)>,
    config: ProcessConfig,
) -> Seq<Seq<Seq<char>>> {
    let gathered = gather_traces(
        Seq::empty(),
        entries,
        forward,
        config.max_trace_depth as nat,
        config.max_branching as nat,
        config.min_steps as nat,
        (config.max_processes * 2) as nat,
    );
    let deduped = best_by_endpoints(spec_deduplicate_traces(gathered));
    let s = longest_first(deduped, max_len(deduped) as int);
    if s.len() <= config.max_processes {
        s
    } else {
        s.take(config.max_processes as int)
    }
}

/// The process traces found from the ranked entry points `entries`.
pub fn process_traces(entries: &[String], forward: &[(String, Vec<String>)], config: &ProcessConfig) -> (r: Vec<Vec<String>>)
    requires
        config.max_processes <= usize::MAX / 2,
    ensures
        paths_view(r@) == spec_process_traces(entries@.map_values(|e: String| e@), adjacency_view(forward@), *config),
{
    let ghost ev = entries@.map_values(|e: String| e@);
    let ghost fv = adjacency_view(forward@);
    let ghost depth = config.max_trace_depth as nat;
    let ghost branching = config.max_branching as nat;
    let ghost min = config.min_steps as nat;
    let cap = config.max_processes * 2;
    let mut all: Vec<Vec<String>> = Vec::new();
    let mut i: usize = 0;
    assert(ev.subrange(0, ev.len() as int) =~= ev);
    while i < entries.len() && all.len() < cap
        invariant
            i <= entries@.len(),
            ev == entries@.map_values(|e: String| e@),
            fv == adjacency_view(forward@),
            depth == config.max_trace_depth as nat,
            branching == config.max_branching as nat,
            min == config.min_steps as nat,
            cap == config.max_processes * 2,
            gather_traces(Seq::empty(), ev, fv, depth, branching, min, cap as nat) == gather_traces(
                paths_view(all@),
                ev.subrange(i as int, ev.len() as int),
                fv,
                depth,
                branching,
                min,
                cap as nat,
            ),
        decreases entries.len() - i,
    {
        let traces = trace_from_entry(entries[i].as_str(), forward, config);
        let ghost tv = paths_view(traces@);
        let ghost before = paths_view(all@);
        let mut j: usize = 0;
        while j < traces.len()
            invariant
                j <= traces@.len(),
                tv == paths_view(traces@),
                min == config.min_steps as nat,
                paths_view(all@) == before + long_enough(tv.subrange(0, j as int), min),
            decreases traces.len() - j,
        {
            assert(tv.subrange(0, j + 1).drop_last() =~= tv.subrange(0, j as int));
            assert(tv.subrange(0, j + 1).last() == tv[j as int]);
            if traces[j].len() >= config.min_steps {
                let ghost b = paths_view(all@);
                all.push(clone_path(&traces[j]));
                assert(paths_view(all@) =~= b.push(tv[j as int]));
            }
            j = j + 1;
        }
        proof {
            assert(tv.subrange(0, tv.len() as int) =~= tv);
            let rest = ev.subrange(i as int, ev.len() as int);
            assert(rest[0] == entries@[i as int]@);
            assert(rest.drop_first() =~= ev.subrange(i + 1, ev.len() as int));
        }
        i = i + 1;
    }
    proof {
        let rest = ev.subrange(i as int, ev.len() as int);
        if i == entries@.len() {
            assert(rest.len() == 0);
        }
    }
    let unique = deduplicate_traces(all);
    let best = deduplicate_by_endpoints(unique);
    longest_traces(best, config.max_processes)
}

/// The community of the node `id` among the (node, community) pairs `ms`:
/// the last pair for the node wins.
pub open spec fn community_of(ms: Seq<(Seq<char>, Seq<char>)>, id: Seq<char>) -> Option<Seq<char>>
    decreases ms.len(),
{
    if ms.len() == 0 {
        None
    } else if ms.last().0 == id {
        Some(ms.last().1)
    } else {
        community_of(ms.drop_last(), id)
    }
}

/// Whether the trace `t` touches more than one community.
pub open spec fn crosses_communities(ms: Seq<(Seq<char>, Seq<char>)>, t: Seq<Seq<char>>) -> bool {
    exists|i: int, j: int|
        0 <= i < t.len() && 0 <= j < t.len() && community_of(ms, #[trigger] t[i]) is Some && community_of(ms, #[trigger] t[j])
            is Some && community_of(ms, t[i]) != community_of(ms, t[j])
}

/// The communities the steps of the trace `t` belong to, each once, in the
/// order the steps first reach them.
pub open spec fn trace_communities(ms: Seq<(Seq<char>, Seq<char>)>, t: Seq<Seq<char>>) -> Seq<Seq<char>>
    decreases t.len(),
{
    if t.len() == 0 {
        Seq::empty()
    } else {
        let cs = trace_communities(ms, t.drop_last());
        match community_of(ms, t.last()) {
            Some(c) => if cs.contains(c) {
                cs
            } else {
                cs.push(c)
            },
            None => cs,
        }
    }
}

/// The communities of a trace are those of its steps, each once, and the
/// trace crosses communities exactly when there is more than one.
pub proof fn lemma_trace_communities(ms: Seq<(Seq<char>, Seq<char>)>, t: Seq<Seq<char>>)
    ensures
        forall|i: int, j: int|
            0 <= i < j < trace_communities(ms, t).len() ==> (#[trigger] trace_communities(ms, t)[i]) != (
            #[trigger] trace_communities(ms, t)[j]),
        forall|c: Seq<char>|
            #[trigger] trace_communities(ms, t).contains(c) <==> exists|k: int|
                0 <= k < t.len() && community_of(ms, #[trigger] t[k]) == Some(c),
        crosses_communities(ms, t) <==> trace_communities(ms, t).len() > 1,
    decreases t.len(),
{
    let tc = trace_communities(ms, t);
    if t.len() > 0 {
        let t0 = t.drop_last();
        let cs = trace_communities(ms, t0);
        lemma_trace_communities(ms, t0);
        assert forall|c: Seq<char>| #[trigger] tc.contains(c) <==> exists|k: int|
            0 <= k < t.len() && community_of(ms, #[trigger] t[k]) == Some(c) by {
            if tc.contains(c) {
                if cs.contains(c) {
                    let k = choose|k: int| 0 <= k < t0.len() && community_of(ms, #[trigger] t0[k]) == Some(c);
                    assert(t[k] == t0[k]);
                } else {
                    let j = choose|j: int| 0 <= j < tc.len() && tc[j] == c;
                    if j < cs.len() {
                        assert(tc[j] == cs[j]);
                    }
                    assert(community_of(ms, t[t.len() - 1]) == Some(c));
                }
            }
            if exists|k: int| 0 <= k < t.len() && community_of(ms, #[trigger] t[k]) == Some(c) {
                let k = choose|k: int| 0 <= k < t.len() && community_of(ms, #[trigger] t[k]) == Some(c);
                if k < t.len() - 1 {
                    assert(t0[k] == t[k]);
                    assert(cs.contains(c));
                    let j = choose|j: int| 0 <= j < cs.len() && cs[j] == c;
                    assert(tc[j] == c);
                } else if !cs.contains(c) {
                    assert(tc[cs.len() as int] == c);
                }
            }
        }
        assert forall|i: int, j: int| 0 <= i < j < tc.len() implies (#[trigger] tc[i]) != (#[trigger] tc[j]) by {
            if j >= cs.len() {
                assert(tc[i] == cs[i]);
            } else {
                assert(tc[i] == cs[i] && tc[j] == cs[j]);
            }
        }
    }
    if crosses_communities(ms, t) {
        let (a, b) = choose|a: int, b: int|
            0 <= a < t.len() && 0 <= b < t.len() && community_of(ms, #[trigger] t[a]) is Some && community_of(ms, #[trigger] t[b])
                is Some && community_of(ms, t[a]) != community_of(ms, t[b]);
        let ca = community_of(ms, t[a])->0;
        let cb = community_of(ms, t[b])->0;
        assert(tc.contains(ca));
        assert(tc.contains(cb));
        if tc.len() <= 1 {
            let ia = choose|i: int| 0 <= i < tc.len() && tc[i] == ca;
            let ib = choose|i: int| 0 <= i < tc.len() && tc[i] == cb;
            assert(ia == ib);
        }
    }
    if tc.len() > 1 {
        assert(tc.contains(tc[0]));
        assert(tc.contains(tc[1]));
        let a = choose|k: int| 0 <= k < t.len() && community_of(ms, #[trigger] t[k]) == Some(tc[0]);
        let b = choose|k: int| 0 <= k < t.len() && community_of(ms, #[trigger] t[k]) == Some(tc[1]);
        assert(tc[0] != tc[1]);
        assert(community_of(ms, t[a]) != community_of(ms, t[b]));
    }
}

/// The name of the node `id`, `?` when the graph lacks it.
pub open spec fn name_or_unknown(g: GraphView, id: Seq<char>) -> Seq<char> {
    match node_name(g, id) {
        Some(n) => n,
        None => "?"@,
    }
}

/// The kind of the process with trace `t`: whether it crosses communities.
pub open spec fn process_kind(ms: Seq<(Seq<char>, Seq<char>)>, t: Seq<Seq<char>>) -> Seq<char> {
    if crosses_communities(ms, t) {
        "cross_community"@
    } else {
        "intra_community"@
    }
}

/// The id of the process at index `idx` with trace `t`.
pub open spec fn process_node_id(g: GraphView, idx: nat, t: Seq<Seq<char>>) -> Seq<char> {
    spec_process_id(idx as u64, name_or_unknown(g, t[0]))
}

/// The node of the process at index `idx` with trace `t`: its kind, its
/// step count (kept as a `u32`, wrapping as a cast does), and its first and
/// last step.
pub open spec fn process_node(g: GraphView, ms: Seq<(Seq<char>, Seq<char>)>, idx: nat, t: Seq<Seq<char>>) -> NodeView {
    let entry = name_or_unknown(g, t[0]);
    NodeView {
        id: spec_process_id(idx as u64, entry),
        label: NodeLabel::Process,
        name: spec_process_label(entry, name_or_unknown(g, t.last())),
        file_path: Seq::empty(),
        props: PropsView {
            process_type: Some(process_kind(ms, t)),
            step_count: Some(t.len() as u32),
            communities: Some(trace_communities(ms, t)),
            entry_point_id: Some(t[0]),
            terminal_id: Some(t.last()),
            ..no_props()
        },
    }
}

/// The STEP_IN_PROCESS edge from step `step` (counted from 1) of a
/// `total`-step process to the process `pid`; the edge records its step (as
/// an `i32`, wrapping as a cast does).
pub open spec fn step_edge(n: Seq<char>, pid: Seq<char>, step: int, total: int) -> EdgeView {
    EdgeView {
        step: Some(step as i32),
        ..link_edge(n, RelationType::StepInProcess, pid, 1000, spec_step_reason(step as u64, total as u64))
    }
}

/// The STEP_IN_PROCESS edges from each of the first steps `t` of a
/// `total`-step process to the process `pid`, in step order.
pub open spec fn step_edges(t: Seq<Seq<char>>, pid: Seq<char>, total: int) -> Seq<EdgeView> {
    t.map(|i: int, n: Seq<char>| step_edge(n, pid, i + 1, total))
}

/// The step edges of the processes `ts`, process by process.
pub open spec fn all_step_edges(g: GraphView, ts: Seq<Seq<Seq<char>>>) -> Seq<EdgeView>
    decreases ts.len(),
{
    if ts.len() == 0 {
        Seq::empty()
    } else {
        all_step_edges(g, ts.drop_last()) + step_edges(ts.last(), process_node_id(g, (ts.len() - 1) as nat, ts.last()), ts.last().len() as int)
    }
}

/// How many of the traces `ts` touch more than one community.
pub open spec fn cross_count(ms: Seq<(Seq<char>, Seq<char>)>, ts: Seq<Seq<Seq<char>>>) -> nat
    decreases ts.len(),
{
    if ts.len() == 0 {
        0
    } else {
        cross_count(ms, ts.drop_last()) + if crosses_communities(ms, ts.last()) {
            1nat
        } else {
            0nat
        }
    }
}

/// The graph of the processes found: a node per process and an edge from
/// each of its steps to it, with how many processes cross communities.
#[derive(Debug)]
pub struct ProcessGraph {
    pub nodes: Vec<GraphNode>,
    pub edges: Vec<GraphEdge>,
    pub cross_community: usize,
}

/// The texts of (node, community) pairs.
pub open spec fn pairs_text(ms: Seq<(String, String)>) -> Seq<(Seq<char>, Seq<char>)> {
    ms.map_values(|m: (String, String)| (m.0@, m.1@))
}

/// The community of the node `id`.
fn find_community(ms: &[(String, String)], id: &str) -> (r: Option<String>)
    ensures
        match r {
            Some(c) => community_of(pairs_text(ms@), id@) == Some(c@),
            None => community_of(pairs_text(ms@), id@) is None,
        },
{
    let ghost mv = pairs_text(ms@);
    let mut k = ms.len();
    assert(mv.subrange(0, mv.len() as int) =~= mv);
    while k > 0
        invariant
            k <= ms@.len(),
            mv == pairs_text(ms@),
            community_of(mv, id@) == community_of(mv.subrange(0, k as int), id@),
        decreases k,
    {
        assert(mv.subrange(0, k as int).drop_last() =~= mv.subrange(0, k - 1));
        assert(mv.subrange(0, k as int).last() == (ms@[k - 1].0@, ms@[k - 1].1@));
        if str_eq(ms[k - 1].0.as_str(), id) {
            return Some(ms[k - 1].1.clone());
        }
        k = k - 1;
    }
    None
}

/// Whether the trace touches more than one community.
fn touches_many(ms: &[(String, String)], t: &Vec<String>) -> (r: bool)
    ensures
        r == crosses_communities(pairs_text(ms@), path_view(t@)),
{
    let ghost mv = pairs_text(ms@);
    let ghost tv = path_view(t@);
    let mut first: Option<String> = None;
    let mut i: usize = 0;
    while i < t.len()
        invariant
            i <= t@.len(),
            mv == pairs_text(ms@),
            tv == path_view(t@),
            match first {
                None => forall|k: int| 0 <= k < i ==> community_of(mv, #[trigger] tv[k]) is None,
                Some(c) => (exists|k: int| 0 <= k < i && community_of(mv, #[trigger] tv[k]) == Some(c@)) && forall|k: int|
                    0 <= k < i && community_of(mv, #[trigger] tv[k]) is Some ==> community_of(mv, tv[k]) == Some(c@),
            },
        decreases t.len() - i,
    {
        match find_community(ms, t[i].as_str()) {
            Some(c) => {
                match &first {
                    Some(f) => {
                        if !str_eq(f.as_str(), c.as_str()) {
                            proof {
                                let k = choose|k: int| 0 <= k < i && community_of(mv, #[trigger] tv[k]) == Some(f@);
                                assert(community_of(mv, tv[i as int]) == Some(c@));
                                assert(community_of(mv, tv[k]) != community_of(mv, tv[i as int]));
                            }
                            return true;
                        }
                    },
                    None => {
                        first = Some(c);
                    },
                }
            },
            None => {},
        }
        i = i + 1;
    }
    proof {
        if crosses_communities(mv, tv) {
            let (a, b) = choose|a: int, b: int|
                0 <= a < tv.len() && 0 <= b < tv.len() && community_of(mv, #[trigger] tv[a]) is Some && community_of(
                    mv,
                    #[trigger] tv[b],
                ) is Some && community_of(mv, tv[a]) != community_of(mv, tv[b]);
            assert(community_of(mv, tv[a]) is Some);
        }
    }
    false
}

/// The communities the steps of `t` belong to, each once, in the order the
/// steps first reach them.
fn communities_touched(ms: &[(String, String)], t: &Vec<String>) -> (r: Vec<String>)
    ensures
        path_view(r@) == trace_communities(pairs_text(ms@), path_view(t@)),
{
    let ghost mv = pairs_text(ms@);
    let ghost tv = path_view(t@);
    let mut r: Vec<String> = Vec::new();
    let mut i: usize = 0;
    assert(tv.subrange(0, 0) =~= Seq::<Seq<char>>::empty());
    assert(path_view(r@) =~= Seq::<Seq<char>>::empty());
    while i < t.len()
        invariant
            i <= t@.len(),
            mv == pairs_text(ms@),
            tv == path_view(t@),
            path_view(r@) == trace_communities(mv, tv.subrange(0, i as int)),
        decreases t.len() - i,
    {
        assert(tv.subrange(0, i + 1).drop_last() =~= tv.subrange(0, i as int));
        assert(tv.subrange(0, i + 1).last() == t@[i as int]@);
        match find_community(ms, t[i].as_str()) {
            Some(c) => {
                if !path_contains(&r, c.as_str()) {
                    let ghost b = path_view(r@);
                    r.push(c);
                    assert(path_view(r@) =~= b.push(r@[r@.len() - 1]@));
                }
            },
            None => {},
        }
        i = i + 1;
    }
    assert(tv.subrange(0, tv.len() as int) =~= tv);
    r
}

/// The nodes and step edges of the processes `traces` (each non-empty), in
/// order: process `i` is `proc_<i>_<entry>`, labelled from its entry's and
/// terminal's names (`?` for a node the store lacks); with how many traces
/// touch more than one community by `membership` (node, community) pairs.
pub fn process_graph(traces: &[Vec<String>], store: &GraphStore, membership: &[(String, String)]) -> (r: ProcessGraph)
    requires
        store.wf(),
        forall|i: int| 0 <= i < traces@.len() ==> (#[trigger] traces@[i])@.len() > 0,
    ensures
        r.nodes@.map_values(|n: GraphNode| n@) == Seq::new(
            traces@.len(),
            |i: int| process_node(store@, pairs_text(membership@), i as nat, path_view(traces@[i]@)),
        ),
        r.edges@.map_values(|e: GraphEdge| e@) == all_step_edges(store@, paths_view(traces@)),
        r.cross_community == cross_count(pairs_text(membership@), paths_view(traces@)),
{
    let ghost tv = paths_view(traces@);
    let mut nodes: Vec<GraphNode> = Vec::new();
    let mut edges: Vec<GraphEdge> = Vec::new();
    let mut cross: usize = 0;
    let mut i: usize = 0;
    while i < traces.len()
        invariant
            i <= traces@.len(),
            store.wf(),
            tv == paths_view(traces@),
            forall|k: int| 0 <= k < traces@.len() ==> (#[trigger] traces@[k])@.len() > 0,
            nodes@.map_values(|n: GraphNode| n@) == Seq::new(
                i as nat,
                |k: int| process_node(store@, pairs_text(membership@), k as nat, path_view(traces@[k]@)),
            ),
            edges@.map_values(|e: GraphEdge| e@) == all_step_edges(store@, tv.subrange(0, i as int)),
            cross == cross_count(pairs_text(membership@), tv.subrange(0, i as int)),
            cross <= i,
        decreases traces.len() - i,
    {
        let t = &traces[i];
        let ghost pv = path_view(t@);
        assert(tv[i as int] == pv);
        let last = t.len() - 1;
        let entry = match name_of(store, t[0].as_str()) {
            Some(n) => n,
            None => "?".to_owned(),
        };
        let terminal = match name_of(store, t[last].as_str()) {
            Some(n) => n,
            None => "?".to_owned(),
        };
        proof {
            reveal_strlit("?");
        }
        let pid = process_id(i as u64, entry.as_str());
        let name = process_label(entry.as_str(), terminal.as_str());
        let crosses = touches_many(membership, t);
        let mut props = NodeProps::none();
        props.process_type = if crosses {
            Some("cross_community".to_owned())
        } else {
            Some("intra_community".to_owned())
        };
        props.step_count = Some(t.len() as u32);
        let touched = communities_touched(membership, t);
        proof {
            assert(ids_view(touched@) =~= path_view(touched@));
        }
        props.communities = Some(touched);
        props.entry_point_id = Some(t[0].clone());
        props.terminal_id = Some(t[last].clone());
        let node = GraphNode { id: pid.clone(), label: NodeLabel::Process, name, file_path: String::new(), props };
        assert(pv.last() == t@[last as int]@);
        assert(node@ == process_node(store@, pairs_text(membership@), i as nat, pv));
        let ghost nb = nodes@.map_values(|n: GraphNode| n@);
        nodes.push(node);
        assert(nodes@.map_values(|n: GraphNode| n@) =~= nb.push(process_node(store@, pairs_text(membership@), i as nat, pv)));
        assert(nodes@.map_values(|n: GraphNode| n@) =~= Seq::new(
            (i + 1) as nat,
            |k: int| process_node(store@, pairs_text(membership@), k as nat, path_view(traces@[k]@)),
        ));
        let ghost e0 = edges@.map_values(|e: GraphEdge| e@);
        let mut j: usize = 0;
        while j < t.len()
            invariant
                j <= t@.len(),
                pv == path_view(t@),
                edges@.map_values(|e: GraphEdge| e@) == e0 + step_edges(pv.subrange(0, j as int), pid@, pv.len() as int),
            decreases t.len() - j,
        {
            let ghost b = edges@.map_values(|e: GraphEdge| e@);
            let reason = step_reason((j + 1) as u64, t.len() as u64);
            let mut edge = GraphEdge::new(t[j].as_str(), pid.as_str(), RelationType::StepInProcess, 1000, reason.as_str());
            edge.step = Some((j + 1) as i32);
            edges.push(edge);
            assert(edges@.map_values(|e: GraphEdge| e@) =~= b.push(step_edge(pv[j as int], pid@, j + 1, pv.len() as int)));
            assert(step_edges(pv.subrange(0, j + 1), pid@, pv.len() as int) =~= step_edges(
                pv.subrange(0, j as int),
                pid@,
                pv.len() as int,
            ).push(step_edge(pv[j as int], pid@, j + 1, pv.len() as int)));
            j = j + 1;
        }
        assert(pv.subrange(0, pv.len() as int) =~= pv);
        assert(tv.subrange(0, i + 1).drop_last() =~= tv.subrange(0, i as int));
        assert(tv.subrange(0, i + 1).last() == pv);
        assert(pid@ == process_node_id(store@, i as nat, pv));
        if crosses {
            cross = cross + 1;
        }
        i = i + 1;
    }
    assert(tv.subrange(0, tv.len() as int) =~= tv);
    ProcessGraph { nodes, edges, cross_community: cross }
}


/// A trace that process detection may report: a call path from one of the
/// entry points, of at least `min` nodes.
pub open spec fn from_entry_point(
    t: Seq<Seq<char>>,
    entries: Seq<Seq<char>>,
    forward: Seq<(Seq<char>, Seq<Seq<char>>)>,
    depth: nat,
    min: nat,
) -> bool {
    t.len() >= min && exists|k: int| 0 <= k < entries.len() && path_ok(t, #[trigger] entries[k], forward, depth)
}

proof fn lemma_with_len_within(ts: Seq<Seq<Seq<char>>>, len: nat)
    ensures
        forall|x: Seq<Seq<char>>| #[trigger] with_len(ts, len).contains(x) ==> ts.contains(x),
    decreases ts.len(),
{
    if ts.len() > 0 {
        lemma_with_len_within(ts.drop_last(), len);
        assert forall|x: Seq<Seq<char>>| #[trigger] with_len(ts, len).contains(x) implies ts.contains(x) by {
            let r = with_len(ts.drop_last(), len);
            if r.contains(x) {
                let k = choose|k: int| 0 <= k < r.len() && r[k] == x;
                assert(ts.drop_last().contains(x));
                let m = choose|m: int| 0 <= m < ts.drop_last().len() && ts.drop_last()[m] == x;
                assert(ts[m] == x);
            } else {
                let k = choose|k: int| 0 <= k < with_len(ts, len).len() && with_len(ts, len)[k] == x;
                assert(x == ts.last());
                assert(ts[ts.len() - 1] == x);
            }
        }
    }
}

proof fn lemma_longest_first_within(ts: Seq<Seq<Seq<char>>>, len: int)
    ensures
        forall|x: Seq<Seq<char>>| #[trigger] longest_first(ts, len).contains(x) ==> ts.contains(x),
    decreases len + 1,
{
    if len >= 0 {
        lemma_longest_first_within(ts, len - 1);
        lemma_with_len_within(ts, len as nat);
        assert forall|x: Seq<Seq<char>>| #[trigger] longest_first(ts, len).contains(x) implies ts.contains(x) by {
            let a = with_len(ts, len as nat);
            let b = longest_first(ts, len - 1);
            let k = choose|k: int| 0 <= k < (a + b).len() && (a + b)[k] == x;
            if k < a.len() {
                assert(a[k] == x);
                assert(a.contains(x));
            } else {
                assert(b[k - a.len()] == x);
                assert(b.contains(x));
            }
        }
    }
}

proof fn lemma_keep_unsubsumed_within(ts: Seq<Seq<Seq<char>>>)
    ensures
        forall|x: Seq<Seq<char>>| #[trigger] keep_unsubsumed(ts).contains(x) ==> ts.contains(x),
    decreases ts.len(),
{
    if ts.len() > 0 {
        lemma_keep_unsubsumed_within(ts.drop_last());
        assert forall|x: Seq<Seq<char>>| #[trigger] keep_unsubsumed(ts).contains(x) implies ts.contains(x) by {
            let r = keep_unsubsumed(ts.drop_last());
            if r.contains(x) {
                assert(ts.drop_last().contains(x));
                let m = choose|m: int| 0 <= m < ts.drop_last().len() && ts.drop_last()[m] == x;
                assert(ts[m] == x);
            } else {
                let k = choose|k: int| 0 <= k < keep_unsubsumed(ts).len() && keep_unsubsumed(ts)[k] == x;
                assert(x == ts.last());
                assert(ts[ts.len() - 1] == x);
            }
        }
    }
}

proof fn lemma_best_by_endpoints_within(ts: Seq<Seq<Seq<char>>>)
    ensures
        forall|x: Seq<Seq<char>>| #[trigger] best_by_endpoints(ts).contains(x) ==> ts.contains(x),
    decreases ts.len(),
{
    if ts.len() > 0 {
        lemma_best_by_endpoints_within(ts.drop_last());
        assert forall|x: Seq<Seq<char>>| #[trigger] best_by_endpoints(ts).contains(x) implies ts.contains(x) by {
            let r = best_by_endpoints(ts.drop_last());
            let b = best_by_endpoints(ts);
            let t = ts.last();
            let k = choose|k: int| 0 <= k < b.len() && b[k] == x;
            if x == t {
                assert(ts[ts.len() - 1] == x);
            } else {
                if t.len() != 0 {
                    lemma_index_with_endpoints(r, endpoints_of(t));
                    match index_with_endpoints(r, endpoints_of(t)) {
                        Some(i) => {
                            if t.len() > r[i].len() {
                                assert(b == r.update(i, t));
                                assert(k != i);
                                assert(r[k] == x);
                            } else {
                                assert(r[k] == x);
                            }
                        },
                        None => {
                            assert(b == r.push(t));
                            assert(k < r.len());
                            assert(r[k] == x);
                        },
                    }
                } else {
                    assert(r[k] == x);
                }
                assert(r.contains(x));
                assert(ts.drop_last().contains(x));
                let m = choose|m: int| 0 <= m < ts.drop_last().len() && ts.drop_last()[m] == x;
                assert(ts[m] == x);
            }
        }
    }
}

proof fn lemma_long_enough_within(ts: Seq<Seq<Seq<char>>>, min: nat)
    ensures
        forall|x: Seq<Seq<char>>| #[trigger] long_enough(ts, min).contains(x) ==> ts.contains(x) && x.len() >= min,
    decreases ts.len(),
{
    if ts.len() > 0 {
        lemma_long_enough_within(ts.drop_last(), min);
        assert forall|x: Seq<Seq<char>>| #[trigger] long_enough(ts, min).contains(x) implies ts.contains(x) && x.len() >= min by {
            let r = long_enough(ts.drop_last(), min);
            if r.contains(x) {
                assert(ts.drop_last().contains(x));
                let m = choose|m: int| 0 <= m < ts.drop_last().len() && ts.drop_last()[m] == x;
                assert(ts[m] == x);
            } else {
                let k = choose|k: int| 0 <= k < long_enough(ts, min).len() && long_enough(ts, min)[k] == x;
                assert(x == ts.last());
                assert(ts[ts.len() - 1] == x);
            }
        }
    }
}

proof fn lemma_gather_from_entries(
    acc: Seq<Seq<Seq<char>>>,
    entries: Seq<Seq<char>>,
    all_entries: Seq<Seq<char>>,
    offset: int,
    forward: Seq<(Seq<char>, Seq<Seq<char>>)>,
    depth: nat,
    branching: nat,
    min: nat,
    cap: nat,
)
    requires
        0 <= offset,
        offset + entries.len() == all_entries.len(),
        forall|k: int| 0 <= k < entries.len() ==> entries[k] == all_entries[offset + k],
        forall|x: Seq<Seq<char>>| #[trigger] acc.contains(x) ==> from_entry_point(x, all_entries, forward, depth, min),
    ensures
        forall|x: Seq<Seq<char>>| #[trigger] gather_traces(acc, entries, forward, depth, branching, min, cap).contains(x)
            ==> from_entry_point(x, all_entries, forward, depth, min),
    decreases entries.len(),
{
    if entries.len() > 0 && acc.len() < cap {
        let ts = spec_trace_from_entry(entries[0], forward, depth, branching);
        let le = long_enough(ts, min);
        lemma_traces_are_call_paths(entries[0], forward, depth, branching);
        lemma_long_enough_within(ts, min);
        assert forall|x: Seq<Seq<char>>| #[trigger] (acc + le).contains(x) implies from_entry_point(x, all_entries, forward, depth, min) by {
            let k = choose|k: int| 0 <= k < (acc + le).len() && (acc + le)[k] == x;
            if k < acc.len() {
                assert(acc[k] == x);
                assert(acc.contains(x));
            } else {
                assert(le[k - acc.len()] == x);
                assert(le.contains(x));
                let m = choose|m: int| 0 <= m < ts.len() && ts[m] == x;
                assert(path_ok(ts[m], entries[0], forward, depth));
                assert(all_entries[offset] == entries[0]);
            }
        }
        assert forall|k: int| 0 <= k < entries.drop_first().len() implies entries.drop_first()[k] == all_entries[offset + 1 + k] by {
            assert(entries.drop_first()[k] == entries[k + 1]);
        }
        lemma_gather_from_entries(acc + le, entries.drop_first(), all_entries, offset + 1, forward, depth, branching, min, cap);
        assert(gather_traces(acc, entries, forward, depth, branching, min, cap) == gather_traces(
            acc + le,
            entries.drop_first(),
            forward,
            depth,
            branching,
            min,
            cap,
        ));
    }
}

/// Every process trace found is an execution flow: a call path from one of
/// the ranked entry points, of at least `min_steps` nodes; and at most
/// `max_processes` are found.
pub proof fn lemma_processes_are_flows_from_entry_points(
    entries: Seq<Seq<char>>,
    forward: Seq<(Seq<char>, Seq<Seq<char>>)>,
    config: ProcessConfig,
)
    requires
        config.max_processes <= usize::MAX / 2,
    ensures
        spec_process_traces(entries, forward, config).len() <= config.max_processes,
        forall|i: int| 0 <= i < spec_process_traces(entries, forward, config).len() ==> from_entry_point(
            #[trigger] spec_process_traces(entries, forward, config)[i],
            entries,
            forward,
            config.max_trace_depth as nat,
            config.min_steps as nat,
        ),
{
    let depth = config.max_trace_depth as nat;
    let min = config.min_steps as nat;
    let gathered = gather_traces(
        Seq::empty(),
        entries,
        forward,
        depth,
        config.max_branching as nat,
        min,
        (config.max_processes * 2) as nat,
    );
    lemma_gather_from_entries(
        Seq::empty(),
        entries,
        entries,
        0,
        forward,
        depth,
        config.max_branching as nat,
        min,
        (config.max_processes * 2) as nat,
    );
    let lf = longest_first(gathered, max_len(gathered) as int);
    lemma_longest_first_within(gathered, max_len(gathered) as int);
    let dd = keep_unsubsumed(lf);
    lemma_keep_unsubsumed_within(lf);
    assert(spec_deduplicate_traces(gathered) == dd);
    let best = best_by_endpoints(dd);
    lemma_best_by_endpoints_within(dd);
    let s = longest_first(best, max_len(best) as int);
    lemma_longest_first_within(best, max_len(best) as int);
    let out = spec_process_traces(entries, forward, config);
    assert forall|i: int| 0 <= i < out.len() implies from_entry_point(#[trigger] out[i], entries, forward, depth, min) by {
        assert(s.contains(out[i])) by {
            assert(s[i] == out[i]);
        }
        assert(best.contains(out[i]));
        assert(dd.contains(out[i]));
        assert(lf.contains(out[i]));
        assert(gathered.contains(out[i]));
    }
}


proof fn lemma_with_len_lengths(ts: Seq<Seq<Seq<char>>>, len: nat)
    ensures
        forall|i: int| 0 <= i < with_len(ts, len).len() ==> (#[trigger] with_len(ts, len)[i]).len() == len,
    decreases ts.len(),
{
    if ts.len() > 0 {
        lemma_with_len_lengths(ts.drop_last(), len);
        let r = with_len(ts.drop_last(), len);
        assert forall|i: int| 0 <= i < with_len(ts, len).len() implies (#[trigger] with_len(ts, len)[i]).len() == len by {
            if i < r.len() {
                assert(with_len(ts, len)[i] == r[i]);
            }
        }
    }
}

/// Sorting longest first gives traces no longer than `len`, each no shorter
/// than the next.
proof fn lemma_longest_first_sorted(ts: Seq<Seq<Seq<char>>>, len: int)
    ensures
        forall|i: int| 0 <= i < longest_first(ts, len).len() ==> (#[trigger] longest_first(ts, len)[i]).len() <= len,
        forall|i: int, j: int| 0 <= i < j < longest_first(ts, len).len() ==> (#[trigger] longest_first(ts, len)[i]).len()
            >= (#[trigger] longest_first(ts, len)[j]).len(),
    decreases len + 1,
{
    if len >= 0 {
        lemma_longest_first_sorted(ts, len - 1);
        lemma_with_len_lengths(ts, len as nat);
        let a = with_len(ts, len as nat);
        let b = longest_first(ts, len - 1);
        let c = longest_first(ts, len);
        assert(c == a + b);
        assert forall|i: int| 0 <= i < c.len() implies (#[trigger] c[i]).len() <= len by {
            if i < a.len() {
                assert(c[i] == a[i]);
            } else {
                assert(c[i] == b[i - a.len()]);
            }
        }
        assert forall|i: int, j: int| 0 <= i < j < c.len() implies (#[trigger] c[i]).len() >= (#[trigger] c[j]).len() by {
            if j < a.len() {
                assert(c[i] == a[i] && c[j] == a[j]);
            } else if i < a.len() {
                assert(c[i] == a[i] && c[j] == b[j - a.len()]);
            } else {
                assert(c[i] == b[i - a.len()] && c[j] == b[j - a.len()]);
            }
        }
    }
}

/// The number of steps of the traces `ts` together.
pub open spec fn total_steps(ts: Seq<Seq<Seq<char>>>) -> nat
    decreases ts.len(),
{
    if ts.len() == 0 {
        0
    } else {
        total_steps(ts.drop_last()) + ts.last().len()
    }
}

proof fn lemma_all_step_edges_len(g: GraphView, ts: Seq<Seq<Seq<char>>>)
    ensures
        all_step_edges(g, ts).len() == total_steps(ts),
    decreases ts.len(),
{
    if ts.len() > 0 {
        lemma_all_step_edges_len(g, ts.drop_last());
    }
}

/// What process detection reports, as a whole: at most `max_processes`
/// processes, longest first; each a trace of `min_steps` to
/// `max_trace_depth + 1` steps; each with a node labelled as a process that
/// records its step count, first and last step, the communities its steps
/// belong to (each once), and whether there is more than one of them; and
/// one step edge per step of every process.
pub proof fn lemma_process_law(
    entries: Seq<Seq<char>>,
    forward: Seq<(Seq<char>, Seq<Seq<char>>)>,
    config: ProcessConfig,
    g: GraphView,
    ms: Seq<(Seq<char>, Seq<char>)>,
)
    requires
        config.max_processes <= usize::MAX / 2,
    ensures
        ({
            let ts = spec_process_traces(entries, forward, config);
            &&& ts.len() <= config.max_processes
            &&& forall|i: int| 0 <= i < ts.len() ==> config.min_steps <= (#[trigger] ts[i]).len() <= config.max_trace_depth + 1
            &&& forall|i: int, j: int| 0 <= i < j < ts.len() ==> (#[trigger] ts[i]).len() >= (#[trigger] ts[j]).len()
            &&& all_step_edges(g, ts).len() == total_steps(ts)
            &&& forall|i: int| 0 <= i < ts.len() ==> {
                let n = #[trigger] process_node(g, ms, i as nat, ts[i]);
                &&& n.label == NodeLabel::Process
                &&& n.props.step_count == Some(ts[i].len() as u32)
                &&& n.props.entry_point_id == Some(ts[i][0])
                &&& n.props.terminal_id == Some(ts[i].last())
                &&& (n.props.process_type == Some("cross_community"@) <==> crosses_communities(ms, ts[i]))
                &&& n.props.communities matches Some(cs) && (forall|c: Seq<char>| #[trigger] cs.contains(c) <==> exists|k: int|
                    0 <= k < ts[i].len() && community_of(ms, #[trigger] ts[i][k]) == Some(c)) && (forall|a: int, b: int|
                    0 <= a < b < cs.len() ==> #[trigger] cs[a] != #[trigger] cs[b]) && (n.props.process_type == Some(
                    "cross_community"@,
                ) <==> cs.len() > 1)
            }
        }),
{
    lemma_processes_are_flows_from_entry_points(entries, forward, config);
    let ts = spec_process_traces(entries, forward, config);
    let depth = config.max_trace_depth as nat;
    let min = config.min_steps as nat;
    assert forall|i: int| 0 <= i < ts.len() implies config.min_steps <= (#[trigger] ts[i]).len() <= config.max_trace_depth + 1 by {
        assert(from_entry_point(ts[i], entries, forward, depth, min));
        let k = choose|k: int| 0 <= k < entries.len() && path_ok(ts[i], #[trigger] entries[k], forward, depth);
    }
    let gathered = gather_traces(
        Seq::empty(),
        entries,
        forward,
        depth,
        config.max_branching as nat,
        min,
        (config.max_processes * 2) as nat,
    );
    let best = best_by_endpoints(spec_deduplicate_traces(gathered));
    let sorted = longest_first(best, max_len(best) as int);
    lemma_longest_first_sorted(best, max_len(best) as int);
    assert forall|i: int, j: int| 0 <= i < j < ts.len() implies (#[trigger] ts[i]).len() >= (#[trigger] ts[j]).len() by {
        assert(ts[i] == sorted[i] && ts[j] == sorted[j]);
    }
    lemma_all_step_edges_len(g, ts);
    reveal_strlit("cross_community");
    reveal_strlit("intra_community");
    assert forall|i: int| 0 <= i < ts.len() implies {
        let n = #[trigger] process_node(g, ms, i as nat, ts[i]);
        &&& n.label == NodeLabel::Process
        &&& n.props.step_count == Some(ts[i].len() as u32)
        &&& n.props.entry_point_id == Some(ts[i][0])
        &&& n.props.terminal_id == Some(ts[i].last())
        &&& (n.props.process_type == Some("cross_community"@) <==> crosses_communities(ms, ts[i]))
        &&& n.props.communities matches Some(cs) && (forall|c: Seq<char>| #[trigger] cs.contains(c) <==> exists|k: int|
            0 <= k < ts[i].len() && community_of(ms, #[trigger] ts[i][k]) == Some(c)) && (forall|a: int, b: int|
            0 <= a < b < cs.len() ==> #[trigger] cs[a] != #[trigger] cs[b]) && (n.props.process_type == Some(
            "cross_community"@,
        ) <==> cs.len() > 1)
    } by {
        lemma_trace_communities(ms, ts[i]);
        if !crosses_communities(ms, ts[i]) {
            assert("intra_community"@ != "cross_community"@) by {
                assert("intra_community"@[0] != "cross_community"@[0]);
            }
        }
    }
}


/// The call links that tracing follows, in edge order: each calls edge of
/// at least half confidence (500 thousandths), as (caller, callee).
pub open spec fn call_links_of(es: Seq<EdgeView>) -> Seq<(Seq<char>, Seq<char>)>
    decreases es.len(),
{
    if es.len() == 0 {
        Seq::empty()
    } else {
        let p = call_links_of(es.drop_last());
        let e = es.last();
        if e.rel_type == RelationType::Calls && e.confidence >= 500 {
            p.push((e.source_id, e.target_id))
        } else {
            p
        }
    }
}

/// Tracing follows exactly the calls edges of at least 500 thousandths'
/// confidence: each gives the link (caller, callee), and every link comes
/// from one.
pub proof fn lemma_call_links_law(es: Seq<EdgeView>)
    ensures
        forall|k: int|
            0 <= k < es.len() && (#[trigger] es[k]).rel_type == RelationType::Calls && es[k].confidence >= 500
                ==> call_links_of(es).contains((es[k].source_id, es[k].target_id)),
        forall|a: Seq<char>, b: Seq<char>|
            #[trigger] call_links_of(es).contains((a, b)) ==> exists|k: int|
                0 <= k < es.len() && (#[trigger] es[k]).source_id == a && es[k].target_id == b && es[k].rel_type
                    == RelationType::Calls && es[k].confidence >= 500,
    decreases es.len(),
{
    if es.len() > 0 {
        let e0 = es.drop_last();
        lemma_call_links_law(e0);
        let p = call_links_of(e0);
        let r = call_links_of(es);
        let e = es.last();
        assert forall|k: int|
            0 <= k < es.len() && (#[trigger] es[k]).rel_type == RelationType::Calls && es[k].confidence >= 500
                implies r.contains((es[k].source_id, es[k].target_id)) by {
            if k < es.len() - 1 {
                assert(es[k] == e0[k]);
                assert(p.contains((e0[k].source_id, e0[k].target_id)));
                let j = choose|j: int| 0 <= j < p.len() && p[j] == (e0[k].source_id, e0[k].target_id);
                assert(r[j] == p[j]);
            } else {
                assert(r[p.len() as int] == (e.source_id, e.target_id));
            }
        }
        assert forall|a: Seq<char>, b: Seq<char>| #[trigger] r.contains((a, b)) implies exists|k: int|
            0 <= k < es.len() && (#[trigger] es[k]).source_id == a && es[k].target_id == b && es[k].rel_type
                == RelationType::Calls && es[k].confidence >= 500 by {
            let j = choose|j: int| 0 <= j < r.len() && r[j] == (a, b);
            if j < p.len() {
                assert(p[j] == (a, b));
                assert(p.contains((a, b)));
                let k = choose|k: int|
                    0 <= k < e0.len() && (#[trigger] e0[k]).source_id == a && e0[k].target_id == b && e0[k].rel_type
                        == RelationType::Calls && e0[k].confidence >= 500;
                assert(es[k] == e0[k]);
            } else {
                assert(es[es.len() - 1] == e);
            }
        }
    }
}

/// The call links that tracing follows.
pub fn call_links(store: &GraphStore) -> (r: Vec<(String, String)>)
    requires
        store.wf(),
    ensures
        crate::community::link_pairs(r@) == call_links_of(store.edge_list()),
{
    let edges = store.edges();
    let ghost ev = edges@.map_values(|e: GraphEdge| e@);
    let mut out: Vec<(String, String)> = Vec::new();
    let mut i: usize = 0;
    while i < edges.len()
        invariant
            i <= edges@.len(),
            ev == edges@.map_values(|e: GraphEdge| e@),
            ev == store.edge_list(),
            crate::community::link_pairs(out@) == call_links_of(ev.subrange(0, i as int)),
        decreases edges.len() - i,
    {
        let e = &edges[i];
        assert(ev.subrange(0, i + 1).drop_last() =~= ev.subrange(0, i as int));
        assert(ev.subrange(0, i + 1).last() == e@);
        if e.rel_type == RelationType::Calls && e.confidence >= 500 {
            let ghost before = crate::community::link_pairs(out@);
            out.push((e.source_id.clone(), e.target_id.clone()));
            assert(crate::community::link_pairs(out@) =~= before.push((e.source_id@, e.target_id@)));
        }
        i = i + 1;
    }
    assert(ev.subrange(0, ev.len() as int) =~= ev);
    out
}

/// The position of the last entry for `src` in an adjacency list.
pub open spec fn source_index(f: Seq<(Seq<char>, Seq<Seq<char>>)>, src: Seq<char>) -> Option<int>
    decreases f.len(),
{
    if f.len() == 0 {
        None
    } else if f.last().0 == src {
        Some(f.len() - 1)
    } else {
        source_index(f.drop_last(), src)
    }
}

proof fn lemma_source_index(f: Seq<(Seq<char>, Seq<Seq<char>>)>, src: Seq<char>)
    ensures
        source_index(f, src) matches Some(k) ==> 0 <= k < f.len() && f[k].0 == src,
    decreases f.len(),
{
    if f.len() > 0 && f.last().0 != src {
        lemma_source_index(f.drop_last(), src);
    }
}

/// The adjacency of a list of links: for each source, in the order first
/// seen, its targets in link order.
pub open spec fn adjacency_of(ls: Seq<(Seq<char>, Seq<char>)>) -> Seq<(Seq<char>, Seq<Seq<char>>)>
    decreases ls.len(),
{
    if ls.len() == 0 {
        Seq::empty()
    } else {
        let f = adjacency_of(ls.drop_last());
        let (src, dst) = ls.last();
        match source_index(f, src) {
            Some(k) => f.update(k, (src, f[k].1.push(dst))),
            None => f.push((src, seq![dst])),
        }
    }
}

fn find_source(f: &Vec<(String, Vec<String>)>, src: &str) -> (r: Option<usize>)
    ensures
        match r {
            Some(k) => source_index(adjacency_view(f@), src@) == Some(k as int),
            None => source_index(adjacency_view(f@), src@) is None,
        },
{
    let ghost fv = adjacency_view(f@);
    let mut k: usize = f.len();
    assert(fv.subrange(0, fv.len() as int) =~= fv);
    while k > 0
        invariant
            k <= f@.len(),
            fv == adjacency_view(f@),
            source_index(fv, src@) == source_index(fv.subrange(0, k as int), src@),
        decreases k,
    {
        let ghost sub = fv.subrange(0, k as int);
        assert(sub.last() == fv[k - 1]);
        if str_eq(f[k - 1].0.as_str(), src) {
            return Some(k - 1);
        }
        assert(sub.drop_last() =~= fv.subrange(0, k - 1));
        k = k - 1;
    }
    None
}

/// The call adjacency that tracing walks: for each caller, in the order
/// first seen, its callees in link order.
pub fn call_adjacency(links: &[(String, String)]) -> (r: Vec<(String, Vec<String>)>)
    ensures
        adjacency_view(r@) == adjacency_of(crate::community::link_pairs(links@)),
{
    let ghost lv = crate::community::link_pairs(links@);
    let mut f: Vec<(String, Vec<String>)> = Vec::new();
    let mut i: usize = 0;
    while i < links.len()
        invariant
            i <= links@.len(),
            lv == crate::community::link_pairs(links@),
            adjacency_view(f@) == adjacency_of(lv.subrange(0, i as int)),
        decreases links.len() - i,
    {
        let ghost fv = adjacency_view(f@);
        let src = &links[i].0;
        let dst = &links[i].1;
        assert(lv.subrange(0, i + 1).drop_last() =~= lv.subrange(0, i as int));
        assert(lv.subrange(0, i + 1).last() == (src@, dst@));
        proof {
            lemma_source_index(fv, src@);
        }
        match find_source(&f, src.as_str()) {
            Some(k) => {
                let mut targets = clone_path(&f[k].1);
                let ghost tv = path_view(f@[k as int].1@);
                targets.push(dst.clone());
                assert(path_view(targets@) =~= tv.push(dst@));
                f.set(k, (src.clone(), targets));
                assert(adjacency_view(f@) =~= fv.update(k as int, (src@, fv[k as int].1.push(dst@))));
            },
            None => {
                let mut single: Vec<String> = Vec::new();
                single.push(dst.clone());
                assert(path_view(single@) =~= seq![dst@]);
                f.push((src.clone(), single));
                assert(adjacency_view(f@) =~= fv.push((src@, seq![dst@])));
            },
        }
        i = i + 1;
    }
    assert(lv.subrange(0, lv.len() as int) =~= lv);
    f
}

} // verus!
