//! Call resolution: links each call to the definitions it may invoke.

use vstd::prelude::*;
use crate::text::{chars_of, string_of, str_eq};
use crate::types::{ExtractedCall, ExtractedHeritage, HeritageKind, HeritageView, NodeLabel, spec_is_type_def};
use crate::symbol_table::{
    defs_view, exported_named, in_file, in_file_named, SymbolDefinition, SymbolInfo, SymbolTable,
};
use crate::resolution::{
    CandidateView, LinkView, ResolutionContext, ResolutionTier, ResolvedCandidate, TieredResult,
    TieredView, answer_with_cache, cache_after, opt_tiered_view, CONFIDENCE_IMPORT_SCOPED,
    CONFIDENCE_INTERFACE_DISPATCH,
};

verus! {

/// The content of a resolved call target.
pub struct TargetView {
    pub target_node_id: Seq<char>,
    pub confidence: u32,
    pub reason: Seq<char>,
}

/// A resolved call target with confidence.
#[derive(Debug, Clone)]
pub struct ResolvedCallTarget {
    pub target_node_id: String,
    /// Confidence in thousandths.
    pub confidence: u32,
    pub reason: String,
}

impl View for ResolvedCallTarget {
    type V = TargetView;

    open spec fn view(&self) -> TargetView {
        TargetView { target_node_id: self.target_node_id@, confidence: self.confidence, reason: self.reason@ }
    }
}

/// The views of a sequence of targets.
pub open spec fn targets_view(v: Seq<ResolvedCallTarget>) -> Seq<TargetView> {
    v.map_values(|t: ResolvedCallTarget| t@)
}

/// The reason given for a call resolved at tier `t`.
pub open spec fn tier_reason(t: ResolutionTier) -> Seq<char> {
    match t {
        ResolutionTier::SameFile => "same-file call"@,
        ResolutionTier::ImportScoped => "import-scoped call"@,
        ResolutionTier::Global => "global call"@,
    }
}

/// The implementor map: for each interface, the files that implement it, in the
/// order they were first seen.
pub struct ImplementorMap {
    entries: Vec<(String, Vec<String>)>,
}

/// The files implementing `iface`, per the heritage clauses `hs` (paired with
/// their files), in first-seen order.
pub open spec fn impl_files(hs: Seq<(Seq<char>, HeritageView)>, iface: Seq<char>) -> Seq<Seq<char>>
    decreases hs.len(),
{
    if hs.len() == 0 {
        Seq::empty()
    } else {
        let prev = impl_files(hs.drop_last(), iface);
        let h = hs.last().1;
        if h.kind == HeritageKind::Implements && h.parent_name == iface && !prev.contains(h.file_path) {
            prev.push(h.file_path)
        } else {
            prev
        }
    }
}

/// The content of the (file, heritage) pairs.
pub open spec fn heritage_pairs_view(v: Seq<(String, ExtractedHeritage)>) -> Seq<(Seq<char>, HeritageView)> {
    v.map_values(|p: (String, ExtractedHeritage)| (p.0@, p.1@))
}

pub(crate) fn contains_str(v: &Vec<String>, s: &str) -> (r: bool)
    ensures
        r == v@.map_values(|x: String| x@).contains(s@),
{
    let ghost m = v@.map_values(|x: String| x@);
    let mut i: usize = 0;
    while i < v.len()
        invariant
            m == v@.map_values(|x: String| x@),
            i <= v@.len(),
            forall|k: int| 0 <= k < i ==> m[k] != s@,
        decreases v.len() - i,
    {
        if str_eq(v[i].as_str(), s) {
            assert(m[i as int] == s@);
            return true;
        }
        i = i + 1;
    }
    false
}

impl ImplementorMap {
    /// The files that implement `iface`, in first-seen order.
    pub closed spec fn files_of(&self, iface: Seq<char>) -> Seq<Seq<char>> {
        latest_files(self.entries@, iface)
    }

    /// An empty map.
    pub fn new() -> (r: Self)
        ensures
            forall|iface: Seq<char>| #[trigger] r.files_of(iface) == Seq::<Seq<char>>::empty(),
    {
        ImplementorMap { entries: Vec::new() }
    }

    fn index_of(&self, iface: &str) -> (r: Option<usize>)
        ensures
            match r {
                Some(i) => i < self.entries@.len() && self.entries@[i as int].0@ == iface@,
                None => forall|k: int| 0 <= k < self.entries@.len() ==> (#[trigger] self.entries@[k]).0@ != iface@,
            },
    {
        let mut i: usize = 0;
        while i < self.entries.len()
            invariant
                i <= self.entries@.len(),
                forall|k: int| 0 <= k < i ==> (#[trigger] self.entries@[k]).0@ != iface@,
            decreases self.entries.len() - i,
        {
            if str_eq(self.entries[i].0.as_str(), iface) {
                return Some(i);
            }
            i = i + 1;
        }
        None
    }

    /// The files that implement `iface`.
    pub fn get(&self, iface: &str) -> (r: Vec<String>)
        requires
            self.wf(),
        ensures
            r@.map_values(|x: String| x@) == self.files_of(iface@),
    {
        match self.index_of(iface) {
            Some(i) => {
                proof {
                    lemma_latest_files_at(self.entries@, iface@, i as int);
                }
                clone_strings(&self.entries[i].1)
            },
            None => {
                proof {
                    lemma_latest_files_none(self.entries@, iface@);
                }
                let out: Vec<String> = Vec::new();
                assert(out@.map_values(|x: String| x@) =~= Seq::<Seq<char>>::empty());
                out
            },
        }
    }

    /// Each interface has one entry.
    pub closed spec fn wf(&self) -> bool {
        forall|a: int, b: int| 0 <= a < b < self.entries@.len() ==> (#[trigger] self.entries@[a]).0@ != (
        #[trigger] self.entries@[b]).0@
    }
}

/// The files listed for `iface` (by its only entry), or none.
pub open spec fn latest_files(e: Seq<(String, Vec<String>)>, iface: Seq<char>) -> Seq<Seq<char>>
    decreases e.len(),
{
    if e.len() == 0 {
        Seq::empty()
    } else if e.last().0@ == iface {
        e.last().1@.map_values(|x: String| x@)
    } else {
        latest_files(e.drop_last(), iface)
    }
}

proof fn lemma_latest_files_at(e: Seq<(String, Vec<String>)>, iface: Seq<char>, i: int)
    requires
        0 <= i < e.len(),
        e[i].0@ == iface,
        forall|a: int, b: int| 0 <= a < b < e.len() ==> (#[trigger] e[a]).0@ != (#[trigger] e[b]).0@,
    ensures
        latest_files(e, iface) == e[i].1@.map_values(|x: String| x@),
    decreases e.len(),
{
    if i < e.len() - 1 {
        assert(e[e.len() - 1].0@ != iface);
        let d = e.drop_last();
        assert(d[i] == e[i]);
        assert forall|a: int, b: int| 0 <= a < b < d.len() implies (#[trigger] d[a]).0@ != (#[trigger] d[b]).0@ by {
            assert(d[a] == e[a] && d[b] == e[b]);
        }
        lemma_latest_files_at(d, iface, i);
    }
}

proof fn lemma_latest_files_none(e: Seq<(String, Vec<String>)>, iface: Seq<char>)
    requires
        forall|k: int| 0 <= k < e.len() ==> (#[trigger] e[k]).0@ != iface,
    ensures
        latest_files(e, iface) == Seq::<Seq<char>>::empty(),
    decreases e.len(),
{
    if e.len() > 0 {
        let d = e.drop_last();
        assert forall|k: int| 0 <= k < d.len() implies (#[trigger] d[k]).0@ != iface by {
            assert(d[k] == e[k]);
        }
        assert(e[e.len() - 1].0@ != iface);
        lemma_latest_files_none(d, iface);
    }
}

/// Copies of the strings of `v`.
pub fn clone_strings(v: &Vec<String>) -> (r: Vec<String>)
    ensures
        r@.map_values(|x: String| x@) == v@.map_values(|x: String| x@),
{
    let mut out: Vec<String> = Vec::new();
    let mut k: usize = 0;
    while k < v.len()
        invariant
            k <= v@.len(),
            out@.map_values(|x: String| x@) == v@.subrange(0, k as int).map_values(|x: String| x@),
        decreases v.len() - k,
    {
        let ghost before = out@;
        let c = v[k].clone();
        out.push(c);
        assert(out@ == before.push(c));
        assert(out@.map_values(|x: String| x@) =~= before.map_values(|x: String| x@).push(v@[k as int]@));
        assert(v@.subrange(0, k + 1).map_values(|x: String| x@) =~= v@.subrange(0, k as int).map_values(|x: String| x@).push(v@[k as int]@));
        k = k + 1;
    }
    assert(v@.subrange(0, v@.len() as int) =~= v@);
    out
}

/// Build the implementor map from heritage data: each interface name maps to
/// the files that implement it.
pub fn build_implementor_map(heritage: &[(String, ExtractedHeritage)]) -> (r: ImplementorMap)
    ensures
        r.wf(),
        forall|iface: Seq<char>| #[trigger] r.files_of(iface) == impl_files(heritage_pairs_view(heritage@), iface),
{
    let ghost hv = heritage_pairs_view(heritage@);
    let mut map = ImplementorMap { entries: Vec::new() };
    let mut i: usize = 0;
    while i < heritage.len()
        invariant
            hv == heritage_pairs_view(heritage@),
            i <= heritage@.len(),
            map.wf(),
            forall|iface: Seq<char>| #[trigger] map.files_of(iface) == impl_files(hv.subrange(0, i as int), iface),
        decreases heritage.len() - i,
    {
        let h = &heritage[i].1;
        let ghost prefix = hv.subrange(0, i as int);
        let ghost m0 = map;
        assert(hv.subrange(0, i + 1).drop_last() =~= prefix);
        assert(hv.subrange(0, i + 1).last() == (heritage@[i as int].0@, h@));
        if h.kind == HeritageKind::Implements {
            let iface = h.parent_name.as_str();
            match map.index_of(iface) {
                Some(j) => {
                    let present = contains_str(&map.entries[j].1, h.file_path.as_str());
                    proof {
                        lemma_latest_files_at(map.entries@, iface@, j as int);
                        assert(m0.files_of(iface@) == impl_files(prefix, iface@));
                    }
                    if !present {
                        let ghost old_entries = map.entries@;
                        let mut files = clone_strings(&map.entries[j].1);
                        let ghost fv = files@;
                        files.push(h.file_path.clone());
                        let key = map.entries[j].0.clone();
                        map.entries.set(j, (key, files));
                        proof {
                            assert(map.wf()) by {
                                assert forall|a: int, b: int| 0 <= a < b < map.entries@.len() implies (#[trigger] map.entries@[a]).0@
                                    != (#[trigger] map.entries@[b]).0@ by {
                                    assert(old_entries[a].0@ != old_entries[b].0@);
                                }
                            }
                            assert forall|x: Seq<char>| #[trigger] map.files_of(x) == impl_files(hv.subrange(0, i + 1), x) by {
                                assert(m0.files_of(x) == impl_files(prefix, x));
                                if x == iface@ {
                                    lemma_latest_files_at(map.entries@, x, j as int);
                                    assert(map.entries@[j as int].1@.map_values(|y: String| y@) =~= fv.map_values(|y: String| y@).push(h.file_path@));
                                } else {
                                    lemma_latest_files_other(old_entries, map.entries@, x, j as int);
                                }
                            }
                        }
                    } else {
                        proof {
                            assert forall|x: Seq<char>| #[trigger] map.files_of(x) == impl_files(hv.subrange(0, i + 1), x) by {
                                assert(m0.files_of(x) == impl_files(prefix, x));
                            }
                        }
                    }
                },
                None => {
                    proof {
                        lemma_latest_files_none(map.entries@, iface@);
                        assert(m0.files_of(iface@) == impl_files(prefix, iface@));
                    }
                    let ghost old_entries = map.entries@;
                    let mut files: Vec<String> = Vec::new();
                    files.push(h.file_path.clone());
                    map.entries.push((h.parent_name.clone(), files));
                    proof {
                        assert(map.wf()) by {
                            assert forall|a: int, b: int| 0 <= a < b < map.entries@.len() implies (#[trigger] map.entries@[a]).0@
                                != (#[trigger] map.entries@[b]).0@ by {
                                if b < old_entries.len() {
                                    assert(old_entries[a].0@ != old_entries[b].0@);
                                } else {
                                    assert(map.entries@[a] == old_entries[a]);
                                }
                            }
                        }
                        assert forall|x: Seq<char>| #[trigger] map.files_of(x) == impl_files(hv.subrange(0, i + 1), x) by {
                            assert(m0.files_of(x) == impl_files(prefix, x));
                            assert(map.entries@.drop_last() =~= old_entries);
                            if x == iface@ {
                                assert(map.entries@.last().1@.map_values(|y: String| y@) =~= seq![h.file_path@]);
                                assert(Seq::<Seq<char>>::empty().push(h.file_path@) =~= seq![h.file_path@]);
                            }
                        }
                    }
                },
            }
        } else {
            proof {
                assert forall|x: Seq<char>| #[trigger] map.files_of(x) == impl_files(hv.subrange(0, i + 1), x) by {
                    assert(m0.files_of(x) == impl_files(prefix, x));
                }
            }
        }
        i = i + 1;
    }
    assert(hv.subrange(0, heritage@.len() as int) =~= hv);
    map
}

proof fn lemma_latest_files_other(e0: Seq<(String, Vec<String>)>, e1: Seq<(String, Vec<String>)>, x: Seq<char>, j: int)
    requires
        0 <= j < e0.len(),
        e1.len() == e0.len(),
        e1[j].0@ == e0[j].0@,
        e0[j].0@ != x,
        forall|k: int| 0 <= k < e0.len() && k != j ==> e1[k] == e0[k],
    ensures
        latest_files(e1, x) == latest_files(e0, x),
    decreases e0.len(),
{
    if e0.len() > 0 {
        if e0.len() - 1 != j {
            assert(e1.last() == e0.last());
            if e0.last().0@ != x {
                lemma_latest_files_other(e0.drop_last(), e1.drop_last(), x, j);
            }
        } else {
            assert(e1.drop_last() =~= e0.drop_last());
        }
    }
}

/// The targets that resolution candidates give a call.
pub open spec fn cand_targets(cands: Seq<CandidateView>) -> Seq<TargetView> {
    cands.map_values(|c: CandidateView| TargetView {
        target_node_id: c.definition.node_id,
        confidence: c.confidence,
        reason: tier_reason(c.tier),
    })
}

/// Targets of a plain call `foo()` or `new Foo()`: the resolution's candidates,
/// unless the name is ambiguous at the global tier.
pub open spec fn plain_targets(links: LinkView, s: Seq<SymbolInfo>, name: Seq<char>, from_file: Seq<char>) -> Seq<TargetView> {
    match links.resolution(s, name, from_file) {
        None => Seq::empty(),
        Some(r) => if r.tier == ResolutionTier::Global && r.candidates.len() > 1 {
            Seq::empty()
        } else {
            cand_targets(r.candidates)
        },
    }
}

/// The name of the first type-defining definition.
pub open spec fn first_type_def_name(defs: Seq<SymbolInfo>) -> Option<Seq<char>>
    decreases defs.len(),
{
    if defs.len() == 0 {
        None
    } else if spec_is_type_def(defs[0].label) {
        Some(defs[0].name)
    } else {
        first_type_def_name(defs.drop_first())
    }
}

/// The first declared (return) type among the definitions.
pub open spec fn first_return_type(defs: Seq<SymbolInfo>) -> Option<Seq<char>>
    decreases defs.len(),
{
    if defs.len() == 0 {
        None
    } else if defs[0].return_type is Some {
        defs[0].return_type
    } else {
        first_return_type(defs.drop_first())
    }
}

/// The inferred type of a receiver variable: through its named import (a type
/// it names, or the declared type of what it names), else from a same-file
/// definition's declared type.
pub open spec fn receiver_type(links: LinkView, s: Seq<SymbolInfo>, receiver: Seq<char>, from_file: Seq<char>) -> Option<Seq<char>> {
    let via_import = match links.binding(from_file, receiver) {
        Some(b) => {
            let defs = in_file_named(s, b.0, b.1);
            match first_type_def_name(defs) {
                Some(n) => Some(n),
                None => first_return_type(defs),
            }
        },
        None => None,
    };
    match via_import {
        Some(t) => Some(t),
        None => first_return_type(in_file_named(s, from_file, receiver)),
    }
}

/// The first declared type among definitions is that of the first
/// definition that declares one; there is none when none declares one.
proof fn lemma_first_declared(defs: Seq<SymbolInfo>, k: int)
    requires
        0 <= k <= defs.len(),
        forall|j: int| 0 <= j < k ==> (#[trigger] defs[j]).return_type is None,
    ensures
        k < defs.len() && defs[k].return_type is Some ==> first_return_type(defs) == defs[k].return_type,
        k == defs.len() ==> first_return_type(defs) is None,
    decreases k,
{
    if k > 0 {
        assert forall|j: int| 0 <= j < k - 1 implies (#[trigger] defs.drop_first()[j]).return_type is None by {
            assert(defs.drop_first()[j] == defs[j + 1]);
        }
        lemma_first_declared(defs.drop_first(), k - 1);
        assert(defs[0].return_type is None);
        if k < defs.len() {
            assert(defs.drop_first()[k - 1] == defs[k]);
        }
    }
}

proof fn lemma_no_type_def(defs: Seq<SymbolInfo>)
    requires
        forall|j: int| 0 <= j < defs.len() ==> !spec_is_type_def((#[trigger] defs[j]).label),
    ensures
        first_type_def_name(defs) is None,
    decreases defs.len(),
{
    if defs.len() > 0 {
        assert forall|j: int| 0 <= j < defs.len() - 1 implies !spec_is_type_def((#[trigger] defs.drop_first()[j]).label) by {
            assert(defs.drop_first()[j] == defs[j + 1]);
        }
        lemma_no_type_def(defs.drop_first());
    }
}

/// The type of a receiver that its import does not type (it has no named
/// import, or what it imports is neither a type nor declared with one) is
/// the declared type of its first same-file definition that declares one,
/// and unknown when none does.
pub proof fn lemma_receiver_declared_type(links: LinkView, s: Seq<SymbolInfo>, receiver: Seq<char>, from_file: Seq<char>)
    ensures
        ({
            let d = in_file_named(s, from_file, receiver);
            let untyped_import = match links.binding(from_file, receiver) {
                Some(b) => forall|j: int|
                    0 <= j < in_file_named(s, b.0, b.1).len() ==> !spec_is_type_def(
                        (#[trigger] in_file_named(s, b.0, b.1)[j]).label,
                    ) && in_file_named(s, b.0, b.1)[j].return_type is None,
                None => true,
            };
            untyped_import ==> {
                &&& forall|k: int|
                    0 <= k < d.len() && (#[trigger] d[k]).return_type is Some && (forall|j: int|
                        0 <= j < k ==> (#[trigger] d[j]).return_type is None) ==> receiver_type(links, s, receiver, from_file)
                        == d[k].return_type
                &&& (forall|k: int| 0 <= k < d.len() ==> (#[trigger] d[k]).return_type is None) ==> receiver_type(
                    links,
                    s,
                    receiver,
                    from_file,
                ) is None
            }
        }),
{
    let d = in_file_named(s, from_file, receiver);
    if let Some(b) = links.binding(from_file, receiver) {
        let defs = in_file_named(s, b.0, b.1);
        if forall|j: int| 0 <= j < defs.len() ==> !spec_is_type_def((#[trigger] defs[j]).label) && defs[j].return_type is None {
            lemma_no_type_def(defs);
            lemma_first_declared(defs, defs.len() as int);
        }
    }
    assert forall|k: int|
        0 <= k < d.len() && (#[trigger] d[k]).return_type is Some && (forall|j: int| 0 <= j < k ==> (#[trigger] d[j]).return_type is None)
            implies first_return_type(d) == d[k].return_type by {
        lemma_first_declared(d, k);
    }
    if forall|k: int| 0 <= k < d.len() ==> (#[trigger] d[k]).return_type is None {
        lemma_first_declared(d, d.len() as int);
    }
}

/// Whether `sym` is a method named `method` lying within `type_def`'s lines.
pub open spec fn is_method_of(sym: SymbolInfo, type_def: SymbolInfo, method: Seq<char>) -> bool {
    &&& sym.name == method
    &&& (sym.label == NodeLabel::Method || sym.label == NodeLabel::Function)
    &&& type_def.start_line is Some
    &&& type_def.end_line is Some
    &&& sym.start_line is Some
    &&& type_def.start_line.unwrap() <= sym.start_line.unwrap() <= type_def.end_line.unwrap()
}

/// A method found on the receiver's type.
pub open spec fn typed_target(sym: SymbolInfo) -> TargetView {
    TargetView { target_node_id: sym.node_id, confidence: CONFIDENCE_IMPORT_SCOPED, reason: "receiver-typed method call"@ }
}

/// The methods among `syms` that lie within `type_def`.
pub open spec fn methods_in(syms: Seq<SymbolInfo>, type_def: SymbolInfo, method: Seq<char>) -> Seq<TargetView>
    decreases syms.len(),
{
    if syms.len() == 0 {
        Seq::empty()
    } else {
        let r = methods_in(syms.drop_last(), type_def, method);
        if is_method_of(syms.last(), type_def, method) {
            r.push(typed_target(syms.last()))
        } else {
            r
        }
    }
}

/// The methods named `method` of each definition of the type, in order.
pub open spec fn methods_on_type(s: Seq<SymbolInfo>, type_defs: Seq<SymbolInfo>, method: Seq<char>) -> Seq<TargetView>
    decreases type_defs.len(),
{
    if type_defs.len() == 0 {
        Seq::empty()
    } else {
        methods_on_type(s, type_defs.drop_last(), method) + methods_in(in_file(s, type_defs.last().file_path), type_defs.last(), method)
    }
}

proof fn lemma_methods_in_law(syms: Seq<SymbolInfo>, type_def: SymbolInfo, method: Seq<char>, t: TargetView)
    ensures
        methods_in(syms, type_def, method).contains(t) <==> exists|j: int|
            0 <= j < syms.len() && (#[trigger] syms[j]).name == method && (syms[j].label == NodeLabel::Method
                || syms[j].label == NodeLabel::Function) && type_def.start_line is Some && type_def.end_line is Some
                && syms[j].start_line is Some && type_def.start_line.unwrap() <= syms[j].start_line.unwrap()
                <= type_def.end_line.unwrap() && t == (TargetView {
                target_node_id: syms[j].node_id,
                confidence: 900,
                reason: "receiver-typed method call"@,
            }),
    decreases syms.len(),
{
    if syms.len() > 0 {
        let s0 = syms.drop_last();
        lemma_methods_in_law(s0, type_def, method, t);
        let p = methods_in(s0, type_def, method);
        let r = methods_in(syms, type_def, method);
        if r.contains(t) {
            let i = choose|i: int| 0 <= i < r.len() && r[i] == t;
            if i < p.len() {
                assert(p[i] == t);
                let j = choose|j: int|
                    0 <= j < s0.len() && (#[trigger] s0[j]).name == method && (s0[j].label == NodeLabel::Method
                        || s0[j].label == NodeLabel::Function) && type_def.start_line is Some && type_def.end_line is Some
                        && s0[j].start_line is Some && type_def.start_line.unwrap() <= s0[j].start_line.unwrap()
                        <= type_def.end_line.unwrap() && t == (TargetView {
                        target_node_id: s0[j].node_id,
                        confidence: 900,
                        reason: "receiver-typed method call"@,
                    });
                assert(syms[j] == s0[j]);
            } else {
                assert(syms[syms.len() - 1] == syms.last());
            }
        }
        if exists|j: int|
            0 <= j < syms.len() && (#[trigger] syms[j]).name == method && (syms[j].label == NodeLabel::Method
                || syms[j].label == NodeLabel::Function) && type_def.start_line is Some && type_def.end_line is Some
                && syms[j].start_line is Some && type_def.start_line.unwrap() <= syms[j].start_line.unwrap()
                <= type_def.end_line.unwrap() && t == (TargetView {
                target_node_id: syms[j].node_id,
                confidence: 900,
                reason: "receiver-typed method call"@,
            }) {
            let j = choose|j: int|
                0 <= j < syms.len() && (#[trigger] syms[j]).name == method && (syms[j].label == NodeLabel::Method
                    || syms[j].label == NodeLabel::Function) && type_def.start_line is Some && type_def.end_line is Some
                    && syms[j].start_line is Some && type_def.start_line.unwrap() <= syms[j].start_line.unwrap()
                    <= type_def.end_line.unwrap() && t == (TargetView {
                    target_node_id: syms[j].node_id,
                    confidence: 900,
                    reason: "receiver-typed method call"@,
                });
            if j < syms.len() - 1 {
                assert(s0[j] == syms[j]);
                let i = choose|i: int| 0 <= i < p.len() && p[i] == t;
                assert(r[i] == p[i]);
            } else {
                assert(r[p.len() as int] == t);
            }
        }
    }
}

/// A member call typed by its receiver targets exactly the methods (or
/// functions) with the called name, in the file of one of the type's
/// definitions, that start within that definition's lines: each at 900
/// thousandths, as a receiver-typed method call.
pub proof fn lemma_methods_on_type_law(s: Seq<SymbolInfo>, type_defs: Seq<SymbolInfo>, method: Seq<char>, t: TargetView)
    ensures
        methods_on_type(s, type_defs, method).contains(t) <==> exists|k: int, j: int|
            0 <= k < type_defs.len() && 0 <= j < in_file(s, type_defs[k].file_path).len() && (#[trigger] in_file(
                s,
                (#[trigger] type_defs[k]).file_path,
            )[j]).name == method && (in_file(s, type_defs[k].file_path)[j].label == NodeLabel::Method || in_file(
                s,
                type_defs[k].file_path,
            )[j].label == NodeLabel::Function) && type_defs[k].start_line is Some && type_defs[k].end_line is Some
                && in_file(s, type_defs[k].file_path)[j].start_line is Some && type_defs[k].start_line.unwrap() <= in_file(
                s,
                type_defs[k].file_path,
            )[j].start_line.unwrap() <= type_defs[k].end_line.unwrap() && t == (TargetView {
                target_node_id: in_file(s, type_defs[k].file_path)[j].node_id,
                confidence: 900,
                reason: "receiver-typed method call"@,
            }),
    decreases type_defs.len(),
{
    if type_defs.len() > 0 {
        let t0 = type_defs.drop_last();
        let last = type_defs.last();
        lemma_methods_on_type_law(s, t0, method, t);
        lemma_methods_in_law(in_file(s, last.file_path), last, method, t);
        let p = methods_on_type(s, t0, method);
        let q = methods_in(in_file(s, last.file_path), last, method);
        let r = p + q;
        assert(methods_on_type(s, type_defs, method) == r);
        if r.contains(t) {
            let i = choose|i: int| 0 <= i < r.len() && r[i] == t;
            if i < p.len() {
                assert(p[i] == t);
                assert(p.contains(t));
                let (k, j) = choose|k: int, j: int|
                    0 <= k < t0.len() && 0 <= j < in_file(s, t0[k].file_path).len() && (#[trigger] in_file(
                        s,
                        (#[trigger] t0[k]).file_path,
                    )[j]).name == method && (in_file(s, t0[k].file_path)[j].label == NodeLabel::Method || in_file(
                        s,
                        t0[k].file_path,
                    )[j].label == NodeLabel::Function) && t0[k].start_line is Some && t0[k].end_line is Some
                        && in_file(s, t0[k].file_path)[j].start_line is Some && t0[k].start_line.unwrap() <= in_file(
                        s,
                        t0[k].file_path,
                    )[j].start_line.unwrap() <= t0[k].end_line.unwrap() && t == (TargetView {
                        target_node_id: in_file(s, t0[k].file_path)[j].node_id,
                        confidence: 900,
                        reason: "receiver-typed method call"@,
                    });
                assert(type_defs[k] == t0[k]);
            } else {
                assert(q[i - p.len()] == t);
                assert(q.contains(t));
                assert(type_defs[type_defs.len() - 1] == last);
            }
        }
        if exists|k: int, j: int|
            0 <= k < type_defs.len() && 0 <= j < in_file(s, type_defs[k].file_path).len() && (#[trigger] in_file(
                s,
                (#[trigger] type_defs[k]).file_path,
            )[j]).name == method && (in_file(s, type_defs[k].file_path)[j].label == NodeLabel::Method || in_file(
                s,
                type_defs[k].file_path,
            )[j].label == NodeLabel::Function) && type_defs[k].start_line is Some && type_defs[k].end_line is Some
                && in_file(s, type_defs[k].file_path)[j].start_line is Some && type_defs[k].start_line.unwrap() <= in_file(
                s,
                type_defs[k].file_path,
            )[j].start_line.unwrap() <= type_defs[k].end_line.unwrap() && t == (TargetView {
                target_node_id: in_file(s, type_defs[k].file_path)[j].node_id,
                confidence: 900,
                reason: "receiver-typed method call"@,
            }) {
            let (k, j) = choose|k: int, j: int|
                0 <= k < type_defs.len() && 0 <= j < in_file(s, type_defs[k].file_path).len() && (#[trigger] in_file(
                    s,
                    (#[trigger] type_defs[k]).file_path,
                )[j]).name == method && (in_file(s, type_defs[k].file_path)[j].label == NodeLabel::Method || in_file(
                    s,
                    type_defs[k].file_path,
                )[j].label == NodeLabel::Function) && type_defs[k].start_line is Some && type_defs[k].end_line is Some
                    && in_file(s, type_defs[k].file_path)[j].start_line is Some && type_defs[k].start_line.unwrap() <= in_file(
                    s,
                    type_defs[k].file_path,
                )[j].start_line.unwrap() <= type_defs[k].end_line.unwrap() && t == (TargetView {
                    target_node_id: in_file(s, type_defs[k].file_path)[j].node_id,
                    confidence: 900,
                    reason: "receiver-typed method call"@,
                });
            if k < type_defs.len() - 1 {
                assert(t0[k] == type_defs[k]);
                assert(p.contains(t));
                let i = choose|i: int| 0 <= i < p.len() && p[i] == t;
                assert(r[i] == p[i]);
            } else {
                assert(q.contains(t));
                let i = choose|i: int| 0 <= i < q.len() && q[i] == t;
                assert(r[p.len() + i] == q[i]);
            }
        }
    }
}

/// Whether a target for `id` is already listed.
pub open spec fn has_target(t: Seq<TargetView>, id: Seq<char>) -> bool {
    exists|k: int| 0 <= k < t.len() && t[k].target_node_id == id
}

/// `t` with a dispatch target for each of `defs` not already listed.
pub open spec fn add_dispatch(t: Seq<TargetView>, defs: Seq<SymbolInfo>) -> Seq<TargetView>
    decreases defs.len(),
{
    if defs.len() == 0 {
        t
    } else {
        let prev = add_dispatch(t, defs.drop_last());
        if has_target(prev, defs.last().node_id) {
            prev
        } else {
            prev.push(TargetView {
                target_node_id: defs.last().node_id,
                confidence: CONFIDENCE_INTERFACE_DISPATCH,
                reason: "interface-dispatch"@,
            })
        }
    }
}

/// `t` with the interface-dispatch targets from each implementing file, in order.
pub open spec fn dispatch_files(t: Seq<TargetView>, s: Seq<SymbolInfo>, files: Seq<Seq<char>>, method: Seq<char>) -> Seq<TargetView>
    decreases files.len(),
{
    if files.len() == 0 {
        t
    } else {
        add_dispatch(dispatch_files(t, s, files.drop_last(), method), in_file_named(s, files.last(), method))
    }
}

/// Targets of a method call when nothing was found through the receiver's type:
/// the resolution of the method name, unless ambiguous at the global tier, at
/// four fifths of its confidence.
pub open spec fn untyped_targets(r: Option<TieredView>) -> Seq<TargetView> {
    match r {
        Some(r) => if r.candidates.len() == 1 || r.tier != ResolutionTier::Global {
            r.candidates.map_values(|c: CandidateView| TargetView {
                target_node_id: c.definition.node_id,
                confidence: (c.confidence * 4 / 5) as u32,
                reason: "untyped method call"@,
            })
        } else {
            Seq::empty()
        },
        None => Seq::empty(),
    }
}

/// Targets found through the receiver's inferred type.
pub open spec fn typed_targets(
    links: LinkView,
    s: Seq<SymbolInfo>,
    impls: spec_fn(Seq<char>) -> Seq<Seq<char>>,
    method: Seq<char>,
    receiver: Seq<char>,
    from_file: Seq<char>,
) -> Seq<TargetView> {
    match receiver_type(links, s, receiver, from_file) {
        Some(t) => dispatch_files(methods_on_type(s, exported_named(s, t), method), s, impls(t), method),
        None => Seq::empty(),
    }
}

/// Targets of a member call `receiver.method()`.
pub open spec fn member_targets(
    links: LinkView,
    s: Seq<SymbolInfo>,
    impls: spec_fn(Seq<char>) -> Seq<Seq<char>>,
    method: Seq<char>,
    receiver: Seq<char>,
    from_file: Seq<char>,
) -> Seq<TargetView> {
    let typed = typed_targets(links, s, impls, method, receiver, from_file);
    if typed.len() > 0 {
        typed
    } else {
        untyped_targets(links.resolution(s, method, from_file))
    }
}

/// Targets of one call made in `from_file`.
pub open spec fn call_targets(
    links: LinkView,
    s: Seq<SymbolInfo>,
    impls: spec_fn(Seq<char>) -> Seq<Seq<char>>,
    call_name: Seq<char>,
    receiver: Option<Seq<char>>,
    from_file: Seq<char>,
) -> Seq<TargetView> {
    match receiver {
        Some(r) => member_targets(links, s, impls, call_name, r, from_file),
        None => plain_targets(links, s, call_name, from_file),
    }
}

/// Targets of the calls `calls` made in `from_file`, call by call.
pub open spec fn calls_targets(
    links: LinkView,
    s: Seq<SymbolInfo>,
    impls: spec_fn(Seq<char>) -> Seq<Seq<char>>,
    calls: Seq<ExtractedCall>,
    from_file: Seq<char>,
) -> Seq<TargetView>
    decreases calls.len(),
{
    if calls.len() == 0 {
        Seq::empty()
    } else {
        calls_targets(links, s, impls, calls.drop_last(), from_file) + call_targets(
            links,
            s,
            impls,
            calls.last().callee_name@,
            match calls.last().receiver {
                Some(r) => Some(r@),
                None => None,
            },
            from_file,
        )
    }
}

/// The targets of a plain call given what resolving its name answered:
/// none when unresolved or ambiguous among several global candidates.
pub open spec fn plain_from(a: Option<TieredView>) -> Seq<TargetView> {
    match a {
        None => Seq::empty(),
        Some(r) => if r.tier == ResolutionTier::Global && r.candidates.len() > 1 {
            Seq::empty()
        } else {
            cand_targets(r.candidates)
        },
    }
}

/// The targets of one call made in `from_file`, with the context's cache `c`
/// (a cached answer is used as it is, a fresh one is recorded), and the
/// cache after: a member call resolves its name only when the receiver's
/// type gives no target.
pub open spec fn call_targets_cached(
    links: LinkView,
    s: Seq<SymbolInfo>,
    impls: spec_fn(Seq<char>) -> Seq<Seq<char>>,
    c: spec_fn(Seq<char>, Seq<char>) -> Option<Option<TieredView>>,
    call_name: Seq<char>,
    receiver: Option<Seq<char>>,
    from_file: Seq<char>,
) -> (Seq<TargetView>, spec_fn(Seq<char>, Seq<char>) -> Option<Option<TieredView>>) {
    let a = answer_with_cache(links, s, c, call_name, from_file);
    let c2 = cache_after(c, from_file, call_name, a);
    match receiver {
        Some(r) => {
            let typed = typed_targets(links, s, impls, call_name, r, from_file);
            if typed.len() > 0 {
                (typed, c)
            } else {
                (untyped_targets(a), c2)
            }
        },
        None => (plain_from(a), c2),
    }
}

/// The targets of the calls `calls` made in `from_file`, call by call,
/// through the context's cache `c`, with the cache after.
pub open spec fn calls_targets_cached(
    links: LinkView,
    s: Seq<SymbolInfo>,
    impls: spec_fn(Seq<char>) -> Seq<Seq<char>>,
    c: spec_fn(Seq<char>, Seq<char>) -> Option<Option<TieredView>>,
    calls: Seq<ExtractedCall>,
    from_file: Seq<char>,
) -> (Seq<TargetView>, spec_fn(Seq<char>, Seq<char>) -> Option<Option<TieredView>>)
    decreases calls.len(),
{
    if calls.len() == 0 {
        (Seq::empty(), c)
    } else {
        let (prev, c1) = calls_targets_cached(links, s, impls, c, calls.drop_last(), from_file);
        let (t, c2) = call_targets_cached(
            links,
            s,
            impls,
            c1,
            calls.last().callee_name@,
            match calls.last().receiver {
                Some(r) => Some(r@),
                None => None,
            },
            from_file,
        );
        (prev + t, c2)
    }
}

/// A plain call whose name resolves only globally, to more than one
/// candidate, is refused: it has no target.
pub proof fn lemma_ambiguous_global_call_refused(
    links: LinkView,
    s: Seq<SymbolInfo>,
    impls: spec_fn(Seq<char>) -> Seq<Seq<char>>,
    call_name: Seq<char>,
    from_file: Seq<char>,
)
    requires
        links.resolution(s, call_name, from_file) matches Some(r) && r.tier == ResolutionTier::Global && r.candidates.len() > 1,
    ensures
        call_targets(links, s, impls, call_name, None, from_file).len() == 0,
        plain_from(links.resolution(s, call_name, from_file)).len() == 0,
{
}

/// The calls of `a` then of `b` have the targets of `a`'s calls followed by
/// those of `b`'s.
pub proof fn lemma_calls_targets_concat(
    links: LinkView,
    s: Seq<SymbolInfo>,
    impls: spec_fn(Seq<char>) -> Seq<Seq<char>>,
    a: Seq<ExtractedCall>,
    b: Seq<ExtractedCall>,
    from_file: Seq<char>,
)
    ensures
        calls_targets(links, s, impls, a + b, from_file) == calls_targets(links, s, impls, a, from_file) + calls_targets(
            links,
            s,
            impls,
            b,
            from_file,
        ),
    decreases b.len(),
{
    if b.len() == 0 {
        assert(a + b =~= a);
        assert(calls_targets(links, s, impls, a, from_file) + Seq::<TargetView>::empty() =~= calls_targets(links, s, impls, a, from_file));
    } else {
        lemma_calls_targets_concat(links, s, impls, a, b.drop_last(), from_file);
        assert((a + b).drop_last() =~= a + b.drop_last());
        assert((a + b).last() == b.last());
        let x = calls_targets(links, s, impls, a, from_file);
        let y = calls_targets(links, s, impls, b.drop_last(), from_file);
        let z = call_targets(
            links,
            s,
            impls,
            b.last().callee_name@,
            match b.last().receiver {
                Some(r) => Some(r@),
                None => None,
            },
            from_file,
        );
        assert((x + y) + z =~= x + (y + z));
    }
}

/// The same through the context's cache: `b`'s calls are resolved with the
/// cache as `a`'s calls left it.
pub proof fn lemma_calls_targets_cached_concat(
    links: LinkView,
    s: Seq<SymbolInfo>,
    impls: spec_fn(Seq<char>) -> Seq<Seq<char>>,
    c: spec_fn(Seq<char>, Seq<char>) -> Option<Option<TieredView>>,
    a: Seq<ExtractedCall>,
    b: Seq<ExtractedCall>,
    from_file: Seq<char>,
)
    ensures
        ({
            let (ta, ca) = calls_targets_cached(links, s, impls, c, a, from_file);
            let (tb, cb) = calls_targets_cached(links, s, impls, ca, b, from_file);
            calls_targets_cached(links, s, impls, c, a + b, from_file) == (ta + tb, cb)
        }),
    decreases b.len(),
{
    let (ta, ca) = calls_targets_cached(links, s, impls, c, a, from_file);
    if b.len() == 0 {
        assert(a + b =~= a);
        assert(ta + Seq::<TargetView>::empty() =~= ta);
    } else {
        lemma_calls_targets_cached_concat(links, s, impls, c, a, b.drop_last(), from_file);
        assert((a + b).drop_last() =~= a + b.drop_last());
        assert((a + b).last() == b.last());
        let (tb1, cb1) = calls_targets_cached(links, s, impls, ca, b.drop_last(), from_file);
        let (t, c2) = call_targets_cached(
            links,
            s,
            impls,
            cb1,
            b.last().callee_name@,
            match b.last().receiver {
                Some(r) => Some(r@),
                None => None,
            },
            from_file,
        );
        assert((ta + tb1) + t =~= ta + (tb1 + t));
    }
}

fn first_type_def_name_exec(defs: &Vec<SymbolDefinition>) -> (r: Option<String>)
    ensures
        opt_str_view(r) == first_type_def_name(defs_view(defs@)),
{
    let ghost s = defs_view(defs@);
    let mut i: usize = 0;
    assert(s.subrange(0, s.len() as int) =~= s);
    while i < defs.len()
        invariant
            s == defs_view(defs@),
            i <= s.len(),
            first_type_def_name(s) == first_type_def_name(s.subrange(i as int, s.len() as int)),
        decreases defs.len() - i,
    {
        assert(s.subrange(i as int, s.len() as int)[0] == defs@[i as int]@);
        assert(s.subrange(i as int, s.len() as int).drop_first() =~= s.subrange(i + 1, s.len() as int));
        if defs[i].label.is_type_def() {
            return Some(defs[i].name.clone());
        }
        i = i + 1;
    }
    None
}

fn first_return_type_exec(defs: &Vec<SymbolDefinition>) -> (r: Option<String>)
    ensures
        opt_str_view(r) == first_return_type(defs_view(defs@)),
{
    let ghost s = defs_view(defs@);
    let mut i: usize = 0;
    assert(s.subrange(0, s.len() as int) =~= s);
    while i < defs.len()
        invariant
            s == defs_view(defs@),
            i <= s.len(),
            first_return_type(s) == first_return_type(s.subrange(i as int, s.len() as int)),
        decreases defs.len() - i,
    {
        assert(s.subrange(i as int, s.len() as int)[0] == defs@[i as int]@);
        assert(s.subrange(i as int, s.len() as int).drop_first() =~= s.subrange(i + 1, s.len() as int));
        match &defs[i].return_type {
            Some(dt) => {
                return Some(dt.clone());
            },
            None => {},
        }
        i = i + 1;
    }
    None
}

/// The view of an optional string.
pub open spec fn opt_str_view(o: Option<String>) -> Option<Seq<char>> {
    match o {
        Some(s) => Some(s@),
        None => None,
    }
}

fn is_method_of_exec(sym: &SymbolDefinition, type_def: &SymbolDefinition, method: &str) -> (r: bool)
    ensures
        r == is_method_of(sym@, type_def@, method@),
{
    if !str_eq(sym.name.as_str(), method) {
        return false;
    }
    if !(sym.label == NodeLabel::Method || sym.label == NodeLabel::Function) {
        return false;
    }
    match (type_def.start_line, type_def.end_line, sym.start_line) {
        (Some(type_start), Some(type_end), Some(method_start)) => method_start >= type_start && method_start <= type_end,
        _ => false,
    }
}

fn has_target_exec(targets: &Vec<ResolvedCallTarget>, id: &str) -> (r: bool)
    ensures
        r == has_target(targets_view(targets@), id@),
{
    let ghost t = targets_view(targets@);
    let mut i: usize = 0;
    while i < targets.len()
        invariant
            t == targets_view(targets@),
            i <= t.len(),
            forall|k: int| 0 <= k < i ==> t[k].target_node_id != id@,
        decreases targets.len() - i,
    {
        if str_eq(targets[i].target_node_id.as_str(), id) {
            assert(t[i as int].target_node_id == id@);
            return true;
        }
        i = i + 1;
    }
    false
}

/// The call resolver: resolves function/method calls to their target definitions.
///
/// Handles same-file calls, cross-file calls via import resolution, method
/// calls with receiver-type filtering, constructor calls and interface dispatch.
pub struct CallResolver;

impl CallResolver {
    /// Resolve all calls in a file to their target definitions.
    ///
    /// Returns the targets that should become CALLS edges, call by call. When
    /// the context's cache agrees with the current links and symbols (as after
    /// `ResolutionContext::new` or `clear_cache`), the targets are exactly those
    /// that the links and symbols give.
    pub fn resolve_calls(
        calls: &[ExtractedCall],
        file_path: &str,
        ctx: &mut ResolutionContext,
        symbols: &SymbolTable,
        implementor_map: &ImplementorMap,
    ) -> (r: Vec<ResolvedCallTarget>)
        requires
            implementor_map.wf(),
        ensures
            final(ctx).links() == old(ctx).links(),
            old(ctx).cache_consistent(symbols@) ==> final(ctx).cache_consistent(symbols@) && targets_view(r@)
                == calls_targets(old(ctx).links(), symbols@, |t: Seq<char>| implementor_map.files_of(t), calls@, file_path@),
            ({
                let (ts, c) = calls_targets_cached(
                    old(ctx).links(),
                    symbols@,
                    |t: Seq<char>| implementor_map.files_of(t),
                    |f: Seq<char>, n: Seq<char>| old(ctx).cached(f, n),
                    calls@,
                    file_path@,
                );
                &&& targets_view(r@) == ts
                &&& forall|f: Seq<char>, n: Seq<char>| #[trigger] final(ctx).cached(f, n) == c(f, n)
            }),
    {
        let ghost impls = |t: Seq<char>| implementor_map.files_of(t);
        let ghost links = ctx.links();
        let ghost consistent = ctx.cache_consistent(symbols@);
        let ghost c0 = |f: Seq<char>, n: Seq<char>| ctx.cached(f, n);
        let mut results: Vec<ResolvedCallTarget> = Vec::new();
        let mut i: usize = 0;
        while i < calls.len()
            invariant
                implementor_map.wf(),
                impls == (|t: Seq<char>| implementor_map.files_of(t)),
                links == ctx.links(),
                i <= calls@.len(),
                consistent ==> ctx.cache_consistent(symbols@) && targets_view(results@) == calls_targets(
                    links,
                    symbols@,
                    impls,
                    calls@.subrange(0, i as int),
                    file_path@,
                ),
                consistent == old(ctx).cache_consistent(symbols@),
                links == old(ctx).links(),
                c0 == (|f: Seq<char>, n: Seq<char>| old(ctx).cached(f, n)),
                targets_view(results@) == calls_targets_cached(links, symbols@, impls, c0, calls@.subrange(0, i as int), file_path@).0,
                forall|f: Seq<char>, n: Seq<char>| #[trigger] ctx.cached(f, n) == (calls_targets_cached(
                    links,
                    symbols@,
                    impls,
                    c0,
                    calls@.subrange(0, i as int),
                    file_path@,
                ).1)(f, n),
            decreases calls.len() - i,
        {
            let targets = Self::resolve_single_call(&calls[i], file_path, ctx, symbols, implementor_map);
            let ghost before = results@;
            let mut k: usize = 0;
            while k < targets.len()
                invariant
                    k <= targets@.len(),
                    targets_view(results@) == targets_view(before) + targets_view(targets@.subrange(0, k as int)),
                decreases targets.len() - k,
            {
                let ghost b2 = results@;
                let t = ResolvedCallTarget {
                    target_node_id: targets[k].target_node_id.clone(),
                    confidence: targets[k].confidence,
                    reason: targets[k].reason.clone(),
                };
                results.push(t);
                assert(targets_view(results@) =~= targets_view(b2).push(targets@[k as int]@));
                assert(targets_view(targets@.subrange(0, k + 1)) =~= targets_view(targets@.subrange(0, k as int)).push(targets@[k as int]@));
                k = k + 1;
            }
            assert(targets@.subrange(0, targets@.len() as int) =~= targets@);
            assert(calls@.subrange(0, i + 1).drop_last() =~= calls@.subrange(0, i as int));
            assert(calls@.subrange(0, i + 1).last() == calls@[i as int]);
            i = i + 1;
        }
        assert(calls@.subrange(0, calls@.len() as int) =~= calls@);
        results
    }

    fn resolve_single_call(
        call: &ExtractedCall,
        file_path: &str,
        ctx: &mut ResolutionContext,
        symbols: &SymbolTable,
        implementor_map: &ImplementorMap,
    ) -> (r: Vec<ResolvedCallTarget>)
        requires
            implementor_map.wf(),
        ensures
            final(ctx).links() == old(ctx).links(),
            old(ctx).cache_consistent(symbols@) ==> final(ctx).cache_consistent(symbols@) && targets_view(r@)
                == call_targets(
                old(ctx).links(),
                symbols@,
                |t: Seq<char>| implementor_map.files_of(t),
                call.callee_name@,
                match call.receiver {
                    Some(x) => Some(x@),
                    None => None,
                },
                file_path@,
            ),
            ({
                let (ts, c) = call_targets_cached(
                    old(ctx).links(),
                    symbols@,
                    |t: Seq<char>| implementor_map.files_of(t),
                    |f: Seq<char>, n: Seq<char>| old(ctx).cached(f, n),
                    call.callee_name@,
                    match call.receiver {
                        Some(x) => Some(x@),
                        None => None,
                    },
                    file_path@,
                );
                &&& targets_view(r@) == ts
                &&& forall|f: Seq<char>, n: Seq<char>| #[trigger] final(ctx).cached(f, n) == c(f, n)
            }),
    {
        let callee_name = call.callee_name.as_str();
        // For method calls with a receiver (obj.method()), try receiver-type resolution
        match &call.receiver {
            Some(receiver) => Self::resolve_member_call(callee_name, receiver.as_str(), file_path, ctx, symbols, implementor_map),
            None => Self::resolve_plain_call(callee_name, file_path, ctx, symbols),
        }
    }

    fn candidates_to_targets(r: &TieredResult) -> (out: Vec<ResolvedCallTarget>)
        ensures
            targets_view(out@) == cand_targets(r@.candidates),
    {
        let ghost cs = r@.candidates;
        let mut out: Vec<ResolvedCallTarget> = Vec::new();
        let mut i: usize = 0;
        while i < r.candidates.len()
            invariant
                cs == r@.candidates,
                i <= cs.len(),
                targets_view(out@) == cand_targets(cs.subrange(0, i as int)),
            decreases r.candidates.len() - i,
        {
            let c = &r.candidates[i];
            let reason = match c.tier {
                ResolutionTier::SameFile => "same-file call",
                ResolutionTier::ImportScoped => "import-scoped call",
                ResolutionTier::Global => "global call",
            };
            let ghost before = out@;
            let t = ResolvedCallTarget {
                target_node_id: c.definition.node_id.clone(),
                confidence: c.confidence,
                reason: string_of(&chars_of(reason)),
            };
            out.push(t);
            assert(cs[i as int] == c@);
            assert(targets_view(out@) =~= targets_view(before).push(t@));
            assert(cand_targets(cs.subrange(0, i + 1)) =~= cand_targets(cs.subrange(0, i as int)).push(t@));
            i = i + 1;
        }
        assert(cs.subrange(0, cs.len() as int) =~= cs);
        out
    }

    /// Resolve a plain function call: `foo()` or `new Foo()`.
    fn resolve_plain_call(name: &str, from_file: &str, ctx: &mut ResolutionContext, symbols: &SymbolTable) -> (r: Vec<ResolvedCallTarget>)
        ensures
            final(ctx).links() == old(ctx).links(),
            old(ctx).cache_consistent(symbols@) ==> final(ctx).cache_consistent(symbols@) && targets_view(r@)
                == plain_targets(old(ctx).links(), symbols@, name@, from_file@),
            ({
                let a = answer_with_cache(
                    old(ctx).links(),
                    symbols@,
                    |f: Seq<char>, n: Seq<char>| old(ctx).cached(f, n),
                    name@,
                    from_file@,
                );
                &&& targets_view(r@) == plain_from(a)
                &&& forall|f: Seq<char>, n: Seq<char>| #[trigger] final(ctx).cached(f, n) == (if f == from_file@ && n
                    == name@ {
                    Some(a)
                } else {
                    old(ctx).cached(f, n)
                })
            }),
    {
        let resolved = match ctx.resolve(name, from_file, symbols) {
            Some(r) => r,
            None => {
                let out: Vec<ResolvedCallTarget> = Vec::new();
                assert(targets_view(out@) =~= Seq::<TargetView>::empty());
                return out;
            },
        };
        // For global tier with multiple candidates, refuse (ambiguous)
        if resolved.tier == ResolutionTier::Global && resolved.candidates.len() > 1 {
            let out: Vec<ResolvedCallTarget> = Vec::new();
            assert(targets_view(out@) =~= Seq::<TargetView>::empty());
            return out;
        }
        Self::candidates_to_targets(&resolved)
    }

    /// Infer the type of a receiver variable: through named import bindings,
    /// else from same-file definitions' declared types.
    fn infer_receiver_type(receiver_name: &str, from_file: &str, ctx: &ResolutionContext, symbols: &SymbolTable) -> (r: Option<String>)
        ensures
            opt_str_view(r) == receiver_type(ctx.links(), symbols@, receiver_name@, from_file@),
            ctx.links().binding(from_file@, receiver_name@) is None ==> forall|k: int|
                0 <= k < in_file_named(symbols@, from_file@, receiver_name@).len() && (#[trigger] in_file_named(
                    symbols@,
                    from_file@,
                    receiver_name@,
                )[k]).return_type is Some && (forall|j: int|
                    0 <= j < k ==> (#[trigger] in_file_named(symbols@, from_file@, receiver_name@)[j]).return_type is None)
                    ==> opt_str_view(r) == in_file_named(symbols@, from_file@, receiver_name@)[k].return_type,
    {
        proof {
            lemma_receiver_declared_type(ctx.links(), symbols@, receiver_name@, from_file@);
        }
        // Check named import: if `receiver_name` was imported, get its type
        match ctx.binding_of(from_file, receiver_name) {
            Some(binding) => {
                let defs = symbols.lookup_in_file(binding.source_path.as_str(), binding.exported_name.as_str());
                // The imported name IS a type (class/interface)
                match first_type_def_name_exec(&defs) {
                    Some(n) => return Some(n),
                    None => {},
                }
                // If it's an instance, check the declared type
                match first_return_type_exec(&defs) {
                    Some(t) => return Some(t),
                    None => {},
                }
            },
            None => {},
        }
        // Check same-file definitions for type annotation
        let local_defs = symbols.lookup_in_file(from_file, receiver_name);
        first_return_type_exec(&local_defs)
    }

    /// Find methods with a given name on a type (class/interface/struct):
    /// the methods of its files that lie within one of its definitions.
    fn find_methods_on_type(type_ident: &str, method_name: &str, symbols: &SymbolTable) -> (r: Vec<ResolvedCallTarget>)
        ensures
            targets_view(r@) == methods_on_type(symbols@, exported_named(symbols@, type_ident@), method_name@),
    {
        let type_defs = symbols.lookup_exported(type_ident);
        let ghost tds = defs_view(type_defs@);
        let mut results: Vec<ResolvedCallTarget> = Vec::new();
        let mut i: usize = 0;
        while i < type_defs.len()
            invariant
                tds == defs_view(type_defs@),
                tds == exported_named(symbols@, type_ident@),
                i <= tds.len(),
                targets_view(results@) == methods_on_type(symbols@, tds.subrange(0, i as int), method_name@),
            decreases type_defs.len() - i,
        {
            let type_def = &type_defs[i];
            assert(tds.subrange(0, i + 1).drop_last() =~= tds.subrange(0, i as int));
            assert(tds.subrange(0, i + 1).last() == type_def@);
            let file_symbols = symbols.symbols_in_file(type_def.file_path.as_str());
            let ghost fs = defs_view(file_symbols@);
            let ghost before = targets_view(results@);
            let mut k: usize = 0;
            while k < file_symbols.len()
                invariant
                    fs == defs_view(file_symbols@),
                    k <= fs.len(),
                    targets_view(results@) == before + methods_in(fs.subrange(0, k as int), type_def@, method_name@),
                decreases file_symbols.len() - k,
            {
                let sym = &file_symbols[k];
                assert(fs.subrange(0, k + 1).drop_last() =~= fs.subrange(0, k as int));
                assert(fs.subrange(0, k + 1).last() == sym@);
                if is_method_of_exec(sym, type_def, method_name) {
                    let ghost b2 = results@;
                    let t = ResolvedCallTarget {
                        target_node_id: sym.node_id.clone(),
                        confidence: CONFIDENCE_IMPORT_SCOPED,
                        reason: string_of(&chars_of("receiver-typed method call")),
                    };
                    results.push(t);
                    assert(targets_view(results@) =~= targets_view(b2).push(t@));
                }
                k = k + 1;
            }
            assert(fs.subrange(0, fs.len() as int) =~= fs);
            i = i + 1;
        }
        assert(tds.subrange(0, tds.len() as int) =~= tds);
        results
    }

    /// Resolve a member call `obj.method()`: find `method` on the inferred type
    /// of `obj`, with its implementations when the type is an interface; else
    /// fall back to resolving the method name itself.
    fn resolve_member_call(
        method_name: &str,
        receiver_name: &str,
        from_file: &str,
        ctx: &mut ResolutionContext,
        symbols: &SymbolTable,
        implementor_map: &ImplementorMap,
    ) -> (r: Vec<ResolvedCallTarget>)
        requires
            implementor_map.wf(),
        ensures
            final(ctx).links() == old(ctx).links(),
            old(ctx).cache_consistent(symbols@) ==> final(ctx).cache_consistent(symbols@) && targets_view(r@)
                == member_targets(
                old(ctx).links(),
                symbols@,
                |t: Seq<char>| implementor_map.files_of(t),
                method_name@,
                receiver_name@,
                from_file@,
            ),
            ({
                let (ts, c) = call_targets_cached(
                    old(ctx).links(),
                    symbols@,
                    |t: Seq<char>| implementor_map.files_of(t),
                    |f: Seq<char>, n: Seq<char>| old(ctx).cached(f, n),
                    method_name@,
                    Some(receiver_name@),
                    from_file@,
                );
                &&& targets_view(r@) == ts
                &&& forall|f: Seq<char>, n: Seq<char>| #[trigger] final(ctx).cached(f, n) == c(f, n)
            }),
    {
        let ghost impls = |t: Seq<char>| implementor_map.files_of(t);
        let mut targets: Vec<ResolvedCallTarget> = Vec::new();
        // Strategy 1: Receiver is a known imported name: look up its type
        let receiver_type_opt = Self::infer_receiver_type(receiver_name, from_file, ctx, symbols);
        match receiver_type_opt {
            Some(type_ident) => {
                // Find the method on the resolved type
                targets = Self::find_methods_on_type(type_ident.as_str(), method_name, symbols);
                let ghost base = targets_view(targets@);
                // Interface dispatch: if the type is an interface, find implementations
                let impl_files = implementor_map.get(type_ident.as_str());
                let ghost files = impl_files@.map_values(|x: String| x@);
                let mut f: usize = 0;
                while f < impl_files.len()
                    invariant
                        files == impl_files@.map_values(|x: String| x@),
                        f <= files.len(),
                        targets_view(targets@) == dispatch_files(base, symbols@, files.subrange(0, f as int), method_name@),
                    decreases impl_files.len() - f,
                {
                    assert(files.subrange(0, f + 1).drop_last() =~= files.subrange(0, f as int));
                    assert(files.subrange(0, f + 1).last() == impl_files@[f as int]@);
                    let impl_methods = symbols.lookup_in_file(impl_files[f].as_str(), method_name);
                    let ghost ds = defs_view(impl_methods@);
                    let ghost start = targets_view(targets@);
                    let mut k: usize = 0;
                    while k < impl_methods.len()
                        invariant
                            ds == defs_view(impl_methods@),
                            k <= ds.len(),
                            targets_view(targets@) == add_dispatch(start, ds.subrange(0, k as int)),
                        decreases impl_methods.len() - k,
                    {
                        let def = &impl_methods[k];
                        assert(ds.subrange(0, k + 1).drop_last() =~= ds.subrange(0, k as int));
                        assert(ds.subrange(0, k + 1).last() == def@);
                        // Avoid duplicates
                        if !has_target_exec(&targets, def.node_id.as_str()) {
                            let ghost b2 = targets@;
                            let t = ResolvedCallTarget {
                                target_node_id: def.node_id.clone(),
                                confidence: CONFIDENCE_INTERFACE_DISPATCH,
                                reason: string_of(&chars_of("interface-dispatch")),
                            };
                            targets.push(t);
                            assert(targets_view(targets@) =~= targets_view(b2).push(t@));
                        }
                        k = k + 1;
                    }
                    assert(ds.subrange(0, ds.len() as int) =~= ds);
                    f = f + 1;
                }
                assert(files.subrange(0, files.len() as int) =~= files);
            },
            None => {
                assert(targets_view(targets@) =~= Seq::<TargetView>::empty());
            },
        }
        assert(targets_view(targets@) == typed_targets(ctx.links(), symbols@, impls, method_name@, receiver_name@, from_file@));
        // Strategy 2: Fall back to resolving the method name globally
        if targets.len() == 0 {
            let resolved = ctx.resolve(method_name, from_file, symbols);
            match resolved {
                Some(r) => {
                    if r.is_unique() || r.tier != ResolutionTier::Global {
                        let ghost cs = r@.candidates;
                        let mut i: usize = 0;
                        let ghost empty = targets@;
                        while i < r.candidates.len()
                            invariant
                                cs == r@.candidates,
                                i <= cs.len(),
                                targets_view(targets@) == cs.subrange(0, i as int).map_values(|c: CandidateView| TargetView {
                                    target_node_id: c.definition.node_id,
                                    confidence: (c.confidence * 4 / 5) as u32,
                                    reason: "untyped method call"@,
                                }),
                            decreases r.candidates.len() - i,
                        {
                            let c = &r.candidates[i];
                            assert(cs[i as int] == c@);
                            let ghost b2 = targets@;
                            let cc = c.confidence;
                            assert(cc / 5 * 4 + (cc % 5) * 4 / 5 == cc * 4 / 5) by (nonlinear_arith);
                            let t = ResolvedCallTarget {
                                target_node_id: c.definition.node_id.clone(),
                                confidence: cc / 5 * 4 + (cc % 5) * 4 / 5,
                                reason: string_of(&chars_of("untyped method call")),
                            };
                            targets.push(t);
                            assert(targets_view(targets@) =~= targets_view(b2).push(t@));
                            i = i + 1;
                        }
                        assert(cs.subrange(0, cs.len() as int) =~= cs);
                    }
                },
                None => {},
            }
        }
        targets
    }
}

} // verus!
