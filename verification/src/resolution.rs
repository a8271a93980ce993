//! Tiered symbol resolution: which definition a name used in a file refers to.
//!
//! Resolution order: the same file; the named-import binding chain; the files
//! the file imports; a module alias; finally every definition of the name.

use vstd::prelude::*;
use crate::text::str_eq;
use crate::symbol_table::{
    defs_view, in_file_named, named, SymbolDefinition, SymbolInfo, SymbolTable,
};

verus! {

/// Confidence of a same-file match, in thousandths.
pub const CONFIDENCE_SAME_FILE: u32 = 950;
/// Confidence of an import-scoped match, in thousandths.
pub const CONFIDENCE_IMPORT_SCOPED: u32 = 900;
/// Confidence of a global match, in thousandths.
pub const CONFIDENCE_GLOBAL: u32 = 500;
/// Confidence of a match through interface dispatch, in thousandths.
pub const CONFIDENCE_INTERFACE_DISPATCH: u32 = 700;

/// How a name was resolved.
#[derive(Debug, Clone, Copy, PartialEq, Eq, Structural)]
pub enum ResolutionTier {
    SameFile,
    ImportScoped,
    Global,
}

/// The confidence of a tier, in thousandths.
pub open spec fn tier_confidence(t: ResolutionTier) -> u32 {
    match t {
        ResolutionTier::SameFile => CONFIDENCE_SAME_FILE,
        ResolutionTier::ImportScoped => CONFIDENCE_IMPORT_SCOPED,
        ResolutionTier::Global => CONFIDENCE_GLOBAL,
    }
}

/// The confidence of each tier: 0.95 for a same-file definition, 0.9 for
/// an imported one, 0.5 for a global guess; a nearer tier is always the
/// more confident.
pub proof fn lemma_tier_confidences()
    ensures
        tier_confidence(ResolutionTier::SameFile) == 950,
        tier_confidence(ResolutionTier::ImportScoped) == 900,
        tier_confidence(ResolutionTier::Global) == 500,
{
}

impl ResolutionTier {
    /// The tier's confidence, in thousandths (0.95, 0.9 and 0.5).
    pub fn confidence(&self) -> (r: u32)
        ensures
            r == tier_confidence(*self),
    {
        match self {
            ResolutionTier::SameFile => CONFIDENCE_SAME_FILE,
            ResolutionTier::ImportScoped => CONFIDENCE_IMPORT_SCOPED,
            ResolutionTier::Global => CONFIDENCE_GLOBAL,
        }
    }
}

/// The content of a resolved candidate.
pub struct CandidateView {
    pub definition: SymbolInfo,
    pub tier: ResolutionTier,
    pub confidence: u32,
}

/// A resolved symbol candidate with its confidence tier.
#[derive(Debug, Clone)]
pub struct ResolvedCandidate {
    pub definition: SymbolDefinition,
    pub tier: ResolutionTier,
    /// Confidence in thousandths.
    pub confidence: u32,
}

impl View for ResolvedCandidate {
    type V = CandidateView;

    open spec fn view(&self) -> CandidateView {
        CandidateView { definition: self.definition@, tier: self.tier, confidence: self.confidence }
    }
}

/// The content of a tiered result.
pub struct TieredView {
    pub candidates: Seq<CandidateView>,
    pub tier: ResolutionTier,
}

/// Result of a tiered resolution lookup.
#[derive(Debug, Clone)]
pub struct TieredResult {
    pub candidates: Vec<ResolvedCandidate>,
    pub tier: ResolutionTier,
}

impl View for TieredResult {
    type V = TieredView;

    open spec fn view(&self) -> TieredView {
        TieredView {
            candidates: self.candidates@.map_values(|c: ResolvedCandidate| c@),
            tier: self.tier,
        }
    }
}

/// The result made of `defs`, each a candidate of tier `t`.
pub open spec fn tiered(defs: Seq<SymbolInfo>, t: ResolutionTier) -> TieredView {
    TieredView {
        candidates: defs.map_values(
            |d: SymbolInfo| CandidateView { definition: d, tier: t, confidence: tier_confidence(t) },
        ),
        tier: t,
    }
}

/// The view of an optional result.
pub open spec fn opt_tiered_view(o: Option<TieredResult>) -> Option<TieredView> {
    match o {
        Some(r) => Some(r@),
        None => None,
    }
}

fn make_tiered(defs: Vec<SymbolDefinition>, t: ResolutionTier) -> (r: TieredResult)
    ensures
        r@ == tiered(defs_view(defs@), t),
{
    let mut cands: Vec<ResolvedCandidate> = Vec::new();
    let mut i: usize = 0;
    let conf = t.confidence();
    while i < defs.len()
        invariant
            i <= defs@.len(),
            conf == tier_confidence(t),
            cands@.map_values(|c: ResolvedCandidate| c@) == tiered(defs_view(defs@.subrange(0, i as int)), t).candidates,
        decreases defs.len() - i,
    {
        let ghost before = cands@;
        let c = ResolvedCandidate { definition: defs[i].duplicate(), tier: t, confidence: conf };
        let ghost cv = c@;
        cands.push(c);
        assert(cands@.map_values(|c: ResolvedCandidate| c@) =~= before.map_values(|c: ResolvedCandidate| c@).push(cv));
        assert(defs_view(defs@.subrange(0, i + 1)) =~= defs_view(defs@.subrange(0, i as int)).push(defs@[i as int]@));
        assert(tiered(defs_view(defs@.subrange(0, i + 1)), t).candidates =~= tiered(defs_view(defs@.subrange(0, i as int)), t).candidates.push(cv));
        i = i + 1;
    }
    assert(defs@.subrange(0, defs@.len() as int) =~= defs@);
    TieredResult { candidates: cands, tier: t }
}

impl ResolvedCandidate {
    /// A copy of this candidate.
    pub fn duplicate(&self) -> (r: ResolvedCandidate)
        ensures
            r@ == self@,
    {
        ResolvedCandidate { definition: self.definition.duplicate(), tier: self.tier, confidence: self.confidence }
    }
}

impl TieredResult {
    /// Get the best (highest confidence) candidate: the first.
    pub fn best(&self) -> (r: Option<&ResolvedCandidate>)
        ensures
            match r {
                Some(c) => self.candidates@.len() > 0 && c@ == self@.candidates[0],
                None => self.candidates@.len() == 0,
            },
    {
        if self.candidates.len() > 0 {
            Some(&self.candidates[0])
        } else {
            None
        }
    }

    /// Whether this result is unambiguous (exactly one candidate).
    pub fn is_unique(&self) -> (r: bool)
        ensures
            r == (self@.candidates.len() == 1),
    {
        self.candidates.len() == 1
    }

    /// A copy of this result.
    pub fn duplicate(&self) -> (r: TieredResult)
        ensures
            r@ == self@,
    {
        let mut cands: Vec<ResolvedCandidate> = Vec::new();
        let mut i: usize = 0;
        while i < self.candidates.len()
            invariant
                i <= self.candidates@.len(),
                cands@.map_values(|c: ResolvedCandidate| c@) == self.candidates@.subrange(0, i as int).map_values(|c: ResolvedCandidate| c@),
            decreases self.candidates.len() - i,
        {
            let ghost before = cands@;
            let c = self.candidates[i].duplicate();
            let ghost cv = c@;
            cands.push(c);
            assert(cands@.map_values(|c: ResolvedCandidate| c@) =~= before.map_values(|c: ResolvedCandidate| c@).push(cv));
            assert(self.candidates@.subrange(0, i + 1).map_values(|c: ResolvedCandidate| c@) =~= self.candidates@.subrange(0, i as int).map_values(|c: ResolvedCandidate| c@).push(cv));
            i = i + 1;
        }
        assert(self.candidates@.subrange(0, self.candidates@.len() as int) =~= self.candidates@);
        TieredResult { candidates: cands, tier: self.tier }
    }
}

fn duplicate_opt(o: &Option<TieredResult>) -> (r: Option<TieredResult>)
    ensures
        opt_tiered_view(r) == opt_tiered_view(*o),
{
    match o {
        Some(t) => Some(t.duplicate()),
        None => None,
    }
}

/// A named import binding: `import { User as U } from './models'` maps the
/// local name `U` to the source file and the exported name `User`.
#[derive(Debug, Clone)]
pub struct NamedImportBinding {
    pub source_path: String,
    pub exported_name: String,
}

impl View for NamedImportBinding {
    type V = (Seq<char>, Seq<char>);

    open spec fn view(&self) -> (Seq<char>, Seq<char>) {
        (self.source_path@, self.exported_name@)
    }
}

/// The latest entry for `(f, n)` among triples keyed by their first two parts.
pub open spec fn latest<V>(s: Seq<(Seq<char>, Seq<char>, V)>, f: Seq<char>, n: Seq<char>) -> Option<V>
    decreases s.len(),
{
    if s.len() == 0 {
        None
    } else if s.last().0 == f && s.last().1 == n {
        Some(s.last().2)
    } else {
        latest(s.drop_last(), f, n)
    }
}

/// Whether `s[i]` is the last entry keyed `(f, n)`.
pub open spec fn is_last_match<V>(s: Seq<(Seq<char>, Seq<char>, V)>, f: Seq<char>, n: Seq<char>, i: int) -> bool {
    &&& 0 <= i < s.len()
    &&& s[i].0 == f
    &&& s[i].1 == n
    &&& forall|k: int| i < k < s.len() ==> !(#[trigger] s[k].0 == f && s[k].1 == n)
}

/// The latest entry is the last one with the key.
pub proof fn lemma_latest_at<V>(s: Seq<(Seq<char>, Seq<char>, V)>, f: Seq<char>, n: Seq<char>, i: int)
    requires
        is_last_match(s, f, n, i),
    ensures
        latest(s, f, n) == Some(s[i].2),
    decreases s.len(),
{
    if i < s.len() - 1 {
        assert(!(s[s.len() - 1].0 == f && s[s.len() - 1].1 == n));
        let t = s.drop_last();
        assert(is_last_match(t, f, n, i)) by {
            assert forall|k: int| i < k < t.len() implies !(#[trigger] t[k].0 == f && t[k].1 == n) by {
                assert(t[k] == s[k]);
            }
        }
        lemma_latest_at(t, f, n, i);
    }
}

/// With no entry keyed `(f, n)` there is no latest one.
pub proof fn lemma_latest_none<V>(s: Seq<(Seq<char>, Seq<char>, V)>, f: Seq<char>, n: Seq<char>)
    requires
        forall|k: int| 0 <= k < s.len() ==> !(#[trigger] s[k].0 == f && s[k].1 == n),
    ensures
        latest(s, f, n) is None,
    decreases s.len(),
{
    if s.len() > 0 {
        let t = s.drop_last();
        assert forall|k: int| 0 <= k < t.len() implies !(#[trigger] t[k].0 == f && t[k].1 == n) by {
            assert(t[k] == s[k]);
        }
        assert(!(s[s.len() - 1].0 == f && s[s.len() - 1].1 == n));
        lemma_latest_none(t, f, n);
    }
}

/// The index of the last entry of `v` keyed `(f, n)`.
fn find_latest<V>(v: &Vec<(String, String, V)>, f: &str, n: &str) -> (r: Option<usize>)
    ensures
        match r {
            Some(i) => i < v@.len() && v@[i as int].0@ == f@ && v@[i as int].1@ == n@ && forall|k: int|
                i < k < v@.len() ==> !(#[trigger] v@[k].0@ == f@ && v@[k].1@ == n@),
            None => forall|k: int| 0 <= k < v@.len() ==> !(#[trigger] v@[k].0@ == f@ && v@[k].1@ == n@),
        },
{
    let mut j = v.len();
    while j > 0
        invariant
            j <= v@.len(),
            forall|k: int| j <= k < v@.len() ==> !(#[trigger] v@[k].0@ == f@ && v@[k].1@ == n@),
        decreases j,
    {
        j = j - 1;
        if str_eq(v[j].0.as_str(), f) && str_eq(v[j].1.as_str(), n) {
            return Some(j);
        }
    }
    None
}

/// The linking state of a resolution context.
pub struct LinkView {
    /// (file, imported file) pairs.
    pub imports: Seq<(Seq<char>, Seq<char>)>,
    /// (file, local name, (source file, exported name)) entries; the latest wins.
    pub named: Seq<(Seq<char>, Seq<char>, (Seq<char>, Seq<char>))>,
    /// (file, module alias, source file) entries; the latest wins.
    pub aliases: Seq<(Seq<char>, Seq<char>, Seq<char>)>,
}

impl LinkView {
    /// Whether `from_file` imports from `target`.
    pub open spec fn imports_from(&self, from_file: Seq<char>, target: Seq<char>) -> bool {
        self.imports.contains((from_file, target))
    }

    /// The binding of `local` in `file`: its source file and exported name.
    pub open spec fn binding(&self, file: Seq<char>, local: Seq<char>) -> Option<(Seq<char>, Seq<char>)> {
        latest(self.named, file, local)
    }

    /// The source file that `alias` names in `file`.
    pub open spec fn alias(&self, file: Seq<char>, alias: Seq<char>) -> Option<Seq<char>> {
        latest(self.aliases, file, alias)
    }

    /// The definitions of `defs` whose file `from_file` imports from.
    pub open spec fn import_scoped(&self, defs: Seq<SymbolInfo>, from_file: Seq<char>) -> Seq<SymbolInfo>
        decreases defs.len(),
    {
        if defs.len() == 0 {
            defs
        } else {
            let r = self.import_scoped(defs.drop_last(), from_file);
            if self.imports_from(from_file, defs.last().file_path) {
                r.push(defs.last())
            } else {
                r
            }
        }
    }

    /// Follows the binding chain from `(file, name)` for at most `fuel` steps,
    /// to the first file that defines the bound name.
    pub open spec fn chain(&self, s: Seq<SymbolInfo>, file: Seq<char>, name: Seq<char>, fuel: nat) -> Option<TieredView>
        decreases fuel,
    {
        if fuel == 0 {
            None
        } else {
            match self.binding(file, name) {
                None => None,
                Some(b) => {
                    let defs = in_file_named(s, b.0, b.1);
                    if defs.len() > 0 {
                        Some(tiered(defs, ResolutionTier::ImportScoped))
                    } else {
                        self.chain(s, b.0, b.1, (fuel - 1) as nat)
                    }
                },
            }
        }
    }

    /// Resolution through the named-import binding of `name` in `from_file`,
    /// following re-exports through at most ten further bindings.
    pub open spec fn via_binding(&self, s: Seq<SymbolInfo>, name: Seq<char>, from_file: Seq<char>) -> Option<TieredView> {
        self.chain(s, from_file, name, 11)
    }

    /// The tiered resolution of `name` used in `from_file`, over the definitions `s`.
    pub open spec fn resolution(&self, s: Seq<SymbolInfo>, name: Seq<char>, from_file: Seq<char>) -> Option<TieredView> {
        let same = in_file_named(s, from_file, name);
        if same.len() > 0 {
            Some(tiered(same, ResolutionTier::SameFile))
        } else {
            match self.via_binding(s, name, from_file) {
                Some(r) => Some(r),
                None => {
                    let all = named(s, name);
                    if all.len() == 0 {
                        None
                    } else {
                        let scoped = self.import_scoped(all, from_file);
                        if scoped.len() > 0 {
                            Some(tiered(scoped, ResolutionTier::ImportScoped))
                        } else {
                            match self.alias(from_file, name) {
                                Some(src) if in_file_named(s, src, name).len() > 0 => Some(
                                    tiered(in_file_named(s, src, name), ResolutionTier::ImportScoped),
                                ),
                                _ => Some(tiered(all, ResolutionTier::Global)),
                            }
                        }
                    }
                },
            }
        }
    }
}

/// An entry keyed `(f, n)` makes the latest entry for that key exist.
pub proof fn lemma_latest_some_if_present<V>(s: Seq<(Seq<char>, Seq<char>, V)>, f: Seq<char>, n: Seq<char>, i: int)
    requires
        0 <= i < s.len(),
        s[i].0 == f,
        s[i].1 == n,
    ensures
        latest(s, f, n) is Some,
    decreases s.len(),
{
    if !(s.last().0 == f && s.last().1 == n) {
        assert(i < s.len() - 1);
        assert(s.drop_last()[i] == s[i]);
        lemma_latest_some_if_present(s.drop_last(), f, n, i);
    }
}

/// The targets of the import pairs from `file`, in order.
pub open spec fn imported_targets(s: Seq<(Seq<char>, Seq<char>)>, file: Seq<char>) -> Seq<Seq<char>>
    decreases s.len(),
{
    if s.len() == 0 {
        Seq::empty()
    } else {
        let r = imported_targets(s.drop_last(), file);
        if s.last().0 == file {
            r.push(s.last().1)
        } else {
            r
        }
    }
}

/// A file imports from exactly the targets listed for it.
pub proof fn lemma_imported_targets(s: Seq<(Seq<char>, Seq<char>)>, file: Seq<char>, t: Seq<char>)
    ensures
        imported_targets(s, file).contains(t) <==> s.contains((file, t)),
    decreases s.len(),
{
    if s.len() > 0 {
        let d = s.drop_last();
        lemma_imported_targets(d, file, t);
        let r = imported_targets(d, file);
        if s.contains((file, t)) && !d.contains((file, t)) {
            let k = choose|k: int| 0 <= k < s.len() && s[k] == (file, t);
            if k < s.len() - 1 {
                assert(d[k] == (file, t));
            }
            assert(s.last() == (file, t));
            assert(r.push(t)[r.len() as int] == t);
        }
        if d.contains((file, t)) {
            let k = choose|k: int| 0 <= k < d.len() && d[k] == (file, t);
            assert(s[k] == (file, t));
            let m = choose|m: int| 0 <= m < r.len() && r[m] == t;
            if s.last().0 == file {
                assert(r.push(s.last().1)[m] == t);
            }
        }
        if imported_targets(s, file).contains(t) && !r.contains(t) {
            assert(s.last() == (file, t));
            assert(s[s.len() - 1] == s.last());
        }
    }
}

/// Counts of the linking state, for debugging.
#[derive(Debug)]
pub struct ResolutionStats {
    pub import_edges: usize,
    pub named_bindings: usize,
    pub module_aliases: usize,
    pub cached_files: usize,
}

/// The resolution context holds all cross-file linking state.
pub struct ResolutionContext {
    /// (file, imported file) pairs, each once.
    import_edges: Vec<(String, String)>,
    /// (file, local name, binding); the latest entry for a pair wins.
    named_import_map: Vec<(String, String, NamedImportBinding)>,
    /// (file, module alias, source file); the latest entry for a pair wins.
    module_alias_map: Vec<(String, String, String)>,
    /// (file, name, cached result); the latest entry for a pair wins.
    cache: Vec<(String, String, Option<TieredResult>)>,
}

impl ResolutionContext {
    /// The linking state.
    pub closed spec fn links(&self) -> LinkView {
        LinkView {
            imports: self.import_edges@.map_values(|e: (String, String)| (e.0@, e.1@)),
            named: self.named_import_map@.map_values(
                |e: (String, String, NamedImportBinding)| (e.0@, e.1@, e.2@),
            ),
            aliases: self.module_alias_map@.map_values(|e: (String, String, String)| (e.0@, e.1@, e.2@)),
        }
    }

    closed spec fn cache_view(&self) -> Seq<(Seq<char>, Seq<char>, Option<TieredView>)> {
        self.cache@.map_values(|e: (String, String, Option<TieredResult>)| (e.0@, e.1@, opt_tiered_view(e.2)))
    }

    /// The cached result for `name` looked up from `file`, if one is cached.
    pub closed spec fn cached(&self, file: Seq<char>, name: Seq<char>) -> Option<Option<TieredView>> {
        latest(self.cache_view(), file, name)
    }

    /// Every cached result is the resolution of its name under the current links and `s`.
    pub open spec fn cache_consistent(&self, s: Seq<SymbolInfo>) -> bool {
        forall|f: Seq<char>, n: Seq<char>| #[trigger] self.cached(f, n) is Some ==> self.cached(f, n)
            == Some(self.links().resolution(s, n, f))
    }

    pub fn new() -> (r: Self)
        ensures
            r.links() == (LinkView { imports: Seq::empty(), named: Seq::empty(), aliases: Seq::empty() }),
            forall|f: Seq<char>, n: Seq<char>| #[trigger] r.cached(f, n) is None,
    {
        let r = ResolutionContext {
            import_edges: Vec::new(),
            named_import_map: Vec::new(),
            module_alias_map: Vec::new(),
            cache: Vec::new(),
        };
        assert(r.links().imports =~= Seq::empty());
        assert(r.links().named =~= Seq::empty());
        assert(r.links().aliases =~= Seq::empty());
        assert(r.cache_view() =~= Seq::empty());
        r
    }

    /// Record that `from_file` imports from `target_file` (once).
    pub fn add_import_edge(&mut self, from_file: String, target_file: String)
        ensures
            final(self).links().named == old(self).links().named,
            final(self).links().aliases == old(self).links().aliases,
            forall|a: Seq<char>, b: Seq<char>| #[trigger] final(self).links().imports_from(a, b) <==> (
                old(self).links().imports_from(a, b) || (a == from_file@ && b == target_file@)),
            final(self).links().imports == (if old(self).links().imports.contains((from_file@, target_file@)) {
                old(self).links().imports
            } else {
                old(self).links().imports.push((from_file@, target_file@))
            }),
            forall|f: Seq<char>, n: Seq<char>| #[trigger] final(self).cached(f, n) == old(self).cached(f, n),
    {
        let ghost before = self.links().imports;
        let mut i: usize = 0;
        while i < self.import_edges.len()
            invariant
                i <= self.import_edges@.len(),
                before == self.links().imports,
                forall|k: int| 0 <= k < i ==> #[trigger] before[k] != (from_file@, target_file@),
            decreases self.import_edges.len() - i,
        {
            if str_eq(self.import_edges[i].0.as_str(), from_file.as_str()) && str_eq(
                self.import_edges[i].1.as_str(),
                target_file.as_str(),
            ) {
                assert(before[i as int] == (from_file@, target_file@));
                assert(before.contains((from_file@, target_file@)));
                return;
            }
            i = i + 1;
        }
        let ghost nv = (from_file@, target_file@);
        self.import_edges.push((from_file, target_file));
        proof {
            assert(self.links().imports =~= before.push(nv));
            assert forall|a: Seq<char>, b: Seq<char>| #[trigger] self.links().imports_from(a, b) <==> (
                before.contains((a, b)) || (a == nv.0 && b == nv.1)) by {
                if before.contains((a, b)) {
                    let k = choose|k: int| 0 <= k < before.len() && before[k] == (a, b);
                    assert(self.links().imports[k] == (a, b));
                }
                if a == nv.0 && b == nv.1 {
                    assert(self.links().imports[before.len() as int] == (a, b));
                }
                if self.links().imports.contains((a, b)) && !(a == nv.0 && b == nv.1) {
                    let k = choose|k: int| 0 <= k < self.links().imports.len() && self.links().imports[k] == (a, b);
                    assert(before[k] == (a, b));
                }
            }
            assert(self.cache_view() == old(self).cache_view());
        }
    }

    /// Record a named import binding.
    pub fn add_named_binding(&mut self, file_path: String, local_name: String, source_path: String, exported_name: String)
        ensures
            final(self).links() == (LinkView {
                named: old(self).links().named.push((file_path@, local_name@, (source_path@, exported_name@))),
                ..old(self).links()
            }),
            forall|f: Seq<char>, n: Seq<char>| #[trigger] final(self).cached(f, n) == old(self).cached(f, n),
    {
        self.named_import_map.push((file_path, local_name, NamedImportBinding { source_path, exported_name }));
        proof {
            assert(self.links().named =~= old(self).links().named.push((file_path@, local_name@, (source_path@, exported_name@))));
            assert(self.links().imports =~= old(self).links().imports);
            assert(self.links().aliases =~= old(self).links().aliases);
            assert(self.cache_view() == old(self).cache_view());
        }
    }

    /// Record a module alias (Python `import module` style).
    pub fn add_module_alias(&mut self, file_path: String, alias: String, source_path: String)
        ensures
            final(self).links() == (LinkView {
                aliases: old(self).links().aliases.push((file_path@, alias@, source_path@)),
                ..old(self).links()
            }),
            forall|f: Seq<char>, n: Seq<char>| #[trigger] final(self).cached(f, n) == old(self).cached(f, n),
    {
        self.module_alias_map.push((file_path, alias, source_path));
        proof {
            assert(self.links().aliases =~= old(self).links().aliases.push((file_path@, alias@, source_path@)));
            assert(self.links().imports =~= old(self).links().imports);
            assert(self.links().named =~= old(self).links().named);
            assert(self.cache_view() == old(self).cache_view());
        }
    }


    pub(crate) fn binding_of(&self, file: &str, local: &str) -> (r: Option<&NamedImportBinding>)
        ensures
            match r {
                Some(b) => self.links().binding(file@, local@) == Some(b@),
                None => self.links().binding(file@, local@) is None,
            },
    {
        let ghost s = self.links().named;
        match find_latest(&self.named_import_map, file, local) {
            Some(i) => {
                proof {
                    assert(s[i as int] == (self.named_import_map@[i as int].0@, self.named_import_map@[i as int].1@, self.named_import_map@[i as int].2@));
                    assert forall|k: int| i < k < s.len() implies !(#[trigger] s[k].0 == file@ && s[k].1 == local@) by {
                        assert(s[k].0 == self.named_import_map@[k].0@);
                        assert(s[k].1 == self.named_import_map@[k].1@);
                    }
                    lemma_latest_at(s, file@, local@, i as int);
                }
                Some(&self.named_import_map[i].2)
            },
            None => {
                proof {
                    assert forall|k: int| 0 <= k < s.len() implies !(#[trigger] s[k].0 == file@ && s[k].1 == local@) by {
                        assert(s[k].0 == self.named_import_map@[k].0@);
                        assert(s[k].1 == self.named_import_map@[k].1@);
                    }
                    lemma_latest_none(s, file@, local@);
                }
                None
            },
        }
    }

    fn alias_of(&self, file: &str, alias: &str) -> (r: Option<&String>)
        ensures
            match r {
                Some(p) => self.links().alias(file@, alias@) == Some(p@),
                None => self.links().alias(file@, alias@) is None,
            },
    {
        let ghost s = self.links().aliases;
        match find_latest(&self.module_alias_map, file, alias) {
            Some(i) => {
                proof {
                    assert(s[i as int] == (self.module_alias_map@[i as int].0@, self.module_alias_map@[i as int].1@, self.module_alias_map@[i as int].2@));
                    assert forall|k: int| i < k < s.len() implies !(#[trigger] s[k].0 == file@ && s[k].1 == alias@) by {
                        assert(s[k].0 == self.module_alias_map@[k].0@);
                        assert(s[k].1 == self.module_alias_map@[k].1@);
                    }
                    lemma_latest_at(s, file@, alias@, i as int);
                }
                Some(&self.module_alias_map[i].2)
            },
            None => {
                proof {
                    assert forall|k: int| 0 <= k < s.len() implies !(#[trigger] s[k].0 == file@ && s[k].1 == alias@) by {
                        assert(s[k].0 == self.module_alias_map@[k].0@);
                        assert(s[k].1 == self.module_alias_map@[k].1@);
                    }
                    lemma_latest_none(s, file@, alias@);
                }
                None
            },
        }
    }

    fn cached_of(&self, file: &str, name: &str) -> (r: Option<&Option<TieredResult>>)
        ensures
            match r {
                Some(c) => self.cached(file@, name@) == Some(opt_tiered_view(*c)),
                None => self.cached(file@, name@) is None,
            },
    {
        let ghost s = self.cache_view();
        match find_latest(&self.cache, file, name) {
            Some(i) => {
                proof {
                    assert(s[i as int] == (self.cache@[i as int].0@, self.cache@[i as int].1@, opt_tiered_view(self.cache@[i as int].2)));
                    assert forall|k: int| i < k < s.len() implies !(#[trigger] s[k].0 == file@ && s[k].1 == name@) by {
                        assert(s[k].0 == self.cache@[k].0@);
                        assert(s[k].1 == self.cache@[k].1@);
                    }
                    lemma_latest_at(s, file@, name@, i as int);
                }
                Some(&self.cache[i].2)
            },
            None => {
                proof {
                    assert forall|k: int| 0 <= k < s.len() implies !(#[trigger] s[k].0 == file@ && s[k].1 == name@) by {
                        assert(s[k].0 == self.cache@[k].0@);
                        assert(s[k].1 == self.cache@[k].1@);
                    }
                    lemma_latest_none(s, file@, name@);
                }
                None
            },
        }
    }

    fn is_imported(&self, from_file: &str, target: &str) -> (r: bool)
        ensures
            r == self.links().imports_from(from_file@, target@),
    {
        let ghost s = self.links().imports;
        let mut i: usize = 0;
        while i < self.import_edges.len()
            invariant
                s == self.links().imports,
                i <= s.len(),
                forall|k: int| 0 <= k < i ==> #[trigger] s[k] != (from_file@, target@),
            decreases self.import_edges.len() - i,
        {
            if str_eq(self.import_edges[i].0.as_str(), from_file) && str_eq(self.import_edges[i].1.as_str(), target) {
                assert(s[i as int] == (from_file@, target@));
                return true;
            }
            i = i + 1;
        }
        false
    }

    /// Tier 2a-named: walk the named import binding chain.
    ///
    /// File A importing `User` from file B, which re-exports it from file C, is
    /// followed A to B to C to the actual definition.
    fn resolve_via_named_binding(&self, name: &str, from_file: &str, symbols: &SymbolTable) -> (r: Option<TieredResult>)
        ensures
            opt_tiered_view(r) == self.links().via_binding(symbols@, name@, from_file@),
    {
        let ghost lv = self.links();
        let binding = match self.binding_of(from_file, name) {
            Some(b) => b,
            None => return None,
        };
        // Direct lookup in the source file
        let defs = symbols.lookup_in_file(binding.source_path.as_str(), binding.exported_name.as_str());
        if defs.len() > 0 {
            return Some(make_tiered(defs, ResolutionTier::ImportScoped));
        }
        // Walk the chain: the source file might re-export from another file.
        // Limit chain depth to prevent infinite loops.
        let mut current_file = binding.source_path.clone();
        let mut current_name = binding.exported_name.clone();
        let mut depth: usize = 0;
        while depth < 10
            invariant
                lv == self.links(),
                depth <= 10,
                lv.via_binding(symbols@, name@, from_file@) == lv.chain(symbols@, current_file@, current_name@, (10 - depth) as nat),
            decreases 10 - depth,
        {
            match self.binding_of(current_file.as_str(), current_name.as_str()) {
                Some(next) => {
                    let next_defs = symbols.lookup_in_file(next.source_path.as_str(), next.exported_name.as_str());
                    if next_defs.len() > 0 {
                        return Some(make_tiered(next_defs, ResolutionTier::ImportScoped));
                    }
                    current_file = next.source_path.clone();
                    current_name = next.exported_name.clone();
                    depth = depth + 1;
                },
                None => {
                    return None;
                },
            }
        }
        None
    }

    /// The definitions of `defs` whose file `from_file` imports from.
    fn filter_imported(&self, defs: &Vec<SymbolDefinition>, from_file: &str) -> (r: Vec<SymbolDefinition>)
        ensures
            defs_view(r@) == self.links().import_scoped(defs_view(defs@), from_file@),
    {
        let ghost s = defs_view(defs@);
        let mut r: Vec<SymbolDefinition> = Vec::new();
        let mut i: usize = 0;
        while i < defs.len()
            invariant
                s == defs_view(defs@),
                i <= defs@.len(),
                defs_view(r@) == self.links().import_scoped(s.subrange(0, i as int), from_file@),
            decreases defs.len() - i,
        {
            assert(s.subrange(0, i + 1).drop_last() =~= s.subrange(0, i as int));
            assert(s.subrange(0, i + 1).last() == defs@[i as int]@);
            if self.is_imported(from_file, defs[i].file_path.as_str()) {
                let ghost before = r@;
                r.push(defs[i].duplicate());
                assert(defs_view(r@) =~= defs_view(before).push(defs@[i as int]@));
            }
            i = i + 1;
        }
        assert(s.subrange(0, s.len() as int) =~= s);
        r
    }

    fn resolve_uncached(&self, name: &str, from_file: &str, symbols: &SymbolTable) -> (r: Option<TieredResult>)
        ensures
            opt_tiered_view(r) == self.links().resolution(symbols@, name@, from_file@),
    {
        // Tier 1: Same-file
        let same_file_defs = symbols.lookup_in_file(from_file, name);
        if same_file_defs.len() > 0 {
            return Some(make_tiered(same_file_defs, ResolutionTier::SameFile));
        }
        // Tier 2a-named: Walk binding chain through named imports
        if let Some(result) = self.resolve_via_named_binding(name, from_file, symbols) {
            return Some(result);
        }
        // Get all global definitions for this name
        let all_defs = symbols.lookup_global(name);
        if all_defs.len() == 0 {
            return None;
        }
        // Tier 2a: Filter by import map
        let import_scoped = self.filter_imported(&all_defs, from_file);
        if import_scoped.len() > 0 {
            return Some(make_tiered(import_scoped, ResolutionTier::ImportScoped));
        }
        // Tier 2a via module alias: the name is a module alias of this file
        if let Some(source_path) = self.alias_of(from_file, name) {
            let module_defs = symbols.lookup_in_file(source_path.as_str(), name);
            if module_defs.len() > 0 {
                return Some(make_tiered(module_defs, ResolutionTier::ImportScoped));
            }
        }
        // Tier 3: Global (all defs, consumers must handle ambiguity)
        Some(make_tiered(all_defs, ResolutionTier::Global))
    }

    /// Resolve a symbol name from a given file, using tiered lookup.
    ///
    /// Resolution order:
    /// 1. Same-file (confidence 0.95)
    /// 2. Named binding chain (confidence 0.9)
    /// 3. Import-scoped (confidence 0.9)
    /// 4. Global (confidence 0.5)
    ///
    /// A result cached for the same file and name is returned as it is.
    pub fn resolve(&mut self, name: &str, from_file: &str, symbols: &SymbolTable) -> (r: Option<TieredResult>)
        ensures
            final(self).links() == old(self).links(),
            old(self).cached(from_file@, name@) matches Some(c) ==> opt_tiered_view(r) == c,
            old(self).cached(from_file@, name@) is None ==> opt_tiered_view(r) == old(self).links().resolution(
                symbols@,
                name@,
                from_file@,
            ),
            final(self).cached(from_file@, name@) == Some(opt_tiered_view(r)),
            forall|f: Seq<char>, n: Seq<char>|
                !(f == from_file@ && n == name@) ==> #[trigger] final(self).cached(f, n) == old(self).cached(f, n),
            // With a consistent cache the answer is the resolution itself, and the cache stays consistent.
            old(self).cache_consistent(symbols@) ==> final(self).cache_consistent(symbols@) && opt_tiered_view(r)
                == old(self).links().resolution(symbols@, name@, from_file@),
    {
        // Check cache
        match self.cached_of(from_file, name) {
            Some(cached) => {
                let r = duplicate_opt(cached);
                return r;
            },
            None => {},
        }
        let result = self.resolve_uncached(name, from_file, symbols);
        let stored = duplicate_opt(&result);
        let ghost before = self.cache_view();
        let ghost entry = (from_file@, name@, opt_tiered_view(stored));
        self.cache.push((from_file.to_owned(), name.to_owned(), stored));
        proof {
            assert(self.cache_view() =~= before.push(entry));
            assert(self.links() == old(self).links());
            assert forall|f: Seq<char>, n: Seq<char>| #[trigger] self.cached(f, n) == (if f == from_file@ && n == name@ {
                Some(opt_tiered_view(result))
            } else {
                old(self).cached(f, n)
            }) by {
                assert(self.cache_view().drop_last() =~= before);
            }
        }
        result
    }

    /// The named import bindings of a file: (local name, binding) pairs, latest first.
    pub fn named_bindings(&self, file_path: &str) -> (r: Option<Vec<(String, NamedImportBinding)>>)
        ensures
            match r {
                Some(v) => v@.len() > 0 && forall|k: int| 0 <= k < v@.len() ==> self.links().binding(
                    file_path@,
                    (#[trigger] v@[k]).0@,
                ) == Some(v@[k].1@),
                None => forall|n: Seq<char>| #[trigger] self.links().binding(file_path@, n) is None,
            },
    {
        let mut out: Vec<(String, NamedImportBinding)> = Vec::new();
        let ghost s = self.links().named;
        let mut j = self.named_import_map.len();
        while j > 0
            invariant
                s == self.links().named,
                j <= s.len(),
                forall|k: int| 0 <= k < out@.len() ==> self.links().binding(file_path@, (#[trigger] out@[k]).0@) == Some(
                    out@[k].1@,
                ),
                out@.len() == 0 ==> forall|k: int| j <= k < s.len() ==> (#[trigger] s[k]).0 != file_path@,
            decreases j,
        {
            j = j - 1;
            let e = &self.named_import_map[j];
            assert(s[j as int].0 == e.0@ && s[j as int].1 == e.1@);
            if str_eq(e.0.as_str(), file_path) {
                let b = self.binding_of(file_path, e.1.as_str());
                match b {
                    Some(b) => {
                        let ghost before = out@;
                        let copy = NamedImportBinding {
                            source_path: b.source_path.clone(),
                            exported_name: b.exported_name.clone(),
                        };
                        out.push((e.1.clone(), copy));
                        assert(forall|k: int| 0 <= k < before.len() ==> out@[k] == before[k]);
                    },
                    None => {
                        proof {
                            let ghost k0 = j as int;
                            assert(s[k0].0 == file_path@ && s[k0].1 == e.1@);
                            assert(false) by {
                                if latest(s, file_path@, e.1@) is None {
                                    lemma_latest_some_if_present(s, file_path@, e.1@, k0);
                                }
                            }
                        }
                    },
                }
            }
        }
        if out.len() == 0 {
            proof {
                assert forall|n: Seq<char>| #[trigger] self.links().binding(file_path@, n) is None by {
                    assert forall|k: int| 0 <= k < s.len() implies !(#[trigger] s[k].0 == file_path@ && s[k].1 == n) by {}
                    lemma_latest_none(s, file_path@, n);
                }
            }
            None
        } else {
            Some(out)
        }
    }

    /// The files that `file_path` imports from, if it imports from any, in the
    /// order the edges were recorded.
    pub fn imports_of(&self, file_path: &str) -> (r: Option<Vec<String>>)
        ensures
            match r {
                Some(v) => v@.len() > 0 && v@.map_values(|t: String| t@) == imported_targets(self.links().imports, file_path@),
                None => imported_targets(self.links().imports, file_path@).len() == 0,
            },
    {
        let ghost s = self.links().imports;
        let mut out: Vec<String> = Vec::new();
        let mut i: usize = 0;
        while i < self.import_edges.len()
            invariant
                s == self.links().imports,
                i <= s.len(),
                out@.map_values(|t: String| t@) == imported_targets(s.subrange(0, i as int), file_path@),
            decreases self.import_edges.len() - i,
        {
            assert(s.subrange(0, i + 1).drop_last() =~= s.subrange(0, i as int));
            assert(s.subrange(0, i + 1).last() == s[i as int]);
            let e = &self.import_edges[i];
            assert(s[i as int] == (e.0@, e.1@));
            if str_eq(e.0.as_str(), file_path) {
                let ghost before = out@;
                out.push(e.1.clone());
                assert(out@.map_values(|t: String| t@) =~= before.map_values(|t: String| t@).push(e.1@));
            }
            i = i + 1;
        }
        assert(s.subrange(0, s.len() as int) =~= s);
        if out.len() == 0 {
            None
        } else {
            Some(out)
        }
    }

    /// Get stats for debugging.
    pub fn stats(&self) -> (r: ResolutionStats)
        ensures
            r.import_edges == self.links().imports.len(),
            r.named_bindings == self.links().named.len(),
            r.module_aliases == self.links().aliases.len(),
    {
        ResolutionStats {
            import_edges: self.import_edges.len(),
            named_bindings: self.named_import_map.len(),
            module_aliases: self.module_alias_map.len(),
            cached_files: self.cache.len(),
        }
    }

    /// Clear resolution caches (call after modifying import/symbol state).
    pub fn clear_cache(&mut self)
        ensures
            final(self).links() == old(self).links(),
            forall|f: Seq<char>, n: Seq<char>| #[trigger] final(self).cached(f, n) is None,
    {
        self.cache = Vec::new();
        assert(self.cache_view() =~= Seq::empty());
    }
}
/// What resolving `name` from `from` gives with the cache `c`: the cached
/// answer where there is one, else the resolution under the links.
pub open spec fn answer_with_cache(
    links: LinkView,
    s: Seq<SymbolInfo>,
    c: spec_fn(Seq<char>, Seq<char>) -> Option<Option<TieredView>>,
    name: Seq<char>,
    from: Seq<char>,
) -> Option<TieredView> {
    match c(from, name) {
        Some(a) => a,
        None => links.resolution(s, name, from),
    }
}

/// The cache `c` after `a` is recorded for `name` looked up from `from`.
pub open spec fn cache_after(
    c: spec_fn(Seq<char>, Seq<char>) -> Option<Option<TieredView>>,
    from: Seq<char>,
    name: Seq<char>,
    a: Option<TieredView>,
) -> spec_fn(Seq<char>, Seq<char>) -> Option<Option<TieredView>> {
    |f: Seq<char>, n: Seq<char>| if f == from && n == name { Some(a) } else { c(f, n) }
}



/// The definitions named `name` in one file are among those named `name`.
proof fn lemma_in_file_named_nonempty(s: Seq<SymbolInfo>, file: Seq<char>, name: Seq<char>)
    ensures
        in_file_named(s, file, name).len() > 0 ==> named(s, name).len() > 0,
    decreases s.len(),
{
    if s.len() > 0 {
        lemma_in_file_named_nonempty(s.drop_last(), file, name);
    }
}

/// A tiered view built from definitions: one candidate per definition, each
/// of its tier with that tier's confidence.
proof fn lemma_tiered_shape(defs: Seq<SymbolInfo>, t: ResolutionTier)
    ensures
        tiered(defs, t).candidates.len() == defs.len(),
        forall|i: int| 0 <= i < tiered(defs, t).candidates.len() ==> (#[trigger] tiered(defs, t).candidates[i]).tier == t
            && tiered(defs, t).candidates[i].confidence == tier_confidence(t),
{
}

/// A binding chain that resolves gives import-scoped candidates, at least one.
proof fn lemma_chain_shape(l: LinkView, s: Seq<SymbolInfo>, file: Seq<char>, name: Seq<char>, fuel: nat)
    ensures
        l.chain(s, file, name, fuel) matches Some(t) ==> t.tier == ResolutionTier::ImportScoped && t.candidates.len() > 0
            && forall|i: int| 0 <= i < t.candidates.len() ==> (#[trigger] t.candidates[i]).tier == t.tier
            && t.candidates[i].confidence == tier_confidence(t.tier),
    decreases fuel,
{
    if fuel > 0 {
        match l.binding(file, name) {
            None => {},
            Some(b) => {
                let defs = in_file_named(s, b.0, b.1);
                lemma_tiered_shape(defs, ResolutionTier::ImportScoped);
                lemma_chain_shape(l, s, b.0, b.1, (fuel - 1) as nat);
            },
        }
    }
}

/// The resolution order: a name resolves to nothing exactly when no
/// definition has that name and its named-import chain reaches no
/// definition; otherwise every candidate carries the result's tier and that
/// tier's confidence, there is at least one, and the tier is same-file
/// exactly when the file itself defines the name.
pub proof fn lemma_resolution_tiers(l: LinkView, s: Seq<SymbolInfo>, name: Seq<char>, from_file: Seq<char>)
    ensures
        l.resolution(s, name, from_file) is None <==> named(s, name).len() == 0 && l.via_binding(s, name, from_file) is None,
        l.resolution(s, name, from_file) matches Some(t) ==> {
            &&& t.candidates.len() > 0
            &&& forall|i: int| 0 <= i < t.candidates.len() ==> (#[trigger] t.candidates[i]).tier == t.tier
                && t.candidates[i].confidence == tier_confidence(t.tier)
            &&& (t.tier == ResolutionTier::SameFile <==> in_file_named(s, from_file, name).len() > 0)
        },
{
    lemma_in_file_named_nonempty(s, from_file, name);
    lemma_chain_shape(l, s, from_file, name, 11);
    let same = in_file_named(s, from_file, name);
    let all = named(s, name);
    lemma_tiered_shape(same, ResolutionTier::SameFile);
    lemma_tiered_shape(all, ResolutionTier::Global);
    lemma_tiered_shape(l.import_scoped(all, from_file), ResolutionTier::ImportScoped);
    match l.alias(from_file, name) {
        Some(src) => {
            lemma_tiered_shape(in_file_named(s, src, name), ResolutionTier::ImportScoped);
        },
        None => {},
    }
}

} // verus!
