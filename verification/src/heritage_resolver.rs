//! Heritage resolution: links child classes and interfaces to their parents.

use vstd::prelude::*;
use crate::text::{chars_of, concat, string_of};
use crate::types::{ExtractedHeritage, HeritageKind, HeritageView, NodeLabel, RelationType};
use crate::symbol_table::SymbolTable;
use crate::resolution::{
    answer_with_cache, cache_after, opt_tiered_view, ResolutionContext, ResolutionTier, TieredView, LinkView, CONFIDENCE_GLOBAL,
};

verus! {

/// The content of a resolved heritage edge.
pub struct HeritageEdgeView {
    pub child_id: Seq<char>,
    pub parent_id: Seq<char>,
    pub rel_type: RelationType,
    pub parent_confidence: u32,
    pub reason: Seq<char>,
}

/// A resolved heritage (extends/implements) edge. The edge's confidence is
/// `sqrt(0.95 * parent_confidence / 1000)`: the child is certain, the parent
/// is as certain as its resolution.
#[derive(Debug, Clone)]
pub struct ResolvedHeritage {
    pub child_id: String,
    pub parent_id: String,
    pub rel_type: RelationType,
    /// Confidence of the parent's resolution, in thousandths.
    pub parent_confidence: u32,
    pub reason: String,
}

impl View for ResolvedHeritage {
    type V = HeritageEdgeView;

    open spec fn view(&self) -> HeritageEdgeView {
        HeritageEdgeView {
            child_id: self.child_id@,
            parent_id: self.parent_id@,
            rel_type: self.rel_type,
            parent_confidence: self.parent_confidence,
            reason: self.reason@,
        }
    }
}

/// Whether `r` is the integer square root of `x`: the largest number whose
/// square is at most `x`.
pub open spec fn is_isqrt(r: nat, x: nat) -> bool {
    r * r <= x && x < (r + 1) * (r + 1)
}

/// The confidence of the edge of a heritage clause whose parent was resolved
/// with `parent_confidence`, in thousandths and rounded down: the child is
/// certain (0.95), so the edge has the geometric mean
/// `sqrt(0.95 * parent_confidence / 1000) * 1000 == sqrt(950 * parent_confidence)`.
pub open spec fn heritage_edge_confidence(parent_confidence: u32) -> u32 {
    (choose|r: nat| #[trigger] is_isqrt(r, 950 * parent_confidence as nat)) as u32
}

/// A number has one integer square root.
pub proof fn lemma_isqrt_unique(a: nat, b: nat, x: nat)
    requires
        is_isqrt(a, x),
        is_isqrt(b, x),
    ensures
        a == b,
{
    if a < b {
        assert((a + 1) * (a + 1) <= b * b) by (nonlinear_arith)
            requires
                a + 1 <= b,
        ;
    } else if b < a {
        assert((b + 1) * (b + 1) <= a * a) by (nonlinear_arith)
            requires
                b + 1 <= a,
        ;
    }
}

/// The confidence of the edge of a heritage clause, in thousandths, from the
/// confidence of its parent's resolution.
pub fn edge_confidence(parent_confidence: u32) -> (r: u32)
    ensures
        is_isqrt(r as nat, 950 * parent_confidence as nat),
        r == heritage_edge_confidence(parent_confidence),
{
    let x: u64 = 950 * (parent_confidence as u64);
    let mut r: u64 = 0;
    loop
        invariant
            x == 950 * parent_confidence as nat,
            x <= 4_080_218_930_250,
            r * r <= x,
            r <= x,
            r < 2_100_000,
        ensures
            r * r <= x,
            x < (r + 1) * (r + 1),
            r < 2_100_000,
        decreases x - r,
    {
        assert((r + 1) * (r + 1) <= 2_100_001 * 2_100_001) by (nonlinear_arith)
            requires
                r < 2_100_000,
        ;
        let next: u64 = (r + 1) * (r + 1);
        if next > x {
            break;
        }
        assert(r + 1 <= (r + 1) * (r + 1)) by (nonlinear_arith);
        r = r + 1;
        assert(r < 2_100_000) by (nonlinear_arith)
            requires
                r * r <= x,
                x <= 4_080_218_930_250,
        ;
    }
    proof {
        let c = choose|c: nat| #[trigger] is_isqrt(c, 950 * parent_confidence as nat);
        assert(is_isqrt(r as nat, 950 * parent_confidence as nat));
        lemma_isqrt_unique(r as nat, c, 950 * parent_confidence as nat);
    }
    r as u32
}

/// The label name used for a parent that could not be resolved.
pub open spec fn spec_label_prefix(kind: HeritageKind) -> Seq<char> {
    match kind {
        HeritageKind::Extends => "Class"@,
        HeritageKind::Implements => "Interface"@,
    }
}

fn label_prefix(kind: HeritageKind) -> (r: &'static str)
    ensures
        r@ == spec_label_prefix(kind),
{
    match kind {
        HeritageKind::Extends => "Class",
        HeritageKind::Implements => "Interface",
    }
}

/// The id given to a parent that could not be (unambiguously) resolved.
pub open spec fn synthetic_id(h: HeritageView) -> Seq<char> {
    spec_label_prefix(h.kind) + "::"@ + h.parent_name
}

/// The relation type of the edge: `implements` clauses implement; `extends`
/// clauses implement when the parent resolved to an interface.
pub open spec fn heritage_rel_type(h: HeritageView, resolved: Option<TieredView>) -> RelationType {
    match h.kind {
        HeritageKind::Implements => RelationType::Implements,
        HeritageKind::Extends => match resolved {
            Some(r) => if r.candidates.len() > 0 && r.candidates[0].definition.label == NodeLabel::Interface {
                RelationType::Implements
            } else {
                RelationType::Extends
            },
            None => RelationType::Extends,
        },
    }
}

/// The reason recorded on the edge.
pub open spec fn heritage_reason(h: HeritageView, rel: RelationType) -> Seq<char> {
    "heritage: "@ + h.child_id + " "@ + (if rel == RelationType::Extends {
        "extends"@
    } else {
        "implements"@
    }) + " "@ + h.parent_name
}

/// The edge that a heritage clause gives, from the resolution of its parent's name.
pub open spec fn heritage_edge(h: HeritageView, resolved: Option<TieredView>) -> Option<HeritageEdgeView> {
    let parent = match resolved {
        Some(r) => if r.tier == ResolutionTier::Global && r.candidates.len() > 1 {
            Some((synthetic_id(h), CONFIDENCE_GLOBAL))
        } else if r.candidates.len() > 0 {
            Some((r.candidates[0].definition.node_id, r.candidates[0].confidence))
        } else {
            None
        },
        None => Some((synthetic_id(h), CONFIDENCE_GLOBAL)),
    };
    match parent {
        None => None,
        Some(p) => {
            let rel = heritage_rel_type(h, resolved);
            Some(HeritageEdgeView {
                child_id: h.child_id,
                parent_id: p.0,
                rel_type: rel,
                parent_confidence: p.1,
                reason: heritage_reason(h, rel),
            })
        },
    }
}

/// The edges of the clauses `hs`, in order, each from its parent's resolution.
pub open spec fn heritage_edges(links: LinkView, s: Seq<crate::symbol_table::SymbolInfo>, hs: Seq<HeritageView>) -> Seq<HeritageEdgeView>
    decreases hs.len(),
{
    if hs.len() == 0 {
        Seq::empty()
    } else {
        let prev = heritage_edges(links, s, hs.drop_last());
        let h = hs.last();
        match heritage_edge(h, links.resolution(s, h.parent_name, h.file_path)) {
            Some(e) => prev.push(e),
            None => prev,
        }
    }
}

/// Each heritage clause gives one edge, in order: from the clause's child;
/// an `implements` clause implements, an `extends` clause implements exactly
/// when its parent resolved to an interface; a parent that did not resolve,
/// or resolved only globally to several candidates, is named by a synthetic
/// id with the global confidence; otherwise the edge goes to the best
/// candidate with that candidate's confidence.
pub proof fn lemma_heritage_shape(links: LinkView, s: Seq<crate::symbol_table::SymbolInfo>, hs: Seq<HeritageView>)
    ensures
        heritage_edges(links, s, hs).len() == hs.len(),
        forall|i: int| 0 <= i < hs.len() ==> {
            let h = hs[i];
            let e = #[trigger] heritage_edges(links, s, hs)[i];
            let r = links.resolution(s, h.parent_name, h.file_path);
            &&& e.child_id == h.child_id
            &&& h.kind == HeritageKind::Implements ==> e.rel_type == RelationType::Implements
            &&& h.kind == HeritageKind::Extends ==> (e.rel_type == RelationType::Implements <==> (r is Some
                && r.unwrap().candidates[0].definition.label == NodeLabel::Interface))
            &&& e.rel_type == RelationType::Implements || e.rel_type == RelationType::Extends
            &&& (r is None || (r.unwrap().tier == ResolutionTier::Global && r.unwrap().candidates.len() > 1)) ==> e.parent_id
                == synthetic_id(h) && e.parent_confidence == CONFIDENCE_GLOBAL
            &&& !(r is None || (r.unwrap().tier == ResolutionTier::Global && r.unwrap().candidates.len() > 1)) ==> e.parent_id
                == r.unwrap().candidates[0].definition.node_id && e.parent_confidence == r.unwrap().candidates[0].confidence
        },
    decreases hs.len(),
{
    if hs.len() > 0 {
        let d = hs.drop_last();
        lemma_heritage_shape(links, s, d);
        let h = hs.last();
        crate::resolution::lemma_resolution_tiers(links, s, h.parent_name, h.file_path);
        let prev = heritage_edges(links, s, d);
        let all = heritage_edges(links, s, hs);
        assert(heritage_edge(h, links.resolution(s, h.parent_name, h.file_path)) is Some);
        assert forall|i: int| 0 <= i < hs.len() implies {
            let h = hs[i];
            let e = #[trigger] heritage_edges(links, s, hs)[i];
            let r = links.resolution(s, h.parent_name, h.file_path);
            &&& e.child_id == h.child_id
            &&& h.kind == HeritageKind::Implements ==> e.rel_type == RelationType::Implements
            &&& h.kind == HeritageKind::Extends ==> (e.rel_type == RelationType::Implements <==> (r is Some
                && r.unwrap().candidates[0].definition.label == NodeLabel::Interface))
            &&& e.rel_type == RelationType::Implements || e.rel_type == RelationType::Extends
            &&& (r is None || (r.unwrap().tier == ResolutionTier::Global && r.unwrap().candidates.len() > 1)) ==> e.parent_id
                == synthetic_id(h) && e.parent_confidence == CONFIDENCE_GLOBAL
            &&& !(r is None || (r.unwrap().tier == ResolutionTier::Global && r.unwrap().candidates.len() > 1)) ==> e.parent_id
                == r.unwrap().candidates[0].definition.node_id && e.parent_confidence == r.unwrap().candidates[0].confidence
        } by {
            if i < d.len() {
                assert(hs[i] == d[i]);
                assert(all[i] == prev[i]);
            } else {
                crate::resolution::lemma_resolution_tiers(links, s, hs[i].parent_name, hs[i].file_path);
            }
        }
    }
}

/// The heritage edges of `hs`, each clause's parent resolved through the
/// context's cache `c` (a cached answer is used as it is, a fresh one is
/// recorded), with the cache after.
pub open spec fn heritage_edges_cached(
    links: LinkView,
    s: Seq<crate::symbol_table::SymbolInfo>,
    c: spec_fn(Seq<char>, Seq<char>) -> Option<Option<TieredView>>,
    hs: Seq<HeritageView>,
) -> (Seq<HeritageEdgeView>, spec_fn(Seq<char>, Seq<char>) -> Option<Option<TieredView>>)
    decreases hs.len(),
{
    if hs.len() == 0 {
        (Seq::empty(), c)
    } else {
        let (prev, c1) = heritage_edges_cached(links, s, c, hs.drop_last());
        let h = hs.last();
        let a = answer_with_cache(links, s, c1, h.parent_name, h.file_path);
        let c2 = cache_after(c1, h.file_path, h.parent_name, a);
        match heritage_edge(h, a) {
            Some(e) => (prev.push(e), c2),
            None => (prev, c2),
        }
    }
}

/// Heritage resolver: links child classes/interfaces to their parent definitions.
pub struct HeritageResolver;

impl HeritageResolver {
    /// Resolve all heritage declarations to graph edges, each parent through
    /// the context's cache as `ResolutionContext::resolve` does. When the
    /// cache agrees with the current links and symbols, the edges are exactly
    /// those that the links and symbols give.
    pub fn resolve_heritage(heritage: &[ExtractedHeritage], ctx: &mut ResolutionContext, symbols: &SymbolTable) -> (r: Vec<ResolvedHeritage>)
        ensures
            final(ctx).links() == old(ctx).links(),
            ({
                let (es, c) = heritage_edges_cached(
                    old(ctx).links(),
                    symbols@,
                    |f: Seq<char>, n: Seq<char>| old(ctx).cached(f, n),
                    heritage@.map_values(|h: ExtractedHeritage| h@),
                );
                &&& r@.map_values(|e: ResolvedHeritage| e@) == es
                &&& forall|f: Seq<char>, n: Seq<char>| #[trigger] final(ctx).cached(f, n) == c(f, n)
            }),
            old(ctx).cache_consistent(symbols@) ==> final(ctx).cache_consistent(symbols@) && r@.map_values(
                |e: ResolvedHeritage| e@,
            ) == heritage_edges(old(ctx).links(), symbols@, heritage@.map_values(|h: ExtractedHeritage| h@)),
    {
        let ghost hs = heritage@.map_values(|h: ExtractedHeritage| h@);
        let ghost links = ctx.links();
        let ghost consistent = ctx.cache_consistent(symbols@);
        let ghost c0 = |f: Seq<char>, n: Seq<char>| ctx.cached(f, n);
        let mut results: Vec<ResolvedHeritage> = Vec::new();
        let mut i: usize = 0;
        while i < heritage.len()
            invariant
                hs == heritage@.map_values(|h: ExtractedHeritage| h@),
                c0 == (|f: Seq<char>, n: Seq<char>| old(ctx).cached(f, n)),
                results@.map_values(|e: ResolvedHeritage| e@) == heritage_edges_cached(links, symbols@, c0, hs.subrange(0, i as int)).0,
                forall|f: Seq<char>, n: Seq<char>| #[trigger] ctx.cached(f, n) == (heritage_edges_cached(links, symbols@, c0, hs.subrange(0, i as int)).1)(f, n),
                links == ctx.links(),
                links == old(ctx).links(),
                consistent == old(ctx).cache_consistent(symbols@),
                i <= hs.len(),
                consistent ==> ctx.cache_consistent(symbols@) && results@.map_values(|e: ResolvedHeritage| e@)
                    == heritage_edges(links, symbols@, hs.subrange(0, i as int)),
            decreases heritage.len() - i,
        {
            assert(hs.subrange(0, i + 1).drop_last() =~= hs.subrange(0, i as int));
            assert(hs.subrange(0, i + 1).last() == heritage@[i as int]@);
            let ghost before = results@;
            match Self::resolve_single(&heritage[i], ctx, symbols) {
                Some(resolved) => {
                    let ghost e = resolved@;
                    results.push(resolved);
                    assert(results@.map_values(|e: ResolvedHeritage| e@) =~= before.map_values(|e: ResolvedHeritage| e@).push(e));
                },
                None => {},
            }
            i = i + 1;
        }
        assert(hs.subrange(0, hs.len() as int) =~= hs);
        results
    }

    fn resolve_single(h: &ExtractedHeritage, ctx: &mut ResolutionContext, symbols: &SymbolTable) -> (r: Option<ResolvedHeritage>)
        ensures
            final(ctx).links() == old(ctx).links(),
            ({
                let a = answer_with_cache(
                    old(ctx).links(),
                    symbols@,
                    |f: Seq<char>, n: Seq<char>| old(ctx).cached(f, n),
                    h.parent_name@,
                    h.file_path@,
                );
                &&& match r {
                    Some(e) => heritage_edge(h@, a) == Some(e@),
                    None => heritage_edge(h@, a) is None,
                }
                &&& forall|f: Seq<char>, n: Seq<char>| #[trigger] final(ctx).cached(f, n) == (if f == h.file_path@ && n
                    == h.parent_name@ {
                    Some(a)
                } else {
                    old(ctx).cached(f, n)
                })
            }),
            old(ctx).cache_consistent(symbols@) ==> final(ctx).cache_consistent(symbols@) && match r {
                Some(e) => heritage_edge(h@, old(ctx).links().resolution(symbols@, h.parent_name@, h.file_path@)) == Some(e@),
                None => heritage_edge(h@, old(ctx).links().resolution(symbols@, h.parent_name@, h.file_path@)) is None,
            },
    {
        let resolved = ctx.resolve(h.parent_name.as_str(), h.file_path.as_str(), symbols);
        let ghost rv = opt_tiered_view(resolved);
        let sep = chars_of("::");
        let synthetic = concat(&concat(&chars_of(label_prefix(h.kind)), &sep), &chars_of(h.parent_name.as_str()));
        let (parent_id, parent_confidence) = match &resolved {
            Some(r) => {
                // Refuse ambiguous global matches (better uncertain than wrong)
                if r.tier == ResolutionTier::Global && r.candidates.len() > 1 {
                    (string_of(&synthetic), CONFIDENCE_GLOBAL)
                } else if let Some(best) = r.best() {
                    (best.definition.node_id.clone(), best.confidence)
                } else {
                    return None;
                }
            },
            None => {
                // Unresolved: synthetic ID with low confidence
                (string_of(&synthetic), CONFIDENCE_GLOBAL)
            },
        };
        // Determine actual edge type from resolution
        let rel_type = match h.kind {
            HeritageKind::Implements => RelationType::Implements,
            HeritageKind::Extends => {
                match &resolved {
                    Some(r) => match r.best() {
                        Some(best) => if best.definition.label == NodeLabel::Interface {
                            RelationType::Implements
                        } else {
                            RelationType::Extends
                        },
                        None => RelationType::Extends,
                    },
                    None => RelationType::Extends,
                }
            },
        };
        let verb = if rel_type == RelationType::Extends { "extends" } else { "implements" };
        let mut reason = chars_of("heritage: ");
        reason = concat(&reason, &chars_of(h.child_id.as_str()));
        reason = concat(&reason, &chars_of(" "));
        reason = concat(&reason, &chars_of(verb));
        reason = concat(&reason, &chars_of(" "));
        reason = concat(&reason, &chars_of(h.parent_name.as_str()));
        Some(ResolvedHeritage {
            child_id: h.child_id.clone(),
            parent_id,
            rel_type,
            parent_confidence,
            reason: string_of(&reason),
        })
    }
}

} // verus!
