//! Matching the symbols of two revisions. Three stages run in turn, by
//! location, by symbol key and by body; each pairs the symbols, among those
//! not matched yet, whose key occurs exactly once on each side.

use vstd::prelude::*;
use vstd::hash_map::StringHashMap;
use crate::diff::MatchKind;
use crate::text::{clone_opt_string, opt_string_view};

verus! {

/// A symbol of one revision with the keys by which it can be matched; a key
/// that is `None` never matches.
#[derive(Debug)]
pub struct KeyedSymbol {
    pub id: String,
    pub location_key: Option<String>,
    pub symbol_key: Option<String>,
    pub body_key: Option<String>,
}

/// The content of a keyed symbol.
pub struct KeyedView {
    pub id: Seq<char>,
    pub location_key: Option<Seq<char>>,
    pub symbol_key: Option<Seq<char>>,
    pub body_key: Option<Seq<char>>,
}

impl View for KeyedSymbol {
    type V = KeyedView;

    open spec fn view(&self) -> KeyedView {
        KeyedView {
            id: self.id@,
            location_key: opt_string_view(self.location_key),
            symbol_key: opt_string_view(self.symbol_key),
            body_key: opt_string_view(self.body_key),
        }
    }
}

impl KeyedSymbol {
    /// A copy of this symbol.
    pub fn duplicate(&self) -> (r: KeyedSymbol)
        ensures
            r@ == self@,
    {
        KeyedSymbol {
            id: self.id.clone(),
            location_key: clone_opt_string(&self.location_key),
            symbol_key: clone_opt_string(&self.symbol_key),
            body_key: clone_opt_string(&self.body_key),
        }
    }
}

/// One pair of matched symbols: the base id, the head id, and the stage that
/// paired them.
#[derive(Debug)]
pub struct SymbolMatch {
    pub base_id: String,
    pub head_id: String,
    pub kind: MatchKind,
}

impl View for SymbolMatch {
    type V = (Seq<char>, Seq<char>, MatchKind);

    open spec fn view(&self) -> (Seq<char>, Seq<char>, MatchKind) {
        (self.base_id@, self.head_id@, self.kind)
    }
}

/// The contents of a list of keyed symbols.
pub open spec fn keyed_views(s: Seq<KeyedSymbol>) -> Seq<KeyedView> {
    s.map_values(|x: KeyedSymbol| x@)
}

/// The contents of a list of matches.
pub open spec fn match_views(s: Seq<SymbolMatch>) -> Seq<(Seq<char>, Seq<char>, MatchKind)> {
    s.map_values(|x: SymbolMatch| x@)
}

/// The key a stage matches by.
pub open spec fn key_for(s: KeyedView, kind: MatchKind) -> Option<Seq<char>> {
    match kind {
        MatchKind::Location => s.location_key,
        MatchKind::Symbol => s.symbol_key,
        MatchKind::Body => s.body_key,
    }
}

/// How many symbols of `s` have key `k` in the stage.
pub open spec fn key_count(s: Seq<KeyedView>, kind: MatchKind, k: Seq<char>) -> nat
    decreases s.len(),
{
    if s.len() == 0 {
        0
    } else {
        key_count(s.drop_last(), kind, k) + if key_for(s.last(), kind) == Some(k) { 1nat } else { 0nat }
    }
}

/// The last position in `s` of a symbol with key `k`, or -1.
pub open spec fn key_index(s: Seq<KeyedView>, kind: MatchKind, k: Seq<char>) -> int
    decreases s.len(),
{
    if s.len() == 0 {
        -1
    } else if key_for(s.last(), kind) == Some(k) {
        s.len() - 1
    } else {
        key_index(s.drop_last(), kind, k)
    }
}

/// Whether key `k` occurs exactly once among the base symbols and exactly
/// once among the head symbols.
pub open spec fn unique_in_both(base: Seq<KeyedView>, head: Seq<KeyedView>, kind: MatchKind, k: Seq<char>) -> bool {
    key_count(base, kind, k) == 1 && key_count(head, kind, k) == 1
}

/// Whether the stage matches symbol `x` (of either side).
pub open spec fn stage_matched(base: Seq<KeyedView>, head: Seq<KeyedView>, kind: MatchKind, x: KeyedView) -> bool {
    match key_for(x, kind) {
        Some(k) => unique_in_both(base, head, kind, k),
        None => false,
    }
}

/// The pairs the stage makes for the base symbols of `prefix`, in their
/// order: each matched base symbol with the head symbol of the same key.
pub open spec fn stage_matches(
    prefix: Seq<KeyedView>,
    base: Seq<KeyedView>,
    head: Seq<KeyedView>,
    kind: MatchKind,
) -> Seq<(Seq<char>, Seq<char>, MatchKind)>
    decreases prefix.len(),
{
    if prefix.len() == 0 {
        Seq::empty()
    } else {
        let rest = stage_matches(prefix.drop_last(), base, head, kind);
        let b = prefix.last();
        match key_for(b, kind) {
            Some(k) => if unique_in_both(base, head, kind, k) {
                rest.push((b.id, head[key_index(head, kind, k)].id, kind))
            } else {
                rest
            },
            None => rest,
        }
    }
}

/// The symbols of `prefix` the stage leaves unmatched, in their order.
pub open spec fn unmatched(
    prefix: Seq<KeyedView>,
    base: Seq<KeyedView>,
    head: Seq<KeyedView>,
    kind: MatchKind,
) -> Seq<KeyedView>
    decreases prefix.len(),
{
    if prefix.len() == 0 {
        Seq::empty()
    } else {
        let rest = unmatched(prefix.drop_last(), base, head, kind);
        if stage_matched(base, head, kind, prefix.last()) {
            rest
        } else {
            rest.push(prefix.last())
        }
    }
}

/// The matches of the three stages, location, then symbol key, then body,
/// each stage running on the symbols the earlier ones left.
pub open spec fn symbol_matches(base: Seq<KeyedView>, head: Seq<KeyedView>) -> Seq<(Seq<char>, Seq<char>, MatchKind)> {
    let b1 = unmatched(base, base, head, MatchKind::Location);
    let h1 = unmatched(head, base, head, MatchKind::Location);
    let b2 = unmatched(b1, b1, h1, MatchKind::Symbol);
    let h2 = unmatched(h1, b1, h1, MatchKind::Symbol);
    stage_matches(base, base, head, MatchKind::Location)
        + stage_matches(b1, b1, h1, MatchKind::Symbol)
        + stage_matches(b2, b2, h2, MatchKind::Body)
}

/// A key that occurs counts at most the length, and its last position holds it.
proof fn lemma_key_index(s: Seq<KeyedView>, kind: MatchKind, k: Seq<char>)
    ensures
        key_count(s, kind, k) <= s.len(),
        key_count(s, kind, k) > 0 ==> 0 <= key_index(s, kind, k) < s.len()
            && key_for(s[key_index(s, kind, k)], kind) == Some(k),
    decreases s.len(),
{
    if s.len() > 0 {
        lemma_key_index(s.drop_last(), kind, k);
    }
}

/// The key a stage matches by, read from a symbol.
fn key_ref(s: &KeyedSymbol, kind: MatchKind) -> (r: Option<&String>)
    ensures
        match r {
            Some(x) => key_for(s@, kind) == Some(x@),
            None => key_for(s@, kind) is None,
        },
{
    match kind {
        MatchKind::Location => s.location_key.as_ref(),
        MatchKind::Symbol => s.symbol_key.as_ref(),
        MatchKind::Body => s.body_key.as_ref(),
    }
}

/// For each key of the stage, how often it occurs in `s` and its last
/// position.
fn count_keys(s: &Vec<KeyedSymbol>, kind: MatchKind) -> (m: StringHashMap<(usize, usize)>)
    ensures
        forall|k: Seq<char>| #[trigger] m@.contains_key(k) <==> key_count(keyed_views(s@), kind, k) > 0,
        forall|k: Seq<char>| #[trigger] m@.contains_key(k) ==> m@[k].0 == key_count(keyed_views(s@), kind, k)
            && m@[k].1 == key_index(keyed_views(s@), kind, k),
{
    let ghost all = keyed_views(s@);
    let mut m: StringHashMap<(usize, usize)> = StringHashMap::new();
    let mut i: usize = 0;
    while i < s.len()
        invariant
            i <= s.len(),
            all == keyed_views(s@),
            forall|k: Seq<char>| #[trigger] m@.contains_key(k) <==> key_count(all.take(i as int), kind, k) > 0,
            forall|k: Seq<char>| #[trigger] m@.contains_key(k) ==> m@[k].0 == key_count(all.take(i as int), kind, k)
                && m@[k].1 == key_index(all.take(i as int), kind, k),
        decreases s.len() - i,
    {
        let ghost pre = all.take(i as int);
        let ghost next = all.take(i + 1);
        proof {
            assert(next.drop_last() =~= pre);
            assert(next.last() == s@[i as int]@);
        }
        match key_ref(&s[i], kind) {
            Some(k) => {
                let c: usize = match m.get(k.as_str()) {
                    Some(e) => e.0,
                    None => 0,
                };
                proof {
                    lemma_key_index(pre, kind, k@);
                }
                m.insert(k.clone(), (c + 1, i));
                assert forall|q: Seq<char>| #[trigger] m@.contains_key(q) <==> key_count(next, kind, q) > 0 by {}
                assert forall|q: Seq<char>| #[trigger] m@.contains_key(q) implies m@[q].0 == key_count(next, kind, q)
                    && m@[q].1 == key_index(next, kind, q) by {}
            },
            None => {
                assert forall|q: Seq<char>| #[trigger] m@.contains_key(q) <==> key_count(next, kind, q) > 0 by {}
                assert forall|q: Seq<char>| #[trigger] m@.contains_key(q) implies m@[q].0 == key_count(next, kind, q)
                    && m@[q].1 == key_index(next, kind, q) by {}
            },
        }
        i = i + 1;
    }
    assert(all.take(s.len() as int) =~= all);
    m
}

/// The position in `head` of the symbol the stage pairs with `s`, where the
/// stage matches `s`.
fn partner_index(
    bc: &StringHashMap<(usize, usize)>,
    hc: &StringHashMap<(usize, usize)>,
    s: &KeyedSymbol,
    kind: MatchKind,
    Ghost(b): Ghost<Seq<KeyedView>>,
    Ghost(h): Ghost<Seq<KeyedView>>,
) -> (r: Option<usize>)
    requires
        forall|k: Seq<char>| #[trigger] bc@.contains_key(k) <==> key_count(b, kind, k) > 0,
        forall|k: Seq<char>| #[trigger] bc@.contains_key(k) ==> bc@[k].0 == key_count(b, kind, k)
            && bc@[k].1 == key_index(b, kind, k),
        forall|k: Seq<char>| #[trigger] hc@.contains_key(k) <==> key_count(h, kind, k) > 0,
        forall|k: Seq<char>| #[trigger] hc@.contains_key(k) ==> hc@[k].0 == key_count(h, kind, k)
            && hc@[k].1 == key_index(h, kind, k),
    ensures
        r is Some <==> stage_matched(b, h, kind, s@),
        match r {
            Some(j) => match key_for(s@, kind) {
                Some(k) => j == key_index(h, kind, k) && 0 <= j < h.len() && key_for(h[j as int], kind) == Some(k),
                None => false,
            },
            None => true,
        },
{
    match key_ref(s, kind) {
        Some(k) => {
            proof {
                lemma_key_index(h, kind, k@);
            }
            match (bc.get(k.as_str()), hc.get(k.as_str())) {
                (Some(x), Some(y)) => {
                    if x.0 == 1 && y.0 == 1 {
                        Some(y.1)
                    } else {
                        None
                    }
                },
                _ => None,
            }
        },
        None => None,
    }
}

/// What one stage makes: its matches, in base order, and the base and head
/// symbols it leaves, in their order.
#[derive(Debug)]
pub struct MatchStage {
    pub matches: Vec<SymbolMatch>,
    pub base_left: Vec<KeyedSymbol>,
    pub head_left: Vec<KeyedSymbol>,
}

/// One matching stage: each base symbol whose key occurs exactly once among
/// the base symbols and exactly once among the head symbols is paired with
/// the head symbol of that key; the others are left for the next stage.
pub fn match_unique_stage(base: &Vec<KeyedSymbol>, head: &Vec<KeyedSymbol>, kind: MatchKind) -> (r: MatchStage)
    ensures
        match_views(r.matches@) == stage_matches(keyed_views(base@), keyed_views(base@), keyed_views(head@), kind),
        keyed_views(r.base_left@) == unmatched(keyed_views(base@), keyed_views(base@), keyed_views(head@), kind),
        keyed_views(r.head_left@) == unmatched(keyed_views(head@), keyed_views(base@), keyed_views(head@), kind),
{
    let ghost b = keyed_views(base@);
    let ghost h = keyed_views(head@);
    let bc = count_keys(base, kind);
    let hc = count_keys(head, kind);
    let mut matches: Vec<SymbolMatch> = Vec::new();
    let mut base_left: Vec<KeyedSymbol> = Vec::new();
    let mut i: usize = 0;
    while i < base.len()
        invariant
            i <= base.len(),
            b == keyed_views(base@),
            h == keyed_views(head@),
            forall|k: Seq<char>| #[trigger] bc@.contains_key(k) <==> key_count(b, kind, k) > 0,
            forall|k: Seq<char>| #[trigger] bc@.contains_key(k) ==> bc@[k].0 == key_count(b, kind, k)
                && bc@[k].1 == key_index(b, kind, k),
            forall|k: Seq<char>| #[trigger] hc@.contains_key(k) <==> key_count(h, kind, k) > 0,
            forall|k: Seq<char>| #[trigger] hc@.contains_key(k) ==> hc@[k].0 == key_count(h, kind, k)
                && hc@[k].1 == key_index(h, kind, k),
            match_views(matches@) == stage_matches(b.take(i as int), b, h, kind),
            keyed_views(base_left@) == unmatched(b.take(i as int), b, h, kind),
        decreases base.len() - i,
    {
        let ghost pre = b.take(i as int);
        let ghost next = b.take(i + 1);
        proof {
            assert(next.drop_last() =~= pre);
            assert(next.last() == base@[i as int]@);
        }
        match partner_index(&bc, &hc, &base[i], kind, Ghost(b), Ghost(h)) {
            Some(j) => {
                let m = SymbolMatch { base_id: base[i].id.clone(), head_id: head[j].id.clone(), kind };
                proof {
                    assert(head@[j as int]@ == h[j as int]);
                }
                matches.push(m);
                assert(match_views(matches@) =~= stage_matches(pre, b, h, kind).push(m@));
                assert(keyed_views(base_left@) =~= unmatched(next, b, h, kind));
            },
            None => {
                let x = base[i].duplicate();
                base_left.push(x);
                assert(keyed_views(base_left@) =~= unmatched(pre, b, h, kind).push(x@));
                assert(match_views(matches@) =~= stage_matches(next, b, h, kind));
            },
        }
        i = i + 1;
    }
    assert(b.take(base.len() as int) =~= b);
    let mut head_left: Vec<KeyedSymbol> = Vec::new();
    let mut j: usize = 0;
    while j < head.len()
        invariant
            j <= head.len(),
            b == keyed_views(base@),
            h == keyed_views(head@),
            forall|k: Seq<char>| #[trigger] bc@.contains_key(k) <==> key_count(b, kind, k) > 0,
            forall|k: Seq<char>| #[trigger] bc@.contains_key(k) ==> bc@[k].0 == key_count(b, kind, k)
                && bc@[k].1 == key_index(b, kind, k),
            forall|k: Seq<char>| #[trigger] hc@.contains_key(k) <==> key_count(h, kind, k) > 0,
            forall|k: Seq<char>| #[trigger] hc@.contains_key(k) ==> hc@[k].0 == key_count(h, kind, k)
                && hc@[k].1 == key_index(h, kind, k),
            keyed_views(head_left@) == unmatched(h.take(j as int), b, h, kind),
        decreases head.len() - j,
    {
        let ghost pre = h.take(j as int);
        let ghost next = h.take(j + 1);
        proof {
            assert(next.drop_last() =~= pre);
            assert(next.last() == head@[j as int]@);
        }
        if partner_index(&bc, &hc, &head[j], kind, Ghost(b), Ghost(h)).is_none() {
            let x = head[j].duplicate();
            head_left.push(x);
            assert(keyed_views(head_left@) =~= unmatched(pre, b, h, kind).push(x@));
        } else {
            assert(keyed_views(head_left@) =~= unmatched(next, b, h, kind));
        }
        j = j + 1;
    }
    assert(h.take(head.len() as int) =~= h);
    MatchStage { matches, base_left, head_left }
}

/// Match the symbols of a base and a head revision in three stages, by
/// location, by symbol key and by body, each stage taking the symbols the
/// earlier ones left. Each match gives the base id, the head id and the
/// stage; the matches come stage by stage, each stage's in base order.
pub fn match_symbol_nodes(base: &Vec<KeyedSymbol>, head: &Vec<KeyedSymbol>) -> (r: Vec<SymbolMatch>)
    ensures
        match_views(r@) == symbol_matches(keyed_views(base@), keyed_views(head@)),
{
    let s1 = match_unique_stage(base, head, MatchKind::Location);
    let s2 = match_unique_stage(&s1.base_left, &s1.head_left, MatchKind::Symbol);
    let s3 = match_unique_stage(&s2.base_left, &s2.head_left, MatchKind::Body);
    let mut out = s1.matches;
    let mut m2 = s2.matches;
    let mut m3 = s3.matches;
    let ghost v1 = match_views(out@);
    let ghost v2 = match_views(m2@);
    let ghost v3 = match_views(m3@);
    out.append(&mut m2);
    assert(match_views(out@) =~= v1 + v2);
    out.append(&mut m3);
    assert(match_views(out@) =~= v1 + v2 + v3);
    out
}

/// No two symbols of `s` share an id.
pub open spec fn ids_distinct(s: Seq<KeyedView>) -> bool {
    forall|i: int, j: int| 0 <= i < j < s.len() ==> #[trigger] s[i].id != #[trigger] s[j].id
}

/// Match `m` pairs symbol `i` of `b` with symbol `j` of `h`, which share the
/// key of `m`'s stage.
pub open spec fn pair_at(
    m: (Seq<char>, Seq<char>, MatchKind),
    b: Seq<KeyedView>,
    h: Seq<KeyedView>,
    i: int,
    j: int,
) -> bool {
    &&& 0 <= i < b.len()
    &&& 0 <= j < h.len()
    &&& m.0 == b[i].id
    &&& m.1 == h[j].id
    &&& key_for(b[i], m.2) is Some
    &&& key_for(b[i], m.2) == key_for(h[j], m.2)
}

/// Match `m` pairs a symbol of `b` with a symbol of `h` that share its key.
pub open spec fn pair_in(m: (Seq<char>, Seq<char>, MatchKind), b: Seq<KeyedView>, h: Seq<KeyedView>) -> bool {
    exists|i: int, j: int| #[trigger] pair_at(m, b, h, i, j)
}

/// Match `m` pairs two symbols that stage `kind` matches.
spec fn pair_matched(m: (Seq<char>, Seq<char>, MatchKind), b: Seq<KeyedView>, h: Seq<KeyedView>, kind: MatchKind) -> bool {
    exists|i: int, j: int| #[trigger] pair_at(m, b, h, i, j) && stage_matched(b, h, kind, b[i])
        && stage_matched(b, h, kind, h[j])
}

/// Match `m` pairs two symbols that stage `kind` leaves.
spec fn pair_unmatched(m: (Seq<char>, Seq<char>, MatchKind), b: Seq<KeyedView>, h: Seq<KeyedView>, kind: MatchKind) -> bool {
    exists|i: int, j: int| #[trigger] pair_at(m, b, h, i, j) && !stage_matched(b, h, kind, b[i])
        && !stage_matched(b, h, kind, h[j])
}

/// The id of the head symbol the stage pairs with `x`.
spec fn partner_id(h: Seq<KeyedView>, kind: MatchKind, x: KeyedView) -> Seq<char> {
    match key_for(x, kind) {
        Some(k) => h[key_index(h, kind, k)].id,
        None => Seq::empty(),
    }
}

/// A key held at some position counts at least once.
proof fn lemma_count_positive(s: Seq<KeyedView>, kind: MatchKind, k: Seq<char>, i: int)
    requires
        0 <= i < s.len(),
        key_for(s[i], kind) == Some(k),
    ensures
        key_count(s, kind, k) >= 1,
    decreases s.len(),
{
    if i < s.len() - 1 {
        lemma_count_positive(s.drop_last(), kind, k, i);
    }
}

/// A key held at two positions counts at least twice.
proof fn lemma_count_two(s: Seq<KeyedView>, kind: MatchKind, k: Seq<char>, i: int, j: int)
    requires
        0 <= i < j < s.len(),
        key_for(s[i], kind) == Some(k),
        key_for(s[j], kind) == Some(k),
    ensures
        key_count(s, kind, k) >= 2,
    decreases s.len(),
{
    if j == s.len() - 1 {
        lemma_count_positive(s.drop_last(), kind, k, i);
    } else {
        lemma_count_two(s.drop_last(), kind, k, i, j);
    }
}

/// Every symbol a stage leaves is one of `p` that the stage does not match.
proof fn lemma_unmatched_members(p: Seq<KeyedView>, b: Seq<KeyedView>, h: Seq<KeyedView>, kind: MatchKind)
    ensures
        forall|t: int| 0 <= t < unmatched(p, b, h, kind).len() ==> exists|i: int|
            0 <= i < p.len() && #[trigger] unmatched(p, b, h, kind)[t] == p[i] && !stage_matched(b, h, kind, p[i]),
    decreases p.len(),
{
    if p.len() > 0 {
        let q = p.drop_last();
        lemma_unmatched_members(q, b, h, kind);
        let u = unmatched(p, b, h, kind);
        let uq = unmatched(q, b, h, kind);
        assert forall|t: int| 0 <= t < u.len() implies exists|i: int|
            0 <= i < p.len() && #[trigger] u[t] == p[i] && !stage_matched(b, h, kind, p[i]) by {
            if t < uq.len() {
                assert(u[t] == uq[t]);
                let i = choose|i: int| 0 <= i < q.len() && #[trigger] uq[t] == q[i] && !stage_matched(b, h, kind, q[i]);
                assert(p[i] == q[i]);
            } else {
                assert(u[t] == p[p.len() - 1]);
            }
        }
    }
}

/// A stage leaves symbols with distinct ids where it started with them.
proof fn lemma_unmatched_distinct(p: Seq<KeyedView>, b: Seq<KeyedView>, h: Seq<KeyedView>, kind: MatchKind)
    requires
        ids_distinct(p),
    ensures
        ids_distinct(unmatched(p, b, h, kind)),
    decreases p.len(),
{
    if p.len() > 0 {
        let q = p.drop_last();
        assert(ids_distinct(q)) by {
            assert forall|i: int, j: int| 0 <= i < j < q.len() implies #[trigger] q[i].id != #[trigger] q[j].id by {
                assert(q[i] == p[i] && q[j] == p[j]);
            }
        }
        lemma_unmatched_distinct(q, b, h, kind);
        lemma_unmatched_members(q, b, h, kind);
        let u = unmatched(p, b, h, kind);
        let uq = unmatched(q, b, h, kind);
        if !stage_matched(b, h, kind, p.last()) {
            assert forall|i: int, j: int| 0 <= i < j < u.len() implies #[trigger] u[i].id != #[trigger] u[j].id by {
                if j == u.len() - 1 {
                    assert(u[i] == uq[i]);
                    let x = choose|x: int| 0 <= x < q.len() && #[trigger] uq[i] == q[x] && !stage_matched(b, h, kind, q[x]);
                    assert(q[x] == p[x]);
                    assert(p[x].id != p[p.len() - 1].id);
                } else {
                    assert(u[i] == uq[i] && u[j] == uq[j]);
                }
            }
        }
    }
}

/// Match `t` of the stage pairs a matched symbol of `p` with its partner.
spec fn stage_entry(p: Seq<KeyedView>, b: Seq<KeyedView>, h: Seq<KeyedView>, kind: MatchKind, t: int) -> bool {
    exists|i: int| 0 <= i < p.len() && stage_matched(b, h, kind, p[i])
        && stage_matches(p, b, h, kind)[t] == (#[trigger] p[i].id, partner_id(h, kind, p[i]), kind)
}

/// Every match a stage makes pairs a matched symbol of `p` with its partner.
proof fn lemma_stage_members(p: Seq<KeyedView>, b: Seq<KeyedView>, h: Seq<KeyedView>, kind: MatchKind)
    ensures
        forall|t: int| 0 <= t < stage_matches(p, b, h, kind).len() ==> #[trigger] stage_entry(p, b, h, kind, t),
    decreases p.len(),
{
    if p.len() > 0 {
        let q = p.drop_last();
        lemma_stage_members(q, b, h, kind);
        let m = stage_matches(p, b, h, kind);
        let mq = stage_matches(q, b, h, kind);
        assert forall|t: int| 0 <= t < m.len() implies #[trigger] stage_entry(p, b, h, kind, t) by {
            if t < mq.len() {
                assert(m[t] == mq[t]);
                assert(stage_entry(q, b, h, kind, t));
                let i = choose|i: int| 0 <= i < q.len() && stage_matched(b, h, kind, q[i])
                    && mq[t] == (#[trigger] q[i].id, partner_id(h, kind, q[i]), kind);
                assert(p[i] == q[i]);
                assert(p[i].id == q[i].id);
            } else {
                let l = p.len() - 1;
                assert(m[t] == (p[l].id, partner_id(h, kind, p[l]), kind));
                assert(stage_matched(b, h, kind, p[l]));
            }
        }
    }
}

/// The base ids of a stage's matches are distinct where `p`'s are.
proof fn lemma_stage_base_distinct(p: Seq<KeyedView>, b: Seq<KeyedView>, h: Seq<KeyedView>, kind: MatchKind)
    requires
        ids_distinct(p),
    ensures
        forall|s: int, t: int| 0 <= s < t < stage_matches(p, b, h, kind).len()
            ==> #[trigger] stage_matches(p, b, h, kind)[s].0 != #[trigger] stage_matches(p, b, h, kind)[t].0,
    decreases p.len(),
{
    if p.len() > 0 {
        let q = p.drop_last();
        assert(ids_distinct(q)) by {
            assert forall|i: int, j: int| 0 <= i < j < q.len() implies #[trigger] q[i].id != #[trigger] q[j].id by {
                assert(q[i] == p[i] && q[j] == p[j]);
            }
        }
        lemma_stage_base_distinct(q, b, h, kind);
        lemma_stage_members(q, b, h, kind);
        let m = stage_matches(p, b, h, kind);
        let mq = stage_matches(q, b, h, kind);
        assert forall|s: int, t: int| 0 <= s < t < m.len() implies #[trigger] m[s].0 != #[trigger] m[t].0 by {
            assert(m[s] == mq[s]);
            if t == m.len() - 1 && m.len() > mq.len() {
                assert(stage_entry(q, b, h, kind, s));
                let i = choose|i: int| 0 <= i < q.len() && stage_matched(b, h, kind, q[i])
                    && mq[s] == (#[trigger] q[i].id, partner_id(h, kind, q[i]), kind);
                assert(q[i] == p[i]);
                assert(m[t].0 == p[p.len() - 1].id);
            } else {
                assert(m[t] == mq[t]);
            }
        }
    }
}

/// What one stage, run on all of `b` and `h`, makes: matches with distinct
/// base ids and distinct head ids, each pairing two symbols the stage
/// matches that share the stage's key.
proof fn lemma_stage_facts(b: Seq<KeyedView>, h: Seq<KeyedView>, kind: MatchKind)
    requires
        ids_distinct(b),
        ids_distinct(h),
    ensures
        forall|s: int, t: int| 0 <= s < t < stage_matches(b, b, h, kind).len()
            ==> #[trigger] stage_matches(b, b, h, kind)[s].0 != #[trigger] stage_matches(b, b, h, kind)[t].0
                && stage_matches(b, b, h, kind)[s].1 != stage_matches(b, b, h, kind)[t].1,
        forall|t: int| 0 <= t < stage_matches(b, b, h, kind).len()
            ==> #[trigger] stage_matches(b, b, h, kind)[t].2 == kind
                && pair_matched(stage_matches(b, b, h, kind)[t], b, h, kind),
{
    let m = stage_matches(b, b, h, kind);
    lemma_stage_members(b, b, h, kind);
    lemma_stage_base_distinct(b, b, h, kind);
    assert forall|t: int| 0 <= t < m.len() implies #[trigger] m[t].2 == kind && pair_matched(m[t], b, h, kind) by {
        assert(stage_entry(b, b, h, kind, t));
        let i = choose|i: int| 0 <= i < b.len() && stage_matched(b, h, kind, b[i])
            && m[t] == (#[trigger] b[i].id, partner_id(h, kind, b[i]), kind);
        let k = key_for(b[i], kind)->0;
        lemma_key_index(h, kind, k);
        let j = key_index(h, kind, k);
        assert(pair_at(m[t], b, h, i, j));
    }
    assert forall|s: int, t: int| 0 <= s < t < m.len() implies #[trigger] m[s].0 != #[trigger] m[t].0
        && m[s].1 != m[t].1 by {
        assert(stage_entry(b, b, h, kind, s));
        assert(stage_entry(b, b, h, kind, t));
        assert(m[s].0 != m[t].0);
        let i = choose|i: int| 0 <= i < b.len() && stage_matched(b, h, kind, b[i])
            && m[s] == (#[trigger] b[i].id, partner_id(h, kind, b[i]), kind);
        let x = choose|x: int| 0 <= x < b.len() && stage_matched(b, h, kind, b[x])
            && m[t] == (#[trigger] b[x].id, partner_id(h, kind, b[x]), kind);
        let ki = key_for(b[i], kind)->0;
        let kx = key_for(b[x], kind)->0;
        if ki == kx {
            assert(i != x);
            if i < x {
                lemma_count_two(b, kind, ki, i, x);
            } else {
                lemma_count_two(b, kind, ki, x, i);
            }
        }
        lemma_key_index(h, kind, ki);
        lemma_key_index(h, kind, kx);
        let ji = key_index(h, kind, ki);
        let jx = key_index(h, kind, kx);
        assert(ji != jx);
        if ji < jx {
            assert(h[ji].id != h[jx].id);
        } else {
            assert(h[jx].id != h[ji].id);
        }
    }
}

/// A match between symbols a stage left pairs symbols of the full lists
/// that the stage did not match.
proof fn lemma_lift(m: (Seq<char>, Seq<char>, MatchKind), b: Seq<KeyedView>, h: Seq<KeyedView>, kind: MatchKind)
    requires
        pair_in(m, unmatched(b, b, h, kind), unmatched(h, b, h, kind)),
    ensures
        pair_unmatched(m, b, h, kind),
        pair_in(m, b, h),
{
    let ub = unmatched(b, b, h, kind);
    let uh = unmatched(h, b, h, kind);
    lemma_unmatched_members(b, b, h, kind);
    lemma_unmatched_members(h, b, h, kind);
    let (i, j) = choose|i: int, j: int| #[trigger] pair_at(m, ub, uh, i, j);
    let x = choose|x: int| 0 <= x < b.len() && #[trigger] ub[i] == b[x] && !stage_matched(b, h, kind, b[x]);
    let y = choose|y: int| 0 <= y < h.len() && #[trigger] uh[j] == h[y] && !stage_matched(b, h, kind, h[y]);
    assert(pair_at(m, b, h, x, y));
}

/// A match between symbols a stage matched and one between symbols it left
/// share neither the base id nor the head id.
proof fn lemma_disjoint(
    m: (Seq<char>, Seq<char>, MatchKind),
    n: (Seq<char>, Seq<char>, MatchKind),
    b: Seq<KeyedView>,
    h: Seq<KeyedView>,
    kind: MatchKind,
)
    requires
        ids_distinct(b),
        ids_distinct(h),
        pair_matched(m, b, h, kind),
        pair_unmatched(n, b, h, kind),
    ensures
        m.0 != n.0,
        m.1 != n.1,
{
    let (i, j) = choose|i: int, j: int| #[trigger] pair_at(m, b, h, i, j) && stage_matched(b, h, kind, b[i])
        && stage_matched(b, h, kind, h[j]);
    let (x, y) = choose|x: int, y: int| #[trigger] pair_at(n, b, h, x, y) && !stage_matched(b, h, kind, b[x])
        && !stage_matched(b, h, kind, h[y]);
    if i < x {
        assert(b[i].id != b[x].id);
    } else {
        assert(b[x].id != b[i].id);
    }
    if j < y {
        assert(h[j].id != h[y].id);
    } else {
        assert(h[y].id != h[j].id);
    }
}

/// The matching of two revisions is one to one: where the ids on each side
/// are distinct, no two matches share a base symbol or a head symbol, and
/// each match pairs a base symbol with a head symbol that have the same key
/// for the match's stage.
pub proof fn lemma_matching_one_to_one(base: Seq<KeyedView>, head: Seq<KeyedView>)
    requires
        ids_distinct(base),
        ids_distinct(head),
    ensures
        forall|s: int, t: int| 0 <= s < t < symbol_matches(base, head).len()
            ==> #[trigger] symbol_matches(base, head)[s].0 != #[trigger] symbol_matches(base, head)[t].0
                && symbol_matches(base, head)[s].1 != symbol_matches(base, head)[t].1,
        forall|t: int| 0 <= t < symbol_matches(base, head).len()
            ==> #[trigger] pair_in(symbol_matches(base, head)[t], base, head),
{
    let b1 = unmatched(base, base, head, MatchKind::Location);
    let h1 = unmatched(head, base, head, MatchKind::Location);
    let b2 = unmatched(b1, b1, h1, MatchKind::Symbol);
    let h2 = unmatched(h1, b1, h1, MatchKind::Symbol);
    let m1 = stage_matches(base, base, head, MatchKind::Location);
    let m2 = stage_matches(b1, b1, h1, MatchKind::Symbol);
    let m3 = stage_matches(b2, b2, h2, MatchKind::Body);
    let m = symbol_matches(base, head);
    lemma_stage_facts(base, head, MatchKind::Location);
    lemma_unmatched_distinct(base, base, head, MatchKind::Location);
    lemma_unmatched_distinct(head, base, head, MatchKind::Location);
    lemma_stage_facts(b1, h1, MatchKind::Symbol);
    lemma_unmatched_distinct(b1, b1, h1, MatchKind::Symbol);
    lemma_unmatched_distinct(h1, b1, h1, MatchKind::Symbol);
    lemma_stage_facts(b2, h2, MatchKind::Body);
    assert(m =~= m1 + m2 + m3);
    assert forall|t: int| 0 <= t < m1.len() implies pair_matched(m1[t], base, head, MatchKind::Location)
        && pair_in(m1[t], base, head) by {
        assert(m1[t].2 == MatchKind::Location);
        let (i, j) = choose|i: int, j: int| #[trigger] pair_at(m1[t], base, head, i, j)
            && stage_matched(base, head, MatchKind::Location, base[i])
            && stage_matched(base, head, MatchKind::Location, head[j]);
    }
    assert forall|t: int| 0 <= t < m2.len() implies pair_matched(m2[t], b1, h1, MatchKind::Symbol)
        && pair_unmatched(m2[t], base, head, MatchKind::Location) && pair_in(m2[t], base, head) by {
        assert(m2[t].2 == MatchKind::Symbol);
        let (i, j) = choose|i: int, j: int| #[trigger] pair_at(m2[t], b1, h1, i, j)
            && stage_matched(b1, h1, MatchKind::Symbol, b1[i])
            && stage_matched(b1, h1, MatchKind::Symbol, h1[j]);
        lemma_lift(m2[t], base, head, MatchKind::Location);
    }
    assert forall|t: int| 0 <= t < m3.len() implies pair_unmatched(m3[t], b1, h1, MatchKind::Symbol)
        && pair_unmatched(m3[t], base, head, MatchKind::Location) && pair_in(m3[t], base, head) by {
        assert(m3[t].2 == MatchKind::Body);
        let (i, j) = choose|i: int, j: int| #[trigger] pair_at(m3[t], b2, h2, i, j)
            && stage_matched(b2, h2, MatchKind::Body, b2[i])
            && stage_matched(b2, h2, MatchKind::Body, h2[j]);
        lemma_lift(m3[t], b1, h1, MatchKind::Symbol);
        lemma_lift(m3[t], base, head, MatchKind::Location);
    }
    let l1 = m1.len() as int;
    let l2 = m2.len() as int;
    assert forall|t: int| 0 <= t < m.len() implies #[trigger] pair_in(m[t], base, head) by {
        if t < l1 {
            assert(m[t] == m1[t]);
        } else if t < l1 + l2 {
            assert(m[t] == m2[t - l1]);
        } else {
            assert(m[t] == m3[t - l1 - l2]);
        }
    }
    assert forall|s: int, t: int| 0 <= s < t < m.len() implies #[trigger] m[s].0 != #[trigger] m[t].0
        && m[s].1 != m[t].1 by {
        if t < l1 {
            assert(m[s] == m1[s] && m[t] == m1[t]);
        } else if t < l1 + l2 {
            assert(m[t] == m2[t - l1]);
            if s < l1 {
                assert(m[s] == m1[s]);
                lemma_disjoint(m1[s], m2[t - l1], base, head, MatchKind::Location);
            } else {
                assert(m[s] == m2[s - l1]);
            }
        } else {
            assert(m[t] == m3[t - l1 - l2]);
            if s < l1 {
                assert(m[s] == m1[s]);
                lemma_disjoint(m1[s], m3[t - l1 - l2], base, head, MatchKind::Location);
            } else if s < l1 + l2 {
                assert(m[s] == m2[s - l1]);
                lemma_disjoint(m2[s - l1], m3[t - l1 - l2], b1, h1, MatchKind::Symbol);
            } else {
                assert(m[s] == m3[s - l1 - l2]);
            }
        }
    }
}


/// The symbols with distinct location keys, each holding one.
pub open spec fn locations_distinct(k: Seq<KeyedView>) -> bool {
    &&& forall|i: int| 0 <= i < k.len() ==> (#[trigger] k[i]).location_key is Some
    &&& forall|i: int, j: int| 0 <= i < j < k.len() ==> (#[trigger] k[i]).location_key != (#[trigger] k[j]).location_key
}

proof fn lemma_unique_location(k: Seq<KeyedView>, i: int)
    requires
        locations_distinct(k),
        0 <= i < k.len(),
    ensures
        key_count(k, MatchKind::Location, k[i].location_key.unwrap()) == 1,
        key_index(k, MatchKind::Location, k[i].location_key.unwrap()) == i,
    decreases k.len(),
{
    let key = k[i].location_key.unwrap();
    let d = k.drop_last();
    assert(locations_distinct(d)) by {
        assert forall|a: int| 0 <= a < d.len() implies (#[trigger] d[a]).location_key is Some by {
            assert(d[a] == k[a]);
        }
        assert forall|a: int, b: int| 0 <= a < b < d.len() implies (#[trigger] d[a]).location_key != (#[trigger] d[b]).location_key by {
            assert(d[a] == k[a] && d[b] == k[b]);
        }
    }
    if i == k.len() - 1 {
        lemma_key_absent(d, k[i].location_key.unwrap(), k);
    } else {
        assert(d[i] == k[i]);
        lemma_unique_location(d, i);
        assert(k.last() == k[k.len() - 1]);
        assert(k[i].location_key != k[k.len() - 1].location_key);
    }
}

proof fn lemma_key_absent(d: Seq<KeyedView>, key: Seq<char>, k: Seq<KeyedView>)
    requires
        locations_distinct(k),
        k.len() > 0,
        d == k.drop_last(),
        k.last().location_key == Some(key),
    ensures
        key_count(d, MatchKind::Location, key) == 0,
    decreases d.len(),
{
    if d.len() > 0 {
        let k2 = k.drop_last().drop_last().push(k.last());
        assert(locations_distinct(k2)) by {
            assert forall|a: int| 0 <= a < k2.len() implies (#[trigger] k2[a]).location_key is Some by {
                if a < k2.len() - 1 {
                    assert(k2[a] == k[a]);
                } else {
                    assert(k2[a] == k[k.len() - 1]);
                }
            }
            assert forall|a: int, b: int| 0 <= a < b < k2.len() implies (#[trigger] k2[a]).location_key != (#[trigger] k2[b]).location_key by {
                assert(k2[a] == k[a]);
                if b < k2.len() - 1 {
                    assert(k2[b] == k[b]);
                } else {
                    assert(k2[b] == k[k.len() - 1]);
                }
            }
        }
        assert(k2.drop_last() =~= d.drop_last());
        lemma_key_absent(d.drop_last(), key, k2);
        assert(d.last() == k[k.len() - 2]);
        assert(k[k.len() - 2].location_key != k[k.len() - 1].location_key);
    }
}

proof fn lemma_stage_self(p: Seq<KeyedView>, k: Seq<KeyedView>)
    requires
        forall|i: int| 0 <= i < p.len() ==> #[trigger] key_for(p[i], MatchKind::Location) is Some && key_count(
            k,
            MatchKind::Location,
            key_for(p[i], MatchKind::Location).unwrap(),
        ) == 1 && k[key_index(k, MatchKind::Location, key_for(p[i], MatchKind::Location).unwrap())].id == p[i].id,
    ensures
        stage_matches(p, k, k, MatchKind::Location) == p.map_values(|x: KeyedView| (x.id, x.id, MatchKind::Location)),
        unmatched(p, k, k, MatchKind::Location).len() == 0,
    decreases p.len(),
{
    if p.len() > 0 {
        let d = p.drop_last();
        assert forall|i: int| 0 <= i < d.len() implies #[trigger] key_for(d[i], MatchKind::Location) is Some && key_count(
            k,
            MatchKind::Location,
            key_for(d[i], MatchKind::Location).unwrap(),
        ) == 1 && k[key_index(k, MatchKind::Location, key_for(d[i], MatchKind::Location).unwrap())].id == d[i].id by {
            assert(d[i] == p[i]);
            assert(key_for(p[i], MatchKind::Location) is Some);
        }
        lemma_stage_self(d, k);
        assert(key_for(p[p.len() - 1], MatchKind::Location) is Some);
        assert(p.map_values(|x: KeyedView| (x.id, x.id, MatchKind::Location)) =~= d.map_values(
            |x: KeyedView| (x.id, x.id, MatchKind::Location),
        ).push((p.last().id, p.last().id, MatchKind::Location)));
    }
}

/// Matching a revision's symbols with themselves, where their locations are
/// distinct, pairs each symbol with itself by location, in order.
pub proof fn lemma_self_matches(k: Seq<KeyedView>)
    requires
        locations_distinct(k),
    ensures
        symbol_matches(k, k) == k.map_values(|x: KeyedView| (x.id, x.id, MatchKind::Location)),
{
    assert forall|i: int| 0 <= i < k.len() implies #[trigger] key_for(k[i], MatchKind::Location) is Some && key_count(
        k,
        MatchKind::Location,
        key_for(k[i], MatchKind::Location).unwrap(),
    ) == 1 && k[key_index(k, MatchKind::Location, key_for(k[i], MatchKind::Location).unwrap())].id == k[i].id by {
        lemma_unique_location(k, i);
    }
    lemma_stage_self(k, k);
    let b1 = unmatched(k, k, k, MatchKind::Location);
    assert(b1 =~= Seq::<KeyedView>::empty());
    let m1 = stage_matches(k, k, k, MatchKind::Location);
    assert(stage_matches(b1, b1, b1, MatchKind::Symbol) =~= Seq::<(Seq<char>, Seq<char>, MatchKind)>::empty());
    let b2 = unmatched(b1, b1, b1, MatchKind::Symbol);
    assert(b2 =~= Seq::<KeyedView>::empty());
    assert(stage_matches(b2, b2, b2, MatchKind::Body) =~= Seq::<(Seq<char>, Seq<char>, MatchKind)>::empty());
    assert(symbol_matches(k, k) =~= m1 + Seq::empty() + Seq::empty());
}

} // verus!
