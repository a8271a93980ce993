//! Glob patterns where `*` stands for any run of characters (`/` included)
//! and every other character for itself.

use vstd::prelude::*;
use crate::text::{chars_of, contains_char, ends_with, spec_ends_with, spec_starts_with, starts_with, str_eq, sub_vec};

verus! {

/// Whether the pattern `p` matches the whole text `t`: `*` matches any
/// sequence of characters, any other character matches itself.
pub open spec fn glob(p: Seq<char>, t: Seq<char>) -> bool
    decreases p.len() + t.len(),
{
    if p.len() == 0 {
        t.len() == 0
    } else if p[0] == '*' {
        glob(p.drop_first(), t) || (t.len() > 0 && glob(p, t.drop_first()))
    } else {
        t.len() > 0 && t[0] == p[0] && glob(p.drop_first(), t.drop_first())
    }
}

/// The number of stars in `p`.
pub open spec fn star_count(p: Seq<char>) -> nat
    decreases p.len(),
{
    if p.len() == 0 {
        0
    } else if p[0] == '*' {
        1 + star_count(p.drop_first())
    } else {
        star_count(p.drop_first())
    }
}

/// `p` with its stars replaced, in order, by the texts `fills`.
pub open spec fn substitute(p: Seq<char>, fills: Seq<Seq<char>>) -> Seq<char>
    decreases p.len(),
{
    if p.len() == 0 {
        Seq::empty()
    } else if p[0] == '*' {
        fills[0] + substitute(p.drop_first(), fills.drop_first())
    } else {
        seq![p[0]] + substitute(p.drop_first(), fills)
    }
}

/// A pattern matches exactly the texts that it turns into when each of its
/// stars is replaced by some text.
pub proof fn lemma_glob_is_substitution(p: Seq<char>, t: Seq<char>)
    ensures
        glob(p, t) <==> exists|fills: Seq<Seq<char>>| fills.len() == star_count(p) && #[trigger] substitute(p, fills) == t,
    decreases p.len() + t.len(),
{
    if p.len() == 0 {
        if t.len() == 0 {
            let w = Seq::<Seq<char>>::empty();
            assert(substitute(p, w) =~= t);
        }
    } else if p[0] == '*' {
        let q = p.drop_first();
        lemma_glob_is_substitution(q, t);
        if glob(p, t) {
            if glob(q, t) {
                let f = choose|fills: Seq<Seq<char>>| fills.len() == star_count(q) && #[trigger] substitute(q, fills) == t;
                let w = seq![Seq::<char>::empty()] + f;
                assert(w.drop_first() =~= f);
                assert(substitute(p, w) =~= t);
            } else {
                let t1 = t.drop_first();
                lemma_glob_is_substitution(p, t1);
                let f = choose|fills: Seq<Seq<char>>| fills.len() == star_count(p) && #[trigger] substitute(p, fills) == t1;
                assert(star_count(p) == 1 + star_count(q));
                assert(f.len() > 0);
                let w = f.update(0, seq![t[0]] + f[0]);
                assert(w[0] == seq![t[0]] + f[0]);
                assert(w.drop_first() =~= f.drop_first());
                let tail = substitute(q, f.drop_first());
                assert(substitute(p, f) == f[0] + tail);
                assert(substitute(p, w) == w[0] + tail);
                assert(t =~= seq![t[0]] + t1);
                assert((seq![t[0]] + f[0]) + tail =~= seq![t[0]] + (f[0] + tail));
                assert(substitute(p, w) =~= t);
            }
        }
        if exists|fills: Seq<Seq<char>>| fills.len() == star_count(p) && #[trigger] substitute(p, fills) == t {
            let f = choose|fills: Seq<Seq<char>>| fills.len() == star_count(p) && #[trigger] substitute(p, fills) == t;
            let rest = f.drop_first();
            assert(t == f[0] + substitute(q, rest));
            if f[0].len() == 0 {
                assert(substitute(q, rest) =~= t);
                assert(glob(q, t));
            } else {
                let t1 = t.drop_first();
                let w = f.update(0, f[0].drop_first());
                assert(w.drop_first() =~= rest);
                assert(substitute(p, w) == w[0] + substitute(q, w.drop_first()));
                assert(substitute(p, w) =~= t1);
                lemma_glob_is_substitution(p, t1);
                assert(glob(p, t1));
            }
        }
    } else {
        let q = p.drop_first();
        if t.len() > 0 {
            let t1 = t.drop_first();
            lemma_glob_is_substitution(q, t1);
            if glob(p, t) {
                let f = choose|fills: Seq<Seq<char>>| fills.len() == star_count(q) && #[trigger] substitute(q, fills) == t1;
                assert(substitute(p, f) =~= t);
            }
            if exists|fills: Seq<Seq<char>>| fills.len() == star_count(p) && #[trigger] substitute(p, fills) == t {
                let f = choose|fills: Seq<Seq<char>>| fills.len() == star_count(p) && #[trigger] substitute(p, fills) == t;
                assert(t == seq![p[0]] + substitute(q, f));
                assert(substitute(q, f) =~= t1);
            }
        } else {
            if exists|fills: Seq<Seq<char>>| fills.len() == star_count(p) && #[trigger] substitute(p, fills) == t {
                let f = choose|fills: Seq<Seq<char>>| fills.len() == star_count(p) && #[trigger] substitute(p, fills) == t;
                assert(substitute(p, f).len() >= 1);
            }
        }
    }
}

/// Whether `s` holds no `*`.
pub open spec fn star_free(s: Seq<char>) -> bool {
    forall|i: int| 0 <= i < s.len() ==> #[trigger] s[i] != '*'
}

/// A leading `*` matches any prefix of the text.
pub proof fn lemma_star_absorbs(q: Seq<char>, x: Seq<char>)
    ensures
        glob(seq!['*'] + q, x) <==> exists|k: int| 0 <= k <= x.len() && #[trigger] glob(q, x.subrange(k, x.len() as int)),
    decreases x.len(),
{
    let p = seq!['*'] + q;
    assert(p[0] == '*');
    assert(p.drop_first() =~= q);
    assert(x.subrange(0, x.len() as int) =~= x);
    if glob(q, x) {
        assert(glob(q, x.subrange(0, x.len() as int)));
    }
    if x.len() > 0 {
        let x1 = x.drop_first();
        assert(glob(p, x) == (glob(q, x) || glob(p, x1)));
        lemma_star_absorbs(q, x1);
        if glob(p, x1) {
            let k1 = choose|k: int| 0 <= k <= x1.len() && #[trigger] glob(q, x1.subrange(k, x1.len() as int));
            assert(x1.subrange(k1, x1.len() as int) =~= x.subrange(k1 + 1, x.len() as int));
            assert(glob(q, x.subrange(k1 + 1, x.len() as int)));
        }
        if exists|k: int| 0 <= k <= x.len() && #[trigger] glob(q, x.subrange(k, x.len() as int)) {
            let k = choose|k: int| 0 <= k <= x.len() && #[trigger] glob(q, x.subrange(k, x.len() as int));
            if k > 0 {
                assert(x1.subrange(k - 1, x1.len() as int) =~= x.subrange(k, x.len() as int));
                assert(glob(q, x1.subrange(k - 1, x1.len() as int)));
            }
        }
    } else {
        assert(glob(p, x) == glob(q, x));
        if exists|k: int| 0 <= k <= x.len() && #[trigger] glob(q, x.subrange(k, x.len() as int)) {
            let k = choose|k: int| 0 <= k <= x.len() && #[trigger] glob(q, x.subrange(k, x.len() as int));
            assert(k == 0);
        }
    }
}

/// A star-free head must be a prefix of the text, and the rest matches
/// what follows it.
pub proof fn lemma_literal_prefix(seg: Seq<char>, q: Seq<char>, x: Seq<char>)
    requires
        star_free(seg),
    ensures
        glob(seg + q, x) <==> (seg.len() <= x.len() && x.subrange(0, seg.len() as int) == seg && glob(
            q,
            x.subrange(seg.len() as int, x.len() as int),
        )),
    decreases seg.len(),
{
    if seg.len() == 0 {
        assert(seg + q =~= q);
        assert(x.subrange(0, 0) =~= seg);
        assert(x.subrange(0, x.len() as int) =~= x);
    } else {
        let p = seg + q;
        let s1 = seg.drop_first();
        assert(p[0] == seg[0]);
        assert(seg[0] != '*');
        assert(p.drop_first() =~= s1 + q);
        assert(star_free(s1)) by {
            assert forall|i: int| 0 <= i < s1.len() implies #[trigger] s1[i] != '*' by {
                assert(s1[i] == seg[i + 1]);
            }
        }
        if x.len() > 0 {
            let x1 = x.drop_first();
            lemma_literal_prefix(s1, q, x1);
            if s1.len() <= x1.len() {
                assert(x1.subrange(s1.len() as int, x1.len() as int) =~= x.subrange(seg.len() as int, x.len() as int));
                if x.subrange(0, seg.len() as int) == seg {
                    assert(x[0] == x.subrange(0, seg.len() as int)[0]);
                    assert(x1.subrange(0, s1.len() as int) =~= x.subrange(0, seg.len() as int).drop_first());
                }
                if x[0] == seg[0] && x1.subrange(0, s1.len() as int) == s1 {
                    assert(x.subrange(0, seg.len() as int) =~= seq![x[0]] + x1.subrange(0, s1.len() as int));
                    assert(seg =~= seq![seg[0]] + s1);
                }
            }
        }
    }
}

/// A star-free pattern matches exactly itself.
pub proof fn lemma_star_free_matches_itself_only(seg: Seq<char>, x: Seq<char>)
    requires
        star_free(seg),
    ensures
        glob(seg, x) <==> seg == x,
{
    lemma_literal_prefix(seg, Seq::empty(), x);
    assert(seg + Seq::<char>::empty() =~= seg);
    if seg.len() <= x.len() && x.subrange(0, seg.len() as int) == seg && x.subrange(seg.len() as int, x.len() as int).len() == 0 {
        assert(x =~= seg);
    }
    if seg == x {
        assert(x.subrange(0, seg.len() as int) =~= seg);
    }
}

/// Every pattern matches its own text.
pub proof fn lemma_glob_reflexive(p: Seq<char>)
    ensures
        glob(p, p),
    decreases p.len(),
{
    if p.len() > 0 {
        lemma_glob_reflexive(p.drop_first());
        if p[0] == '*' {
            assert(glob(p.drop_first(), p.drop_first()));
            assert(glob(p, p.drop_first()));
        }
    }
}

/// `*` alone matches every text.
pub proof fn lemma_star_matches_all(x: Seq<char>)
    ensures
        glob(seq!['*'], x),
{
    lemma_star_absorbs(Seq::empty(), x);
    assert(seq!['*'] + Seq::<char>::empty() =~= seq!['*']);
    assert(glob(Seq::<char>::empty(), x.subrange(x.len() as int, x.len() as int)));
}

proof fn lemma_star_suffix_monotone(r: Seq<char>, x: Seq<char>, i: int, j: int)
    requires
        0 <= i <= j <= x.len(),
        glob(seq!['*'] + r, x.subrange(j, x.len() as int)),
    ensures
        glob(seq!['*'] + r, x.subrange(i, x.len() as int)),
{
    let y = x.subrange(j, x.len() as int);
    let z = x.subrange(i, x.len() as int);
    lemma_star_absorbs(r, y);
    lemma_star_absorbs(r, z);
    let k = choose|k: int| 0 <= k <= y.len() && #[trigger] glob(r, y.subrange(k, y.len() as int));
    assert(y.subrange(k, y.len() as int) =~= z.subrange(k + (j - i), z.len() as int));
}

proof fn lemma_double_star(r: Seq<char>, x: Seq<char>)
    ensures
        glob(seq!['*'] + (seq!['*'] + r), x) == glob(seq!['*'] + r, x),
{
    lemma_star_absorbs(seq!['*'] + r, x);
    lemma_star_absorbs(r, x);
    if glob(seq!['*'] + (seq!['*'] + r), x) {
        let k = choose|k: int| 0 <= k <= x.len() && #[trigger] glob(seq!['*'] + r, x.subrange(k, x.len() as int));
        lemma_star_suffix_monotone(r, x, 0, k);
        assert(x.subrange(0, x.len() as int) =~= x);
    }
    if glob(seq!['*'] + r, x) {
        assert(x.subrange(0, x.len() as int) =~= x);
        assert(glob(seq!['*'] + r, x.subrange(0, x.len() as int)));
    }
}

/// A leading `*` followed by a star-free tail matches exactly the texts
/// that end with the tail.
pub proof fn lemma_star_then_literal(seg: Seq<char>, x: Seq<char>)
    requires
        star_free(seg),
    ensures
        glob(seq!['*'] + seg, x) <==> (seg.len() <= x.len() && x.subrange(x.len() - seg.len(), x.len() as int) == seg),
{
    lemma_star_absorbs(seg, x);
    if glob(seq!['*'] + seg, x) {
        let k = choose|k: int| 0 <= k <= x.len() && #[trigger] glob(seg, x.subrange(k, x.len() as int));
        lemma_star_free_matches_itself_only(seg, x.subrange(k, x.len() as int));
    }
    if seg.len() <= x.len() && x.subrange(x.len() - seg.len(), x.len() as int) == seg {
        let k = x.len() - seg.len();
        lemma_star_free_matches_itself_only(seg, x.subrange(k, x.len() as int));
        assert(glob(seg, x.subrange(k, x.len() as int)));
    }
}

/// Whether `seg` occurs in `x` at position `i`.
pub open spec fn occurs_at(x: Seq<char>, seg: Seq<char>, i: int) -> bool {
    0 <= i && i + seg.len() <= x.len() && x.subrange(i, i + seg.len()) == seg
}

/// Between two stars, a star-free run may be taken at its leftmost
/// occurrence: nothing is lost by matching it as early as possible.
pub proof fn lemma_star_literal_star(seg: Seq<char>, r: Seq<char>, x: Seq<char>, i: int)
    requires
        star_free(seg),
        occurs_at(x, seg, i),
        forall|j: int| 0 <= j < i ==> !#[trigger] occurs_at(x, seg, j),
    ensures
        glob(seq!['*'] + (seg + (seq!['*'] + r)), x) == glob(seq!['*'] + r, x.subrange(i + seg.len(), x.len() as int)),
{
    let rest = seq!['*'] + r;
    lemma_star_absorbs(seg + rest, x);
    if glob(seq!['*'] + (seg + rest), x) {
        let k = choose|k: int| 0 <= k <= x.len() && #[trigger] glob(seg + rest, x.subrange(k, x.len() as int));
        let y = x.subrange(k, x.len() as int);
        lemma_literal_prefix(seg, rest, y);
        assert(y.subrange(0, seg.len() as int) =~= x.subrange(k, k + seg.len()));
        assert(occurs_at(x, seg, k));
        assert(i <= k);
        assert(y.subrange(seg.len() as int, y.len() as int) =~= x.subrange(k + seg.len(), x.len() as int));
        lemma_star_suffix_monotone(r, x, i + seg.len(), k + seg.len());
    }
    if glob(rest, x.subrange(i + seg.len(), x.len() as int)) {
        let y = x.subrange(i, x.len() as int);
        lemma_literal_prefix(seg, rest, y);
        assert(y.subrange(0, seg.len() as int) =~= x.subrange(i, i + seg.len()));
        assert(y.subrange(seg.len() as int, y.len() as int) =~= x.subrange(i + seg.len(), x.len() as int));
        assert(glob(seg + rest, x.subrange(i, x.len() as int)));
    }
}

/// The index of the first `*` in `p` at or after `from`, or `p.len()`.
fn next_star(p: &[char], from: usize) -> (r: usize)
    requires
        from <= p.len(),
    ensures
        from <= r <= p.len(),
        r < p.len() ==> p@[r as int] == '*',
        star_free(p@.subrange(from as int, r as int)),
{
    let mut i = from;
    while i < p.len() && p[i] != '*'
        invariant
            from <= i <= p.len(),
            star_free(p@.subrange(from as int, i as int)),
        decreases p.len() - i,
    {
        assert(star_free(p@.subrange(from as int, i + 1))) by {
            assert forall|k: int| 0 <= k < i + 1 - from implies #[trigger] p@.subrange(from as int, i + 1)[k] != '*' by {
                if k < i - from {
                    assert(p@.subrange(from as int, i + 1)[k] == p@.subrange(from as int, i as int)[k]);
                }
            }
        }
        i = i + 1;
    }
    i
}

/// The first position at or after `from` where `seg` occurs in `x`.
fn find_from(x: &[char], from: usize, seg: &[char]) -> (r: Option<usize>)
    requires
        from <= x.len(),
    ensures
        match r {
            Some(i) => from <= i && occurs_at(x@, seg@, i as int) && forall|j: int| from <= j < i ==> !#[trigger] occurs_at(x@, seg@, j),
            None => forall|j: int| from <= j ==> !#[trigger] occurs_at(x@, seg@, j),
        },
{
    if seg.len() > x.len() {
        return None;
    }
    let last = x.len() - seg.len();
    let mut i = from;
    while i <= last
        invariant
            from <= i,
            last == x.len() - seg.len(),
            forall|j: int| from <= j < i ==> !#[trigger] occurs_at(x@, seg@, j),
        decreases last + 1 - i,
    {
        let mut k: usize = 0;
        while k < seg.len() && x[i + k] == seg[k]
            invariant
                i <= last,
                last == x.len() - seg.len(),
                k <= seg.len(),
                forall|m: int| 0 <= m < k ==> x@[i + m] == seg@[m],
            decreases seg.len() - k,
        {
            k = k + 1;
        }
        if k == seg.len() {
            assert(x@.subrange(i as int, i + seg.len()) =~= seg@);
            return Some(i);
        }
        assert(x@.subrange(i as int, i + seg.len())[k as int] != seg@[k as int]);
        i = i + 1;
    }
    None
}

/// One run of the pattern after the star at `st`, up to the next star at
/// `ns` (or the end): what matching the rest of the pattern from `st`
/// against `x` comes to.
proof fn lemma_run(p: Seq<char>, st: int, ns: int, x: Seq<char>)
    requires
        0 <= st < ns <= p.len(),
        p[st] == '*',
        ns < p.len() ==> p[ns] == '*',
        star_free(p.subrange(st + 1, ns)),
    ensures
        ns == st + 1 && ns == p.len() ==> glob(p.subrange(st, p.len() as int), x),
        ns == st + 1 && ns < p.len() ==> glob(p.subrange(st, p.len() as int), x) == glob(
            p.subrange(ns, p.len() as int),
            x,
        ),
        ns > st + 1 && ns == p.len() ==> glob(p.subrange(st, p.len() as int), x) == spec_ends_with(
            x,
            p.subrange(st + 1, ns),
        ),
{
    let seg = p.subrange(st + 1, ns);
    assert(p.subrange(st, p.len() as int) =~= seq!['*'] + (seg + p.subrange(ns, p.len() as int)));
    if ns == p.len() {
        assert(seg + p.subrange(ns, p.len() as int) =~= seg);
        if ns == st + 1 {
            assert(seg =~= Seq::<char>::empty());
            assert(seq!['*'] + Seq::<char>::empty() =~= seq!['*']);
            lemma_star_matches_all(x);
        } else {
            lemma_star_then_literal(seg, x);
        }
    } else if ns == st + 1 {
        let r = p.subrange(ns + 1, p.len() as int);
        assert(seg + p.subrange(ns, p.len() as int) =~= seq!['*'] + r);
        assert(p.subrange(ns, p.len() as int) =~= seq!['*'] + r);
        lemma_double_star(r, x);
    }
}

/// A run between two stars, matched at its leftmost occurrence `found` in
/// `x` (or nowhere).
proof fn lemma_middle_run(p: Seq<char>, st: int, ns: int, x: Seq<char>, found: Option<int>)
    requires
        0 <= st,
        st + 1 < ns < p.len(),
        p[st] == '*',
        p[ns] == '*',
        star_free(p.subrange(st + 1, ns)),
        match found {
            Some(i) => occurs_at(x, p.subrange(st + 1, ns), i) && forall|j: int|
                0 <= j < i ==> !#[trigger] occurs_at(x, p.subrange(st + 1, ns), j),
            None => forall|j: int| 0 <= j ==> !#[trigger] occurs_at(x, p.subrange(st + 1, ns), j),
        },
    ensures
        match found {
            Some(i) => glob(p.subrange(st, p.len() as int), x) == glob(
                p.subrange(ns, p.len() as int),
                x.subrange(i + (ns - st - 1), x.len() as int),
            ),
            None => !glob(p.subrange(st, p.len() as int), x),
        },
{
    let seg = p.subrange(st + 1, ns);
    let r = p.subrange(ns + 1, p.len() as int);
    assert(p.subrange(ns, p.len() as int) =~= seq!['*'] + r);
    assert(p.subrange(st, p.len() as int) =~= seq!['*'] + (seg + (seq!['*'] + r)));
    match found {
        Some(i) => {
            lemma_star_literal_star(seg, r, x, i);
        },
        None => {
            lemma_star_absorbs(seg + (seq!['*'] + r), x);
            if glob(p.subrange(st, p.len() as int), x) {
                let k = choose|k: int| 0 <= k <= x.len() && #[trigger] glob(seg + (seq!['*'] + r), x.subrange(k, x.len() as int));
                let y = x.subrange(k, x.len() as int);
                lemma_literal_prefix(seg, seq!['*'] + r, y);
                assert(y.subrange(0, seg.len() as int) =~= x.subrange(k, k + seg.len()));
                assert(occurs_at(x, seg, k));
            }
        },
    }
}

/// The pattern's head before its first star, `p[..s0]`, against the text.
proof fn lemma_head(p: Seq<char>, s0: int, t: Seq<char>)
    requires
        0 <= s0 <= p.len(),
        star_free(p.subrange(0, s0)),
    ensures
        glob(p, t) == (spec_starts_with(t, p.subrange(0, s0)) && glob(
            p.subrange(s0, p.len() as int),
            t.subrange(s0, t.len() as int),
        )),
{
    assert(p =~= p.subrange(0, s0) + p.subrange(s0, p.len() as int));
    lemma_literal_prefix(p.subrange(0, s0), p.subrange(s0, p.len() as int), t);
}

/// Whether `pattern` matches the whole of `text`, `*` matching any run of
/// characters.
pub fn glob_match(pattern: &str, text: &str) -> (r: bool)
    ensures
        r == glob(pattern@, text@),
{
    if str_eq(pattern, text) {
        proof {
            lemma_glob_reflexive(pattern@);
        }
        return true;
    }
    let p = chars_of(pattern);
    let t = chars_of(text);
    if !contains_char(&p, '*') {
        proof {
            assert(star_free(p@));
            lemma_star_free_matches_itself_only(p@, t@);
        }
        return false;
    }
    let n = p.len();
    // The part before the first star must be a prefix of the text.
    let s0 = next_star(&p, 0);
    let head = sub_vec(&p, 0, s0);
    proof {
        lemma_head(p@, s0 as int, t@);
        if s0 == n {
            let j = choose|j: int| 0 <= j < p@.len() && p@[j] == '*';
            assert(p@.subrange(0, s0 as int)[j] == p@[j]);
        }
    }
    if !starts_with(&t, &head) {
        return false;
    }
    let mut st = s0;
    let mut ti = s0;
    loop
        invariant
            n == p.len(),
            st < n,
            p@[st as int] == '*',
            ti <= t.len(),
            glob(pattern@, text@) == glob(p@.subrange(st as int, n as int), t@.subrange(ti as int, t.len() as int)),
        decreases n - st,
    {
        let ns = next_star(&p, st + 1);
        let x = sub_vec(&t, ti, t.len());
        proof {
            lemma_run(p@, st as int, ns as int, x@);
        }
        if ns == st + 1 {
            // A trailing star matches the rest; two stars in a row act as one.
            if ns == n {
                return true;
            }
            st = ns;
            continue;
        }
        let part = sub_vec(&p, st + 1, ns);
        if ns == n {
            // The last run must end the text.
            return ends_with(&x, &part);
        }
        // A run between two stars: take its leftmost occurrence.
        let found = find_from(&x, 0, &part);
        proof {
            let ghost g = match found {
                Some(i) => Some(i as int),
                None => None::<int>,
            };
            lemma_middle_run(p@, st as int, ns as int, x@, g);
        }
        match found {
            None => {
                return false;
            },
            Some(i) => {
                assert(x@.subrange(i + part.len(), x@.len() as int) =~= t@.subrange(ti + i + part.len(), t.len() as int));
                ti = ti + i + part.len();
                st = ns;
            },
        }
    }
}

} // verus!
