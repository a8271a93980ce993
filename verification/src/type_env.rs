//! Type propagation: which type each variable has, per scope, and the fixpoint
//! that resolves pending assignments to types.

use vstd::prelude::*;
use crate::config::Config;
use crate::symbol_table::{SymbolInfo, SymbolTable, SymbolDefinition, defs_view, in_file};
use vstd::utf8::encode_utf8;
use crate::resolution::latest;
use crate::text::{
    clone_opt_string, opt_string_view, str_eq,
    chars_eq, chars_of, contains_char, ends_with, spec_ends_with, spec_split, spec_starts_with,
    spec_trim, spec_trim_end, spec_trim_start, split_char, starts_with, string_of, sub_vec, trim,
};

verus! {

proof fn lemma_trim_start_len(s: Seq<char>)
    ensures
        spec_trim_start(s).len() <= s.len(),
    decreases s.len(),
{
    if s.len() > 0 && crate::text::spec_is_whitespace(s[0]) {
        lemma_trim_start_len(s.drop_first());
    }
}

proof fn lemma_trim_end_len(s: Seq<char>)
    ensures
        spec_trim_end(s).len() <= s.len(),
    decreases s.len(),
{
    if s.len() > 0 && crate::text::spec_is_whitespace(s.last()) {
        lemma_trim_end_len(s.drop_last());
    }
}

/// Trimming never lengthens.
pub proof fn lemma_trim_len(s: Seq<char>)
    ensures
        spec_trim(s).len() <= s.len(),
{
    lemma_trim_start_len(s);
    lemma_trim_end_len(spec_trim_start(s));
}

/// No part of a split is longer than the text; each is shorter when the text
/// holds the separator.
pub proof fn lemma_split_part_len(s: Seq<char>, sep: char, k: int)
    requires
        0 <= k < spec_split(s, sep).len(),
    ensures
        spec_split(s, sep)[k].len() <= s.len(),
        s.contains(sep) ==> spec_split(s, sep)[k].len() < s.len(),
    decreases s.len(),
{
    if s.len() > 0 {
        let d = s.drop_last();
        crate::text::lemma_split_nonempty(d, sep);
        let p = spec_split(d, sep);
        if s.last() == sep {
            if k < p.len() {
                lemma_split_part_len(d, sep, k);
            }
        } else {
            if k < p.len() - 1 {
                lemma_split_part_len(d, sep, k);
                if s.contains(sep) {
                    let j = choose|j: int| 0 <= j < s.len() && s[j] == sep;
                    assert(d[j] == sep);
                }
            } else {
                lemma_split_part_len(d, sep, k);
                if s.contains(sep) {
                    let j = choose|j: int| 0 <= j < s.len() && s[j] == sep;
                    assert(d[j] == sep);
                }
            }
        }
    }
}

/// Whether `p` names no type: `null`, `undefined` or `void`.
pub open spec fn is_nullish(p: Seq<char>) -> bool {
    p == "null"@ || p == "undefined"@ || p == "void"@
}

/// The first part, trimmed, that is not nullish.
pub open spec fn first_non_nullish(parts: Seq<Seq<char>>) -> Option<Seq<char>>
    decreases parts.len(),
{
    if parts.len() == 0 {
        None
    } else if !is_nullish(spec_trim(parts[0])) {
        Some(spec_trim(parts[0]))
    } else {
        first_non_nullish(parts.drop_first())
    }
}

proof fn lemma_first_non_nullish_part(parts: Seq<Seq<char>>)
    ensures
        first_non_nullish(parts) matches Some(p) ==> exists|k: int| 0 <= k < parts.len() && p == spec_trim(
            #[trigger] parts[k],
        ),
    decreases parts.len(),
{
    if parts.len() > 0 && is_nullish(spec_trim(parts[0])) {
        lemma_first_non_nullish_part(parts.drop_first());
        if let Some(p) = first_non_nullish(parts.drop_first()) {
            let k = choose|k: int| 0 <= k < parts.drop_first().len() && p == spec_trim(#[trigger] parts.drop_first()[k]);
            assert(parts[k + 1] == parts.drop_first()[k]);
        }
    }
}

/// The simple type name within a possibly complex one: `Promise<T>`,
/// `Array<T>` and `T[]` give `T`; a union gives its first part that is not
/// `null`, `undefined` or `void`; anything else is given back trimmed.
pub open spec fn spec_simplify(s: Seq<char>) -> Seq<char>
    decreases s.len(),
{
    let t = spec_trim(s);
    if t.len() >= 9 && spec_starts_with(t, "Promise<"@) && t.last() == '>' {
        let inner = t.subrange(8, t.len() - 1);
        if inner.len() < s.len() { spec_simplify(inner) } else { inner }
    } else if t.len() >= 7 && spec_starts_with(t, "Array<"@) && t.last() == '>' {
        let inner = t.subrange(6, t.len() - 1);
        if inner.len() < s.len() { spec_simplify(inner) } else { inner }
    } else if spec_ends_with(t, "[]"@) {
        let base = t.subrange(0, t.len() - 2);
        if base.len() < s.len() { spec_simplify(base) } else { base }
    } else if t.contains('|') {
        match first_non_nullish(spec_split(t, '|')) {
            Some(p) => if p.len() < s.len() { spec_simplify(p) } else { p },
            None => t,
        }
    } else {
        t
    }
}

/// Trimming the start leaves nothing, or a text that starts with a
/// non-whitespace character.
proof fn lemma_trim_start_shape(s: Seq<char>)
    ensures
        spec_trim_start(s).len() > 0 ==> !crate::text::spec_is_whitespace(spec_trim_start(s)[0]),
    decreases s.len(),
{
    if s.len() > 0 && crate::text::spec_is_whitespace(s[0]) {
        lemma_trim_start_shape(s.drop_first());
    }
}

/// Trimming the end gives a prefix, empty or ending in a non-whitespace
/// character.
proof fn lemma_trim_end_shape(s: Seq<char>)
    ensures
        spec_trim_end(s) == s.subrange(0, spec_trim_end(s).len() as int),
        spec_trim_end(s).len() <= s.len(),
        spec_trim_end(s).len() > 0 ==> !crate::text::spec_is_whitespace(spec_trim_end(s).last()),
    decreases s.len(),
{
    if s.len() > 0 && crate::text::spec_is_whitespace(s.last()) {
        lemma_trim_end_shape(s.drop_last());
        let t = spec_trim_end(s.drop_last());
        assert(s.drop_last().subrange(0, t.len() as int) =~= s.subrange(0, t.len() as int));
    } else {
        assert(s.subrange(0, s.len() as int) =~= s);
    }
}

/// A text that does not start with whitespace keeps its start.
proof fn lemma_trim_start_fixed(s: Seq<char>)
    requires
        s.len() > 0 ==> !crate::text::spec_is_whitespace(s[0]),
    ensures
        spec_trim_start(s) == s,
{
}

/// A text that does not end with whitespace keeps its end.
proof fn lemma_trim_end_fixed(s: Seq<char>)
    requires
        s.len() > 0 ==> !crate::text::spec_is_whitespace(s.last()),
    ensures
        spec_trim_end(s) == s,
{
}

/// Trimming a trimmed text changes nothing.
pub proof fn lemma_trim_idempotent(s: Seq<char>)
    ensures
        spec_trim(spec_trim(s)) == spec_trim(s),
{
    let a = spec_trim_start(s);
    let t = spec_trim_end(a);
    lemma_trim_start_shape(s);
    lemma_trim_end_shape(a);
    if t.len() > 0 {
        assert(t[0] == a[0]);
    }
    lemma_trim_start_fixed(t);
    lemma_trim_end_fixed(t);
}

/// Simplifying a simplified type name changes nothing.
pub proof fn lemma_simplify_idempotent(s: Seq<char>)
    ensures
        spec_simplify(spec_simplify(s)) == spec_simplify(s),
    decreases s.len(),
{
    let t = spec_trim(s);
    lemma_trim_len(s);
    lemma_trim_idempotent(s);
    reveal_strlit("[]");
    reveal_strlit("Promise<");
    reveal_strlit("Array<");
    if t.len() >= 9 && spec_starts_with(t, "Promise<"@) && t.last() == '>' {
        let inner = t.subrange(8, t.len() - 1);
        assert(inner.len() < s.len());
        lemma_simplify_idempotent(inner);
        assert(spec_simplify(s) == spec_simplify(inner));
    } else if t.len() >= 7 && spec_starts_with(t, "Array<"@) && t.last() == '>' {
        let inner = t.subrange(6, t.len() - 1);
        assert(inner.len() < s.len());
        lemma_simplify_idempotent(inner);
        assert(spec_simplify(s) == spec_simplify(inner));
    } else if spec_ends_with(t, "[]"@) {
        let base = t.subrange(0, t.len() - 2);
        assert(base.len() < s.len());
        lemma_simplify_idempotent(base);
        assert(spec_simplify(s) == spec_simplify(base));
    } else if t.contains('|') {
        match first_non_nullish(spec_split(t, '|')) {
            Some(p) => {
                if p.len() < s.len() {
                    lemma_simplify_idempotent(p);
                    assert(spec_simplify(s) == spec_simplify(p));
                } else {
                    let parts = spec_split(t, '|');
                    lemma_first_non_nullish_part(parts);
                    let k = choose|k: int| 0 <= k < parts.len() && p == spec_trim(parts[k]);
                    lemma_split_part_len(t, '|', k);
                    lemma_trim_len(parts[k]);
                    assert(false);
                }
            },
            None => {
                assert(spec_simplify(t) == t);
            },
        }
    } else {
        assert(spec_simplify(t) == t);
    }
}

/// Trimming that removes nothing leaves the text as it is.
proof fn lemma_trim_same_len(s: Seq<char>)
    ensures
        spec_trim(s).len() == s.len() ==> spec_trim(s) == s,
{
    let a = spec_trim_start(s);
    lemma_trim_start_len(s);
    lemma_trim_end_len(a);
    if spec_trim(s).len() == s.len() {
        if s.len() > 0 && crate::text::spec_is_whitespace(s[0]) {
            lemma_trim_start_len(s.drop_first());
        }
        assert(a == s);
        if a.len() > 0 && crate::text::spec_is_whitespace(a.last()) {
            lemma_trim_end_len(a.drop_last());
        }
    }
}

/// Simplifying never gives more than the trimmed name.
proof fn lemma_simplify_len(s: Seq<char>)
    ensures
        spec_simplify(s).len() <= spec_trim(s).len(),
    decreases s.len(),
{
    let t = spec_trim(s);
    lemma_trim_len(s);
    reveal_strlit("[]");
    if t.len() >= 9 && spec_starts_with(t, "Promise<"@) && t.last() == '>' {
        let inner = t.subrange(8, t.len() - 1);
        lemma_simplify_len(inner);
        lemma_trim_len(inner);
    } else if t.len() >= 7 && spec_starts_with(t, "Array<"@) && t.last() == '>' {
        let inner = t.subrange(6, t.len() - 1);
        lemma_simplify_len(inner);
        lemma_trim_len(inner);
    } else if spec_ends_with(t, "[]"@) {
        let base = t.subrange(0, t.len() - 2);
        lemma_simplify_len(base);
        lemma_trim_len(base);
    } else if t.contains('|') {
        let parts = spec_split(t, '|');
        if let Some(p) = first_non_nullish(parts) {
            lemma_first_non_nullish_part(parts);
            let k = choose|k: int| 0 <= k < parts.len() && p == spec_trim(#[trigger] parts[k]);
            lemma_split_part_len(t, '|', k);
            lemma_trim_len(parts[k]);
            if p.len() < s.len() {
                lemma_simplify_len(p);
                lemma_trim_len(p);
            }
        }
    }
}

/// When no part is left after dropping those that name no type, every part
/// names no type.
proof fn lemma_all_nullish(parts: Seq<Seq<char>>)
    requires
        first_non_nullish(parts) is None,
    ensures
        forall|k: int| 0 <= k < parts.len() ==> is_nullish(#[trigger] spec_trim(parts[k])),
    decreases parts.len(),
{
    if parts.len() > 0 {
        lemma_all_nullish(parts.drop_first());
        assert forall|k: int| 0 <= k < parts.len() implies is_nullish(#[trigger] spec_trim(parts[k])) by {
            if k > 0 {
                assert(parts[k] == parts.drop_first()[k - 1]);
            }
        }
    }
}

/// A simplified type name is already in its simplest form: it is trimmed,
/// not wrapped in `Promise<..>` or `Array<..>`, does not end in `[]`, and
/// where it holds a `|`, each of its parts names no type (`null`,
/// `undefined` or `void`).
pub proof fn lemma_simplified_shape(s: Seq<char>)
    ensures
        spec_trim(spec_simplify(s)) == spec_simplify(s),
        !(spec_simplify(s).len() >= 9 && spec_starts_with(spec_simplify(s), "Promise<"@) && spec_simplify(s).last() == '>'),
        !(spec_simplify(s).len() >= 7 && spec_starts_with(spec_simplify(s), "Array<"@) && spec_simplify(s).last() == '>'),
        !spec_ends_with(spec_simplify(s), "[]"@),
        spec_simplify(s).contains('|') ==> forall|k: int| 0 <= k < spec_split(spec_simplify(s), '|').len()
            ==> is_nullish(#[trigger] spec_trim(spec_split(spec_simplify(s), '|')[k])),
{
    let r = spec_simplify(s);
    lemma_simplify_idempotent(s);
    lemma_simplify_len(r);
    lemma_trim_len(r);
    lemma_trim_same_len(r);
    assert(spec_trim(r) == r);
    reveal_strlit("[]");
    if r.len() >= 9 && spec_starts_with(r, "Promise<"@) && r.last() == '>' {
        let inner = r.subrange(8, r.len() - 1);
        lemma_simplify_len(inner);
        lemma_trim_len(inner);
        assert(spec_simplify(r) == spec_simplify(inner));
        assert(false);
    }
    if r.len() >= 7 && spec_starts_with(r, "Array<"@) && r.last() == '>' {
        let inner = r.subrange(6, r.len() - 1);
        lemma_simplify_len(inner);
        lemma_trim_len(inner);
        assert(spec_simplify(r) == spec_simplify(inner));
        assert(false);
    }
    if spec_ends_with(r, "[]"@) {
        let base = r.subrange(0, r.len() - 2);
        lemma_simplify_len(base);
        lemma_trim_len(base);
        assert(spec_simplify(r) == spec_simplify(base));
        assert(false);
    }
    if r.contains('|') {
        let parts = spec_split(r, '|');
        match first_non_nullish(parts) {
            Some(p) => {
                lemma_first_non_nullish_part(parts);
                let k = choose|k: int| 0 <= k < parts.len() && p == spec_trim(#[trigger] parts[k]);
                lemma_split_part_len(r, '|', k);
                lemma_trim_len(parts[k]);
                lemma_simplify_len(p);
                lemma_trim_len(p);
                assert(spec_simplify(r) == spec_simplify(p));
                assert(false);
            },
            None => {
                lemma_all_nullish(parts);
            },
        }
    }
}

/// Whether `r` is a run of consecutive characters of `s`.
pub open spec fn is_substring(r: Seq<char>, s: Seq<char>) -> bool {
    exists|i: int, j: int| 0 <= i <= j <= s.len() && r == #[trigger] s.subrange(i, j)
}

proof fn lemma_substring_trans(r: Seq<char>, m: Seq<char>, s: Seq<char>)
    requires
        is_substring(r, m),
        is_substring(m, s),
    ensures
        is_substring(r, s),
{
    let (a, b) = choose|i: int, j: int| 0 <= i <= j <= m.len() && r == #[trigger] m.subrange(i, j);
    let (c, d) = choose|i: int, j: int| 0 <= i <= j <= s.len() && m == #[trigger] s.subrange(i, j);
    assert(r =~= s.subrange(c + a, c + b));
}

proof fn lemma_substring_self(s: Seq<char>)
    ensures
        is_substring(s, s),
{
    assert(s =~= s.subrange(0, s.len() as int));
}

proof fn lemma_substring_range(s: Seq<char>, i: int, j: int)
    requires
        0 <= i <= j <= s.len(),
    ensures
        is_substring(s.subrange(i, j), s),
{
}

proof fn lemma_trim_start_suffix(s: Seq<char>)
    ensures
        spec_trim_start(s).len() <= s.len(),
        spec_trim_start(s) == s.subrange(s.len() - spec_trim_start(s).len(), s.len() as int),
    decreases s.len(),
{
    if s.len() > 0 && crate::text::spec_is_whitespace(s[0]) {
        lemma_trim_start_suffix(s.drop_first());
        let t = spec_trim_start(s.drop_first());
        assert(s.drop_first().subrange(s.drop_first().len() - t.len(), s.drop_first().len() as int) =~= s.subrange(
            s.len() - t.len(),
            s.len() as int,
        ));
    } else {
        assert(s.subrange(0, s.len() as int) =~= s);
    }
}

/// Trimming keeps a run of the text.
proof fn lemma_trim_substring(s: Seq<char>)
    ensures
        is_substring(spec_trim(s), s),
{
    let a = spec_trim_start(s);
    lemma_trim_start_suffix(s);
    lemma_trim_end_shape(a);
    lemma_substring_range(s, s.len() - a.len(), s.len() as int);
    lemma_substring_range(a, 0, spec_trim_end(a).len() as int);
    lemma_substring_trans(spec_trim(s), a, s);
}

/// Every part of a split is a run of the text, the last one a suffix.
proof fn lemma_split_substrings(s: Seq<char>, sep: char)
    ensures
        forall|k: int| 0 <= k < spec_split(s, sep).len() ==> is_substring(#[trigger] spec_split(s, sep)[k], s),
        spec_split(s, sep).len() >= 1,
        spec_split(s, sep).last().len() <= s.len(),
        spec_split(s, sep).last() == s.subrange(s.len() - spec_split(s, sep).last().len(), s.len() as int),
    decreases s.len(),
{
    if s.len() == 0 {
        let p = spec_split(s, sep);
        assert(p[0] =~= s.subrange(0, 0));
        assert(is_substring(p[0], s));
    } else {
        let d = s.drop_last();
        lemma_split_substrings(d, sep);
        let p = spec_split(d, sep);
        let q = spec_split(s, sep);
        assert(d =~= s.subrange(0, s.len() - 1));
        lemma_substring_range(s, 0, s.len() - 1);
        assert forall|k: int| 0 <= k < p.len() - 1 implies is_substring(#[trigger] q[k], s) by {
            assert(q[k] == p[k]);
            lemma_substring_trans(p[k], d, s);
        }
        if s.last() == sep {
            assert(q.last() =~= s.subrange(s.len() as int, s.len() as int));
            assert(q[p.len() - 1] == p[p.len() - 1]);
            lemma_substring_trans(p[p.len() - 1], d, s);
            assert(is_substring(q[q.len() - 1], s));
        } else {
            let l = p.last();
            assert(q.last() =~= s.subrange(s.len() - (l.len() + 1), s.len() as int));
            assert(is_substring(q[q.len() - 1], s));
        }
        assert forall|k: int| 0 <= k < q.len() implies is_substring(#[trigger] q[k], s) by {
            if k < p.len() - 1 {
                assert(q[k] == p[k]);
                lemma_substring_trans(p[k], d, s);
            }
        }
    }
}

/// A simplified type name is a run of the characters of the name it came from.
pub proof fn lemma_simplify_substring(s: Seq<char>)
    ensures
        is_substring(spec_simplify(s), s),
    decreases s.len(),
{
    let t = spec_trim(s);
    lemma_trim_len(s);
    lemma_trim_substring(s);
    reveal_strlit("[]");
    if t.len() >= 9 && spec_starts_with(t, "Promise<"@) && t.last() == '>' {
        let inner = t.subrange(8, t.len() - 1);
        lemma_substring_range(t, 8, t.len() - 1);
        lemma_substring_trans(inner, t, s);
        if inner.len() < s.len() {
            lemma_simplify_substring(inner);
            lemma_substring_trans(spec_simplify(inner), inner, s);
        }
    } else if t.len() >= 7 && spec_starts_with(t, "Array<"@) && t.last() == '>' {
        let inner = t.subrange(6, t.len() - 1);
        lemma_substring_range(t, 6, t.len() - 1);
        lemma_substring_trans(inner, t, s);
        if inner.len() < s.len() {
            lemma_simplify_substring(inner);
            lemma_substring_trans(spec_simplify(inner), inner, s);
        }
    } else if spec_ends_with(t, "[]"@) {
        let base = t.subrange(0, t.len() - 2);
        lemma_substring_range(t, 0, t.len() - 2);
        lemma_substring_trans(base, t, s);
        if base.len() < s.len() {
            lemma_simplify_substring(base);
            lemma_substring_trans(spec_simplify(base), base, s);
        }
    } else if t.contains('|') {
        let parts = spec_split(t, '|');
        match first_non_nullish(parts) {
            Some(p) => {
                lemma_first_non_nullish_part(parts);
                let k = choose|k: int| 0 <= k < parts.len() && p == spec_trim(#[trigger] parts[k]);
                lemma_split_substrings(t, '|');
                lemma_trim_substring(parts[k]);
                lemma_substring_trans(p, parts[k], t);
                lemma_substring_trans(p, t, s);
                if p.len() < s.len() {
                    lemma_simplify_substring(p);
                    lemma_substring_trans(spec_simplify(p), p, s);
                }
            },
            None => {},
        }
    }
}

/// The laws of simplifying a type name together: simplifying again changes
/// nothing, the result is a trimmed run of the input's characters, it is not
/// wrapped in `Promise<..>` or `Array<..>`, does not end in `[]`, and where
/// it holds a `|`, each of its parts names no type.
pub proof fn lemma_simplify_type_name_laws(s: Seq<char>)
    ensures
        spec_simplify(spec_simplify(s)) == spec_simplify(s),
        is_substring(spec_simplify(s), s),
        spec_trim(spec_simplify(s)) == spec_simplify(s),
        !(spec_simplify(s).len() >= 9 && spec_starts_with(spec_simplify(s), "Promise<"@) && spec_simplify(s).last() == '>'),
        !(spec_simplify(s).len() >= 7 && spec_starts_with(spec_simplify(s), "Array<"@) && spec_simplify(s).last() == '>'),
        !spec_ends_with(spec_simplify(s), "[]"@),
        spec_simplify(s).contains('|') ==> forall|k: int| 0 <= k < spec_split(spec_simplify(s), '|').len()
            ==> is_nullish(#[trigger] spec_trim(spec_split(spec_simplify(s), '|')[k])),
{
    lemma_simplify_idempotent(s);
    lemma_simplify_substring(s);
    lemma_simplified_shape(s);
}

fn simplify_chars(s: &[char]) -> (r: Vec<char>)
    ensures
        r@ == spec_simplify(s@),
    decreases s@.len(),
{
    let t = trim(s);
    proof {
        lemma_trim_len(s@);
        reveal_strlit("Promise<");
        reveal_strlit("Array<");
        reveal_strlit("[]");
    }
    // Handle Promise<T>
    let promise = chars_of("Promise<");
    if t.len() >= 9 && starts_with(&t, &promise) && t[t.len() - 1] == '>' {
        let inner = sub_vec(&t, 8, t.len() - 1);
        return simplify_chars(&inner);
    }
    // Handle Array<T>
    let array = chars_of("Array<");
    if t.len() >= 7 && starts_with(&t, &array) && t[t.len() - 1] == '>' {
        let inner = sub_vec(&t, 6, t.len() - 1);
        return simplify_chars(&inner);
    }
    // Handle T[]
    let brackets = chars_of("[]");
    if ends_with(&t, &brackets) {
        let base = sub_vec(&t, 0, t.len() - 2);
        return simplify_chars(&base);
    }
    // Handle T | null / T | undefined (union types: take the non-null part)
    if contains_char(&t, '|') {
        let parts = split_char(&t, '|');
        let ghost ps = spec_split(t@, '|');
        let null_v = chars_of("null");
        let undefined_v = chars_of("undefined");
        let void_v = chars_of("void");
        let mut i: usize = 0;
        assert(ps.subrange(0, ps.len() as int) =~= ps);
        assert(spec_simplify(s@) == match first_non_nullish(ps) {
            Some(p) => if p.len() < s@.len() { spec_simplify(p) } else { p },
            None => t@,
        });
        while i < parts.len()
            invariant
                parts@.len() == ps.len(),
                ps == spec_split(t@, '|'),
                t@.contains('|'),
                t@.len() <= s@.len(),
                t@ == spec_trim(s@),
                spec_simplify(s@) == match first_non_nullish(ps) {
                    Some(p) => if p.len() < s@.len() { spec_simplify(p) } else { p },
                    None => t@,
                },
                forall|k: int| 0 <= k < parts@.len() ==> #[trigger] parts@[k]@ == ps[k],
                i <= ps.len(),
                null_v@ == "null"@,
                undefined_v@ == "undefined"@,
                void_v@ == "void"@,
                first_non_nullish(ps) == first_non_nullish(ps.subrange(i as int, ps.len() as int)),
            decreases parts.len() - i,
        {
            assert(ps.subrange(i as int, ps.len() as int)[0] == ps[i as int]);
            assert(ps.subrange(i as int, ps.len() as int).drop_first() =~= ps.subrange(i + 1, ps.len() as int));
            let part = trim(&parts[i]);
            if !chars_eq(&part, &null_v) && !chars_eq(&part, &undefined_v) && !chars_eq(&part, &void_v) {
                proof {
                    lemma_split_part_len(t@, '|', i as int);
                    lemma_trim_len(ps[i as int]);
                }
                return simplify_chars(&part);
            }
            i = i + 1;
        }
    }
    t
}

/// Extract a simple type name from a possibly complex return type.
///
/// `Promise<User>` to `User`, `Array<string>` to `string`, `User | null` to
/// `User`, `User[]` to `User`.
pub fn simplify_type_name(type_text: &str) -> (r: String)
    ensures
        r@ == spec_simplify(type_text@),
{
    let cs = chars_of(type_text);
    let r = simplify_chars(&cs);
    string_of(&r)
}

/// The index of the first `::` in `s`, at or after `i`; `s.len()` if there is none.
pub open spec fn find_scope_sep(s: Seq<char>, i: int) -> int
    decreases s.len() - i,
{
    if i < 0 || i + 1 >= s.len() {
        s.len() as int
    } else if s[i] == ':' && s[i + 1] == ':' {
        i
    } else {
        find_scope_sep(s, i + 1)
    }
}

/// The file-level scope of a scope: the part before its first `::`.
pub open spec fn file_scope(scope: Seq<char>) -> Seq<char> {
    scope.subrange(0, find_scope_sep(scope, 0))
}

proof fn lemma_find_scope_sep_bounds(s: Seq<char>, i: int)
    requires
        0 <= i,
    ensures
        i <= find_scope_sep(s, i) <= s.len() || (i > s.len() && find_scope_sep(s, i) == s.len()),
    decreases s.len() - i,
{
    if !(i + 1 >= s.len()) && !(s[i] == ':' && s[i + 1] == ':') {
        lemma_find_scope_sep_bounds(s, i + 1);
    }
}

fn file_scope_exec(scope: &[char]) -> (r: Vec<char>)
    ensures
        r@ == file_scope(scope@),
{
    let n = scope.len();
    let mut i: usize = 0;
    while i < n && i + 1 < n && !(scope[i] == ':' && scope[i + 1] == ':')
        invariant
            i <= n,
            n == scope@.len(),
            find_scope_sep(scope@, 0) == find_scope_sep(scope@, i as int),
        decreases n - i,
    {
        i = i + 1;
    }
    let end = if i < n && i + 1 < n { i } else { n };
    sub_vec(scope, 0, end)
}

/// The latest value recorded for `k` among key-value pairs.
pub open spec fn latest_pair(s: Seq<(Seq<char>, Seq<char>)>, k: Seq<char>) -> Option<Seq<char>>
    decreases s.len(),
{
    if s.len() == 0 {
        None
    } else if s.last().0 == k {
        Some(s.last().1)
    } else {
        latest_pair(s.drop_last(), k)
    }
}

/// The views of key-value string pairs.
pub open spec fn pairs_view(s: Seq<(String, String)>) -> Seq<(Seq<char>, Seq<char>)> {
    s.map_values(|e: (String, String)| (e.0@, e.1@))
}

/// The latest value recorded for `key` among `pairs`.
pub fn latest_value(pairs: &[(String, String)], key: &str) -> (r: Option<String>)
    ensures
        opt_string_view(r) == latest_pair(pairs_view(pairs@), key@),
{
    let ghost s = pairs_view(pairs@);
    let mut j = pairs.len();
    assert(s.subrange(0, s.len() as int) =~= s);
    while j > 0
        invariant
            s == pairs_view(pairs@),
            j <= s.len(),
            latest_pair(s, key@) == latest_pair(s.subrange(0, j as int), key@),
        decreases j,
    {
        let e = &pairs[j - 1];
        assert(s.subrange(0, j as int).last() == (e.0@, e.1@));
        assert(s.subrange(0, j as int).drop_last() =~= s.subrange(0, j - 1));
        if str_eq(e.0.as_str(), key) {
            return Some(e.1.clone());
        }
        j = j - 1;
    }
    None
}

/// The content of a type environment.
pub struct EnvView {
    /// (scope, variable, type) bindings; the latest for a pair wins.
    pub bindings: Seq<(Seq<char>, Seq<char>, Seq<char>)>,
    /// (variable, class) constructor bindings; the latest for a variable wins.
    pub constructors: Seq<(Seq<char>, Seq<char>)>,
}

impl EnvView {
    /// The type of `variable` bound in exactly the scope `scope`.
    pub open spec fn in_scope(&self, scope: Seq<char>, variable: Seq<char>) -> Option<Seq<char>> {
        latest(self.bindings, scope, variable)
    }

    /// The type of `variable` seen from `scope`: its own binding, else the
    /// binding at the file-level scope.
    pub open spec fn lookup(&self, scope: Seq<char>, variable: Seq<char>) -> Option<Seq<char>> {
        match self.in_scope(scope, variable) {
            Some(t) => Some(t),
            None => {
                let fs = file_scope(scope);
                if fs != scope {
                    self.in_scope(fs, variable)
                } else {
                    None
                }
            },
        }
    }

    /// The class that `variable` was constructed from.
    pub open spec fn constructor(&self, variable: Seq<char>) -> Option<Seq<char>> {
        latest_pair(self.constructors, variable)
    }
}

/// Whether entry `m` of `s` binds the same (scope, variable) pair as entry 0.
pub open spec fn same_pair_as_first(s: Seq<(Seq<char>, Seq<char>, Seq<char>)>, m: int) -> bool {
    s[m].0 == s[0].0 && s[m].1 == s[0].1
}

/// Whether one of the entries `1..n` of `s` binds the same pair as entry 0.
pub open spec fn rebound_before(s: Seq<(Seq<char>, Seq<char>, Seq<char>)>, n: int) -> bool {
    exists|m: int| 1 <= m < n && #[trigger] same_pair_as_first(s, m)
}

proof fn lemma_rebound_step(s: Seq<(Seq<char>, Seq<char>, Seq<char>)>, n: int)
    requires
        1 <= n,
    ensures
        rebound_before(s, n + 1) == (rebound_before(s, n) || same_pair_as_first(s, n)),
{
    if rebound_before(s, n + 1) && !same_pair_as_first(s, n) {
        let m = choose|m: int| 1 <= m < n + 1 && #[trigger] same_pair_as_first(s, m);
        assert(m != n);
        assert(rebound_before(s, n));
    }
    if rebound_before(s, n) {
        let m = choose|m: int| 1 <= m < n && #[trigger] same_pair_as_first(s, m);
        assert(1 <= m < n + 1 && same_pair_as_first(s, m));
    }
    if same_pair_as_first(s, n) {
        assert(1 <= n < n + 1 && same_pair_as_first(s, n));
    }
}

/// The bindings in effect, each (scope, variable) pair once, in the order of
/// their latest recording.
pub open spec fn current_bindings(s: Seq<(Seq<char>, Seq<char>, Seq<char>)>) -> Seq<(Seq<char>, Seq<char>, Seq<char>)>
    decreases s.len(),
{
    if s.len() == 0 {
        s
    } else {
        let rest = current_bindings(s.drop_first());
        if rebound_before(s, s.len() as int) {
            rest
        } else {
            seq![s[0]] + rest
        }
    }
}

/// Per-file type environment with scope-aware variable tracking.
#[derive(Debug)]
pub struct TypeEnv {
    /// (scope, variable, type); the latest entry for a pair wins.
    scopes: Vec<(String, String, String)>,
    /// (variable, class) constructor bindings; the latest for a variable wins.
    constructor_types: Vec<(String, String)>,
}

impl View for TypeEnv {
    type V = EnvView;

    closed spec fn view(&self) -> EnvView {
        EnvView {
            bindings: self.scopes@.map_values(|e: (String, String, String)| (e.0@, e.1@, e.2@)),
            constructors: pairs_view(self.constructor_types@),
        }
    }
}

impl TypeEnv {
    pub fn new() -> (r: Self)
        ensures
            r@ == (EnvView { bindings: Seq::empty(), constructors: Seq::empty() }),
    {
        let r = TypeEnv { scopes: Vec::new(), constructor_types: Vec::new() };
        assert(r@.bindings =~= Seq::empty());
        assert(r@.constructors =~= Seq::empty());
        r
    }

    /// Record a type binding (variable has a known type).
    pub fn set_type(&mut self, scope: &str, variable: &str, type_text: &str)
        ensures
            final(self)@ == (EnvView { bindings: old(self)@.bindings.push((scope@, variable@, type_text@)), ..old(self)@ }),
    {
        self.scopes.push((scope.to_owned(), variable.to_owned(), type_text.to_owned()));
        assert(self@.bindings =~= old(self)@.bindings.push((scope@, variable@, type_text@)));
        assert(self@.constructors =~= old(self)@.constructors);
    }

    fn in_scope_exec(&self, scope: &str, variable: &str) -> (r: Option<String>)
        ensures
            opt_string_view(r) == self@.in_scope(scope@, variable@),
    {
        let ghost s = self@.bindings;
        let mut j = self.scopes.len();
        assert(s.subrange(0, s.len() as int) =~= s);
        while j > 0
            invariant
                s == self@.bindings,
                j <= s.len(),
                latest(s, scope@, variable@) == latest(s.subrange(0, j as int), scope@, variable@),
            decreases j,
        {
            let e = &self.scopes[j - 1];
            assert(s.subrange(0, j as int).last() == (e.0@, e.1@, e.2@));
            assert(s.subrange(0, j as int).drop_last() =~= s.subrange(0, j - 1));
            if str_eq(e.0.as_str(), scope) && str_eq(e.1.as_str(), variable) {
                return Some(e.2.clone());
            }
            j = j - 1;
        }
        None
    }

    /// Look up the type of a variable in a given scope.
    /// Falls back to file-level scope if not found in the given scope.
    pub fn get_type(&self, scope: &str, variable: &str) -> (r: Option<String>)
        ensures
            opt_string_view(r) == self@.lookup(scope@, variable@),
    {
        // Try the exact scope first
        if let Some(t) = self.in_scope_exec(scope, variable) {
            return Some(t);
        }
        // Fall back to file-level scope (scope == file_path)
        let scope_chars = chars_of(scope);
        let fs = file_scope_exec(&scope_chars);
        if !chars_eq(&fs, &scope_chars) {
            let fs_s = string_of(&fs);
            return self.in_scope_exec(fs_s.as_str(), variable);
        }
        None
    }

    /// Record a constructor binding: `const x = new Foo()`
    pub fn set_constructor_type(&mut self, variable: &str, class_name: &str)
        ensures
            final(self)@ == (EnvView { constructors: old(self)@.constructors.push((variable@, class_name@)), ..old(self)@ }),
    {
        self.constructor_types.push((variable.to_owned(), class_name.to_owned()));
        assert(self@.constructors =~= old(self)@.constructors.push((variable@, class_name@)));
        assert(self@.bindings =~= old(self)@.bindings);
    }

    /// Get the constructor type for a variable.
    pub fn get_constructor_type(&self, variable: &str) -> (r: Option<String>)
        ensures
            opt_string_view(r) == self@.constructor(variable@),
    {
        latest_value(self.constructor_types.as_slice(), variable)
    }

    /// Get all known type bindings (for export to cross-file resolution): each
    /// (scope, variable) pair once, with its type.
    pub fn all_bindings(&self) -> (r: Vec<(String, String, String)>)
        ensures
            r@.map_values(|e: (String, String, String)| (e.0@, e.1@, e.2@)) == current_bindings(self@.bindings),
    {
        let ghost s = self@.bindings;
        let mut out: Vec<(String, String, String)> = Vec::new();
        let mut j = self.scopes.len();
        while j > 0
            invariant
                s == self@.bindings,
                j <= s.len(),
                out@.map_values(|e: (String, String, String)| (e.0@, e.1@, e.2@)) == current_bindings(s.subrange(j as int, s.len() as int)),
            decreases j,
        {
            let i = j - 1;
            let e = &self.scopes[i];
            let ghost sub = s.subrange(i as int, s.len() as int);
            assert(sub[0] == (e.0@, e.1@, e.2@));
            assert(sub.drop_first() =~= s.subrange(j as int, s.len() as int));
            let mut later = false;
            let mut k = j;
            while k < self.scopes.len()
                invariant
                    s == self@.bindings,
                    i < j <= k <= s.len(),
                    j == i + 1,
                    sub == s.subrange(i as int, s.len() as int),
                    sub[0] == (e.0@, e.1@, e.2@),
                    later == rebound_before(sub, k - i),
                decreases self.scopes.len() - k,
            {
                let ek = &self.scopes[k];
                assert(sub[k - i] == s[k as int]);
                assert(s[k as int] == (ek.0@, ek.1@, ek.2@));
                proof {
                    lemma_rebound_step(sub, k - i);
                }
                if str_eq(ek.0.as_str(), e.0.as_str()) && str_eq(ek.1.as_str(), e.1.as_str()) {
                    later = true;
                }
                k = k + 1;
            }
            assert(sub.len() == s.len() - i);
            if !later {
                let ghost before = out@;
                let entry = (e.0.clone(), e.1.clone(), e.2.clone());
                let mut nv: Vec<(String, String, String)> = Vec::new();
                nv.push(entry);
                let mut m: usize = 0;
                while m < out.len()
                    invariant
                        m <= before.len(),
                        out@ == before,
                        nv@.len() == m + 1,
                        nv@[0] == entry,
                        forall|q: int| 1 <= q <= m ==> nv@[q] == before[q - 1],
                    decreases out.len() - m,
                {
                    nv.push((out[m].0.clone(), out[m].1.clone(), out[m].2.clone()));
                    m = m + 1;
                }
                out = nv;
                assert(out@.map_values(|e: (String, String, String)| (e.0@, e.1@, e.2@)) =~= seq![sub[0]] + before.map_values(|e: (String, String, String)| (e.0@, e.1@, e.2@)));
            }
            j = i;
        }
        assert(s.subrange(0, s.len() as int) =~= s);
        out
    }

    /// The number of (scope, variable) pairs bound.
    pub fn binding_count(&self) -> (r: usize)
        ensures
            r == current_bindings(self@.bindings).len(),
    {
        let all = self.all_bindings();
        all.len()
    }
}


/// Where an assigned value comes from, as text.
pub enum SourceView {
    Constructor(Seq<char>),
    FunctionCall(Seq<char>),
    TypeAnnotation(Seq<char>),
    Variable(Seq<char>),
}

/// Where an assigned value comes from.
#[derive(Debug, Clone)]
pub enum AssignmentSource {
    /// `const x = new Foo()`: the type is `Foo`.
    Constructor(String),
    /// `const x = foo()`: the type is the return type of `foo`.
    FunctionCall(String),
    /// `const x: Foo = ...`: the type is explicitly annotated as `Foo`.
    TypeAnnotation(String),
    /// `const x = y`: the type is the type of `y`.
    Variable(String),
}

impl View for AssignmentSource {
    type V = SourceView;

    open spec fn view(&self) -> SourceView {
        match self {
            AssignmentSource::Constructor(c) => SourceView::Constructor(c@),
            AssignmentSource::FunctionCall(f) => SourceView::FunctionCall(f@),
            AssignmentSource::TypeAnnotation(t) => SourceView::TypeAnnotation(t@),
            AssignmentSource::Variable(v) => SourceView::Variable(v@),
        }
    }
}

/// The content of a pending assignment.
pub struct PendingView {
    pub variable: Seq<char>,
    pub source: SourceView,
    pub scope: Seq<char>,
    pub file_path: Seq<char>,
    pub resolved: Option<Seq<char>>,
}

/// A pending assignment that needs type resolution.
///
/// Example: `const user = getUser()`: `user` is assigned from `getUser()`,
/// and the return type of `getUser` gives the type of `user`.
#[derive(Debug, Clone)]
pub struct PendingAssignment {
    pub variable_name: String,
    pub assigned_from: AssignmentSource,
    pub scope: String,
    pub file_path: String,
    pub resolved_type: Option<String>,
}

impl View for PendingAssignment {
    type V = PendingView;

    open spec fn view(&self) -> PendingView {
        PendingView {
            variable: self.variable_name@,
            source: self.assigned_from@,
            scope: self.scope@,
            file_path: self.file_path@,
            resolved: opt_string_view(self.resolved_type),
        }
    }
}

/// The views of a sequence of pending assignments.
pub open spec fn pending_view(s: Seq<PendingAssignment>) -> Seq<PendingView> {
    s.map_values(|a: PendingAssignment| a@)
}

/// Result of fixpoint type resolution.
#[derive(Debug, Clone, Copy)]
pub struct FixpointResult {
    pub iterations: u32,
    pub total_resolved: usize,
    pub converged: bool,
}

/// The type an assignment gets in the environment `env`, given the known
/// return types `rt` of functions (the latest entry for a name wins).
pub open spec fn resolve_source(a: PendingView, env: EnvView, rt: Seq<(Seq<char>, Seq<char>)>) -> Option<Seq<char>> {
    match a.source {
        SourceView::Constructor(c) => Some(c),
        SourceView::TypeAnnotation(t) => Some(t),
        SourceView::FunctionCall(f) => match latest_pair(rt, f) {
            Some(t) => Some(t),
            None => env.lookup(a.scope, f),
        },
        SourceView::Variable(v) => match env.lookup(a.scope, v) {
            Some(t) => Some(t),
            None => env.constructor(v),
        },
    }
}

/// One resolution round over the assignments from position `i` on: each one
/// still unresolved whose type can be found gets it, and its binding is
/// recorded, so that later assignments of the round see it.
pub open spec fn round_from(p: Seq<PendingView>, env: EnvView, rt: Seq<(Seq<char>, Seq<char>)>, i: nat) -> (Seq<PendingView>, EnvView)
    decreases p.len() - i,
{
    if i >= p.len() {
        (p, env)
    } else if p[i as int].resolved is Some {
        round_from(p, env, rt, i + 1)
    } else {
        match resolve_source(p[i as int], env, rt) {
            Some(t) => round_from(
                p.update(i as int, PendingView { resolved: Some(t), ..p[i as int] }),
                EnvView { bindings: env.bindings.push((p[i as int].scope, p[i as int].variable, t)), ..env },
                rt,
                i + 1,
            ),
            None => round_from(p, env, rt, i + 1),
        }
    }
}

/// The number of resolved assignments.
pub open spec fn resolved_count(p: Seq<PendingView>) -> nat
    decreases p.len(),
{
    if p.len() == 0 {
        0
    } else {
        resolved_count(p.drop_last()) + (if p.last().resolved is Some { 1nat } else { 0nat })
    }
}

/// What a fixpoint run leaves behind.
pub struct FixpointOutcome {
    pub pending: Seq<PendingView>,
    pub env: EnvView,
    pub iterations: nat,
    pub total_resolved: nat,
    pub converged: bool,
}

/// Rounds after `iteration` rounds were run and `prev` assignments were
/// resolved after the last of them. A run stops when a round resolves
/// nothing new (converged), when `max_iter` rounds were run (not converged),
/// or, after the first round, when the newly resolved share of the resolved
/// assignments is below `thr_ppm` parts per million (converged).
pub open spec fn fixpoint_from(
    p: Seq<PendingView>,
    env: EnvView,
    rt: Seq<(Seq<char>, Seq<char>)>,
    max_iter: nat,
    thr_ppm: nat,
    iteration: nat,
    prev: nat,
) -> FixpointOutcome
    decreases max_iter - iteration,
{
    let it = iteration + 1;
    let (p2, e2) = round_from(p, env, rt, 0);
    let total = resolved_count(p2);
    let delta = total - prev;
    if delta == 0 {
        FixpointOutcome { pending: p2, env: e2, iterations: it, total_resolved: total, converged: true }
    } else if it >= max_iter {
        FixpointOutcome { pending: p2, env: e2, iterations: it, total_resolved: total, converged: false }
    } else if delta * 1_000_000 < thr_ppm * total && it > 1 {
        FixpointOutcome { pending: p2, env: e2, iterations: it, total_resolved: total, converged: true }
    } else {
        fixpoint_from(p2, e2, rt, max_iter, thr_ppm, it, total)
    }
}

/// A whole fixpoint run under `config`.
pub open spec fn fixpoint(p: Seq<PendingView>, env: EnvView, rt: Seq<(Seq<char>, Seq<char>)>, config: Config) -> FixpointOutcome {
    fixpoint_from(
        p,
        env,
        rt,
        config.fixpoint_max_iterations as nat,
        config.fixpoint_convergence_threshold_ppm as nat,
        0,
        0,
    )
}

/// `q` is `p` with possibly more assignments resolved: the same assignments,
/// and every type already found kept.
pub open spec fn keeps_resolved(p: Seq<PendingView>, q: Seq<PendingView>) -> bool {
    &&& q.len() == p.len()
    &&& forall|k: int| 0 <= k < p.len() ==> {
        &&& (#[trigger] q[k]).variable == p[k].variable
        &&& q[k].source == p[k].source
        &&& q[k].scope == p[k].scope
        &&& q[k].file_path == p[k].file_path
        &&& (p[k].resolved is Some ==> q[k].resolved == p[k].resolved)
    }
}

/// Whether an assignment's type is given where it is made: by a constructor
/// or an annotation.
pub open spec fn is_direct(a: PendingView) -> bool {
    a.source is Constructor || a.source is TypeAnnotation
}

/// The type an assignment gives where it is made: the constructed class or
/// the annotated type.
pub open spec fn direct_type(a: PendingView) -> Seq<char> {
    match a.source {
        SourceView::Constructor(c) => c,
        SourceView::TypeAnnotation(t) => t,
        _ => Seq::empty(),
    }
}

proof fn lemma_count_monotone(p: Seq<PendingView>, q: Seq<PendingView>)
    requires
        keeps_resolved(p, q),
    ensures
        resolved_count(p) <= resolved_count(q),
        resolved_count(q) <= q.len(),
    decreases p.len(),
{
    if p.len() > 0 {
        assert(keeps_resolved(p.drop_last(), q.drop_last())) by {
            assert forall|k: int| 0 <= k < p.drop_last().len() implies #[trigger] q.drop_last()[k] == q[k] by {}
        }
        lemma_count_monotone(p.drop_last(), q.drop_last());
        assert(q[q.len() - 1] == q.last());
    }
}

proof fn lemma_round_keeps(p: Seq<PendingView>, env: EnvView, rt: Seq<(Seq<char>, Seq<char>)>, i: nat)
    ensures
        keeps_resolved(p, round_from(p, env, rt, i).0),
        forall|k: int| i <= k < p.len() && #[trigger] is_direct(p[k]) ==> round_from(p, env, rt, i).0[k].resolved is Some,
        forall|k: int| i <= k < p.len() && #[trigger] is_direct(p[k]) && p[k].resolved is None ==> round_from(
            p,
            env,
            rt,
            i,
        ).0[k].resolved == Some(direct_type(p[k])),
    decreases p.len() - i,
{
    if i < p.len() {
        if p[i as int].resolved is Some {
            lemma_round_keeps(p, env, rt, i + 1);
        } else {
            match resolve_source(p[i as int], env, rt) {
                Some(t) => {
                    let p2 = p.update(i as int, PendingView { resolved: Some(t), ..p[i as int] });
                    let e2 = EnvView { bindings: env.bindings.push((p[i as int].scope, p[i as int].variable, t)), ..env };
                    lemma_round_keeps(p2, e2, rt, i + 1);
                    let r = round_from(p2, e2, rt, i + 1).0;
                    assert forall|k: int| 0 <= k < p.len() implies {
                        &&& (#[trigger] r[k]).variable == p[k].variable
                        &&& r[k].source == p[k].source
                        &&& r[k].scope == p[k].scope
                        &&& r[k].file_path == p[k].file_path
                        &&& (p[k].resolved is Some ==> r[k].resolved == p[k].resolved)
                    } by {
                        assert(p2[k].variable == p[k].variable);
                    }
                    assert forall|k: int| i <= k < p.len() && #[trigger] is_direct(p[k]) implies r[k].resolved is Some by {
                        if k > i {
                            assert(is_direct(p2[k]));
                        }
                    }
                    assert forall|k: int| i <= k < p.len() && #[trigger] is_direct(p[k]) && p[k].resolved is None
                        implies r[k].resolved == Some(direct_type(p[k])) by {
                        if k > i {
                            assert(p2[k] == p[k]);
                            assert(is_direct(p2[k]));
                        } else {
                            assert(p2[k].resolved == Some(t));
                        }
                    }
                },
                None => {
                    lemma_round_keeps(p, env, rt, i + 1);
                    let r = round_from(p, env, rt, i + 1).0;
                    assert(!is_direct(p[i as int]));
                },
            }
        }
    } else {
        let r = round_from(p, env, rt, i).0;
        assert forall|k: int| 0 <= k < p.len() implies (#[trigger] r[k]).variable == p[k].variable by {}
    }
}

proof fn lemma_keeps_trans(p: Seq<PendingView>, q: Seq<PendingView>, r: Seq<PendingView>)
    requires
        keeps_resolved(p, q),
        keeps_resolved(q, r),
    ensures
        keeps_resolved(p, r),
{
    assert forall|k: int| 0 <= k < p.len() implies (#[trigger] r[k]).variable == p[k].variable by {
        assert(q[k].variable == p[k].variable);
    }
}

/// What every fixpoint run keeps: no assignment changes but by getting a
/// type, a type once found stays, constructor and annotated assignments are
/// resolved (an unresolved one to its constructed class or annotated type),
/// the result counts the resolved assignments, at least one round
/// runs and at most the configured number (or one), and a run that did not
/// converge used them all.
pub proof fn lemma_fixpoint_laws(
    p: Seq<PendingView>,
    env: EnvView,
    rt: Seq<(Seq<char>, Seq<char>)>,
    max_iter: nat,
    thr_ppm: nat,
    iteration: nat,
    prev: nat,
)
    ensures
        keeps_resolved(p, fixpoint_from(p, env, rt, max_iter, thr_ppm, iteration, prev).pending),
        forall|k: int| 0 <= k < p.len() && #[trigger] is_direct(p[k])
            ==> fixpoint_from(p, env, rt, max_iter, thr_ppm, iteration, prev).pending[k].resolved is Some,
        forall|k: int| 0 <= k < p.len() && #[trigger] is_direct(p[k]) && p[k].resolved is None
            ==> fixpoint_from(p, env, rt, max_iter, thr_ppm, iteration, prev).pending[k].resolved == Some(direct_type(p[k])),
        fixpoint_from(p, env, rt, max_iter, thr_ppm, iteration, prev).total_resolved
            == resolved_count(fixpoint_from(p, env, rt, max_iter, thr_ppm, iteration, prev).pending),
        fixpoint_from(p, env, rt, max_iter, thr_ppm, iteration, prev).total_resolved <= p.len(),
        fixpoint_from(p, env, rt, max_iter, thr_ppm, iteration, prev).iterations >= iteration + 1,
        fixpoint_from(p, env, rt, max_iter, thr_ppm, iteration, prev).iterations <= max_iter
            || fixpoint_from(p, env, rt, max_iter, thr_ppm, iteration, prev).iterations == iteration + 1,
        !fixpoint_from(p, env, rt, max_iter, thr_ppm, iteration, prev).converged
            ==> fixpoint_from(p, env, rt, max_iter, thr_ppm, iteration, prev).iterations >= max_iter,
    decreases max_iter - iteration,
{
    let (p2, e2) = round_from(p, env, rt, 0);
    lemma_round_keeps(p, env, rt, 0);
    lemma_count_monotone(p, p2);
    let total = resolved_count(p2);
    let it = iteration + 1;
    if total - prev != 0 && it < max_iter && !((total - prev) * 1_000_000 < thr_ppm * total && it > 1) {
        lemma_fixpoint_laws(p2, e2, rt, max_iter, thr_ppm, it, total);
        let q = fixpoint_from(p2, e2, rt, max_iter, thr_ppm, it, total).pending;
        lemma_keeps_trans(p, p2, q);
        assert forall|k: int| 0 <= k < p.len() && #[trigger] is_direct(p[k]) implies q[k].resolved is Some by {
            assert(p2[k].source == p[k].source);
            assert(p2[k].resolved is Some);
        }
        assert forall|k: int| 0 <= k < p.len() && #[trigger] is_direct(p[k]) && p[k].resolved is None implies q[k].resolved
            == Some(direct_type(p[k])) by {
            assert(p2[k].source == p[k].source);
            assert(p2[k].resolved == Some(direct_type(p[k])));
        }
    }
}

fn resolve_source_exec(a: &PendingAssignment, env: &TypeEnv, return_types: &[(String, String)]) -> (r: Option<String>)
    ensures
        opt_string_view(r) == resolve_source(a@, env@, pairs_view(return_types@)),
{
    match &a.assigned_from {
        AssignmentSource::Constructor(class_name) => Some(class_name.clone()),
        AssignmentSource::TypeAnnotation(type_text) => Some(type_text.clone()),
        AssignmentSource::FunctionCall(fn_name) => {
            // Look up the return type of the function, else what an earlier
            // round may have bound to its name.
            match latest_value(return_types, fn_name.as_str()) {
                Some(t) => Some(t),
                None => env.get_type(a.scope.as_str(), fn_name.as_str()),
            }
        },
        AssignmentSource::Variable(var_name) => {
            // Look up the type of the source variable
            match env.get_type(a.scope.as_str(), var_name.as_str()) {
                Some(t) => Some(t),
                None => env.get_constructor_type(var_name.as_str()),
            }
        },
    }
}

fn resolve_round(pending: &mut [PendingAssignment], env: &mut TypeEnv, return_types: &[(String, String)])
    ensures
        (pending_view(final(pending)@), final(env)@) == round_from(
            pending_view(old(pending)@),
            old(env)@,
            pairs_view(return_types@),
            0,
        ),
{
    let ghost rt = pairs_view(return_types@);
    let ghost target = round_from(pending_view(pending@), env@, rt, 0);
    let mut i: usize = 0;
    while i < pending.len()
        invariant
            rt == pairs_view(return_types@),
            i <= pending.len(),
            target == round_from(pending_view(pending@), env@, rt, i as nat),
        decreases pending.len() - i,
    {
        let ghost pv = pending_view(pending@);
        assert(pv[i as int] == pending@[i as int]@);
        if pending[i].resolved_type.is_none() {
            let resolved = resolve_source_exec(&pending[i], env, return_types);
            if let Some(t) = resolved {
                let ghost ev = env@;
                env.set_type(pending[i].scope.as_str(), pending[i].variable_name.as_str(), t.as_str());
                pending[i].resolved_type = Some(t);
                assert(pending_view(pending@) =~= pv.update(i as int, PendingView { resolved: Some(t@), ..pv[i as int] }));
                assert(env@ == EnvView { bindings: ev.bindings.push((pv[i as int].scope, pv[i as int].variable, t@)), ..ev });
            }
        }
        i = i + 1;
    }
}

fn count_resolved(pending: &[PendingAssignment]) -> (r: usize)
    ensures
        r == resolved_count(pending_view(pending@)),
{
    let ghost pv = pending_view(pending@);
    let mut r: usize = 0;
    let mut i: usize = 0;
    while i < pending.len()
        invariant
            pv == pending_view(pending@),
            i <= pending.len(),
            r <= i,
            r == resolved_count(pv.subrange(0, i as int)),
        decreases pending.len() - i,
    {
        assert(pv.subrange(0, i + 1).drop_last() =~= pv.subrange(0, i as int));
        assert(pv.subrange(0, i + 1).last() == pending@[i as int]@);
        if pending[i].resolved_type.is_some() {
            r = r + 1;
        }
        i = i + 1;
    }
    assert(pv.subrange(0, pending.len() as int) =~= pv);
    r
}

/// Run fixpoint type resolution with convergence detection.
///
/// Rounds resolve pending assignments until a round resolves nothing new
/// (converged), the newly resolved share falls below the configured
/// threshold after the first round (converged), or the configured number of
/// rounds ran (not converged).
pub fn resolve_fixpoint(
    pending: &mut [PendingAssignment],
    env: &mut TypeEnv,
    return_types: &[(String, String)],
    config: &Config,
) -> (r: FixpointResult)
    ensures
        pending_view(final(pending)@) == fixpoint(pending_view(old(pending)@), old(env)@, pairs_view(return_types@), *config).pending,
        final(env)@ == fixpoint(pending_view(old(pending)@), old(env)@, pairs_view(return_types@), *config).env,
        r.iterations == fixpoint(pending_view(old(pending)@), old(env)@, pairs_view(return_types@), *config).iterations,
        r.total_resolved == fixpoint(pending_view(old(pending)@), old(env)@, pairs_view(return_types@), *config).total_resolved,
        r.converged == fixpoint(pending_view(old(pending)@), old(env)@, pairs_view(return_types@), *config).converged,
        keeps_resolved(pending_view(old(pending)@), pending_view(final(pending)@)),
        forall|k: int| 0 <= k < old(pending)@.len() && #[trigger] is_direct(pending_view(old(pending)@)[k])
            ==> pending_view(final(pending)@)[k].resolved is Some,
        r.total_resolved == resolved_count(pending_view(final(pending)@)),
        r.total_resolved <= old(pending)@.len(),
        r.iterations >= 1,
        r.iterations <= config.fixpoint_max_iterations || r.iterations == 1,
        !r.converged ==> r.iterations >= config.fixpoint_max_iterations,
{
    let ghost rt = pairs_view(return_types@);
    let ghost max = config.fixpoint_max_iterations as nat;
    let ghost thr = config.fixpoint_convergence_threshold_ppm as nat;
    let ghost target = fixpoint(pending_view(pending@), env@, rt, *config);
    let mut iteration: u32 = 0;
    let mut prev_resolved: usize = 0;
    loop
        invariant
            rt == pairs_view(return_types@),
            target == fixpoint(pending_view(old(pending)@), old(env)@, rt, *config),
            max == config.fixpoint_max_iterations as nat,
            thr == config.fixpoint_convergence_threshold_ppm as nat,
            target == fixpoint_from(pending_view(pending@), env@, rt, max, thr, iteration as nat, prev_resolved as nat),
            prev_resolved <= resolved_count(pending_view(pending@)),
            iteration == 0 || iteration < config.fixpoint_max_iterations,
        decreases config.fixpoint_max_iterations - iteration,
    {
        iteration = iteration + 1;
        let ghost before = pending_view(pending@);
        let ghost env_before = env@;
        resolve_round(pending, env, return_types);
        let total_resolved = count_resolved(pending);
        proof {
            lemma_round_keeps(before, env_before, rt, 0);
            lemma_count_monotone(before, pending_view(pending@));
        }
        let delta = total_resolved - prev_resolved;
        proof {
            lemma_fixpoint_laws(pending_view(old(pending)@), old(env)@, rt, max, thr, 0, 0);
            let ghost p2 = pending_view(pending@);
            assert(round_from(before, env_before, rt, 0) == (p2, env@));
            assert(fixpoint_from(before, env_before, rt, max, thr, (iteration - 1) as nat, prev_resolved as nat)
                == if delta == 0 {
                    FixpointOutcome { pending: p2, env: env@, iterations: iteration as nat, total_resolved: total_resolved as nat, converged: true }
                } else if iteration >= max {
                    FixpointOutcome { pending: p2, env: env@, iterations: iteration as nat, total_resolved: total_resolved as nat, converged: false }
                } else if delta * 1_000_000 < thr * total_resolved && iteration > 1 {
                    FixpointOutcome { pending: p2, env: env@, iterations: iteration as nat, total_resolved: total_resolved as nat, converged: true }
                } else {
                    fixpoint_from(p2, env@, rt, max, thr, iteration as nat, total_resolved as nat)
                });
        }
        // Check termination conditions
        if delta == 0 {
            return FixpointResult { iterations: iteration, total_resolved, converged: true };
        }
        if iteration >= config.fixpoint_max_iterations {
            return FixpointResult { iterations: iteration, total_resolved, converged: false };
        }
        let scaled_delta = (delta as u128) * 1_000_000;
        let thr_ppm = config.fixpoint_convergence_threshold_ppm as u128;
        let total_wide = total_resolved as u128;
        assert(thr_ppm * total_wide <= u128::MAX) by (nonlinear_arith)
            requires
                thr_ppm <= u64::MAX,
                total_wide <= usize::MAX,
                usize::MAX <= u64::MAX,
        ;
        if scaled_delta < thr_ppm * total_wide && iteration > 1 {
            return FixpointResult { iterations: iteration, total_resolved, converged: true };
        }
        prev_resolved = total_resolved;
    }
}


/// The last position of `k` among `keys`, or -1.
pub open spec fn last_index_of(keys: Seq<Seq<char>>, k: Seq<char>) -> int
    decreases keys.len(),
{
    if keys.len() == 0 {
        -1
    } else if keys.last() == k {
        keys.len() - 1
    } else {
        last_index_of(keys.drop_last(), k)
    }
}

proof fn lemma_last_index_of(keys: Seq<Seq<char>>, k: Seq<char>)
    ensures
        -1 <= last_index_of(keys, k) < keys.len(),
        last_index_of(keys, k) >= 0 ==> keys[last_index_of(keys, k)] == k,
        last_index_of(keys, k) == -1 ==> !keys.contains(k),
    decreases keys.len(),
{
    if keys.len() > 0 && keys.last() != k {
        lemma_last_index_of(keys.drop_last(), k);
        if keys.contains(k) {
            let j = choose|j: int| 0 <= j < keys.len() && keys[j] == k;
            assert(keys.drop_last()[j] == k);
        }
    }
}

/// The keys of a keyed sequence.
pub open spec fn keys_of<V>(acc: Seq<(Seq<char>, V)>) -> Seq<Seq<char>> {
    acc.map_values(|e: (Seq<char>, V)| e.0)
}

/// A keyed sequence after a map insertion: the value of an existing key is
/// replaced in place, a new key goes last.
pub open spec fn insert_keyed<V>(acc: Seq<(Seq<char>, V)>, k: Seq<char>, v: V) -> Seq<(Seq<char>, V)> {
    let i = last_index_of(keys_of(acc), k);
    if i >= 0 {
        acc.update(i, (k, v))
    } else {
        acc.push((k, v))
    }
}

fn find_key<V>(acc: &Vec<(String, V)>, k: &str) -> (r: Option<usize>)
    ensures
        match r {
            Some(i) => i as int == last_index_of(acc@.map_values(|e: (String, V)| e.0@), k@) && i < acc@.len(),
            None => last_index_of(acc@.map_values(|e: (String, V)| e.0@), k@) == -1,
        },
{
    let ghost keys = acc@.map_values(|e: (String, V)| e.0@);
    let mut j = acc.len();
    assert(keys.subrange(0, keys.len() as int) =~= keys);
    while j > 0
        invariant
            keys == acc@.map_values(|e: (String, V)| e.0@),
            j <= keys.len(),
            last_index_of(keys, k@) == last_index_of(keys.subrange(0, j as int), k@),
        decreases j,
    {
        assert(keys.subrange(0, j as int).last() == acc@[j - 1].0@);
        assert(keys.subrange(0, j as int).drop_last() =~= keys.subrange(0, j - 1));
        if str_eq(acc[j - 1].0.as_str(), k) {
            return Some(j - 1);
        }
        j = j - 1;
    }
    None
}

/// The exports recorded for a file from its definitions `defs`, from
/// position `i` on: exported definitions with a return type of at most 256
/// bytes, by name, until 500 names are recorded.
pub open spec fn exports_from(defs: Seq<SymbolInfo>, i: nat, acc: Seq<(Seq<char>, Seq<char>)>) -> Seq<(Seq<char>, Seq<char>)>
    decreases defs.len() - i,
{
    if i >= defs.len() {
        acc
    } else if !defs[i as int].is_exported {
        exports_from(defs, i + 1, acc)
    } else if acc.len() >= 500 {
        acc
    } else {
        match defs[i as int].return_type {
            Some(t) => if encode_utf8(t).len() <= 256 {
                exports_from(defs, i + 1, insert_keyed(acc, defs[i as int].name, t))
            } else {
                exports_from(defs, i + 1, acc)
            },
            None => exports_from(defs, i + 1, acc),
        }
    }
}

/// The exports of the file `f` in the symbol table `table`, name to return type.
pub open spec fn file_exports(table: Seq<SymbolInfo>, f: Seq<char>) -> Seq<(Seq<char>, Seq<char>)> {
    exports_from(in_file(table, f), 0, Seq::empty())
}

/// The exported type map built over `paths` from position `i` on: each file
/// with at least one export, to its exports.
pub open spec fn exported_types_from(
    table: Seq<SymbolInfo>,
    paths: Seq<Seq<char>>,
    i: nat,
    acc: Seq<(Seq<char>, Seq<(Seq<char>, Seq<char>)>)>,
) -> Seq<(Seq<char>, Seq<(Seq<char>, Seq<char>)>)>
    decreases paths.len() - i,
{
    if i >= paths.len() {
        acc
    } else {
        let e = file_exports(table, paths[i as int]);
        if e.len() == 0 {
            exported_types_from(table, paths, i + 1, acc)
        } else {
            exported_types_from(table, paths, i + 1, insert_keyed(acc, paths[i as int], e))
        }
    }
}

/// The views of an exported type map.
pub open spec fn export_map_view(m: Seq<(String, Vec<(String, String)>)>) -> Seq<(Seq<char>, Seq<(Seq<char>, Seq<char>)>)> {
    m.map_values(|e: (String, Vec<(String, String)>)| (e.0@, pairs_view(e.1@)))
}

/// The views of a sequence of strings.
pub open spec fn strings_view(s: Seq<String>) -> Seq<Seq<char>> {
    s.map_values(|x: String| x@)
}

proof fn lemma_insert_keyed_len<V>(acc: Seq<(Seq<char>, V)>, k: Seq<char>, v: V)
    ensures
        insert_keyed(acc, k, v).len() <= acc.len() + 1,
        insert_keyed(acc, k, v).len() >= acc.len(),
        forall|j: int| 0 <= j < insert_keyed(acc, k, v).len() ==> {
            ||| #[trigger] insert_keyed(acc, k, v)[j] == (k, v)
            ||| (j < acc.len() && insert_keyed(acc, k, v)[j] == acc[j])
        },
{
    lemma_last_index_of(keys_of(acc), k);
}

proof fn lemma_exports_bounded(defs: Seq<SymbolInfo>, i: nat, acc: Seq<(Seq<char>, Seq<char>)>)
    requires
        acc.len() <= 500,
    ensures
        exports_from(defs, i, acc).len() <= 500,
        exports_from(defs, i, acc).len() >= acc.len(),
    decreases defs.len() - i,
{
    if i < defs.len() && defs[i as int].is_exported && acc.len() < 500 {
        if let Some(t) = defs[i as int].return_type {
            if encode_utf8(t).len() <= 256 {
                lemma_insert_keyed_len(acc, defs[i as int].name, t);
                lemma_exports_bounded(defs, i + 1, insert_keyed(acc, defs[i as int].name, t));
                return;
            }
        }
        lemma_exports_bounded(defs, i + 1, acc);
    } else if i < defs.len() && !defs[i as int].is_exported {
        lemma_exports_bounded(defs, i + 1, acc);
    }
}

proof fn lemma_exported_types_shape(
    table: Seq<SymbolInfo>,
    paths: Seq<Seq<char>>,
    i: nat,
    acc: Seq<(Seq<char>, Seq<(Seq<char>, Seq<char>)>)>,
)
    requires
        forall|j: int| 0 <= j < acc.len() ==> 0 < (#[trigger] acc[j]).1.len() <= 500,
    ensures
        forall|j: int| 0 <= j < exported_types_from(table, paths, i, acc).len()
            ==> 0 < (#[trigger] exported_types_from(table, paths, i, acc)[j]).1.len() <= 500,
    decreases paths.len() - i,
{
    if i < paths.len() {
        let e = file_exports(table, paths[i as int]);
        if e.len() == 0 {
            lemma_exported_types_shape(table, paths, i + 1, acc);
            assert(exported_types_from(table, paths, i, acc) == exported_types_from(table, paths, i + 1, acc));
        } else {
            lemma_exports_bounded(in_file(table, paths[i as int]), 0, Seq::empty());
            lemma_insert_keyed_len(acc, paths[i as int], e);
            let acc2 = insert_keyed(acc, paths[i as int], e);
            assert forall|j: int| 0 <= j < acc2.len() implies 0 < (#[trigger] acc2[j]).1.len() <= 500 by {
                if acc2[j] != (paths[i as int], e) {
                    assert(acc2[j] == acc[j]);
                }
            }
            lemma_exported_types_shape(table, paths, i + 1, acc2);
            assert(exported_types_from(table, paths, i, acc) == exported_types_from(table, paths, i + 1, acc2));
        }
    } else {
        assert(exported_types_from(table, paths, i, acc) == acc);
    }
}

fn exports_of_file(defs: &Vec<SymbolDefinition>) -> (r: Vec<(String, String)>)
    ensures
        pairs_view(r@) == exports_from(defs_view(defs@), 0, Seq::empty()),
{
    let ghost dv = defs_view(defs@);
    let ghost target = exports_from(dv, 0, Seq::empty());
    let mut exports: Vec<(String, String)> = Vec::new();
    assert(pairs_view(exports@) =~= Seq::empty());
    let mut i: usize = 0;
    while i < defs.len()
        invariant
            dv == defs_view(defs@),
            i <= defs.len(),
            target == exports_from(dv, i as nat, pairs_view(exports@)),
        ensures
            target == pairs_view(exports@),
        decreases defs.len() - i,
    {
        let sym = &defs[i];
        assert(dv[i as int] == sym@);
        if !sym.is_exported {
            i = i + 1;
            continue;
        }
        // Cap exports per file to prevent pathological cases
        if exports.len() >= 500 {
            break;
        }
        if let Some(return_type) = &sym.return_type {
            if return_type.as_str().as_bytes().len() <= 256 {
                let ghost before = pairs_view(exports@);
                let found = find_key(&exports, sym.name.as_str());
                assert(exports@.map_values(|e: (String, String)| e.0@) =~= keys_of(before));
                match found {
                    Some(j) => {
                        exports.set(j, (sym.name.clone(), return_type.clone()));
                    },
                    None => {
                        exports.push((sym.name.clone(), return_type.clone()));
                    },
                }
                assert(pairs_view(exports@) =~= insert_keyed(before, sym.name@, return_type@));
            }
        }
        i = i + 1;
    }
    exports
}

/// Build the exported type map from the symbol table: for each file in
/// `file_paths` with at least one export, the names its exported symbols
/// give and their return types.
///
/// Used for cross-file type propagation. When file A exports
/// `function getUser(): User`, other files importing `getUser` can learn
/// that its return type is `User`.
pub fn build_exported_type_map(symbols: &SymbolTable, file_paths: &[String]) -> (r: Vec<(String, Vec<(String, String)>)>)
    ensures
        export_map_view(r@) == exported_types_from(symbols@, strings_view(file_paths@), 0, Seq::empty()),
        forall|j: int| 0 <= j < r@.len() ==> 0 < (#[trigger] export_map_view(r@)[j]).1.len() <= 500,
{
    let ghost paths = strings_view(file_paths@);
    let ghost target = exported_types_from(symbols@, paths, 0, Seq::empty());
    proof {
        lemma_exported_types_shape(symbols@, paths, 0, Seq::empty());
    }
    let mut map: Vec<(String, Vec<(String, String)>)> = Vec::new();
    assert(export_map_view(map@) =~= Seq::empty());
    let mut i: usize = 0;
    while i < file_paths.len()
        invariant
            paths == strings_view(file_paths@),
            i <= file_paths.len(),
            target == exported_types_from(symbols@, paths, i as nat, export_map_view(map@)),
        decreases file_paths.len() - i,
    {
        let file_path = &file_paths[i];
        assert(paths[i as int] == file_path@);
        let file_symbols = symbols.symbols_in_file(file_path.as_str());
        let exports = exports_of_file(&file_symbols);
        if exports.len() > 0 {
            let ghost before = export_map_view(map@);
            let found = find_key(&map, file_path.as_str());
            assert(map@.map_values(|e: (String, Vec<(String, String)>)| e.0@) =~= keys_of(before));
            match found {
                Some(j) => {
                    map.set(j, (file_path.clone(), exports));
                },
                None => {
                    map.push((file_path.clone(), exports));
                },
            }
            assert(export_map_view(map@) =~= insert_keyed(before, file_path@, pairs_view(exports@)));
        }
        i = i + 1;
    }
    map
}

} // verus!
