//! Import resolution: maps a module specifier written in a source file to the
//! path of a file of the repository.

use vstd::prelude::*;
use vstd::hash_map::StringHashMap;
use crate::text::{
    chars_of, chars_eq, concat, contains_char, join_from, replace_char, spec_join, spec_replace_char,
    spec_split, spec_starts_with, spec_trim, split_char, starts_with, string_of, sub_vec, trim,
};
use crate::paths::{parent_or_empty, path_pop, path_push, spec_parent_or_empty, spec_path_pop, spec_path_push};
use crate::types::Language;

verus! {

/// `p` with every backslash turned into a forward slash.
pub open spec fn spec_normalize(p: Seq<char>) -> Seq<char> {
    spec_replace_char(p, '\\', '/')
}

/// Whether `t` is `f` itself or the part of `f` after one of its slashes,
/// i.e. `f`'s components from some position on, joined by `/`.
pub open spec fn is_component_suffix(t: Seq<char>, f: Seq<char>) -> bool {
    t == f || exists|j: int| 0 <= j < f.len() && f[j] == '/' && t == f.subrange(j + 1, f.len() as int)
}

/// Whether `t` is the part of `f` after a slash at position `j0` or later.
pub open spec fn is_suffix_from(t: Seq<char>, f: Seq<char>, j0: int) -> bool {
    exists|j: int| j0 <= j < f.len() && f[j] == '/' && t == f.subrange(j + 1, f.len() as int)
}

/// The index entries for `t` over the first `n` files: strictly increasing, and
/// exactly the files (below `n`) of which `t` is a component suffix.
pub open spec fn entry_ok(v: Seq<usize>, t: Seq<char>, nf: Seq<Seq<char>>, n: int) -> bool {
    &&& forall|a: int, b: int| 0 <= a < b < v.len() ==> v[a] < v[b]
    &&& forall|a: int| 0 <= a < v.len() ==> v[a] < n
    &&& forall|i: int| 0 <= i < n ==> (#[trigger] v.contains(i as usize) <==> is_component_suffix(t, nf[i]))
}

/// The suffix index map over the first `n` files of `nf`.
pub open spec fn index_ok(m: Map<Seq<char>, Vec<usize>>, nf: Seq<Seq<char>>, n: int) -> bool {
    &&& forall|t: Seq<char>| #[trigger] m.contains_key(t) ==> entry_ok(m[t]@, t, nf, n)
    &&& forall|t: Seq<char>, i: int|
        0 <= i < n && !m.contains_key(t) ==> !(#[trigger] is_component_suffix(t, nf[i]))
}

/// A slash at position `j` adds one suffix to those after later slashes.
proof fn lemma_suffix_from_step(t: Seq<char>, f: Seq<char>, j: int)
    requires
        0 <= j < f.len(),
    ensures
        is_suffix_from(t, f, j) <==> (is_suffix_from(t, f, j + 1) || (f[j] == '/' && t
            == f.subrange(j + 1, f.len() as int))),
{
    if is_suffix_from(t, f, j) {
        let w = choose|w: int| j <= w < f.len() && f[w] == '/' && t == f.subrange(w + 1, f.len() as int);
        if w > j {
            assert(is_suffix_from(t, f, j + 1));
        }
    }
}

/// What the index entries for `t` say about the unique owner of `t`.
proof fn lemma_unique_owner_from_entry(v: Seq<usize>, t: Seq<char>, nf: Seq<Seq<char>>)
    requires
        nf.len() < usize::MAX,
        entry_ok(v, t, nf, nf.len() as int),
    ensures
        v.len() == 1 ==> unique_owner(nf, t) == Some(v[0] as int),
        v.len() != 1 ==> unique_owner(nf, t) is None,
{
    let n = nf.len() as int;
    if v.len() == 1 {
        let i0 = v[0] as int;
        assert(v[0] == i0 as usize);
        assert(v.contains(i0 as usize));
        assert(only_owner(nf, t, i0)) by {
            assert forall|j: int| 0 <= j < n && j != i0 implies !is_component_suffix(t, #[trigger] nf[j]) by {
                if is_component_suffix(t, nf[j]) {
                    assert(v.contains(j as usize));
                    let k = choose|k: int| 0 <= k < v.len() && v[k] == j as usize;
                }
            }
        }
        let c = choose|i: int| only_owner(nf, t, i);
        assert(c == i0);
    } else {
        assert forall|i: int| !only_owner(nf, t, i) by {
            if only_owner(nf, t, i) {
                assert(v.contains(i as usize));
                if v.len() >= 2 {
                    let a = v[0] as int;
                    let b = v[1] as int;
                    assert(v[0] == a as usize);
                    assert(v[1] == b as usize);
                    assert(v.contains(a as usize));
                    assert(v.contains(b as usize));
                    assert(a < n && b < n && a < b);
                    if a != i {
                        assert(is_component_suffix(t, nf[a]));
                    } else {
                        assert(is_component_suffix(t, nf[b]));
                    }
                } else {
                    let k = choose|k: int| 0 <= k < v.len() && v[k] == i as usize;
                }
            }
        }
    }
}

fn trim_quotes(s: &[char]) -> (r: Vec<char>)
    ensures
        r@ == trim_end_quotes(trim_start_quotes(s@)),
{
    let mut i: usize = 0;
    assert(s@.subrange(0, s@.len() as int) =~= s@);
    while i < s.len() && (s[i] == '"' || s[i] == '\'')
        invariant
            i <= s@.len(),
            trim_start_quotes(s@) == trim_start_quotes(s@.subrange(i as int, s@.len() as int)),
        decreases s.len() - i,
    {
        assert(s@.subrange(i as int, s@.len() as int).drop_first() =~= s@.subrange(i + 1, s@.len() as int));
        i = i + 1;
    }
    let a = sub_vec(s, i, s.len());
    let mut j: usize = a.len();
    assert(a@.subrange(0, a@.len() as int) =~= a@);
    while j > 0 && (a[j - 1] == '"' || a[j - 1] == '\'')
        invariant
            j <= a@.len(),
            trim_end_quotes(a@) == trim_end_quotes(a@.subrange(0, j as int)),
        decreases j,
    {
        assert(a@.subrange(0, j as int).drop_last() =~= a@.subrange(0, j - 1));
        j = j - 1;
    }
    sub_vec(&a, 0, j)
}

fn exceeds_utf8_len(s: &[char], limit: usize) -> (r: bool)
    ensures
        r == (utf8_len(s@) > limit),
{
    let mut total: usize = 0;
    let mut i: usize = 0;
    while i < s.len()
        invariant
            i <= s@.len(),
            total == utf8_len(s@.subrange(0, i as int)),
            total <= limit,
        decreases s.len() - i,
    {
        assert(s@.subrange(0, i + 1).drop_last() =~= s@.subrange(0, i as int));
        let c = s[i] as u32;
        let w: usize = if c < 0x80 { 1 } else if c < 0x800 { 2 } else if c < 0x10000 { 3 } else { 4 };
        if w > limit - total {
            proof {
                lemma_utf8_len_prefix_monotone(s@, i + 1);
            }
            return true;
        }
        total = total + w;
        i = i + 1;
    }
    assert(s@.subrange(0, s@.len() as int) =~= s@);
    false
}

proof fn lemma_utf8_len_prefix_monotone(s: Seq<char>, i: int)
    requires
        0 <= i <= s.len(),
    ensures
        utf8_len(s.subrange(0, i)) <= utf8_len(s),
    decreases s.len() - i,
{
    if i < s.len() {
        lemma_utf8_len_prefix_monotone(s, i + 1);
        assert(s.subrange(0, i + 1).drop_last() =~= s.subrange(0, i));
    } else {
        assert(s.subrange(0, i) =~= s);
    }
}

fn has_control_char(s: &[char]) -> (r: bool)
    ensures
        r == has_control(s@),
{
    let mut i: usize = 0;
    while i < s.len()
        invariant
            i <= s@.len(),
            forall|k: int| 0 <= k < i ==> (s@[k] as u32) >= 0x20,
        decreases s.len() - i,
    {
        if (s[i] as u32) < 0x20 {
            return true;
        }
        i = i + 1;
    }
    false
}

/// Two pairs whose file paths hold no colon share a key only if they are the
/// same pair: the key's first colon ends the file path.
proof fn lemma_cache_key_unique_files(f: Seq<char>, i: Seq<char>, f0: Seq<char>, i0: Seq<char>)
    requires
        cache_key(f, i) == cache_key(f0, i0),
        !f.contains(':'),
        !f0.contains(':'),
    ensures
        f == f0,
        i == i0,
{
    reveal_strlit("::");
    let k = cache_key(f, i);
    let m = f.len() as int;
    let l = f0.len() as int;
    assert(k == cache_key(f0, i0));
    if m < l {
        assert(k[m] == ':');
        assert(k[m] == f0[m]);
        assert(f0.contains(':'));
    } else if m > l {
        assert(cache_key(f0, i0)[l] == ':');
        assert(k[l] == f[l]);
        assert(f.contains(':'));
    }
    assert(f =~= f0) by {
        assert forall|x: int| 0 <= x < m implies f[x] == f0[x] by {
            assert(k[x] == f[x]);
            assert(cache_key(f0, i0)[x] == f0[x]);
        }
    }
    assert(m == l);
    assert(k.len() == m + 2 + i.len());
    assert(cache_key(f0, i0).len() == l + 2 + i0.len());
    assert(i.len() == i0.len());
    assert(i =~= i0) by {
        assert forall|x: int| 0 <= x < i.len() implies i[x] == i0[x] by {
            assert(k[m + 2 + x] == i[x]);
            assert(cache_key(f0, i0)[l + 2 + x] == i0[x]);
        }
    }
}

/// Keys of colon-free pairs are not shared with any other pair.
proof fn lemma_cache_key_unique(f: Seq<char>, i: Seq<char>, f0: Seq<char>, i0: Seq<char>)
    requires
        cache_key(f, i) == cache_key(f0, i0),
        !f0.contains(':'),
        !i0.contains(':'),
    ensures
        f == f0,
        i == i0,
{
    reveal_strlit("::");
    let k = cache_key(f, i);
    let m = f.len() as int;
    let l = f0.len() as int;
    assert(k[m] == ':');
    assert(k[m + 1] == ':');
    assert(k.len() == f0.len() + 2 + i0.len());
    if m < l {
        assert(k[m] == f0[m]);
        assert(f0.contains(':'));
    } else if m > l {
        if m == l + 1 {
            assert(k[m + 1] == ':');
            assert(i0[0] == k[l + 2]);
            assert(i0.contains(':'));
        } else {
            assert(k[m] == i0[m - l - 2]);
            assert(i0.contains(':'));
        }
    }
    assert(f =~= f0) by {
        assert forall|x: int| 0 <= x < m implies f[x] == f0[x] by {
            assert(k[x] == f[x]);
            assert(k[x] == f0[x]);
        }
    }
    assert(i =~= i0) by {
        assert forall|x: int| 0 <= x < i.len() implies i[x] == i0[x] by {
            assert(k[m + 2 + x] == i[x]);
            assert(k[l + 2 + x] == i0[x]);
        }
    }
}

/// Suffix index for fast file path lookups: maps every component suffix of a
/// normalized path to the indices of the files that have it.
struct SuffixIndex {
    map: StringHashMap<Vec<usize>>,
}

impl SuffixIndex {
    fn build(files: &Vec<Vec<char>>) -> (r: Self)
        requires
            files@.len() < usize::MAX,
        ensures
            index_ok(r.map@, files@.map_values(|v: Vec<char>| v@), files@.len() as int),
    {
        let ghost nf = files@.map_values(|v: Vec<char>| v@);
        let mut map: StringHashMap<Vec<usize>> = StringHashMap::new();
        let mut idx: usize = 0;
        while idx < files.len()
            invariant
                idx <= files@.len() < usize::MAX,
                nf == files@.map_values(|v: Vec<char>| v@),
                index_ok(map@, nf, idx as int),
            decreases files.len() - idx,
        {
            let f = &files[idx];
            let ghost fv = f@;
            assert(nf[idx as int] == fv);
            let mut j: usize = f.len();
            // Positions j..len have been handled: every suffix after a slash at
            // a position >= j carries `idx`.
            while j > 0
                invariant
                    idx < files@.len() < usize::MAX,
                    nf == files@.map_values(|v: Vec<char>| v@),
                    fv == f@,
                    nf[idx as int] == fv,
                    j <= fv.len(),
                    forall|t: Seq<char>| #[trigger] map@.contains_key(t) ==> {
                        let v = map@[t]@;
                        &&& forall|a: int, b: int| 0 <= a < b < v.len() ==> v[a] < v[b]
                        &&& forall|a: int| 0 <= a < v.len() ==> v[a] <= idx
                        &&& forall|i: int| 0 <= i < idx ==> (#[trigger] v.contains(i as usize)
                            <==> is_component_suffix(t, nf[i]))
                        &&& (v.contains(idx) <==> is_suffix_from(t, fv, j as int))
                    },
                    forall|t: Seq<char>, i: int|
                        0 <= i < idx && !map@.contains_key(t) ==> !(#[trigger] is_component_suffix(t, nf[i])),
                    forall|t: Seq<char>| !map@.contains_key(t) ==> !is_suffix_from(t, fv, j as int),
                decreases j,
            {
                j = j - 1;
                proof {
                    assert forall|t: Seq<char>| #[trigger] is_suffix_from(t, fv, j as int) <==> (
                    is_suffix_from(t, fv, j + 1) || (fv[j as int] == '/' && t == fv.subrange(
                        j + 1,
                        fv.len() as int,
                    ))) by {
                        lemma_suffix_from_step(t, fv, j as int);
                    }
                }
                if f[j] == '/' {
                    let key_chars = sub_vec(f, j + 1, f.len());
                    let key = string_of(&key_chars);
                    let ghost t = key@;
                    let mut entry: Vec<usize> = match map.get(key.as_str()) {
                        Some(v) => v.clone(),
                        None => Vec::new(),
                    };
                    proof {
                        // `t` is not yet marked for this file: every earlier key is shorter.
                        if map@.contains_key(t) {
                            assert(entry@ =~= map@[t]@);
                        }
                        assert(!is_suffix_from(t, fv, j + 1)) by {
                            if is_suffix_from(t, fv, j + 1) {
                                let w = choose|w: int| j + 1 <= w < fv.len() && fv[w] == '/' && t
                                    == fv.subrange(w + 1, fv.len() as int);
                                assert(t.len() == fv.len() - w - 1);
                            }
                        }
                    }
                    let ghost old_entry = entry@;
                    let ghost before = map@;
                    entry.push(idx);
                    map.insert(key, entry);
                    proof {
                        assert forall|t2: Seq<char>| #[trigger] map@.contains_key(t2) implies {
                            let v = map@[t2]@;
                            &&& forall|a: int, b: int| 0 <= a < b < v.len() ==> v[a] < v[b]
                            &&& forall|a: int| 0 <= a < v.len() ==> v[a] <= idx
                            &&& forall|i: int| 0 <= i < idx ==> (#[trigger] v.contains(i as usize)
                                <==> is_component_suffix(t2, nf[i]))
                            &&& (v.contains(idx) <==> is_suffix_from(t2, fv, j as int))
                        } by {
                            if t2 == t {
                                let v = map@[t2]@;
                                assert(v == old_entry.push(idx));
                                assert(is_suffix_from(t2, fv, j as int));
                                assert forall|i: int| 0 <= i < idx implies (#[trigger] v.contains(
                                    i as usize,
                                ) <==> is_component_suffix(t2, nf[i])) by {
                                    if v.contains(i as usize) {
                                        let k = choose|k: int| 0 <= k < v.len() && v[k] == i as usize;
                                        if k < old_entry.len() {
                                            assert(old_entry.contains(i as usize));
                                        }
                                    }
                                    if old_entry.contains(i as usize) {
                                        let k = choose|k: int| 0 <= k < old_entry.len() && old_entry[k] == i as usize;
                                        assert(v[k] == i as usize);
                                    }
                                }
                                assert(v.contains(idx)) by {
                                    assert(v[v.len() - 1] == idx);
                                }
                            } else {
                                assert(map@[t2] == before[t2]);
                            }
                        }
                    }
                }
            }
            // Finally the whole path.
            let key = string_of(f);
            let ghost t = key@;
            let mut entry: Vec<usize> = match map.get(key.as_str()) {
                Some(v) => v.clone(),
                None => Vec::new(),
            };
            proof {
                if map@.contains_key(t) {
                    assert(entry@ =~= map@[t]@);
                }
                assert(!is_suffix_from(t, fv, 0)) by {
                    if is_suffix_from(t, fv, 0) {
                        let w = choose|w: int| 0 <= w < fv.len() && fv[w] == '/' && t
                            == fv.subrange(w + 1, fv.len() as int);
                        assert(t.len() == fv.len() - w - 1);
                    }
                }
            }
            let ghost old_entry = entry@;
            let ghost before = map@;
            entry.push(idx);
            map.insert(key, entry);
            proof {
                assert forall|t2: Seq<char>| #[trigger] map@.contains_key(t2) implies entry_ok(
                    map@[t2]@,
                    t2,
                    nf,
                    idx + 1,
                ) by {
                    let v = map@[t2]@;
                    if t2 == t {
                        assert(v == old_entry.push(idx));
                        assert forall|i: int| 0 <= i < idx + 1 implies (#[trigger] v.contains(
                            i as usize,
                        ) <==> is_component_suffix(t2, nf[i])) by {
                            if i < idx {
                                if v.contains(i as usize) {
                                    let k = choose|k: int| 0 <= k < v.len() && v[k] == i as usize;
                                    if k < old_entry.len() {
                                        assert(old_entry.contains(i as usize));
                                    }
                                }
                                if old_entry.contains(i as usize) {
                                    let k = choose|k: int| 0 <= k < old_entry.len() && old_entry[k] == i as usize;
                                    assert(v[k] == i as usize);
                                }
                            } else {
                                assert(v[v.len() - 1] == idx);
                            }
                        }
                    } else {
                        assert(map@[t2] == before[t2]);
                        assert forall|i: int| 0 <= i < idx + 1 implies (#[trigger] v.contains(
                            i as usize,
                        ) <==> is_component_suffix(t2, nf[i])) by {
                            if i == idx {
                                assert(is_component_suffix(t2, fv) <==> is_suffix_from(t2, fv, 0));
                            }
                        }
                    }
                }
                assert forall|t2: Seq<char>, i: int|
                    0 <= i < idx + 1 && !map@.contains_key(t2) implies !(#[trigger] is_component_suffix(t2, nf[i])) by {
                    if i == idx {
                        assert(t2 != t);
                        assert(!before.contains_key(t2));
                        assert(!is_suffix_from(t2, fv, 0));
                    }
                }
            }
            idx = idx + 1;
        }
        SuffixIndex { map }
    }
}

impl SuffixIndex {
    /// The indices of the files that have `suffix` as a component suffix, in increasing order.
    fn lookup(&self, suffix: &str, Ghost(nf): Ghost<Seq<Seq<char>>>, Ghost(n): Ghost<int>) -> (r: &[usize])
        requires
            index_ok(self.map@, nf, n),
        ensures
            entry_ok(r@, suffix@, nf, n),
    {
        match self.map.get(suffix) {
            Some(v) => v.as_slice(),
            None => {
                let r: &[usize] = &[];
                assert(r@ =~= Seq::<usize>::empty());
                r
            },
        }
    }
}

/// The extensions tried, in order, when an import names a file without one.
pub open spec fn source_extensions() -> Seq<Seq<char>> {
    seq![".ts"@, ".tsx"@, ".js"@, ".jsx"@, ".mjs"@, ".cjs"@, ".py"@, ".pyi"@, ".go"@, ".rs"@]
}

/// The index files tried, in order, when an import names a directory.
pub open spec fn index_files() -> Seq<Seq<char>> {
    seq!["index.ts"@, "index.tsx"@, "index.js"@, "index.jsx"@, "__init__.py"@, "mod.rs"@, "main.go"@]
}

fn source_extension(k: usize) -> (r: &'static str)
    requires
        k < 10,
    ensures
        r@ == source_extensions()[k as int],
{
    if k == 0 { ".ts" } else if k == 1 { ".tsx" } else if k == 2 { ".js" } else if k == 3 { ".jsx" }
    else if k == 4 { ".mjs" } else if k == 5 { ".cjs" } else if k == 6 { ".py" } else if k == 7 { ".pyi" }
    else if k == 8 { ".go" } else { ".rs" }
}

fn index_file(k: usize) -> (r: &'static str)
    requires
        k < 7,
    ensures
        r@ == index_files()[k as int],
{
    if k == 0 { "index.ts" } else if k == 1 { "index.tsx" } else if k == 2 { "index.js" }
    else if k == 3 { "index.jsx" } else if k == 4 { "__init__.py" } else if k == 5 { "mod.rs" }
    else { "main.go" }
}

/// `b` inside a directory: `b/<index file>` for each index file.
pub open spec fn dir_candidates(b: Seq<char>) -> Seq<Seq<char>> {
    index_files().map_values(|i: Seq<char>| b + "/"@ + i)
}

/// `b` itself, then `b` with each source extension, then `b` as a directory.
pub open spec fn ext_candidates(b: Seq<char>) -> Seq<Seq<char>> {
    seq![b] + source_extensions().map_values(|e: Seq<char>| b + e) + dir_candidates(b)
}

fn ext_candidate(b: &[char], k: usize) -> (r: Vec<char>)
    requires
        k < 18,
    ensures
        r@ == ext_candidates(b@)[k as int],
{
    let ghost c = ext_candidates(b@);
    assert(c.len() == 18);
    if k == 0 {
        sub_vec(b, 0, b.len())
    } else if k < 11 {
        let e = chars_of(source_extension(k - 1));
        let r = concat(b, &e);
        assert(c[k as int] == source_extensions().map_values(|e: Seq<char>| b@ + e)[k - 1]);
        r
    } else {
        let slash = chars_of("/");
        let d = concat(b, &slash);
        let i = chars_of(index_file(k - 11));
        let r = concat(&d, &i);
        assert(c[k as int] == dir_candidates(b@)[k - 11]);
        r
    }
}

fn dir_candidate(b: &[char], k: usize) -> (r: Vec<char>)
    requires
        k < 7,
    ensures
        r@ == dir_candidates(b@)[k as int],
{
    let slash = chars_of("/");
    let d = concat(b, &slash);
    let i = chars_of(index_file(k));
    concat(&d, &i)
}

/// Whether the path `p` names one of the (normalized) files `nf`.
pub open spec fn spec_file_exists(nf: Seq<Seq<char>>, p: Seq<char>) -> bool {
    nf.contains(spec_normalize(p))
}

/// The first candidate that names a known file.
pub open spec fn first_existing(nf: Seq<Seq<char>>, cands: Seq<Seq<char>>) -> Option<Seq<char>>
    decreases cands.len(),
{
    if cands.len() == 0 {
        None
    } else if spec_file_exists(nf, cands[0]) {
        Some(cands[0])
    } else {
        first_existing(nf, cands.drop_first())
    }
}

/// One step of walking a relative import: `.` stays, `..` pops, anything else is pushed.
pub open spec fn walk_step(r: Seq<char>, part: Seq<char>) -> Seq<char> {
    if part == "."@ {
        r
    } else if part == ".."@ {
        spec_path_pop(r)
    } else {
        spec_path_push(r, part)
    }
}

/// Walks the parts of a relative import from the directory `r`.
pub open spec fn walk(r: Seq<char>, parts: Seq<Seq<char>>) -> Seq<char>
    decreases parts.len(),
{
    if parts.len() == 0 {
        r
    } else {
        walk(walk_step(r, parts[0]), parts.drop_first())
    }
}

/// The normalized path that a relative import denotes from `from_file`.
pub open spec fn relative_base(import_path: Seq<char>, from_file: Seq<char>) -> Seq<char> {
    spec_normalize(walk(spec_parent_or_empty(from_file), spec_split(import_path, '/')))
}

/// Resolution of a relative import (`./x`, `../x`).
pub open spec fn spec_resolve_relative(
    nf: Seq<Seq<char>>,
    import_path: Seq<char>,
    from_file: Seq<char>,
) -> Option<Seq<char>> {
    let base = relative_base(import_path, from_file);
    match first_existing(nf, ext_candidates(base)) {
        Some(c) => Some(c),
        None => first_existing(nf, dir_candidates(base)),
    }
}

/// `i` is the only file of which `t` is a component suffix.
pub open spec fn only_owner(nf: Seq<Seq<char>>, t: Seq<char>, i: int) -> bool {
    &&& 0 <= i < nf.len()
    &&& is_component_suffix(t, nf[i])
    &&& forall|j: int| 0 <= j < nf.len() && j != i ==> !is_component_suffix(t, #[trigger] nf[j])
}

/// The file that `t` singles out as a component suffix, if exactly one has it.
pub open spec fn unique_owner(nf: Seq<Seq<char>>, t: Seq<char>) -> Option<int> {
    if exists|i: int| only_owner(nf, t, i) {
        Some(choose|i: int| only_owner(nf, t, i))
    } else {
        None
    }
}

/// The first candidate that singles out one file; that file's path as given.
pub open spec fn first_unique(
    nf: Seq<Seq<char>>,
    files: Seq<Seq<char>>,
    cands: Seq<Seq<char>>,
) -> Option<Seq<char>>
    decreases cands.len(),
{
    if cands.len() == 0 {
        None
    } else {
        match unique_owner(nf, cands[0]) {
            Some(i) => Some(files[i]),
            None => first_unique(nf, files, cands.drop_first()),
        }
    }
}

/// The non-empty parts, in order.
pub open spec fn nonempty_parts(ps: Seq<Seq<char>>) -> Seq<Seq<char>>
    decreases ps.len(),
{
    if ps.len() == 0 {
        ps
    } else {
        let p = nonempty_parts(ps.drop_last());
        if ps.last().len() == 0 {
            p
        } else {
            p.push(ps.last())
        }
    }
}

/// The path-like form of a bare specifier: dots become slashes unless it already has a slash.
pub open spec fn path_like(import_path: Seq<char>) -> Seq<char> {
    if import_path.contains('/') {
        import_path
    } else {
        spec_replace_char(import_path, '.', '/')
    }
}

/// The components of a bare specifier.
pub open spec fn bare_parts(import_path: Seq<char>) -> Seq<Seq<char>> {
    nonempty_parts(spec_split(path_like(import_path), '/'))
}

/// Suffix search: from the most specific suffix (all parts) to the least.
pub open spec fn suffix_search(
    nf: Seq<Seq<char>>,
    files: Seq<Seq<char>>,
    parts: Seq<Seq<char>>,
    start: int,
) -> Option<Seq<char>>
    decreases parts.len() - start,
{
    if start < 0 || start >= parts.len() {
        None
    } else {
        match first_unique(nf, files, ext_candidates(spec_join(parts.subrange(start, parts.len() as int), "/"@))) {
            Some(f) => Some(f),
            None => suffix_search(nf, files, parts, start + 1),
        }
    }
}

/// Resolution of a bare specifier by suffix matching.
pub open spec fn spec_resolve_suffix(
    nf: Seq<Seq<char>>,
    files: Seq<Seq<char>>,
    import_path: Seq<char>,
) -> Option<Seq<char>> {
    suffix_search(nf, files, bare_parts(import_path), 0)
}

/// Whether `c` is a quote character that specifiers may be wrapped in.
pub open spec fn is_quote(c: char) -> bool {
    c == '"' || c == '\''
}

/// `s` without leading quotes.
pub open spec fn trim_start_quotes(s: Seq<char>) -> Seq<char>
    decreases s.len(),
{
    if s.len() > 0 && is_quote(s[0]) {
        trim_start_quotes(s.drop_first())
    } else {
        s
    }
}

/// `s` without trailing quotes.
pub open spec fn trim_end_quotes(s: Seq<char>) -> Seq<char>
    decreases s.len(),
{
    if s.len() > 0 && is_quote(s.last()) {
        trim_end_quotes(s.drop_last())
    } else {
        s
    }
}

/// The specifier as resolution reads it: trimmed of whitespace, then of quotes.
pub open spec fn cleaned_specifier(import_path: Seq<char>) -> Seq<char> {
    trim_end_quotes(trim_start_quotes(spec_trim(import_path)))
}

/// The number of bytes of the UTF-8 encoding of `c`.
pub open spec fn utf8_char_len(c: char) -> nat {
    if (c as u32) < 0x80 {
        1
    } else if (c as u32) < 0x800 {
        2
    } else if (c as u32) < 0x10000 {
        3
    } else {
        4
    }
}

/// The number of bytes of the UTF-8 encoding of `s`.
pub open spec fn utf8_len(s: Seq<char>) -> nat
    decreases s.len(),
{
    if s.len() == 0 {
        0
    } else {
        utf8_len(s.drop_last()) + utf8_char_len(s.last())
    }
}

/// Whether `s` holds a control character below U+0020.
pub open spec fn has_control(s: Seq<char>) -> bool {
    exists|k: int| 0 <= k < s.len() && (s[k] as u32) < 0x20
}

/// What resolving `import_path` from `from_file` gives, before any caching.
pub open spec fn spec_resolve_uncached(
    nf: Seq<Seq<char>>,
    files: Seq<Seq<char>>,
    import_path: Seq<char>,
    from_file: Seq<char>,
) -> Option<Seq<char>> {
    let cleaned = cleaned_specifier(import_path);
    if cleaned.len() == 0 || utf8_len(cleaned) > 2048 || has_control(cleaned) {
        None
    } else if spec_starts_with(cleaned, "./"@) || spec_starts_with(cleaned, "../"@) {
        spec_resolve_relative(nf, cleaned, from_file)
    } else {
        spec_resolve_suffix(nf, files, cleaned)
    }
}

proof fn lemma_first_existing_known(nf: Seq<Seq<char>>, cands: Seq<Seq<char>>)
    ensures
        first_existing(nf, cands) matches Some(c) ==> nf.contains(spec_normalize(c)),
    decreases cands.len(),
{
    if cands.len() > 0 && !spec_file_exists(nf, cands[0]) {
        lemma_first_existing_known(nf, cands.drop_first());
    }
}

proof fn lemma_first_unique_known(nf: Seq<Seq<char>>, files: Seq<Seq<char>>, cands: Seq<Seq<char>>)
    requires
        nf.len() == files.len(),
    ensures
        first_unique(nf, files, cands) matches Some(f) ==> files.contains(f),
    decreases cands.len(),
{
    if cands.len() > 0 {
        match unique_owner(nf, cands[0]) {
            Some(i) => {
                let j = choose|i: int| only_owner(nf, cands[0], i);
                assert(files[j] == files[i]);
            },
            None => {
                lemma_first_unique_known(nf, files, cands.drop_first());
            },
        }
    }
}

proof fn lemma_suffix_search_known(nf: Seq<Seq<char>>, files: Seq<Seq<char>>, parts: Seq<Seq<char>>, start: int)
    requires
        nf.len() == files.len(),
    ensures
        suffix_search(nf, files, parts, start) matches Some(f) ==> files.contains(f),
    decreases parts.len() - start,
{
    if !(start < 0 || start >= parts.len()) {
        lemma_first_unique_known(nf, files, ext_candidates(spec_join(parts.subrange(start, parts.len() as int), "/"@)));
        lemma_suffix_search_known(nf, files, parts, start + 1);
    }
}

/// Resolving an import names one of the known files (slashes compared in
/// their normalized direction; where neither the files nor the result hold a
/// backslash, the result is one of the files itself), and names none when the
/// cleaned specifier is empty, longer than 2048 bytes, or holds a control
/// character.
pub proof fn lemma_resolution_names_a_file(files: Seq<Seq<char>>, import_path: Seq<char>, from_file: Seq<char>)
    ensures
        ({
            let nf = files.map_values(|p: Seq<char>| spec_normalize(p));
            spec_resolve_uncached(nf, files, import_path, from_file) matches Some(t) ==> exists|i: int|
                0 <= i < files.len() && #[trigger] spec_normalize(files[i]) == spec_normalize(t)
        }),
        ({
            let nf = files.map_values(|p: Seq<char>| spec_normalize(p));
            (forall|i: int| 0 <= i < files.len() ==> !(#[trigger] files[i]).contains('\\'))
                ==> (spec_resolve_uncached(nf, files, import_path, from_file) matches Some(t) ==> (!t.contains(
                '\\',
            ) ==> files.contains(t)))
        }),
        ({
            let c = cleaned_specifier(import_path);
            c.len() == 0 || utf8_len(c) > 2048 || has_control(c) ==> spec_resolve_uncached(
                files.map_values(|p: Seq<char>| spec_normalize(p)),
                files,
                import_path,
                from_file,
            ) is None
        }),
{
    let nf = files.map_values(|p: Seq<char>| spec_normalize(p));
    let cleaned = cleaned_specifier(import_path);
    let base = relative_base(cleaned, from_file);
    lemma_first_existing_known(nf, ext_candidates(base));
    lemma_first_existing_known(nf, dir_candidates(base));
    lemma_suffix_search_known(nf, files, bare_parts(cleaned), 0);
    if let Some(t) = spec_resolve_uncached(nf, files, import_path, from_file) {
        if nf.contains(spec_normalize(t)) {
            let i = choose|i: int| 0 <= i < nf.len() && nf[i] == spec_normalize(t);
            assert(spec_normalize(files[i]) == spec_normalize(t));
        } else {
            assert(files.contains(t));
            let i = choose|i: int| 0 <= i < files.len() && files[i] == t;
            assert(spec_normalize(files[i]) == spec_normalize(t));
        }
        if (forall|i: int| 0 <= i < files.len() ==> !(#[trigger] files[i]).contains('\\')) && !t.contains('\\') {
            let i = choose|i: int| 0 <= i < files.len() && #[trigger] spec_normalize(files[i]) == spec_normalize(t);
            lemma_normalize_plain(files[i]);
            lemma_normalize_plain(t);
            assert(files[i] == t);
        }
    }
}

/// A path without backslashes is its own normalization.
proof fn lemma_normalize_plain(p: Seq<char>)
    requires
        !p.contains('\\'),
    ensures
        spec_normalize(p) == p,
{
    assert forall|k: int| 0 <= k < p.len() implies p[k] != '\\' by {
        if p[k] == '\\' {
            assert(p.contains('\\'));
        }
    }
    assert(spec_normalize(p) =~= p);
}

/// A relative import resolves to the path it walks to when that path is a
/// known file, tried before any extension is added; when it is not known
/// but the path with `.ts` added is, to that.
pub proof fn lemma_relative_exact_first(
    nf: Seq<Seq<char>>,
    files: Seq<Seq<char>>,
    import_path: Seq<char>,
    from_file: Seq<char>,
)
    ensures
        ({
            let c = cleaned_specifier(import_path);
            let base = relative_base(c, from_file);
            c.len() > 0 && utf8_len(c) <= 2048 && !has_control(c) && (spec_starts_with(c, "./"@) || spec_starts_with(
                c,
                "../"@,
            )) ==> {
                &&& spec_file_exists(nf, base) ==> spec_resolve_uncached(nf, files, import_path, from_file) == Some(base)
                &&& !spec_file_exists(nf, base) && spec_file_exists(nf, base + ".ts"@) ==> spec_resolve_uncached(
                    nf,
                    files,
                    import_path,
                    from_file,
                ) == Some(base + ".ts"@)
            }
        }),
{
    let c = cleaned_specifier(import_path);
    let base = relative_base(c, from_file);
    let cands = ext_candidates(base);
    assert(cands[0] == base);
    reveal_strlit(".ts");
    assert(cands[1] == base + ".ts"@);
    assert(cands.drop_first()[0] == base + ".ts"@);
    if spec_file_exists(nf, base) {
        assert(first_existing(nf, cands) == Some(base));
        assert(spec_resolve_relative(nf, c, from_file) == Some(base));
    } else if spec_file_exists(nf, base + ".ts"@) {
        assert(first_existing(nf, cands.drop_first()) == Some(base + ".ts"@));
        assert(first_existing(nf, cands) == Some(base + ".ts"@));
        assert(spec_resolve_relative(nf, c, from_file) == Some(base + ".ts"@));
    }
}

/// The paths a relative import walking to `b` tries, in order: `b` as
/// written, then `b` with `.ts`, `.tsx`, `.js`, `.jsx`, `.mjs`, `.cjs`,
/// `.py`, `.pyi`, `.go` and `.rs` added, then `b` as a directory holding
/// `index.ts`, `index.tsx`, `index.js`, `index.jsx`, `__init__.py`,
/// `mod.rs` or `main.go`.
pub proof fn lemma_candidate_order(b: Seq<char>)
    ensures
        ext_candidates(b) == seq![
            b, b + ".ts"@, b + ".tsx"@, b + ".js"@, b + ".jsx"@, b + ".mjs"@, b + ".cjs"@, b + ".py"@, b + ".pyi"@,
            b + ".go"@, b + ".rs"@, b + "/index.ts"@, b + "/index.tsx"@, b + "/index.js"@, b + "/index.jsx"@,
            b + "/__init__.py"@, b + "/mod.rs"@, b + "/main.go"@,
        ],
{
    let w = seq![
        b, b + ".ts"@, b + ".tsx"@, b + ".js"@, b + ".jsx"@, b + ".mjs"@, b + ".cjs"@, b + ".py"@, b + ".pyi"@,
        b + ".go"@, b + ".rs"@, b + "/index.ts"@, b + "/index.tsx"@, b + "/index.js"@, b + "/index.jsx"@,
        b + "/__init__.py"@, b + "/mod.rs"@, b + "/main.go"@,
    ];
    reveal_strlit("/");
    reveal_strlit("index.ts");
    reveal_strlit("index.tsx");
    reveal_strlit("index.js");
    reveal_strlit("index.jsx");
    reveal_strlit("__init__.py");
    reveal_strlit("mod.rs");
    reveal_strlit("main.go");
    reveal_strlit("/index.ts");
    reveal_strlit("/index.tsx");
    reveal_strlit("/index.js");
    reveal_strlit("/index.jsx");
    reveal_strlit("/__init__.py");
    reveal_strlit("/mod.rs");
    reveal_strlit("/main.go");
    let d = dir_candidates(b);
    let names = index_files();
    assert forall|k: int| 0 <= k < 7 implies #[trigger] d[k] == w[11 + k] by {
        assert(d[k] == b + "/"@ + names[k]);
        assert(b + "/"@ + names[k] =~= w[11 + k]);
    }
    assert(ext_candidates(b) =~= w);
}

/// The key under which a resolution is cached.
pub open spec fn cache_key(from_file: Seq<char>, import_path: Seq<char>) -> Seq<char> {
    from_file + "::"@ + import_path
}

/// The view of an optional string.
pub open spec fn opt_view(o: Option<String>) -> Option<Seq<char>> {
    match o {
        Some(s) => Some(s@),
        None => None,
    }
}

/// Import resolver: maps module specifiers to file paths.
///
/// Supports relative paths (`./models`, `../utils`), index file resolution
/// (`./models` to `./models/index.ts`), extension inference, and suffix matching
/// for bare imports.
pub struct ImportResolver {
    /// All known file paths (relative to repo root).
    all_files: Vec<String>,
    /// Normalized versions (forward slashes).
    normalized_files: Vec<Vec<char>>,
    /// Suffix index for fast lookup.
    index: SuffixIndex,
    /// Resolution cache.
    cache: StringHashMap<Option<String>>,
    /// Cache keys in the order they were added.
    cache_order: Vec<String>,
}

/// The texts of a list of cache keys.
spec fn key_texts(v: Seq<String>) -> Seq<Seq<char>> {
    v.map_values(|s: String| s@)
}

/// A resolver's cache: its answers by key, and its keys in the order they
/// were added.
pub struct CacheView {
    pub answers: Map<Seq<char>, Option<Seq<char>>>,
    pub order: Seq<Seq<char>>,
}

/// The cache of a new resolver: empty.
pub open spec fn empty_cache() -> CacheView {
    CacheView { answers: Map::empty(), order: Seq::empty() }
}

/// The cache without the keys of its `count` oldest entries (all of them
/// where there are fewer).
pub open spec fn evicted(c: CacheView, count: nat) -> CacheView {
    let n = if count < c.order.len() { count as int } else { c.order.len() as int };
    CacheView { answers: c.answers.remove_keys(c.order.take(n).to_set()), order: c.order.skip(n) }
}

/// What resolving `import_path` from `from_file` among the files `known`
/// answers with the cache `c`, and the cache after: a cached answer is given
/// as it is; otherwise the answer is resolved afresh and cached, after the
/// oldest 20,000 answers are dropped where 100,000 or more are held.
pub open spec fn resolve_with_cache(
    known: Seq<Seq<char>>,
    c: CacheView,
    import_path: Seq<char>,
    from_file: Seq<char>,
) -> (Option<Seq<char>>, CacheView) {
    let key = cache_key(from_file, import_path);
    if c.answers.contains_key(key) {
        (c.answers[key], c)
    } else {
        let ans = spec_resolve_uncached(known.map_values(|p: Seq<char>| spec_normalize(p)), known, import_path, from_file);
        let c1 = if c.answers.len() >= 100_000 { evicted(c, 20_000) } else { c };
        (ans, CacheView { answers: c1.answers.insert(key, ans), order: c1.order.push(key) })
    }
}

impl ImportResolver {
    /// The known file paths, as given.
    pub closed spec fn files(&self) -> Seq<Seq<char>> {
        self.all_files@.map_values(|s: String| s@)
    }

    /// The known file paths, normalized.
    pub open spec fn normalized(&self) -> Seq<Seq<char>> {
        self.files().map_values(|p: Seq<char>| spec_normalize(p))
    }

    /// What resolving `import_path` from `from_file` gives, before any caching.
    pub open spec fn resolution(&self, import_path: Seq<char>, from_file: Seq<char>) -> Option<Seq<char>> {
        spec_resolve_uncached(self.normalized(), self.files(), import_path, from_file)
    }

    /// The cached answers, by cache key.
    pub closed spec fn cached(&self) -> Map<Seq<char>, Option<Seq<char>>> {
        self.cache@.map_values(|o: Option<String>| opt_view(o))
    }

    /// The cache: its answers and the order of its keys.
    pub closed spec fn cache_view(&self) -> CacheView {
        CacheView { answers: self.cached(), order: key_texts(self.cache_order@) }
    }

    /// Every cached answer is the answer for some pair whose key it is stored under.
    pub closed spec fn cache_sound(&self) -> bool {
        forall|k: Seq<char>| #[trigger] self.cache@.contains_key(k) ==> exists|f: Seq<char>, i: Seq<char>|
            k == cache_key(f, i) && opt_view(self.cache@[k]) == #[trigger] self.resolution(i, f)
    }

    /// Every cached answer was stored under the key of a pair whose file path
    /// holds no colon, and is the answer for that pair.
    pub closed spec fn cache_from_plain_files(&self) -> bool {
        forall|k: Seq<char>| #[trigger] self.cache@.contains_key(k) ==> exists|f: Seq<char>, i: Seq<char>|
            k == cache_key(f, i) && !f.contains(':') && opt_view(self.cache@[k]) == #[trigger] self.resolution(i, f)
    }

    /// The resolver's internal invariant.
    pub closed spec fn wf(&self) -> bool {
        &&& self.normalized_files@.len() == self.all_files@.len()
        &&& self.all_files@.len() < usize::MAX
        &&& forall|i: int| 0 <= i < self.all_files@.len() ==> #[trigger] self.normalized_files@[i]@
            == spec_normalize(self.all_files@[i]@)
        &&& index_ok(self.index.map@, self.normalized(), self.all_files@.len() as int)
        &&& self.cache_sound()
    }

    proof fn lemma_normalized(&self)
        requires
            self.normalized_files@.len() == self.all_files@.len(),
            forall|i: int| 0 <= i < self.all_files@.len() ==> #[trigger] self.normalized_files@[i]@
                == spec_normalize(self.all_files@[i]@),
        ensures
            self.normalized_files@.map_values(|v: Vec<char>| v@) == self.normalized(),
    {
        assert(self.normalized_files@.map_values(|v: Vec<char>| v@) =~= self.normalized());
    }

    /// Builds a resolver over the given repository file paths.
    pub fn new(all_files: Vec<String>) -> (r: Self)
        requires
            all_files@.len() < usize::MAX,
        ensures
            r.wf(),
            r.files() == all_files@.map_values(|s: String| s@),
            r.cache_from_plain_files(),
            r.cache_view() == empty_cache(),
    {
        let mut normalized_files: Vec<Vec<char>> = Vec::new();
        let mut i: usize = 0;
        while i < all_files.len()
            invariant
                i <= all_files@.len(),
                normalized_files@.len() == i,
                forall|k: int| 0 <= k < i ==> #[trigger] normalized_files@[k]@ == spec_normalize(
                    all_files@[k]@,
                ),
            decreases all_files.len() - i,
        {
            let cs = chars_of(all_files[i].as_str());
            normalized_files.push(replace_char(&cs, '\\', '/'));
            i = i + 1;
        }
        let index = SuffixIndex::build(&normalized_files);
        let r = ImportResolver {
            all_files,
            normalized_files,
            index,
            cache: StringHashMap::new(),
            cache_order: Vec::new(),
        };
        proof {
            r.lemma_normalized();
            assert(r.cached() =~= Map::empty());
            assert(key_texts(r.cache_order@) =~= Seq::empty());
        }
        r
    }

    /// Get all known file paths.
    pub fn all_files(&self) -> (r: &[String])
        ensures
            r@.map_values(|s: String| s@) == self.files(),
    {
        self.all_files.as_slice()
    }

    /// Check if a file path exists in our file list.
    fn file_exists(&self, path: &[char]) -> (r: bool)
        requires
            self.wf(),
        ensures
            r == spec_file_exists(self.normalized(), path@),
    {
        proof {
            self.lemma_normalized();
        }
        let ghost nf = self.normalized();
        let normalized = replace_char(path, '\\', '/');
        let mut i: usize = 0;
        while i < self.normalized_files.len()
            invariant
                self.wf(),
                nf == self.normalized(),
                nf == self.normalized_files@.map_values(|v: Vec<char>| v@),
                i <= nf.len(),
                normalized@ == spec_normalize(path@),
                forall|k: int| 0 <= k < i ==> nf[k] != normalized@,
            decreases self.normalized_files.len() - i,
        {
            if chars_eq(&self.normalized_files[i], &normalized) {
                assert(nf[i as int] == normalized@);
                return true;
            }
            i = i + 1;
        }
        false
    }

    /// The first of `cands` (given by `cand_at`) that names a known file.
    fn try_resolve_with_extensions(&self, base: &[char]) -> (r: Option<String>)
        requires
            self.wf(),
        ensures
            opt_view(r) == first_existing(self.normalized(), ext_candidates(base@)),
    {
        let ghost nf = self.normalized();
        let ghost cands = ext_candidates(base@);
        let mut k: usize = 0;
        assert(cands.subrange(0, 18) =~= cands);
        while k < 18
            invariant
                self.wf(),
                nf == self.normalized(),
                cands == ext_candidates(base@),
                cands.len() == 18,
                k <= 18,
                first_existing(nf, cands) == first_existing(nf, cands.subrange(k as int, 18)),
            decreases 18 - k,
        {
            let c = ext_candidate(base, k);
            assert(cands.subrange(k as int, 18)[0] == cands[k as int]);
            assert(cands.subrange(k as int, 18).drop_first() =~= cands.subrange(k + 1, 18));
            if self.file_exists(&c) {
                return Some(string_of(&c));
            }
            k = k + 1;
        }
        None
    }

    /// The first index file under the directory `base` that names a known file.
    fn try_dir_index(&self, base: &[char]) -> (r: Option<String>)
        requires
            self.wf(),
        ensures
            opt_view(r) == first_existing(self.normalized(), dir_candidates(base@)),
    {
        let ghost nf = self.normalized();
        let ghost cands = dir_candidates(base@);
        let mut k: usize = 0;
        assert(cands.subrange(0, 7) =~= cands);
        while k < 7
            invariant
                self.wf(),
                nf == self.normalized(),
                cands == dir_candidates(base@),
                cands.len() == 7,
                k <= 7,
                first_existing(nf, cands) == first_existing(nf, cands.subrange(k as int, 7)),
            decreases 7 - k,
        {
            let c = dir_candidate(base, k);
            assert(cands.subrange(k as int, 7)[0] == cands[k as int]);
            assert(cands.subrange(k as int, 7).drop_first() =~= cands.subrange(k + 1, 7));
            if self.file_exists(&c) {
                return Some(string_of(&c));
            }
            k = k + 1;
        }
        None
    }

    /// Resolve a relative import path.
    fn resolve_relative(&self, import_path: &[char], from_file: &[char]) -> (r: Option<String>)
        requires
            self.wf(),
        ensures
            opt_view(r) == spec_resolve_relative(self.normalized(), import_path@, from_file@),
    {
        let from_dir = parent_or_empty(from_file);
        let parts = split_char(import_path, '/');
        let ghost ps = spec_split(import_path@, '/');
        let ghost target = walk(from_dir@, ps);
        let mut resolved = from_dir;
        let mut i: usize = 0;
        assert(ps.subrange(0, ps.len() as int) =~= ps);
        let dot = chars_of(".");
        let dotdot = chars_of("..");
        while i < parts.len()
            invariant
                parts@.len() == ps.len(),
                forall|k: int| 0 <= k < parts@.len() ==> #[trigger] parts@[k]@ == ps[k],
                i <= ps.len(),
                dot@ == "."@,
                dotdot@ == ".."@,
                target == walk(resolved@, ps.subrange(i as int, ps.len() as int)),
            decreases parts.len() - i,
        {
            let part = &parts[i];
            assert(ps.subrange(i as int, ps.len() as int)[0] == ps[i as int]);
            assert(ps.subrange(i as int, ps.len() as int).drop_first() =~= ps.subrange(
                i + 1,
                ps.len() as int,
            ));
            if chars_eq(part, &dot) {
            } else if chars_eq(part, &dotdot) {
                resolved = path_pop(&resolved);
            } else {
                resolved = path_push(&resolved, part);
            }
            i = i + 1;
        }
        assert(ps.subrange(i as int, ps.len() as int).len() == 0);
        let base = replace_char(&resolved, '\\', '/');
        if let Some(found) = self.try_resolve_with_extensions(&base) {
            return Some(found);
        }
        self.try_dir_index(&base)
    }


    fn resolve_uncached(&self, import_path: &[char], from_file: &[char]) -> (r: Option<String>)
        requires
            self.wf(),
        ensures
            opt_view(r) == self.resolution(import_path@, from_file@),
    {
        // Validate
        let t = trim(import_path);
        let cleaned = trim_quotes(&t);
        if cleaned.len() == 0 || exceeds_utf8_len(&cleaned, 2048) {
            return None;
        }
        if has_control_char(&cleaned) {
            return None;
        }
        // Relative imports
        let cur = chars_of("./");
        let up = chars_of("../");
        if starts_with(&cleaned, &cur) || starts_with(&cleaned, &up) {
            return self.resolve_relative(&cleaned, from_file);
        }
        // Suffix-based resolution for bare specifiers
        self.resolve_suffix(&cleaned)
    }

    /// Resolve an import path from a given file to a target file path.
    ///
    /// Returns `None` if the import cannot be resolved. Answers are cached under
    /// the key `from_file::import_path`; a cached answer is returned as it is.
    pub fn resolve(&mut self, import_path: &str, from_file: &str, language: Language) -> (r: Option<String>)
        requires
            old(self).wf(),
        ensures
            final(self).wf(),
            final(self).files() == old(self).files(),
            // An answer cached for this key is returned as it is.
            old(self).cached().contains_key(cache_key(from_file@, import_path@)) ==> opt_view(r)
                == old(self).cached()[cache_key(from_file@, import_path@)],
            // Otherwise the answer is resolved afresh, and cached.
            !old(self).cached().contains_key(cache_key(from_file@, import_path@)) ==> opt_view(r)
                == old(self).resolution(import_path@, from_file@) && final(self).cached().contains_key(
                cache_key(from_file@, import_path@),
            ) && final(self).cached()[cache_key(from_file@, import_path@)] == opt_view(r),
            // When neither argument holds a colon the key names this pair alone,
            // so the cache never changes the answer.
            !from_file@.contains(':') && !import_path@.contains(':') ==> opt_view(r)
                == old(self).resolution(import_path@, from_file@),
            // While every file asked from holds no colon, keys never collide,
            // and the cache never changes the answer.
            old(self).cache_from_plain_files() && !from_file@.contains(':') ==> final(self).cache_from_plain_files()
                && opt_view(r) == old(self).resolution(import_path@, from_file@),
            // The answer and the cache after, in every case.
            (opt_view(r), final(self).cache_view()) == resolve_with_cache(
                old(self).files(),
                old(self).cache_view(),
                import_path@,
                from_file@,
            ),
    {
        let from_chars = chars_of(from_file);
        let import_chars = chars_of(import_path);
        let sep = chars_of("::");
        let key_chars = concat(&concat(&from_chars, &sep), &import_chars);
        let cache_key_s = string_of(&key_chars);
        let ghost key = cache_key(from_file@, import_path@);
        assert(cache_key_s@ == key);
        proof {
            if !from_file@.contains(':') && !import_path@.contains(':') && self.cache@.contains_key(key) {
                let (f, i) = choose|f: Seq<char>, i: Seq<char>|
                    key == cache_key(f, i) && opt_view(self.cache@[key]) == #[trigger] self.resolution(i, f);
                lemma_cache_key_unique(f, i, from_file@, import_path@);
            }
            if self.cache_from_plain_files() && !from_file@.contains(':') && self.cache@.contains_key(key) {
                let (f, i) = choose|f: Seq<char>, i: Seq<char>|
                    key == cache_key(f, i) && !f.contains(':') && opt_view(self.cache@[key]) == #[trigger] self.resolution(i, f);
                lemma_cache_key_unique_files(f, i, from_file@, import_path@);
            }
        }
        let ghost plain0 = self.cache_from_plain_files();
        let ghost c0 = self.cache_view();
        let ghost files0 = self.files();
        proof {
            assert(self.cached().dom() =~= self.cache@.dom());
            assert(self.normalized() == files0.map_values(|p: Seq<char>| spec_normalize(p)));
        }
        match self.cache.get(cache_key_s.as_str()) {
            Some(cached) => {
                let r = cached.clone();
                assert(opt_view(r) == c0.answers[key]);
                return r;
            },
            None => {},
        }
        let result = self.resolve_uncached(&import_chars, &from_chars);
        let ghost pre_evict = *self;
        let ghost c1 = if c0.answers.len() >= 100_000 { evicted(c0, 20_000) } else { c0 };
        // Bound the cache: past 100k entries, the oldest 20k are dropped.
        if self.cache.len() >= 100_000 {
            self.evict_oldest(20_000);
        }
        proof {
            assert(self.cached() =~= c1.answers);
            assert(self.cache_view() == c1);
        }
        let ghost before = self.cache@;
        let ghost s0 = *self;
        assert(s0.cache_sound());
        let stored = match &result {
            Some(s) => Some(s.clone()),
            None => None,
        };
        self.cache.insert(cache_key_s, stored);
        let ghost order_before = self.cache_order@;
        let key_s = string_of(&key_chars);
        assert(key_s@ == key);
        self.cache_order.push(key_s);
        proof {
            assert(self.cached() =~= c1.answers.insert(key, opt_view(result)));
            assert(key_texts(self.cache_order@) =~= c1.order.push(key));
            assert(opt_view(result) == self.resolution(import_path@, from_file@));
        }
        proof {
            assert forall|k: Seq<char>| #[trigger] self.cache@.contains_key(k) implies exists|
                f: Seq<char>,
                i: Seq<char>,
            | k == cache_key(f, i) && opt_view(self.cache@[k]) == #[trigger] self.resolution(i, f) by {
                if k == key {
                    assert(opt_view(self.cache@[k]) == self.resolution(import_path@, from_file@));
                } else {
                    assert(before.contains_key(k));
                    assert(s0.cache@.contains_key(k));
                    let (f, j) = choose|f: Seq<char>, j: Seq<char>|
                        k == cache_key(f, j) && opt_view(s0.cache@[k]) == #[trigger] s0.resolution(j, f);
                    assert(s0.resolution(j, f) == self.resolution(j, f));
                    assert(k == cache_key(f, j) && opt_view(self.cache@[k]) == self.resolution(j, f));
                }
            }
            if plain0 && !from_file@.contains(':') {
                assert forall|k: Seq<char>| #[trigger] self.cache@.contains_key(k) implies exists|
                    f: Seq<char>,
                    i: Seq<char>,
                | k == cache_key(f, i) && !f.contains(':') && opt_view(self.cache@[k]) == #[trigger] self.resolution(i, f) by {
                    if k == key {
                        assert(opt_view(self.cache@[k]) == self.resolution(import_path@, from_file@));
                    } else {
                        assert(before.contains_key(k));
                        assert(pre_evict.cache@.contains_key(k));
                        let (f, j) = choose|f: Seq<char>, j: Seq<char>|
                            k == cache_key(f, j) && !f.contains(':') && opt_view(pre_evict.cache@[k]) == #[trigger] pre_evict.resolution(j, f);
                        assert(pre_evict.resolution(j, f) == self.resolution(j, f));
                        assert(k == cache_key(f, j) && opt_view(self.cache@[k]) == self.resolution(j, f));
                    }
                }
            }
        }
        result
    }

    /// Drops up to `count` of the oldest cached answers: the cache loses the
    /// keys of the first `count` entries of the order (all of them where it is
    /// shorter), and the order loses those entries.
    fn evict_oldest(&mut self, count: usize)
        requires
            old(self).wf(),
        ensures
            final(self).wf(),
            final(self).files() == old(self).files(),
            forall|k: Seq<char>| #[trigger] final(self).cache@.contains_key(k) ==> old(self).cache@.contains_key(k)
                && final(self).cache@[k] == old(self).cache@[k],
            ({
                let n = if count < old(self).cache_order@.len() { count as int } else { old(self).cache_order@.len() as int };
                &&& final(self).cache@ == old(self).cache@.remove_keys(key_texts(old(self).cache_order@).take(n).to_set())
                &&& key_texts(final(self).cache_order@) == key_texts(old(self).cache_order@).skip(n)
            }),
    {
        let ghost order = key_texts(self.cache_order@);
        let n = if count < self.cache_order.len() { count } else { self.cache_order.len() };
        let mut i: usize = 0;
        while i < n
            invariant
                self.wf(),
                self.files() == old(self).files(),
                n <= self.cache_order@.len(),
                self.cache_order@ == old(self).cache_order@,
                order == key_texts(old(self).cache_order@),
                i <= n,
                forall|k: Seq<char>| #[trigger] self.cache@.contains_key(k) ==> old(self).cache@.contains_key(k)
                    && self.cache@[k] == old(self).cache@[k],
                self.cache@ == old(self).cache@.remove_keys(order.take(i as int).to_set()),
            decreases n - i,
        {
            let ghost s0 = *self;
            assert(s0.cache_sound());
            let key = self.cache_order[i].clone();
            self.cache.remove(key.as_str());
            proof {
                assert(order.take(i + 1) =~= order.take(i as int).push(key@));
                assert(order.take(i + 1).to_set() =~= order.take(i as int).to_set().insert(key@)) by {
                    assert forall|x: Seq<char>| #[trigger] order.take(i + 1).contains(x) <==> order.take(i as int).contains(x) || x == key@ by {
                        if order.take(i + 1).contains(x) && x != key@ {
                            let t = choose|t: int| 0 <= t < order.take(i + 1).len() && #[trigger] order.take(i + 1)[t] == x;
                            assert(order.take(i as int)[t] == x);
                        }
                        if order.take(i as int).contains(x) {
                            let t = choose|t: int| 0 <= t < order.take(i as int).len() && #[trigger] order.take(i as int)[t] == x;
                            assert(order.take(i + 1)[t] == x);
                        }
                        if x == key@ {
                            assert(order.take(i + 1)[i as int] == x);
                        }
                    }
                }
                assert(self.cache@ =~= old(self).cache@.remove_keys(order.take(i + 1).to_set()));
                assert forall|k: Seq<char>| #[trigger] self.cache@.contains_key(k) implies exists|
                    f: Seq<char>,
                    j: Seq<char>,
                | k == cache_key(f, j) && opt_view(self.cache@[k]) == #[trigger] self.resolution(j, f) by {
                    assert(s0.cache@.contains_key(k));
                    let (f, j) = choose|f: Seq<char>, j: Seq<char>|
                        k == cache_key(f, j) && opt_view(s0.cache@[k]) == #[trigger] s0.resolution(j, f);
                    assert(s0.resolution(j, f) == self.resolution(j, f));
                }
                assert(self.cache_sound());
            }
            i = i + 1;
        }
        let mut rest: Vec<String> = Vec::new();
        let mut j: usize = n;
        while j < self.cache_order.len()
            invariant
                n <= j <= self.cache_order@.len(),
                self.wf(),
                self.files() == old(self).files(),
                self.cache_order@ == old(self).cache_order@,
                order == key_texts(old(self).cache_order@),
                forall|k: Seq<char>| #[trigger] self.cache@.contains_key(k) ==> old(self).cache@.contains_key(k)
                    && self.cache@[k] == old(self).cache@[k],
                self.cache@ == old(self).cache@.remove_keys(order.take(n as int).to_set()),
                key_texts(rest@) == order.subrange(n as int, j as int),
            decreases self.cache_order.len() - j,
        {
            let ghost before = key_texts(rest@);
            rest.push(self.cache_order[j].clone());
            assert(key_texts(rest@) =~= before.push(order[j as int]));
            assert(order.subrange(n as int, j + 1) =~= order.subrange(n as int, j as int).push(order[j as int]));
            j = j + 1;
        }
        assert(order.subrange(n as int, order.len() as int) =~= order.skip(n as int));
        let ghost s0 = *self;
        assert(s0.wf());
        self.cache_order = rest;
        proof {
            assert forall|k: Seq<char>| #[trigger] self.cache@.contains_key(k) implies exists|
                f: Seq<char>,
                j: Seq<char>,
            | k == cache_key(f, j) && opt_view(self.cache@[k]) == #[trigger] self.resolution(j, f) by {
                assert(s0.cache@.contains_key(k));
                let (f, j) = choose|f: Seq<char>, j: Seq<char>|
                    k == cache_key(f, j) && opt_view(s0.cache@[k]) == #[trigger] s0.resolution(j, f);
                assert(s0.resolution(j, f) == self.resolution(j, f));
            }
        }
    }

    /// Resolve a bare import using suffix matching.
    fn resolve_suffix(&self, import_path: &[char]) -> (r: Option<String>)
        requires
            self.wf(),
        ensures
            opt_view(r) == spec_resolve_suffix(self.normalized(), self.files(), import_path@),
    {
        proof {
            self.lemma_normalized();
        }
        let ghost nf = self.normalized();
        let ghost files = self.files();
        // Convert dots to slashes for Java/Kotlin/Python style imports
        let path_like_v = if contains_char(import_path, '/') {
            sub_vec(import_path, 0, import_path.len())
        } else {
            replace_char(import_path, '.', '/')
        };
        assert(path_like_v@ == path_like(import_path@));
        let raw = split_char(&path_like_v, '/');
        let ghost rs = spec_split(path_like_v@, '/');
        let mut parts: Vec<Vec<char>> = Vec::new();
        let mut i: usize = 0;
        while i < raw.len()
            invariant
                raw@.len() == rs.len(),
                forall|k: int| 0 <= k < raw@.len() ==> #[trigger] raw@[k]@ == rs[k],
                i <= rs.len(),
                parts@.map_values(|v: Vec<char>| v@) == nonempty_parts(rs.subrange(0, i as int)),
            decreases raw.len() - i,
        {
            assert(rs.subrange(0, i + 1).drop_last() =~= rs.subrange(0, i as int));
            assert(rs.subrange(0, i + 1).last() == rs[i as int]);
            if raw[i].len() > 0 {
                let p = sub_vec(&raw[i], 0, raw[i].len());
                let ghost before = parts@;
                assert(p@ =~= rs[i as int]);
                parts.push(p);
                assert(parts@ == before.push(p));
                assert(parts@.map_values(|v: Vec<char>| v@) =~= before.map_values(|v: Vec<char>| v@).push(rs[i as int]));
            }
            i = i + 1;
        }
        assert(rs.subrange(0, rs.len() as int) =~= rs);
        let ghost ps = bare_parts(import_path@);
        assert(parts@.map_values(|v: Vec<char>| v@) == ps);
        if parts.len() == 0 {
            return None;
        }
        let slash = chars_of("/");
        let mut start: usize = 0;
        while start < parts.len()
            invariant
                self.wf(),
                nf == self.normalized(),
                files == self.files(),
                parts@.map_values(|v: Vec<char>| v@) == ps,
                slash@ == "/"@,
                start <= ps.len(),
                spec_resolve_suffix(nf, files, import_path@) == suffix_search(nf, files, ps, start as int),
            decreases parts.len() - start,
        {
            let sfx = join_from(&parts, start, &slash);
            assert(parts@.subrange(start as int, parts@.len() as int).map_values(|v: Vec<char>| v@)
                =~= ps.subrange(start as int, ps.len() as int));
            let ghost cands = ext_candidates(sfx@);
            let mut k: usize = 0;
            assert(cands.subrange(0, 18) =~= cands);
            while k < 18
                invariant
                    self.wf(),
                    nf == self.normalized(),
                    files == self.files(),
                    cands == ext_candidates(sfx@),
                    cands.len() == 18,
                    k <= 18,
                    start < ps.len(),
                    sfx@ == spec_join(ps.subrange(start as int, ps.len() as int), "/"@),
                    spec_resolve_suffix(nf, files, import_path@) == suffix_search(nf, files, ps, start as int),
                    first_unique(nf, files, cands) == first_unique(nf, files, cands.subrange(k as int, 18)),
                decreases 18 - k,
            {
                let c = ext_candidate(&sfx, k);
                let key = string_of(&c);
                assert(cands.subrange(k as int, 18)[0] == cands[k as int]);
                assert(cands.subrange(k as int, 18).drop_first() =~= cands.subrange(k + 1, 18));
                let indices = self.index.lookup(key.as_str(), Ghost(nf), Ghost(self.all_files@.len() as int));
                proof {
                    lemma_unique_owner_from_entry(indices@, c@, nf);
                }
                if indices.len() == 1 {
                    let f = self.all_files[indices[0]].clone();
                    proof {
                        let ix = indices@[0] as int;
                        assert(unique_owner(nf, cands[k as int]) == Some(ix));
                        assert(f@ == files[ix]);
                        assert(first_unique(nf, files, cands.subrange(k as int, 18)) == Some(files[ix]));
                        assert(first_unique(nf, files, cands) == Some(files[ix]));
                        assert(cands == ext_candidates(spec_join(ps.subrange(start as int, ps.len() as int), "/"@)));
                    }
                    return Some(f);
                }
                k = k + 1;
            }
            assert(cands.subrange(18, 18).len() == 0);
            start = start + 1;
        }
        None
    }
}

} // verus!
