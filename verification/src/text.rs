//! Character-level helpers on `str` and `String`, stated over their `Seq<char>` views.

use vstd::prelude::*;
use vstd::string::*;

verus! {

/// Appends one character to a string (`String::push`).
#[verifier::external_body]
pub(crate) fn push_char(s: &mut String, c: char)
    ensures
        final(s)@ == old(s)@.push(c),
{
    s.push(c);
}

/// The characters of `s`, in order.
pub fn chars_of(s: &str) -> (r: Vec<char>)
    ensures
        r@ == s@,
{
    let n = s.unicode_len();
    let mut r: Vec<char> = Vec::new();
    let mut i: usize = 0;
    while i < n
        invariant
            n == s@.len(),
            i <= n,
            r@ == s@.subrange(0, i as int),
        decreases n - i,
    {
        r.push(s.get_char(i));
        i = i + 1;
    }
    assert(r@ =~= s@);
    r
}

/// A `String` holding the characters of `v`.
pub fn string_of(v: &[char]) -> (r: String)
    ensures
        r@ == v@,
{
    let mut r = String::new();
    let mut i: usize = 0;
    while i < v.len()
        invariant
            i <= v@.len(),
            r@ == v@.subrange(0, i as int),
        decreases v.len() - i,
    {
        push_char(&mut r, v[i]);
        assert(v@.subrange(0, i + 1) =~= v@.subrange(0, i as int).push(v@[i as int]));
        i = i + 1;
    }
    assert(r@ =~= v@);
    r
}

/// Whether two strings hold the same characters.
pub fn str_eq(a: &str, b: &str) -> (r: bool)
    ensures
        r == (a@ == b@),
{
    let n = a.unicode_len();
    let m = b.unicode_len();
    if n != m {
        return false;
    }
    let mut i: usize = 0;
    while i < n
        invariant
            n == a@.len(),
            m == b@.len(),
            n == m,
            i <= n,
            a@.subrange(0, i as int) == b@.subrange(0, i as int),
        decreases n - i,
    {
        if a.get_char(i) != b.get_char(i) {
            assert(a@[i as int] != b@[i as int]);
            return false;
        }
        assert(a@.subrange(0, i + 1) =~= a@.subrange(0, i as int).push(a@[i as int]));
        assert(b@.subrange(0, i + 1) =~= b@.subrange(0, i as int).push(b@[i as int]));
        i = i + 1;
    }
    assert(a@ =~= a@.subrange(0, n as int));
    assert(b@ =~= b@.subrange(0, n as int));
    true
}

/// Whether two character sequences are equal.
pub fn chars_eq(a: &[char], b: &[char]) -> (r: bool)
    ensures
        r == (a@ == b@),
{
    if a.len() != b.len() {
        return false;
    }
    let mut i: usize = 0;
    while i < a.len()
        invariant
            a@.len() == b@.len(),
            i <= a@.len(),
            a@.subrange(0, i as int) == b@.subrange(0, i as int),
        decreases a.len() - i,
    {
        if a[i] != b[i] {
            return false;
        }
        assert(a@.subrange(0, i + 1) =~= a@.subrange(0, i as int).push(a@[i as int]));
        assert(b@.subrange(0, i + 1) =~= b@.subrange(0, i as int).push(b@[i as int]));
        i = i + 1;
    }
    assert(a@ =~= a@.subrange(0, a@.len() as int));
    assert(b@ =~= b@.subrange(0, b@.len() as int));
    true
}

/// Whether a character has the Unicode White_Space property, which is what
/// `char::is_whitespace` tests: U+0009 to U+000D, U+0020, U+0085, U+00A0,
/// U+1680, U+2000 to U+200A, U+2028, U+2029, U+202F, U+205F and U+3000.
pub open spec fn spec_is_whitespace(c: char) -> bool {
    let u = c as u32;
    ||| 0x9 <= u <= 0xD
    ||| u == 0x20
    ||| u == 0x85
    ||| u == 0xA0
    ||| u == 0x1680
    ||| 0x2000 <= u <= 0x200A
    ||| u == 0x2028
    ||| u == 0x2029
    ||| u == 0x202F
    ||| u == 0x205F
    ||| u == 0x3000
}

/// Whether a character is whitespace (the Unicode White_Space property).
pub(crate) fn is_whitespace(c: char) -> (r: bool)
    ensures
        r == spec_is_whitespace(c),
{
    let u = c as u32;
    (0x9 <= u && u <= 0xD) || u == 0x20 || u == 0x85 || u == 0xA0 || u == 0x1680 || (0x2000 <= u && u <= 0x200A)
        || u == 0x2028 || u == 0x2029 || u == 0x202F || u == 0x205F || u == 0x3000
}

/// `s` without its leading whitespace (`str::trim_start`).
pub open spec fn spec_trim_start(s: Seq<char>) -> Seq<char>
    decreases s.len(),
{
    if s.len() > 0 && spec_is_whitespace(s[0]) {
        spec_trim_start(s.drop_first())
    } else {
        s
    }
}

/// `s` without its trailing whitespace (`str::trim_end`).
pub open spec fn spec_trim_end(s: Seq<char>) -> Seq<char>
    decreases s.len(),
{
    if s.len() > 0 && spec_is_whitespace(s.last()) {
        spec_trim_end(s.drop_last())
    } else {
        s
    }
}

/// `s` without leading and trailing whitespace (`str::trim`).
pub open spec fn spec_trim(s: Seq<char>) -> Seq<char> {
    spec_trim_end(spec_trim_start(s))
}

/// `s` without leading characters equal to `c`.
pub open spec fn spec_trim_start_char(s: Seq<char>, c: char) -> Seq<char>
    decreases s.len(),
{
    if s.len() > 0 && s[0] == c {
        spec_trim_start_char(s.drop_first(), c)
    } else {
        s
    }
}

/// `s` without trailing characters equal to `c`.
pub open spec fn spec_trim_end_char(s: Seq<char>, c: char) -> Seq<char>
    decreases s.len(),
{
    if s.len() > 0 && s.last() == c {
        spec_trim_end_char(s.drop_last(), c)
    } else {
        s
    }
}

/// The sub-vector `s[lo..hi]`.
pub fn sub_vec(s: &[char], lo: usize, hi: usize) -> (r: Vec<char>)
    requires
        lo <= hi <= s@.len(),
    ensures
        r@ == s@.subrange(lo as int, hi as int),
{
    let mut r: Vec<char> = Vec::new();
    let mut i = lo;
    while i < hi
        invariant
            lo <= i <= hi <= s@.len(),
            r@ == s@.subrange(lo as int, i as int),
        decreases hi - i,
    {
        r.push(s[i]);
        assert(s@.subrange(lo as int, i + 1) =~= s@.subrange(lo as int, i as int).push(s@[i as int]));
        i = i + 1;
    }
    r
}

/// `str::trim_start` on characters.
pub fn trim_start(s: &[char]) -> (r: Vec<char>)
    ensures
        r@ == spec_trim_start(s@),
{
    let mut i: usize = 0;
    assert(s@.subrange(0, s@.len() as int) =~= s@);
    while i < s.len() && is_whitespace(s[i])
        invariant
            i <= s@.len(),
            spec_trim_start(s@) == spec_trim_start(s@.subrange(i as int, s@.len() as int)),
        decreases s.len() - i,
    {
        assert(s@.subrange(i as int, s@.len() as int).drop_first() =~= s@.subrange(
            i + 1,
            s@.len() as int,
        ));
        i = i + 1;
    }
    let r = sub_vec(s, i, s.len());
    assert(s@.subrange(i as int, s@.len() as int) == r@);
    r
}

/// `str::trim_end` on characters.
pub fn trim_end(s: &[char]) -> (r: Vec<char>)
    ensures
        r@ == spec_trim_end(s@),
{
    let mut j: usize = s.len();
    assert(s@.subrange(0, s@.len() as int) =~= s@);
    while j > 0 && is_whitespace(s[j - 1])
        invariant
            j <= s@.len(),
            spec_trim_end(s@) == spec_trim_end(s@.subrange(0, j as int)),
        decreases j,
    {
        assert(s@.subrange(0, j as int).drop_last() =~= s@.subrange(0, j - 1));
        j = j - 1;
    }
    let r = sub_vec(s, 0, j);
    r
}

/// `str::trim` on characters.
pub fn trim(s: &[char]) -> (r: Vec<char>)
    ensures
        r@ == spec_trim(s@),
{
    let a = trim_start(s);
    trim_end(&a)
}

/// Removes leading copies of `c`.
pub fn trim_start_char(s: &[char], c: char) -> (r: Vec<char>)
    ensures
        r@ == spec_trim_start_char(s@, c),
{
    let mut i: usize = 0;
    assert(s@.subrange(0, s@.len() as int) =~= s@);
    while i < s.len() && s[i] == c
        invariant
            i <= s@.len(),
            spec_trim_start_char(s@, c) == spec_trim_start_char(
                s@.subrange(i as int, s@.len() as int),
                c,
            ),
        decreases s.len() - i,
    {
        assert(s@.subrange(i as int, s@.len() as int).drop_first() =~= s@.subrange(
            i + 1,
            s@.len() as int,
        ));
        i = i + 1;
    }
    sub_vec(s, i, s.len())
}

/// Removes trailing copies of `c`.
pub fn trim_end_char(s: &[char], c: char) -> (r: Vec<char>)
    ensures
        r@ == spec_trim_end_char(s@, c),
{
    let mut j: usize = s.len();
    assert(s@.subrange(0, s@.len() as int) =~= s@);
    while j > 0 && s[j - 1] == c
        invariant
            j <= s@.len(),
            spec_trim_end_char(s@, c) == spec_trim_end_char(s@.subrange(0, j as int), c),
        decreases j,
    {
        assert(s@.subrange(0, j as int).drop_last() =~= s@.subrange(0, j - 1));
        j = j - 1;
    }
    sub_vec(s, 0, j)
}

/// `s` with every `from` replaced by `to`.
pub open spec fn spec_replace_char(s: Seq<char>, from: char, to: char) -> Seq<char> {
    s.map_values(|c: char| if c == from { to } else { c })
}

/// Replaces every `from` by `to`.
pub fn replace_char(s: &[char], from: char, to: char) -> (r: Vec<char>)
    ensures
        r@ == spec_replace_char(s@, from, to),
{
    let mut r: Vec<char> = Vec::new();
    let mut i: usize = 0;
    while i < s.len()
        invariant
            i <= s@.len(),
            r@ == spec_replace_char(s@.subrange(0, i as int), from, to),
        decreases s.len() - i,
    {
        let c = s[i];
        r.push(if c == from { to } else { c });
        assert(spec_replace_char(s@.subrange(0, i + 1), from, to) =~= spec_replace_char(
            s@.subrange(0, i as int),
            from,
            to,
        ).push(if c == from { to } else { c }));
        i = i + 1;
    }
    assert(s@.subrange(0, s@.len() as int) =~= s@);
    r
}

/// Whether `c` occurs in `s`.
pub fn contains_char(s: &[char], c: char) -> (r: bool)
    ensures
        r == s@.contains(c),
{
    let mut i: usize = 0;
    while i < s.len()
        invariant
            i <= s@.len(),
            forall|k: int| 0 <= k < i ==> s@[k] != c,
        decreases s.len() - i,
    {
        if s[i] == c {
            assert(s@[i as int] == c);
            return true;
        }
        i = i + 1;
    }
    false
}

/// Whether `p` is a prefix of `s`.
pub open spec fn spec_starts_with(s: Seq<char>, p: Seq<char>) -> bool {
    p.len() <= s.len() && s.subrange(0, p.len() as int) == p
}

/// Whether `p` is a suffix of `s`.
pub open spec fn spec_ends_with(s: Seq<char>, p: Seq<char>) -> bool {
    p.len() <= s.len() && s.subrange(s.len() - p.len(), s.len() as int) == p
}

/// Whether `s` starts with `p`.
pub fn starts_with(s: &[char], p: &[char]) -> (r: bool)
    ensures
        r == spec_starts_with(s@, p@),
{
    if p.len() > s.len() {
        return false;
    }
    let head = sub_vec(s, 0, p.len());
    chars_eq(&head, p)
}

/// Whether `s` ends with `p`.
pub fn ends_with(s: &[char], p: &[char]) -> (r: bool)
    ensures
        r == spec_ends_with(s@, p@),
{
    if p.len() > s.len() {
        return false;
    }
    let tail = sub_vec(s, s.len() - p.len(), s.len());
    chars_eq(&tail, p)
}

/// The concatenation `a ++ b`.
pub fn concat(a: &[char], b: &[char]) -> (r: Vec<char>)
    ensures
        r@ == a@ + b@,
{
    let mut r = sub_vec(a, 0, a.len());
    let mut i: usize = 0;
    while i < b.len()
        invariant
            i <= b@.len(),
            r@ == a@ + b@.subrange(0, i as int),
        decreases b.len() - i,
    {
        r.push(b[i]);
        assert(a@ + b@.subrange(0, i + 1) =~= (a@ + b@.subrange(0, i as int)).push(b@[i as int]));
        i = i + 1;
    }
    assert(a@.subrange(0, a@.len() as int) =~= a@);
    assert(b@.subrange(0, b@.len() as int) =~= b@);
    r
}

/// `s` split at every `sep` (`str::split` with a character pattern): always at least one part.
pub open spec fn spec_split(s: Seq<char>, sep: char) -> Seq<Seq<char>>
    decreases s.len(),
{
    if s.len() == 0 {
        seq![Seq::<char>::empty()]
    } else {
        let p = spec_split(s.drop_last(), sep);
        if s.last() == sep {
            p.push(Seq::<char>::empty())
        } else {
            p.update(p.len() - 1, p.last().push(s.last()))
        }
    }
}

/// `spec_split` always yields at least one part.
pub proof fn lemma_split_nonempty(s: Seq<char>, sep: char)
    ensures
        spec_split(s, sep).len() >= 1,
    decreases s.len(),
{
    if s.len() > 0 {
        lemma_split_nonempty(s.drop_last(), sep);
    }
}

/// Splits `s` at every `sep`.
pub fn split_char(s: &[char], sep: char) -> (r: Vec<Vec<char>>)
    ensures
        r@.len() == spec_split(s@, sep).len(),
        forall|k: int| 0 <= k < r@.len() ==> #[trigger] r@[k]@ == spec_split(s@, sep)[k],
{
    let mut parts: Vec<Vec<char>> = Vec::new();
    let mut cur: Vec<char> = Vec::new();
    let mut i: usize = 0;
    while i < s.len()
        invariant
            i <= s@.len(),
            parts@.len() + 1 == spec_split(s@.subrange(0, i as int), sep).len(),
            forall|k: int|
                0 <= k < parts@.len() ==> #[trigger] parts@[k]@ == spec_split(
                    s@.subrange(0, i as int),
                    sep,
                )[k],
            cur@ == spec_split(s@.subrange(0, i as int), sep).last(),
        decreases s.len() - i,
    {
        proof {
            lemma_split_nonempty(s@.subrange(0, i as int), sep);
            assert(s@.subrange(0, i + 1).drop_last() =~= s@.subrange(0, i as int));
        }
        let c = s[i];
        if c == sep {
            let done = cur;
            parts.push(done);
            cur = Vec::new();
        } else {
            cur.push(c);
        }
        i = i + 1;
    }
    parts.push(cur);
    assert(s@.subrange(0, s@.len() as int) =~= s@);
    parts
}

/// The parts joined with `sep` between them (`[..].join(sep)`).
pub open spec fn spec_join(parts: Seq<Seq<char>>, sep: Seq<char>) -> Seq<char>
    decreases parts.len(),
{
    if parts.len() == 0 {
        Seq::<char>::empty()
    } else if parts.len() == 1 {
        parts[0]
    } else {
        spec_join(parts.drop_last(), sep) + sep + parts.last()
    }
}

/// Joins the parts `parts[lo..]` with `sep`.
pub fn join_from(parts: &Vec<Vec<char>>, lo: usize, sep: &[char]) -> (r: Vec<char>)
    requires
        lo <= parts@.len(),
    ensures
        r@ == spec_join(parts@.subrange(lo as int, parts@.len() as int).map_values(|v: Vec<char>| v@), sep@),
{
    let ghost view = parts@.map_values(|v: Vec<char>| v@);
    let mut r: Vec<char> = Vec::new();
    let mut i = lo;
    while i < parts.len()
        invariant
            lo <= i <= parts@.len(),
            view == parts@.map_values(|v: Vec<char>| v@),
            r@ == spec_join(view.subrange(lo as int, i as int), sep@),
        decreases parts.len() - i,
    {
        let ghost before = view.subrange(lo as int, i as int);
        assert(view.subrange(lo as int, i + 1).drop_last() =~= before);
        if i > lo {
            r = concat(&r, sep);
        }
        r = concat(&r, &parts[i]);
        proof {
            if i == lo {
                assert(view.subrange(lo as int, i + 1).len() == 1);
            }
        }
        i = i + 1;
    }
    assert(view.subrange(lo as int, parts@.len() as int) =~= parts@.subrange(
        lo as int,
        parts@.len() as int,
    ).map_values(|v: Vec<char>| v@));
    r
}

/// The view of an optional string.
pub open spec fn opt_string_view(o: Option<String>) -> Option<Seq<char>> {
    match o {
        Some(s) => Some(s@),
        None => None,
    }
}

/// A copy of an optional string.
pub fn clone_opt_string(o: &Option<String>) -> (r: Option<String>)
    ensures
        opt_string_view(r) == opt_string_view(*o),
{
    match o {
        Some(s) => Some(s.clone()),
        None => None,
    }
}

/// The first position at or after `i` where `sep` occurs in `s`.
pub open spec fn spec_find_from(s: Seq<char>, sep: Seq<char>, i: int) -> Option<int>
    decreases s.len() - i,
{
    if i < 0 || i + sep.len() > s.len() {
        None
    } else if sep.len() == 0 || s.subrange(i, i + sep.len()) == sep {
        Some(i)
    } else {
        spec_find_from(s, sep, i + 1)
    }
}

/// The last position at or before `j` where `sep` occurs in `s`.
pub open spec fn spec_rfind_to(s: Seq<char>, sep: Seq<char>, j: int) -> Option<int>
    decreases j + 1,
{
    if j < 0 {
        None
    } else if j + sep.len() <= s.len() && s.subrange(j, j + sep.len()) == sep {
        Some(j)
    } else {
        spec_rfind_to(s, sep, j - 1)
    }
}

/// The last position where `sep` occurs in `s`.
pub open spec fn spec_rfind(s: Seq<char>, sep: Seq<char>) -> Option<int> {
    spec_rfind_to(s, sep, s.len() - sep.len())
}

proof fn lemma_find_from_bounds(s: Seq<char>, sep: Seq<char>, i: int)
    ensures
        spec_find_from(s, sep, i) matches Some(k) ==> i <= k && k + sep.len() <= s.len(),
    decreases s.len() - i,
{
    if !(i < 0 || i + sep.len() > s.len()) && !(sep.len() == 0 || s.subrange(i, i + sep.len()) == sep) {
        lemma_find_from_bounds(s, sep, i + 1);
    }
}

proof fn lemma_rfind_to_bounds(s: Seq<char>, sep: Seq<char>, j: int)
    ensures
        spec_rfind_to(s, sep, j) matches Some(k) ==> 0 <= k <= j && k + sep.len() <= s.len(),
    decreases j + 1,
{
    if j >= 0 && !(j + sep.len() <= s.len() && s.subrange(j, j + sep.len()) == sep) {
        lemma_rfind_to_bounds(s, sep, j - 1);
    }
}

/// Where `sep` first occurs in `s` at or after `from`.
pub fn find_str(s: &[char], sep: &[char], from: usize) -> (r: Option<usize>)
    requires
        from <= s.len(),
    ensures
        match r {
            Some(k) => spec_find_from(s@, sep@, from as int) == Some(k as int) && k + sep@.len() <= s@.len(),
            None => spec_find_from(s@, sep@, from as int) is None,
        },
{
    let n = s.len();
    if sep.len() > n {
        return None;
    }
    let last = n - sep.len();
    let mut i = from;
    while i <= last
        invariant
            from <= i,
            n == s@.len(),
            last + sep@.len() == s@.len(),
            spec_find_from(s@, sep@, from as int) == spec_find_from(s@, sep@, i as int),
        decreases s.len() - i,
    {
        let mut k: usize = 0;
        while k < sep.len() && s[i + k] == sep[k]
            invariant
                n == s@.len(),
                i + sep@.len() <= s@.len(),
                k <= sep@.len(),
                forall|m: int| 0 <= m < k ==> s@[i + m] == sep@[m],
            decreases sep.len() - k,
        {
            k = k + 1;
        }
        if k == sep.len() {
            assert(s@.subrange(i as int, i + sep@.len()) =~= sep@);
            return Some(i);
        }
        assert(s@.subrange(i as int, i + sep@.len())[k as int] != sep@[k as int]);
        i = i + 1;
    }
    None
}

/// Where `sep` last occurs in `s`.
pub fn rfind_str(s: &[char], sep: &[char]) -> (r: Option<usize>)
    ensures
        match r {
            Some(k) => spec_rfind(s@, sep@) == Some(k as int) && k + sep@.len() <= s@.len(),
            None => spec_rfind(s@, sep@) is None,
        },
{
    let n = s.len();
    if sep.len() > n {
        return None;
    }
    let mut j = n - sep.len();
    loop
        invariant
            n == s@.len(),
            j + sep@.len() <= s@.len(),
            spec_rfind(s@, sep@) == spec_rfind_to(s@, sep@, j as int),
        decreases j,
    {
        let mut k: usize = 0;
        while k < sep.len() && s[j + k] == sep[k]
            invariant
                n == s@.len(),
                j + sep@.len() <= s@.len(),
                k <= sep@.len(),
                forall|m: int| 0 <= m < k ==> s@[j + m] == sep@[m],
            decreases sep.len() - k,
        {
            k = k + 1;
        }
        if k == sep.len() {
            assert(s@.subrange(j as int, j + sep@.len()) =~= sep@);
            return Some(j);
        }
        assert(s@.subrange(j as int, j + sep@.len())[k as int] != sep@[k as int]);
        if j == 0 {
            assert(spec_rfind_to(s@, sep@, -1) is None);
            return None;
        }
        j = j - 1;
    }
}

/// `s` split at the first `sep`: the parts before and after it.
pub open spec fn spec_split_once(s: Seq<char>, sep: Seq<char>) -> Option<(Seq<char>, Seq<char>)> {
    match spec_find_from(s, sep, 0) {
        Some(i) => Some((s.subrange(0, i), s.subrange(i + sep.len(), s.len() as int))),
        None => None,
    }
}

/// `str::split_once` on characters.
pub fn split_once(s: &[char], sep: &[char]) -> (r: Option<(Vec<char>, Vec<char>)>)
    ensures
        match r {
            Some((a, b)) => spec_split_once(s@, sep@) == Some((a@, b@)),
            None => spec_split_once(s@, sep@) is None,
        },
{
    proof {
        lemma_find_from_bounds(s@, sep@, 0);
    }
    match find_str(s, sep, 0) {
        Some(i) => {
            let n = s.len();
            assert(i + sep@.len() <= n);
            let end = i + sep.len();
            Some((sub_vec(s, 0, i), sub_vec(s, end, s.len())))
        },
        None => None,
    }
}

/// `s` split at every `sep`, left to right (`str::split` with a non-empty
/// string pattern).
pub open spec fn spec_split_str(s: Seq<char>, sep: Seq<char>) -> Seq<Seq<char>>
    decreases s.len(),
{
    if sep.len() == 0 {
        seq![s]
    } else {
        match spec_find_from(s, sep, 0) {
            Some(i) => if 0 <= i && i + sep.len() <= s.len() {
                seq![s.subrange(0, i)] + spec_split_str(s.subrange(i + sep.len(), s.len() as int), sep)
            } else {
                seq![s]
            },
            None => seq![s],
        }
    }
}

/// `str::split` with a non-empty string separator, on characters.
pub fn split_str(s: &[char], sep: &[char]) -> (r: Vec<Vec<char>>)
    requires
        sep@.len() > 0,
    ensures
        r@.map_values(|v: Vec<char>| v@) == spec_split_str(s@, sep@),
    decreases s@.len(),
{
    proof {
        lemma_find_from_bounds(s@, sep@, 0);
    }
    match find_str(s, sep, 0) {
        Some(i) => {
            let n = s.len();
            assert(i + sep@.len() <= n);
            let end = i + sep.len();
            let head = sub_vec(s, 0, i);
            let tail = sub_vec(s, end, s.len());
            let rest = split_str(&tail, sep);
            let mut r: Vec<Vec<char>> = Vec::new();
            r.push(head);
            let ghost rv = rest@.map_values(|v: Vec<char>| v@);
            let mut k: usize = 0;
            while k < rest.len()
                invariant
                    k <= rest@.len(),
                    r@.len() == k + 1,
                    r@[0]@ == s@.subrange(0, i as int),
                    forall|m: int| 1 <= m <= k ==> #[trigger] r@[m]@ == rest@[m - 1]@,
                decreases rest.len() - k,
            {
                r.push(rest[k].clone());
                k = k + 1;
            }
            assert(r@.map_values(|v: Vec<char>| v@) =~= seq![s@.subrange(0, i as int)] + rv);
            r
        },
        None => {
            let mut r: Vec<Vec<char>> = Vec::new();
            r.push(sub_vec(s, 0, s.len()));
            assert(s@.subrange(0, s@.len() as int) =~= s@);
            assert(r@.map_values(|v: Vec<char>| v@) =~= seq![s@]);
            r
        },
    }
}

/// `s` without leading copies of the non-empty string `p`
/// (`str::trim_start_matches` with a string pattern).
pub open spec fn spec_trim_start_matches(s: Seq<char>, p: Seq<char>) -> Seq<char>
    decreases s.len(),
{
    if p.len() > 0 && spec_starts_with(s, p) {
        spec_trim_start_matches(s.subrange(p.len() as int, s.len() as int), p)
    } else {
        s
    }
}

/// Removes leading copies of the string `p`.
pub fn trim_start_matches(s: &[char], p: &[char]) -> (r: Vec<char>)
    ensures
        r@ == spec_trim_start_matches(s@, p@),
{
    let mut cur = sub_vec(s, 0, s.len());
    assert(cur@ =~= s@);
    if p.len() == 0 {
        return cur;
    }
    while starts_with(&cur, p)
        invariant
            p@.len() > 0,
            spec_trim_start_matches(s@, p@) == spec_trim_start_matches(cur@, p@),
        decreases cur@.len(),
    {
        cur = sub_vec(&cur, p.len(), cur.len());
    }
    cur
}

/// The part of `s` after the last `sep` (all of `s` when there is none):
/// the first item of `str::rsplit`.
pub open spec fn spec_after_last(s: Seq<char>, sep: Seq<char>) -> Seq<char> {
    match spec_rfind(s, sep) {
        Some(j) => s.subrange(j + sep.len(), s.len() as int),
        None => s,
    }
}

/// The part of `s` after the last `sep`.
pub fn after_last(s: &[char], sep: &[char]) -> (r: Vec<char>)
    ensures
        r@ == spec_after_last(s@, sep@),
{
    match rfind_str(s, sep) {
        Some(j) => {
            let n = s.len();
            assert(j + sep@.len() <= n);
            let end = j + sep.len();
            sub_vec(s, end, s.len())
        },
        None => {
            assert(s@.subrange(0, s@.len() as int) =~= s@);
            sub_vec(s, 0, s.len())
        },
    }
}

} // verus!
