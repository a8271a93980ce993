//! Repository scan rules: which paths the configured ignore patterns and the
//! `.gitignore` rules leave out, and which files are kept as source files.

use vstd::prelude::*;
use crate::config::Config;
use crate::glob::{glob, glob_match};
use crate::paths::{path_extension, spec_path_extension};
use crate::text::{
    chars_of, contains_char, ends_with, replace_char, spec_ends_with, spec_replace_char, spec_starts_with,
    spec_trim, spec_trim_end_char, spec_trim_start, spec_trim_start_char, starts_with, str_eq, string_of,
    sub_vec, trim, trim_end_char, trim_start, trim_start_char,
};
use crate::types::{Language, spec_language_from_extension};

verus! {

/// The content of a `.gitignore` rule.
pub struct RuleView {
    pub base: Seq<char>,
    pub pattern: Seq<char>,
    pub directory_only: bool,
    pub negated: bool,
}

/// One rule of a `.gitignore` file, applying below the directory `base`.
#[derive(Clone, Debug)]
pub struct IgnoreRule {
    pub base: String,
    pub pattern: String,
    pub directory_only: bool,
    pub negated: bool,
}

impl View for IgnoreRule {
    type V = RuleView;

    open spec fn view(&self) -> RuleView {
        RuleView { base: self.base@, pattern: self.pattern@, directory_only: self.directory_only, negated: self.negated }
    }
}

/// The views of a sequence of rules.
pub open spec fn rules_view(s: Seq<IgnoreRule>) -> Seq<RuleView> {
    s.map_values(|r: IgnoreRule| r@)
}

/// A pattern with each backslash turned into a slash.
pub open spec fn spec_normalize_pattern(p: Seq<char>) -> Seq<char> {
    spec_replace_char(p, '\\', '/')
}

/// A pattern with each backslash turned into a slash.
pub fn normalize_pattern(pattern: &str) -> (r: String)
    ensures
        r@ == spec_normalize_pattern(pattern@),
{
    let cs = chars_of(pattern);
    string_of(&replace_char(&cs, '\\', '/'))
}

/// The rule a `.gitignore` line gives, read in the directory `base`.
/// Blank lines and comments give none; `\#` escapes a leading `#`; a leading
/// `!` negates; a trailing `/` restricts the rule to directories; leading
/// slashes are dropped.
pub open spec fn spec_parse_gitignore_line(line: Seq<char>, base: Seq<char>) -> Option<RuleView> {
    let l0 = spec_trim(line);
    if l0.len() == 0 || l0[0] == '#' {
        None
    } else {
        let l1 = if spec_starts_with(l0, seq!['\\', '#']) { l0.subrange(2, l0.len() as int) } else { l0 };
        let negated = l1.len() > 0 && l1[0] == '!';
        let l2 = if negated { spec_trim_start(l1.subrange(1, l1.len() as int)) } else { l1 };
        let directory_only = spec_ends_with(l2, seq!['/']);
        let l3 = if directory_only { spec_trim_end_char(l2, '/') } else { l2 };
        let l4 = spec_trim_start_char(l3, '/');
        if l4.len() == 0 {
            None
        } else {
            Some(RuleView { base, pattern: spec_normalize_pattern(l4), directory_only, negated })
        }
    }
}

/// The rule a `.gitignore` line gives, read in the directory `base`.
pub fn parse_gitignore_line(line: &str, base: &str) -> (r: Option<IgnoreRule>)
    ensures
        match r {
            Some(rule) => spec_parse_gitignore_line(line@, base@) == Some(rule@),
            None => spec_parse_gitignore_line(line@, base@) is None,
        },
{
    let raw = chars_of(line);
    let l0 = trim(&raw);
    if l0.len() == 0 || l0[0] == '#' {
        return None;
    }
    let escaped_hash = vec!['\\', '#'];
    assert(escaped_hash@ =~= seq!['\\', '#']);
    let l1 = if starts_with(&l0, &escaped_hash) { sub_vec(&l0, 2, l0.len()) } else { l0 };
    let negated = l1.len() > 0 && l1[0] == '!';
    let l2 = if negated {
        let rest = sub_vec(&l1, 1, l1.len());
        trim_start(&rest)
    } else {
        l1
    };
    let slash = vec!['/'];
    assert(slash@ =~= seq!['/']);
    let directory_only = ends_with(&l2, &slash);
    let l3 = if directory_only { trim_end_char(&l2, '/') } else { l2 };
    let l4 = trim_start_char(&l3, '/');
    if l4.len() == 0 {
        return None;
    }
    let pattern = string_of(&replace_char(&l4, '\\', '/'));
    Some(IgnoreRule { base: base.to_owned(), pattern, directory_only, negated })
}

/// The part of `path` below the directory `base`: the whole path when
/// `base` is empty, empty when they are equal, nothing when `path` is not
/// below `base`.
pub open spec fn spec_strip_base(path: Seq<char>, base: Seq<char>) -> Option<Seq<char>> {
    if base.len() == 0 {
        Some(path)
    } else if path == base {
        Some(Seq::empty())
    } else if spec_starts_with(path, base.push('/')) {
        Some(path.subrange(base.len() as int + 1, path.len() as int))
    } else {
        None
    }
}

/// The part of `path` below the directory `base`.
pub fn strip_base(path: &str, base: &str) -> (r: Option<String>)
    ensures
        match r {
            Some(s) => spec_strip_base(path@, base@) == Some(s@),
            None => spec_strip_base(path@, base@) is None,
        },
{
    if base.unicode_len() == 0 {
        return Some(path.to_owned());
    }
    if str_eq(path, base) {
        return Some(String::new());
    }
    let p = chars_of(path);
    let mut b = chars_of(base);
    b.push('/');
    if starts_with(&p, &b) {
        let rest = sub_vec(&p, b.len(), p.len());
        Some(string_of(&rest))
    } else {
        None
    }
}

/// Whether a configured ignore pattern matches an entry: a trailing `/`
/// restricts it to directories; a pattern with a `/` is matched against the
/// relative path, any other against the entry's name.
pub open spec fn spec_config_pattern_matches(pattern: Seq<char>, name: Seq<char>, relative_path: Seq<char>, is_dir: bool) -> bool {
    let directory_only = spec_ends_with(pattern, seq!['/']);
    if directory_only && !is_dir {
        false
    } else {
        let p = spec_normalize_pattern(spec_trim_end_char(pattern, '/'));
        if p.contains('/') {
            glob(p, relative_path)
        } else {
            glob(p, name)
        }
    }
}

/// Whether a configured ignore pattern matches an entry.
pub fn config_pattern_matches(pattern: &str, name: &str, relative_path: &str, is_dir: bool) -> (r: bool)
    ensures
        r == spec_config_pattern_matches(pattern@, name@, relative_path@, is_dir),
{
    let pc = chars_of(pattern);
    let slash = vec!['/'];
    assert(slash@ =~= seq!['/']);
    let directory_only = ends_with(&pc, &slash);
    if directory_only && !is_dir {
        return false;
    }
    let trimmed = trim_end_char(&pc, '/');
    let normalized = replace_char(&trimmed, '\\', '/');
    let p = string_of(&normalized);
    if contains_char(&normalized, '/') {
        glob_match(p.as_str(), relative_path)
    } else {
        glob_match(p.as_str(), name)
    }
}

/// Whether a `.gitignore` rule matches an entry: directory-only rules match
/// directories only; the entry must lie below the rule's base; a pattern
/// with a `/` is matched against the path below the base, any other against
/// the entry's name.
pub open spec fn spec_rule_matches(rule: RuleView, name: Seq<char>, relative_path: Seq<char>, is_dir: bool) -> bool {
    if rule.directory_only && !is_dir {
        false
    } else {
        match spec_strip_base(relative_path, rule.base) {
            None => false,
            Some(under) => if rule.pattern.contains('/') {
                glob(rule.pattern, under)
            } else {
                glob(rule.pattern, name)
            },
        }
    }
}

/// Whether a `.gitignore` rule matches an entry.
pub fn rule_matches(rule: &IgnoreRule, name: &str, relative_path: &str, is_dir: bool) -> (r: bool)
    ensures
        r == spec_rule_matches(rule@, name@, relative_path@, is_dir),
{
    if rule.directory_only && !is_dir {
        return false;
    }
    let under = match strip_base(relative_path, rule.base.as_str()) {
        Some(u) => u,
        None => return false,
    };
    let pc = chars_of(rule.pattern.as_str());
    if contains_char(&pc, '/') {
        glob_match(rule.pattern.as_str(), under.as_str())
    } else {
        glob_match(rule.pattern.as_str(), name)
    }
}

/// The verdict of the last rule that matches an entry: ignored unless that
/// rule is negated; none when no rule matches.
pub open spec fn last_rule_verdict(rules: Seq<RuleView>, name: Seq<char>, relative_path: Seq<char>, is_dir: bool) -> Option<bool>
    decreases rules.len(),
{
    if rules.len() == 0 {
        None
    } else if spec_rule_matches(rules.last(), name, relative_path, is_dir) {
        Some(!rules.last().negated)
    } else {
        last_rule_verdict(rules.drop_last(), name, relative_path, is_dir)
    }
}

/// Whether an entry is left out of a scan: a configured pattern matches it,
/// or the last `.gitignore` rule that matches it is not negated.
pub open spec fn spec_is_ignored(
    name: Seq<char>,
    relative_path: Seq<char>,
    is_dir: bool,
    patterns: Seq<Seq<char>>,
    rules: Seq<RuleView>,
) -> bool {
    (exists|i: int| 0 <= i < patterns.len() && #[trigger] spec_config_pattern_matches(patterns[i], name, relative_path, is_dir))
        || last_rule_verdict(rules, name, relative_path, is_dir) == Some(true)
}

/// Ignore rules: any configured pattern that matches an entry leaves it
/// out; otherwise the last `.gitignore` rule that matches it decides (left
/// out unless that rule is negated), and an entry no rule matches is kept.
pub proof fn lemma_ignore_law(
    name: Seq<char>,
    relative_path: Seq<char>,
    is_dir: bool,
    patterns: Seq<Seq<char>>,
    rules: Seq<RuleView>,
)
    ensures
        forall|i: int|
            0 <= i < patterns.len() && #[trigger] spec_config_pattern_matches(patterns[i], name, relative_path, is_dir)
                ==> spec_is_ignored(name, relative_path, is_dir, patterns, rules),
        (forall|i: int| 0 <= i < patterns.len() ==> !#[trigger] spec_config_pattern_matches(patterns[i], name, relative_path, is_dir))
            ==> {
            &&& forall|j: int|
                0 <= j < rules.len() && #[trigger] spec_rule_matches(rules[j], name, relative_path, is_dir) && (forall|j2: int|
                    j < j2 < rules.len() ==> !#[trigger] spec_rule_matches(rules[j2], name, relative_path, is_dir))
                    ==> (spec_is_ignored(name, relative_path, is_dir, patterns, rules) <==> !rules[j].negated)
            &&& (forall|j: int| 0 <= j < rules.len() ==> !#[trigger] spec_rule_matches(rules[j], name, relative_path, is_dir))
                ==> !spec_is_ignored(name, relative_path, is_dir, patterns, rules)
        },
{
    assert forall|j: int|
        0 <= j < rules.len() && #[trigger] spec_rule_matches(rules[j], name, relative_path, is_dir) && (forall|j2: int|
            j < j2 < rules.len() ==> !#[trigger] spec_rule_matches(rules[j2], name, relative_path, is_dir))
            implies last_rule_verdict(rules, name, relative_path, is_dir) == Some(!rules[j].negated) by {
        lemma_last_verdict_at(rules, name, relative_path, is_dir, j);
    }
    if forall|j: int| 0 <= j < rules.len() ==> !#[trigger] spec_rule_matches(rules[j], name, relative_path, is_dir) {
        lemma_no_verdict(rules, name, relative_path, is_dir);
    }
}

proof fn lemma_last_verdict_at(rules: Seq<RuleView>, name: Seq<char>, relative_path: Seq<char>, is_dir: bool, j: int)
    requires
        0 <= j < rules.len(),
        spec_rule_matches(rules[j], name, relative_path, is_dir),
        forall|j2: int| j < j2 < rules.len() ==> !#[trigger] spec_rule_matches(rules[j2], name, relative_path, is_dir),
    ensures
        last_rule_verdict(rules, name, relative_path, is_dir) == Some(!rules[j].negated),
    decreases rules.len(),
{
    if j < rules.len() - 1 {
        let r0 = rules.drop_last();
        assert(!spec_rule_matches(rules[rules.len() - 1], name, relative_path, is_dir));
        assert forall|j2: int| j < j2 < r0.len() implies !#[trigger] spec_rule_matches(r0[j2], name, relative_path, is_dir) by {
            assert(r0[j2] == rules[j2]);
        }
        assert(r0[j] == rules[j]);
        lemma_last_verdict_at(r0, name, relative_path, is_dir, j);
    }
}

proof fn lemma_no_verdict(rules: Seq<RuleView>, name: Seq<char>, relative_path: Seq<char>, is_dir: bool)
    requires
        forall|j: int| 0 <= j < rules.len() ==> !#[trigger] spec_rule_matches(rules[j], name, relative_path, is_dir),
    ensures
        last_rule_verdict(rules, name, relative_path, is_dir) is None,
    decreases rules.len(),
{
    if rules.len() > 0 {
        let r0 = rules.drop_last();
        assert(!spec_rule_matches(rules[rules.len() - 1], name, relative_path, is_dir));
        assert forall|j: int| 0 <= j < r0.len() implies !#[trigger] spec_rule_matches(r0[j], name, relative_path, is_dir) by {
            assert(r0[j] == rules[j]);
        }
        lemma_no_verdict(r0, name, relative_path, is_dir);
    }
}

/// Whether an entry is left out of a scan.
pub fn is_ignored(name: &str, relative_path: &str, is_dir: bool, config: &Config, rules: &[IgnoreRule]) -> (r: bool)
    ensures
        r == spec_is_ignored(
            name@,
            relative_path@,
            is_dir,
            config.ignore_patterns@.map_values(|s: String| s@),
            rules_view(rules@),
        ),
{
    let ghost pats = config.ignore_patterns@.map_values(|s: String| s@);
    let mut i: usize = 0;
    while i < config.ignore_patterns.len()
        invariant
            pats == config.ignore_patterns@.map_values(|s: String| s@),
            i <= pats.len(),
            forall|k: int| 0 <= k < i ==> !#[trigger] spec_config_pattern_matches(pats[k], name@, relative_path@, is_dir),
        decreases config.ignore_patterns.len() - i,
    {
        if config_pattern_matches(config.ignore_patterns[i].as_str(), name, relative_path, is_dir) {
            assert(spec_config_pattern_matches(pats[i as int], name@, relative_path@, is_dir));
            return true;
        }
        i = i + 1;
    }
    let ghost rv = rules_view(rules@);
    let mut ignored: Option<bool> = None;
    let mut j: usize = 0;
    while j < rules.len()
        invariant
            rv == rules_view(rules@),
            j <= rules.len(),
            ignored == last_rule_verdict(rv.subrange(0, j as int), name@, relative_path@, is_dir),
        decreases rules.len() - j,
    {
        assert(rv.subrange(0, j + 1).drop_last() =~= rv.subrange(0, j as int));
        assert(rv.subrange(0, j + 1).last() == rules@[j as int]@);
        if rule_matches(&rules[j], name, relative_path, is_dir) {
            ignored = Some(!rules[j].negated);
        }
        j = j + 1;
    }
    assert(rv.subrange(0, rules.len() as int) =~= rv);
    match ignored {
        Some(b) => b,
        None => false,
    }
}

/// A source file discovered during scanning.
#[derive(Debug, Clone)]
pub struct SourceFile {
    pub path: String,
    pub relative_path: String,
    pub language: Language,
    pub size: u64,
}

/// The language a scanned file is kept under: that of its extension, if the
/// extension is known and the language supported, and if the file is not
/// larger than the configured maximum.
pub open spec fn spec_kept_language(path: Seq<char>, size: u64, supported: Seq<Language>, max_file_size: usize) -> Option<Language> {
    match spec_path_extension(path) {
        None => None,
        Some(ext) => match spec_language_from_extension(ext) {
            None => None,
            Some(lang) => if supported.contains(lang) && size <= max_file_size {
                Some(lang)
            } else {
                None
            },
        },
    }
}

/// The source file a scanned file becomes, if it is kept.
pub fn scan_file(path: &str, relative_path: String, size: u64, supported: &[Language], config: &Config) -> (r: Option<SourceFile>)
    ensures
        match r {
            Some(f) => spec_kept_language(path@, size, supported@, config.max_file_size) == Some(f.language)
                && f.path@ == path@ && f.relative_path@ == relative_path@ && f.size == size,
            None => spec_kept_language(path@, size, supported@, config.max_file_size) is None,
        },
{
    let ext = match path_extension(path) {
        Some(e) => e,
        None => return None,
    };
    let lang = match Language::from_extension(ext.as_str()) {
        Some(l) => l,
        None => return None,
    };
    let mut found = false;
    let mut i: usize = 0;
    while i < supported.len()
        invariant
            i <= supported.len(),
            found == supported@.subrange(0, i as int).contains(lang),
        decreases supported.len() - i,
    {
        assert(supported@.subrange(0, i + 1) =~= supported@.subrange(0, i as int).push(supported@[i as int]));
        let ghost prefix = supported@.subrange(0, i + 1);
        let ghost before = supported@.subrange(0, i as int);
        if supported[i] == lang {
            assert(prefix[i as int] == lang);
            found = true;
        } else {
            proof {
                if prefix.contains(lang) {
                    let k = choose|k: int| 0 <= k < prefix.len() && prefix[k] == lang;
                    assert(before[k] == lang);
                }
            }
        }
        proof {
            if found && !prefix.contains(lang) {
                let k = choose|k: int| 0 <= k < before.len() && before[k] == lang;
                assert(prefix[k] == lang);
            }
        }
        i = i + 1;
    }
    assert(supported@.subrange(0, supported.len() as int) =~= supported@);
    if !found {
        return None;
    }
    if size > config.max_file_size as u64 {
        return None;
    }
    Some(SourceFile { path: path.to_owned(), relative_path, language: lang, size })
}


/// The content of a source file record.
pub struct SourceView {
    pub path: Seq<char>,
    pub relative_path: Seq<char>,
    pub language: Language,
    pub size: u64,
}

impl View for SourceFile {
    type V = SourceView;

    open spec fn view(&self) -> SourceView {
        SourceView { path: self.path@, relative_path: self.relative_path@, language: self.language, size: self.size }
    }
}

impl SourceFile {
    /// A copy of this record.
    pub fn duplicate(&self) -> (r: SourceFile)
        ensures
            r@ == self@,
    {
        SourceFile {
            path: self.path.clone(),
            relative_path: self.relative_path.clone(),
            language: self.language,
            size: self.size,
        }
    }
}

/// Whether `a` comes before `b` in the order of `String`'s comparison:
/// lexicographic by character (the order of their UTF-8 bytes).
pub open spec fn lex_lt(a: Seq<char>, b: Seq<char>) -> bool
    decreases a.len(),
{
    if a.len() == 0 {
        b.len() > 0
    } else if b.len() == 0 {
        false
    } else if a[0] != b[0] {
        (a[0] as u32) < (b[0] as u32)
    } else {
        lex_lt(a.drop_first(), b.drop_first())
    }
}

/// Nothing comes before itself, and of two different texts one comes first.
pub proof fn lemma_lex_total(a: Seq<char>, b: Seq<char>)
    ensures
        !(lex_lt(a, b) && lex_lt(b, a)),
        a != b ==> lex_lt(a, b) || lex_lt(b, a),
    decreases a.len(),
{
    if a.len() > 0 && b.len() > 0 {
        if a[0] == b[0] {
            lemma_lex_total(a.drop_first(), b.drop_first());
            if a != b && a.drop_first() == b.drop_first() {
                assert(a =~= seq![a[0]] + a.drop_first());
                assert(b =~= seq![b[0]] + b.drop_first());
            }
        } else {
            vstd::utf8::char_u32_cast(a[0], a[0] as u32);
            vstd::utf8::char_u32_cast(b[0], b[0] as u32);
        }
    } else if a.len() == 0 && b.len() == 0 {
        assert(a =~= b);
    }
}

/// The order is transitive.
pub proof fn lemma_lex_transitive(a: Seq<char>, b: Seq<char>, c: Seq<char>)
    requires
        lex_lt(a, b),
        lex_lt(b, c),
    ensures
        lex_lt(a, c),
    decreases a.len(),
{
    if a.len() > 0 && b.len() > 0 && c.len() > 0 && a[0] == b[0] && b[0] == c[0] {
        lemma_lex_transitive(a.drop_first(), b.drop_first(), c.drop_first());
    }
}

/// The position where `x` goes among `s`: before the first record whose
/// relative path comes after its own.
pub open spec fn insert_pos(s: Seq<SourceView>, x: SourceView) -> int
    decreases s.len(),
{
    if s.len() == 0 {
        0
    } else if lex_lt(x.relative_path, s[0].relative_path) {
        0
    } else {
        1 + insert_pos(s.drop_first(), x)
    }
}

/// The records sorted by relative path, records with equal paths in their
/// input order (a stable sort, as `sort_by` with `String::cmp` does).
pub open spec fn sort_by_path(s: Seq<SourceView>) -> Seq<SourceView>
    decreases s.len(),
{
    if s.len() == 0 {
        s
    } else {
        let r = sort_by_path(s.drop_last());
        r.insert(insert_pos(r, s.last()), s.last())
    }
}

proof fn lemma_insert_pos(s: Seq<SourceView>, x: SourceView)
    ensures
        0 <= insert_pos(s, x) <= s.len(),
        forall|k: int| 0 <= k < insert_pos(s, x) ==> !lex_lt(x.relative_path, (#[trigger] s[k]).relative_path),
        insert_pos(s, x) < s.len() ==> lex_lt(x.relative_path, s[insert_pos(s, x)].relative_path),
    decreases s.len(),
{
    if s.len() > 0 && !lex_lt(x.relative_path, s[0].relative_path) {
        lemma_insert_pos(s.drop_first(), x);
        assert forall|k: int| 0 <= k < insert_pos(s, x) implies !lex_lt(x.relative_path, (#[trigger] s[k]).relative_path) by {
            if k > 0 {
                assert(s[k] == s.drop_first()[k - 1]);
            }
        }
    }
}

/// Whether records are in order of relative path.
pub open spec fn sorted_by_path(s: Seq<SourceView>) -> bool {
    forall|i: int, j: int| 0 <= i < j < s.len() ==> !lex_lt((#[trigger] s[j]).relative_path, (#[trigger] s[i]).relative_path)
}

/// Sorting by path gives the records in order of relative path, each
/// record as often as before.
pub proof fn lemma_sort_by_path(s: Seq<SourceView>)
    ensures
        sorted_by_path(sort_by_path(s)),
        sort_by_path(s).to_multiset() == s.to_multiset(),
    decreases s.len(),
{
    if s.len() > 0 {
        let d = s.drop_last();
        let x = s.last();
        lemma_sort_by_path(d);
        let r = sort_by_path(d);
        let p = insert_pos(r, x);
        lemma_insert_pos(r, x);
        let t = r.insert(p, x);
        vstd::seq_lib::to_multiset_insert(r, p, x);
        vstd::seq_lib::to_multiset_build(d, x);
        assert(d.push(x) =~= s);
        assert forall|i: int, j: int| 0 <= i < j < t.len() implies !lex_lt((#[trigger] t[j]).relative_path, (#[trigger] t[i]).relative_path) by {
            if j < p {
                assert(t[i] == r[i] && t[j] == r[j]);
            } else if j == p {
                assert(t[j] == x && t[i] == r[i]);
                lemma_lex_total(x.relative_path, r[i].relative_path);
            } else if i == p {
                assert(t[i] == x && t[j] == r[j - 1]);
                lemma_lex_total(r[j - 1].relative_path, r[p].relative_path);
                lemma_lex_total(x.relative_path, r[j - 1].relative_path);
                if lex_lt(r[j - 1].relative_path, x.relative_path) {
                    if r[j - 1].relative_path != r[p].relative_path {
                        if j - 1 > p {
                            lemma_lex_transitive(r[j - 1].relative_path, x.relative_path, r[p].relative_path);
                        }
                    }
                }
            } else if i < p {
                assert(t[i] == r[i] && t[j] == r[j - 1]);
            } else {
                assert(t[i] == r[i - 1] && t[j] == r[j - 1]);
            }
        }
    }
}

pub(crate) fn lex_lt_exec(a: &str, b: &str) -> (r: bool)
    ensures
        r == lex_lt(a@, b@),
{
    let x = chars_of(a);
    let y = chars_of(b);
    let mut i: usize = 0;
    assert(x@.subrange(0, x@.len() as int) =~= x@);
    assert(y@.subrange(0, y@.len() as int) =~= y@);
    while i < x.len() && i < y.len() && x[i] == y[i]
        invariant
            i <= x@.len(),
            i <= y@.len(),
            lex_lt(x@, y@) == lex_lt(x@.subrange(i as int, x@.len() as int), y@.subrange(i as int, y@.len() as int)),
        decreases x.len() - i,
    {
        assert(x@.subrange(i as int, x@.len() as int).drop_first() =~= x@.subrange(i + 1, x@.len() as int));
        assert(y@.subrange(i as int, y@.len() as int).drop_first() =~= y@.subrange(i + 1, y@.len() as int));
        i = i + 1;
    }
    if i == x.len() {
        i < y.len()
    } else if i == y.len() {
        false
    } else {
        (x[i] as u32) < (y[i] as u32)
    }
}

/// Sort source files by relative path, files with equal paths in their
/// input order.
pub fn sort_source_files(files: Vec<SourceFile>) -> (r: Vec<SourceFile>)
    ensures
        r@.map_values(|f: SourceFile| f@) == sort_by_path(files@.map_values(|f: SourceFile| f@)),
{
    let ghost fv = files@.map_values(|f: SourceFile| f@);
    let mut out: Vec<SourceFile> = Vec::new();
    let mut i: usize = 0;
    assert(out@.map_values(|f: SourceFile| f@) =~= sort_by_path(fv.subrange(0, 0)));
    while i < files.len()
        invariant
            fv == files@.map_values(|f: SourceFile| f@),
            i <= files@.len(),
            out@.map_values(|f: SourceFile| f@) == sort_by_path(fv.subrange(0, i as int)),
        decreases files.len() - i,
    {
        let ghost ov = out@.map_values(|f: SourceFile| f@);
        let f = files[i].duplicate();
        assert(fv.subrange(0, i + 1).drop_last() =~= fv.subrange(0, i as int));
        assert(fv.subrange(0, i + 1).last() == f@);
        let mut j: usize = 0;
        assert(ov.subrange(0, ov.len() as int) =~= ov);
        while j < out.len() && !lex_lt_exec(f.relative_path.as_str(), out[j].relative_path.as_str())
            invariant
                ov == out@.map_values(|f: SourceFile| f@),
                j <= ov.len(),
                insert_pos(ov, f@) == j + insert_pos(ov.subrange(j as int, ov.len() as int), f@),
            decreases out.len() - j,
        {
            assert(ov.subrange(j as int, ov.len() as int)[0] == ov[j as int]);
            assert(ov.subrange(j as int, ov.len() as int).drop_first() =~= ov.subrange(j + 1, ov.len() as int));
            j = j + 1;
        }
        proof {
            if j < ov.len() {
                assert(ov.subrange(j as int, ov.len() as int)[0] == ov[j as int]);
            }
        }
        let ghost x = f@;
        out.insert(j, f);
        assert(out@.map_values(|f: SourceFile| f@) =~= ov.insert(j as int, x));
        i = i + 1;
    }
    assert(fv.subrange(0, fv.len() as int) =~= fv);
    out
}

} // verus!
