//! Small readers of source text used by the language parsers: Rust `use`
//! declarations and type names, Go names, strings and import paths.

use vstd::prelude::*;
use crate::text::{
    after_last, chars_of, chars_eq, concat, join_from, lemma_split_nonempty, spec_after_last, spec_join,
    spec_split, spec_split_once, spec_split_str, spec_trim, spec_trim_end_char, spec_trim_start_char,
    spec_trim_start_matches, split_char, split_once, split_str, string_of, str_eq, trim, trim_end_char,
    trim_start_char, trim_start_matches,
};
use crate::types::NodeLabel;

verus! {

/// The content of one name imported by a Rust `use` declaration.
pub struct UseItemView {
    pub imported_name: Seq<char>,
    pub module_source: Seq<char>,
    pub alias: Option<Seq<char>>,
}

/// One name imported by a Rust `use` declaration: the name, the module it
/// comes from (its path segments joined with `/`), and its alias.
#[derive(Debug, Clone)]
pub struct RustUseItem {
    pub imported_name: String,
    pub module_source: String,
    pub alias: Option<String>,
}

impl View for RustUseItem {
    type V = UseItemView;

    open spec fn view(&self) -> UseItemView {
        UseItemView {
            imported_name: self.imported_name@,
            module_source: self.module_source@,
            alias: match self.alias {
                Some(a) => Some(a@),
                None => None,
            },
        }
    }
}

/// Whether a path segment is one of `crate`, `self`, `super`.
pub open spec fn is_path_keyword(p: Seq<char>) -> bool {
    p == "crate"@ || p == "self"@ || p == "super"@
}

/// The path segments, trimmed, without `crate`, `self`, `super` and empty ones.
pub open spec fn kept_segments(parts: Seq<Seq<char>>) -> Seq<Seq<char>>
    decreases parts.len(),
{
    if parts.len() == 0 {
        Seq::empty()
    } else {
        let r = kept_segments(parts.drop_last());
        let t = spec_trim(parts.last());
        if !is_path_keyword(t) && t.len() > 0 {
            r.push(t)
        } else {
            r
        }
    }
}

/// The import that the item `item` of a `use` declaration gives, below the
/// path `prefix` of a brace list (empty outside one).
pub open spec fn spec_rust_use_item(prefix: Seq<char>, item: Seq<char>) -> UseItemView {
    let it = spec_trim(item);
    let path = match spec_split_once(it, " as "@) {
        Some((n, _a)) => spec_trim(n),
        None => it,
    };
    let alias = match spec_split_once(it, " as "@) {
        Some((_n, a)) => Some(spec_trim(a)),
        None => None,
    };
    let full = if prefix.len() == 0 { path } else { prefix + "::"@ + path };
    let parts = kept_segments(spec_split_str(full, "::"@));
    let imported = if parts.len() > 0 { parts.last() } else { path };
    let module = if parts.len() > 1 { spec_join(parts.drop_last(), "/"@) } else { imported };
    UseItemView { imported_name: imported, module_source: module, alias }
}

/// The import that an item of a `use` declaration gives.
pub fn rust_use_item(prefix: &str, item: &str) -> (r: RustUseItem)
    ensures
        r@ == spec_rust_use_item(prefix@, item@),
{
    proof {
        reveal_strlit(" as ");
        reveal_strlit("::");
        reveal_strlit("/");
        reveal_strlit("crate");
        reveal_strlit("self");
        reveal_strlit("super");
    }
    let it = trim(&chars_of(item));
    let as_sep = chars_of(" as ");
    let (path, alias) = match split_once(&it, &as_sep) {
        Some((n, a)) => (trim(&n), Some(string_of(&trim(&a)))),
        None => (it, None),
    };
    let colons = chars_of("::");
    let pc = chars_of(prefix);
    let full = if pc.len() == 0 {
        path.clone()
    } else {
        concat(&concat(&pc, &colons), &path)
    };
    let segs = split_str(&full, &colons);
    let ghost sv = segs@.map_values(|v: Vec<char>| v@);
    let crate_kw = chars_of("crate");
    let self_kw = chars_of("self");
    let super_kw = chars_of("super");
    let mut parts: Vec<Vec<char>> = Vec::new();
    let mut i: usize = 0;
    while i < segs.len()
        invariant
            sv == segs@.map_values(|v: Vec<char>| v@),
            i <= segs@.len(),
            crate_kw@ == "crate"@,
            self_kw@ == "self"@,
            super_kw@ == "super"@,
            parts@.map_values(|v: Vec<char>| v@) == kept_segments(sv.subrange(0, i as int)),
        decreases segs.len() - i,
    {
        assert(sv.subrange(0, i + 1).drop_last() =~= sv.subrange(0, i as int));
        assert(sv.subrange(0, i + 1).last() == segs@[i as int]@);
        let t = trim(&segs[i]);
        if !chars_eq(&t, &crate_kw) && !chars_eq(&t, &self_kw) && !chars_eq(&t, &super_kw) && t.len() > 0 {
            let ghost before = parts@.map_values(|v: Vec<char>| v@);
            parts.push(t);
            assert(parts@.map_values(|v: Vec<char>| v@) =~= before.push(t@));
        }
        i = i + 1;
    }
    assert(sv.subrange(0, segs@.len() as int) =~= sv);
    let ghost kept = parts@.map_values(|v: Vec<char>| v@);
    let n = parts.len();
    let imported: Vec<char> = if n > 0 { parts[n - 1].clone() } else { path.clone() };
    let module: Vec<char> = if n > 1 {
        let last = parts.pop();
        let slash = chars_of("/");
        let joined = join_from(&parts, 0, &slash);
        assert(parts@.subrange(0, parts@.len() as int).map_values(|v: Vec<char>| v@) =~= kept.drop_last());
        joined
    } else {
        imported.clone()
    };
    RustUseItem { imported_name: string_of(&imported), module_source: string_of(&module), alias }
}

/// The imports of the non-empty items among `parts`, below `prefix`.
pub open spec fn use_items(prefix: Seq<char>, parts: Seq<Seq<char>>) -> Seq<UseItemView>
    decreases parts.len(),
{
    if parts.len() == 0 {
        Seq::empty()
    } else {
        let r = use_items(prefix, parts.drop_last());
        if parts.last().len() > 0 {
            r.push(spec_rust_use_item(prefix, parts.last()))
        } else {
            r
        }
    }
}

/// The imports that the text of a Rust `use` declaration gives (without the
/// `use` keyword): one for a plain path, one per item of a brace list.
pub open spec fn spec_parse_rust_use(text: Seq<char>) -> Seq<UseItemView> {
    let n = spec_trim(spec_trim_end_char(spec_trim(text), ';'));
    if n.len() == 0 {
        Seq::empty()
    } else {
        match spec_split_once(n, "::{"@) {
            Some((prefix, list)) => use_items(prefix, spec_split(spec_trim_end_char(list, '}'), ',')),
            None => seq![spec_rust_use_item(Seq::empty(), n)],
        }
    }
}

/// The imports that the text of a Rust `use` declaration gives.
pub fn parse_rust_use(text: &str) -> (r: Vec<RustUseItem>)
    ensures
        r@.map_values(|u: RustUseItem| u@) == spec_parse_rust_use(text@),
{
    proof {
        reveal_strlit("::{");
    }
    let t0 = trim(&chars_of(text));
    let t1 = trim_end_char(&t0, ';');
    let normalized = trim(&t1);
    let mut out: Vec<RustUseItem> = Vec::new();
    if normalized.len() == 0 {
        assert(out@.map_values(|u: RustUseItem| u@) =~= Seq::<UseItemView>::empty());
        return out;
    }
    let open_list = chars_of("::{");
    match split_once(&normalized, &open_list) {
        Some((prefix, list)) => {
            let inner = trim_end_char(&list, '}');
            let parts = split_char(&inner, ',');
            let ghost pv = spec_split(inner@, ',');
            let prefix_s = string_of(&prefix);
            let mut i: usize = 0;
            while i < parts.len()
                invariant
                    pv == spec_split(inner@, ','),
                    parts@.len() == pv.len(),
                    forall|k: int| 0 <= k < parts@.len() ==> #[trigger] parts@[k]@ == pv[k],
                    prefix_s@ == prefix@,
                    i <= parts@.len(),
                    out@.map_values(|u: RustUseItem| u@) == use_items(prefix@, pv.subrange(0, i as int)),
                decreases parts.len() - i,
            {
                assert(pv.subrange(0, i + 1).drop_last() =~= pv.subrange(0, i as int));
                assert(pv.subrange(0, i + 1).last() == parts@[i as int]@);
                if parts[i].len() > 0 {
                    let part = string_of(&parts[i]);
                    let item = rust_use_item(prefix_s.as_str(), part.as_str());
                    let ghost before = out@.map_values(|u: RustUseItem| u@);
                    out.push(item);
                    assert(out@.map_values(|u: RustUseItem| u@) =~= before.push(item@));
                }
                i = i + 1;
            }
            assert(pv.subrange(0, pv.len() as int) =~= pv);
            out
        },
        None => {
            let whole = string_of(&normalized);
            out.push(rust_use_item("", whole.as_str()));
            proof {
                reveal_strlit("");
            }
            assert(out@.map_values(|u: RustUseItem| u@) =~= seq![spec_rust_use_item(Seq::empty(), normalized@)]);
            out
        },
    }
}

/// The bare name of a Rust type: without references, `mut`, generic
/// arguments and a leading `crate::`, `self::` or `super::`, and only its
/// last path segment.
pub open spec fn spec_clean_rust_type_name(text: Seq<char>) -> Seq<char> {
    let t = spec_trim(text);
    let without_ref = spec_trim(spec_trim_start_matches(spec_trim_start_char(t, '&'), "mut "@));
    let b0 = spec_trim(spec_split(without_ref, '<')[0]);
    let b = spec_trim_start_matches(
        spec_trim_start_matches(spec_trim_start_matches(b0, "crate::"@), "self::"@),
        "super::"@,
    );
    spec_trim(spec_after_last(b, "::"@))
}

/// The bare name of a Rust type.
pub fn clean_rust_type_name(text: &str) -> (r: String)
    ensures
        r@ == spec_clean_rust_type_name(text@),
{
    let t = trim(&chars_of(text));
    let no_amp = trim_start_char(&t, '&');
    let mut_kw = chars_of("mut ");
    let without_ref = trim(&trim_start_matches(&no_amp, &mut_kw));
    let pieces = split_char(&without_ref, '<');
    proof {
        lemma_split_nonempty(without_ref@, '<');
    }
    let b0 = trim(&pieces[0]);
    let b1 = trim_start_matches(&b0, &chars_of("crate::"));
    let b2 = trim_start_matches(&b1, &chars_of("self::"));
    let b = trim_start_matches(&b2, &chars_of("super::"));
    let last = after_last(&b, &chars_of("::"));
    string_of(&trim(&last))
}

/// The node label of a Go type declaration, by the kind of its type.
pub open spec fn spec_label_for_go_type(type_kind: Option<Seq<char>>) -> NodeLabel {
    match type_kind {
        Some(k) => if k == "struct_type"@ {
            NodeLabel::Struct
        } else if k == "interface_type"@ {
            NodeLabel::Interface
        } else {
            NodeLabel::Type
        },
        None => NodeLabel::Type,
    }
}

/// The node label of a Go type declaration, by the kind of its type.
pub fn label_for_go_type(type_kind: Option<&str>) -> (r: NodeLabel)
    ensures
        r == spec_label_for_go_type(
            match type_kind {
                Some(k) => Some(k@),
                None => None,
            },
        ),
{
    match type_kind {
        Some(k) => if str_eq(k, "struct_type") {
            NodeLabel::Struct
        } else if str_eq(k, "interface_type") {
            NodeLabel::Interface
        } else {
            NodeLabel::Type
        },
        None => NodeLabel::Type,
    }
}

/// Whether `char::is_uppercase` holds of a character (the Unicode Uppercase property).
pub uninterp spec fn spec_is_uppercase(c: char) -> bool;

/// Whether `char::is_alphabetic` holds of a character (the Unicode Alphabetic property).
pub uninterp spec fn spec_is_alphabetic(c: char) -> bool;

/// `char::is_uppercase`.
#[verifier::external_body]
fn is_uppercase(c: char) -> (r: bool)
    ensures
        r == spec_is_uppercase(c),
{
    c.is_uppercase()
}

/// `char::is_alphabetic`.
#[verifier::external_body]
fn is_alphabetic(c: char) -> (r: bool)
    ensures
        r == spec_is_alphabetic(c),
{
    c.is_alphabetic()
}

/// Whether a Go name is exported: it starts with an uppercase letter.
pub open spec fn spec_is_go_exported(name: Seq<char>) -> bool {
    name.len() > 0 && spec_is_uppercase(name[0]) && spec_is_alphabetic(name[0])
}

/// Whether a Go name is exported: it starts with an uppercase letter.
pub fn is_go_exported(name: &str) -> (r: bool)
    ensures
        r == spec_is_go_exported(name@),
{
    if name.unicode_len() == 0 {
        return false;
    }
    let c = name.get_char(0);
    is_uppercase(c) && is_alphabetic(c)
}

/// Whether a character quotes a Go string: `"` or a backquote.
pub open spec fn is_go_quote(c: char) -> bool {
    c == '"' || c == '`'
}

/// `s` without leading quote characters.
pub open spec fn spec_trim_start_quotes(s: Seq<char>) -> Seq<char>
    decreases s.len(),
{
    if s.len() > 0 && is_go_quote(s[0]) {
        spec_trim_start_quotes(s.drop_first())
    } else {
        s
    }
}

/// `s` without trailing quote characters.
pub open spec fn spec_trim_end_quotes(s: Seq<char>) -> Seq<char>
    decreases s.len(),
{
    if s.len() > 0 && is_go_quote(s.last()) {
        spec_trim_end_quotes(s.drop_last())
    } else {
        s
    }
}

/// A Go string literal's text without the quotes around it.
pub open spec fn spec_strip_go_string(text: Seq<char>) -> Seq<char> {
    spec_trim_end_quotes(spec_trim_start_quotes(text))
}

/// A Go string literal's text without the quotes around it.
pub fn strip_go_string(text: &str) -> (r: String)
    ensures
        r@ == spec_strip_go_string(text@),
{
    let s = chars_of(text);
    let mut i: usize = 0;
    assert(s@.subrange(0, s@.len() as int) =~= s@);
    while i < s.len() && (s[i] == '"' || s[i] == '`')
        invariant
            i <= s@.len(),
            spec_trim_start_quotes(s@) == spec_trim_start_quotes(s@.subrange(i as int, s@.len() as int)),
        decreases s.len() - i,
    {
        assert(s@.subrange(i as int, s@.len() as int).drop_first() =~= s@.subrange(i + 1, s@.len() as int));
        i = i + 1;
    }
    let mut j: usize = s.len();
    let ghost head = s@.subrange(i as int, s@.len() as int);
    assert(head.subrange(0, head.len() as int) =~= head);
    while j > i && (s[j - 1] == '"' || s[j - 1] == '`')
        invariant
            i <= j <= s@.len(),
            head == s@.subrange(i as int, s@.len() as int),
            spec_trim_end_quotes(head) == spec_trim_end_quotes(s@.subrange(i as int, j as int)),
        decreases j,
    {
        assert(s@.subrange(i as int, j as int).drop_last() =~= s@.subrange(i as int, j - 1));
        j = j - 1;
    }
    string_of(&crate::text::sub_vec(&s, i, j))
}

/// The last `/`-separated segment of an import path.
pub open spec fn spec_last_path_segment(path: Seq<char>) -> Seq<char> {
    spec_after_last(path, seq!['/'])
}

/// The last `/`-separated segment of an import path.
pub fn last_path_segment(path: &str) -> (r: String)
    ensures
        r@ == spec_last_path_segment(path@),
{
    let slash = vec!['/'];
    assert(slash@ =~= seq!['/']);
    string_of(&after_last(&chars_of(path), &slash))
}

} // verus!
