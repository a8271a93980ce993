//! Path arithmetic of `std::path`, applied to paths held as text.

use vstd::prelude::*;
use crate::text::{chars_of, string_of, opt_string_view, spec_join, join_from};

verus! {

/// What `Path::parent` gives for the path written `p`, as text.
pub uninterp spec fn spec_path_parent(p: Seq<char>) -> Option<Seq<char>>;

/// The text of `PathBuf::from(base)` after `push(part)`.
pub uninterp spec fn spec_path_push(base: Seq<char>, part: Seq<char>) -> Seq<char>;

/// The text of `PathBuf::from(base)` after `pop()`.
pub uninterp spec fn spec_path_pop(base: Seq<char>) -> Seq<char>;

/// `Path::parent`: the path without its final component, if it has one.
#[verifier::external_body]
pub(crate) fn path_parent_str(p: &str) -> (r: Option<String>)
    ensures
        match r {
            Some(s) => spec_path_parent(p@) == Some(s@),
            None => spec_path_parent(p@) is None,
        },
{
    match std::path::Path::new(p).parent() {
        Some(q) => Some(q.to_string_lossy().into_owned()),
        None => None,
    }
}

/// `PathBuf::push` of `part` onto `base`.
#[verifier::external_body]
fn path_push_str(base: &str, part: &str) -> (r: String)
    ensures
        r@ == spec_path_push(base@, part@),
{
    let mut b = std::path::PathBuf::from(base);
    b.push(part);
    b.to_string_lossy().into_owned()
}

/// `PathBuf::pop` on `base`.
#[verifier::external_body]
fn path_pop_str(base: &str) -> (r: String)
    ensures
        r@ == spec_path_pop(base@),
{
    let mut b = std::path::PathBuf::from(base);
    b.pop();
    b.to_string_lossy().into_owned()
}

/// The parent directory of `p`, or the empty path when it has none.
pub open spec fn spec_parent_or_empty(p: Seq<char>) -> Seq<char> {
    match spec_path_parent(p) {
        Some(d) => d,
        None => Seq::<char>::empty(),
    }
}

/// The parent directory of `p`, or the empty path when it has none.
pub fn parent_or_empty(p: &[char]) -> (r: Vec<char>)
    ensures
        r@ == spec_parent_or_empty(p@),
{
    let s = string_of(p);
    match path_parent_str(s.as_str()) {
        Some(d) => chars_of(d.as_str()),
        None => Vec::new(),
    }
}

/// `base` with `part` pushed on.
pub fn path_push(base: &[char], part: &[char]) -> (r: Vec<char>)
    ensures
        r@ == spec_path_push(base@, part@),
{
    let b = string_of(base);
    let p = string_of(part);
    let r = path_push_str(b.as_str(), p.as_str());
    chars_of(r.as_str())
}

/// `base` with its last component popped.
pub fn path_pop(base: &[char]) -> (r: Vec<char>)
    ensures
        r@ == spec_path_pop(base@),
{
    let b = string_of(base);
    let r = path_pop_str(b.as_str());
    chars_of(r.as_str())
}


/// What `Path::extension` gives for the path written `p`, as text.
pub uninterp spec fn spec_path_extension(p: Seq<char>) -> Option<Seq<char>>;

/// What `Path::strip_prefix` gives for the path written `p` and the base
/// `base`, as text.
pub uninterp spec fn spec_path_strip_prefix(p: Seq<char>, base: Seq<char>) -> Option<Seq<char>>;

/// The texts of the components that `Path::components` gives for the path
/// written `p`.
pub uninterp spec fn spec_path_components(p: Seq<char>) -> Seq<Seq<char>>;

/// What `Path::file_name` gives for the path written `p`, as text.
pub uninterp spec fn spec_path_file_name(p: Seq<char>) -> Option<Seq<char>>;

/// `Path::file_name`: the final component of the path, unless it is `..`.
#[verifier::external_body]
pub(crate) fn path_file_name(p: &str) -> (r: Option<String>)
    ensures
        opt_string_view(r) == spec_path_file_name(p@),
{
    std::path::Path::new(p).file_name().map(|n| n.to_string_lossy().into_owned())
}

/// `Path::extension`: the part of the file name after its last dot.
#[verifier::external_body]
pub(crate) fn path_extension(p: &str) -> (r: Option<String>)
    ensures
        opt_string_view(r) == spec_path_extension(p@),
{
    std::path::Path::new(p).extension().map(|e| e.to_string_lossy().into_owned())
}

/// `Path::strip_prefix`: the path below `base`, if `base` is one of its
/// leading components.
#[verifier::external_body]
fn path_strip_prefix(p: &str, base: &str) -> (r: Option<String>)
    ensures
        opt_string_view(r) == spec_path_strip_prefix(p@, base@),
{
    match std::path::Path::new(p).strip_prefix(base) {
        Ok(rest) => Some(rest.to_string_lossy().into_owned()),
        Err(_) => None,
    }
}

/// `Path::components`, each component as text.
#[verifier::external_body]
fn path_components(p: &str) -> (r: Vec<String>)
    ensures
        r@.map_values(|c: String| c@) == spec_path_components(p@),
{
    std::path::Path::new(p).components().map(|c| c.as_os_str().to_string_lossy().into_owned()).collect()
}

/// The path of `path` relative to `root`, its components joined with `/`;
/// a path outside `root` is kept whole.
pub open spec fn spec_relative_path(root: Seq<char>, path: Seq<char>) -> Seq<char> {
    let under = match spec_path_strip_prefix(path, root) {
        Some(rest) => rest,
        None => path,
    };
    spec_join(spec_path_components(under), seq!['/'])
}

/// The path of `path` relative to `root`, its components joined with `/`.
pub fn relative_path(root: &str, path: &str) -> (r: String)
    ensures
        r@ == spec_relative_path(root@, path@),
{
    let under = match path_strip_prefix(path, root) {
        Some(rest) => rest,
        None => path.to_owned(),
    };
    let comps = path_components(under.as_str());
    let mut parts: Vec<Vec<char>> = Vec::new();
    let mut i: usize = 0;
    while i < comps.len()
        invariant
            i <= comps@.len(),
            parts@.len() == i,
            forall|k: int| 0 <= k < i ==> #[trigger] parts@[k]@ == comps@[k]@,
        decreases comps.len() - i,
    {
        parts.push(chars_of(comps[i].as_str()));
        i = i + 1;
    }
    let sep = vec!['/'];
    let joined = join_from(&parts, 0, &sep);
    assert(parts@.subrange(0, parts@.len() as int).map_values(|v: Vec<char>| v@) =~= comps@.map_values(|c: String| c@));
    assert(sep@ =~= seq!['/']);
    string_of(&joined)
}

} // verus!
