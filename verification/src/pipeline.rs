//! Decisions of an analysis run: the content hashes that detect changed
//! files, the change set against a previous index, what to parse, and the
//! languages a scan found.

use vstd::prelude::*;
use crate::text::str_eq;
use crate::types::Language;

verus! {

/// The XXH3 64-bit hash of a byte sequence (`xxhash_rust::xxh3::xxh3_64`).
pub uninterp spec fn spec_xxh3_64(data: Seq<u8>) -> u64;

/// `xxhash_rust::xxh3::xxh3_64`.
#[verifier::external_body]
fn xxh3_64(data: &[u8]) -> (r: u64)
    ensures
        r == spec_xxh3_64(data@),
{
    xxhash_rust::xxh3::xxh3_64(data)
}

/// The content hash that tells whether a file changed between runs.
pub fn content_hash(data: &[u8]) -> (r: u64)
    ensures
        r == spec_xxh3_64(data@),
{
    xxh3_64(data)
}

/// Files sorted by how they compare with a previous index, by their
/// positions in the scan; deleted files by relative path.
#[derive(Debug)]
pub struct ChangeSet {
    pub added: Vec<usize>,
    pub modified: Vec<usize>,
    pub deleted: Vec<String>,
    pub unchanged: Vec<usize>,
}

/// The content of a change set.
pub struct ChangeSetView {
    pub added: Seq<usize>,
    pub modified: Seq<usize>,
    pub deleted: Seq<Seq<char>>,
    pub unchanged: Seq<usize>,
}

impl View for ChangeSet {
    type V = ChangeSetView;

    open spec fn view(&self) -> ChangeSetView {
        ChangeSetView {
            added: self.added@,
            modified: self.modified@,
            deleted: self.deleted@.map_values(|s: String| s@),
            unchanged: self.unchanged@,
        }
    }
}

/// The hash stored for `path`: the latest entry for it.
pub open spec fn stored_hash(stored: Seq<(Seq<char>, u64)>, path: Seq<char>) -> Option<u64>
    decreases stored.len(),
{
    if stored.len() == 0 {
        None
    } else if stored.last().0 == path {
        Some(stored.last().1)
    } else {
        stored_hash(stored.drop_last(), path)
    }
}

/// How a hashed file compares with the stored hashes: 0 added, 1 modified,
/// 2 unchanged.
pub open spec fn change_class(stored: Seq<(Seq<char>, u64)>, path: Seq<char>, hash: u64) -> int {
    match stored_hash(stored, path) {
        None => 0,
        Some(h) => if h == hash { 2 } else { 1 },
    }
}

/// The positions, among the hashed files, of those of class `class`.
pub open spec fn indices_of_class(
    paths: Seq<Seq<char>>,
    hashes: Seq<(usize, u64)>,
    stored: Seq<(Seq<char>, u64)>,
    class: int,
) -> Seq<usize>
    decreases hashes.len(),
{
    if hashes.len() == 0 {
        Seq::empty()
    } else {
        let r = indices_of_class(paths, hashes.drop_last(), stored, class);
        let (idx, h) = hashes.last();
        if change_class(stored, paths[idx as int], h) == class {
            r.push(idx)
        } else {
            r
        }
    }
}

/// Whether some hashed file has the relative path `p`.
pub open spec fn seen(paths: Seq<Seq<char>>, hashes: Seq<(usize, u64)>, p: Seq<char>) -> bool {
    exists|k: int| 0 <= k < hashes.len() && paths[(#[trigger] hashes[k]).0 as int] == p
}

/// The indexed file paths that no hashed file has any more, in order.
pub open spec fn deleted_paths(indexed: Seq<Seq<char>>, paths: Seq<Seq<char>>, hashes: Seq<(usize, u64)>) -> Seq<Seq<char>>
    decreases indexed.len(),
{
    if indexed.len() == 0 {
        Seq::empty()
    } else {
        let r = deleted_paths(indexed.drop_last(), paths, hashes);
        if seen(paths, hashes, indexed.last()) {
            r
        } else {
            r.push(indexed.last())
        }
    }
}

/// The change set of a scan against a previous index: `paths` are the
/// relative paths of the scanned files, `hashes` the (position, hash) pairs
/// of those that could be read, `stored` the previous index's file hashes
/// and `indexed` the paths of its file nodes.
pub open spec fn spec_changeset(
    paths: Seq<Seq<char>>,
    hashes: Seq<(usize, u64)>,
    stored: Seq<(Seq<char>, u64)>,
    indexed: Seq<Seq<char>>,
) -> ChangeSetView {
    ChangeSetView {
        added: indices_of_class(paths, hashes, stored, 0),
        modified: indices_of_class(paths, hashes, stored, 1),
        deleted: deleted_paths(indexed, paths, hashes),
        unchanged: indices_of_class(paths, hashes, stored, 2),
    }
}

/// Whether `h` is the hash of the last entry for `path` in `stored`.
pub open spec fn last_stored_as(stored: Seq<(Seq<char>, u64)>, path: Seq<char>, h: u64) -> bool {
    exists|j: int|
        0 <= j < stored.len() && (#[trigger] stored[j]).0 == path && stored[j].1 == h && forall|j2: int|
            j < j2 < stored.len() ==> (#[trigger] stored[j2]).0 != path
}

proof fn lemma_stored_hash_last(stored: Seq<(Seq<char>, u64)>, path: Seq<char>)
    ensures
        (forall|j: int| 0 <= j < stored.len() ==> (#[trigger] stored[j]).0 != path) ==> stored_hash(stored, path) is None,
        forall|h: u64| #[trigger] last_stored_as(stored, path, h) ==> stored_hash(stored, path) == Some(h),
    decreases stored.len(),
{
    if stored.len() > 0 {
        let s0 = stored.drop_last();
        lemma_stored_hash_last(s0, path);
        if forall|j: int| 0 <= j < stored.len() ==> (#[trigger] stored[j]).0 != path {
            assert forall|j: int| 0 <= j < s0.len() implies (#[trigger] s0[j]).0 != path by {
                assert(s0[j] == stored[j]);
            }
            assert(stored[stored.len() - 1].0 != path);
        }
        assert forall|h: u64| #[trigger] last_stored_as(stored, path, h) implies stored_hash(stored, path) == Some(h) by {
            let j = choose|j: int|
                0 <= j < stored.len() && (#[trigger] stored[j]).0 == path && stored[j].1 == h && forall|j2: int|
                    j < j2 < stored.len() ==> (#[trigger] stored[j2]).0 != path;
            if j < stored.len() - 1 {
                assert(stored[stored.len() - 1].0 != path);
                assert(s0[j] == stored[j]);
                assert forall|j2: int| j < j2 < s0.len() implies (#[trigger] s0[j2]).0 != path by {
                    assert(s0[j2] == stored[j2]);
                }
                assert(last_stored_as(s0, path, h));
            }
        }
    }
}

proof fn lemma_class_member(
    paths: Seq<Seq<char>>,
    hashes: Seq<(usize, u64)>,
    stored: Seq<(Seq<char>, u64)>,
    class: int,
    k: int,
)
    requires
        0 <= k < hashes.len(),
        change_class(stored, paths[hashes[k].0 as int], hashes[k].1) == class,
    ensures
        indices_of_class(paths, hashes, stored, class).contains(hashes[k].0),
    decreases hashes.len(),
{
    let r = indices_of_class(paths, hashes.drop_last(), stored, class);
    if k == hashes.len() - 1 {
        assert(indices_of_class(paths, hashes, stored, class)[r.len() as int] == hashes[k].0);
    } else {
        assert(hashes.drop_last()[k] == hashes[k]);
        lemma_class_member(paths, hashes.drop_last(), stored, class, k);
        let j = choose|j: int| 0 <= j < r.len() && r[j] == hashes[k].0;
        assert(indices_of_class(paths, hashes, stored, class)[j] == r[j]);
    }
}

proof fn lemma_deleted_member(indexed: Seq<Seq<char>>, paths: Seq<Seq<char>>, hashes: Seq<(usize, u64)>, d: Seq<char>)
    ensures
        deleted_paths(indexed, paths, hashes).contains(d) <==> indexed.contains(d) && !seen(paths, hashes, d),
    decreases indexed.len(),
{
    if indexed.len() > 0 {
        let i0 = indexed.drop_last();
        let r = deleted_paths(i0, paths, hashes);
        lemma_deleted_member(i0, paths, hashes, d);
        let r2 = deleted_paths(indexed, paths, hashes);
        if r2.contains(d) {
            let j = choose|j: int| 0 <= j < r2.len() && r2[j] == d;
            if j < r.len() {
                assert(r[j] == d);
                let m = choose|m: int| 0 <= m < i0.len() && i0[m] == d;
                assert(indexed[m] == d);
            } else {
                assert(indexed[indexed.len() - 1] == d);
            }
        }
        if indexed.contains(d) && !seen(paths, hashes, d) {
            let m = choose|m: int| 0 <= m < indexed.len() && indexed[m] == d;
            if m < indexed.len() - 1 {
                assert(i0[m] == d);
                let j = choose|j: int| 0 <= j < r.len() && r[j] == d;
                assert(r2[j] == r[j]);
            } else {
                assert(r2[r.len() as int] == d);
            }
        }
    }
}

/// How a scan compares with a previous index: a hashed file whose path has
/// no stored hash is added; one whose path's last stored hash is its own is
/// unchanged, and one whose path's last stored hash differs is modified;
/// an indexed path is deleted exactly when no hashed file has it.
pub proof fn lemma_changeset_law(
    paths: Seq<Seq<char>>,
    hashes: Seq<(usize, u64)>,
    stored: Seq<(Seq<char>, u64)>,
    indexed: Seq<Seq<char>>,
)
    ensures
        forall|k: int|
            0 <= k < hashes.len() && (forall|j: int| 0 <= j < stored.len() ==> (#[trigger] stored[j]).0 != paths[(
            #[trigger] hashes[k]).0 as int]) ==> spec_changeset(paths, hashes, stored, indexed).added.contains(hashes[k].0),
        forall|k: int|
            0 <= k < hashes.len() && last_stored_as(stored, paths[(#[trigger] hashes[k]).0 as int], hashes[k].1)
                ==> spec_changeset(paths, hashes, stored, indexed).unchanged.contains(hashes[k].0),
        forall|k: int, h: u64|
            0 <= k < hashes.len() && #[trigger] last_stored_as(stored, paths[(#[trigger] hashes[k]).0 as int], h) && h
                != hashes[k].1 ==> spec_changeset(paths, hashes, stored, indexed).modified.contains(hashes[k].0),
        forall|d: Seq<char>|
            #[trigger] spec_changeset(paths, hashes, stored, indexed).deleted.contains(d) <==> indexed.contains(d) && forall|k: int|
                0 <= k < hashes.len() ==> paths[(#[trigger] hashes[k]).0 as int] != d,
{
    assert forall|k: int|
        0 <= k < hashes.len() && (forall|j: int| 0 <= j < stored.len() ==> (#[trigger] stored[j]).0 != paths[(
        #[trigger] hashes[k]).0 as int]) implies spec_changeset(paths, hashes, stored, indexed).added.contains(hashes[k].0) by {
        lemma_stored_hash_last(stored, paths[hashes[k].0 as int]);
        lemma_class_member(paths, hashes, stored, 0, k);
    }
    assert forall|k: int|
        0 <= k < hashes.len() && last_stored_as(stored, paths[(#[trigger] hashes[k]).0 as int], hashes[k].1)
            implies spec_changeset(paths, hashes, stored, indexed).unchanged.contains(hashes[k].0) by {
        lemma_stored_hash_last(stored, paths[hashes[k].0 as int]);
        lemma_class_member(paths, hashes, stored, 2, k);
    }
    assert forall|k: int, h: u64|
        0 <= k < hashes.len() && #[trigger] last_stored_as(stored, paths[(#[trigger] hashes[k]).0 as int], h) && h
            != hashes[k].1 implies spec_changeset(paths, hashes, stored, indexed).modified.contains(hashes[k].0) by {
        lemma_stored_hash_last(stored, paths[hashes[k].0 as int]);
        lemma_class_member(paths, hashes, stored, 1, k);
    }
    assert forall|d: Seq<char>|
        #[trigger] spec_changeset(paths, hashes, stored, indexed).deleted.contains(d) <==> indexed.contains(d) && forall|k: int|
            0 <= k < hashes.len() ==> paths[(#[trigger] hashes[k]).0 as int] != d by {
        lemma_deleted_member(indexed, paths, hashes, d);
    }
}

/// The views of (path, hash) pairs.
pub open spec fn stored_view(s: Seq<(String, u64)>) -> Seq<(Seq<char>, u64)> {
    s.map_values(|e: (String, u64)| (e.0@, e.1))
}

/// The views of strings.
pub open spec fn paths_view(s: Seq<String>) -> Seq<Seq<char>> {
    s.map_values(|x: String| x@)
}

fn stored_hash_exec(stored: &[(String, u64)], path: &str) -> (r: Option<u64>)
    ensures
        r == stored_hash(stored_view(stored@), path@),
{
    let ghost s = stored_view(stored@);
    let mut j = stored.len();
    assert(s.subrange(0, s.len() as int) =~= s);
    while j > 0
        invariant
            s == stored_view(stored@),
            j <= s.len(),
            stored_hash(s, path@) == stored_hash(s.subrange(0, j as int), path@),
        decreases j,
    {
        assert(s.subrange(0, j as int).last() == (stored@[j - 1].0@, stored@[j - 1].1));
        assert(s.subrange(0, j as int).drop_last() =~= s.subrange(0, j - 1));
        if str_eq(stored[j - 1].0.as_str(), path) {
            return Some(stored[j - 1].1);
        }
        j = j - 1;
    }
    None
}

/// Compare a scan with a previous index.
pub fn compute_changeset(
    paths: &[String],
    hashes: &[(usize, u64)],
    stored: &[(String, u64)],
    indexed: &[String],
) -> (r: ChangeSet)
    requires
        forall|k: int| 0 <= k < hashes@.len() ==> (#[trigger] hashes@[k]).0 < paths@.len(),
    ensures
        r@ == spec_changeset(paths_view(paths@), hashes@, stored_view(stored@), paths_view(indexed@)),
{
    let ghost pv = paths_view(paths@);
    let ghost sv = stored_view(stored@);
    let mut added: Vec<usize> = Vec::new();
    let mut modified: Vec<usize> = Vec::new();
    let mut unchanged: Vec<usize> = Vec::new();
    let mut i: usize = 0;
    while i < hashes.len()
        invariant
            pv == paths_view(paths@),
            sv == stored_view(stored@),
            i <= hashes@.len(),
            forall|k: int| 0 <= k < hashes@.len() ==> (#[trigger] hashes@[k]).0 < paths@.len(),
            added@ == indices_of_class(pv, hashes@.subrange(0, i as int), sv, 0),
            modified@ == indices_of_class(pv, hashes@.subrange(0, i as int), sv, 1),
            unchanged@ == indices_of_class(pv, hashes@.subrange(0, i as int), sv, 2),
        decreases hashes.len() - i,
    {
        let (idx, hash) = hashes[i];
        assert(hashes@.subrange(0, i + 1).drop_last() =~= hashes@.subrange(0, i as int));
        assert(hashes@.subrange(0, i + 1).last() == hashes@[i as int]);
        assert(pv[idx as int] == paths@[idx as int]@);
        match stored_hash_exec(stored, paths[idx].as_str()) {
            Some(old) => if old == hash {
                unchanged.push(idx);
            } else {
                modified.push(idx);
            },
            None => {
                added.push(idx);
            },
        }
        i = i + 1;
    }
    assert(hashes@.subrange(0, hashes@.len() as int) =~= hashes@);
    let ghost iv = paths_view(indexed@);
    let mut deleted: Vec<String> = Vec::new();
    let mut j: usize = 0;
    while j < indexed.len()
        invariant
            pv == paths_view(paths@),
            iv == paths_view(indexed@),
            j <= indexed@.len(),
            forall|k: int| 0 <= k < hashes@.len() ==> (#[trigger] hashes@[k]).0 < paths@.len(),
            deleted@.map_values(|s: String| s@) == deleted_paths(iv.subrange(0, j as int), pv, hashes@),
        decreases indexed.len() - j,
    {
        assert(iv.subrange(0, j + 1).drop_last() =~= iv.subrange(0, j as int));
        assert(iv.subrange(0, j + 1).last() == indexed@[j as int]@);
        let fp = indexed[j].as_str();
        let mut found = false;
        let mut k: usize = 0;
        while k < hashes.len()
            invariant
                pv == paths_view(paths@),
                k <= hashes@.len(),
                forall|m: int| 0 <= m < hashes@.len() ==> (#[trigger] hashes@[m]).0 < paths@.len(),
                found == exists|m: int| 0 <= m < k && pv[(#[trigger] hashes@[m]).0 as int] == fp@,
            decreases hashes.len() - k,
        {
            let idx = hashes[k].0;
            assert(pv[idx as int] == paths@[idx as int]@);
            if str_eq(paths[idx].as_str(), fp) {
                found = true;
            }
            proof {
                if found && !(exists|m: int| 0 <= m < k && pv[(#[trigger] hashes@[m]).0 as int] == fp@) {
                    assert(pv[hashes@[k as int].0 as int] == fp@);
                }
                if exists|m: int| 0 <= m < k + 1 && pv[(#[trigger] hashes@[m]).0 as int] == fp@ {
                    let m = choose|m: int| 0 <= m < k + 1 && pv[(#[trigger] hashes@[m]).0 as int] == fp@;
                    if m < k {
                        assert(exists|m2: int| 0 <= m2 < k && pv[(#[trigger] hashes@[m2]).0 as int] == fp@);
                    }
                }
            }
            k = k + 1;
        }
        if !found {
            let ghost before = deleted@.map_values(|s: String| s@);
            deleted.push(indexed[j].clone());
            assert(deleted@.map_values(|s: String| s@) =~= before.push(indexed@[j as int]@));
        }
        j = j + 1;
    }
    assert(iv.subrange(0, iv.len() as int) =~= iv);
    ChangeSet { added, modified, deleted, unchanged }
}

/// The change set when there is no previous index: every scanned file is new.
pub fn changeset_without_index(file_count: usize) -> (r: ChangeSet)
    ensures
        r@.added == Seq::new(file_count as nat, |i: int| i as usize),
        r@.modified.len() == 0,
        r@.deleted.len() == 0,
        r@.unchanged.len() == 0,
{
    let mut added: Vec<usize> = Vec::new();
    let mut i: usize = 0;
    while i < file_count
        invariant
            i <= file_count,
            added@ == Seq::new(i as nat, |k: int| k as usize),
        decreases file_count - i,
    {
        added.push(i);
        assert(added@ =~= Seq::new((i + 1) as nat, |k: int| k as usize));
        i = i + 1;
    }
    let r = ChangeSet { added, modified: Vec::new(), deleted: Vec::new(), unchanged: Vec::new() };
    assert(r@.deleted =~= Seq::<Seq<char>>::empty());
    r
}

/// What an analysis run does with a change set.
#[derive(Debug, PartialEq, Eq)]
pub enum IndexPlan {
    /// Nothing changed since the previous index: keep it.
    UpToDate,
    /// Update the previous index: re-parse the added and then the modified files.
    Incremental(Vec<usize>),
    /// Index every scanned file from scratch.
    Full(Vec<usize>),
}

/// The plan for a run: incremental when there is a previous index, some
/// files are unchanged and some changed; up to date when there is a
/// previous index and nothing changed; otherwise a full index.
pub open spec fn spec_plan_kind(has_index: bool, cs: ChangeSetView) -> int {
    let changed = cs.added.len() + cs.modified.len() + cs.deleted.len();
    if has_index && cs.unchanged.len() > 0 && changed > 0 {
        1
    } else if has_index && changed == 0 {
        0
    } else {
        2
    }
}

/// The plan for a run over `file_count` scanned files.
pub fn plan_index(has_index: bool, cs: &ChangeSet, file_count: usize) -> (r: IndexPlan)
    ensures
        match r {
            IndexPlan::UpToDate => spec_plan_kind(has_index, cs@) == 0,
            IndexPlan::Incremental(v) => spec_plan_kind(has_index, cs@) == 1 && v@ == cs@.added + cs@.modified,
            IndexPlan::Full(v) => spec_plan_kind(has_index, cs@) == 2 && v@ == Seq::new(
                file_count as nat,
                |i: int| i as usize,
            ),
        },
        r is UpToDate <==> has_index && cs@.added.len() == 0 && cs@.modified.len() == 0 && cs@.deleted.len() == 0,
        r is Incremental <==> has_index && cs@.unchanged.len() > 0 && (cs@.added.len() > 0 || cs@.modified.len() > 0
            || cs@.deleted.len() > 0),
{
    let changed_any = cs.added.len() > 0 || cs.modified.len() > 0 || cs.deleted.len() > 0;
    if has_index && cs.unchanged.len() > 0 && changed_any {
        let mut to_parse: Vec<usize> = Vec::new();
        let mut i: usize = 0;
        while i < cs.added.len()
            invariant
                i <= cs.added@.len(),
                to_parse@ == cs.added@.subrange(0, i as int),
            decreases cs.added.len() - i,
        {
            to_parse.push(cs.added[i]);
            assert(cs.added@.subrange(0, i + 1) =~= cs.added@.subrange(0, i as int).push(cs.added@[i as int]));
            i = i + 1;
        }
        let mut j: usize = 0;
        while j < cs.modified.len()
            invariant
                j <= cs.modified@.len(),
                to_parse@ == cs.added@ + cs.modified@.subrange(0, j as int),
            decreases cs.modified.len() - j,
        {
            to_parse.push(cs.modified[j]);
            assert(cs.added@ + cs.modified@.subrange(0, j + 1) =~= (cs.added@ + cs.modified@.subrange(0, j as int)).push(cs.modified@[j as int]));
            j = j + 1;
        }
        assert(cs.added@.subrange(0, cs.added@.len() as int) =~= cs.added@);
        assert(cs.modified@.subrange(0, cs.modified@.len() as int) =~= cs.modified@);
        IndexPlan::Incremental(to_parse)
    } else if has_index && !changed_any {
        IndexPlan::UpToDate
    } else {
        let all = changeset_without_index(file_count);
        IndexPlan::Full(all.added)
    }
}

/// The languages in their name order, as `Language::as_str` spells them.
pub open spec fn languages_by_name() -> Seq<Language> {
    seq![
        Language::C, Language::CPlusPlus, Language::CSharp, Language::Dart, Language::Go, Language::Java,
        Language::JavaScript, Language::Kotlin, Language::PHP, Language::Python, Language::Ruby, Language::Rust,
        Language::Swift, Language::TypeScript,
    ]
}

/// The languages of `by_name` that occur in `found`, in order.
pub open spec fn present_languages(by_name: Seq<Language>, found: Seq<Language>) -> Seq<Language>
    decreases by_name.len(),
{
    if by_name.len() == 0 {
        Seq::empty()
    } else {
        let r = present_languages(by_name.drop_last(), found);
        if found.contains(by_name.last()) {
            r.push(by_name.last())
        } else {
            r
        }
    }
}

/// The languages of the scanned files, each once, in the order of their names.
pub fn detected_languages(found: &[Language]) -> (r: Vec<Language>)
    ensures
        r@ == present_languages(languages_by_name(), found@),
{
    let order: Vec<Language> = vec![
        Language::C, Language::CPlusPlus, Language::CSharp, Language::Dart, Language::Go, Language::Java,
        Language::JavaScript, Language::Kotlin, Language::PHP, Language::Python, Language::Ruby, Language::Rust,
        Language::Swift, Language::TypeScript,
    ];
    assert(order@ =~= languages_by_name());
    let mut r: Vec<Language> = Vec::new();
    let mut i: usize = 0;
    while i < order.len()
        invariant
            order@ == languages_by_name(),
            i <= order@.len(),
            r@ == present_languages(order@.subrange(0, i as int), found@),
        decreases order.len() - i,
    {
        let lang = order[i];
        assert(order@.subrange(0, i + 1).drop_last() =~= order@.subrange(0, i as int));
        assert(order@.subrange(0, i + 1).last() == lang);
        let mut present = false;
        let mut k: usize = 0;
        while k < found.len()
            invariant
                k <= found@.len(),
                present == found@.subrange(0, k as int).contains(lang),
            decreases found.len() - k,
        {
            let ghost prefix = found@.subrange(0, k + 1);
            let ghost before = found@.subrange(0, k as int);
            if found[k] == lang {
                assert(prefix[k as int] == lang);
                present = true;
            } else {
                proof {
                    if prefix.contains(lang) {
                        let m = choose|m: int| 0 <= m < prefix.len() && prefix[m] == lang;
                        assert(before[m] == lang);
                    }
                }
            }
            proof {
                if present && !prefix.contains(lang) {
                    let m = choose|m: int| 0 <= m < before.len() && before[m] == lang;
                    assert(prefix[m] == lang);
                }
            }
            k = k + 1;
        }
        assert(found@.subrange(0, found@.len() as int) =~= found@);
        if present {
            r.push(lang);
        }
        i = i + 1;
    }
    assert(order@.subrange(0, order@.len() as int) =~= order@);
    r
}

} // verus!
