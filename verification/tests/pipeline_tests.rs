use gitgrapher::pipeline::{
    changeset_without_index, compute_changeset, content_hash, detected_languages, plan_index, IndexPlan,
};
use gitgrapher::types::Language;

#[test]
fn content_hash_is_xxh3() {
    assert_eq!(content_hash(b""), 0x2D06800538D394C2);
    assert_eq!(content_hash(b"export const x = 1;"), content_hash(b"export const x = 1;"));
    assert_ne!(content_hash(b"a"), content_hash(b"b"));
}

fn s(v: &[&str]) -> Vec<String> {
    v.iter().map(|x| x.to_string()).collect()
}

#[test]
fn changeset_classifies_files() {
    let paths = s(&["a.ts", "b.ts", "c.ts", "d.ts"]);
    // d.ts could not be read, so it has no hash.
    let hashes = vec![(0usize, 1u64), (1, 2), (2, 3)];
    let stored = vec![("a.ts".to_string(), 1u64), ("b.ts".to_string(), 9), ("gone.ts".to_string(), 4)];
    let indexed = s(&["a.ts", "b.ts", "gone.ts"]);
    let cs = compute_changeset(&paths, &hashes, &stored, &indexed);
    assert_eq!(cs.unchanged, vec![0]);
    assert_eq!(cs.modified, vec![1]);
    assert_eq!(cs.added, vec![2]);
    assert_eq!(cs.deleted, s(&["gone.ts"]));

    assert_eq!(plan_index(true, &cs, 4), IndexPlan::Incremental(vec![2, 1]));
    assert_eq!(plan_index(false, &cs, 3), IndexPlan::Full(vec![0, 1, 2]));
}

#[test]
fn unchanged_index_is_up_to_date() {
    let paths = s(&["a.ts"]);
    let cs = compute_changeset(&paths, &[(0, 7)], &[("a.ts".to_string(), 7)], &s(&["a.ts"]));
    assert_eq!(plan_index(true, &cs, 1), IndexPlan::UpToDate);
    // Everything changed: nothing to keep, index from scratch.
    let cs = compute_changeset(&paths, &[(0, 8)], &[("a.ts".to_string(), 7)], &s(&["a.ts"]));
    assert_eq!(plan_index(true, &cs, 1), IndexPlan::Full(vec![0]));
}

#[test]
fn fresh_index_adds_everything() {
    let cs = changeset_without_index(3);
    assert_eq!(cs.added, vec![0, 1, 2]);
    assert!(cs.modified.is_empty() && cs.deleted.is_empty() && cs.unchanged.is_empty());
}

#[test]
fn languages_are_listed_once_by_name() {
    let found = vec![Language::TypeScript, Language::Python, Language::TypeScript, Language::C, Language::CPlusPlus];
    assert_eq!(detected_languages(&found), vec![Language::C, Language::CPlusPlus, Language::Python, Language::TypeScript]);
    assert!(detected_languages(&[]).is_empty());
}
