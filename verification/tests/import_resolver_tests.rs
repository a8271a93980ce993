use gitgrapher::import_resolver::ImportResolver;
use gitgrapher::types::Language;

fn make_resolver(files: &[&str]) -> ImportResolver {
    ImportResolver::new(files.iter().map(|f| f.to_string()).collect())
}

#[test]
fn test_relative_import() {
    let mut r = make_resolver(&["src/models/user.ts", "src/services/auth.ts", "src/index.ts"]);

    assert_eq!(
        r.resolve("./models/user", "src/index.ts", Language::TypeScript),
        Some("src/models/user.ts".to_string())
    );
}

#[test]
fn test_relative_parent_import() {
    let mut r = make_resolver(&["src/models/user.ts", "src/services/auth.ts"]);

    assert_eq!(
        r.resolve(
            "../models/user",
            "src/services/auth.ts",
            Language::TypeScript
        ),
        Some("src/models/user.ts".to_string())
    );
}

#[test]
fn test_index_file_resolution() {
    let mut r = make_resolver(&["src/models/index.ts", "src/app.ts"]);

    assert_eq!(
        r.resolve("./models", "src/app.ts", Language::TypeScript),
        Some("src/models/index.ts".to_string())
    );
}

#[test]
fn test_extension_inference() {
    let mut r = make_resolver(&[
        "src/utils.ts",
        "src/app.ts",
        "src/service.go",
        "src/main.go",
        "src/repo.rs",
        "src/lib.rs",
    ]);

    assert_eq!(
        r.resolve("./utils", "src/app.ts", Language::TypeScript),
        Some("src/utils.ts".to_string())
    );
    assert_eq!(
        r.resolve("./service", "src/main.go", Language::Go),
        Some("src/service.go".to_string())
    );
    assert_eq!(
        r.resolve("./repo", "src/lib.rs", Language::Rust),
        Some("src/repo.rs".to_string())
    );
}

#[test]
fn test_unresolvable_import() {
    let mut r = make_resolver(&["src/app.ts"]);

    assert_eq!(
        r.resolve("./nonexistent", "src/app.ts", Language::TypeScript),
        None
    );
}

#[test]
fn test_cache_hit() {
    let mut r = make_resolver(&["src/utils.ts", "src/app.ts"]);

    let first = r.resolve("./utils", "src/app.ts", Language::TypeScript);
    let second = r.resolve("./utils", "src/app.ts", Language::TypeScript);
    assert_eq!(first, second);
}

#[test]
fn bare_specifier_resolves_by_unique_suffix() {
    let mut r = make_resolver(&["lib/pkg/get.ts", "src/app.ts", "src/a/util.py", "src/b/util.py"]);
    assert_eq!(
        r.resolve("pkg/get", "src/app.ts", Language::TypeScript),
        Some("lib/pkg/get.ts".to_string())
    );
    // Two files end in util.py: the suffix does not single one out.
    assert_eq!(r.resolve("util", "src/app.ts", Language::Python), None);
    // Dotted module paths are read as paths, and a more specific suffix wins.
    assert_eq!(
        r.resolve("a.util", "src/app.ts", Language::Python),
        Some("src/a/util.py".to_string())
    );
}

#[test]
fn specifier_is_trimmed_and_validated() {
    let mut r = make_resolver(&["src/utils.ts", "src/app.ts"]);
    assert_eq!(
        r.resolve("  './utils'  ", "src/app.ts", Language::TypeScript),
        Some("src/utils.ts".to_string())
    );
    assert_eq!(r.resolve("", "src/app.ts", Language::TypeScript), None);
    assert_eq!(r.resolve("\"\"", "src/app.ts", Language::TypeScript), None);
    assert_eq!(r.resolve("./ut\u{1}ils", "src/app.ts", Language::TypeScript), None);
    let long = format!("./{}", "a".repeat(3000));
    assert_eq!(r.resolve(&long, "src/app.ts", Language::TypeScript), None);
}

#[test]
fn backslash_paths_are_normalized() {
    let mut r = make_resolver(&["src\\models\\user.ts", "src\\app.ts"]);
    assert_eq!(
        r.resolve("models/user", "src/app.ts", Language::TypeScript),
        Some("src\\models\\user.ts".to_string())
    );
    assert_eq!(r.all_files().len(), 2);
    assert_eq!(r.all_files()[1], "src\\app.ts");
}
