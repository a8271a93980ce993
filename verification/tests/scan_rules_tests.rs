use gitgrapher::config::Config;
use gitgrapher::glob::glob_match;
use gitgrapher::scanner::{
    config_pattern_matches, is_ignored, normalize_pattern, parse_gitignore_line, rule_matches, scan_file,
    sort_source_files, strip_base, IgnoreRule, SourceFile,
};
use gitgrapher::paths::relative_path;
use gitgrapher::types::Language;

#[test]
fn glob_literal_and_star_patterns() {
    assert!(glob_match("main.ts", "main.ts"));
    assert!(!glob_match("main.ts", "main.js"));
    assert!(glob_match("*.min.js", "app.min.js"));
    assert!(!glob_match("*.min.js", "app.js"));
    assert!(glob_match("*", ""));
    assert!(glob_match("*", "anything/at/all"));
    assert!(glob_match("a*b*c", "aXXbYYc"));
    assert!(!glob_match("a*b*c", "aXXcYYb"));
    assert!(!glob_match("a*a", "a"));
    assert!(glob_match("a*a", "aa"));
    assert!(glob_match("src/*/gen", "src/x/gen"));
    assert!(glob_match("**", "x"));
    assert!(glob_match("ab*", "ab"));
    // A pattern matches its own text, stars included.
    assert!(glob_match("a*b", "a*b"));
}

#[test]
fn glob_takes_the_leftmost_middle_run() {
    assert!(glob_match("*ab*ab", "xabyab"));
    assert!(glob_match("*aa*b", "aaab"));
    assert!(glob_match("*aa*b", "aab"));
    assert!(!glob_match("*aa*b", "ab"));
}

#[test]
fn gitignore_lines_parse_into_rules() {
    assert!(parse_gitignore_line("", "").is_none());
    assert!(parse_gitignore_line("   # comment", "").is_none());
    assert!(parse_gitignore_line("/", "").is_none());

    let r = parse_gitignore_line("generated/", "").unwrap();
    assert_eq!(r.pattern, "generated");
    assert!(r.directory_only);
    assert!(!r.negated);

    let r = parse_gitignore_line("!  keep.gen.ts", "src").unwrap();
    assert_eq!(r.pattern, "keep.gen.ts");
    assert!(r.negated);
    assert_eq!(r.base, "src");

    // `\#` is dropped as a whole, the `#` with it.
    let r = parse_gitignore_line("\\#hash", "").unwrap();
    assert_eq!(r.pattern, "hash");

    let r = parse_gitignore_line("/build\\out//", "").unwrap();
    assert_eq!(r.pattern, "build/out");
    assert!(r.directory_only);
}

#[test]
fn strip_base_and_normalize() {
    assert_eq!(strip_base("a/b/c.ts", "").as_deref(), Some("a/b/c.ts"));
    assert_eq!(strip_base("a/b", "a/b").as_deref(), Some(""));
    assert_eq!(strip_base("a/b/c.ts", "a/b").as_deref(), Some("c.ts"));
    assert_eq!(strip_base("a/bc/d.ts", "a/b"), None);
    assert_eq!(normalize_pattern("a\\b\\c"), "a/b/c");
}

#[test]
fn config_patterns_match_names_or_paths() {
    assert!(config_pattern_matches("node_modules", "node_modules", "web/node_modules", true));
    assert!(config_pattern_matches("*.lock", "Cargo.lock", "Cargo.lock", false));
    assert!(!config_pattern_matches("out/", "out", "out", false));
    assert!(config_pattern_matches("out/", "out", "out", true));
    assert!(config_pattern_matches("docs/*.md", "a.md", "docs/a.md", false));
    assert!(!config_pattern_matches("docs/*.md", "a.md", "src/a.md", false));
}

fn rule(base: &str, pattern: &str, directory_only: bool, negated: bool) -> IgnoreRule {
    IgnoreRule { base: base.to_string(), pattern: pattern.to_string(), directory_only, negated }
}

#[test]
fn last_matching_rule_decides() {
    let config = Config::for_cpus(2);
    let rules = vec![rule("", "*.gen.ts", false, false), rule("", "keep.gen.ts", false, true)];
    assert!(is_ignored("skip.gen.ts", "skip.gen.ts", false, &config, &rules));
    assert!(!is_ignored("keep.gen.ts", "keep.gen.ts", false, &config, &rules));
    assert!(!is_ignored("main.ts", "main.ts", false, &config, &rules));
    // Configured patterns win over negated rules.
    let rules = vec![rule("", "node_modules", true, true)];
    assert!(is_ignored("node_modules", "node_modules", true, &config, &rules));
}

#[test]
fn nested_rules_apply_below_their_base() {
    let r = rule("src", "skip.ts", false, false);
    assert!(rule_matches(&r, "skip.ts", "src/skip.ts", false));
    assert!(!rule_matches(&r, "skip.ts", "lib/skip.ts", false));
    let r = rule("src", "gen/*.ts", false, false);
    assert!(rule_matches(&r, "a.ts", "src/gen/a.ts", false));
    assert!(!rule_matches(&r, "a.ts", "gen/a.ts", false));
}

#[test]
fn scan_file_keeps_supported_small_files() {
    let config = Config::for_cpus(2);
    let all = Language::all();
    let f = scan_file("/repo/src/main.ts", "src/main.ts".to_string(), 10, &all, &config).unwrap();
    assert_eq!(f.language, Language::TypeScript);
    assert_eq!(f.relative_path, "src/main.ts");
    assert_eq!(f.path, "/repo/src/main.ts");
    assert!(scan_file("/repo/README", "README".to_string(), 10, &all, &config).is_none());
    assert!(scan_file("/repo/a.ts", "a.ts".to_string(), 10, &[Language::Python], &config).is_none());
    let too_big = (config.max_file_size as u64) + 1;
    assert!(scan_file("/repo/a.py", "a.py".to_string(), too_big, &all, &config).is_none());
}

#[test]
fn relative_paths_use_slashes() {
    assert_eq!(relative_path("/repo", "/repo/src/a.ts"), "src/a.ts");
    // Outside the root the path is kept, its root component joined like the others.
    assert_eq!(relative_path("/repo", "/elsewhere/a.ts"), "//elsewhere/a.ts");
    assert_eq!(relative_path("/repo", "/repo"), "");
}

fn source(rel: &str, size: u64) -> SourceFile {
    SourceFile { path: format!("/r/{rel}"), relative_path: rel.to_string(), language: Language::Rust, size }
}

#[test]
fn source_files_sort_by_path_stably() {
    let files = vec![source("src/b.rs", 1), source("Cargo.rs", 2), source("src/a.rs", 3), source("src/b.rs", 4), source("src/ä.rs", 5)];
    let sorted = sort_source_files(files);
    let order: Vec<(&str, u64)> = sorted.iter().map(|f| (f.relative_path.as_str(), f.size)).collect();
    assert_eq!(order, vec![("Cargo.rs", 2), ("src/a.rs", 3), ("src/b.rs", 1), ("src/b.rs", 4), ("src/ä.rs", 5)]);
    assert!(sort_source_files(Vec::new()).is_empty());
}

#[test]
fn a_glob_matches_its_star_substitutions() {
    // "src/*/*.ts" with the stars replaced by "a/b" and "index" gives "src/a/b/index.ts".
    assert!(glob_match("src/*/*.ts", "src/a/b/index.ts"));
    // Stars may be replaced by nothing.
    assert!(glob_match("*a*", "a"));
    // No replacement of the star turns "x*y" into "xz".
    assert!(!glob_match("x*y", "xz"));
}

#[test]
fn test_default_config() {
    for cpus in [1, 2, 8] {
        let config = Config::for_cpus(cpus);
        assert_eq!(config.max_file_size, 32 * 1024 * 1024);
        assert_eq!(config.ast_cache_capacity, 500);
        assert!(config.worker_threads >= 1);
        assert!(!config.ignore_patterns.is_empty());
        assert!(config.ignore_patterns.contains(&"node_modules".to_string()));
    }
}
