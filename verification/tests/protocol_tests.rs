use gitgrapher::error::GgError;
use gitgrapher::bench::{mutation_marker, time_label};
use gitgrapher::diff::{canonical_edge_key, group_for_label, match_kind_name, status_priority, DiffStatus, MatchKind};
use gitgrapher::mcp::{percent_decode, percent_encode, McpError};
use gitgrapher::types::{NodeLabel, RelationType};

#[test]
fn percent_encoding_round_trips() {
    for s in ["my-repo", "a b/c", "naïve ✓", "", "100%"] {
        let enc = percent_encode(s);
        assert_eq!(percent_decode(&enc).unwrap(), s);
    }
    assert_eq!(percent_encode("a b/c~"), "a%20b%2Fc~");
    assert_eq!(percent_encode("é"), "%C3%A9");
}

#[test]
fn percent_decoding_errors() {
    let e = percent_decode("abc%2").unwrap_err();
    assert_eq!(e.code, -32602);
    assert_eq!(e.message, "invalid percent encoding");
    let e = percent_decode("%zz").unwrap_err();
    assert_eq!(e.message, "invalid percent encoding");
    let e = percent_decode("%FF").unwrap_err();
    assert_eq!(e.code, -32602);
    assert_eq!(e.message, "invalid UTF-8 in URI");
    // A `+` sign before a single hexadecimal digit reads as that digit.
    assert_eq!(percent_decode("%+41").unwrap(), "\u{4}1");
    assert_eq!(percent_decode("a%2b").unwrap(), "a+");
}

#[test]
fn mcp_error_codes() {
    let e = McpError::invalid_params("bad");
    assert_eq!((e.code, e.message.as_str()), (-32602, "bad"));
    let e = McpError::method_not_found("tools/zap");
    assert_eq!((e.code, e.message.as_str()), (-32601, "Method not found: tools/zap"));
    let e = McpError::internal("boom");
    assert_eq!((e.code, e.message.as_str()), (-32603, "boom"));
}

#[test]
fn diff_vocabulary() {
    assert!(DiffStatus::Added.is_changed());
    assert!(!DiffStatus::Unchanged.is_changed());
    assert_eq!(status_priority(DiffStatus::Modified), 0);
    assert_eq!(status_priority(DiffStatus::Moved), 1);
    assert_eq!(status_priority(DiffStatus::Added), 2);
    assert_eq!(status_priority(DiffStatus::Removed), 3);
    assert_eq!(status_priority(DiffStatus::Unchanged), 4);
    assert_eq!(match_kind_name(MatchKind::Location), "location");
    assert_eq!(match_kind_name(MatchKind::Symbol), "symbol");
    assert_eq!(match_kind_name(MatchKind::Body), "body");
    assert_eq!(group_for_label(NodeLabel::File), 0);
    assert_eq!(group_for_label(NodeLabel::TypeAlias), 7);
    assert_eq!(group_for_label(NodeLabel::Route), 8);
    assert_eq!(canonical_edge_key("a", RelationType::Calls, "b"), "a::CALLS::b");
}

#[test]
fn benchmark_markers_and_time_labels() {
    assert_eq!(mutation_marker("src/app.py"), Some("\n# gitgrapher benchmark mutation\n"));
    assert_eq!(mutation_marker("lib/x.rs"), Some("\n// gitgrapher benchmark mutation\n"));
    assert_eq!(mutation_marker("README.md"), None);
    assert_eq!(mutation_marker("Makefile"), None);
    assert_eq!(time_label(0), "unix:0");
    assert_eq!(time_label(1_700_000_000), "unix:1700000000");
}

#[test]
fn error_messages_name_what_failed() {
    let e = GgError::Parse { file: "a.ts".to_string(), message: "unexpected token".to_string() };
    assert_eq!(e.message(), "Parse error in a.ts: unexpected token");
    assert_eq!(GgError::UnsupportedLanguage("cobol".to_string()).message(), "Unsupported language: cobol");
    assert_eq!(GgError::Graph("x".to_string()).message(), "Graph error: x");
    assert_eq!(GgError::Search("y".to_string()).message(), "Search error: y");
    assert_eq!(GgError::Serialization("z".to_string()).message(), "Serialization error: z");
    assert_eq!(GgError::Cancelled.message(), "Operation cancelled");
    assert_eq!(GgError::Other("plain".to_string()).message(), "plain");
}
