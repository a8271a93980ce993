use gitgrapher::diff::MatchKind;
use gitgrapher::matching::{match_symbol_nodes, match_unique_stage, KeyedSymbol, SymbolMatch};

fn sym(id: &str, location: Option<&str>, symbol: Option<&str>, body: Option<&str>) -> KeyedSymbol {
    KeyedSymbol {
        id: id.to_string(),
        location_key: location.map(|s| s.to_string()),
        symbol_key: symbol.map(|s| s.to_string()),
        body_key: body.map(|s| s.to_string()),
    }
}

fn triples(matches: &[SymbolMatch]) -> Vec<(String, String, MatchKind)> {
    matches.iter().map(|m| (m.base_id.clone(), m.head_id.clone(), m.kind)).collect()
}

fn ids(symbols: &[KeyedSymbol]) -> Vec<String> {
    symbols.iter().map(|s| s.id.clone()).collect()
}

#[test]
fn unchanged_symbol_matches_by_location() {
    let base = vec![sym("b:foo", Some("a.rs:1:foo"), Some("a.rs::foo"), Some("Function::1"))];
    let head = vec![sym("h:foo", Some("a.rs:1:foo"), Some("a.rs::foo"), Some("Function::1"))];
    let matches = match_symbol_nodes(&base, &head);
    assert_eq!(triples(&matches), vec![("b:foo".to_string(), "h:foo".to_string(), MatchKind::Location)]);
}

#[test]
fn moved_symbol_matches_by_symbol_key() {
    let base = vec![sym("b:foo", Some("a.rs:1:foo"), Some("foo"), Some("Function::1"))];
    let head = vec![sym("h:foo", Some("a.rs:9:foo"), Some("foo"), Some("Function::2"))];
    let matches = match_symbol_nodes(&base, &head);
    assert_eq!(triples(&matches), vec![("b:foo".to_string(), "h:foo".to_string(), MatchKind::Symbol)]);
}

#[test]
fn renamed_symbol_matches_by_body() {
    let base = vec![sym("b:old", Some("a.rs:1:old"), Some("old"), Some("Function::7"))];
    let head = vec![sym("h:new", Some("a.rs:1:new"), Some("new"), Some("Function::7"))];
    let matches = match_symbol_nodes(&base, &head);
    assert_eq!(triples(&matches), vec![("b:old".to_string(), "h:new".to_string(), MatchKind::Body)]);
}

#[test]
fn ambiguous_key_falls_through_to_later_stage() {
    // The location key is shared by two base symbols, so the first stage
    // pairs neither; their symbol keys are unique and pair them.
    let base = vec![
        sym("b:x", Some("same"), Some("x"), None),
        sym("b:y", Some("same"), Some("y"), None),
    ];
    let head = vec![
        sym("h:y", Some("same"), Some("y"), None),
        sym("h:x", Some("other"), Some("x"), None),
    ];
    let matches = match_symbol_nodes(&base, &head);
    assert_eq!(
        triples(&matches),
        vec![
            ("b:x".to_string(), "h:x".to_string(), MatchKind::Symbol),
            ("b:y".to_string(), "h:y".to_string(), MatchKind::Symbol),
        ]
    );
}

#[test]
fn missing_keys_never_match() {
    let base = vec![sym("b:a", None, None, None)];
    let head = vec![sym("h:a", None, None, None)];
    assert!(match_symbol_nodes(&base, &head).is_empty());
}

#[test]
fn stage_keeps_unmatched_symbols_in_order() {
    let base = vec![
        sym("b1", Some("k1"), None, None),
        sym("b2", Some("k2"), None, None),
        sym("b3", Some("k3"), None, None),
    ];
    let head = vec![
        sym("h3", Some("k3"), None, None),
        sym("h4", Some("k4"), None, None),
        sym("h1", Some("k1"), None, None),
    ];
    let stage = match_unique_stage(&base, &head, MatchKind::Location);
    assert_eq!(
        triples(&stage.matches),
        vec![
            ("b1".to_string(), "h1".to_string(), MatchKind::Location),
            ("b3".to_string(), "h3".to_string(), MatchKind::Location),
        ]
    );
    assert_eq!(ids(&stage.base_left), vec!["b2".to_string()]);
    assert_eq!(ids(&stage.head_left), vec!["h4".to_string()]);
}

#[test]
fn each_symbol_is_matched_at_most_once() {
    let base = vec![
        sym("b1", Some("l1"), Some("s"), Some("body")),
        sym("b2", Some("l2"), Some("s"), Some("body")),
    ];
    let head = vec![
        sym("h1", Some("l1"), Some("s"), Some("body")),
        sym("h2", Some("l9"), Some("s2"), Some("body")),
    ];
    let matches = match_symbol_nodes(&base, &head);
    // b1/h1 pair by location; the remaining b2 and h2 share only the body key.
    assert_eq!(
        triples(&matches),
        vec![
            ("b1".to_string(), "h1".to_string(), MatchKind::Location),
            ("b2".to_string(), "h2".to_string(), MatchKind::Body),
        ]
    );
}
