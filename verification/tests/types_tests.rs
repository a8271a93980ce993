use gitgrapher::types::{HeritageKind, Language, NodeLabel, RelationType};

#[test]
fn test_language_detection() {
    assert_eq!(Language::from_extension("ts"), Some(Language::TypeScript));
    assert_eq!(Language::from_extension("tsx"), Some(Language::TypeScript));
    assert_eq!(Language::from_extension("py"), Some(Language::Python));
    assert_eq!(Language::from_extension("rs"), Some(Language::Rust));
    assert_eq!(Language::from_extension("txt"), None);
}

#[test]
fn test_node_label_properties() {
    assert!(NodeLabel::Function.is_callable());
    assert!(NodeLabel::Method.is_callable());
    assert!(!NodeLabel::Class.is_callable());

    assert!(NodeLabel::Class.is_type_def());
    assert!(NodeLabel::Interface.is_type_def());
    assert!(!NodeLabel::Function.is_type_def());

    assert!(NodeLabel::Function.is_symbol());
    assert!(!NodeLabel::File.is_symbol());
    assert!(!NodeLabel::Community.is_symbol());
}

#[test]
fn test_relation_roundtrip() {
    for rt in [
        RelationType::Contains,
        RelationType::Calls,
        RelationType::Extends,
        RelationType::Implements,
    ] {
        assert_eq!(RelationType::from_nexus_str(rt.as_str()), Some(rt));
    }
}

#[test]
fn relation_names_round_trip_for_every_relation() {
    let all = [
        RelationType::Contains,
        RelationType::Calls,
        RelationType::Inherits,
        RelationType::Overrides,
        RelationType::Imports,
        RelationType::Uses,
        RelationType::Defines,
        RelationType::Decorates,
        RelationType::Implements,
        RelationType::Extends,
        RelationType::HasMethod,
        RelationType::HasProperty,
        RelationType::Accesses,
        RelationType::MemberOf,
        RelationType::StepInProcess,
        RelationType::HandlesRoute,
        RelationType::Fetches,
        RelationType::HandlesTool,
        RelationType::EntryPointOf,
        RelationType::Wraps,
        RelationType::Queries,
    ];
    for rt in all {
        assert_eq!(RelationType::from_nexus_str(rt.as_str()), Some(rt));
    }
    assert_eq!(RelationType::from_nexus_str("calls"), None);
    assert_eq!(RelationType::from_nexus_str("HAS_METHOD"), Some(RelationType::HasMethod));
}

#[test]
fn label_and_language_names() {
    assert_eq!(NodeLabel::TypeAlias.as_str(), "TypeAlias");
    assert_eq!(NodeLabel::CodeElement.as_str(), "CodeElement");
    assert_eq!(Language::CPlusPlus.as_str(), "cpp");
    assert_eq!(Language::from_extension("hxx"), Some(Language::CPlusPlus));
    assert_eq!(Language::from_extension("mjs"), Some(Language::JavaScript));
    assert_eq!(Language::from_extension(""), None);
    let all = Language::all();
    assert_eq!(all.len(), 14);
    assert_eq!(all[0], Language::TypeScript);
    assert_eq!(all[13], Language::Dart);
    assert!(NodeLabel::Constructor.is_callable());
    assert!(!NodeLabel::Import.is_symbol());
    assert!(NodeLabel::Template.is_type_def());
    assert_ne!(HeritageKind::Extends, HeritageKind::Implements);
}
