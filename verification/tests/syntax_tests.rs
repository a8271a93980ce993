use gitgrapher::syntax::{
    clean_rust_type_name, is_go_exported, label_for_go_type, last_path_segment, parse_rust_use, rust_use_item,
    strip_go_string,
};
use gitgrapher::types::NodeLabel;

#[test]
fn parses_rust_use_alias() {
    let items = parse_rust_use("crate::services::UserService as Service");
    assert_eq!(items.len(), 1);
    assert_eq!(items[0].imported_name, "UserService");
    assert_eq!(items[0].module_source, "services");
    assert_eq!(items[0].alias.as_deref(), Some("Service"));
}

#[test]
fn parses_rust_use_lists() {
    let items = parse_rust_use("crate::models::{User, Account as Acct};");
    assert_eq!(items.len(), 2);
    assert_eq!(items[0].imported_name, "User");
    assert_eq!(items[0].module_source, "models");
    assert_eq!(items[0].alias, None);
    assert_eq!(items[1].imported_name, "Account");
    assert_eq!(items[1].alias.as_deref(), Some("Acct"));
    assert!(parse_rust_use("  ;  ").is_empty());
    let single = parse_rust_use("std::collections::HashMap;");
    assert_eq!(single.len(), 1);
    assert_eq!(single[0].imported_name, "HashMap");
    assert_eq!(single[0].module_source, "std/collections");
    let bare = rust_use_item("", "serde");
    assert_eq!(bare.imported_name, "serde");
    assert_eq!(bare.module_source, "serde");
}

#[test]
fn cleans_rust_type_names() {
    assert_eq!(clean_rust_type_name("&mut Vec<String>"), "Vec");
    assert_eq!(clean_rust_type_name(" crate::models::User "), "User");
    assert_eq!(clean_rust_type_name("&self::Config"), "Config");
    assert_eq!(clean_rust_type_name("Option<Box<T>>"), "Option");
}

#[test]
fn go_helpers() {
    assert!(is_go_exported("Handler"));
    assert!(!is_go_exported("handler"));
    assert!(!is_go_exported(""));
    assert!(!is_go_exported("_Private"));
    assert_eq!(strip_go_string("\"net/http\""), "net/http");
    assert_eq!(strip_go_string("`raw`"), "raw");
    assert_eq!(last_path_segment("github.com/acme/tool"), "tool");
    assert_eq!(last_path_segment("fmt"), "fmt");
    assert_eq!(label_for_go_type(Some("struct_type")), NodeLabel::Struct);
    assert_eq!(label_for_go_type(Some("interface_type")), NodeLabel::Interface);
    assert_eq!(label_for_go_type(Some("map_type")), NodeLabel::Type);
    assert_eq!(label_for_go_type(None), NodeLabel::Type);
}
