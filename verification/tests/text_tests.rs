use snowflake::errors::storage_not_initialized;
use snowflake::ids::{IdType, ItemId};
use snowflake::text::{parse_u32, split_spaces, str_eq};

#[test]
fn string_equality() {
    assert!(str_eq("", ""));
    assert!(str_eq("abc", "abc"));
    assert!(!str_eq("abc", "abd"));
    assert!(!str_eq("abc", "abcd"));
}

#[test]
fn decimal_parsing() {
    assert_eq!(parse_u32("0"), Some(0));
    assert_eq!(parse_u32("4294967295"), Some(u32::MAX));
    assert_eq!(parse_u32("4294967296"), None);
    assert_eq!(parse_u32(""), None);
    assert_eq!(parse_u32("12a"), None);
    assert_eq!(parse_u32("-1"), None);
}

#[test]
fn space_splitting() {
    assert_eq!(split_spaces("a b"), vec!["a", "b"]);
    assert_eq!(split_spaces("a  b"), vec!["a", "", "b"]);
    assert_eq!(split_spaces(""), vec![""]);
    assert_eq!(split_spaces(" x "), vec!["", "x", ""]);
}

#[test]
fn item_identifiers() {
    let item = ItemId { ty: IdType::Asset, id: 7 };
    assert_eq!(item.asset().0, 7);
    let item = ItemId { ty: IdType::Collection, id: 8 };
    assert_eq!(item.collection().0, 8);
    let item = ItemId { ty: IdType::Tag, id: 9 };
    assert_eq!(item.tag().0, 9);
}

#[test]
fn uninitialized_message() {
    assert_eq!(storage_not_initialized(), "Storage not initialized.");
}
