use rnacos::config::config_core::{ConfigKey, ConfigValue};
use std::sync::Arc;

fn key_parts(key: &ConfigKey) -> (String, String, String) {
    (
        key.data_id.as_ref().clone(),
        key.group.as_ref().clone(),
        key.tenant.as_ref().clone(),
    )
}

#[test]
fn build_key_omits_an_empty_tenant() {
    let key = ConfigKey::new("app", "DEFAULT", "");
    assert_eq!(key.build_key(), "app\u{2}DEFAULT");
}

#[test]
fn build_key_appends_a_tenant() {
    let key = ConfigKey::new("app", "DEFAULT", "dev");
    assert_eq!(key.build_key(), "app\u{2}DEFAULT\u{2}dev");
}

#[test]
fn build_key_of_empty_fields_is_one_separator() {
    let key = ConfigKey::new("", "", "");
    assert_eq!(key.build_key(), "\u{2}");
}

#[test]
fn new_by_arc_keeps_the_handles() {
    let data_id = Arc::new("d".to_owned());
    let key = ConfigKey::new_by_arc(
        data_id.clone(),
        Arc::new("g".to_owned()),
        Arc::new("t".to_owned()),
    );
    assert!(Arc::ptr_eq(&key.data_id, &data_id));
    assert_eq!(key, ConfigKey::new("d", "g", "t"));
}

#[test]
fn key_from_text_with_two_fields() {
    let key = ConfigKey::from("app\u{2}DEFAULT");
    assert_eq!(key_parts(&key), ("app".to_owned(), "DEFAULT".to_owned(), "".to_owned()));
}

#[test]
fn key_from_text_with_three_fields() {
    let key = ConfigKey::from("app\u{2}DEFAULT\u{2}dev");
    assert_eq!(key_parts(&key), ("app".to_owned(), "DEFAULT".to_owned(), "dev".to_owned()));
}

#[test]
fn key_from_text_with_one_field() {
    let key = ConfigKey::from("app");
    assert_eq!(key_parts(&key), ("app".to_owned(), "".to_owned(), "".to_owned()));
}

#[test]
fn key_from_empty_text() {
    let key = ConfigKey::from("");
    assert_eq!(key_parts(&key), ("".to_owned(), "".to_owned(), "".to_owned()));
}

#[test]
fn key_from_text_ignores_further_fields() {
    let key = ConfigKey::from("a\u{2}b\u{2}c\u{2}d\u{2}e");
    assert_eq!(key_parts(&key), ("a".to_owned(), "b".to_owned(), "c".to_owned()));
}

#[test]
fn key_from_text_keeps_empty_fields_in_the_middle() {
    let key = ConfigKey::from("\u{2}\u{2}t");
    assert_eq!(key_parts(&key), ("".to_owned(), "".to_owned(), "t".to_owned()));
}

#[test]
fn key_from_text_reads_characters_beyond_ascii() {
    let key = ConfigKey::from("配置\u{2}组\u{2}租户");
    assert_eq!(key_parts(&key), ("配置".to_owned(), "组".to_owned(), "租户".to_owned()));
    assert_eq!(key.build_key(), "配置\u{2}组\u{2}租户");
}

#[test]
fn key_round_trip_with_tenant() {
    let key = ConfigKey::new("app.yaml", "DEFAULT_GROUP", "prod");
    let back = ConfigKey::from(key.build_key().as_str());
    assert_eq!(back, key);
}

#[test]
fn key_round_trip_without_tenant() {
    let key = ConfigKey::new("app.yaml", "DEFAULT_GROUP", "");
    let back = ConfigKey::from(key.build_key().as_str());
    assert_eq!(back, key);
    assert_eq!(back.tenant.as_str(), "");
}

#[test]
fn key_with_a_separator_in_a_field_does_not_round_trip() {
    let key = ConfigKey::new("a\u{2}b", "g", "");
    let back = ConfigKey::from(key.build_key().as_str());
    assert_ne!(back, key);
    assert_eq!(key_parts(&back), ("a".to_owned(), "b".to_owned(), "g".to_owned()));
}

#[test]
fn keys_are_equal_by_all_three_fields() {
    let key = ConfigKey::new("d", "g", "t");
    assert_eq!(key, ConfigKey::new("d", "g", "t"));
    assert_ne!(key, ConfigKey::new("x", "g", "t"));
    assert_ne!(key, ConfigKey::new("d", "x", "t"));
    assert_ne!(key, ConfigKey::new("d", "g", "x"));
    assert_eq!(key.clone(), key);
}

#[test]
fn value_holds_the_digest_of_its_content() {
    let value = ConfigValue::new(Arc::new("v1".to_owned()));
    assert_eq!(value.content.as_str(), "v1");
    assert_eq!(value.md5.as_str(), "6654c734ccab8f440ff0825eb443dc7f");
    assert!(!value.tmp);
}

#[test]
fn value_of_empty_content_has_the_digest_of_nothing() {
    let value = ConfigValue::new(Arc::new(String::new()));
    assert_eq!(value.md5.as_str(), "d41d8cd98f00b204e9800998ecf8427e");
}
