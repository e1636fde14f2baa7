use rnacos::config::config_core::ConfigKey;
use rnacos::config::wire::ListenerItem;

fn item_parts(item: &ListenerItem) -> (ConfigKey, String) {
    (item.key.clone(), item.md5.as_ref().clone())
}

#[test]
fn listener_decode() {
    let input = "app\u{2}DEFAULT\u{2}public\u{2}md5a\u{1}other\u{2}g\u{2}md5b\u{1}";
    assert!(ListenerItem::is_listener_items(input));
    let items = ListenerItem::decode_listener_items(input);
    assert_eq!(items.len(), 2);
    assert_eq!(item_parts(&items[0]), (ConfigKey::new("app", "DEFAULT", ""), "md5a".to_owned()));
    assert_eq!(item_parts(&items[1]), (ConfigKey::new("other", "g", ""), "md5b".to_owned()));
}

#[test]
fn listener_decode_keeps_a_named_tenant() {
    let items = ListenerItem::decode_listener_items("d\u{2}g\u{2}dev\u{2}abc\u{1}");
    assert_eq!(items.len(), 1);
    assert_eq!(item_parts(&items[0]), (ConfigKey::new("d", "g", "dev"), "abc".to_owned()));
}

#[test]
fn listener_decode_knows_only_the_exact_word_public() {
    let items = ListenerItem::decode_listener_items("d\u{2}g\u{2}Public\u{2}abc\u{1}");
    assert_eq!(item_parts(&items[0]), (ConfigKey::new("d", "g", "Public"), "abc".to_owned()));
    let items = ListenerItem::decode_listener_items("d\u{2}g\u{2}publics\u{2}abc\u{1}");
    assert_eq!(item_parts(&items[0]), (ConfigKey::new("d", "g", "publics"), "abc".to_owned()));
}

#[test]
fn listener_decode_with_an_empty_digest() {
    let items = ListenerItem::decode_listener_items("d\u{2}g\u{2}\u{1}");
    assert_eq!(items.len(), 1);
    assert_eq!(item_parts(&items[0]), (ConfigKey::new("d", "g", ""), "".to_owned()));
}

#[test]
fn listener_decode_leaves_further_separators_in_the_digest() {
    let items = ListenerItem::decode_listener_items("d\u{2}g\u{2}t\u{2}m1\u{2}m2\u{1}");
    assert_eq!(items.len(), 1);
    assert_eq!(item_parts(&items[0]), (ConfigKey::new("d", "g", "t"), "m1\u{2}m2".to_owned()));
}

#[test]
fn listener_decode_drops_text_after_the_last_terminator() {
    let input = "d\u{2}g\u{2}m\u{1}loose\u{2}ends";
    assert!(ListenerItem::is_listener_items(input));
    let items = ListenerItem::decode_listener_items(input);
    assert_eq!(items.len(), 1);
    assert_eq!(item_parts(&items[0]), (ConfigKey::new("d", "g", ""), "m".to_owned()));
}

#[test]
fn listener_decode_of_nothing_is_nothing() {
    assert!(ListenerItem::is_listener_items(""));
    assert_eq!(ListenerItem::decode_listener_items("").len(), 0);
    assert!(ListenerItem::is_listener_items("no terminator at all"));
    assert_eq!(ListenerItem::decode_listener_items("no terminator at all").len(), 0);
}

#[test]
fn listen_request_with_a_short_record_cannot_be_read() {
    assert!(!ListenerItem::is_listener_items("\u{1}"));
    assert!(!ListenerItem::is_listener_items("only\u{1}"));
    assert!(!ListenerItem::is_listener_items("d\u{2}g\u{1}"));
    assert!(!ListenerItem::is_listener_items("d\u{2}g\u{2}m\u{1}d\u{2}g\u{1}"));
    assert!(ListenerItem::is_listener_items("d\u{2}g\u{2}m\u{1}"));
}

#[test]
fn change_keys_decode_with_group_last() {
    let input = "d\u{2}g\u{1}";
    assert!(ListenerItem::is_listener_change_keys(input));
    let keys = ListenerItem::decode_listener_change_keys(input);
    assert_eq!(keys, vec![ConfigKey::new("d", "g", "")]);
}

#[test]
fn change_keys_decode_with_tenant_last() {
    let keys = ListenerItem::decode_listener_change_keys("d\u{2}g\u{2}t\u{1}d2\u{2}g2\u{1}");
    assert_eq!(keys, vec![ConfigKey::new("d", "g", "t"), ConfigKey::new("d2", "g2", "")]);
}

#[test]
fn change_keys_decode_does_not_rewrite_public() {
    let keys = ListenerItem::decode_listener_change_keys("d\u{2}g\u{2}public\u{1}");
    assert_eq!(keys, vec![ConfigKey::new("d", "g", "public")]);
}

#[test]
fn change_keys_decode_takes_the_last_token_as_tenant() {
    let keys = ListenerItem::decode_listener_change_keys("d\u{2}g\u{2}x\u{2}t\u{1}");
    assert_eq!(keys, vec![ConfigKey::new("d", "g", "t")]);
}

#[test]
fn change_keys_with_a_record_without_separator_cannot_be_read() {
    assert!(!ListenerItem::is_listener_change_keys("\u{1}"));
    assert!(!ListenerItem::is_listener_change_keys("d\u{1}"));
    assert!(ListenerItem::is_listener_change_keys("d\u{2}\u{1}"));
    assert_eq!(
        ListenerItem::decode_listener_change_keys("d\u{2}\u{1}"),
        vec![ConfigKey::new("d", "", "")]
    );
}

#[test]
fn reading_on_trial_tells_what_cannot_be_read() {
    assert!(ListenerItem::try_decode_listener_items("d\u{2}g\u{1}").is_none());
    let items = ListenerItem::try_decode_listener_items("d\u{2}g\u{2}m\u{1}").expect("items");
    assert_eq!(item_parts(&items[0]), (ConfigKey::new("d", "g", ""), "m".to_owned()));
    assert!(ListenerItem::try_decode_listener_change_keys("d\u{1}").is_none());
    assert_eq!(
        ListenerItem::try_decode_listener_change_keys("d\u{2}g\u{1}"),
        Some(vec![ConfigKey::new("d", "g", "")])
    );
}
