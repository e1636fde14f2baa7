use rnacos::config::config_core::ConfigKey;
use rnacos::config::config_index::TenantIndex;
use rnacos::config::config_subscribe::Subscriber;
use rnacos::config::wire::ListenerItem;
use rnacos::keyed::{KeyMap, KeySet};
use rnacos::text::{chars_of, contains_text, text_before, text_of};
use rnacos::utils::{clamp_reading, now_millis};
use std::sync::Arc;

fn text(s: &str) -> Arc<String> {
    Arc::new(s.to_owned())
}

fn items(keys: &[&ConfigKey]) -> Vec<ListenerItem> {
    keys.iter().map(|k| ListenerItem::new((*k).clone(), text(""))).collect()
}

fn texts(list: &[Arc<String>]) -> Vec<String> {
    list.iter().map(|s| s.as_ref().clone()).collect()
}

#[test]
fn registry_is_kept_from_both_sides() {
    let a = ConfigKey::new("a", "g", "");
    let b = ConfigKey::new("b", "g", "");
    let mut registry = Subscriber::new();
    registry.add_subscribe(text("c1"), items(&[&a, &b]));
    registry.add_subscribe(text("c2"), items(&[&a]));
    registry.add_subscribe(text("c1"), items(&[&a]));
    assert_eq!(texts(&registry.notify(a.clone())), vec!["c1".to_owned(), "c2".to_owned()]);
    assert_eq!(texts(&registry.notify(b.clone())), vec!["c1".to_owned()]);
    registry.remove_subscribe(text("c1"), items(&[&a]));
    assert_eq!(texts(&registry.notify(a.clone())), vec!["c2".to_owned()]);
    assert_eq!(texts(&registry.notify(b.clone())), vec!["c1".to_owned()]);
    registry.remove_client_subscribe(text("c1"));
    assert_eq!(registry.notify(b.clone()).len(), 0);
    registry.remove_config_key(a.clone());
    assert_eq!(registry.notify(a.clone()).len(), 0);
    registry.remove_client_subscribe(text("nobody"));
    registry.remove_config_key(b);
}

#[test]
fn index_keeps_its_keys_in_order_and_once() {
    let mut index = TenantIndex::new();
    assert!(index.insert_config(ConfigKey::new("b", "g", "")));
    assert!(index.insert_config(ConfigKey::new("a", "g", "t")));
    assert!(index.insert_config(ConfigKey::new("a", "g", "")));
    assert!(!index.insert_config(ConfigKey::new("a", "g", "")));
    assert_eq!(index.size(), 3);
    assert!(index.contains(&ConfigKey::new("a", "g", "t")));
    assert!(index.remove_config(&ConfigKey::new("b", "g", "")));
    assert!(!index.remove_config(&ConfigKey::new("b", "g", "")));
    assert!(!index.contains(&ConfigKey::new("b", "g", "")));
    assert_eq!(index.size(), 2);
    index.clear();
    assert_eq!(index.size(), 0);
}

#[test]
fn key_set_holds_each_key_once_in_the_order_of_arrival() {
    let mut set: KeySet<Arc<String>> = KeySet::new();
    assert!(set.insert(text("x")));
    assert!(set.insert(text("y")));
    assert!(!set.insert(text("x")));
    assert_eq!(set.len(), 2);
    assert!(set.contains(&text("y")));
    assert_eq!(set.get(0).as_str(), "x");
    assert!(set.remove(&text("x")));
    assert!(!set.remove(&text("x")));
    assert_eq!(texts(&set.to_vec()), vec!["y".to_owned()]);
    assert_eq!(texts(&set.clone().take_all()), vec!["y".to_owned()]);
    assert_eq!(texts(&set.take_all()), vec!["y".to_owned()]);
    assert_eq!(set.len(), 0);
}

#[test]
fn key_map_binds_each_key_to_one_value() {
    let mut map: KeyMap<ConfigKey, u32> = KeyMap::new();
    assert_eq!(map.insert(ConfigKey::new("a", "g", ""), 1), None);
    assert_eq!(map.insert(ConfigKey::new("b", "g", ""), 2), None);
    assert_eq!(map.insert(ConfigKey::new("a", "g", ""), 3), Some(1));
    assert_eq!(map.len(), 2);
    assert_eq!(map.get(&ConfigKey::new("a", "g", "")), Some(&3));
    assert!(map.contains_key(&ConfigKey::new("b", "g", "")));
    assert_eq!(map.remove(&ConfigKey::new("b", "g", "")), Some(2));
    assert_eq!(map.remove(&ConfigKey::new("b", "g", "")), None);
    assert_eq!(map.get(&ConfigKey::new("b", "g", "")), None);
    map.clear();
    assert_eq!(map.len(), 0);
}

#[test]
fn texts_are_ordered_by_code_point_with_prefixes_first() {
    assert!(text_before("", "a"));
    assert!(!text_before("a", ""));
    assert!(!text_before("", ""));
    assert!(text_before("a", "ab"));
    assert!(text_before("ab", "b"));
    assert!(text_before("B", "a"));
    assert!(!text_before("abc", "abc"));
    assert!(text_before("z", "é"));
    assert_eq!(text_before("é", "日"), "é" < "日");
}

#[test]
fn text_search_finds_runs_of_characters() {
    assert!(contains_text("hello", ""));
    assert!(contains_text("", ""));
    assert!(!contains_text("", "a"));
    assert!(contains_text("hello", "hello"));
    assert!(contains_text("hello", "ell"));
    assert!(contains_text("hello", "lo"));
    assert!(!contains_text("hello", "lol"));
    assert!(!contains_text("hello", "hello!"));
    assert!(contains_text("日本語", "本"));
}

#[test]
fn texts_go_to_characters_and_back() {
    let chars = chars_of("héllo");
    assert_eq!(chars, vec!['h', 'é', 'l', 'l', 'o']);
    assert_eq!(text_of(&chars, 1, 4), "éll");
    assert_eq!(text_of(&chars, 2, 2), "");
}

#[test]
fn the_clock_reads_a_time_of_this_century() {
    let now = now_millis();
    assert!(now > 1_500_000_000_000);
    assert!(now_millis() >= now);
}

#[test]
fn a_reading_before_the_epoch_stands_for_zero() {
    assert_eq!(clamp_reading(-1), 0);
    assert_eq!(clamp_reading(i64::MIN), 0);
    assert_eq!(clamp_reading(0), 0);
    assert_eq!(clamp_reading(1_700_000_000_123), 1_700_000_000_123);
    assert_eq!(clamp_reading(i64::MAX), 9_223_372_036_854_775_807);
}
