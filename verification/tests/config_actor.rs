use rnacos::config::config_core::{
    raft_request, ConfigActor, ConfigAsyncCmd, ConfigCmd, ConfigHistoryParam,
    ConfigHistoryRecord, ConfigKey, ConfigResult, ConfigValue, ListenOutcome, StoreOp,
};
use rnacos::config::config_index::ConfigQueryParam;
use rnacos::config::listener::ListenerResult;
use rnacos::config::model::{ClientRequest, ConfigRaftCmd, StoredConfig};
use rnacos::config::wire::ListenerItem;
use std::sync::Arc;
use tokio::sync::oneshot::{channel, error::TryRecvError};

const MD5_V1: &str = "6654c734ccab8f440ff0825eb443dc7f";
const MD5_V2: &str = "1b267619c4812cc46ee281747884ca50";

fn text(s: &str) -> Arc<String> {
    Arc::new(s.to_owned())
}

fn app_key() -> ConfigKey {
    ConfigKey::new("app", "DEFAULT", "")
}

fn item(key: ConfigKey, md5: &str) -> ListenerItem {
    ListenerItem::new(key, text(md5))
}

fn query(tenant: &str) -> ConfigQueryParam {
    ConfigQueryParam {
        tenant: text(tenant),
        like_group: None,
        like_data_id: None,
        query_context: false,
        offset: 0,
        limit: 100,
    }
}

fn add(key: &str, value: &str, history_id: u64) -> ConfigRaftCmd {
    ConfigRaftCmd::ConfigAdd {
        key: key.to_owned(),
        value: text(value),
        history_id,
        history_table_id: None,
    }
}

fn cached(actor: &ConfigActor, key: &ConfigKey) -> Option<(String, String)> {
    actor.get(key).map(|(c, m)| (c.as_ref().clone(), m.as_ref().clone()))
}

fn texts(list: &[Arc<String>]) -> Vec<String> {
    list.iter().map(|s| s.as_ref().clone()).collect()
}

#[test]
fn happy_write() {
    let mut actor = ConfigActor::new(Vec::new());
    let change = actor.set_config(app_key(), text("v1"), 1, None);
    assert_eq!(cached(&actor, &app_key()), Some(("v1".to_owned(), MD5_V1.to_owned())));
    match change.store {
        StoreOp::Put { key, content, md5, history_id, history_table_id } => {
            assert_eq!(key, app_key());
            assert_eq!(content.as_str(), "v1");
            assert_eq!(md5.as_str(), MD5_V1);
            assert_eq!(history_id, 1);
            assert_eq!(history_table_id, None);
        }
        _ => panic!("nothing was written"),
    }
    assert_eq!(change.woken, Vec::<u64>::new());
    assert_eq!(change.notified.len(), 0);
    let (size, page) = actor.get_config_info_page(&query(""));
    assert_eq!(size, 1);
    assert_eq!(page.len(), 1);
    assert_eq!(page[0].data_id.as_str(), "app");
    assert_eq!(page[0].group.as_str(), "DEFAULT");
    assert_eq!(page[0].tenant.as_str(), "");
}

#[test]
fn write_with_the_digest_of_the_confirmed_entry_writes_nothing() {
    let mut actor = ConfigActor::new(Vec::new());
    actor.set_config(app_key(), text("v1"), 1, Some(7));
    let (tx, mut rx) = channel();
    actor.listen(vec![item(app_key(), MD5_V1)], tx, 30_000);
    let change = actor.set_config(app_key(), text("v1"), 2, Some(7));
    assert!(matches!(change.store, StoreOp::Keep));
    assert_eq!(change.woken, Vec::<u64>::new());
    assert!(matches!(rx.try_recv(), Err(TryRecvError::Empty)));
    let change = actor.set_config(app_key(), text("v2"), 3, Some(7));
    assert!(matches!(change.store, StoreOp::Put { history_id: 3, history_table_id: Some(7), .. }));
    assert_eq!(change.woken, vec![1]);
    assert_eq!(cached(&actor, &app_key()), Some(("v2".to_owned(), MD5_V2.to_owned())));
}

#[test]
fn write_over_a_seeded_entry_is_written_even_with_the_same_digest() {
    let mut actor = ConfigActor::new(Vec::new());
    actor.set_tmp_config(app_key(), text("v1"));
    assert_eq!(cached(&actor, &app_key()), Some(("v1".to_owned(), MD5_V1.to_owned())));
    assert_eq!(actor.get_config_info_page(&query("")).0, 0);
    let change = actor.set_config(app_key(), text("v1"), 5, None);
    assert!(matches!(change.store, StoreOp::Put { history_id: 5, .. }));
    assert_eq!(actor.get_config_info_page(&query("")).0, 1);
    let change = actor.set_config(app_key(), text("v1"), 6, None);
    assert!(matches!(change.store, StoreOp::Keep));
}

#[test]
fn seeding_a_confirmed_key_takes_it_out_of_the_index() {
    let mut actor = ConfigActor::new(Vec::new());
    actor.set_config(app_key(), text("v1"), 1, None);
    actor.set_config(ConfigKey::new("other", "DEFAULT", ""), text("v1"), 2, None);
    assert_eq!(actor.get_config_info_page(&query("")).0, 2);
    actor.set_tmp_config(app_key(), text("v2"));
    assert_eq!(cached(&actor, &app_key()), Some(("v2".to_owned(), MD5_V2.to_owned())));
    let (size, page) = actor.get_config_info_page(&query(""));
    assert_eq!(size, 1);
    assert_eq!(page[0].data_id.as_str(), "other");
    let change = actor.set_config(app_key(), text("v2"), 3, None);
    assert!(matches!(change.store, StoreOp::Put { history_id: 3, .. }));
    let (size, page) = actor.get_config_info_page(&query(""));
    assert_eq!(size, 2);
    assert_eq!(page[0].data_id.as_str(), "app");
}

#[test]
fn plan_names_the_write_before_it_is_applied() {
    let mut actor = ConfigActor::new(Vec::new());
    match actor.plan(&add("app\u{2}DEFAULT", "v1", 4)) {
        StoreOp::Put { key, content, md5, history_id, history_table_id } => {
            assert_eq!(key, app_key());
            assert_eq!(content.as_str(), "v1");
            assert_eq!(md5.as_str(), MD5_V1);
            assert_eq!((history_id, history_table_id), (4, None));
        }
        _ => panic!("no write was planned"),
    }
    assert_eq!(cached(&actor, &app_key()), None);
    actor.apply(add("app\u{2}DEFAULT", "v1", 4));
    assert!(matches!(actor.plan(&add("app\u{2}DEFAULT", "v1", 5)), StoreOp::Keep));
    assert!(matches!(actor.plan(&add("app\u{2}DEFAULT", "v2", 5)), StoreOp::Put { .. }));
    assert!(matches!(
        actor.plan(&ConfigRaftCmd::ConfigRemove { key: "app\u{2}DEFAULT".to_owned() }),
        StoreOp::Delete { ref key } if *key == app_key()
    ));
    assert!(matches!(
        actor.plan(&ConfigRaftCmd::ApplySnaphot { records: Vec::new() }),
        StoreOp::Keep
    ));
    assert_eq!(cached(&actor, &app_key()), Some(("v1".to_owned(), MD5_V1.to_owned())));
}

#[test]
fn write_of_a_value_with_a_known_digest() {
    let mut actor = ConfigActor::new(Vec::new());
    let change = actor.set_config_value(app_key(), ConfigValue::new(text("v1")), 9, None);
    assert!(matches!(change.store, StoreOp::Put { history_id: 9, .. }));
    actor.set_tmp_value(ConfigKey::new("seed", "g", ""), ConfigValue::new(text("v2")));
    assert_eq!(
        cached(&actor, &ConfigKey::new("seed", "g", "")),
        Some(("v2".to_owned(), MD5_V2.to_owned()))
    );
    assert_eq!(actor.get_config_info_page(&query("")).0, 1);
}

#[test]
fn long_poll_hit() {
    let mut actor = ConfigActor::new(Vec::new());
    let (tx, mut rx) = channel();
    let outcome = actor.listen(vec![item(app_key(), "")], tx, 30_000);
    assert!(matches!(outcome, ListenOutcome::Parked(1)));
    assert!(matches!(rx.try_recv(), Err(TryRecvError::Empty)));
    let change = actor.apply(add("app\u{2}DEFAULT", "v2", 1));
    assert_eq!(change.woken, vec![1]);
    match rx.try_recv() {
        Ok(ListenerResult::DATA(keys)) => assert_eq!(keys, vec![app_key()]),
        _ => panic!("the waiter was not answered with the key"),
    }
}

#[test]
fn long_poll_with_a_stale_digest_is_answered_at_once() {
    let mut actor = ConfigActor::new(Vec::new());
    actor.set_config(app_key(), text("v1"), 1, None);
    let (tx, mut rx) = channel();
    let outcome = actor.listen(
        vec![item(app_key(), "stale"), item(ConfigKey::new("b", "g", ""), "")],
        tx,
        30_000,
    );
    match outcome {
        ListenOutcome::Answered(keys) => assert_eq!(keys, vec![app_key()]),
        ListenOutcome::Parked(_) => panic!("the request was parked"),
    }
    match rx.try_recv() {
        Ok(ListenerResult::DATA(keys)) => assert_eq!(keys, vec![app_key()]),
        _ => panic!("the request was not answered"),
    }
    assert_eq!(actor.listener_version(), 0);
}

#[test]
fn long_poll_for_a_missing_entry_with_a_known_digest_is_answered_at_once() {
    let mut actor = ConfigActor::new(Vec::new());
    let (tx, mut rx) = channel();
    let outcome = actor.listen(vec![item(app_key(), MD5_V1)], tx, 30_000);
    assert!(matches!(outcome, ListenOutcome::Answered(ref keys) if keys.len() == 1));
    assert!(matches!(rx.try_recv(), Ok(ListenerResult::DATA(_))));
}

#[test]
fn long_poll_timeout() {
    let mut actor = ConfigActor::new(Vec::new());
    actor.set_config(app_key(), text("v1"), 1, None);
    let now = 1_000_000;
    let (tx, mut rx) = channel();
    let outcome = actor.listen(vec![item(app_key(), MD5_V1)], tx, now + 500);
    assert!(matches!(outcome, ListenOutcome::Parked(1)));
    assert_eq!(actor.timeout_at(now + 500), Vec::<u64>::new());
    assert!(matches!(rx.try_recv(), Err(TryRecvError::Empty)));
    assert_eq!(actor.timeout_at(now + 1_000), vec![1]);
    assert!(matches!(rx.try_recv(), Ok(ListenerResult::NULL)));
    assert_eq!(actor.timeout_at(now + 1_500), Vec::<u64>::new());
}

#[test]
fn long_poll_without_a_deadline_is_answered_at_once() {
    let mut actor = ConfigActor::new(Vec::new());
    actor.set_config(app_key(), text("v1"), 1, None);
    for time in [0, -1, i64::MIN] {
        let (tx, mut rx) = channel();
        let outcome = actor.listen(vec![item(app_key(), MD5_V1)], tx, time);
        assert!(matches!(outcome, ListenOutcome::Answered(ref keys) if keys.is_empty()));
        match rx.try_recv() {
            Ok(ListenerResult::DATA(keys)) => assert!(keys.is_empty()),
            _ => panic!("the request was not answered"),
        }
    }
    assert_eq!(actor.listener_version(), 0);
}

#[test]
fn heartbeat_sweeps_by_the_clock() {
    let mut actor = ConfigActor::new(Vec::new());
    let (tx, mut rx) = channel();
    actor.listen(vec![item(app_key(), "")], tx, 1);
    let (tx2, mut rx2) = channel();
    actor.listen(vec![item(app_key(), "")], tx2, i64::MAX);
    assert_eq!(actor.hb(), vec![1]);
    assert!(matches!(rx.try_recv(), Ok(ListenerResult::NULL)));
    assert!(matches!(rx2.try_recv(), Err(TryRecvError::Empty)));
}

#[test]
fn removal_empties_cache_and_index_and_tells_everyone() {
    let mut actor = ConfigActor::new(Vec::new());
    actor.set_config(app_key(), text("v1"), 1, None);
    actor.subscribe(vec![item(app_key(), MD5_V1)], text("client-a"));
    actor.subscribe(vec![item(app_key(), MD5_V1)], text("client-b"));
    let (tx, mut rx) = channel();
    actor.listen(vec![item(app_key(), MD5_V1)], tx, 30_000);
    let change = actor.del_config(app_key());
    assert!(matches!(change.store, StoreOp::Delete { ref key } if *key == app_key()));
    assert_eq!(change.woken, vec![1]);
    assert_eq!(texts(&change.notified), vec!["client-a".to_owned(), "client-b".to_owned()]);
    assert!(matches!(rx.try_recv(), Ok(ListenerResult::DATA(_))));
    assert_eq!(cached(&actor, &app_key()), None);
    assert_eq!(actor.get_config_info_page(&query("")).0, 0);
    let change = actor.set_config(app_key(), text("v1"), 2, None);
    assert_eq!(change.notified.len(), 0);
}

#[test]
fn removal_of_a_missing_key_is_no_error() {
    let mut actor = ConfigActor::new(Vec::new());
    let change = actor.apply(ConfigRaftCmd::ConfigRemove { key: "app\u{2}DEFAULT".to_owned() });
    assert!(matches!(change.store, StoreOp::Delete { ref key } if *key == app_key()));
    assert_eq!(change.woken, Vec::<u64>::new());
    let change = actor.del_config(app_key());
    assert!(matches!(change.store, StoreOp::Delete { .. }));
}

#[test]
fn subscribers_are_told_of_a_write_in_the_order_they_came() {
    let mut actor = ConfigActor::new(Vec::new());
    assert_eq!(actor.subscribe(vec![item(app_key(), "")], text("b")), Vec::<ConfigKey>::new());
    assert_eq!(actor.subscribe(vec![item(app_key(), "x")], text("a")), vec![app_key()]);
    actor.subscribe(vec![item(app_key(), "")], text("b"));
    let change = actor.set_config(app_key(), text("v1"), 1, None);
    assert_eq!(texts(&change.notified), vec!["b".to_owned(), "a".to_owned()]);
    actor.remove_subscribe(vec![item(app_key(), "")], text("b"));
    let change = actor.set_config(app_key(), text("v2"), 2, None);
    assert_eq!(texts(&change.notified), vec!["a".to_owned()]);
    actor.remove_subscribe_client(text("a"));
    let change = actor.set_config(app_key(), text("v3"), 3, None);
    assert_eq!(change.notified.len(), 0);
}

#[test]
fn snapshot_makes_cache_and_index_anew() {
    let mut actor = ConfigActor::new(vec![StoredConfig {
        data_id: "old".to_owned(),
        group: "g".to_owned(),
        tenant: "".to_owned(),
        content: Some("v1".to_owned()),
    }]);
    actor.set_tmp_config(ConfigKey::new("seed", "g", ""), text("x"));
    assert_eq!(actor.get_config_info_page(&query("")).0, 1);
    let change = actor.apply(ConfigRaftCmd::ApplySnaphot {
        records: vec![
            StoredConfig {
                data_id: "b".to_owned(),
                group: "g".to_owned(),
                tenant: "t".to_owned(),
                content: Some("v1".to_owned()),
            },
            StoredConfig {
                data_id: "a".to_owned(),
                group: "g".to_owned(),
                tenant: "t".to_owned(),
                content: None,
            },
            StoredConfig {
                data_id: "b".to_owned(),
                group: "g".to_owned(),
                tenant: "t".to_owned(),
                content: Some("v2".to_owned()),
            },
        ],
    });
    assert!(matches!(change.store, StoreOp::Keep));
    assert_eq!(cached(&actor, &ConfigKey::new("old", "g", "")), None);
    assert_eq!(cached(&actor, &ConfigKey::new("seed", "g", "")), None);
    assert_eq!(
        cached(&actor, &ConfigKey::new("b", "g", "t")),
        Some(("v2".to_owned(), MD5_V2.to_owned()))
    );
    assert_eq!(
        cached(&actor, &ConfigKey::new("a", "g", "t")),
        Some(("".to_owned(), "d41d8cd98f00b204e9800998ecf8427e".to_owned()))
    );
    let (size, page) = actor.get_config_info_page(&query("t"));
    assert_eq!(size, 2);
    assert_eq!(page[0].data_id.as_str(), "a");
    assert_eq!(page[1].data_id.as_str(), "b");
}

#[test]
fn replay_of_the_log_arrives_where_the_live_node_is() {
    let log = || {
        vec![
            add("a\u{2}g", "v1", 1),
            add("b\u{2}g\u{2}t", "v1", 2),
            add("a\u{2}g", "v2", 3),
            ConfigRaftCmd::ConfigRemove { key: "b\u{2}g\u{2}t".to_owned() },
            add("c\u{2}g", "v1", 4),
            add("c\u{2}g", "v1", 5),
        ]
    };
    let mut live = ConfigActor::new(Vec::new());
    let mut replay = ConfigActor::new(Vec::new());
    for (i, cmd) in log().into_iter().enumerate() {
        if i == 2 {
            live.subscribe(vec![item(ConfigKey::new("a", "g", ""), "")], text("client"));
            let (tx, _rx) = channel();
            live.listen(vec![item(ConfigKey::new("a", "g", ""), MD5_V1)], tx, 10);
        }
        live.apply(cmd);
    }
    for cmd in log() {
        replay.apply(cmd);
    }
    for key in [
        ConfigKey::new("a", "g", ""),
        ConfigKey::new("b", "g", "t"),
        ConfigKey::new("c", "g", ""),
    ] {
        assert_eq!(cached(&live, &key), cached(&replay, &key));
    }
    let mut all = query("");
    all.query_context = true;
    let (live_size, live_page) = live.get_config_info_page(&all);
    let (replay_size, replay_page) = replay.get_config_info_page(&all);
    assert_eq!(live_size, 2);
    assert_eq!(live_size, replay_size);
    let names = |p: &[rnacos::config::config_core::ConfigInfoDto]| {
        p.iter().map(|d| d.data_id.as_ref().clone()).collect::<Vec<String>>()
    };
    assert_eq!(names(&live_page), vec!["a".to_owned(), "c".to_owned()]);
    assert_eq!(names(&live_page), names(&replay_page));
}

#[test]
fn paged_query_orders_filters_and_cuts() {
    let mut actor = ConfigActor::new(Vec::new());
    let mut id = 0;
    for (d, g, t) in [
        ("web.yaml", "prod", ""),
        ("db.yaml", "prod", ""),
        ("web.yaml", "dev", ""),
        ("cache.yaml", "dev", ""),
        ("web.yaml", "dev", "other"),
    ] {
        id += 1;
        actor.set_config(ConfigKey::new(d, g, t), text("v1"), id, None);
    }
    let listing = |p: &ConfigQueryParam, actor: &ConfigActor| {
        let (size, page) = actor.get_config_info_page(p);
        let rows = page
            .iter()
            .map(|i| format!("{}/{}", i.group, i.data_id))
            .collect::<Vec<String>>();
        (size, rows)
    };
    let mut p = query("");
    assert_eq!(
        listing(&p, &actor),
        (
            4,
            vec![
                "dev/cache.yaml".to_owned(),
                "dev/web.yaml".to_owned(),
                "prod/db.yaml".to_owned(),
                "prod/web.yaml".to_owned(),
            ]
        )
    );
    p.offset = 1;
    p.limit = 2;
    assert_eq!(
        listing(&p, &actor),
        (4, vec!["dev/web.yaml".to_owned(), "prod/db.yaml".to_owned()])
    );
    p.offset = 3;
    p.limit = usize::MAX;
    assert_eq!(listing(&p, &actor), (4, vec!["prod/web.yaml".to_owned()]));
    p.offset = 9;
    assert_eq!(listing(&p, &actor), (4, Vec::<String>::new()));
    let mut p = query("");
    p.like_data_id = Some("web".to_owned());
    p.like_group = Some("".to_owned());
    assert_eq!(
        listing(&p, &actor),
        (2, vec!["dev/web.yaml".to_owned(), "prod/web.yaml".to_owned()])
    );
    p.like_group = Some("ro".to_owned());
    assert_eq!(listing(&p, &actor), (1, vec!["prod/web.yaml".to_owned()]));
    assert_eq!(listing(&query("other"), &actor), (1, vec!["dev/web.yaml".to_owned()]));
    assert_eq!(listing(&query("none"), &actor), (0, Vec::<String>::new()));
}

#[test]
fn paged_query_shows_content_on_demand() {
    let mut actor = ConfigActor::new(Vec::new());
    actor.set_config(app_key(), text("v1"), 1, None);
    let (_, page) = actor.get_config_info_page(&query(""));
    assert!(page[0].content.is_none() && page[0].md5.is_none());
    let mut p = query("");
    p.query_context = true;
    let (_, page) = actor.get_config_info_page(&p);
    assert_eq!(page[0].content.as_ref().map(|c| c.as_str()), Some("v1"));
    assert_eq!(page[0].md5.as_ref().map(|c| c.as_str()), Some(MD5_V1));
}

fn history_record(id: i64, data_id: &str, content: &str) -> ConfigHistoryRecord {
    ConfigHistoryRecord {
        id: Some(id),
        tenant: "t".to_owned(),
        group: "g".to_owned(),
        data_id: data_id.to_owned(),
        content: Some(content.to_owned()),
        last_time: Some(90 + id),
    }
}

fn history_query(data_id: &str, offset: usize, limit: usize) -> ConfigHistoryParam {
    ConfigHistoryParam {
        tenant: "t".to_owned(),
        group: "g".to_owned(),
        data_id: data_id.to_owned(),
        offset,
        limit,
    }
}

#[test]
fn history_page_shows_the_entries_of_one_key() {
    let history = || {
        vec![
            history_record(5, "d", "v5"),
            history_record(4, "other", "x"),
            history_record(3, "d", "v3"),
            history_record(2, "d", "v2"),
            history_record(1, "other", "y"),
        ]
    };
    let (size, page) = ConfigActor::get_history_info_page(&history_query("d", 0, 10), history());
    assert_eq!(size, 3);
    assert_eq!(page.iter().map(|d| d.id).collect::<Vec<_>>(), vec![Some(5), Some(3), Some(2)]);
    assert_eq!(page[0].tenant.as_deref(), Some("t"));
    assert_eq!(page[0].group.as_deref(), Some("g"));
    assert_eq!(page[0].data_id.as_deref(), Some("d"));
    assert_eq!(page[0].content.as_deref(), Some("v5"));
    assert_eq!(page[0].modified_time, Some(95));
    let (size, page) = ConfigActor::get_history_info_page(&history_query("d", 1, 1), history());
    assert_eq!(size, 3);
    assert_eq!(page.iter().map(|d| d.id).collect::<Vec<_>>(), vec![Some(3)]);
    let (size, page) = ConfigActor::get_history_info_page(&history_query("d", 3, 5), history());
    assert_eq!((size, page.len()), (3, 0));
    let (size, page) =
        ConfigActor::get_history_info_page(&history_query("d", 2, usize::MAX), history());
    assert_eq!(size, 3);
    assert_eq!(page.iter().map(|d| d.id).collect::<Vec<_>>(), vec![Some(2)]);
    let (size, page) = ConfigActor::get_history_info_page(&history_query("none", 0, 5), history());
    assert_eq!((size, page.len()), (0, 0));
}

#[test]
fn requests_without_consensus_are_served() {
    let mut actor = ConfigActor::new(Vec::new());
    assert!(matches!(actor.handle(ConfigCmd::GET(app_key())), ConfigResult::NULL));
    assert!(matches!(
        actor.handle(ConfigCmd::SetTmpValue(app_key(), text("v1"))),
        ConfigResult::NULL
    ));
    match actor.handle(ConfigCmd::GET(app_key())) {
        ConfigResult::DATA(content, md5) => {
            assert_eq!(content.as_str(), "v1");
            assert_eq!(md5.as_str(), MD5_V1);
        }
        _ => panic!("no entry"),
    }
    match actor.handle(ConfigCmd::Subscribe(vec![item(app_key(), "old")], text("c"))) {
        ConfigResult::ChangeKey(keys) => assert_eq!(keys, vec![app_key()]),
        _ => panic!("no change"),
    }
    assert!(matches!(
        actor.handle(ConfigCmd::Subscribe(vec![item(app_key(), MD5_V1)], text("c"))),
        ConfigResult::NULL
    ));
    let (tx, mut rx) = channel();
    assert!(matches!(
        actor.handle(ConfigCmd::LISTENER(vec![item(app_key(), "old")], tx, 100)),
        ConfigResult::NULL
    ));
    assert!(matches!(rx.try_recv(), Ok(ListenerResult::DATA(_))));
    assert!(matches!(
        actor.handle(ConfigCmd::QueryPageInfo(Box::new(query("")))),
        ConfigResult::ConfigInfoPage(0, _)
    ));
    assert!(matches!(
        actor.handle(ConfigCmd::QueryHistoryPageInfo(
            Box::new(history_query("d", 0, 5)),
            vec![history_record(1, "d", "v1")]
        )),
        ConfigResult::ConfigHistoryInfoPage(1, _)
    ));
    assert!(matches!(
        actor.handle(ConfigCmd::RemoveSubscribe(vec![item(app_key(), "")], text("c"))),
        ConfigResult::NULL
    ));
    assert!(matches!(
        actor.handle(ConfigCmd::RemoveSubscribeClient(text("c"))),
        ConfigResult::NULL
    ));
}

#[test]
fn writes_become_requests_to_the_log() {
    let key = ConfigKey::new("app", "DEFAULT", "dev");
    assert!(ConfigAsyncCmd::Add(key.clone(), text("v")).needs_history_id());
    assert!(!ConfigAsyncCmd::Delete(key.clone()).needs_history_id());
    match raft_request(ConfigAsyncCmd::Add(key.clone(), text("v")), Some((8, Some(2)))) {
        Some(ClientRequest::ConfigSet { key, value, history_id, history_table_id }) => {
            assert_eq!(key, "app\u{2}DEFAULT\u{2}dev");
            assert_eq!(value.as_str(), "v");
            assert_eq!((history_id, history_table_id), (8, Some(2)));
        }
        _ => panic!("no write"),
    }
    assert!(raft_request(ConfigAsyncCmd::Add(key.clone(), text("v")), None).is_none());
    match raft_request(ConfigAsyncCmd::Delete(key), None) {
        Some(ClientRequest::ConfigRemove { key }) => assert_eq!(key, "app\u{2}DEFAULT\u{2}dev"),
        _ => panic!("no removal"),
    }
}
