use rnacos::config::config_core::ConfigKey;
use rnacos::config::listener::{ConfigListener, ListenerResult};
use rnacos::config::wire::ListenerItem;
use std::sync::Arc;
use tokio::sync::oneshot::{channel, error::TryRecvError, Receiver};

fn item(data_id: &str, md5: &str) -> ListenerItem {
    ListenerItem::new(ConfigKey::new(data_id, "DEFAULT", ""), Arc::new(md5.to_owned()))
}

fn park(engine: &mut ConfigListener, data_ids: &[&str], time: i64) -> Receiver<ListenerResult> {
    let (tx, rx) = channel();
    let items = data_ids.iter().map(|d| item(d, "m")).collect();
    engine.add(items, tx, time);
    rx
}

fn is_null(r: Result<ListenerResult, TryRecvError>) -> bool {
    matches!(r, Ok(ListenerResult::NULL))
}

fn data_of(r: Result<ListenerResult, TryRecvError>) -> Vec<ConfigKey> {
    match r {
        Ok(ListenerResult::DATA(keys)) => keys,
        _ => panic!("no change set was delivered"),
    }
}

#[test]
fn new_engine_is_empty() {
    let engine = ConfigListener::new();
    assert_eq!(engine.version(), 0);
    assert_eq!(engine.parked(), 0);
}

#[test]
fn waiter_ids_count_up_from_one() {
    let mut engine = ConfigListener::new();
    let _a = park(&mut engine, &["a"], 100);
    assert_eq!(engine.version(), 1);
    let _b = park(&mut engine, &["b"], 100);
    assert_eq!(engine.version(), 2);
    assert_eq!(engine.parked(), 2);
}

#[test]
fn change_wakes_the_waiters_of_the_key_with_the_key() {
    let mut engine = ConfigListener::new();
    let mut a = park(&mut engine, &["app"], 30_000);
    let mut b = park(&mut engine, &["other"], 30_000);
    let mut c = park(&mut engine, &["app", "other"], 30_000);
    let woken = engine.notify(ConfigKey::new("app", "DEFAULT", ""));
    assert_eq!(woken, vec![1, 3]);
    assert_eq!(data_of(a.try_recv()), vec![ConfigKey::new("app", "DEFAULT", "")]);
    assert_eq!(data_of(c.try_recv()), vec![ConfigKey::new("app", "DEFAULT", "")]);
    assert!(matches!(b.try_recv(), Err(TryRecvError::Empty)));
    assert_eq!(engine.parked(), 1);
}

#[test]
fn change_of_an_unwatched_key_wakes_nobody() {
    let mut engine = ConfigListener::new();
    let mut a = park(&mut engine, &["app"], 30_000);
    let woken = engine.notify(ConfigKey::new("app", "DEFAULT", "dev"));
    assert_eq!(woken, Vec::<u64>::new());
    assert!(matches!(a.try_recv(), Err(TryRecvError::Empty)));
    assert_eq!(engine.parked(), 1);
}

#[test]
fn deadline_wakes_with_the_empty_result() {
    let mut engine = ConfigListener::new();
    let mut a = park(&mut engine, &["app"], 1_500);
    assert_eq!(engine.timeout_at(1_000), Vec::<u64>::new());
    assert_eq!(engine.timeout_at(1_500), Vec::<u64>::new());
    assert!(matches!(a.try_recv(), Err(TryRecvError::Empty)));
    assert_eq!(engine.timeout_at(1_501), vec![1]);
    assert!(is_null(a.try_recv()));
    assert_eq!(engine.parked(), 0);
}

#[test]
fn sweep_takes_the_deadlines_in_ascending_order() {
    let mut engine = ConfigListener::new();
    let _a = park(&mut engine, &["a"], 300);
    let _b = park(&mut engine, &["b"], 100);
    let _c = park(&mut engine, &["c"], 200);
    let _d = park(&mut engine, &["d"], 100);
    let _e = park(&mut engine, &["e"], 400);
    assert_eq!(engine.timeout_at(301), vec![2, 4, 3, 1]);
    assert_eq!(engine.parked(), 1);
    assert_eq!(engine.timeout_at(1_000), vec![5]);
}

#[test]
fn a_waiter_woken_by_a_change_is_not_woken_by_its_deadline() {
    let mut engine = ConfigListener::new();
    let mut a = park(&mut engine, &["app"], 100);
    assert_eq!(engine.notify(ConfigKey::new("app", "DEFAULT", "")), vec![1]);
    assert_eq!(data_of(a.try_recv()).len(), 1);
    assert_eq!(engine.timeout_at(1_000), Vec::<u64>::new());
    assert!(matches!(a.try_recv(), Err(TryRecvError::Closed)));
}

#[test]
fn a_waiter_woken_by_its_deadline_is_not_woken_by_a_change() {
    let mut engine = ConfigListener::new();
    let mut a = park(&mut engine, &["app"], 100);
    assert_eq!(engine.timeout_at(1_000), vec![1]);
    assert!(is_null(a.try_recv()));
    assert_eq!(engine.notify(ConfigKey::new("app", "DEFAULT", "")), Vec::<u64>::new());
    assert!(matches!(a.try_recv(), Err(TryRecvError::Closed)));
}

#[test]
fn a_waiter_of_two_keys_is_woken_by_the_first_change_only() {
    let mut engine = ConfigListener::new();
    let mut a = park(&mut engine, &["x", "y"], 100);
    assert_eq!(engine.notify(ConfigKey::new("y", "DEFAULT", "")), vec![1]);
    assert_eq!(data_of(a.try_recv()), vec![ConfigKey::new("y", "DEFAULT", "")]);
    assert_eq!(engine.notify(ConfigKey::new("x", "DEFAULT", "")), Vec::<u64>::new());
}

#[test]
fn a_waiter_that_names_a_key_twice_is_woken_once() {
    let mut engine = ConfigListener::new();
    let mut a = park(&mut engine, &["x", "x"], 100);
    assert_eq!(engine.notify(ConfigKey::new("x", "DEFAULT", "")), vec![1]);
    assert_eq!(data_of(a.try_recv()).len(), 1);
}

#[test]
fn a_waiter_whose_client_is_gone_is_still_taken_off() {
    let mut engine = ConfigListener::new();
    let a = park(&mut engine, &["app"], 100);
    drop(a);
    assert_eq!(engine.timeout_at(1_000), vec![1]);
    assert_eq!(engine.parked(), 0);
}

#[test]
fn sweep_takes_ten_thousand_deadlines_at_most() {
    let mut engine = ConfigListener::new();
    let mut sinks = Vec::new();
    for t in 0..10_003i64 {
        sinks.push(park(&mut engine, &["app"], t));
    }
    let first = engine.timeout_at(1_000_000);
    assert_eq!(first.len(), 10_000);
    assert_eq!(first[0], 1);
    assert_eq!(first[9_999], 10_000);
    assert_eq!(engine.parked(), 3);
    assert!(matches!(sinks[10_000].try_recv(), Err(TryRecvError::Empty)));
    let second = engine.timeout_at(1_000_000);
    assert_eq!(second, vec![10_001, 10_002, 10_003]);
    assert!(is_null(sinks[10_000].try_recv()));
    assert_eq!(engine.timeout_at(1_000_000), Vec::<u64>::new());
}

#[test]
fn sweep_by_the_clock_leaves_a_far_deadline_alone() {
    let mut engine = ConfigListener::new();
    let mut a = park(&mut engine, &["app"], i64::MAX);
    let mut b = park(&mut engine, &["app"], 1);
    assert_eq!(engine.timeout(), vec![2]);
    assert!(is_null(b.try_recv()));
    assert!(matches!(a.try_recv(), Err(TryRecvError::Empty)));
}
