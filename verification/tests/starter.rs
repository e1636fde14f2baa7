use rnacos::config::model::ClientRequest;
use rnacos::starter::{
    auto_init_raft, auto_init_refresh, auto_join_raft, build_raft, AppSysConfig, AutoInitStep,
    InitialState, RaftStartup, RouterRequest,
};

fn options(auto_init: bool, join_addr: &str) -> AppSysConfig {
    AppSysConfig {
        raft_node_id: 3,
        raft_node_addr: "10.0.0.3:9848".to_owned(),
        raft_auto_init: auto_init,
        raft_join_addr: join_addr.to_owned(),
        config_db_dir: "db".to_owned(),
    }
}

fn log(term: u64, index: u64, members: usize) -> InitialState {
    InitialState { last_log_term: term, last_log_index: index, members }
}

#[test]
fn consensus_settings_are_accepted() {
    let plan = build_raft(&options(false, ""));
    assert_eq!(plan.config.cluster_name, "rnacos raft");
    assert_eq!(plan.config.heartbeat_interval, 500);
    assert_eq!(plan.config.election_timeout_min, 1500);
    assert_eq!(plan.config.election_timeout_max, 3000);
    assert_eq!(plan.settings.cluster_name, "rnacos raft");
    assert_eq!(plan.settings.heartbeat_interval, 500);
    assert_eq!(plan.settings.election_timeout_min, 1500);
    assert_eq!(plan.settings.election_timeout_max, 3000);
    assert_eq!(plan.startup, RaftStartup::Stay);
}

#[test]
fn founding_comes_before_joining() {
    assert_eq!(build_raft(&options(true, "")).startup, RaftStartup::AutoInit);
    assert_eq!(build_raft(&options(true, "10.0.0.1:9848")).startup, RaftStartup::AutoInit);
    assert_eq!(build_raft(&options(false, "10.0.0.1:9848")).startup, RaftStartup::Join);
}

#[test]
fn founder_with_an_empty_log_makes_a_cluster_of_itself() {
    match auto_init_raft(&log(0, 0, 0), &options(true, "")) {
        AutoInitStep::Initialize { members, request } => {
            assert_eq!(members, vec![3]);
            match request {
                ClientRequest::NodeAddr { id, addr } => {
                    assert_eq!(id, 3);
                    assert_eq!(addr.as_str(), "10.0.0.3:9848");
                }
                _ => panic!("not an address"),
            }
        }
        _ => panic!("no cluster was made"),
    }
}

#[test]
fn founder_alone_in_its_cluster_waits_for_the_leader() {
    assert!(matches!(
        auto_init_raft(&log(1, 4, 1), &options(true, "")),
        AutoInitStep::AwaitLeader { settle_ms: 500 }
    ));
    assert!(matches!(
        auto_init_raft(&log(0, 4, 0), &options(true, "")),
        AutoInitStep::AwaitLeader { settle_ms: 500 }
    ));
    assert!(matches!(auto_init_raft(&log(1, 4, 2), &options(true, "")), AutoInitStep::Done));
}

#[test]
fn only_the_leader_refreshes_its_address() {
    assert!(matches!(
        auto_init_refresh(Some(3), &options(true, "")),
        Some(ClientRequest::NodeAddr { id: 3, .. })
    ));
    assert!(auto_init_refresh(Some(4), &options(true, "")).is_none());
    assert!(auto_init_refresh(None, &options(true, "")).is_none());
}

#[test]
fn joiner_with_an_empty_log_asks_to_be_let_in() {
    let plan = auto_join_raft(&log(0, 0, 0), &options(false, "10.0.0.1:9848")).expect("a plan");
    assert_eq!(plan.settle_ms, 500);
    assert_eq!(plan.join_addr.as_str(), "10.0.0.1:9848");
    assert_eq!(plan.type_tag, "RaftRouteRequest");
    match plan.request {
        RouterRequest::JoinNode { node_id, node_addr } => {
            assert_eq!(node_id, 3);
            assert_eq!(node_addr.as_str(), "10.0.0.3:9848");
        }
    }
    assert!(auto_join_raft(&log(2, 9, 3), &options(false, "10.0.0.1:9848")).is_none());
    assert!(auto_join_raft(&log(0, 1, 0), &options(false, "10.0.0.1:9848")).is_none());
}
