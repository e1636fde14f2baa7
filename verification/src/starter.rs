//! What a node decides when it starts: the settings of the consensus layer,
//! and whether the node founds a cluster, asks to join one, or waits.

use std::sync::Arc;
use vstd::prelude::*;
use crate::config::model::{ClientRequest, ClientRequestSpec};

verus! {

/// The interval of the leader's heartbeat, in milliseconds.
pub const RAFT_HEARTBEAT_MS: u64 = 500;

/// The lower bound of the election timeout, in milliseconds.
pub const RAFT_ELECTION_TIMEOUT_MIN_MS: u64 = 1500;

/// The upper bound of the election timeout, in milliseconds.
pub const RAFT_ELECTION_TIMEOUT_MAX_MS: u64 = 3000;

/// The time a node lets its own network settle before it asks to join a
/// cluster or looks for the leader, in milliseconds.
pub const RAFT_SETTLE_MS: u64 = 500;

/// The number of connections to peers that may be open at a time.
pub const CONNECTION_CAPACITY: usize = 60;

/// The cache of the persistent store, in bytes.
pub const DB_CACHE_CAPACITY: u64 = 10 * 1024 * 1024;

/// The options that the coordination core reads.
pub struct AppSysConfig {
    /// The id of the node in the cluster.
    pub raft_node_id: u64,
    /// The address under which the peers reach the node.
    pub raft_node_addr: String,
    /// Whether the node founds a cluster of its own when its log is empty.
    pub raft_auto_init: bool,
    /// The address of a node of the cluster to join; empty for none.
    pub raft_join_addr: String,
    /// The directory of the persistent store.
    pub config_db_dir: String,
}

/// The settings of the consensus layer as `async_raft_ext` keeps them,
/// carried through as they are.
#[verifier::external_type_specification]
#[verifier::external_body]
pub struct ExRaftConfig(async_raft_ext::Config);

/// The ground on which `async_raft_ext` refuses settings.
#[verifier::external_type_specification]
#[verifier::external_body]
pub struct ExRaftConfigError(async_raft_ext::error::ConfigError);

/// The settings of the consensus layer that the node chooses.
pub struct RaftSettings {
    pub cluster_name: String,
    /// The interval of the leader's heartbeat, in milliseconds.
    pub heartbeat_interval: u64,
    /// The bounds of the election timeout, in milliseconds.
    pub election_timeout_min: u64,
    pub election_timeout_max: u64,
}

/// The settings that the consensus layer makes of a cluster name, a
/// heartbeat interval and the bounds of the election timeout, where it
/// accepts them: those four as given, everything else at the default of
/// `async_raft_ext`.
pub uninterp spec fn raft_config_of(
    cluster_name: Seq<char>,
    heartbeat_interval: u64,
    election_timeout_min: u64,
    election_timeout_max: u64,
) -> async_raft_ext::Config;

/// `Config::build` starts a builder for the named cluster, its setters take
/// the heartbeat interval and the bounds of the election timeout, and
/// `validate` makes the settings of them. It refuses them exactly when the
/// lower bound of the election timeout is not below the upper one: the one
/// other ground, a payload limit of zero, cannot arise, since the builder
/// keeps the default limit. What it makes depends on the four values
/// alone, so it is named: `raft_config_of`.
#[verifier::external_body]
fn build_config(settings: &RaftSettings) -> (r: Result<
    async_raft_ext::Config,
    async_raft_ext::error::ConfigError,
>)
    ensures
        r is Ok <==> settings.election_timeout_min < settings.election_timeout_max,
        r matches Ok(config) ==> config == raft_config_of(
            settings.cluster_name@,
            settings.heartbeat_interval,
            settings.election_timeout_min,
            settings.election_timeout_max,
        ),
{
    async_raft_ext::Config::build(settings.cluster_name.clone()).heartbeat_interval(
        settings.heartbeat_interval,
    ).election_timeout_min(settings.election_timeout_min).election_timeout_max(
        settings.election_timeout_max,
    ).validate()
}

/// The name of the cluster in the settings of the consensus layer.
pub open spec fn cluster_name() -> Seq<char> {
    "rnacos raft"@
}

/// The settings of the consensus layer: a heartbeat every half second, an
/// election after one and a half to three seconds without one.
pub fn raft_settings() -> (r: RaftSettings)
    ensures
        r.cluster_name@ == cluster_name(),
        r.heartbeat_interval == RAFT_HEARTBEAT_MS,
        r.election_timeout_min == RAFT_ELECTION_TIMEOUT_MIN_MS,
        r.election_timeout_max == RAFT_ELECTION_TIMEOUT_MAX_MS,
{
    RaftSettings {
        cluster_name: "rnacos raft".to_owned(),
        heartbeat_interval: RAFT_HEARTBEAT_MS,
        election_timeout_min: RAFT_ELECTION_TIMEOUT_MIN_MS,
        election_timeout_max: RAFT_ELECTION_TIMEOUT_MAX_MS,
    }
}

/// What a node does about its cluster when it starts.
#[derive(Debug, Clone, Copy, PartialEq, Eq, Structural)]
pub enum RaftStartup {
    /// Found a cluster of its own, if its log is empty.
    AutoInit,
    /// Ask a node of a cluster to be let in, if its log is empty.
    Join,
    /// Wait to be told.
    Stay,
}

/// The settings of the consensus layer, as chosen and as the consensus
/// layer made them, with the node's start-up mode.
pub struct RaftPlan {
    pub settings: RaftSettings,
    pub config: async_raft_ext::Config,
    pub startup: RaftStartup,
}

/// The start-up mode that the options ask for: founding a cluster comes
/// before joining one.
pub open spec fn startup_of(auto_init: bool, join_addr: Seq<char>) -> RaftStartup {
    if auto_init {
        RaftStartup::AutoInit
    } else if join_addr.len() > 0 {
        RaftStartup::Join
    } else {
        RaftStartup::Stay
    }
}

/// The settings of the consensus layer and the start-up mode of the node.
/// The consensus layer accepts the settings, since the bounds of the
/// election timeout are in order, and what it makes of them is what the
/// plan holds.
pub fn build_raft(sys_config: &AppSysConfig) -> (plan: RaftPlan)
    ensures
        plan.startup == startup_of(sys_config.raft_auto_init, sys_config.raft_join_addr@),
        plan.config == raft_config_of(
            cluster_name(),
            RAFT_HEARTBEAT_MS,
            RAFT_ELECTION_TIMEOUT_MIN_MS,
            RAFT_ELECTION_TIMEOUT_MAX_MS,
        ),
        plan.settings.cluster_name@ == cluster_name(),
        plan.settings.heartbeat_interval == RAFT_HEARTBEAT_MS,
        plan.settings.election_timeout_min == RAFT_ELECTION_TIMEOUT_MIN_MS,
        plan.settings.election_timeout_max == RAFT_ELECTION_TIMEOUT_MAX_MS,
{
    let settings = raft_settings();
    let config = match build_config(&settings) {
        Ok(config) => config,
        Err(_) => unreached(),
    };
    let startup = if sys_config.raft_auto_init {
        RaftStartup::AutoInit
    } else if !sys_config.raft_join_addr.as_str().is_empty() {
        RaftStartup::Join
    } else {
        RaftStartup::Stay
    };
    RaftPlan { settings, config, startup }
}

/// What a node finds in its log when it starts.
pub struct InitialState {
    pub last_log_term: u64,
    pub last_log_index: u64,
    /// The number of members of the membership that the log holds.
    pub members: usize,
}

impl InitialState {
    /// Nothing was ever written to the log.
    pub open spec fn pristine(self) -> bool {
        self.last_log_term == 0 && self.last_log_index == 0
    }
}

/// The request that makes the address of this node known to the cluster.
pub open spec fn node_addr_request(node_id: u64, node_addr: Seq<char>) -> ClientRequestSpec {
    ClientRequestSpec::NodeAddr { id: node_id, addr: node_addr }
}

/// The first step of a node that founds a cluster of its own.
pub enum AutoInitStep {
    /// The log is empty: make a cluster of these members, then propose the
    /// request.
    Initialize { members: Vec<u64>, request: ClientRequest },
    /// The log holds a cluster of this node alone: let the network settle
    /// for so many milliseconds, then ask who leads and go on with
    /// `auto_init_refresh`.
    AwaitLeader { settle_ms: u64 },
    /// The log holds a cluster of several nodes: nothing to do.
    Done,
}

fn own_addr_request(sys_config: &AppSysConfig) -> (r: ClientRequest)
    ensures
        r@ == node_addr_request(sys_config.raft_node_id, sys_config.raft_node_addr@),
{
    ClientRequest::NodeAddr {
        id: sys_config.raft_node_id,
        addr: Arc::new(sys_config.raft_node_addr.clone()),
    }
}

/// What a node that founds a cluster of its own does first, given what it
/// finds in its log.
pub fn auto_init_raft(state: &InitialState, sys_config: &AppSysConfig) -> (step: AutoInitStep)
    ensures
        match step {
            AutoInitStep::Initialize { members, request } => state.pristine() && members@
                == seq![sys_config.raft_node_id] && request@ == node_addr_request(
                sys_config.raft_node_id,
                sys_config.raft_node_addr@,
            ),
            AutoInitStep::AwaitLeader { settle_ms } => !state.pristine() && state.members < 2
                && settle_ms == RAFT_SETTLE_MS,
            AutoInitStep::Done => !state.pristine() && state.members >= 2,
        },
{
    if state.last_log_term == 0 && state.last_log_index == 0 {
        let mut members: Vec<u64> = Vec::new();
        members.push(sys_config.raft_node_id);
        AutoInitStep::Initialize { members, request: own_addr_request(sys_config) }
    } else if state.members < 2 {
        AutoInitStep::AwaitLeader { settle_ms: RAFT_SETTLE_MS }
    } else {
        AutoInitStep::Done
    }
}

/// What a node alone in its cluster proposes once it knows who leads: its
/// own address, if it leads itself.
pub fn auto_init_refresh(current_leader: Option<u64>, sys_config: &AppSysConfig) -> (r: Option<
    ClientRequest,
>)
    ensures
        match r {
            Some(request) => current_leader == Some(sys_config.raft_node_id) && request@
                == node_addr_request(sys_config.raft_node_id, sys_config.raft_node_addr@),
            None => current_leader != Some(sys_config.raft_node_id),
        },
{
    match current_leader {
        Some(node_id) => {
            if node_id == sys_config.raft_node_id {
                Some(own_addr_request(sys_config))
            } else {
                None
            }
        },
        None => None,
    }
}

/// A request from node to node about the membership of the cluster.
pub enum RouterRequest {
    /// The node with this id and address asks to be let into the cluster.
    JoinNode { node_id: u64, node_addr: Arc<String> },
}

/// How a node asks to be let into a cluster.
pub struct JoinPlan {
    /// The time to let the node's own network settle first, in milliseconds.
    pub settle_ms: u64,
    /// The address to send the request to.
    pub join_addr: Arc<String>,
    /// The name of the request's kind in the frame that carries it.
    pub type_tag: String,
    pub request: RouterRequest,
}

/// The name under which requests about the membership travel.
pub open spec fn route_request_tag() -> Seq<char> {
    "RaftRouteRequest"@
}

/// What a node that is to join a cluster does, given what it finds in its
/// log: with an empty log it asks the node at the join address to let it
/// in; otherwise it is a member already.
pub fn auto_join_raft(state: &InitialState, sys_config: &AppSysConfig) -> (r: Option<JoinPlan>)
    ensures
        match r {
            Some(plan) => {
                &&& state.pristine()
                &&& plan.settle_ms == RAFT_SETTLE_MS
                &&& plan.join_addr@ == sys_config.raft_join_addr@
                &&& plan.type_tag@ == route_request_tag()
                &&& plan.request matches RouterRequest::JoinNode { node_id, node_addr }
                    && node_id == sys_config.raft_node_id && node_addr@
                    == sys_config.raft_node_addr@
            },
            None => !state.pristine(),
        },
{
    if state.last_log_term == 0 && state.last_log_index == 0 {
        Some(
            JoinPlan {
                settle_ms: RAFT_SETTLE_MS,
                join_addr: Arc::new(sys_config.raft_join_addr.clone()),
                type_tag: "RaftRouteRequest".to_owned(),
                request: RouterRequest::JoinNode {
                    node_id: sys_config.raft_node_id,
                    node_addr: Arc::new(sys_config.raft_node_addr.clone()),
                },
            },
        )
    } else {
        None
    }
}

} // verus!
