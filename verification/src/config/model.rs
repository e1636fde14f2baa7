//! The commands of the configuration store as the consensus log carries
//! them, and the requests that become such commands.

use std::sync::Arc;
use vstd::prelude::*;

verus! {

/// A request to the consensus log.
pub enum ClientRequest {
    /// The address under which a node of the cluster is reached.
    NodeAddr { id: u64, addr: Arc<String> },
    /// A write of a configuration entry, with the history id that the leader
    /// gave it.
    ConfigSet { key: String, value: Arc<String>, history_id: u64, history_table_id: Option<u64> },
    /// The removal of a configuration entry.
    ConfigRemove { key: String },
}

/// A request to the consensus log, over texts.
pub enum ClientRequestSpec {
    NodeAddr { id: u64, addr: Seq<char> },
    ConfigSet { key: Seq<char>, value: Seq<char>, history_id: u64, history_table_id: Option<u64> },
    ConfigRemove { key: Seq<char> },
}

impl View for ClientRequest {
    type V = ClientRequestSpec;

    open spec fn view(&self) -> ClientRequestSpec {
        match self {
            ClientRequest::NodeAddr { id, addr } => ClientRequestSpec::NodeAddr {
                id: *id,
                addr: addr@,
            },
            ClientRequest::ConfigSet {
                key,
                value,
                history_id,
                history_table_id,
            } => ClientRequestSpec::ConfigSet {
                key: key@,
                value: value@,
                history_id: *history_id,
                history_table_id: *history_table_id,
            },
            ClientRequest::ConfigRemove { key } => ClientRequestSpec::ConfigRemove { key: key@ },
        }
    }
}

/// A configuration entry as the persistent store keeps it.
pub struct StoredConfig {
    pub data_id: String,
    pub group: String,
    pub tenant: String,
    pub content: Option<String>,
}

/// A stored configuration entry as texts.
pub struct StoredConfigSpec {
    pub data_id: Seq<char>,
    pub group: Seq<char>,
    pub tenant: Seq<char>,
    pub content: Option<Seq<char>>,
}

impl View for StoredConfig {
    type V = StoredConfigSpec;

    open spec fn view(&self) -> StoredConfigSpec {
        StoredConfigSpec {
            data_id: self.data_id@,
            group: self.group@,
            tenant: self.tenant@,
            content: match self.content {
                Some(c) => Some(c@),
                None => None,
            },
        }
    }
}

/// The views of a row of stored records.
pub open spec fn stored_views(s: Seq<StoredConfig>) -> Seq<StoredConfigSpec> {
    Seq::new(s.len(), |i: int| s[i]@)
}

/// A committed command, over texts.
pub enum ConfigRaftCmdSpec {
    ConfigAdd { key: Seq<char>, value: Seq<char>, history_id: u64, history_table_id: Option<u64> },
    ConfigRemove { key: Seq<char> },
    ApplySnaphot { records: Seq<StoredConfigSpec> },
}

impl View for ConfigRaftCmd {
    type V = ConfigRaftCmdSpec;

    open spec fn view(&self) -> ConfigRaftCmdSpec {
        match self {
            ConfigRaftCmd::ConfigAdd {
                key,
                value,
                history_id,
                history_table_id,
            } => ConfigRaftCmdSpec::ConfigAdd {
                key: key@,
                value: value@,
                history_id: *history_id,
                history_table_id: *history_table_id,
            },
            ConfigRaftCmd::ConfigRemove { key } => ConfigRaftCmdSpec::ConfigRemove { key: key@ },
            ConfigRaftCmd::ApplySnaphot { records } => ConfigRaftCmdSpec::ApplySnaphot {
                records: stored_views(records@),
            },
        }
    }
}

/// A committed command for the configuration store. Keys travel as their
/// canonical text.
pub enum ConfigRaftCmd {
    ConfigAdd { key: String, value: Arc<String>, history_id: u64, history_table_id: Option<u64> },
    ConfigRemove { key: String },
    /// A snapshot was installed: the store is to be read anew. The command
    /// comes with what a full scan of the persistent store gave.
    ApplySnaphot { records: Vec<StoredConfig> },
}

} // verus!
