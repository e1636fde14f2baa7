//! Configuration keys and values, and the state machine that applies
//! committed commands to the in-memory cache.

use std::sync::Arc;
use vstd::prelude::*;
use crate::config::config_index::{
    index_added,
    index_removed,
    keys_ascend,
    lemma_index_sets,
    lemma_matching_ascends,
    ConfigQueryParam,
    TenantIndex,
};
use crate::config::config_subscribe::{Subscriber, SubscriberSpec};
use crate::config::listener::{
    resolve,
    watched_keys,
    ConfigListener,
    ListenerResult,
    ListenerResultSpec,
    ListenerSenderType,
    ListenerSpec,
};
use crate::config::model::{
    stored_views,
    ClientRequest,
    ClientRequestSpec,
    ConfigRaftCmd,
    ConfigRaftCmdSpec,
    StoredConfig,
    StoredConfigSpec,
};
use crate::config::wire::{item_views, key_views, ListenerItem, ListenerItemSpec};
use crate::keyed::{models_of, Keyed, KeyMap};
use crate::text::{chars_of, find_char, lemma_find_char, lemma_find_char_is, scan_for, share, text_of};
use crate::utils::{get_md5, md5_hex};

verus! {

/// The character that separates the fields of a key in its canonical text.
pub const KEY_SEP: char = '\u{2}';

/// The identity of a configuration entry. An empty tenant is the default
/// namespace.
#[derive(Debug, Hash)]
pub struct ConfigKey {
    pub data_id: Arc<String>,
    pub group: Arc<String>,
    pub tenant: Arc<String>,
}

/// A key as three texts.
pub struct ConfigKeySpec {
    pub data_id: Seq<char>,
    pub group: Seq<char>,
    pub tenant: Seq<char>,
}

impl ConfigKeySpec {
    /// No field holds the separator. Only such keys survive a trip through the
    /// canonical text.
    pub open spec fn plain(self) -> bool {
        &&& !self.data_id.contains(KEY_SEP)
        &&& !self.group.contains(KEY_SEP)
        &&& !self.tenant.contains(KEY_SEP)
    }

    /// The canonical text: data id, separator, group and, unless the tenant is
    /// empty, a second separator and the tenant.
    pub open spec fn text(self) -> Seq<char> {
        if self.tenant.len() == 0 {
            self.data_id + seq![KEY_SEP] + self.group
        } else {
            self.data_id + seq![KEY_SEP] + self.group + seq![KEY_SEP] + self.tenant
        }
    }

    /// The key that a text stands for: its first three separated fields, each
    /// empty where the text has no such field. Further fields are ignored.
    pub open spec fn of_text(s: Seq<char>) -> ConfigKeySpec {
        let n = s.len() as int;
        let first = find_char(s, 0, n, KEY_SEP);
        let second = if first < n {
            find_char(s, first + 1, n, KEY_SEP)
        } else {
            n
        };
        let third = if second < n {
            find_char(s, second + 1, n, KEY_SEP)
        } else {
            n
        };
        ConfigKeySpec {
            data_id: s.subrange(0, first),
            group: if first < n {
                s.subrange(first + 1, second)
            } else {
                Seq::empty()
            },
            tenant: if second < n {
                s.subrange(second + 1, third)
            } else {
                Seq::empty()
            },
        }
    }
}

impl View for ConfigKey {
    type V = ConfigKeySpec;

    open spec fn view(&self) -> ConfigKeySpec {
        ConfigKeySpec { data_id: self.data_id@, group: self.group@, tenant: self.tenant@ }
    }
}

impl Clone for ConfigKey {
    fn clone(&self) -> (r: Self)
        ensures
            r == *self,
    {
        ConfigKey {
            data_id: share(&self.data_id),
            group: share(&self.group),
            tenant: share(&self.tenant),
        }
    }
}

impl PartialEq for ConfigKey {
    fn eq(&self, other: &ConfigKey) -> (r: bool) {
        *self.data_id == *other.data_id && *self.group == *other.group && *self.tenant
            == *other.tenant
    }
}

impl vstd::std_specs::cmp::PartialEqSpecImpl for ConfigKey {
    open spec fn obeys_eq_spec() -> bool {
        true
    }

    open spec fn eq_spec(&self, other: &ConfigKey) -> bool {
        self@ == other@
    }
}

impl Eq for ConfigKey {

}

impl Keyed for ConfigKey {
    type Model = ConfigKeySpec;

    open spec fn model(&self) -> ConfigKeySpec {
        self@
    }

    fn same(&self, other: &Self) -> (r: bool) {
        self == other
    }

    fn dup(&self) -> (r: Self) {
        self.clone()
    }
}

impl ConfigKey {
    /// The key of the given data id and group in the given namespace.
    pub fn new(data_id: &str, group: &str, tenant: &str) -> (k: ConfigKey)
        ensures
            k@ == (ConfigKeySpec { data_id: data_id@, group: group@, tenant: tenant@ }),
    {
        ConfigKey {
            data_id: Arc::new(data_id.to_owned()),
            group: Arc::new(group.to_owned()),
            tenant: Arc::new(tenant.to_owned()),
        }
    }

    /// The key made of the given texts, which it keeps as they are.
    pub fn new_by_arc(data_id: Arc<String>, group: Arc<String>, tenant: Arc<String>) -> (k:
        ConfigKey)
        ensures
            k.data_id == data_id,
            k.group == group,
            k.tenant == tenant,
    {
        ConfigKey { data_id, group, tenant }
    }

    /// The canonical text of the key, under which it is stored and replicated.
    pub fn build_key(&self) -> (s: String)
        ensures
            s@ == self@.text(),
    {
        let mut s = String::new();
        s.append(self.data_id.as_str());
        s.push(KEY_SEP);
        s.append(self.group.as_str());
        if !self.tenant.as_str().is_empty() {
            s.push(KEY_SEP);
            s.append(self.tenant.as_str());
        }
        assert(s@ =~= self@.text());
        s
    }
}

impl From<&str> for ConfigKey {
    /// Reads a key back from its canonical text.
    fn from(value: &str) -> (k: ConfigKey)
        ensures
            k@ == ConfigKeySpec::of_text(value@),
    {
        let v = chars_of(value);
        let n = v.len();
        let first = scan_for(&v, 0, n, KEY_SEP);
        let data_id = text_of(&v, 0, first);
        if first == n {
            return ConfigKey {
                data_id: Arc::new(data_id),
                group: Arc::new(String::new()),
                tenant: Arc::new(String::new()),
            };
        }
        let second = scan_for(&v, first + 1, n, KEY_SEP);
        let group = text_of(&v, first + 1, second);
        if second == n {
            return ConfigKey {
                data_id: Arc::new(data_id),
                group: Arc::new(group),
                tenant: Arc::new(String::new()),
            };
        }
        let third = scan_for(&v, second + 1, n, KEY_SEP);
        let tenant = text_of(&v, second + 1, third);
        ConfigKey { data_id: Arc::new(data_id), group: Arc::new(group), tenant: Arc::new(tenant) }
    }
}

impl vstd::std_specs::convert::FromSpecImpl<&str> for ConfigKey {
    /// The conversion is specified by the `ensures` of `from`, over views.
    open spec fn obeys_from_spec() -> bool {
        false
    }

    open spec fn from_spec(v: &str) -> ConfigKey {
        arbitrary()
    }
}

/// A key read from any text is plain.
pub proof fn lemma_of_text_plain(s: Seq<char>)
    ensures
        ConfigKeySpec::of_text(s).plain(),
{
    let n = s.len() as int;
    let first = find_char(s, 0, n, KEY_SEP);
    lemma_find_char(s, 0, n, KEY_SEP);
    let k = ConfigKeySpec::of_text(s);
    assert forall|i: int| 0 <= i < k.data_id.len() implies k.data_id[i] != KEY_SEP by {
        assert(k.data_id[i] == s[i]);
    }
    if first < n {
        let second = find_char(s, first + 1, n, KEY_SEP);
        lemma_find_char(s, first + 1, n, KEY_SEP);
        assert forall|i: int| 0 <= i < k.group.len() implies k.group[i] != KEY_SEP by {
            assert(k.group[i] == s[first + 1 + i]);
        }
        if second < n {
            let third = find_char(s, second + 1, n, KEY_SEP);
            lemma_find_char(s, second + 1, n, KEY_SEP);
            assert forall|i: int| 0 <= i < k.tenant.len() implies k.tenant[i] != KEY_SEP by {
                assert(k.tenant[i] == s[second + 1 + i]);
            }
        }
    }
}

/// Writing a plain key as its canonical text and reading the text back gives
/// the key again, the empty tenant included.
pub proof fn law_key_round_trip(k: ConfigKeySpec)
    requires
        k.plain(),
    ensures
        ConfigKeySpec::of_text(k.text()) == k,
{
    let s = k.text();
    let n = s.len() as int;
    let d = k.data_id.len() as int;
    let g = k.group.len() as int;
    assert forall|j: int| 0 <= j < d implies s[j] != KEY_SEP by {
        assert(s[j] == k.data_id[j]);
    }
    assert(s[d] == KEY_SEP);
    lemma_find_char_is(s, 0, n, KEY_SEP, d);
    assert forall|j: int| d + 1 <= j < d + 1 + g implies s[j] != KEY_SEP by {
        assert(s[j] == k.group[j - d - 1]);
    }
    lemma_find_char_is(s, d + 1, n, KEY_SEP, d + 1 + g);
    let r = ConfigKeySpec::of_text(s);
    assert(r.data_id =~= k.data_id);
    assert(r.group =~= k.group);
    if k.tenant.len() > 0 {
        assert forall|j: int| d + g + 2 <= j < n implies s[j] != KEY_SEP by {
            assert(s[j] == k.tenant[j - d - g - 2]);
        }
        lemma_find_char_is(s, d + g + 2, n, KEY_SEP, n);
        assert(r.tenant =~= k.tenant);
    } else {
        assert(r.tenant =~= k.tenant);
    }
}

/// Two plain keys with the same canonical text are the same key.
pub proof fn lemma_text_injective(a: ConfigKeySpec, b: ConfigKeySpec)
    requires
        a.plain(),
        b.plain(),
        a.text() == b.text(),
    ensures
        a == b,
{
    law_key_round_trip(a);
    law_key_round_trip(b);
}

/// What the cache holds for a key.
pub struct ConfigValue {
    pub content: Arc<String>,
    pub md5: Arc<String>,
    /// Set on a value that was seeded locally and not yet confirmed by a
    /// committed write.
    pub tmp: bool,
}

/// A value as two texts and a flag.
pub struct ConfigValueSpec {
    pub content: Seq<char>,
    pub md5: Seq<char>,
    pub tmp: bool,
}

impl View for ConfigValue {
    type V = ConfigValueSpec;

    open spec fn view(&self) -> ConfigValueSpec {
        ConfigValueSpec { content: self.content@, md5: self.md5@, tmp: self.tmp }
    }
}

impl ConfigValueSpec {
    /// The confirmed value with the given content.
    pub open spec fn of_content(content: Seq<char>) -> ConfigValueSpec {
        ConfigValueSpec { content, md5: md5_hex(content), tmp: false }
    }

    /// The digest is that of the content.
    pub open spec fn digest_ok(self) -> bool {
        self.md5 == md5_hex(self.content)
    }
}

impl ConfigValue {
    /// A confirmed value: the content with its digest.
    pub fn new(content: Arc<String>) -> (v: ConfigValue)
        ensures
            v@ == ConfigValueSpec::of_content(content@),
            v.content == content,
    {
        let md5 = get_md5(content.as_str());
        ConfigValue { content, md5: Arc::new(md5), tmp: false }
    }
}

/// A configuration entry as a query shows it.
#[derive(Debug)]
pub struct ConfigInfoDto {
    pub tenant: Arc<String>,
    pub group: Arc<String>,
    pub data_id: Arc<String>,
    pub content: Option<Arc<String>>,
    pub md5: Option<Arc<String>>,
}

/// An answer to a query as texts.
pub struct ConfigInfoDtoSpec {
    pub tenant: Seq<char>,
    pub group: Seq<char>,
    pub data_id: Seq<char>,
    pub content: Option<Seq<char>>,
    pub md5: Option<Seq<char>>,
}

impl View for ConfigInfoDto {
    type V = ConfigInfoDtoSpec;

    open spec fn view(&self) -> ConfigInfoDtoSpec {
        ConfigInfoDtoSpec {
            tenant: self.tenant@,
            group: self.group@,
            data_id: self.data_id@,
            content: match self.content {
                Some(c) => Some(c@),
                None => None,
            },
            md5: match self.md5 {
                Some(m) => Some(m@),
                None => None,
            },
        }
    }
}

impl Default for ConfigInfoDto {
    fn default() -> (r: Self)
        ensures
            r@ == (ConfigInfoDtoSpec {
                tenant: Seq::empty(),
                group: Seq::empty(),
                data_id: Seq::empty(),
                content: None,
                md5: None,
            }),
    {
        ConfigInfoDto {
            tenant: Arc::new(String::new()),
            group: Arc::new(String::new()),
            data_id: Arc::new(String::new()),
            content: None,
            md5: None,
        }
    }
}

/// An entry of the history of a configuration entry, as the persistent
/// store keeps it.
pub struct ConfigHistoryRecord {
    pub id: Option<i64>,
    pub tenant: String,
    pub group: String,
    pub data_id: String,
    pub content: Option<String>,
    pub last_time: Option<i64>,
}

/// A paged query over the history of one configuration entry.
pub struct ConfigHistoryParam {
    pub tenant: String,
    pub group: String,
    pub data_id: String,
    /// The number of entries to skip.
    pub offset: usize,
    /// The number of entries to return at most.
    pub limit: usize,
}

impl ConfigHistoryParam {
    /// Whether the record belongs to the history that the query asks for.
    pub open spec fn matches(self, r: ConfigHistoryRecord) -> bool {
        r.tenant@ == self.tenant@ && r.group@ == self.group@ && r.data_id@ == self.data_id@
    }

    /// The records of the row that the query asks for, in order.
    pub open spec fn matching(self, records: Seq<ConfigHistoryRecord>) -> Seq<ConfigHistoryRecord>
        decreases records.len(),
    {
        if records.len() == 0 {
            Seq::empty()
        } else {
            let rest = self.matching(records.drop_last());
            if self.matches(records.last()) {
                rest.push(records.last())
            } else {
                rest
            }
        }
    }

    /// The page of a row of matches that the query asks for.
    pub open spec fn page(self, found: Seq<ConfigHistoryRecord>) -> Seq<ConfigHistoryRecord> {
        let from = if self.offset <= found.len() {
            self.offset as int
        } else {
            found.len() as int
        };
        let to = if self.offset + self.limit <= found.len() {
            self.offset + self.limit
        } else {
            found.len() as int
        };
        found.subrange(from, to)
    }
}

/// An entry of the history of a configuration entry, as a query shows it.
#[derive(Debug, Default)]
pub struct ConfigHistoryInfoDto {
    pub id: Option<i64>,
    pub tenant: Option<String>,
    pub group: Option<String>,
    pub data_id: Option<String>,
    pub content: Option<String>,
    pub modified_time: Option<i64>,
}

/// The texts of a history record, as a query shows them.
pub open spec fn history_shown(r: ConfigHistoryRecord, d: ConfigHistoryInfoDto) -> bool {
    &&& d.id == r.id
    &&& d.modified_time == r.last_time
    &&& d.tenant == Some(r.tenant)
    &&& d.group == Some(r.group)
    &&& d.data_id == Some(r.data_id)
    &&& d.content == r.content
}

/// What the entry of a key looks like in the answer to a query: the key,
/// with content and digest where the query asks for them.
pub open spec fn info_of(key: ConfigKeySpec, value: ConfigValueSpec, with_content: bool)
    -> ConfigInfoDtoSpec {
    ConfigInfoDtoSpec {
        tenant: key.tenant,
        group: key.group,
        data_id: key.data_id,
        content: if with_content {
            Some(value.content)
        } else {
            None
        },
        md5: if with_content {
            Some(value.md5)
        } else {
            None
        },
    }
}

/// The views of a row of answers.
pub open spec fn info_views(s: Seq<ConfigInfoDto>) -> Seq<ConfigInfoDtoSpec> {
    Seq::new(s.len(), |i: int| s[i]@)
}

/// The keys among the watched items whose entry is not what the watcher
/// knows: the digest differs, or there is no entry though the watcher knows
/// a digest.
pub open spec fn changed_keys(
    cache: Map<ConfigKeySpec, ConfigValueSpec>,
    items: Seq<ListenerItemSpec>,
) -> Seq<ConfigKeySpec>
    decreases items.len(),
{
    if items.len() == 0 {
        Seq::empty()
    } else {
        let rest = changed_keys(cache, items.drop_last());
        let item = items.last();
        let changed = if cache.contains_key(item.key) {
            cache[item.key].md5 != item.md5
        } else {
            item.md5.len() > 0
        };
        if changed {
            rest.push(item.key)
        } else {
            rest
        }
    }
}

/// The cache that a row of entries makes: each key with the value of its
/// last entry.
pub open spec fn cache_of(entries: Seq<(ConfigKeySpec, ConfigValueSpec)>) -> Map<
    ConfigKeySpec,
    ConfigValueSpec,
>
    decreases entries.len(),
{
    if entries.len() == 0 {
        Map::empty()
    } else {
        cache_of(entries.drop_last()).insert(entries.last().0, entries.last().1)
    }
}

/// The index that a row of entries makes: its keys, in order.
pub open spec fn index_of(entries: Seq<(ConfigKeySpec, ConfigValueSpec)>) -> Seq<ConfigKeySpec>
    decreases entries.len(),
{
    if entries.len() == 0 {
        Seq::empty()
    } else {
        index_added(index_of(entries.drop_last()), entries.last().0)
    }
}

/// What a committed command asks of the persistent store.
pub enum StoreOp {
    /// Nothing is to be written.
    Keep,
    /// The primary record of the key is to be written, and with it an entry
    /// of the key's history under the given id.
    Put {
        key: ConfigKey,
        content: Arc<String>,
        md5: Arc<String>,
        history_id: u64,
        history_table_id: Option<u64>,
    },
    /// The primary record of the key is to be removed.
    Delete { key: ConfigKey },
}

/// What is asked of the persistent store, over texts.
pub enum StoreOpSpec {
    Keep,
    Put {
        key: ConfigKeySpec,
        content: Seq<char>,
        md5: Seq<char>,
        history_id: u64,
        history_table_id: Option<u64>,
    },
    Delete { key: ConfigKeySpec },
}

impl View for StoreOp {
    type V = StoreOpSpec;

    open spec fn view(&self) -> StoreOpSpec {
        match self {
            StoreOp::Keep => StoreOpSpec::Keep,
            StoreOp::Put { key, content, md5, history_id, history_table_id } => StoreOpSpec::Put {
                key: key@,
                content: content@,
                md5: md5@,
                history_id: *history_id,
                history_table_id: *history_table_id,
            },
            StoreOp::Delete { key } => StoreOpSpec::Delete { key: key@ },
        }
    }
}

/// What a committed command asks of the surroundings of the state machine.
pub struct ConfigChange {
    /// What to write to the persistent store.
    pub store: StoreOp,
    /// The long-poll waiters that the command woke.
    pub woken: Vec<u64>,
    /// The subscribed clients that are to be told of the change.
    pub notified: Vec<Arc<String>>,
}

/// The state of the configuration state machine.
pub struct ConfigActorSpec {
    /// What is served to readers.
    pub cache: Map<ConfigKeySpec, ConfigValueSpec>,
    /// The confirmed keys, in ascending order.
    pub index: Seq<ConfigKeySpec>,
    pub listener: ListenerSpec,
    pub subscriber: SubscriberSpec,
    /// The answers given to the long-poll requests that were answered at
    /// once, in order.
    pub at_once: Seq<ListenerResultSpec>,
}

impl ConfigActorSpec {
    /// The state machine that has seen nothing.
    pub open spec fn empty() -> Self {
        ConfigActorSpec {
            cache: Map::empty(),
            index: Seq::empty(),
            listener: ListenerSpec::empty(),
            subscriber: SubscriberSpec::empty(),
            at_once: Seq::empty(),
        }
    }

    /// What holds of the state machine at all times: the index holds
    /// exactly the keys of the confirmed entries of the cache, in ascending
    /// order, and every digest is that of its content.
    pub open spec fn wf(self) -> bool {
        &&& keys_ascend(self.index)
        &&& self.index_exact()
        &&& forall|k: ConfigKeySpec| #[trigger]
            self.cache.contains_key(k) ==> self.cache[k].digest_ok()
        &&& self.listener.wf()
        &&& self.subscriber.wf()
    }

    /// The index holds exactly the keys of the confirmed entries of the cache.
    pub open spec fn index_exact(self) -> bool {
        forall|k: ConfigKeySpec|
            self.index.contains(k) <==> (#[trigger] self.cache.contains_key(k) && !self.cache[k].tmp)
    }

    /// A write of the key with this digest changes nothing: the cache holds
    /// a confirmed entry of the key with the same digest.
    pub open spec fn suppressed(self, key: ConfigKeySpec, md5: Seq<char>) -> bool {
        self.cache.contains_key(key) && !self.cache[key].tmp && self.cache[key].md5 == md5
    }

    /// The state after a committed write of the key.
    pub open spec fn set(self, key: ConfigKeySpec, value: ConfigValueSpec) -> Self {
        if self.suppressed(key, value.md5) {
            self
        } else {
            ConfigActorSpec {
                cache: self.cache.insert(key, value),
                index: index_added(self.index, key),
                listener: self.listener.notified(key),
                subscriber: self.subscriber,
                at_once: self.at_once,
            }
        }
    }

    /// What a committed write of the key asks of the persistent store.
    pub open spec fn set_op(
        self,
        key: ConfigKeySpec,
        value: ConfigValueSpec,
        history_id: u64,
        history_table_id: Option<u64>,
    ) -> StoreOpSpec {
        if self.suppressed(key, value.md5) {
            StoreOpSpec::Keep
        } else {
            StoreOpSpec::Put {
                key,
                content: value.content,
                md5: value.md5,
                history_id,
                history_table_id,
            }
        }
    }

    /// The state after a committed removal of the key.
    pub open spec fn deleted(self, key: ConfigKeySpec) -> Self {
        ConfigActorSpec {
            cache: self.cache.remove(key),
            index: index_removed(self.index, key),
            listener: self.listener.notified(key),
            subscriber: self.subscriber.without_key(key),
            at_once: self.at_once,
        }
    }

    /// The state after the key was seeded locally with a value: the cache
    /// holds the value as one that is not confirmed, and the key, confirmed
    /// no longer, leaves the index.
    pub open spec fn seeded(self, key: ConfigKeySpec, value: ConfigValueSpec) -> Self {
        ConfigActorSpec {
            cache: self.cache.insert(key, ConfigValueSpec { tmp: true, ..value }),
            index: index_removed(self.index, key),
            ..self
        }
    }

    /// The state after cache and index were made anew from a row of entries.
    pub open spec fn loaded(self, entries: Seq<(ConfigKeySpec, ConfigValueSpec)>) -> Self {
        ConfigActorSpec { cache: cache_of(entries), index: index_of(entries), ..self }
    }

    /// The waiters that a committed write of the key wakes.
    pub open spec fn set_woken(self, key: ConfigKeySpec, value: ConfigValueSpec) -> Seq<u64> {
        if self.suppressed(key, value.md5) {
            Seq::empty()
        } else {
            self.listener.notify_woken(key)
        }
    }

    /// The subscribed clients that are told of a committed write of the key.
    pub open spec fn set_notified(self, key: ConfigKeySpec, value: ConfigValueSpec) -> Seq<
        Seq<char>,
    > {
        if self.suppressed(key, value.md5) {
            Seq::empty()
        } else {
            self.subscriber.clients_of(key)
        }
    }

    /// The state after a committed command.
    pub open spec fn applied(self, cmd: ConfigRaftCmdSpec) -> Self {
        match cmd {
            ConfigRaftCmdSpec::ConfigAdd { key, value, history_id, history_table_id } => self.set(
                ConfigKeySpec::of_text(key),
                ConfigValueSpec::of_content(value),
            ),
            ConfigRaftCmdSpec::ConfigRemove { key } => self.deleted(ConfigKeySpec::of_text(key)),
            ConfigRaftCmdSpec::ApplySnaphot { records } => self.loaded(entries_of(records)),
        }
    }

    /// What a committed command asks of the persistent store.
    pub open spec fn applied_op(self, cmd: ConfigRaftCmdSpec) -> StoreOpSpec {
        match cmd {
            ConfigRaftCmdSpec::ConfigAdd {
                key,
                value,
                history_id,
                history_table_id,
            } => self.set_op(
                ConfigKeySpec::of_text(key),
                ConfigValueSpec::of_content(value),
                history_id,
                history_table_id,
            ),
            ConfigRaftCmdSpec::ConfigRemove { key } => StoreOpSpec::Delete {
                key: ConfigKeySpec::of_text(key),
            },
            ConfigRaftCmdSpec::ApplySnaphot { records } => StoreOpSpec::Keep,
        }
    }

    /// The waiters that a committed command wakes.
    pub open spec fn applied_woken(self, cmd: ConfigRaftCmdSpec) -> Seq<u64> {
        match cmd {
            ConfigRaftCmdSpec::ConfigAdd {
                key,
                value,
                history_id,
                history_table_id,
            } => self.set_woken(ConfigKeySpec::of_text(key), ConfigValueSpec::of_content(value)),
            ConfigRaftCmdSpec::ConfigRemove { key } => self.listener.notify_woken(
                ConfigKeySpec::of_text(key),
            ),
            ConfigRaftCmdSpec::ApplySnaphot { records } => Seq::empty(),
        }
    }

    /// The subscribed clients that are told of a committed command.
    pub open spec fn applied_notified(self, cmd: ConfigRaftCmdSpec) -> Seq<Seq<char>> {
        match cmd {
            ConfigRaftCmdSpec::ConfigAdd {
                key,
                value,
                history_id,
                history_table_id,
            } => self.set_notified(ConfigKeySpec::of_text(key), ConfigValueSpec::of_content(value)),
            ConfigRaftCmdSpec::ConfigRemove { key } => self.subscriber.clients_of(
                ConfigKeySpec::of_text(key),
            ),
            ConfigRaftCmdSpec::ApplySnaphot { records } => Seq::empty(),
        }
    }

    /// Whether a long-poll request for `items` with the deadline `time` is
    /// answered at once: an entry is not what the watcher knows, or the
    /// deadline is not after zero.
    pub open spec fn answers_at_once(self, items: Seq<ListenerItemSpec>, time: i64) -> bool {
        changed_keys(self.cache, items).len() > 0 || time <= 0
    }

    /// The state after a long-poll request for `items` with the deadline
    /// `time`: the request is answered at once with the changed keys, which
    /// goes on record and leaves the waiters as they are, or else it is
    /// parked.
    pub open spec fn listened(self, items: Seq<ListenerItemSpec>, time: i64) -> Self {
        if self.answers_at_once(items, time) {
            ConfigActorSpec {
                at_once: self.at_once.push(
                    ListenerResultSpec::DATA(changed_keys(self.cache, items)),
                ),
                ..self
            }
        } else {
            ConfigActorSpec { listener: self.listener.added(watched_keys(items), time), ..self }
        }
    }
}

/// The entries that stored records make, each with the digest of its
/// content. A record without content stands for an empty content.
pub open spec fn entries_of(records: Seq<StoredConfigSpec>) -> Seq<
    (ConfigKeySpec, ConfigValueSpec),
> {
    Seq::new(
        records.len(),
        |i: int|
            (
                ConfigKeySpec {
                    data_id: records[i].data_id,
                    group: records[i].group,
                    tenant: records[i].tenant,
                },
                ConfigValueSpec::of_content(
                    match records[i].content {
                        Some(c) => c,
                        None => Seq::empty(),
                    },
                ),
            ),
    )
}

/// The views of a row of entries.
pub open spec fn entry_views(s: Seq<(ConfigKey, ConfigValue)>) -> Seq<
    (ConfigKeySpec, ConfigValueSpec),
> {
    Seq::new(s.len(), |i: int| (s[i].0@, s[i].1@))
}

/// Every entry of the row is confirmed and has the digest of its content.
pub open spec fn entries_ok(entries: Seq<(ConfigKeySpec, ConfigValueSpec)>) -> bool {
    forall|i: int|
        0 <= i < entries.len() ==> (#[trigger] entries[i]).1.digest_ok() && !entries[i].1.tmp
}

/// Cache and index made from a row of good entries agree: the index holds
/// exactly the keys of the cache, all of them confirmed.
pub proof fn lemma_loaded(entries: Seq<(ConfigKeySpec, ConfigValueSpec)>)
    requires
        entries_ok(entries),
    ensures
        keys_ascend(index_of(entries)),
        forall|k: ConfigKeySpec|
            index_of(entries).contains(k) <==> #[trigger] cache_of(entries).contains_key(k),
        forall|k: ConfigKeySpec| #[trigger]
            cache_of(entries).contains_key(k) ==> cache_of(entries)[k].digest_ok() && !cache_of(
                entries,
            )[k].tmp,
    decreases entries.len(),
{
    if entries.len() > 0 {
        let r = entries.drop_last();
        assert forall|i: int| 0 <= i < r.len() implies (#[trigger] r[i]).1.digest_ok()
            && !r[i].1.tmp by {
            assert(r[i] == entries[i]);
        }
        lemma_loaded(r);
        let last = entries[entries.len() - 1];
        lemma_index_sets(index_of(r), last.0);
        assert forall|k: ConfigKeySpec|
            index_of(entries).contains(k) <==> #[trigger] cache_of(entries).contains_key(k) by {
            assert(index_of(entries).to_set().contains(k) <==> index_of(r).to_set().insert(
                last.0,
            ).contains(k));
            assert(index_of(r).contains(k) <==> cache_of(r).contains_key(k));
        }
        assert forall|k: ConfigKeySpec| #[trigger]
            cache_of(entries).contains_key(k) implies cache_of(entries)[k].digest_ok()
            && !cache_of(entries)[k].tmp by {
            if k != last.0 {
                assert(cache_of(r).contains_key(k));
            }
        }
    }
}

/// What `index_exact` says of one key.
proof fn lemma_index_exact_at(m: ConfigActorSpec, k: ConfigKeySpec)
    requires
        m.index_exact(),
    ensures
        m.index.contains(k) <==> (m.cache.contains_key(k) && !m.cache[k].tmp),
{
}

/// The rows of good entries that stored records make are good.
pub proof fn lemma_entries_of_ok(records: Seq<StoredConfigSpec>)
    ensures
        entries_ok(entries_of(records)),
{
}

spec fn cache_view(m: Map<ConfigKeySpec, ConfigValue>) -> Map<ConfigKeySpec, ConfigValueSpec> {
    Map::new(|k: ConfigKeySpec| m.contains_key(k), |k: ConfigKeySpec| m[k]@)
}

/// Another handle to the same value.
fn share_value(v: &ConfigValue) -> (r: ConfigValue)
    ensures
        r@ == v@,
{
    ConfigValue { content: share(&v.content), md5: share(&v.md5), tmp: v.tmp }
}

/// Copies of the keys of a row.
fn clone_keys(keys: &Vec<ConfigKey>) -> (r: Vec<ConfigKey>)
    ensures
        key_views(r@) == key_views(keys@),
{
    let mut r: Vec<ConfigKey> = Vec::new();
    let mut i: usize = 0;
    while i < keys.len()
        invariant
            i <= keys.len(),
            r@.len() == i,
            forall|j: int| 0 <= j < i ==> (#[trigger] r@[j])@ == keys@[j]@,
        decreases keys.len() - i,
    {
        r.push(keys[i].clone());
        i += 1;
    }
    assert(key_views(r@) =~= key_views(keys@));
    r
}

/// What a long-poll request came to.
pub enum ListenOutcome {
    /// The request was answered at once, with these keys.
    Answered(Vec<ConfigKey>),
    /// The request was parked under this id.
    Parked(u64),
}

/// The configuration state machine: the cache that readers are served
/// from, the index of the confirmed keys, the long-poll waiters and the
/// subscriptions.
pub struct ConfigActor {
    cache: KeyMap<ConfigKey, ConfigValue>,
    listener: ConfigListener,
    subscriber: Subscriber,
    tenant_index: TenantIndex,
    answered_at_once: Ghost<Seq<ListenerResultSpec>>,
}

impl View for ConfigActor {
    type V = ConfigActorSpec;

    closed spec fn view(&self) -> ConfigActorSpec {
        ConfigActorSpec {
            cache: cache_view(self.cache@),
            index: self.tenant_index@,
            listener: self.listener@,
            subscriber: self.subscriber@,
            at_once: self.answered_at_once@,
        }
    }
}

impl ConfigActor {
    /// What holds of the representation.
    pub closed spec fn inv(&self) -> bool {
        self.cache.wf() && self.listener.inv() && self.subscriber.inv()
    }

    /// The state machine is in order.
    pub open spec fn wf(&self) -> bool {
        self.inv() && self@.wf()
    }

    /// The state machine over what a full scan of the persistent store gave.
    pub fn new(records: Vec<StoredConfig>) -> (r: Self)
        ensures
            r.wf(),
            r@ == ConfigActorSpec::empty().loaded(entries_of(stored_views(records@))),
            r@.index_exact(),
    {
        let mut s = ConfigActor {
            cache: KeyMap::new(),
            listener: ConfigListener::new(),
            subscriber: Subscriber::new(),
            tenant_index: TenantIndex::new(),
            answered_at_once: Ghost(Seq::empty()),
        };
        proof {
            assert(s@.cache =~= Map::<ConfigKeySpec, ConfigValueSpec>::empty());
            assert(s@ == ConfigActorSpec::empty());
        }
        s.load_config(records);
        s
    }

    /// Seeds the key locally with a value that no committed write has
    /// confirmed. The key leaves the index until a committed write confirms it.
    pub fn set_tmp_value(&mut self, key: ConfigKey, config_val: ConfigValue)
        requires
            old(self).wf(),
            config_val@.digest_ok(),
        ensures
            final(self).wf(),
            final(self)@ == old(self)@.seeded(key@, config_val@),
            old(self)@.index_exact() ==> final(self)@.index_exact(),
            !final(self)@.index.contains(key@),
    {
        let ghost before = self@;
        let mut config_val = config_val;
        config_val.tmp = true;
        self.tenant_index.remove_config(&key);
        self.cache.insert(key, config_val);
        proof {
            let after = self@;
            assert(after.cache =~= before.cache.insert(
                key@,
                ConfigValueSpec { tmp: true, ..config_val@ },
            ));
            assert forall|k: ConfigKeySpec| #[trigger]
                after.cache.contains_key(k) implies after.cache[k].digest_ok() by {
                if k != key@ {
                    assert(before.cache.contains_key(k));
                }
            }
            assert forall|k: ConfigKeySpec|
                after.index.contains(k) <==> (#[trigger] after.cache.contains_key(k)
                    && !after.cache[k].tmp) by {
                assert(after.index.to_set().contains(k) <==> before.index.to_set().remove(
                    key@,
                ).contains(k));
                if k != key@ {
                    lemma_index_exact_at(before, k);
                }
            }
            assert(after.index_exact());
            lemma_index_exact_at(after, key@);
        }
    }

    /// Seeds the key locally with a content.
    pub fn set_tmp_config(&mut self, key: ConfigKey, val: Arc<String>)
        requires
            old(self).wf(),
        ensures
            final(self).wf(),
            final(self)@ == old(self)@.seeded(key@, ConfigValueSpec::of_content(val@)),
            old(self)@.index_exact() ==> final(self)@.index_exact(),
            !final(self)@.index.contains(key@),
    {
        let config_val = ConfigValue::new(val);
        self.set_tmp_value(key, config_val)
    }

    /// Whether a committed write of the key with this digest changes nothing.
    fn suppresses(&self, key: &ConfigKey, value: &ConfigValue) -> (r: bool)
        requires
            self.wf(),
        ensures
            r == self@.suppressed(key@, value@.md5),
    {
        match self.cache.get(key) {
            Some(v) => !v.tmp && *v.md5 == *value.md5,
            None => false,
        }
    }

    /// What a committed command is going to ask of the persistent store
    /// when it is applied. The state stays as it is.
    pub fn plan(&self, msg: &ConfigRaftCmd) -> (op: StoreOp)
        requires
            self.wf(),
        ensures
            op@ == self@.applied_op(msg@),
    {
        match msg {
            ConfigRaftCmd::ConfigAdd { key, value, history_id, history_table_id } => {
                let config_key = ConfigKey::from(key.as_str());
                let config_val = ConfigValue::new(share(value));
                if self.suppresses(&config_key, &config_val) {
                    StoreOp::Keep
                } else {
                    StoreOp::Put {
                        key: config_key,
                        content: config_val.content,
                        md5: config_val.md5,
                        history_id: *history_id,
                        history_table_id: *history_table_id,
                    }
                }
            },
            ConfigRaftCmd::ConfigRemove { key } => StoreOp::Delete {
                key: ConfigKey::from(key.as_str()),
            },
            ConfigRaftCmd::ApplySnaphot { records } => StoreOp::Keep,
        }
    }

    /// Applies a committed write of the key with a value whose digest is
    /// known. Where the cache holds a confirmed entry of the key with the
    /// same digest nothing changes and nothing is written; otherwise the
    /// value is written with a history entry, enters cache and index, and
    /// the waiters and subscribers of the key are told.
    pub fn set_config_value(
        &mut self,
        key: ConfigKey,
        config_val: ConfigValue,
        history_id: u64,
        history_table_id: Option<u64>,
    ) -> (change: ConfigChange)
        requires
            old(self).wf(),
            config_val@.digest_ok(),
            !config_val.tmp,
        ensures
            final(self).wf(),
            final(self)@ == old(self)@.set(key@, config_val@),
            change.store@ == old(self)@.set_op(key@, config_val@, history_id, history_table_id),
            change.woken@ == old(self)@.set_woken(key@, config_val@),
            models_of(change.notified@) == old(self)@.set_notified(key@, config_val@),
            old(self)@.index_exact() ==> final(self)@.index_exact(),
    {
        let ghost before = self@;
        if self.suppresses(&key, &config_val) {
            let notified: Vec<Arc<String>> = Vec::new();
            assert(models_of(notified@) =~= Seq::<Seq<char>>::empty());
            return ConfigChange { store: StoreOp::Keep, woken: Vec::new(), notified };
        }
        let store = StoreOp::Put {
            key: key.clone(),
            content: share(&config_val.content),
            md5: share(&config_val.md5),
            history_id,
            history_table_id,
        };
        let ghost value = config_val@;
        self.cache.insert(key.clone(), config_val);
        self.tenant_index.insert_config(key.clone());
        let woken = self.listener.notify(key.clone());
        let notified = self.subscriber.notify(key);
        proof {
            let after = self@;
            assert(after.cache =~= before.cache.insert(key@, value));
            assert forall|k: ConfigKeySpec| #[trigger]
                after.cache.contains_key(k) implies after.cache[k].digest_ok() by {
                if k != key@ {
                    assert(before.cache.contains_key(k));
                }
            }
            assert forall|k: ConfigKeySpec|
                after.index.contains(k) <==> (#[trigger] after.cache.contains_key(k)
                    && !after.cache[k].tmp) by {
                assert(after.index.to_set().contains(k) <==> before.index.to_set().insert(
                    key@,
                ).contains(k));
                if k != key@ {
                    lemma_index_exact_at(before, k);
                }
            }
            assert(after.index_exact());
        }
        ConfigChange { store, woken, notified }
    }

    /// Applies a committed write of the key with a content.
    pub fn set_config(
        &mut self,
        key: ConfigKey,
        val: Arc<String>,
        history_id: u64,
        history_table_id: Option<u64>,
    ) -> (change: ConfigChange)
        requires
            old(self).wf(),
        ensures
            final(self).wf(),
            final(self)@ == old(self)@.set(key@, ConfigValueSpec::of_content(val@)),
            change.store@ == old(self)@.set_op(
                key@,
                ConfigValueSpec::of_content(val@),
                history_id,
                history_table_id,
            ),
            change.woken@ == old(self)@.set_woken(key@, ConfigValueSpec::of_content(val@)),
            models_of(change.notified@) == old(self)@.set_notified(
                key@,
                ConfigValueSpec::of_content(val@),
            ),
            old(self)@.index_exact() ==> final(self)@.index_exact(),
    {
        let config_val = ConfigValue::new(val);
        self.set_config_value(key, config_val, history_id, history_table_id)
    }

    /// Applies a committed removal of the key: the entry leaves cache and
    /// index, its record is to be removed, the waiters and subscribers of the
    /// key are told, and the key leaves every subscription. A key that is
    /// not there is removed all the same.
    pub fn del_config(&mut self, key: ConfigKey) -> (change: ConfigChange)
        requires
            old(self).wf(),
        ensures
            final(self).wf(),
            final(self)@ == old(self)@.deleted(key@),
            change.store@ == (StoreOpSpec::Delete { key: key@ }),
            change.woken@ == old(self)@.listener.notify_woken(key@),
            models_of(change.notified@) == old(self)@.subscriber.clients_of(key@),
            old(self)@.index_exact() ==> final(self)@.index_exact(),
    {
        let ghost before = self@;
        self.cache.remove(&key);
        self.tenant_index.remove_config(&key);
        let woken = self.listener.notify(key.clone());
        let notified = self.subscriber.notify(key.clone());
        self.subscriber.remove_config_key(key.clone());
        proof {
            let after = self@;
            assert(after.cache =~= before.cache.remove(key@));
            assert forall|k: ConfigKeySpec| #[trigger]
                after.cache.contains_key(k) implies after.cache[k].digest_ok() by {
                assert(before.cache.contains_key(k));
            }
            assert forall|k: ConfigKeySpec|
                after.index.contains(k) <==> (#[trigger] after.cache.contains_key(k)
                    && !after.cache[k].tmp) by {
                assert(after.index.to_set().contains(k) <==> before.index.to_set().remove(
                    key@,
                ).contains(k));
                lemma_index_exact_at(before, k);
            }
            assert(after.index_exact());
        }
        ConfigChange { store: StoreOp::Delete { key }, woken, notified }
    }

    /// Makes cache and index anew from a row of entries whose digests are
    /// known. Waiters and subscriptions stay.
    pub fn load_values(&mut self, entries: Vec<(ConfigKey, ConfigValue)>)
        requires
            old(self).wf(),
            entries_ok(entry_views(entries@)),
        ensures
            final(self).wf(),
            final(self)@ == old(self)@.loaded(entry_views(entries@)),
            final(self)@.index_exact(),
    {
        let ghost all = entry_views(entries@);
        self.cache.clear();
        self.tenant_index.clear();
        let mut i: usize = 0;
        proof {
            assert(all.take(0) =~= Seq::<(ConfigKeySpec, ConfigValueSpec)>::empty());
            assert(self@.cache =~= Map::<ConfigKeySpec, ConfigValueSpec>::empty());
        }
        while i < entries.len()
            invariant
                i <= entries.len(),
                all == entry_views(entries@),
                self.cache.wf(),
                self.tenant_index.wf(),
                self.listener == old(self).listener,
                self.subscriber == old(self).subscriber,
                self.answered_at_once == old(self).answered_at_once,
                self@.cache == cache_of(all.take(i as int)),
                self@.index == index_of(all.take(i as int)),
            decreases entries.len() - i,
        {
            let ghost had = self@.cache;
            proof {
                assert(all.take(i + 1).drop_last() =~= all.take(i as int));
                assert(all.take(i + 1).last() == all[i as int]);
            }
            self.tenant_index.insert_config(entries[i].0.clone());
            self.cache.insert(entries[i].0.clone(), share_value(&entries[i].1));
            proof {
                assert(self@.cache =~= had.insert(all[i as int].0, all[i as int].1));
            }
            i += 1;
        }
        proof {
            assert(all.take(i as int) =~= all);
            lemma_loaded(all);
        }
    }

    /// Makes cache and index anew from what a full scan of the persistent
    /// store gave.
    pub fn load_config(&mut self, records: Vec<StoredConfig>)
        requires
            old(self).wf(),
        ensures
            final(self).wf(),
            final(self)@ == old(self)@.loaded(entries_of(stored_views(records@))),
            final(self)@.index_exact(),
    {
        let ghost want = entries_of(stored_views(records@));
        let mut entries: Vec<(ConfigKey, ConfigValue)> = Vec::new();
        let mut i: usize = 0;
        while i < records.len()
            invariant
                i <= records.len(),
                want == entries_of(stored_views(records@)),
                entries@.len() == i,
                forall|j: int| 0 <= j < i ==> (#[trigger] entry_views(entries@)[j]) == want[j],
            decreases records.len() - i,
        {
            let item = &records[i];
            let ghost had = entries@;
            let key = ConfigKey::new(item.data_id.as_str(), item.group.as_str(), item.tenant.as_str());
            let content = match &item.content {
                Some(c) => c.clone(),
                None => String::new(),
            };
            let val = ConfigValue::new(Arc::new(content));
            entries.push((key, val));
            proof {
                assert(stored_views(records@)[i as int] == records@[i as int]@);
                assert forall|j: int| 0 <= j < i + 1 implies (#[trigger] entry_views(entries@)[j])
                    == want[j] by {
                    if j < i {
                        assert(entry_views(entries@)[j] == entry_views(had)[j]);
                    }
                }
            }
            i += 1;
        }
        proof {
            assert(entry_views(entries@) =~= want);
        }
        self.load_values(entries)
    }

    /// The content and the digest that the cache holds for the key.
    pub fn get(&self, key: &ConfigKey) -> (r: Option<(Arc<String>, Arc<String>)>)
        requires
            self.wf(),
        ensures
            match r {
                Some((content, md5)) => self@.cache.contains_key(key@) && content@
                    == self@.cache[key@].content && md5@ == self@.cache[key@].md5,
                None => !self@.cache.contains_key(key@),
            },
    {
        match self.cache.get(key) {
            Some(v) => Some((share(&v.content), share(&v.md5))),
            None => None,
        }
    }

    /// The id of the long-poll waiter that was parked last.
    pub fn listener_version(&self) -> (v: u64)
        ensures
            v == self@.listener.version,
    {
        self.listener.version()
    }

    /// The answer to a paged query: the number of confirmed keys that the
    /// query asks for, and the page of them that it cuts out, in ascending
    /// order of group and data id, with content and digest where the query
    /// wants them.
    pub fn get_config_info_page(&self, param: &ConfigQueryParam) -> (r: (usize, Vec<ConfigInfoDto>))
        requires
            self.wf(),
        ensures
            r.0 == param@.matching(self@.index).len(),
            info_views(r.1@) == Seq::new(
                param@.page(param@.matching(self@.index)).len(),
                |i: int|
                    info_of(
                        param@.page(param@.matching(self@.index))[i],
                        self@.cache[param@.page(param@.matching(self@.index))[i]],
                        param.query_context,
                    ),
            ),
    {
        let (size, list) = self.tenant_index.query_config_page(param);
        let ghost page = param@.page(param@.matching(self@.index));
        let mut info_list: Vec<ConfigInfoDto> = Vec::new();
        let mut i: usize = 0;
        proof {
            lemma_matching_ascends(param@, self@.index);
        }
        while i < list.len()
            invariant
                i <= list.len(),
                self.wf(),
                page == param@.page(param@.matching(self@.index)),
                key_views(list@) == page,
                forall|j: int| 0 <= j < page.len() ==> self@.index.contains(#[trigger] page[j]),
                info_list@.len() == i,
                forall|j: int|
                    0 <= j < i ==> (#[trigger] info_list@[j])@ == info_of(
                        page[j],
                        self@.cache[page[j]],
                        param.query_context,
                    ),
            decreases list.len() - i,
        {
            let item = &list[i];
            proof {
                assert(key_views(list@)[i as int] == item@);
                assert(self@.index.contains(page[i as int]));
                assert(self@.cache.contains_key(item@));
            }
            match self.cache.get(item) {
                Some(value) => {
                    let mut info = ConfigInfoDto {
                        tenant: share(&item.tenant),
                        group: share(&item.group),
                        data_id: share(&item.data_id),
                        content: None,
                        md5: None,
                    };
                    if param.query_context {
                        info.content = Some(share(&value.content));
                        info.md5 = Some(share(&value.md5));
                    }
                    info_list.push(info);
                },
                None => {},
            }
            i += 1;
        }
        proof {
            assert(info_views(info_list@) =~= Seq::new(
                page.len(),
                |i: int| info_of(page[i], self@.cache[page[i]], param.query_context),
            ));
        }
        (size, info_list)
    }

    /// The answer to a paged query over the history of one entry, from
    /// the history as the persistent store holds it: the number of entries
    /// of that entry, and the page of them that the query cuts out, in the
    /// order of the history, as the query shows them.
    pub fn get_history_info_page(param: &ConfigHistoryParam, history: Vec<ConfigHistoryRecord>) -> (r:
        (usize, Vec<ConfigHistoryInfoDto>))
        ensures
            r.0 == param.matching(history@).len(),
            r.1@.len() == param.page(param.matching(history@)).len(),
            forall|i: int|
                0 <= i < r.1@.len() ==> history_shown(
                    param.page(param.matching(history@))[i],
                    #[trigger] r.1@[i],
                ),
    {
        let mut found: usize = 0;
        let mut info_list: Vec<ConfigHistoryInfoDto> = Vec::new();
        let mut i: usize = 0;
        proof {
            assert(history@.take(0) =~= Seq::<ConfigHistoryRecord>::empty());
        }
        while i < history.len()
            invariant
                i <= history.len(),
                found == param.matching(history@.take(i as int)).len(),
                found <= i,
                info_list@.len() == param.page(param.matching(history@.take(i as int))).len(),
                forall|j: int|
                    0 <= j < info_list@.len() ==> history_shown(
                        param.page(param.matching(history@.take(i as int)))[j],
                        #[trigger] info_list@[j],
                    ),
            decreases history.len() - i,
        {
            let cfg = &history[i];
            let ghost before = param.matching(history@.take(i as int));
            proof {
                assert(history@.take(i + 1).drop_last() =~= history@.take(i as int));
                assert(history@.take(i + 1).last() == *cfg);
            }
            if cfg.tenant == param.tenant && cfg.group == param.group && cfg.data_id
                == param.data_id {
                if found >= param.offset && found - param.offset < param.limit {
                    let content = match &cfg.content {
                        Some(c) => Some(c.clone()),
                        None => None,
                    };
                    info_list.push(
                        ConfigHistoryInfoDto {
                            tenant: Some(cfg.tenant.clone()),
                            group: Some(cfg.group.clone()),
                            data_id: Some(cfg.data_id.clone()),
                            modified_time: cfg.last_time,
                            content,
                            id: cfg.id,
                        },
                    );
                    proof {
                        assert(param.page(before.push(*cfg)) =~= param.page(before).push(*cfg));
                    }
                } else {
                    proof {
                        assert(param.page(before.push(*cfg)) =~= param.page(before));
                    }
                }
                found += 1;
            }
            i += 1;
        }
        proof {
            assert(history@.take(i as int) =~= history@);
        }
        (found, info_list)
    }

    /// The keys among `items` whose entry is not what the watcher knows.
    pub fn changes_of(&self, items: &Vec<ListenerItem>) -> (changes: Vec<ConfigKey>)
        requires
            self.wf(),
        ensures
            key_views(changes@) == changed_keys(self@.cache, item_views(items@)),
    {
        let ghost all = item_views(items@);
        let mut changes: Vec<ConfigKey> = Vec::new();
        let mut i: usize = 0;
        proof {
            assert(all.take(0) =~= Seq::<ListenerItemSpec>::empty());
            assert(key_views(changes@) =~= Seq::<ConfigKeySpec>::empty());
        }
        while i < items.len()
            invariant
                i <= items.len(),
                self.wf(),
                all == item_views(items@),
                key_views(changes@) == changed_keys(self@.cache, all.take(i as int)),
            decreases items.len() - i,
        {
            let item = &items[i];
            let ghost had = changes@;
            proof {
                assert(all.take(i + 1).drop_last() =~= all.take(i as int));
                assert(all.take(i + 1).last() == item@);
            }
            let changed = match self.cache.get(&item.key) {
                Some(v) => *v.md5 != *item.md5,
                None => !item.md5.as_str().is_empty(),
            };
            if changed {
                changes.push(item.key.clone());
                assert(key_views(changes@) =~= key_views(had).push(item@.key));
            }
            i += 1;
        }
        proof {
            assert(all.take(i as int) =~= all);
        }
        changes
    }

    /// Answers a long-poll request at once and puts the answer on record.
    fn answer_at_once(&mut self, sender: ListenerSenderType, result: ListenerResult)
        requires
            old(self).wf(),
        ensures
            final(self).wf(),
            final(self)@ == (ConfigActorSpec {
                at_once: old(self)@.at_once.push(result@),
                ..old(self)@
            }),
    {
        proof {
            self.answered_at_once@ = self.answered_at_once@.push(result@);
        }
        resolve(sender, result);
    }

    /// A long-poll request for `items` with the deadline `time`. Where an
    /// entry is not what the watcher knows, or the deadline is not after
    /// zero, the request is answered at once with the changed keys, and
    /// the waiters stay as they are; otherwise it is parked until a key
    /// changes or the deadline passes.
    pub fn listen(&mut self, items: Vec<ListenerItem>, sender: ListenerSenderType, time: i64) -> (r:
        ListenOutcome)
        requires
            old(self).wf(),
            !old(self)@.answers_at_once(item_views(items@), time) ==> old(self)@.listener.version
                < u64::MAX,
        ensures
            final(self).wf(),
            final(self)@ == old(self)@.listened(item_views(items@), time),
            match r {
                ListenOutcome::Answered(keys) => old(self)@.answers_at_once(
                    item_views(items@),
                    time,
                ) && key_views(keys@) == changed_keys(old(self)@.cache, item_views(items@)),
                ListenOutcome::Parked(id) => !old(self)@.answers_at_once(item_views(items@), time)
                    && id == old(self)@.listener.version + 1,
            },
    {
        let changes = self.changes_of(&items);
        assert(key_views(changes@).len() == changes@.len());
        if changes.len() > 0 || time <= 0 {
            let sent = clone_keys(&changes);
            self.answer_at_once(sender, ListenerResult::DATA(changes));
            ListenOutcome::Answered(sent)
        } else {
            self.listener.add(items, sender, time);
            ListenOutcome::Parked(self.listener.version())
        }
    }

    /// The client subscribes to the keys of `items`; the keys among them
    /// whose entry is not what the client knows are handed back.
    pub fn subscribe(&mut self, items: Vec<ListenerItem>, client_id: Arc<String>) -> (changes: Vec<
        ConfigKey,
    >)
        requires
            old(self).wf(),
        ensures
            final(self).wf(),
            final(self)@ == (ConfigActorSpec {
                subscriber: old(self)@.subscriber.linked_all(
                    client_id@,
                    watched_keys(item_views(items@)),
                ),
                ..old(self)@
            }),
            key_views(changes@) == changed_keys(old(self)@.cache, item_views(items@)),
    {
        let changes = self.changes_of(&items);
        self.subscriber.add_subscribe(client_id, items);
        changes
    }

    /// The client gives the keys of `items` up.
    pub fn remove_subscribe(&mut self, items: Vec<ListenerItem>, client_id: Arc<String>)
        requires
            old(self).wf(),
        ensures
            final(self).wf(),
            final(self)@ == (ConfigActorSpec {
                subscriber: old(self)@.subscriber.unlinked_all(
                    client_id@,
                    watched_keys(item_views(items@)),
                ),
                ..old(self)@
            }),
    {
        self.subscriber.remove_subscribe(client_id, items);
        proof {
            assert(self@.cache == old(self)@.cache);
            assert(self@.index == old(self)@.index);
            assert(self@.listener == old(self)@.listener);
            assert(self@.subscriber.wf());
        }
    }

    /// The client leaves and gives up every key it watched.
    pub fn remove_subscribe_client(&mut self, client_id: Arc<String>)
        requires
            old(self).wf(),
        ensures
            final(self).wf(),
            final(self)@ == (ConfigActorSpec {
                subscriber: old(self)@.subscriber.without_client(client_id@),
                ..old(self)@
            }),
    {
        self.subscriber.remove_client_subscribe(client_id);
        proof {
            assert(self@.cache == old(self)@.cache);
            assert(self@.index == old(self)@.index);
            assert(self@.listener == old(self)@.listener);
            assert(self@.subscriber.wf());
        }
    }

    /// One sweep of the long-poll deadlines as of `now`.
    pub fn timeout_at(&mut self, now: i64) -> (woken: Vec<u64>)
        requires
            old(self).wf(),
        ensures
            final(self).wf(),
            final(self)@ == (ConfigActorSpec {
                listener: old(self)@.listener.swept(now),
                ..old(self)@
            }),
            woken@ == old(self)@.listener.sweep_woken(now),
    {
        self.listener.timeout_at(now)
    }

    /// One tick of the heartbeat: a sweep of the long-poll deadlines as of
    /// the time the clock shows.
    pub fn hb(&mut self) -> (woken: Vec<u64>)
        requires
            old(self).wf(),
        ensures
            final(self).wf(),
            exists|now: i64|
                final(self)@ == (ConfigActorSpec {
                    listener: old(self)@.listener.swept(now),
                    ..old(self)@
                }) && woken@ == old(self)@.listener.sweep_woken(now),
    {
        let woken = self.listener.timeout();
        proof {
            assert(self@.cache == old(self)@.cache);
        }
        woken
    }
}

/// A request to the state machine that needs no consensus.
pub enum ConfigCmd {
    SetTmpValue(ConfigKey, Arc<String>),
    GET(ConfigKey),
    QueryPageInfo(Box<ConfigQueryParam>),
    /// A paged query over the history of one entry, with the history as the
    /// persistent store holds it.
    QueryHistoryPageInfo(Box<ConfigHistoryParam>, Vec<ConfigHistoryRecord>),
    LISTENER(Vec<ListenerItem>, ListenerSenderType, i64),
    Subscribe(Vec<ListenerItem>, Arc<String>),
    RemoveSubscribe(Vec<ListenerItem>, Arc<String>),
    RemoveSubscribeClient(Arc<String>),
}

/// A write that goes through the consensus log.
pub enum ConfigAsyncCmd {
    Add(ConfigKey, Arc<String>),
    Delete(ConfigKey),
}

/// The answer to a request.
pub enum ConfigResult {
    DATA(Arc<String>, Arc<String>),
    NULL,
    ChangeKey(Vec<ConfigKey>),
    ConfigInfoPage(usize, Vec<ConfigInfoDto>),
    ConfigHistoryInfoPage(usize, Vec<ConfigHistoryInfoDto>),
}

/// What serving `msg` makes of the state and answers.
pub open spec fn handled(
    before: ConfigActorSpec,
    msg: ConfigCmd,
    after: ConfigActorSpec,
    r: ConfigResult,
) -> bool {
    match msg {
        ConfigCmd::SetTmpValue(key, value) => {
            &&& after == before.seeded(key@, ConfigValueSpec::of_content(value@))
            &&& r is NULL
        },
        ConfigCmd::GET(key) => {
            &&& after == before
            &&& match r {
                ConfigResult::DATA(content, md5) => before.cache.contains_key(key@) && content@
                    == before.cache[key@].content && md5@ == before.cache[key@].md5,
                ConfigResult::NULL => !before.cache.contains_key(key@),
                _ => false,
            }
        },
        ConfigCmd::QueryPageInfo(param) => {
            &&& after == before
            &&& r matches ConfigResult::ConfigInfoPage(size, list) && size == param@.matching(
                before.index,
            ).len() && info_views(list@) == Seq::new(
                param@.page(param@.matching(before.index)).len(),
                |i: int|
                    info_of(
                        param@.page(param@.matching(before.index))[i],
                        before.cache[param@.page(param@.matching(before.index))[i]],
                        param.query_context,
                    ),
            )
        },
        ConfigCmd::QueryHistoryPageInfo(param, history) => {
            &&& after == before
            &&& r matches ConfigResult::ConfigHistoryInfoPage(n, shown) && n == param.matching(
                history@,
            ).len() && shown@.len() == param.page(param.matching(history@)).len() && forall|
                i: int,
            |
                0 <= i < shown@.len() ==> history_shown(
                    param.page(param.matching(history@))[i],
                    #[trigger] shown@[i],
                )
        },
        ConfigCmd::LISTENER(items, sender, time) => {
            &&& after == before.listened(item_views(items@), time)
            &&& r is NULL
        },
        ConfigCmd::Subscribe(items, client_id) => {
            &&& after == (ConfigActorSpec {
                subscriber: before.subscriber.linked_all(
                    client_id@,
                    watched_keys(item_views(items@)),
                ),
                ..before
            })
            &&& match r {
                ConfigResult::ChangeKey(keys) => keys@.len() > 0 && key_views(keys@)
                    == changed_keys(before.cache, item_views(items@)),
                ConfigResult::NULL => changed_keys(before.cache, item_views(items@)).len() == 0,
                _ => false,
            }
        },
        ConfigCmd::RemoveSubscribe(items, client_id) => {
            &&& after == (ConfigActorSpec {
                subscriber: before.subscriber.unlinked_all(
                    client_id@,
                    watched_keys(item_views(items@)),
                ),
                ..before
            })
            &&& r is NULL
        },
        ConfigCmd::RemoveSubscribeClient(client_id) => {
            &&& after == (ConfigActorSpec {
                subscriber: before.subscriber.without_client(client_id@),
                ..before
            })
            &&& r is NULL
        },
    }
}

impl ConfigAsyncCmd {
    /// Whether the write needs a history id from the leader before it is
    /// proposed.
    pub fn needs_history_id(&self) -> (r: bool)
        ensures
            r == (self is Add),
    {
        match self {
            ConfigAsyncCmd::Add(_, _) => true,
            ConfigAsyncCmd::Delete(_) => false,
        }
    }
}

/// The request to the consensus log that a write becomes: the key travels
/// as its canonical text, a write with the history id that the leader gave
/// it. A write for which the leader has no history id is not proposed.
pub fn raft_request(msg: ConfigAsyncCmd, history_info: Option<(u64, Option<u64>)>) -> (r: Option<
    ClientRequest,
>)
    ensures
        match msg {
            ConfigAsyncCmd::Add(key, value) => match history_info {
                Some((history_id, history_table_id)) => r matches Some(req) && req@ == (
                ClientRequestSpec::ConfigSet {
                    key: key@.text(),
                    value: value@,
                    history_id,
                    history_table_id,
                }),
                None => r is None,
            },
            ConfigAsyncCmd::Delete(key) => r matches Some(req) && req@ == (
            ClientRequestSpec::ConfigRemove { key: key@.text() }),
        },
{
    match msg {
        ConfigAsyncCmd::Add(key, value) => match history_info {
            Some((history_id, history_table_id)) => Some(
                ClientRequest::ConfigSet {
                    key: key.build_key(),
                    value,
                    history_id,
                    history_table_id,
                },
            ),
            None => None,
        },
        ConfigAsyncCmd::Delete(key) => Some(ClientRequest::ConfigRemove { key: key.build_key() }),
    }
}

impl ConfigActor {
    /// Serves a request that needs no consensus.
    pub fn handle(&mut self, msg: ConfigCmd) -> (r: ConfigResult)
        requires
            old(self).wf(),
            msg matches ConfigCmd::LISTENER(items, sender, time) ==> (!old(self)@.answers_at_once(
                item_views(items@),
                time,
            ) ==> old(self)@.listener.version < u64::MAX),
        ensures
            final(self).wf(),
            handled(old(self)@, msg, final(self)@, r),
    {
        match msg {
            ConfigCmd::SetTmpValue(key, value) => {
                self.set_tmp_config(key, value);
                ConfigResult::NULL
            },
            ConfigCmd::GET(key) => {
                match self.get(&key) {
                    Some((content, md5)) => ConfigResult::DATA(content, md5),
                    None => ConfigResult::NULL,
                }
            },
            ConfigCmd::LISTENER(items, sender, time) => {
                self.listen(items, sender, time);
                ConfigResult::NULL
            },
            ConfigCmd::Subscribe(items, client_id) => {
                let changes = self.subscribe(items, client_id);
                assert(key_views(changes@).len() == changes@.len());
                if changes.len() > 0 {
                    ConfigResult::ChangeKey(changes)
                } else {
                    ConfigResult::NULL
                }
            },
            ConfigCmd::RemoveSubscribe(items, client_id) => {
                self.remove_subscribe(items, client_id);
                ConfigResult::NULL
            },
            ConfigCmd::RemoveSubscribeClient(client_id) => {
                self.remove_subscribe_client(client_id);
                ConfigResult::NULL
            },
            ConfigCmd::QueryPageInfo(config_query_param) => {
                let (size, list) = self.get_config_info_page(&config_query_param);
                ConfigResult::ConfigInfoPage(size, list)
            },
            ConfigCmd::QueryHistoryPageInfo(query_param, history) => {
                let (size, list) = Self::get_history_info_page(&query_param, history);
                ConfigResult::ConfigHistoryInfoPage(size, list)
            },
        }
    }

    /// Applies a committed command. The same command on the same state
    /// gives the same state and asks the same of the surroundings.
    pub fn apply(&mut self, msg: ConfigRaftCmd) -> (change: ConfigChange)
        requires
            old(self).wf(),
        ensures
            final(self).wf(),
            final(self)@ == old(self)@.applied(msg@),
            change.store@ == old(self)@.applied_op(msg@),
            change.woken@ == old(self)@.applied_woken(msg@),
            models_of(change.notified@) == old(self)@.applied_notified(msg@),
            old(self)@.index_exact() ==> final(self)@.index_exact(),
    {
        match msg {
            ConfigRaftCmd::ConfigAdd { key, value, history_id, history_table_id } => {
                let config_key = ConfigKey::from(key.as_str());
                self.set_config(config_key, value, history_id, history_table_id)
            },
            ConfigRaftCmd::ConfigRemove { key } => {
                let config_key = ConfigKey::from(key.as_str());
                self.del_config(config_key)
            },
            ConfigRaftCmd::ApplySnaphot { records } => {
                self.load_config(records);
                let notified: Vec<Arc<String>> = Vec::new();
                assert(models_of(notified@) =~= Seq::<Seq<char>>::empty());
                ConfigChange { store: StoreOp::Keep, woken: Vec::new(), notified }
            },
        }
    }
}

} // verus!
