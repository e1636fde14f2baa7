//! What holds of the configuration state machine over whole runs: the
//! persistent store mirrors the confirmed entries of the cache, the index
//! holds exactly the confirmed keys, and a replay of the committed commands
//! arrives where the live node is.

use vstd::prelude::*;
use crate::config::config_core::{
    cache_of,
    entries_of,
    lemma_entries_of_ok,
    lemma_loaded,
    lemma_of_text_plain,
    lemma_text_injective,
    changed_keys,
    ConfigActorSpec,
    ConfigKeySpec,
    ConfigValueSpec,
    StoreOpSpec,
};
use crate::config::config_index::{index_added, index_removed, keys_ascend, lemma_index_sets};
use crate::config::listener::{
    lemma_added_wf,
    lemma_notified_wf,
    lemma_swept_wf,
    watched_keys,
    ListenerResultSpec,
    ListenerSpec,
};
use crate::config::model::ConfigRaftCmdSpec;
use crate::config::wire::ListenerItemSpec;

verus! {

/// Something that happens to the state machine of a node: a committed
/// command, which every node sees, or something local to the node.
pub enum ConfigEvent {
    /// A committed command is applied.
    Commit(ConfigRaftCmdSpec),
    /// A key is seeded locally with a content.
    Seed(ConfigKeySpec, Seq<char>),
    /// A long-poll request comes in.
    Listen(Seq<ListenerItemSpec>, i64),
    /// The deadlines are swept.
    Sweep(i64),
    /// A client subscribes to keys.
    Subscribe(Seq<char>, Seq<ConfigKeySpec>),
    /// A client gives keys up.
    Unsubscribe(Seq<char>, Seq<ConfigKeySpec>),
    /// A client leaves.
    Leave(Seq<char>),
}

/// The state after an event.
pub open spec fn after(m: ConfigActorSpec, ev: ConfigEvent) -> ConfigActorSpec {
    match ev {
        ConfigEvent::Commit(cmd) => m.applied(cmd),
        ConfigEvent::Seed(key, content) => m.seeded(key, ConfigValueSpec::of_content(content)),
        ConfigEvent::Listen(items, time) => m.listened(items, time),
        ConfigEvent::Sweep(now) => ConfigActorSpec { listener: m.listener.swept(now), ..m },
        ConfigEvent::Subscribe(client, keys) => ConfigActorSpec {
            subscriber: m.subscriber.linked_all(client, keys),
            ..m
        },
        ConfigEvent::Unsubscribe(client, keys) => ConfigActorSpec {
            subscriber: m.subscriber.unlinked_all(client, keys),
            ..m
        },
        ConfigEvent::Leave(client) => ConfigActorSpec {
            subscriber: m.subscriber.without_client(client),
            ..m
        },
    }
}

/// The state after a row of events, from a state machine that has seen
/// nothing.
pub open spec fn run(events: Seq<ConfigEvent>) -> ConfigActorSpec
    decreases events.len(),
{
    if events.len() == 0 {
        ConfigActorSpec::empty()
    } else {
        after(run(events.drop_last()), events.last())
    }
}

/// The committed commands among the events, in order: the log.
pub open spec fn commits_of(events: Seq<ConfigEvent>) -> Seq<ConfigEvent>
    decreases events.len(),
{
    if events.len() == 0 {
        Seq::empty()
    } else if events.last() is Commit {
        commits_of(events.drop_last()).push(events.last())
    } else {
        commits_of(events.drop_last())
    }
}

/// The keys that were seeded locally in the course of the events.
pub open spec fn seeded_keys(events: Seq<ConfigEvent>) -> Set<ConfigKeySpec>
    decreases events.len(),
{
    if events.len() == 0 {
        Set::empty()
    } else {
        match events.last() {
            ConfigEvent::Seed(key, content) => seeded_keys(events.drop_last()).insert(key),
            _ => seeded_keys(events.drop_last()),
        }
    }
}

/// Cache and index fit together: the index ascends and holds exactly the
/// keys of the confirmed entries of the cache, and every digest is that of
/// its content.
pub open spec fn store_ok(m: ConfigActorSpec) -> bool {
    &&& keys_ascend(m.index)
    &&& m.index_exact()
    &&& forall|k: ConfigKeySpec| #[trigger] m.cache.contains_key(k) ==> m.cache[k].digest_ok()
}

/// What `index_exact` says of one key.
proof fn lemma_exact_at(m: ConfigActorSpec, k: ConfigKeySpec)
    requires
        m.index_exact(),
    ensures
        m.index.contains(k) <==> (m.cache.contains_key(k) && !m.cache[k].tmp),
{
}

/// What of a key the index tells after a key was added or removed.
proof fn lemma_index_contains(s: Seq<ConfigKeySpec>, key: ConfigKeySpec, k: ConfigKeySpec)
    requires
        keys_ascend(s),
    ensures
        index_added(s, key).contains(k) <==> (s.contains(k) || k == key),
        index_removed(s, key).contains(k) <==> (s.contains(k) && k != key),
        keys_ascend(index_added(s, key)),
        keys_ascend(index_removed(s, key)),
{
    lemma_index_sets(s, key);
    assert(index_added(s, key).to_set().contains(k) <==> s.to_set().insert(key).contains(k));
    assert(index_removed(s, key).to_set().contains(k) <==> s.to_set().remove(key).contains(k));
}

/// A committed write keeps cache and index fitting together.
proof fn lemma_set_ok(m: ConfigActorSpec, key: ConfigKeySpec, value: ConfigValueSpec)
    requires
        store_ok(m),
        value.digest_ok(),
        !value.tmp,
    ensures
        store_ok(m.set(key, value)),
{
    let r = m.set(key, value);
    lemma_index_contains(m.index, key, key);
    assert forall|k: ConfigKeySpec| #[trigger] r.cache.contains_key(k) implies r.cache[k].digest_ok() by {
        if k != key {
            assert(m.cache.contains_key(k));
        }
    }
    assert forall|k: ConfigKeySpec|
        r.index.contains(k) <==> (#[trigger] r.cache.contains_key(k) && !r.cache[k].tmp) by {
        lemma_index_contains(m.index, key, k);
        lemma_exact_at(m, k);
    }
}

/// A committed removal keeps cache and index fitting together.
proof fn lemma_deleted_ok(m: ConfigActorSpec, key: ConfigKeySpec)
    requires
        store_ok(m),
    ensures
        store_ok(m.deleted(key)),
{
    let r = m.deleted(key);
    lemma_index_contains(m.index, key, key);
    assert forall|k: ConfigKeySpec| #[trigger] r.cache.contains_key(k) implies r.cache[k].digest_ok() by {
        assert(m.cache.contains_key(k));
    }
    assert forall|k: ConfigKeySpec|
        r.index.contains(k) <==> (#[trigger] r.cache.contains_key(k) && !r.cache[k].tmp) by {
        lemma_index_contains(m.index, key, k);
        lemma_exact_at(m, k);
    }
}

/// Cache and index made anew from good entries fit together.
proof fn lemma_loaded_ok(m: ConfigActorSpec, entries: Seq<(ConfigKeySpec, ConfigValueSpec)>)
    requires
        crate::config::config_core::entries_ok(entries),
    ensures
        store_ok(m.loaded(entries)),
{
    let r = m.loaded(entries);
    lemma_loaded(entries);
    assert forall|k: ConfigKeySpec|
        r.index.contains(k) <==> (#[trigger] r.cache.contains_key(k) && !r.cache[k].tmp) by {}
}

/// Seeding a key keeps cache and index fitting together.
proof fn lemma_seeded_ok(m: ConfigActorSpec, key: ConfigKeySpec, value: ConfigValueSpec)
    requires
        store_ok(m),
        value.digest_ok(),
    ensures
        store_ok(m.seeded(key, value)),
{
    let r = m.seeded(key, value);
    lemma_index_contains(m.index, key, key);
    assert forall|k: ConfigKeySpec| #[trigger] r.cache.contains_key(k) implies r.cache[k].digest_ok() by {
        if k != key {
            assert(m.cache.contains_key(k));
        }
    }
    assert forall|k: ConfigKeySpec|
        r.index.contains(k) <==> (#[trigger] r.cache.contains_key(k) && !r.cache[k].tmp) by {
        lemma_index_contains(m.index, key, k);
        lemma_exact_at(m, k);
    }
}

/// What leaves cache and index alone keeps them fitting together.
proof fn lemma_same_store_ok(m: ConfigActorSpec, r: ConfigActorSpec)
    requires
        store_ok(m),
        r.cache == m.cache,
        r.index == m.index,
    ensures
        store_ok(r),
{
    assert forall|k: ConfigKeySpec|
        r.index.contains(k) <==> (#[trigger] r.cache.contains_key(k) && !r.cache[k].tmp) by {
        lemma_exact_at(m, k);
    }
}

/// Every event keeps cache and index fitting together.
pub proof fn lemma_store_ok_after(m: ConfigActorSpec, ev: ConfigEvent)
    requires
        store_ok(m),
    ensures
        store_ok(after(m, ev)),
{
    match ev {
        ConfigEvent::Commit(cmd) => {
            match cmd {
                ConfigRaftCmdSpec::ConfigAdd { key, value, history_id, history_table_id } => {
                    lemma_set_ok(m, ConfigKeySpec::of_text(key), ConfigValueSpec::of_content(value));
                },
                ConfigRaftCmdSpec::ConfigRemove { key } => {
                    lemma_deleted_ok(m, ConfigKeySpec::of_text(key));
                },
                ConfigRaftCmdSpec::ApplySnaphot { records } => {
                    lemma_entries_of_ok(records);
                    lemma_loaded_ok(m, entries_of(records));
                },
            }
        },
        ConfigEvent::Seed(key, content) => {
            lemma_seeded_ok(m, key, ConfigValueSpec::of_content(content));
        },
        _ => {
            lemma_same_store_ok(m, after(m, ev));
        },
    }
}

/// Cache and index fit together after any row of events.
pub proof fn lemma_run_store_ok(events: Seq<ConfigEvent>)
    ensures
        store_ok(run(events)),
    decreases events.len(),
{
    if events.len() > 0 {
        lemma_run_store_ok(events.drop_last());
        lemma_store_ok_after(run(events.drop_last()), events.last());
    }
}

/// After any row of events the index holds exactly the keys of the
/// confirmed entries of the cache.
pub proof fn law_index_holds_confirmed_keys(events: Seq<ConfigEvent>)
    ensures
        run(events).index_exact(),
{
    lemma_run_store_ok(events);
}

/// The persistent store as the laws see it: under the canonical text of a
/// key, the content and the digest of its primary record.
pub type StoreSpec = Map<Seq<char>, (Seq<char>, Seq<char>)>;

/// The store after it did what a committed command asked of it.
pub open spec fn stored(kv: StoreSpec, op: StoreOpSpec) -> StoreSpec {
    match op {
        StoreOpSpec::Keep => kv,
        StoreOpSpec::Put { key, content, md5, history_id, history_table_id } => kv.insert(
            key.text(),
            (content, md5),
        ),
        StoreOpSpec::Delete { key } => kv.remove(key.text()),
    }
}

/// What an event asks of the store: only committed commands ask anything.
pub open spec fn asked(m: ConfigActorSpec, ev: ConfigEvent) -> StoreOpSpec {
    match ev {
        ConfigEvent::Commit(cmd) => m.applied_op(cmd),
        _ => StoreOpSpec::Keep,
    }
}

/// For every confirmed entry of the cache the store holds the primary
/// record of the key, with the same content and the same digest.
pub open spec fn mirrored(m: ConfigActorSpec, kv: StoreSpec) -> bool {
    forall|k: ConfigKeySpec| #[trigger]
        m.cache.contains_key(k) && !m.cache[k].tmp ==> k.plain() && kv.contains_key(k.text())
            && kv[k.text()] == (m.cache[k].content, m.cache[k].md5)
}

/// The records are what a scan of the store gives: each has a plain key,
/// and the store holds its content, with the digest of the content, under
/// the canonical text of the key.
pub open spec fn scanned(kv: StoreSpec, entries: Seq<(ConfigKeySpec, ConfigValueSpec)>) -> bool {
    forall|i: int|
        0 <= i < entries.len() ==> (#[trigger] entries[i]).0.plain() && kv.contains_key(
            entries[i].0.text(),
        ) && kv[entries[i].0.text()] == (entries[i].1.content, entries[i].1.md5)
}

/// Each entry of the cache made from a row of entries is one of the row.
proof fn lemma_cache_of_entry(entries: Seq<(ConfigKeySpec, ConfigValueSpec)>, k: ConfigKeySpec)
    requires
        cache_of(entries).contains_key(k),
    ensures
        exists|i: int| 0 <= i < entries.len() && #[trigger] entries[i] == (k, cache_of(entries)[k]),
    decreases entries.len(),
{
    if entries.len() > 0 {
        let r = entries.drop_last();
        let last = entries[entries.len() - 1];
        if k == last.0 {
            assert(entries[entries.len() - 1] == (k, cache_of(entries)[k]));
        } else {
            lemma_cache_of_entry(r, k);
            let i = choose|i: int| 0 <= i < r.len() && #[trigger] r[i] == (k, cache_of(r)[k]);
            assert(entries[i] == r[i]);
        }
    }
}

/// The store mirrors the confirmed entries of the cache, event after event,
/// as long as the store does what the committed commands ask of it and a
/// snapshot is read from what the store holds.
pub proof fn law_store_mirrors_cache(m: ConfigActorSpec, kv: StoreSpec, ev: ConfigEvent)
    requires
        mirrored(m, kv),
        ev matches ConfigEvent::Commit(ConfigRaftCmdSpec::ApplySnaphot { records }) ==> scanned(
            kv,
            entries_of(records),
        ),
    ensures
        mirrored(after(m, ev), stored(kv, asked(m, ev))),
        mirrored(ConfigActorSpec::empty(), kv),
{
    let r = after(m, ev);
    let kv_next = stored(kv, asked(m, ev));
    assert forall|k: ConfigKeySpec| #[trigger]
        r.cache.contains_key(k) && !r.cache[k].tmp implies k.plain() && kv_next.contains_key(k.text())
        && kv_next[k.text()] == (r.cache[k].content, r.cache[k].md5) by {
        match ev {
            ConfigEvent::Commit(cmd) => {
                match cmd {
                    ConfigRaftCmdSpec::ConfigAdd { key, value, history_id, history_table_id } => {
                        let k0 = ConfigKeySpec::of_text(key);
                        lemma_of_text_plain(key);
                        if k != k0 {
                            assert(m.cache.contains_key(k));
                            if k.text() == k0.text() {
                                lemma_text_injective(k, k0);
                            }
                        } else {
                            assert(m.suppressed(k0, ConfigValueSpec::of_content(value).md5)
                                ==> m.cache.contains_key(k));
                        }
                    },
                    ConfigRaftCmdSpec::ConfigRemove { key } => {
                        let k0 = ConfigKeySpec::of_text(key);
                        lemma_of_text_plain(key);
                        assert(m.cache.contains_key(k));
                        if k.text() == k0.text() {
                            lemma_text_injective(k, k0);
                        }
                    },
                    ConfigRaftCmdSpec::ApplySnaphot { records } => {
                        let entries = entries_of(records);
                        lemma_cache_of_entry(entries, k);
                        let i = choose|i: int|
                            0 <= i < entries.len() && #[trigger] entries[i] == (
                                k,
                                cache_of(entries)[k],
                            );
                        assert(entries[i].0 == k);
                    },
                }
            },
            ConfigEvent::Seed(key, content) => {
                assert(k != key);
                assert(m.cache.contains_key(k));
            },
            _ => {
                assert(m.cache.contains_key(k));
            },
        }
    }
}

/// The store after a row of events, from an empty store, where the store
/// does what every committed command asks of it.
pub open spec fn store_run(events: Seq<ConfigEvent>) -> StoreSpec
    decreases events.len(),
{
    if events.len() == 0 {
        Map::empty()
    } else {
        stored(store_run(events.drop_last()), asked(run(events.drop_last()), events.last()))
    }
}

/// Every snapshot among the events was read from what the store held then.
pub open spec fn snapshots_scanned(events: Seq<ConfigEvent>) -> bool
    decreases events.len(),
{
    if events.len() == 0 {
        true
    } else {
        &&& snapshots_scanned(events.drop_last())
        &&& match events.last() {
            ConfigEvent::Commit(ConfigRaftCmdSpec::ApplySnaphot { records }) => scanned(
                store_run(events.drop_last()),
                entries_of(records),
            ),
            _ => true,
        }
    }
}

/// After any row of events the store holds, for every confirmed entry of
/// the cache, the primary record of the key with the same content and the
/// same digest, as long as the store did what the committed commands asked
/// of it and every snapshot was read from what the store held.
pub proof fn law_store_mirrors_cache_always(events: Seq<ConfigEvent>)
    requires
        snapshots_scanned(events),
    ensures
        mirrored(run(events), store_run(events)),
    decreases events.len(),
{
    if events.len() > 0 {
        law_store_mirrors_cache_always(events.drop_last());
        law_store_mirrors_cache(
            run(events.drop_last()),
            store_run(events.drop_last()),
            events.last(),
        );
    }
}

/// Whenever a long-poll request came in, the ids of the waiters were not
/// used up.
pub open spec fn waiter_ids_last(events: Seq<ConfigEvent>) -> bool
    decreases events.len(),
{
    if events.len() == 0 {
        true
    } else {
        &&& waiter_ids_last(events.drop_last())
        &&& match events.last() {
            ConfigEvent::Listen(items, time) => run(events.drop_last()).listener.version
                < u64::MAX,
            _ => true,
        }
    }
}

/// After any row of events the listener engine is in order: every waiter
/// that is still parked has a deadline entry, no waiter was answered twice,
/// none that was answered is parked, and every answer given to a parked
/// waiter was the empty answer of a deadline or a change set with a key in it.
pub proof fn law_waiters_answered_once(events: Seq<ConfigEvent>)
    requires
        waiter_ids_last(events),
    ensures
        run(events).listener.wf(),
    decreases events.len(),
{
    if events.len() == 0 {
        assert(crate::config::listener::answered_ids(ListenerSpec::empty().answered)
            =~= Seq::<u64>::empty());
        assert(crate::config::listener::bucket_ids(ListenerSpec::empty().deadlines)
            =~= Seq::<u64>::empty());
    } else {
        law_waiters_answered_once(events.drop_last());
        let m = run(events.drop_last());
        match events.last() {
            ConfigEvent::Commit(cmd) => {
                match cmd {
                    ConfigRaftCmdSpec::ConfigAdd { key, value, history_id, history_table_id } => {
                        lemma_notified_wf(m.listener, ConfigKeySpec::of_text(key));
                    },
                    ConfigRaftCmdSpec::ConfigRemove { key } => {
                        lemma_notified_wf(m.listener, ConfigKeySpec::of_text(key));
                    },
                    ConfigRaftCmdSpec::ApplySnaphot { records } => {},
                }
            },
            ConfigEvent::Listen(items, time) => {
                lemma_added_wf(m.listener, watched_keys(items), time);
            },
            ConfigEvent::Sweep(now) => {
                lemma_swept_wf(m.listener, now);
            },
            _ => {},
        }
    }
}

/// How the caches of the live node and of a replay of its log stand to
/// each other: an entry of the replay is confirmed and is in the live
/// cache, seeded or with the same digest; a confirmed entry of the live
/// cache is in the cache of the replay; and a key that was never seeded has
/// the same entry in both, or none.
pub open spec fn caches_follow(
    live: ConfigActorSpec,
    replay: ConfigActorSpec,
    seeded: Set<ConfigKeySpec>,
) -> bool {
    &&& forall|k: ConfigKeySpec| #[trigger]
        replay.cache.contains_key(k) ==> !replay.cache[k].tmp && live.cache.contains_key(k) && (
        live.cache[k].tmp || live.cache[k].md5 == replay.cache[k].md5)
    &&& forall|k: ConfigKeySpec| #[trigger]
        live.cache.contains_key(k) ==> (!live.cache[k].tmp ==> replay.cache.contains_key(k))
            && (!seeded.contains(k) ==> replay.cache.contains_key(k) && live.cache[k]
            == replay.cache[k])
}

/// How the live node and a replay of its log stand to each other: their
/// caches follow each other, every key of the live index is in the index
/// of the replay, and outside the keys that were seeded the two indexes
/// hold the same keys.
pub open spec fn follows(
    live: ConfigActorSpec,
    replay: ConfigActorSpec,
    seeded: Set<ConfigKeySpec>,
) -> bool {
    &&& caches_follow(live, replay, seeded)
    &&& forall|k: ConfigKeySpec| #[trigger] live.index.contains(k) ==> replay.index.contains(k)
    &&& forall|k: ConfigKeySpec|
        !seeded.contains(k) && #[trigger] replay.index.contains(k) ==> live.index.contains(k)
}

/// Where the caches follow each other, so do the indexes.
proof fn lemma_indexes_follow(
    live: ConfigActorSpec,
    replay: ConfigActorSpec,
    seeded: Set<ConfigKeySpec>,
)
    requires
        caches_follow(live, replay, seeded),
        store_ok(live),
        store_ok(replay),
    ensures
        follows(live, replay, seeded),
{
    assert forall|k: ConfigKeySpec| #[trigger] live.index.contains(k) implies replay.index.contains(
        k,
    ) by {
        lemma_exact_at(live, k);
        lemma_exact_at(replay, k);
        assert(live.cache.contains_key(k));
        assert(replay.cache.contains_key(k));
    }
    assert forall|k: ConfigKeySpec|
        !seeded.contains(k) && #[trigger] replay.index.contains(k) implies live.index.contains(
        k,
    ) by {
        lemma_exact_at(live, k);
        lemma_exact_at(replay, k);
        assert(replay.cache.contains_key(k));
        assert(live.cache.contains_key(k));
    }
}

/// A committed command keeps the caches of the live node and of the replay
/// in step.
proof fn lemma_follows_commit(
    live: ConfigActorSpec,
    replay: ConfigActorSpec,
    seeded: Set<ConfigKeySpec>,
    cmd: ConfigRaftCmdSpec,
)
    requires
        caches_follow(live, replay, seeded),
    ensures
        caches_follow(live.applied(cmd), replay.applied(cmd), seeded),
{
    let live_next = live.applied(cmd);
    let replay_next = replay.applied(cmd);
    match cmd {
        ConfigRaftCmdSpec::ConfigAdd { key, value, history_id, history_table_id } => {
            let k0 = ConfigKeySpec::of_text(key);
            let v = ConfigValueSpec::of_content(value);
            if live.cache.contains_key(k0) {
                assert(!live.cache[k0].tmp ==> replay.cache.contains_key(k0));
            }
            if replay.cache.contains_key(k0) {
                assert(live.cache.contains_key(k0));
            }
            assert(live.suppressed(k0, v.md5) ==> replay.suppressed(k0, v.md5));
            assert forall|k: ConfigKeySpec| #[trigger]
                replay_next.cache.contains_key(k) implies !replay_next.cache[k].tmp && live_next.cache.contains_key(k) && (
            live_next.cache[k].tmp || live_next.cache[k].md5 == replay_next.cache[k].md5) by {
                if k != k0 {
                    assert(replay.cache.contains_key(k));
                } else if replay.suppressed(k0, v.md5) {
                    assert(replay.cache.contains_key(k));
                }
            }
            assert forall|k: ConfigKeySpec| #[trigger]
                live_next.cache.contains_key(k) implies (!live_next.cache[k].tmp ==> replay_next.cache.contains_key(k))
                && (!seeded.contains(k) ==> replay_next.cache.contains_key(k) && live_next.cache[k]
                == replay_next.cache[k]) by {
                if k != k0 {
                    assert(live.cache.contains_key(k));
                } else if live.cache.contains_key(k0) {
                    assert(!seeded.contains(k0) ==> live.cache[k0] == replay.cache[k0]);
                } else if !seeded.contains(k0) {
                    assert(!replay.cache.contains_key(k0));
                }
            }
        },
        ConfigRaftCmdSpec::ConfigRemove { key } => {
            let k0 = ConfigKeySpec::of_text(key);
            assert forall|k: ConfigKeySpec| #[trigger]
                replay_next.cache.contains_key(k) implies !replay_next.cache[k].tmp && live_next.cache.contains_key(k) && (
            live_next.cache[k].tmp || live_next.cache[k].md5 == replay_next.cache[k].md5) by {
                assert(replay.cache.contains_key(k));
            }
            assert forall|k: ConfigKeySpec| #[trigger]
                live_next.cache.contains_key(k) implies (!live_next.cache[k].tmp ==> replay_next.cache.contains_key(k))
                && (!seeded.contains(k) ==> replay_next.cache.contains_key(k) && live_next.cache[k]
                == replay_next.cache[k]) by {
                assert(live.cache.contains_key(k));
            }
        },
        ConfigRaftCmdSpec::ApplySnaphot { records } => {
            lemma_entries_of_ok(records);
            lemma_loaded(entries_of(records));
        },
    }
}

/// Replaying the committed commands of a live node on a state machine that
/// has seen nothing yields, for every key that the live node never seeded
/// locally, the entry of the live cache and the same place in the index.
/// For a key that was seeded, a confirmed entry of the live cache still has
/// its digest in the replay, and the key is in the index of the replay
/// whenever it is in the live one.
pub proof fn law_replay_matches_live(events: Seq<ConfigEvent>)
    ensures
        follows(run(events), run(commits_of(events)), seeded_keys(events)),
{
    lemma_caches_follow(events);
    lemma_run_store_ok(events);
    lemma_run_store_ok(commits_of(events));
    lemma_indexes_follow(run(events), run(commits_of(events)), seeded_keys(events));
}

/// The caches of the live node and of the replay follow each other after
/// any row of events.
proof fn lemma_caches_follow(events: Seq<ConfigEvent>)
    ensures
        caches_follow(run(events), run(commits_of(events)), seeded_keys(events)),
    decreases events.len(),
{
    if events.len() == 0 {
        assert(caches_follow(ConfigActorSpec::empty(), ConfigActorSpec::empty(), Set::empty()));
    } else {
        let before = events.drop_last();
        let ev = events.last();
        let live = run(before);
        let replay = run(commits_of(before));
        let seeded = seeded_keys(before);
        lemma_caches_follow(before);
        let live_next = run(events);
        let replay_next = run(commits_of(events));
        match ev {
            ConfigEvent::Commit(cmd) => {
                assert(commits_of(events).drop_last() =~= commits_of(before));
                assert(commits_of(events).last() == ev);
                assert(replay_next == replay.applied(cmd));
                lemma_follows_commit(live, replay, seeded, cmd);
            },
            ConfigEvent::Seed(key, content) => {
                assert(replay_next == replay);
                assert forall|k: ConfigKeySpec| #[trigger]
                    replay_next.cache.contains_key(k) implies !replay_next.cache[k].tmp && live_next.cache.contains_key(k)
                    && (live_next.cache[k].tmp || live_next.cache[k].md5 == replay_next.cache[k].md5) by {
                    assert(replay.cache.contains_key(k));
                }
                assert forall|k: ConfigKeySpec| #[trigger]
                    live_next.cache.contains_key(k) implies (!live_next.cache[k].tmp ==> replay_next.cache.contains_key(
                    k,
                )) && (!seeded_keys(events).contains(k) ==> replay_next.cache.contains_key(k)
                    && live_next.cache[k] == replay_next.cache[k]) by {
                    if k != key {
                        assert(live.cache.contains_key(k));
                    }
                }
            },
            _ => {
                assert(replay_next == replay);
                assert(live_next.cache == live.cache);
                assert(seeded_keys(events) == seeded);
            },
        }
    }
}

/// The value of the last write of the key among the commands, where that
/// write is an add; nothing where the key was never written or was removed
/// last.
pub open spec fn last_write(cmds: Seq<ConfigRaftCmdSpec>, k: ConfigKeySpec) -> Option<Seq<char>>
    decreases cmds.len(),
{
    if cmds.len() == 0 {
        None
    } else {
        match cmds.last() {
            ConfigRaftCmdSpec::ConfigAdd { key, value, history_id, history_table_id } => {
                if ConfigKeySpec::of_text(key) == k {
                    Some(value)
                } else {
                    last_write(cmds.drop_last(), k)
                }
            },
            ConfigRaftCmdSpec::ConfigRemove { key } => {
                if ConfigKeySpec::of_text(key) == k {
                    None
                } else {
                    last_write(cmds.drop_last(), k)
                }
            },
            ConfigRaftCmdSpec::ApplySnaphot { records } => last_write(cmds.drop_last(), k),
        }
    }
}

/// The commands are adds and removes only.
pub open spec fn writes_only(cmds: Seq<ConfigRaftCmdSpec>) -> bool {
    forall|i: int| 0 <= i < cmds.len() ==> !(#[trigger] cmds[i] is ApplySnaphot)
}

/// The state after a row of committed commands, from a state machine that
/// has seen nothing.
pub open spec fn replayed(cmds: Seq<ConfigRaftCmdSpec>) -> ConfigActorSpec
    decreases cmds.len(),
{
    if cmds.len() == 0 {
        ConfigActorSpec::empty()
    } else {
        replayed(cmds.drop_last()).applied(cmds.last())
    }
}

/// The log decides the state: after any row of adds and removes the cache
/// holds a key exactly when the last command on the key was an add, as a
/// confirmed entry with the digest of that add's value, and the index
/// holds the same keys. Two nodes that apply the same log hold the same
/// cache and the same index.
pub proof fn law_log_decides_state(cmds: Seq<ConfigRaftCmdSpec>, k: ConfigKeySpec)
    requires
        writes_only(cmds),
    ensures
        store_ok(replayed(cmds)),
        replayed(cmds).cache.contains_key(k) <==> last_write(cmds, k) is Some,
        replayed(cmds).index.contains(k) <==> last_write(cmds, k) is Some,
        last_write(cmds, k) matches Some(value) ==> replayed(cmds).cache[k].md5
            == ConfigValueSpec::of_content(value).md5 && !replayed(cmds).cache[k].tmp,
    decreases cmds.len(),
{
    if cmds.len() == 0 {
        assert(store_ok(ConfigActorSpec::empty()));
    } else {
        let before = cmds.drop_last();
        assert forall|i: int| 0 <= i < before.len() implies !(#[trigger] before[i] is ApplySnaphot) by {
            assert(before[i] == cmds[i]);
        }
        law_log_decides_state(before, k);
        let m = replayed(before);
        let cmd = cmds[cmds.len() - 1];
        lemma_store_ok_after(m, ConfigEvent::Commit(cmd));
        lemma_exact_at(replayed(cmds), k);
        lemma_exact_at(m, k);
    }
}

/// A committed write whose digest is that of the confirmed entry of the key
/// changes nothing and writes nothing: no primary record, no history entry.
pub proof fn law_same_digest_writes_nothing(
    m: ConfigActorSpec,
    key: ConfigKeySpec,
    value: ConfigValueSpec,
    history_id: u64,
    history_table_id: Option<u64>,
)
    requires
        m.cache.contains_key(key),
        !m.cache[key].tmp,
        m.cache[key].md5 == value.md5,
    ensures
        m.set(key, value) == m,
        m.set_op(key, value, history_id, history_table_id) is Keep,
        m.set_woken(key, value).len() == 0,
        m.set_notified(key, value).len() == 0,
{
}

/// A committed write over a seeded entry is written with its history entry
/// whatever its digest, and the entry is confirmed from then on.
pub proof fn law_seeded_entry_is_overwritten(
    m: ConfigActorSpec,
    key: ConfigKeySpec,
    value: ConfigValueSpec,
    history_id: u64,
    history_table_id: Option<u64>,
)
    requires
        m.cache.contains_key(key),
        m.cache[key].tmp,
    ensures
        m.set_op(key, value, history_id, history_table_id) == (StoreOpSpec::Put {
            key,
            content: value.content,
            md5: value.md5,
            history_id,
            history_table_id,
        }),
        m.set(key, value).cache[key] == value,
{
}

/// A long-poll request whose deadline is not after zero is never parked:
/// it is answered at once with the keys that changed, be they none, and the
/// waiters stay as they are.
pub proof fn law_no_deadline_no_wait(m: ConfigActorSpec, items: Seq<ListenerItemSpec>, time: i64)
    requires
        time <= 0,
    ensures
        m.listened(items, time) == (ConfigActorSpec {
            at_once: m.at_once.push(ListenerResultSpec::DATA(changed_keys(m.cache, items))),
            ..m
        }),
        m.listened(items, time).listener == m.listener,
{
}

/// A long-poll request is parked only when none of its keys has changed
/// and its deadline is after zero; otherwise it is answered at once with
/// the keys that changed.
pub proof fn law_parked_only_if_unchanged(
    m: ConfigActorSpec,
    items: Seq<ListenerItemSpec>,
    time: i64,
)
    ensures
        m.listened(items, time).listener != m.listener ==> changed_keys(m.cache, items).len() == 0
            && time > 0,
        changed_keys(m.cache, items).len() > 0 ==> m.listened(items, time).listener == m.listener
            && m.listened(items, time).at_once.last() == ListenerResultSpec::DATA(
            changed_keys(m.cache, items),
        ),
{
}

} // verus!
