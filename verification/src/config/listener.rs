//! The long-poll listener engine: waiters parked by watched key and by
//! deadline, woken by a change of a key they watch or by their deadline,
//! whichever comes first.

use std::collections::HashMap;
use vstd::prelude::*;
use crate::config::config_core::{ConfigKey, ConfigKeySpec};
use crate::config::wire::{key_views, ListenerItem, ListenerItemSpec};
use crate::keyed::KeyMap;
use crate::utils::clock_millis;

verus! {

/// One sweep of the deadlines takes at most this many buckets; what is left
/// waits for the next sweep.
pub const SWEEP_LIMIT: usize = 10000;

/// The sweep of the deadlines runs every so often.
pub const LISTENER_TICK_MS: u64 = 500;

/// What a long-poll request is answered with: nothing changed before the
/// deadline, or the keys that changed.
pub enum ListenerResult {
    NULL,
    DATA(Vec<ConfigKey>),
}

/// An answer to a long-poll request, over texts.
pub enum ListenerResultSpec {
    NULL,
    DATA(Seq<ConfigKeySpec>),
}

impl View for ListenerResult {
    type V = ListenerResultSpec;

    open spec fn view(&self) -> ListenerResultSpec {
        match self {
            ListenerResult::NULL => ListenerResultSpec::NULL,
            ListenerResult::DATA(keys) => ListenerResultSpec::DATA(key_views(keys@)),
        }
    }
}

impl ListenerResultSpec {
    /// The answer of a waiter that was parked: the empty answer of a
    /// deadline, or a change set that is not empty.
    pub open spec fn proper(self) -> bool {
        match self {
            ListenerResultSpec::NULL => true,
            ListenerResultSpec::DATA(keys) => keys.len() > 0,
        }
    }
}

/// The sending half of a oneshot channel of `tokio`, carried through as it is.
#[verifier::external_type_specification]
#[verifier::external_body]
#[verifier::reject_recursive_types(T)]
pub struct ExOneshotSender<T>(tokio::sync::oneshot::Sender<T>);

/// The sink of a long-poll request: whoever holds it answers the request, once.
pub type ListenerSenderType = tokio::sync::oneshot::Sender<ListenerResult>;

/// `Sender::send` of a oneshot channel consumes the sender and hands the
/// result to the receiving half, or fails when that half is gone. The
/// wrapper says which; a waiter that no longer listens has already seen an
/// outcome, so callers may ignore the answer.
#[verifier::external_body]
pub(crate) fn resolve(sender: ListenerSenderType, result: ListenerResult) -> (delivered: bool) {
    sender.send(result).is_ok()
}

/// The ids of all the waiters in a row of deadline buckets, bucket by bucket.
pub open spec fn bucket_ids(d: Seq<(i64, Seq<u64>)>) -> Seq<u64>
    decreases d.len(),
{
    if d.len() == 0 {
        Seq::empty()
    } else {
        bucket_ids(d.drop_last()) + d.last().1
    }
}

/// The number of buckets with a deadline before `t`.
pub open spec fn below(d: Seq<(i64, Seq<u64>)>, t: i64) -> int
    decreases d.len(),
{
    if d.len() == 0 {
        0
    } else if d.last().0 < t {
        below(d.drop_last(), t) + 1
    } else {
        below(d.drop_last(), t)
    }
}

/// The deadlines ascend strictly along the row.
pub open spec fn deadlines_ascend(d: Seq<(i64, Seq<u64>)>) -> bool {
    forall|i: int, j: int| 0 <= i < j < d.len() ==> (#[trigger] d[i]).0 < (#[trigger] d[j]).0
}

/// The waiters among `ids` that are parked, each once, in the order in which
/// `ids` first names them: those that a wake-up along `ids` answers.
pub open spec fn fire(ids: Seq<u64>, parked: Set<u64>) -> Seq<u64>
    decreases ids.len(),
{
    if ids.len() == 0 {
        Seq::empty()
    } else {
        let rest = fire(ids.drop_last(), parked);
        if parked.contains(ids.last()) && !rest.contains(ids.last()) {
            rest.push(ids.last())
        } else {
            rest
        }
    }
}

/// The answers that a wake-up gives: the same result to each waiter.
pub open spec fn answers(ids: Seq<u64>, result: ListenerResultSpec) -> Seq<
    (u64, ListenerResultSpec),
> {
    Seq::new(ids.len(), |i: int| (ids[i], result))
}

/// The ids of a row of answers.
pub open spec fn answered_ids(log: Seq<(u64, ListenerResultSpec)>) -> Seq<u64> {
    Seq::new(log.len(), |i: int| log[i].0)
}

/// The waiters of one key with one more.
pub open spec fn watch_one(
    w: Map<ConfigKeySpec, Seq<u64>>,
    key: ConfigKeySpec,
    id: u64,
) -> Map<ConfigKeySpec, Seq<u64>> {
    if w.contains_key(key) {
        w.insert(key, w[key].push(id))
    } else {
        w.insert(key, seq![id])
    }
}

/// The waiters by key after the waiter `id` joined those of each of `keys`.
pub open spec fn watch_all(
    w: Map<ConfigKeySpec, Seq<u64>>,
    keys: Seq<ConfigKeySpec>,
    id: u64,
) -> Map<ConfigKeySpec, Seq<u64>>
    decreases keys.len(),
{
    if keys.len() == 0 {
        w
    } else {
        watch_one(watch_all(w, keys.drop_last(), id), keys.last(), id)
    }
}

/// The deadline buckets after the waiter `id` joined the bucket of `time`,
/// which is made at its place in the ascending order where there is none.
pub open spec fn bucket_added(d: Seq<(i64, Seq<u64>)>, time: i64, id: u64) -> Seq<
    (i64, Seq<u64>),
> {
    let p = below(d, time);
    if p < d.len() && d[p].0 == time {
        d.update(p, (time, d[p].1.push(id)))
    } else {
        d.insert(p, (time, seq![id]))
    }
}

/// The keys that a row of items watches.
pub open spec fn watched_keys(items: Seq<ListenerItemSpec>) -> Seq<ConfigKeySpec> {
    Seq::new(items.len(), |i: int| items[i].key)
}

/// The state of the engine.
pub struct ListenerSpec {
    /// The id of the waiter that was parked last.
    pub version: u64,
    /// The waiters of each watched key, in the order in which they came.
    pub watchers: Map<ConfigKeySpec, Seq<u64>>,
    /// The waiters of each deadline, the deadlines ascending.
    pub deadlines: Seq<(i64, Seq<u64>)>,
    /// The waiters that are still to be answered.
    pub parked: Set<u64>,
    /// The answers given so far, in order.
    pub answered: Seq<(u64, ListenerResultSpec)>,
}

impl ListenerSpec {
    /// What holds of the engine at all times. Every parked waiter has a
    /// deadline entry, so a sweep reaches it; no waiter was answered twice,
    /// none that was answered is still parked, and every answer is proper.
    pub open spec fn wf(self) -> bool {
        &&& deadlines_ascend(self.deadlines)
        &&& forall|id: u64| #[trigger]
            self.parked.contains(id) ==> 1 <= id <= self.version && bucket_ids(
                self.deadlines,
            ).contains(id)
        &&& answered_ids(self.answered).no_duplicates()
        &&& forall|i: int|
            0 <= i < self.answered.len() ==> {
                &&& (#[trigger] self.answered[i]).0 <= self.version
                &&& !self.parked.contains(self.answered[i].0)
                &&& self.answered[i].1.proper()
            }
    }

    /// The engine with nothing parked and nothing answered.
    pub open spec fn empty() -> Self {
        ListenerSpec {
            version: 0,
            watchers: Map::empty(),
            deadlines: Seq::empty(),
            parked: Set::empty(),
            answered: Seq::empty(),
        }
    }

    /// The engine after a waiter for `keys` with the deadline `time` was parked.
    pub open spec fn added(self, keys: Seq<ConfigKeySpec>, time: i64) -> Self {
        let id = (self.version + 1) as u64;
        ListenerSpec {
            version: id,
            watchers: watch_all(self.watchers, keys, id),
            deadlines: bucket_added(self.deadlines, time, id),
            parked: self.parked.insert(id),
            answered: self.answered,
        }
    }

    /// The waiters that a change of `key` wakes.
    pub open spec fn notify_woken(self, key: ConfigKeySpec) -> Seq<u64> {
        if self.watchers.contains_key(key) {
            fire(self.watchers[key], self.parked)
        } else {
            Seq::empty()
        }
    }

    /// The engine after a change of `key`: the waiters of the key that were
    /// still parked are answered with the key, and the key has no waiters.
    /// Their deadline entries stay behind for a sweep to reap.
    pub open spec fn notified(self, key: ConfigKeySpec) -> Self {
        let woken = self.notify_woken(key);
        ListenerSpec {
            watchers: self.watchers.remove(key),
            parked: self.parked.difference(woken.to_set()),
            answered: self.answered + answers(woken, ListenerResultSpec::DATA(seq![key])),
            ..self
        }
    }

    /// The number of buckets that a sweep at `now` takes: those with a
    /// deadline before `now`, up to the limit.
    pub open spec fn expired(self, now: i64) -> int {
        let n = below(self.deadlines, now);
        if n <= SWEEP_LIMIT as int {
            n
        } else {
            SWEEP_LIMIT as int
        }
    }

    /// The waiters that a sweep at `now` wakes.
    pub open spec fn sweep_woken(self, now: i64) -> Seq<u64> {
        fire(bucket_ids(self.deadlines.take(self.expired(now))), self.parked)
    }

    /// The engine after a sweep at `now`: the expired buckets are gone, and
    /// their waiters that were still parked are answered with the empty result.
    pub open spec fn swept(self, now: i64) -> Self {
        let woken = self.sweep_woken(now);
        ListenerSpec {
            deadlines: self.deadlines.skip(self.expired(now)),
            parked: self.parked.difference(woken.to_set()),
            answered: self.answered + answers(woken, ListenerResultSpec::NULL),
            ..self
        }
    }
}

/// Along ascending deadlines, the position up to which the deadlines lie
/// before `t` is the number of deadlines before `t`.
pub proof fn lemma_below(d: Seq<(i64, Seq<u64>)>, t: i64, p: int)
    requires
        deadlines_ascend(d),
        0 <= p <= d.len(),
        forall|k: int| 0 <= k < p ==> (#[trigger] d[k]).0 < t,
        forall|k: int| p <= k < d.len() ==> (#[trigger] d[k]).0 >= t,
    ensures
        below(d, t) == p,
    decreases d.len(),
{
    if d.len() > 0 {
        let r = d.drop_last();
        assert forall|i: int, j: int| 0 <= i < j < r.len() implies (#[trigger] r[i]).0 < (
        #[trigger] r[j]).0 by {
            assert(r[i] == d[i] && r[j] == d[j]);
        }
        let last = d.len() - 1;
        if d.last().0 < t {
            assert(p == d.len()) by {
                if p < d.len() {
                    assert(d[last].0 >= t);
                }
            }
            assert forall|k: int| 0 <= k < p - 1 implies (#[trigger] r[k]).0 < t by {
                assert(r[k] == d[k]);
            }
            lemma_below(r, t, p - 1);
        } else {
            assert(p <= last) by {
                if p == d.len() {
                    assert(d[last].0 < t);
                }
            }
            assert forall|k: int| 0 <= k < p implies (#[trigger] r[k]).0 < t by {
                assert(r[k] == d[k]);
            }
            assert forall|k: int| p <= k < r.len() implies (#[trigger] r[k]).0 >= t by {
                assert(r[k] == d[k]);
            }
            lemma_below(r, t, p);
        }
    }
}

/// `below` counts no more buckets than there are, and along ascending
/// deadlines it parts those before `t` from the others.
pub proof fn lemma_below_parts(d: Seq<(i64, Seq<u64>)>, t: i64)
    requires
        deadlines_ascend(d),
    ensures
        0 <= below(d, t) <= d.len(),
        forall|k: int| 0 <= k < below(d, t) ==> (#[trigger] d[k]).0 < t,
        forall|k: int| below(d, t) <= k < d.len() ==> (#[trigger] d[k]).0 >= t,
    decreases d.len(),
{
    if d.len() > 0 {
        let r = d.drop_last();
        let last = d.len() - 1;
        assert forall|i: int, j: int| 0 <= i < j < r.len() implies (#[trigger] r[i]).0 < (
        #[trigger] r[j]).0 by {
            assert(r[i] == d[i] && r[j] == d[j]);
        }
        lemma_below_parts(r, t);
        let b = below(r, t);
        assert forall|k: int| 0 <= k < below(d, t) implies (#[trigger] d[k]).0 < t by {
            if k < b {
                assert(r[k] == d[k]);
            } else if k < last {
                assert(r[k] == d[k]);
                assert(d[k].0 < d[last].0);
            }
        }
        assert forall|k: int| below(d, t) <= k < d.len() implies (#[trigger] d[k]).0 >= t by {
            if k < last {
                assert(r[k] == d[k]);
                if d.last().0 < t {
                    assert(b <= k);
                    assert(d[k].0 < d[last].0);
                }
            }
        }
    }
}

/// The ids of a row of buckets are those of its first `n` buckets followed
/// by those of the rest.
pub proof fn lemma_bucket_ids_split(d: Seq<(i64, Seq<u64>)>, n: int)
    requires
        0 <= n <= d.len(),
    ensures
        bucket_ids(d) == bucket_ids(d.take(n)) + bucket_ids(d.skip(n)),
    decreases d.len() - n,
{
    if n == d.len() {
        assert(d.take(n) =~= d);
        assert(d.skip(n) =~= Seq::<(i64, Seq<u64>)>::empty());
        assert(bucket_ids(d) =~= bucket_ids(d) + Seq::<u64>::empty());
    } else {
        let s = d.skip(n);
        assert(d.drop_last().take(n) =~= d.take(n));
        assert(d.drop_last().skip(n) =~= s.drop_last());
        assert(s.last() == d.last());
        lemma_bucket_ids_split(d.drop_last(), n);
        assert(bucket_ids(d) =~= bucket_ids(d.take(n)) + bucket_ids(s));
    }
}

/// An id is among the ids of a row of buckets exactly when one of the
/// buckets holds it.
pub proof fn lemma_bucket_ids_contains(d: Seq<(i64, Seq<u64>)>, id: u64)
    ensures
        bucket_ids(d).contains(id) <==> exists|k: int|
            0 <= k < d.len() && (#[trigger] d[k]).1.contains(id),
    decreases d.len(),
{
    if d.len() > 0 {
        let r = d.drop_last();
        let last = d.len() - 1;
        lemma_bucket_ids_contains(r, id);
        let a = bucket_ids(r);
        let b = d.last().1;
        assert(bucket_ids(d) == a + b);
        if bucket_ids(d).contains(id) {
            let i = choose|i: int| 0 <= i < (a + b).len() && (a + b)[i] == id;
            if i < a.len() {
                assert(a[i] == id);
                let k = choose|k: int| 0 <= k < r.len() && (#[trigger] r[k]).1.contains(id);
                assert(d[k] == r[k]);
            } else {
                assert(b[i - a.len()] == id);
                assert(d[last].1.contains(id));
            }
        }
        if exists|k: int| 0 <= k < d.len() && (#[trigger] d[k]).1.contains(id) {
            let k = choose|k: int| 0 <= k < d.len() && (#[trigger] d[k]).1.contains(id);
            if k < last {
                assert(r[k] == d[k]);
                let i = choose|i: int| 0 <= i < a.len() && a[i] == id;
                assert((a + b)[i] == id);
            } else {
                let i = choose|i: int| 0 <= i < b.len() && b[i] == id;
                assert((a + b)[a.len() + i] == id);
            }
        }
    }
}

/// A wake-up answers exactly the parked waiters among `ids`, each once.
pub proof fn lemma_fire(ids: Seq<u64>, parked: Set<u64>)
    ensures
        fire(ids, parked).no_duplicates(),
        forall|x: u64| #[trigger]
            fire(ids, parked).contains(x) <==> ids.contains(x) && parked.contains(x),
    decreases ids.len(),
{
    if ids.len() > 0 {
        let r = ids.drop_last();
        let x0 = ids.last();
        lemma_fire(r, parked);
        let rest = fire(r, parked);
        let f = fire(ids, parked);
        assert forall|x: u64| #[trigger] f.contains(x) <==> ids.contains(x) && parked.contains(
            x,
        ) by {
            if rest.contains(x) {
                let i = choose|i: int| 0 <= i < rest.len() && rest[i] == x;
                assert(f[i] == x);
                let j = choose|j: int| 0 <= j < r.len() && r[j] == x;
                assert(ids[j] == x);
            }
            if f.contains(x) && !rest.contains(x) {
                let i = choose|i: int| 0 <= i < f.len() && f[i] == x;
                assert(x == x0);
                assert(ids[ids.len() - 1] == x);
            }
            if ids.contains(x) && parked.contains(x) {
                let j = choose|j: int| 0 <= j < ids.len() && ids[j] == x;
                if j < r.len() {
                    assert(r[j] == x);
                } else if !rest.contains(x) {
                    assert(f[rest.len() as int] == x);
                }
            }
        }
    }
}

/// Answering parked waiters, each once, keeps the record of answers in
/// order: nobody is answered twice.
proof fn lemma_wake_keeps_wf(
    m: ListenerSpec,
    woken: Seq<u64>,
    result: ListenerResultSpec,
    after: ListenerSpec,
)
    requires
        m.wf(),
        woken.no_duplicates(),
        forall|x: u64| #[trigger] woken.contains(x) ==> m.parked.contains(x),
        result.proper(),
        after.version == m.version,
        after.parked == m.parked.difference(woken.to_set()),
        after.answered == m.answered + answers(woken, result),
    ensures
        answered_ids(after.answered).no_duplicates(),
        forall|i: int|
            0 <= i < after.answered.len() ==> {
                &&& (#[trigger] after.answered[i]).0 <= after.version
                &&& !after.parked.contains(after.answered[i].0)
                &&& after.answered[i].1.proper()
            },
{
    let old_ids = answered_ids(m.answered);
    let new_ids = answered_ids(after.answered);
    let n = m.answered.len() as int;
    assert forall|i: int| 0 <= i < after.answered.len() implies {
        &&& (#[trigger] after.answered[i]).0 <= after.version
        &&& !after.parked.contains(after.answered[i].0)
        &&& after.answered[i].1.proper()
    } by {
        if i < n {
            assert(after.answered[i] == m.answered[i]);
        } else {
            assert(after.answered[i] == (woken[i - n], result));
            assert(woken.contains(woken[i - n]));
            assert(woken.to_set().contains(woken[i - n]));
        }
    }
    assert forall|i: int, j: int| 0 <= i < new_ids.len() && 0 <= j < new_ids.len() && i
        != j implies new_ids[i] != new_ids[j] by {
        if i < n && j < n {
            assert(new_ids[i] == old_ids[i] && new_ids[j] == old_ids[j]);
        } else if i >= n && j >= n {
            assert(new_ids[i] == woken[i - n] && new_ids[j] == woken[j - n]);
        } else {
            let (a, b) = if i < n {
                (i, j)
            } else {
                (j, i)
            };
            assert(new_ids[a] == m.answered[a].0);
            assert(new_ids[b] == woken[b - n]);
            assert(woken.contains(woken[b - n]));
        }
    }
}

/// A sweep keeps the engine in order.
pub proof fn lemma_swept_wf(m: ListenerSpec, now: i64)
    requires
        m.wf(),
    ensures
        m.swept(now).wf(),
{
    let n = m.expired(now);
    let after = m.swept(now);
    let woken = m.sweep_woken(now);
    let gone = bucket_ids(m.deadlines.take(n));
    lemma_below_parts(m.deadlines, now);
    lemma_fire(gone, m.parked);
    lemma_bucket_ids_split(m.deadlines, n);
    lemma_wake_keeps_wf(m, woken, ListenerResultSpec::NULL, after);
    assert forall|i: int, j: int| 0 <= i < j < after.deadlines.len() implies (
    #[trigger] after.deadlines[i]).0 < (#[trigger] after.deadlines[j]).0 by {
        assert(after.deadlines[i] == m.deadlines[i + n]);
        assert(after.deadlines[j] == m.deadlines[j + n]);
    }
    assert forall|id: u64| #[trigger] after.parked.contains(id) implies 1 <= id <= after.version
        && bucket_ids(after.deadlines).contains(id) by {
        assert(m.parked.contains(id));
        let all = bucket_ids(m.deadlines);
        let rest = bucket_ids(after.deadlines);
        let i = choose|i: int| 0 <= i < all.len() && all[i] == id;
        if i < gone.len() {
            assert(gone[i] == id);
            assert(woken.contains(id));
            assert(woken.to_set().contains(id));
        } else {
            assert(rest[i - gone.len()] == id);
        }
    }
}

/// A change of a key keeps the engine in order.
pub proof fn lemma_notified_wf(m: ListenerSpec, key: ConfigKeySpec)
    requires
        m.wf(),
    ensures
        m.notified(key).wf(),
{
    let after = m.notified(key);
    let woken = m.notify_woken(key);
    if m.watchers.contains_key(key) {
        lemma_fire(m.watchers[key], m.parked);
    }
    lemma_wake_keeps_wf(m, woken, ListenerResultSpec::DATA(seq![key]), after);
    assert forall|id: u64| #[trigger] after.parked.contains(id) implies 1 <= id <= after.version
        && bucket_ids(after.deadlines).contains(id) by {
        assert(m.parked.contains(id));
    }
}

/// Parking a waiter keeps the engine in order.
pub proof fn lemma_added_wf(m: ListenerSpec, keys: Seq<ConfigKeySpec>, time: i64)
    requires
        m.wf(),
        m.version < u64::MAX,
    ensures
        m.added(keys, time).wf(),
{
    let after = m.added(keys, time);
    let id = (m.version + 1) as u64;
    let d = m.deadlines;
    let e = after.deadlines;
    let p = below(d, time);
    lemma_below_parts(d, time);
    assert forall|i: int, j: int| 0 <= i < j < e.len() implies (#[trigger] e[i]).0 < (
    #[trigger] e[j]).0 by {
        if p < d.len() && d[p].0 == time {
            assert(e[i].0 == d[i].0 && e[j].0 == d[j].0);
        } else {
            let at_i = if i < p { i } else { i - 1 };
            let at_j = if j < p { j } else { j - 1 };
            if i != p {
                assert(e[i] == d[at_i]);
            }
            if j != p {
                assert(e[j] == d[at_j]);
            }
        }
    }
    assert forall|x: u64| #[trigger] after.parked.contains(x) implies 1 <= x <= after.version
        && bucket_ids(e).contains(x) by {
        lemma_bucket_ids_contains(d, x);
        lemma_bucket_ids_contains(e, x);
        if x == id {
            if p < d.len() && d[p].0 == time {
                assert(e[p].1 =~= d[p].1.push(id));
                assert(e[p].1[d[p].1.len() as int] == id);
                assert(e[p].1.contains(id));
            } else {
                assert(e[p].1[0] == id);
                assert(e[p].1.contains(id));
            }
        } else {
            assert(m.parked.contains(x));
            let k = choose|k: int| 0 <= k < d.len() && (#[trigger] d[k]).1.contains(x);
            let i = choose|i: int| 0 <= i < d[k].1.len() && d[k].1[i] == x;
            if p < d.len() && d[p].0 == time {
                if k == p {
                    assert(e[p].1[i] == x);
                } else {
                    assert(e[k] == d[k]);
                }
                assert(e[k].1.contains(x));
            } else {
                let at_k = if k < p { k } else { k + 1 };
                assert(e[at_k] == d[k]);
                assert(e[at_k].1.contains(x));
            }
        }
    }
    assert forall|i: int| 0 <= i < after.answered.len() implies {
        &&& (#[trigger] after.answered[i]).0 <= after.version
        &&& !after.parked.contains(after.answered[i].0)
        &&& after.answered[i].1.proper()
    } by {
        assert(m.answered[i].0 <= m.version);
    }
}

/// A waiter is answered once. Whoever a change of a key or a sweep wakes was
/// parked, is parked no more, and is on record with a proper answer; whoever
/// is on record is never parked again, since the waiter parked next gets an
/// id that no waiter had before.
pub proof fn law_answered_once(m: ListenerSpec, key: ConfigKeySpec, now: i64, id: u64)
    requires
        m.wf(),
    ensures
        m.notify_woken(key).contains(id) ==> m.parked.contains(id) && !m.notified(
            key,
        ).parked.contains(id) && answered_ids(m.notified(key).answered).contains(id),
        m.sweep_woken(now).contains(id) ==> m.parked.contains(id) && !m.swept(now).parked.contains(
            id,
        ) && answered_ids(m.swept(now).answered).contains(id),
        answered_ids(m.answered).contains(id) ==> !m.parked.contains(id) && !m.notified(
            key,
        ).parked.contains(id) && !m.swept(now).parked.contains(id) && (m.version < u64::MAX
            ==> forall|keys: Seq<ConfigKeySpec>, time: i64|
            !(#[trigger] m.added(keys, time)).parked.contains(id)),
        answered_ids(m.notified(key).answered).no_duplicates(),
        answered_ids(m.swept(now).answered).no_duplicates(),
{
    lemma_notified_wf(m, key);
    lemma_swept_wf(m, now);
    if m.watchers.contains_key(key) {
        lemma_fire(m.watchers[key], m.parked);
    }
    lemma_fire(bucket_ids(m.deadlines.take(m.expired(now))), m.parked);
    let nw = m.notify_woken(key);
    if nw.contains(id) {
        assert(nw.to_set().contains(id));
        let i = choose|i: int| 0 <= i < nw.len() && nw[i] == id;
        let log = m.notified(key).answered;
        assert(log[m.answered.len() + i].0 == id);
        assert(answered_ids(log)[m.answered.len() + i] == id);
    }
    let sw = m.sweep_woken(now);
    if sw.contains(id) {
        assert(sw.to_set().contains(id));
        let i = choose|i: int| 0 <= i < sw.len() && sw[i] == id;
        let log = m.swept(now).answered;
        assert(log[m.answered.len() + i].0 == id);
        assert(answered_ids(log)[m.answered.len() + i] == id);
    }
    if answered_ids(m.answered).contains(id) {
        let i = choose|i: int|
            0 <= i < answered_ids(m.answered).len() && answered_ids(m.answered)[i] == id;
        assert(m.answered[i].0 == id);
    }
}

/// A sweep takes no more buckets than the limit, and what it leaves a
/// second sweep at the same time takes up where the first stopped.
pub proof fn law_sweep_bounded(m: ListenerSpec, now: i64)
    requires
        m.wf(),
    ensures
        0 <= m.expired(now) <= SWEEP_LIMIT,
        m.expired(now) <= m.deadlines.len(),
        m.swept(now).deadlines == m.deadlines.skip(m.expired(now)),
        below(m.swept(now).deadlines, now) == below(m.deadlines, now) - m.expired(now),
{
    let d = m.deadlines;
    let n = m.expired(now);
    lemma_below_parts(d, now);
    let rest = d.skip(n);
    let b = below(d, now);
    assert forall|i: int, j: int| 0 <= i < j < rest.len() implies (#[trigger] rest[i]).0 < (
    #[trigger] rest[j]).0 by {
        assert(rest[i] == d[i + n] && rest[j] == d[j + n]);
    }
    assert forall|k: int| 0 <= k < b - n implies (#[trigger] rest[k]).0 < now by {
        assert(rest[k] == d[k + n]);
    }
    assert forall|k: int| b - n <= k < rest.len() implies (#[trigger] rest[k]).0 >= now by {
        assert(rest[k] == d[k + n]);
    }
    lemma_below(rest, now, b - n);
}

/// The waiters of one deadline.
struct TimeBucket {
    time: i64,
    waiters: Vec<u64>,
}

spec fn bucket_views(s: Seq<TimeBucket>) -> Seq<(i64, Seq<u64>)> {
    Seq::new(s.len(), |i: int| (s[i].time, s[i].waiters@))
}

spec fn watchers_of(l: Map<ConfigKeySpec, Vec<u64>>) -> Map<ConfigKeySpec, Seq<u64>> {
    Map::new(|k: ConfigKeySpec| l.contains_key(k), |k: ConfigKeySpec| l[k]@)
}

/// The answer that a wake-up gives: the changed key, or the empty answer of
/// a deadline.
spec fn wake_answer(key: Option<&ConfigKey>) -> ListenerResultSpec {
    match key {
        Some(k) => ListenerResultSpec::DATA(seq![k@]),
        None => ListenerResultSpec::NULL,
    }
}

/// The long-poll listener engine.
pub struct ConfigListener {
    version: u64,
    listener: KeyMap<ConfigKey, Vec<u64>>,
    time_listener: Vec<TimeBucket>,
    sender_map: HashMap<u64, ListenerSenderType>,
    answered: Ghost<Seq<(u64, ListenerResultSpec)>>,
}

impl View for ConfigListener {
    type V = ListenerSpec;

    closed spec fn view(&self) -> ListenerSpec {
        ListenerSpec {
            version: self.version,
            watchers: watchers_of(self.listener@),
            deadlines: bucket_views(self.time_listener@),
            parked: self.sender_map@.dom(),
            answered: self.answered@,
        }
    }
}

impl ConfigListener {
    /// What holds of the representation.
    pub closed spec fn inv(&self) -> bool {
        self.listener.wf()
    }

    /// The engine is in order.
    pub open spec fn wf(&self) -> bool {
        self.inv() && self@.wf()
    }

    /// The engine with nothing parked.
    pub fn new() -> (r: Self)
        ensures
            r.wf(),
            r@ == ListenerSpec::empty(),
    {
        let r = ConfigListener {
            version: 0,
            listener: KeyMap::new(),
            time_listener: Vec::new(),
            sender_map: HashMap::new(),
            answered: Ghost(Seq::empty()),
        };
        proof {
            assert(r@.watchers =~= Map::<ConfigKeySpec, Seq<u64>>::empty());
            assert(r@.deadlines =~= Seq::<(i64, Seq<u64>)>::empty());
            assert(r@.parked =~= Set::<u64>::empty());
            assert(answered_ids(r@.answered) =~= Seq::<u64>::empty());
        }
        r
    }

    /// The id of the waiter that was parked last.
    pub fn version(&self) -> (v: u64)
        ensures
            v == self@.version,
    {
        self.version
    }

    /// The number of waiters that are still to be answered.
    pub fn parked(&self) -> (n: usize)
        ensures
            n == self@.parked.len(),
    {
        self.sender_map.len()
    }

    /// Parks a waiter for `items` with the deadline `time`. The sink stays
    /// with the engine until a change or the deadline answers it.
    pub fn add(&mut self, items: Vec<ListenerItem>, sender: ListenerSenderType, time: i64)
        requires
            old(self).wf(),
            old(self)@.version < u64::MAX,
        ensures
            final(self).wf(),
            final(self)@ == old(self)@.added(
                watched_keys(crate::config::wire::item_views(items@)),
                time,
            ),
    {
        let ghost before = self@;
        let ghost keys = watched_keys(crate::config::wire::item_views(items@));
        let id = self.version + 1;
        self.version = id;
        let mut i: usize = 0;
        proof {
            assert(keys.take(0) =~= Seq::<ConfigKeySpec>::empty());
        }
        while i < items.len()
            invariant
                i <= items.len(),
                keys == watched_keys(crate::config::wire::item_views(items@)),
                self.listener.wf(),
                self.version == id,
                self.time_listener == old(self).time_listener,
                self.sender_map == old(self).sender_map,
                self.answered == old(self).answered,
                watchers_of(self.listener@) == watch_all(before.watchers, keys.take(i as int), id),
            decreases items.len() - i,
        {
            let ghost had = watchers_of(self.listener@);
            let key = items[i].key.clone();
            proof {
                assert(keys.take(i + 1).drop_last() =~= keys.take(i as int));
                assert(keys.take(i + 1).last() == key@);
            }
            match self.listener.remove(&key) {
                Some(mut list) => {
                    list.push(id);
                    self.listener.insert(key, list);
                },
                None => {
                    let mut list: Vec<u64> = Vec::new();
                    list.push(id);
                    self.listener.insert(key, list);
                },
            }
            proof {
                assert(watchers_of(self.listener@) =~= watch_one(had, key@, id));
            }
            i += 1;
        }
        proof {
            assert(keys.take(i as int) =~= keys);
        }
        self.sender_map.insert(id, sender);
        let ghost d = bucket_views(self.time_listener@);
        let mut p: usize = 0;
        while p < self.time_listener.len() && self.time_listener[p].time < time
            invariant
                p <= self.time_listener.len(),
                d == bucket_views(self.time_listener@),
                forall|k: int| 0 <= k < p ==> (#[trigger] d[k]).0 < time,
            decreases self.time_listener.len() - p,
        {
            p += 1;
        }
        proof {
            assert(d == before.deadlines);
            assert forall|k: int| p <= k < d.len() implies (#[trigger] d[k]).0 >= time by {
                if k > p {
                    assert(d[p as int].0 < d[k].0);
                }
            }
            lemma_below(d, time, p as int);
        }
        if p < self.time_listener.len() && self.time_listener[p].time == time {
            self.time_listener[p].waiters.push(id);
        } else {
            let mut waiters: Vec<u64> = Vec::new();
            waiters.push(id);
            self.time_listener.insert(p, TimeBucket { time, waiters });
        }
        proof {
            assert(self@.deadlines =~= bucket_added(d, time, id));
            assert(self@.parked =~= before.parked.insert(id));
            lemma_added_wf(before, keys, time);
        }
    }

    /// Answers the parked waiters among `ids`, each once, and takes them off
    /// the parked ones. `seen` are the ids that the wake-up has gone through
    /// before, among `parked`, with the record of answers at `log`.
    fn wake(
        &mut self,
        ids: &Vec<u64>,
        key: Option<&ConfigKey>,
        woken: &mut Vec<u64>,
        Ghost(seen): Ghost<Seq<u64>>,
        Ghost(parked): Ghost<Set<u64>>,
        Ghost(log): Ghost<Seq<(u64, ListenerResultSpec)>>,
    )
        requires
            old(woken)@ == fire(seen, parked),
            old(self).sender_map@.dom() == parked.difference(old(woken)@.to_set()),
            old(self).answered@ == log + answers(old(woken)@, wake_answer(key)),
        ensures
            final(woken)@ == fire(seen + ids@, parked),
            final(self).sender_map@.dom() == parked.difference(final(woken)@.to_set()),
            final(self).answered@ == log + answers(final(woken)@, wake_answer(key)),
            final(self).version == old(self).version,
            final(self).listener == old(self).listener,
            final(self).time_listener == old(self).time_listener,
    {
        let mut i: usize = 0;
        proof {
            assert(seen + ids@.take(0) =~= seen);
        }
        while i < ids.len()
            invariant
                i <= ids.len(),
                woken@ == fire(seen + ids@.take(i as int), parked),
                self.sender_map@.dom() == parked.difference(woken@.to_set()),
                self.answered@ == log + answers(woken@, wake_answer(key)),
                self.version == old(self).version,
                self.listener == old(self).listener,
                self.time_listener == old(self).time_listener,
            decreases ids.len() - i,
        {
            let id = ids[i];
            let ghost had = woken@;
            let ghost dom = self.sender_map@.dom();
            proof {
                let next = seen + ids@.take(i + 1);
                assert(next.drop_last() =~= seen + ids@.take(i as int));
                assert(next.last() == id);
                assert(dom.contains(id) == (parked.contains(id) && !had.contains(id)));
            }
            match self.sender_map.remove(&id) {
                Some(sender) => {
                    let result = match key {
                        Some(k) => {
                            let mut changed: Vec<ConfigKey> = Vec::new();
                            changed.push(k.clone());
                            assert(key_views(changed@) =~= seq![k@]);
                            ListenerResult::DATA(changed)
                        },
                        None => ListenerResult::NULL,
                    };
                    assert(result@ == wake_answer(key));
                    resolve(sender, result);
                    woken.push(id);
                    proof {
                        self.answered@ = self.answered@.push((id, wake_answer(key)));
                        assert(self.answered@ =~= log + answers(woken@, wake_answer(key)));
                        assert(self.sender_map@.dom() =~= parked.difference(woken@.to_set())) by {
                            assert forall|x: u64| woken@.to_set().contains(x) <==> (
                            had.to_set().contains(x) || x == id) by {
                                if had.contains(x) {
                                    let j = choose|j: int| 0 <= j < had.len() && had[j] == x;
                                    assert(woken@[j] == x);
                                }
                                if x == id {
                                    assert(woken@[had.len() as int] == x);
                                }
                                if woken@.contains(x) {
                                    let j = choose|j: int| 0 <= j < woken@.len() && woken@[j] == x;
                                    if j < had.len() {
                                        assert(had[j] == x);
                                    }
                                }
                            }
                        }
                    }
                },
                None => {},
            }
            i += 1;
        }
        proof {
            assert(ids@.take(i as int) =~= ids@);
        }
    }

    /// A change of `key`: answers the waiters of the key that are still
    /// parked with the key, and says who they are.
    pub fn notify(&mut self, key: ConfigKey) -> (woken: Vec<u64>)
        requires
            old(self).wf(),
        ensures
            final(self).wf(),
            final(self)@ == old(self)@.notified(key@),
            woken@ == old(self)@.notify_woken(key@),
    {
        let ghost before = self@;
        let mut woken: Vec<u64> = Vec::new();
        proof {
            assert(before.parked.difference(woken@.to_set()) =~= before.parked);
            assert(before.answered + answers(woken@, wake_answer(Some(&key))) =~= before.answered);
        }
        match self.listener.remove(&key) {
            Some(list) => {
                self.wake(
                    &list,
                    Some(&key),
                    &mut woken,
                    Ghost(Seq::empty()),
                    Ghost(before.parked),
                    Ghost(before.answered),
                );
                assert(Seq::<u64>::empty() + list@ =~= list@);
            },
            None => {},
        }
        proof {
            assert(self@.watchers =~= before.watchers.remove(key@));
            lemma_notified_wf(before, key@);
        }
        woken
    }

    /// The sweep as of `now`: takes the buckets whose deadline lies before
    /// `now`, up to the limit, answers their waiters that are still parked
    /// with the empty result, and says who they are.
    pub fn timeout_at(&mut self, now: i64) -> (woken: Vec<u64>)
        requires
            old(self).wf(),
        ensures
            final(self).wf(),
            final(self)@ == old(self)@.swept(now),
            woken@ == old(self)@.sweep_woken(now),
    {
        let ghost before = self@;
        let ghost d = before.deadlines;
        let mut n: usize = 0;
        while n < self.time_listener.len() && n < SWEEP_LIMIT && self.time_listener[n].time < now
            invariant
                n <= self.time_listener.len(),
                n <= SWEEP_LIMIT,
                d == bucket_views(self.time_listener@),
                forall|k: int| 0 <= k < n ==> (#[trigger] d[k]).0 < now,
            decreases self.time_listener.len() - n,
        {
            n += 1;
        }
        proof {
            lemma_below_parts(d, now);
            let b = below(d, now);
            if n > b {
                assert(d[b].0 < now);
            }
            if n < d.len() && n < SWEEP_LIMIT && b > n {
                assert(d[n as int].0 < now);
            }
            assert(n == before.expired(now));
        }
        let mut expired = self.time_listener.split_off(n);
        std::mem::swap(&mut expired, &mut self.time_listener);
        proof {
            assert(bucket_views(expired@) =~= d.take(n as int));
            assert(bucket_views(self.time_listener@) =~= d.skip(n as int));
        }
        let mut woken: Vec<u64> = Vec::new();
        let mut k: usize = 0;
        proof {
            assert(d.take(n as int).take(0) =~= Seq::<(i64, Seq<u64>)>::empty());
            assert(before.parked.difference(woken@.to_set()) =~= before.parked);
            assert(before.answered + answers(woken@, wake_answer(None)) =~= before.answered);
        }
        while k < expired.len()
            invariant
                k <= expired.len(),
                expired@.len() == n,
                bucket_views(expired@) == d.take(n as int),
                woken@ == fire(bucket_ids(d.take(n as int).take(k as int)), before.parked),
                self.sender_map@.dom() == before.parked.difference(woken@.to_set()),
                self.answered@ == before.answered + answers(woken@, wake_answer(None)),
                self.version == before.version,
                watchers_of(self.listener@) == before.watchers,
                self.listener.wf(),
                bucket_views(self.time_listener@) == d.skip(n as int),
            decreases expired.len() - k,
        {
            let ghost gone = d.take(n as int);
            proof {
                assert(gone.take(k + 1).drop_last() =~= gone.take(k as int));
                assert(gone.take(k + 1).last() == gone[k as int]);
                assert(bucket_views(expired@)[k as int] == gone[k as int]);
            }
            self.wake(
                &expired[k].waiters,
                None,
                &mut woken,
                Ghost(bucket_ids(gone.take(k as int))),
                Ghost(before.parked),
                Ghost(before.answered),
            );
            k += 1;
        }
        proof {
            assert(d.take(n as int).take(k as int) =~= d.take(n as int));
            lemma_swept_wf(before, now);
        }
        woken
    }

    /// `timeout_at` as of the time the clock shows.
    pub fn timeout(&mut self) -> (woken: Vec<u64>)
        requires
            old(self).wf(),
        ensures
            final(self).wf(),
            exists|now: i64|
                final(self)@ == old(self)@.swept(now) && woken@ == old(self)@.sweep_woken(now),
    {
        let current_time = clock_millis();
        self.timeout_at(current_time)
    }
}

} // verus!
