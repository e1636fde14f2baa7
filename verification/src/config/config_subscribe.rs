//! The subscription registry: which client watches which key, kept from
//! both sides, so that a change finds its clients and a client that leaves
//! finds its keys.

use std::sync::Arc;
use vstd::prelude::*;
use crate::config::config_core::{ConfigKey, ConfigKeySpec};
use crate::config::listener::watched_keys;
use crate::config::wire::{item_views, ListenerItem};
use crate::keyed::{
    lemma_index_of_unique,
    lemma_seq_with,
    lemma_seq_without,
    models_of,
    seq_with,
    seq_without,
    Keyed,
    KeyMap,
    KeySet,
};

verus! {

/// Whether `a` has `b` among its partners.
pub open spec fn pairs<A, B>(m: Map<A, Seq<B>>, a: A, b: B) -> bool {
    m.contains_key(a) && m[a].contains(b)
}

/// Every entry names its partners once and has at least one.
pub open spec fn sets_ok<A, B>(m: Map<A, Seq<B>>) -> bool {
    forall|a: A| #[trigger] m.contains_key(a) ==> m[a].no_duplicates() && m[a].len() > 0
}

/// The partners of `a`, in the order in which they came.
pub open spec fn partners<A, B>(m: Map<A, Seq<B>>, a: A) -> Seq<B> {
    if m.contains_key(a) {
        m[a]
    } else {
        Seq::empty()
    }
}

/// `m` after `b` became a partner of `a`.
pub open spec fn joined<A, B>(m: Map<A, Seq<B>>, a: A, b: B) -> Map<A, Seq<B>> {
    m.insert(a, seq_with(partners(m, a), b))
}

/// `m` after `b` ceased to be a partner of `a`. An entry that is left
/// without partners goes.
pub open spec fn parted<A, B>(m: Map<A, Seq<B>>, a: A, b: B) -> Map<A, Seq<B>> {
    if m.contains_key(a) {
        let rest = seq_without(m[a], b);
        if rest.len() == 0 {
            m.remove(a)
        } else {
            m.insert(a, rest)
        }
    } else {
        m
    }
}

/// `joined` adds the pair and no other.
pub proof fn lemma_joined<A, B>(m: Map<A, Seq<B>>, a: A, b: B)
    requires
        sets_ok(m),
    ensures
        sets_ok(joined(m, a, b)),
        forall|x: A, y: B| #[trigger]
            pairs(joined(m, a, b), x, y) <==> (pairs(m, x, y) || (x == a && y == b)),
{
    lemma_seq_with(partners(m, a), b);
}

/// `parted` takes the pair away and no other.
pub proof fn lemma_parted<A, B>(m: Map<A, Seq<B>>, a: A, b: B)
    requires
        sets_ok(m),
    ensures
        sets_ok(parted(m, a, b)),
        forall|x: A, y: B| #[trigger]
            pairs(parted(m, a, b), x, y) <==> (pairs(m, x, y) && !(x == a && y == b)),
{
    if m.contains_key(a) {
        lemma_seq_without(m[a], b);
        let rest = seq_without(m[a], b);
        if rest.len() == 0 {
            assert forall|y: B| !rest.contains(y) by {
                if rest.contains(y) {
                    let i = choose|i: int| 0 <= i < rest.len() && rest[i] == y;
                }
            }
        }
    }
}

/// The registry.
pub struct SubscriberSpec {
    /// The clients of each key, in the order in which they subscribed.
    pub by_key: Map<ConfigKeySpec, Seq<Seq<char>>>,
    /// The keys of each client, in the order in which it subscribed to them.
    pub by_client: Map<Seq<char>, Seq<ConfigKeySpec>>,
}

impl SubscriberSpec {
    /// Whether the client watches the key.
    pub open spec fn subscribed(self, client: Seq<char>, key: ConfigKeySpec) -> bool {
        pairs(self.by_key, key, client)
    }

    /// The two sides agree.
    pub open spec fn wf(self) -> bool {
        &&& sets_ok(self.by_key)
        &&& sets_ok(self.by_client)
        &&& forall|client: Seq<char>, key: ConfigKeySpec| #[trigger]
            pairs(self.by_key, key, client) <==> #[trigger] pairs(self.by_client, client, key)
    }

    /// The registry without subscriptions.
    pub open spec fn empty() -> Self {
        SubscriberSpec { by_key: Map::empty(), by_client: Map::empty() }
    }

    /// The clients of a key, in the order in which they subscribed.
    pub open spec fn clients_of(self, key: ConfigKeySpec) -> Seq<Seq<char>> {
        partners(self.by_key, key)
    }

    /// The keys of a client.
    pub open spec fn keys_of(self, client: Seq<char>) -> Seq<ConfigKeySpec> {
        partners(self.by_client, client)
    }

    /// The registry after the client subscribed to the key.
    pub open spec fn linked(self, client: Seq<char>, key: ConfigKeySpec) -> Self {
        SubscriberSpec {
            by_key: joined(self.by_key, key, client),
            by_client: joined(self.by_client, client, key),
        }
    }

    /// The registry after the client gave the key up.
    pub open spec fn unlinked(self, client: Seq<char>, key: ConfigKeySpec) -> Self {
        SubscriberSpec {
            by_key: parted(self.by_key, key, client),
            by_client: parted(self.by_client, client, key),
        }
    }

    /// The registry after the client subscribed to each of `keys` in turn.
    pub open spec fn linked_all(self, client: Seq<char>, keys: Seq<ConfigKeySpec>) -> Self
        decreases keys.len(),
    {
        if keys.len() == 0 {
            self
        } else {
            self.linked_all(client, keys.drop_last()).linked(client, keys.last())
        }
    }

    /// The registry after the client gave each of `keys` up in turn.
    pub open spec fn unlinked_all(self, client: Seq<char>, keys: Seq<ConfigKeySpec>) -> Self
        decreases keys.len(),
    {
        if keys.len() == 0 {
            self
        } else {
            self.unlinked_all(client, keys.drop_last()).unlinked(client, keys.last())
        }
    }

    /// The registry after each of `clients` gave the key up in turn.
    pub open spec fn unlinked_clients(self, clients: Seq<Seq<char>>, key: ConfigKeySpec) -> Self
        decreases clients.len(),
    {
        if clients.len() == 0 {
            self
        } else {
            self.unlinked_clients(clients.drop_last(), key).unlinked(clients.last(), key)
        }
    }

    /// The registry without the client.
    pub open spec fn without_client(self, client: Seq<char>) -> Self {
        self.unlinked_all(client, self.keys_of(client))
    }

    /// The registry without the key.
    pub open spec fn without_key(self, key: ConfigKeySpec) -> Self {
        self.unlinked_clients(self.clients_of(key), key)
    }
}

/// Subscribing keeps the two sides in agreement and adds the one pair.
pub proof fn lemma_linked(m: SubscriberSpec, client: Seq<char>, key: ConfigKeySpec)
    requires
        m.wf(),
    ensures
        m.linked(client, key).wf(),
        forall|c: Seq<char>, k: ConfigKeySpec| #[trigger]
            m.linked(client, key).subscribed(c, k) <==> (m.subscribed(c, k) || (c == client && k
                == key)),
{
    lemma_joined(m.by_key, key, client);
    lemma_joined(m.by_client, client, key);
    let r = m.linked(client, key);
    assert forall|c: Seq<char>, k: ConfigKeySpec| #[trigger]
        pairs(r.by_key, k, c) <==> #[trigger] pairs(r.by_client, c, k) by {
        assert(pairs(m.by_key, k, c) <==> pairs(m.by_client, c, k));
    }
}

/// Giving a key up keeps the two sides in agreement and takes the one pair away.
pub proof fn lemma_unlinked(m: SubscriberSpec, client: Seq<char>, key: ConfigKeySpec)
    requires
        m.wf(),
    ensures
        m.unlinked(client, key).wf(),
        forall|c: Seq<char>, k: ConfigKeySpec| #[trigger]
            m.unlinked(client, key).subscribed(c, k) <==> (m.subscribed(c, k) && !(c == client && k
                == key)),
{
    lemma_parted(m.by_key, key, client);
    lemma_parted(m.by_client, client, key);
    let r = m.unlinked(client, key);
    assert forall|c: Seq<char>, k: ConfigKeySpec| #[trigger]
        pairs(r.by_key, k, c) <==> #[trigger] pairs(r.by_client, c, k) by {
        assert(pairs(m.by_key, k, c) <==> pairs(m.by_client, c, k));
    }
}

/// The registry: clients by key and keys by client.
pub struct Subscriber {
    listener: KeyMap<ConfigKey, KeySet<Arc<String>>>,
    client_keys: KeyMap<Arc<String>, KeySet<ConfigKey>>,
}

spec fn side_view<K: Keyed, T: Keyed>(m: Map<K::Model, KeySet<T>>) -> Map<K::Model, Seq<T::Model>> {
    Map::new(|a: K::Model| m.contains_key(a), |a: K::Model| m[a]@)
}

impl View for Subscriber {
    type V = SubscriberSpec;

    closed spec fn view(&self) -> SubscriberSpec {
        SubscriberSpec {
            by_key: side_view::<ConfigKey, Arc<String>>(self.listener@),
            by_client: side_view::<Arc<String>, ConfigKey>(self.client_keys@),
        }
    }
}

/// Makes `b` a partner of `a` on one side of the registry.
fn join<K: Keyed, T: Keyed>(side: &mut KeyMap<K, KeySet<T>>, a: &K, b: &T)
    requires
        old(side).wf(),
        sets_ok(side_view::<K, T>(old(side)@)),
    ensures
        final(side).wf(),
        side_view::<K, T>(final(side)@) == joined(side_view::<K, T>(old(side)@), a.model(), b.model()),
{
    let ghost before = side_view::<K, T>(side@);
    let mut set = match side.remove(a) {
        Some(s) => {
            assert(before.contains_key(a.model()) && before[a.model()] == s@);
            s
        },
        None => {
            assert(!before.contains_key(a.model()));
            KeySet::new()
        },
    };
    set.insert(b.dup());
    side.insert(a.dup(), set);
    assert(side_view::<K, T>(side@) =~= joined(before, a.model(), b.model()));
}

/// Takes `b` from the partners of `a` on one side of the registry.
fn part<K: Keyed, T: Keyed>(side: &mut KeyMap<K, KeySet<T>>, a: &K, b: &T)
    requires
        old(side).wf(),
        sets_ok(side_view::<K, T>(old(side)@)),
    ensures
        final(side).wf(),
        side_view::<K, T>(final(side)@) == parted(side_view::<K, T>(old(side)@), a.model(), b.model()),
{
    let ghost before = side_view::<K, T>(side@);
    match side.remove(a) {
        Some(mut set) => {
            assert(before.contains_key(a.model()) && before[a.model()] == set@);
            set.remove(b);
            if set.len() > 0 {
                side.insert(a.dup(), set);
            }
            assert(side_view::<K, T>(side@) =~= parted(before, a.model(), b.model()));
        },
        None => {
            assert(!before.contains_key(a.model()));
            assert(side_view::<K, T>(side@) =~= parted(before, a.model(), b.model()));
        },
    }
}

impl Subscriber {
    /// What holds of the representation.
    pub closed spec fn inv(&self) -> bool {
        self.listener.wf() && self.client_keys.wf()
    }

    /// The registry is in order.
    pub open spec fn wf(&self) -> bool {
        self.inv() && self@.wf()
    }

    /// The registry without subscriptions.
    pub fn new() -> (r: Self)
        ensures
            r.wf(),
            r@ == SubscriberSpec::empty(),
    {
        let r = Subscriber { listener: KeyMap::new(), client_keys: KeyMap::new() };
        proof {
            assert(r@.by_key =~= Map::<ConfigKeySpec, Seq<Seq<char>>>::empty());
            assert(r@.by_client =~= Map::<Seq<char>, Seq<ConfigKeySpec>>::empty());
        }
        r
    }

    /// The client subscribes to the key.
    fn link(&mut self, client: &Arc<String>, key: &ConfigKey)
        requires
            old(self).wf(),
        ensures
            final(self).wf(),
            final(self)@ == old(self)@.linked(client@, key@),
    {
        join(&mut self.listener, key, client);
        join(&mut self.client_keys, client, key);
        proof {
            lemma_linked(old(self)@, client@, key@);
        }
    }

    /// The client gives the key up.
    fn unlink(&mut self, client: &Arc<String>, key: &ConfigKey)
        requires
            old(self).wf(),
        ensures
            final(self).wf(),
            final(self)@ == old(self)@.unlinked(client@, key@),
    {
        part(&mut self.listener, key, client);
        part(&mut self.client_keys, client, key);
        proof {
            lemma_unlinked(old(self)@, client@, key@);
        }
    }

    /// The client subscribes to the keys of `items`.
    pub fn add_subscribe(&mut self, client_id: Arc<String>, items: Vec<ListenerItem>)
        requires
            old(self).wf(),
        ensures
            final(self).wf(),
            final(self)@ == old(self)@.linked_all(client_id@, watched_keys(item_views(items@))),
    {
        let ghost keys = watched_keys(item_views(items@));
        let mut i: usize = 0;
        proof {
            assert(keys.take(0) =~= Seq::<ConfigKeySpec>::empty());
        }
        while i < items.len()
            invariant
                i <= items.len(),
                keys == watched_keys(item_views(items@)),
                self.wf(),
                self@ == old(self)@.linked_all(client_id@, keys.take(i as int)),
            decreases items.len() - i,
        {
            proof {
                assert(keys.take(i + 1).drop_last() =~= keys.take(i as int));
                assert(keys.take(i + 1).last() == items@[i as int].key@);
            }
            self.link(&client_id, &items[i].key);
            i += 1;
        }
        proof {
            assert(keys.take(i as int) =~= keys);
        }
    }

    /// The client gives the keys of `items` up.
    pub fn remove_subscribe(&mut self, client_id: Arc<String>, items: Vec<ListenerItem>)
        requires
            old(self).wf(),
        ensures
            final(self).wf(),
            final(self)@ == old(self)@.unlinked_all(client_id@, watched_keys(item_views(items@))),
    {
        let ghost keys = watched_keys(item_views(items@));
        let mut i: usize = 0;
        proof {
            assert(keys.take(0) =~= Seq::<ConfigKeySpec>::empty());
        }
        while i < items.len()
            invariant
                i <= items.len(),
                keys == watched_keys(item_views(items@)),
                self.wf(),
                self@ == old(self)@.unlinked_all(client_id@, keys.take(i as int)),
            decreases items.len() - i,
        {
            proof {
                assert(keys.take(i + 1).drop_last() =~= keys.take(i as int));
                assert(keys.take(i + 1).last() == items@[i as int].key@);
            }
            self.unlink(&client_id, &items[i].key);
            i += 1;
        }
        proof {
            assert(keys.take(i as int) =~= keys);
        }
    }

    /// The client leaves: it gives up every key it watched.
    pub fn remove_client_subscribe(&mut self, client_id: Arc<String>)
        requires
            old(self).wf(),
        ensures
            final(self).wf(),
            final(self)@ == old(self)@.without_client(client_id@),
            final(self)@.keys_of(client_id@) == Seq::<ConfigKeySpec>::empty(),
    {
        let keys: Vec<ConfigKey> = match self.client_keys.get(&client_id) {
            Some(set) => set.to_vec(),
            None => Vec::new(),
        };
        let ghost all = old(self)@.keys_of(client_id@);
        proof {
            assert(models_of(keys@) =~= all);
            assert(all.take(0) =~= Seq::<ConfigKeySpec>::empty());
            assert(all.skip(0) =~= all);
        }
        let mut i: usize = 0;
        while i < keys.len()
            invariant
                i <= keys.len(),
                models_of(keys@) == all,
                all.no_duplicates(),
                self.wf(),
                self@ == old(self)@.unlinked_all(client_id@, all.take(i as int)),
                self@.keys_of(client_id@) == all.skip(i as int),
            decreases keys.len() - i,
        {
            let ghost rest = all.skip(i as int);
            proof {
                assert(all.take(i + 1).drop_last() =~= all.take(i as int));
                assert(all.take(i + 1).last() == keys@[i as int].model());
                assert(rest[0] == all[i as int]);
                assert forall|a: int, b: int| 0 <= a < rest.len() && 0 <= b < rest.len() && a
                    != b implies rest[a] != rest[b] by {
                    assert(rest[a] == all[a + i] && rest[b] == all[b + i]);
                }
                lemma_index_of_unique(rest, 0);
                assert(rest.remove(0) =~= all.skip(i + 1));
            }
            self.unlink(&client_id, &keys[i]);
            i += 1;
        }
        proof {
            assert(all.take(i as int) =~= all);
            assert(all.skip(i as int) =~= Seq::<ConfigKeySpec>::empty());
        }
    }

    /// The clients that watch the key, in the order in which they
    /// subscribed: those to tell of a change of the key.
    pub fn notify(&self, key: ConfigKey) -> (clients: Vec<Arc<String>>)
        requires
            self.wf(),
        ensures
            models_of(clients@) == self@.clients_of(key@),
    {
        match self.listener.get(&key) {
            Some(set) => set.to_vec(),
            None => {
                let clients: Vec<Arc<String>> = Vec::new();
                assert(models_of(clients@) =~= self@.clients_of(key@));
                clients
            },
        }
    }

    /// The key is gone: every client that watched it gives it up.
    pub fn remove_config_key(&mut self, key: ConfigKey)
        requires
            old(self).wf(),
        ensures
            final(self).wf(),
            final(self)@ == old(self)@.without_key(key@),
            final(self)@.clients_of(key@) == Seq::<Seq<char>>::empty(),
    {
        let clients: Vec<Arc<String>> = match self.listener.get(&key) {
            Some(set) => set.to_vec(),
            None => Vec::new(),
        };
        let ghost all = old(self)@.clients_of(key@);
        proof {
            assert(models_of(clients@) =~= all);
            assert(all.take(0) =~= Seq::<Seq<char>>::empty());
            assert(all.skip(0) =~= all);
        }
        let mut i: usize = 0;
        while i < clients.len()
            invariant
                i <= clients.len(),
                models_of(clients@) == all,
                all.no_duplicates(),
                self.wf(),
                self@ == old(self)@.unlinked_clients(all.take(i as int), key@),
                self@.clients_of(key@) == all.skip(i as int),
            decreases clients.len() - i,
        {
            let ghost rest = all.skip(i as int);
            proof {
                assert(all.take(i + 1).drop_last() =~= all.take(i as int));
                assert(all.take(i + 1).last() == clients@[i as int].model());
                assert(rest[0] == all[i as int]);
                assert forall|a: int, b: int| 0 <= a < rest.len() && 0 <= b < rest.len() && a
                    != b implies rest[a] != rest[b] by {
                    assert(rest[a] == all[a + i] && rest[b] == all[b + i]);
                }
                lemma_index_of_unique(rest, 0);
                assert(rest.remove(0) =~= all.skip(i + 1));
            }
            self.unlink(&clients[i], &key);
            i += 1;
        }
        proof {
            assert(all.take(i as int) =~= all);
            assert(all.skip(i as int) =~= Seq::<Seq<char>>::empty());
        }
    }
}

} // verus!
