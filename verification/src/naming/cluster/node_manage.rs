//! The table of cluster nodes: membership, liveness, the position of each
//! node in ascending id order, and the routing of naming writes over the
//! valid nodes.

use std::sync::Arc;
use vstd::prelude::*;
use crate::keyed::{seq_with, KeySet};
use crate::naming::cluster::model::{Broadcast, NamingRouteAddr, NamingRouteRequest};
use crate::text::share;
use crate::utils::now_millis;

verus! {

/// A peer that has not been heard of for longer than this is taken for dead.
pub const NODE_TIMEOUT_MS: u64 = 15000;

/// The liveness check and the ping to the peers run every so often.
pub const NODE_TICK_MS: u64 = 3000;

/// Whether a node is taken for alive.
#[derive(Debug, Clone, Copy, PartialEq, Eq, Structural)]
pub enum NodeStatus {
    Valid,
    Unvalid,
}

impl Default for NodeStatus {
    fn default() -> (r: Self)
        ensures
            r == NodeStatus::Valid,
    {
        NodeStatus::Valid
    }
}

/// A node of the cluster as others see it.
#[derive(Debug)]
pub struct ClusterNode {
    pub id: u64,
    pub index: u64,
    pub is_local: bool,
    pub addr: Arc<String>,
    pub status: NodeStatus,
}

/// A node as others see it, its address as text.
pub struct ClusterNodeSpec {
    pub id: u64,
    pub index: u64,
    pub is_local: bool,
    pub addr: Seq<char>,
    pub status: NodeStatus,
}

impl View for ClusterNode {
    type V = ClusterNodeSpec;

    open spec fn view(&self) -> ClusterNodeSpec {
        ClusterNodeSpec {
            id: self.id,
            index: self.index,
            is_local: self.is_local,
            addr: self.addr@,
            status: self.status,
        }
    }
}

impl Clone for ClusterNode {
    fn clone(&self) -> (r: Self)
        ensures
            r@ == self@,
    {
        ClusterNode {
            id: self.id,
            index: self.index,
            is_local: self.is_local,
            addr: share(&self.addr),
            status: self.status,
        }
    }
}

impl Default for ClusterNode {
    fn default() -> (r: Self)
        ensures
            r@ == (ClusterNodeSpec {
                id: 0,
                index: 0,
                is_local: false,
                addr: Seq::empty(),
                status: NodeStatus::Valid,
            }),
    {
        ClusterNode {
            id: 0,
            index: 0,
            is_local: false,
            addr: Arc::new(String::new()),
            status: NodeStatus::Valid,
        }
    }
}

/// A node of the cluster as the table keeps it: with the time it was last
/// heard of and the clients that registered through it.
pub struct ClusterInnerNode {
    pub id: u64,
    pub index: u64,
    pub is_local: bool,
    pub addr: Arc<String>,
    pub status: NodeStatus,
    pub last_active_time: u64,
    pub client_set: KeySet<Arc<String>>,
}

/// A node as the table keeps it, its address and its clients as texts.
pub struct ClusterInnerNodeSpec {
    pub id: u64,
    pub index: u64,
    pub is_local: bool,
    pub addr: Seq<char>,
    pub status: NodeStatus,
    pub last_active_time: u64,
    pub client_set: Seq<Seq<char>>,
}

impl View for ClusterInnerNode {
    type V = ClusterInnerNodeSpec;

    open spec fn view(&self) -> ClusterInnerNodeSpec {
        ClusterInnerNodeSpec {
            id: self.id,
            index: self.index,
            is_local: self.is_local,
            addr: self.addr@,
            status: self.status,
            last_active_time: self.last_active_time,
            client_set: self.client_set@,
        }
    }
}

impl Clone for ClusterInnerNode {
    fn clone(&self) -> (r: Self)
        ensures
            r@ == self@,
    {
        ClusterInnerNode {
            id: self.id,
            index: self.index,
            is_local: self.is_local,
            addr: share(&self.addr),
            status: self.status,
            last_active_time: self.last_active_time,
            client_set: self.client_set.clone(),
        }
    }
}

impl ClusterInnerNodeSpec {
    /// What others see of the node.
    pub open spec fn public(self) -> ClusterNodeSpec {
        ClusterNodeSpec {
            id: self.id,
            index: self.index,
            is_local: self.is_local,
            addr: self.addr,
            status: self.status,
        }
    }

    /// The node as it enters the table: valid, just heard of, with no clients,
    /// and not yet placed.
    pub open spec fn fresh(id: u64, local_id: u64, addr: Seq<char>, now: u64) -> Self {
        ClusterInnerNodeSpec {
            id,
            index: 0,
            is_local: id == local_id,
            addr,
            status: NodeStatus::Valid,
            last_active_time: now,
            client_set: Seq::empty(),
        }
    }

    /// The local node as the table makes it up when the membership does not
    /// name it: without an address, never heard of.
    pub open spec fn local_default(local_id: u64) -> Self {
        ClusterInnerNodeSpec {
            id: local_id,
            index: 0,
            is_local: true,
            addr: Seq::empty(),
            status: NodeStatus::Valid,
            last_active_time: 0,
            client_set: Seq::empty(),
        }
    }

    /// The node under another address.
    pub open spec fn with_addr(self, addr: Seq<char>) -> Self {
        ClusterInnerNodeSpec { addr, ..self }
    }

    /// The node at another position.
    pub open spec fn with_index(self, index: u64) -> Self {
        ClusterInnerNodeSpec { index, ..self }
    }

    /// The node after a sign of life at `now`.
    pub open spec fn activated(self, now: u64) -> Self {
        ClusterInnerNodeSpec { last_active_time: now, status: NodeStatus::Valid, ..self }
    }

    /// A valid peer that was last heard of more than the timeout before `now`.
    pub open spec fn stale(self, now: u64) -> bool {
        &&& !self.is_local
        &&& self.status == NodeStatus::Valid
        &&& self.last_active_time + NODE_TIMEOUT_MS < now
    }

    /// The node after it was found dead: invalid, its clients gone.
    pub open spec fn invalidated(self) -> Self {
        ClusterInnerNodeSpec { status: NodeStatus::Unvalid, client_set: Seq::empty(), ..self }
    }
}

impl From<ClusterInnerNode> for ClusterNode {
    fn from(value: ClusterInnerNode) -> (r: ClusterNode)
        ensures
            r@ == value@.public(),
    {
        ClusterNode {
            id: value.id,
            index: value.index,
            is_local: value.is_local,
            addr: value.addr,
            status: value.status,
        }
    }
}

impl vstd::std_specs::convert::FromSpecImpl<ClusterInnerNode> for ClusterNode {
    /// The conversion is specified by the `ensures` of `from`, over views.
    open spec fn obeys_from_spec() -> bool {
        false
    }

    open spec fn from_spec(v: ClusterInnerNode) -> ClusterNode {
        arbitrary()
    }
}

/// The views of a row of nodes.
pub open spec fn node_views(s: Seq<ClusterInnerNode>) -> Seq<ClusterInnerNodeSpec> {
    Seq::new(s.len(), |i: int| s[i]@)
}

/// The views of a row of nodes as others see them.
pub open spec fn public_views(s: Seq<ClusterNode>) -> Seq<ClusterNodeSpec> {
    Seq::new(s.len(), |i: int| s[i]@)
}

/// A membership as pairs of id and address text.
pub open spec fn member_views(s: Seq<(u64, Arc<String>)>) -> Seq<(u64, Seq<char>)> {
    Seq::new(s.len(), |i: int| (s[i].0, s[i].1@))
}

/// The ids ascend strictly along the row.
pub open spec fn ids_ascend(s: Seq<ClusterInnerNodeSpec>) -> bool {
    forall|i: int, j: int| 0 <= i < j < s.len() ==> s[i].id < s[j].id
}

/// The node with the given id, if the row holds one.
pub open spec fn lookup(s: Seq<ClusterInnerNodeSpec>, id: u64) -> Option<ClusterInnerNodeSpec>
    decreases s.len(),
{
    if s.len() == 0 {
        None
    } else if s.last().id == id {
        Some(s.last())
    } else {
        lookup(s.drop_last(), id)
    }
}

/// Whether the membership names the id.
pub open spec fn listed(members: Seq<(u64, Seq<char>)>, id: u64) -> bool {
    exists|i: int| 0 <= i < members.len() && (#[trigger] members[i]).0 == id
}

/// The address that the membership gives the id: that of its last entry for it.
pub open spec fn last_addr(members: Seq<(u64, Seq<char>)>, id: u64) -> Seq<char>
    decreases members.len(),
{
    if members.len() == 0 {
        Seq::empty()
    } else if members.last().0 == id {
        members.last().1
    } else {
        last_addr(members.drop_last(), id)
    }
}

/// What a well-kept table looks like from outside: ids ascend, each node's
/// `index` is its position, exactly the node with the local id is local, and
/// an invalid node has no clients.
pub open spec fn table_ok(s: Seq<ClusterInnerNodeSpec>, local_id: u64) -> bool {
    &&& ids_ascend(s)
    &&& forall|i: int| 0 <= i < s.len() ==> (#[trigger] s[i]).index == i
    &&& rows_ok(s, local_id)
}

/// The part of `table_ok` that speaks of each node by itself.
pub open spec fn rows_ok(s: Seq<ClusterInnerNodeSpec>, local_id: u64) -> bool {
    forall|i: int|
        0 <= i < s.len() ==> {
            &&& (#[trigger] s[i]).is_local == (s[i].id == local_id)
            &&& s[i].client_set.no_duplicates()
            &&& (s[i].status == NodeStatus::Unvalid ==> s[i].client_set.len() == 0)
        }
}

/// In a row of ascending ids `lookup` finds each node by its id and nothing
/// for an id that no node has.
pub proof fn lemma_lookup(s: Seq<ClusterInnerNodeSpec>, id: u64)
    requires
        ids_ascend(s),
    ensures
        forall|i: int| 0 <= i < s.len() && (#[trigger] s[i]).id == id ==> lookup(s, id) == Some(s[i]),
        (forall|i: int| 0 <= i < s.len() ==> (#[trigger] s[i]).id != id) ==> lookup(s, id) is None,
        lookup(s, id) matches Some(n) ==> n.id == id && s.contains(n),
    decreases s.len(),
{
    if s.len() > 0 {
        let t = s.drop_last();
        assert forall|i: int, j: int| 0 <= i < j < t.len() implies t[i].id < t[j].id by {
            assert(t[i] == s[i] && t[j] == s[j]);
        }
        lemma_lookup(t, id);
        if s.last().id == id {
            assert forall|i: int| 0 <= i < s.len() && (#[trigger] s[i]).id == id implies lookup(
                s,
                id,
            ) == Some(s[i]) by {
                if i < s.len() - 1 {
                    assert(s[i].id < s[s.len() - 1].id);
                }
            }
            assert(s[s.len() - 1] == s.last());
        } else {
            assert forall|i: int| 0 <= i < s.len() && (#[trigger] s[i]).id == id implies lookup(
                s,
                id,
            ) == Some(s[i]) by {
                assert(t[i] == s[i]);
            }
            if (forall|i: int| 0 <= i < s.len() ==> (#[trigger] s[i]).id != id) {
                assert forall|i: int| 0 <= i < t.len() implies (#[trigger] t[i]).id != id by {
                    assert(t[i] == s[i]);
                }
            }
            if let Some(n) = lookup(s, id) {
                let k = choose|k: int| 0 <= k < t.len() && t[k] == n;
                assert(s[k] == n);
            }
        }
    }
}

/// `listed` and `last_addr` of a membership with one more entry.
pub proof fn lemma_members_push(members: Seq<(u64, Seq<char>)>, e: (u64, Seq<char>), id: u64)
    ensures
        listed(members.push(e), id) == (listed(members, id) || e.0 == id),
        last_addr(members.push(e), id) == if e.0 == id {
            e.1
        } else {
            last_addr(members, id)
        },
{
    let m = members.push(e);
    assert(m.drop_last() =~= members);
    assert(m.last() == e);
    if listed(members, id) {
        let i = choose|i: int| 0 <= i < members.len() && (#[trigger] members[i]).0 == id;
        assert(m[i].0 == id);
    }
    if e.0 == id {
        assert(m[members.len() as int].0 == id);
    }
    if listed(m, id) {
        let i = choose|i: int| 0 <= i < m.len() && (#[trigger] m[i]).0 == id;
        if i < members.len() {
            assert(members[i].0 == id);
        }
    }
}

/// The node that a membership update leaves in the table for an id, not yet
/// placed: for a listed id the node the table had, or else a fresh one, with
/// the address the membership gives it; for the local id, when the membership
/// does not list it, the made-up local node; for any other id none.
pub open spec fn updated_entry(
    old_table: Seq<ClusterInnerNodeSpec>,
    members: Seq<(u64, Seq<char>)>,
    local_id: u64,
    now: u64,
    id: u64,
) -> Option<ClusterInnerNodeSpec> {
    if listed(members, id) {
        match lookup(old_table, id) {
            Some(o) => Some(o.with_addr(last_addr(members, id))),
            None => Some(
                ClusterInnerNodeSpec::fresh(id, local_id, Seq::empty(), now).with_addr(
                    last_addr(members, id),
                ),
            ),
        }
    } else if id == local_id {
        Some(ClusterInnerNodeSpec::local_default(local_id))
    } else {
        None
    }
}

/// `new_table` is what a membership update makes of `old_table`: it holds
/// the entries that `updated_entry` names and no others, in ascending id
/// order, each with its position as `index`.
pub open spec fn membership_applied(
    old_table: Seq<ClusterInnerNodeSpec>,
    members: Seq<(u64, Seq<char>)>,
    local_id: u64,
    now: u64,
    new_table: Seq<ClusterInnerNodeSpec>,
) -> bool {
    &&& table_ok(new_table, local_id)
    &&& forall|id: u64|
        match #[trigger] updated_entry(old_table, members, local_id, now, id) {
            Some(e) => lookup(new_table, id) matches Some(n) && n == e.with_index(n.index),
            None => lookup(new_table, id) is None,
        }
}

/// The peers that a membership update drops from the table, in ascending id
/// order: their senders are to be stopped.
pub open spec fn dropped_peers(
    old_table: Seq<ClusterInnerNodeSpec>,
    members: Seq<(u64, Seq<char>)>,
) -> Seq<u64>
    decreases old_table.len(),
{
    if old_table.len() == 0 {
        Seq::empty()
    } else {
        let rest = dropped_peers(old_table.drop_last(), members);
        let n = old_table.last();
        if !n.is_local && !listed(members, n.id) {
            rest.push(n.id)
        } else {
            rest
        }
    }
}

/// The peers that a membership update brings into the table, in the order
/// of the membership, each with the address of its first entry: a sender is
/// to be started for each.
pub open spec fn started_peers(
    old_table: Seq<ClusterInnerNodeSpec>,
    members: Seq<(u64, Seq<char>)>,
    local_id: u64,
) -> Seq<(u64, Seq<char>)>
    decreases members.len(),
{
    if members.len() == 0 {
        Seq::empty()
    } else {
        let before = members.drop_last();
        let rest = started_peers(old_table, before, local_id);
        let e = members.last();
        if e.0 != local_id && lookup(old_table, e.0) is None && !listed(before, e.0) {
            rest.push(e)
        } else {
            rest
        }
    }
}

/// The clients of the nodes that are stale at `now`, node by node in
/// ascending id order.
pub open spec fn purged_clients(table: Seq<ClusterInnerNodeSpec>, now: u64) -> Seq<Seq<char>>
    decreases table.len(),
{
    if table.len() == 0 {
        Seq::empty()
    } else {
        let rest = purged_clients(table.drop_last(), now);
        if table.last().stale(now) {
            rest + table.last().client_set
        } else {
            rest
        }
    }
}

/// The table after the liveness check at `now`: every stale node invalidated.
pub open spec fn checked_table(table: Seq<ClusterInnerNodeSpec>, now: u64) -> Seq<
    ClusterInnerNodeSpec,
> {
    Seq::new(
        table.len(),
        |i: int|
            if table[i].stale(now) {
                table[i].invalidated()
            } else {
                table[i]
            },
    )
}

/// The ids of the valid peers, in ascending order.
pub open spec fn valid_peer_ids(table: Seq<ClusterInnerNodeSpec>) -> Seq<u64>
    decreases table.len(),
{
    if table.len() == 0 {
        Seq::empty()
    } else {
        let rest = valid_peer_ids(table.drop_last());
        let n = table.last();
        if !n.is_local && n.status == NodeStatus::Valid {
            rest.push(n.id)
        } else {
            rest
        }
    }
}

/// The entry for an id once the first `done` entries of the membership have
/// been worked in: a step on the way to `updated_entry`.
pub open spec fn upserted_entry(
    old_table: Seq<ClusterInnerNodeSpec>,
    members: Seq<(u64, Seq<char>)>,
    done: int,
    local_id: u64,
    now: u64,
    id: u64,
) -> Option<ClusterInnerNodeSpec> {
    let seen = members.take(done);
    if listed(seen, id) {
        match lookup(old_table, id) {
            Some(o) => Some(o.with_addr(last_addr(seen, id))),
            None => Some(
                ClusterInnerNodeSpec::fresh(id, local_id, Seq::empty(), now).with_addr(
                    last_addr(seen, id),
                ),
            ),
        }
    } else if listed(members, id) {
        lookup(old_table, id)
    } else {
        None
    }
}

/// All the nodes as others see them; a table that was never given a
/// membership shows the made-up local node alone.
pub open spec fn all_public(table: Seq<ClusterInnerNodeSpec>, local_id: u64) -> Seq<
    ClusterNodeSpec,
> {
    if table.len() == 0 {
        seq![ClusterInnerNodeSpec::local_default(local_id).public()]
    } else {
        Seq::new(table.len(), |i: int| table[i].public())
    }
}

/// The table after a sign of life from the node with the given id at `now`.
pub open spec fn activated_table(table: Seq<ClusterInnerNodeSpec>, id: u64, now: u64) -> Seq<
    ClusterInnerNodeSpec,
> {
    Seq::new(
        table.len(),
        |i: int|
            if table[i].id == id {
                table[i].activated(now)
            } else {
                table[i]
            },
    )
}

/// The table after the node with the given id registered a client at `now`:
/// the node is alive, and holds the client unless the client's id is empty.
pub open spec fn client_added_table(
    table: Seq<ClusterInnerNodeSpec>,
    id: u64,
    client: Seq<char>,
    now: u64,
) -> Seq<ClusterInnerNodeSpec> {
    Seq::new(
        table.len(),
        |i: int|
            if table[i].id == id {
                ClusterInnerNodeSpec {
                    client_set: if client.len() == 0 {
                        table[i].client_set
                    } else {
                        seq_with(table[i].client_set, client)
                    },
                    ..table[i].activated(now)
                }
            } else {
                table[i]
            },
    )
}

/// The valid nodes of a row, in order.
pub open spec fn valid_nodes(all: Seq<ClusterNodeSpec>) -> Seq<ClusterNodeSpec>
    decreases all.len(),
{
    if all.len() == 0 {
        Seq::empty()
    } else {
        let rest = valid_nodes(all.drop_last());
        if all.last().status == NodeStatus::Valid {
            rest.push(all.last())
        } else {
            rest
        }
    }
}

/// The nodes of a row that are not local, in order.
pub open spec fn other_nodes(all: Seq<ClusterNodeSpec>) -> Seq<ClusterNodeSpec>
    decreases all.len(),
{
    if all.len() == 0 {
        Seq::empty()
    } else {
        let rest = other_nodes(all.drop_last());
        if !all.last().is_local {
            rest.push(all.last())
        } else {
            rest
        }
    }
}

/// The owner of a naming write with the given hash among the valid nodes:
/// the node at position `hash_value` modulo their number.
pub open spec fn route_of(valid: Seq<ClusterNodeSpec>, hash_value: usize) -> (u64, bool, Seq<char>) {
    if valid.len() == 0 {
        (0, true, Seq::empty())
    } else {
        let index = (hash_value as int) % (valid.len() as int);
        (index as u64, valid[index].is_local, valid[index].addr)
    }
}

/// What a membership update asks of the transport.
pub struct NodeChanges {
    /// Peers that joined, with their addresses: a sender is to be started for each.
    pub started: Vec<(u64, Arc<String>)>,
    /// Peers that left: their senders are to be stopped.
    pub stopped: Vec<u64>,
}

/// The table of cluster nodes, in ascending id order.
pub struct InnerNodeManage {
    local_id: u64,
    all_nodes: Vec<ClusterInnerNode>,
}

impl View for InnerNodeManage {
    type V = Seq<ClusterInnerNodeSpec>;

    closed spec fn view(&self) -> Seq<ClusterInnerNodeSpec> {
        node_views(self.all_nodes@)
    }
}

impl InnerNodeManage {
    /// The id of the node that keeps the table.
    pub closed spec fn spec_local_id(&self) -> u64 {
        self.local_id
    }

    /// The table is well kept.
    pub open spec fn wf(&self) -> bool {
        table_ok(self@, self.spec_local_id())
    }

    /// The table of the node with the given id, before any membership is known.
    pub fn new(local_id: u64) -> (r: Self)
        ensures
            r.wf(),
            r@ == Seq::<ClusterInnerNodeSpec>::empty(),
            r.spec_local_id() == local_id,
    {
        let r = InnerNodeManage { local_id, all_nodes: Vec::new() };
        assert(r@ =~= Seq::<ClusterInnerNodeSpec>::empty());
        r
    }

    /// The id of the node that keeps the table.
    #[verifier::when_used_as_spec(spec_local_id)]
    pub fn local_id(&self) -> (r: u64)
        ensures
            r == self.spec_local_id(),
    {
        self.local_id
    }

    /// The first position whose node has an id of at least `id`.
    fn lower_bound(&self, id: u64) -> (p: usize)
        requires
            ids_ascend(self@),
        ensures
            p <= self@.len(),
            forall|k: int| 0 <= k < p ==> (#[trigger] self@[k]).id < id,
            forall|k: int| p <= k < self@.len() ==> (#[trigger] self@[k]).id >= id,
    {
        let mut p: usize = 0;
        while p < self.all_nodes.len() && self.all_nodes[p].id < id
            invariant
                p <= self.all_nodes.len(),
                forall|k: int| 0 <= k < p ==> (#[trigger] self@[k]).id < id,
            decreases self.all_nodes.len() - p,
        {
            p += 1;
        }
        assert forall|k: int| p <= k < self@.len() implies (#[trigger] self@[k]).id >= id by {
            if p < k {
                assert(self@[p as int].id < self@[k].id);
            }
        }
        p
    }

    /// The position of the node with the given id.
    fn position(&self, id: u64) -> (r: Option<usize>)
        requires
            ids_ascend(self@),
        ensures
            match r {
                Some(p) => p < self@.len() && self@[p as int].id == id && lookup(self@, id)
                    == Some(self@[p as int]),
                None => lookup(self@, id) is None,
            },
    {
        let p = self.lower_bound(id);
        proof {
            lemma_lookup(self@, id);
        }
        if p < self.all_nodes.len() && self.all_nodes[p].id == id {
            Some(p)
        } else {
            assert forall|k: int| 0 <= k < self@.len() implies (#[trigger] self@[k]).id != id by {
                if k > p {
                    assert(self@[p as int].id < self@[k].id);
                }
            }
            None
        }
    }

    /// Whether the membership names the id.
    fn is_listed(nodes: &Vec<(u64, Arc<String>)>, id: u64) -> (r: bool)
        ensures
            r == listed(member_views(nodes@), id),
    {
        let mut i: usize = 0;
        while i < nodes.len()
            invariant
                i <= nodes.len(),
                forall|k: int| 0 <= k < i ==> (#[trigger] member_views(nodes@)[k]).0 != id,
            decreases nodes.len() - i,
        {
            if nodes[i].0 == id {
                assert(member_views(nodes@)[i as int].0 == id);
                return true;
            }
            i += 1;
        }
        false
    }

    /// Drops the nodes that the membership does not name, and says which
    /// peers went.
    fn drop_unlisted(&mut self, nodes: &Vec<(u64, Arc<String>)>) -> (stopped: Vec<u64>)
        requires
            ids_ascend(old(self)@),
            rows_ok(old(self)@, old(self).spec_local_id()),
        ensures
            final(self).spec_local_id() == old(self).spec_local_id(),
            ids_ascend(final(self)@),
            rows_ok(final(self)@, final(self).spec_local_id()),
            forall|id: u64|
                #[trigger] lookup(final(self)@, id) == if listed(member_views(nodes@), id) {
                    lookup(old(self)@, id)
                } else {
                    None
                },
            stopped@ == dropped_peers(old(self)@, member_views(nodes@)),
    {
        let ghost members = member_views(nodes@);
        let ghost before = self@;
        let ghost mut j: int = 0;
        let mut stopped: Vec<u64> = Vec::new();
        let mut i: usize = 0;
        proof {
            assert(before.take(0) =~= Seq::<ClusterInnerNodeSpec>::empty());
            assert(self@.take(0) =~= Seq::<ClusterInnerNodeSpec>::empty());
        }
        while i < self.all_nodes.len()
            invariant
                members == member_views(nodes@),
                before == old(self)@,
                self.local_id == old(self).local_id,
                i <= self@.len(),
                j == i + (before.len() - self@.len()),
                i <= j <= before.len(),
                forall|k: int| i <= k < self@.len() ==> #[trigger] self@[k] == before[k + (j - i)],
                ids_ascend(self@),
                ids_ascend(before),
                rows_ok(self@, self.local_id),
                forall|id: u64|
                    #[trigger] lookup(self@.take(i as int), id) == if listed(members, id) {
                        lookup(before.take(j), id)
                    } else {
                        None
                    },
                stopped@ == dropped_peers(before.take(j), members),
            decreases self@.len() - i,
        {
            let ghost cur = self@;
            let id = self.all_nodes[i].id;
            let local = self.all_nodes[i].is_local;
            proof {
                assert(cur.len() == self.all_nodes@.len());
                assert(cur[i as int] == before[j]);
                assert(before.take(j + 1).drop_last() =~= before.take(j));
                assert(before.take(j + 1).last() == before[j]);
            }
            if Self::is_listed(nodes, id) {
                proof {
                    assert(cur.take(i + 1).drop_last() =~= cur.take(i as int));
                    assert(cur.take(i + 1).last() == cur[i as int]);
                    assert forall|x: u64| #[trigger]
                        lookup(cur.take(i + 1), x) == if listed(members, x) {
                            lookup(before.take(j + 1), x)
                        } else {
                            None
                        } by {
                        assert(lookup(cur.take(i as int), x) == if listed(members, x) {
                            lookup(before.take(j), x)
                        } else {
                            None
                        });
                    }
                }
                i += 1;
            } else {
                self.all_nodes.remove(i);
                proof {
                    assert(self@ =~= cur.remove(i as int));
                    assert(self@.take(i as int) =~= cur.take(i as int));
                    assert forall|a: int, b: int| 0 <= a < b < self@.len() implies self@[a].id
                        < self@[b].id by {
                        let at_a = if a < i { a } else { a + 1 };
                        let at_b = if b < i { b } else { b + 1 };
                        assert(self@[a] == cur[at_a] && self@[b] == cur[at_b]);
                    }
                    assert forall|k: int| 0 <= k < self@.len() implies {
                        &&& (#[trigger] self@[k]).is_local == (self@[k].id == self.local_id)
                        &&& self@[k].client_set.no_duplicates()
                        &&& (self@[k].status == NodeStatus::Unvalid ==> self@[k].client_set.len()
                            == 0)
                    } by {
                        let at_k = if k < i { k } else { k + 1 };
                        assert(self@[k] == cur[at_k]);
                    }
                    assert forall|k: int| i <= k < self@.len() implies #[trigger] self@[k]
                        == before[k + (j + 1 - i)] by {
                        assert(self@[k] == cur[k + 1]);
                    }
                    assert forall|x: u64| #[trigger]
                        lookup(self@.take(i as int), x) == if listed(members, x) {
                            lookup(before.take(j + 1), x)
                        } else {
                            None
                        } by {
                        assert(lookup(cur.take(i as int), x) == if listed(members, x) {
                            lookup(before.take(j), x)
                        } else {
                            None
                        });
                    }
                }
                if !local {
                    stopped.push(id);
                }
            }
            proof {
                j = j + 1;
            }
        }
        proof {
            assert(self@.take(i as int) =~= self@);
            assert(before.take(j) =~= before);
        }
        stopped
    }

    /// Puts a node whose id the table does not hold at its place in the
    /// ascending order.
    fn insert_new(&mut self, node: ClusterInnerNode)
        requires
            ids_ascend(old(self)@),
            rows_ok(old(self)@, old(self).spec_local_id()),
            lookup(old(self)@, node.id) is None,
            node.is_local == (node.id == old(self).spec_local_id()),
            node.client_set@.no_duplicates(),
            node.status == NodeStatus::Unvalid ==> node.client_set@.len() == 0,
        ensures
            final(self).spec_local_id() == old(self).spec_local_id(),
            ids_ascend(final(self)@),
            rows_ok(final(self)@, final(self).spec_local_id()),
            lookup(final(self)@, node.id) == Some(node@),
            forall|id: u64| id != node.id ==> #[trigger] lookup(final(self)@, id) == lookup(old(self)@, id),
    {
        let p = self.lower_bound(node.id);
        let ghost before = self@;
        let ghost nv = node@;
        proof {
            lemma_lookup(before, node.id);
            if p < before.len() {
                assert(before[p as int].id != node.id);
            }
        }
        self.all_nodes.insert(p, node);
        proof {
            let after = self@;
            assert(after =~= before.insert(p as int, nv));
            assert forall|a: int, b: int| 0 <= a < b < after.len() implies after[a].id
                < after[b].id by {
                if a != p && b != p {
                    let at_a = if a < p { a } else { a - 1 };
                    let at_b = if b < p { b } else { b - 1 };
                    assert(after[a] == before[at_a] && after[b] == before[at_b]);
                } else if a == p {
                    assert(after[b] == before[b - 1]);
                } else {
                    assert(after[a] == before[a]);
                }
            }
            assert forall|k: int| 0 <= k < after.len() implies {
                &&& (#[trigger] after[k]).is_local == (after[k].id == self.local_id)
                &&& after[k].client_set.no_duplicates()
                &&& (after[k].status == NodeStatus::Unvalid ==> after[k].client_set.len() == 0)
            } by {
                if k != p {
                    let at_k = if k < p { k } else { k - 1 };
                    assert(after[k] == before[at_k]);
                }
            }
            lemma_lookup(after, nv.id);
            assert(after[p as int] == nv);
            assert forall|id: u64| id != nv.id implies #[trigger] lookup(after, id) == lookup(
                before,
                id,
            ) by {
                lemma_lookup(before, id);
                lemma_lookup(after, id);
                if let Some(n) = lookup(before, id) {
                    let k = choose|k: int| 0 <= k < before.len() && before[k] == n;
                    let at_k = if k < p { k } else { k + 1 };
                    assert(after[at_k] == n);
                } else if let Some(n) = lookup(after, id) {
                    let k = choose|k: int| 0 <= k < after.len() && after[k] == n;
                    let at_k = if k < p { k } else { k - 1 };
                    assert(before[at_k] == n);
                }
            }
        }
    }

    /// Gives the node with id `key` the address `addr`, bringing the node
    /// into the table if it is not there; says whether it was brought in.
    fn upsert(&mut self, key: u64, addr: Arc<String>, now: u64) -> (inserted: bool)
        requires
            ids_ascend(old(self)@),
            rows_ok(old(self)@, old(self).spec_local_id()),
        ensures
            final(self).spec_local_id() == old(self).spec_local_id(),
            ids_ascend(final(self)@),
            rows_ok(final(self)@, final(self).spec_local_id()),
            inserted == (lookup(old(self)@, key) is None),
            lookup(final(self)@, key) == Some(
                match lookup(old(self)@, key) {
                    Some(o) => o.with_addr(addr@),
                    None => ClusterInnerNodeSpec::fresh(key, old(self).spec_local_id(), addr@, now),
                },
            ),
            forall|id: u64| id != key ==> #[trigger] lookup(final(self)@, id) == lookup(old(self)@, id),
    {
        match self.position(key) {
            Some(p) => {
                let ghost before = self@;
                self.all_nodes[p].addr = addr;
                proof {
                    let after = self@;
                    assert(after.len() == before.len());
                    assert forall|k: int| 0 <= k < after.len() implies #[trigger] after[k] == (if k
                        == p {
                        before[k].with_addr(addr@)
                    } else {
                        before[k]
                    }) by {}
                    assert forall|a: int, b: int| 0 <= a < b < after.len() implies after[a].id
                        < after[b].id by {
                        assert(after[a].id == before[a].id && after[b].id == before[b].id);
                    }
                    lemma_lookup(after, key);
                    assert forall|id: u64| id != key implies #[trigger] lookup(after, id)
                        == lookup(before, id) by {
                        lemma_lookup(before, id);
                        lemma_lookup(after, id);
                        if let Some(n) = lookup(before, id) {
                            let k = choose|k: int| 0 <= k < before.len() && before[k] == n;
                            assert(after[k] == n);
                        } else if let Some(n) = lookup(after, id) {
                            let k = choose|k: int| 0 <= k < after.len() && after[k] == n;
                            assert(before[k] == n);
                        }
                    }
                }
                false
            },
            None => {
                let node = ClusterInnerNode {
                    id: key,
                    index: 0,
                    is_local: self.local_id == key,
                    addr,
                    status: NodeStatus::Valid,
                    last_active_time: now,
                    client_set: KeySet::new(),
                };
                self.insert_new(node);
                true
            },
        }
    }

    /// Gives every node its position in the ascending id order as `index`,
    /// and changes nothing else.
    pub fn update_nodes_index(&mut self)
        requires
            ids_ascend(old(self)@),
            rows_ok(old(self)@, old(self).spec_local_id()),
        ensures
            final(self).spec_local_id() == old(self).spec_local_id(),
            final(self).wf(),
            final(self)@.len() == old(self)@.len(),
            forall|i: int|
                0 <= i < final(self)@.len() ==> #[trigger] final(self)@[i] == old(self)@[i].with_index(
                    i as u64,
                ),
    {
        let n = self.all_nodes.len();
        let mut i: usize = 0;
        while i < n
            invariant
                i <= n,
                n == self@.len(),
                n == old(self)@.len(),
                self.local_id == old(self).local_id,
                forall|k: int| 0 <= k < i ==> #[trigger] self@[k] == old(self)@[k].with_index(k as u64),
                forall|k: int| i <= k < n ==> #[trigger] self@[k] == old(self)@[k],
            decreases n - i,
        {
            let ghost cur = self@;
            self.all_nodes[i].index = i as u64;
            proof {
                assert forall|k: int| 0 <= k < i + 1 implies #[trigger] self@[k] == old(
                    self,
                )@[k].with_index(k as u64) by {
                    if k < i {
                        assert(self@[k] == cur[k]);
                    }
                }
                assert forall|k: int| i + 1 <= k < n implies #[trigger] self@[k] == old(self)@[k] by {
                    assert(self@[k] == cur[k]);
                }
            }
            i += 1;
        }
        proof {
            let after = self@;
            let before = old(self)@;
            assert forall|a: int, b: int| 0 <= a < b < after.len() implies after[a].id
                < after[b].id by {
                assert(after[a] == before[a].with_index(a as u64));
                assert(after[b] == before[b].with_index(b as u64));
            }
            assert forall|k: int| 0 <= k < after.len() implies (#[trigger] after[k]).index == k by {
                assert(after[k] == before[k].with_index(k as u64));
            }
            assert forall|k: int| 0 <= k < after.len() implies {
                &&& (#[trigger] after[k]).is_local == (after[k].id == self.local_id)
                &&& after[k].client_set.no_duplicates()
                &&& (after[k].status == NodeStatus::Unvalid ==> after[k].client_set.len() == 0)
            } by {
                assert(after[k] == before[k].with_index(k as u64));
            }
        }
    }

    /// Brings the table in line with the membership `nodes`, as of `now`:
    /// nodes that the membership does not name go, those it names stay or
    /// join with the address it gives them, the local node is there in any
    /// case, and every node is placed anew.
    pub fn update_nodes_at(&mut self, nodes: Vec<(u64, Arc<String>)>, now: u64) -> (changes:
        NodeChanges)
        requires
            old(self).wf(),
        ensures
            final(self).wf(),
            final(self).spec_local_id() == old(self).spec_local_id(),
            membership_applied(
                old(self)@,
                member_views(nodes@),
                old(self).spec_local_id(),
                now,
                final(self)@,
            ),
            changes.stopped@ == dropped_peers(old(self)@, member_views(nodes@)),
            member_views(changes.started@) == started_peers(
                old(self)@,
                member_views(nodes@),
                old(self).spec_local_id(),
            ),
    {
        let ghost before = self@;
        let ghost members = member_views(nodes@);
        let ghost local = self.local_id;
        let stopped = self.drop_unlisted(&nodes);
        let mut started: Vec<(u64, Arc<String>)> = Vec::new();
        let mut j: usize = 0;
        proof {
            assert(members.take(0) =~= Seq::<(u64, Seq<char>)>::empty());
            assert(member_views(started@) =~= Seq::<(u64, Seq<char>)>::empty());
        }
        while j < nodes.len()
            invariant
                j <= nodes.len(),
                members == member_views(nodes@),
                before == old(self)@,
                local == old(self).local_id,
                self.local_id == local,
                ids_ascend(self@),
                ids_ascend(before),
                rows_ok(self@, local),
                forall|id: u64| #[trigger]
                    lookup(self@, id) == upserted_entry(before, members, j as int, local, now, id),
                member_views(started@) == started_peers(before, members.take(j as int), local),
            decreases nodes.len() - j,
        {
            let key = nodes[j].0;
            let ghost cur = self@;
            let ghost seen = members.take(j as int);
            let ghost e = members[j as int];
            let ghost started_before = started@;
            let inserted = self.upsert(key, share(&nodes[j].1), now);
            if inserted && key != self.local_id {
                started.push((key, share(&nodes[j].1)));
            }
            proof {
                assert(e == (key, nodes@[j as int].1@));
                assert(members.take(j + 1) =~= seen.push(e));
                assert(members.take(j + 1).drop_last() =~= seen);
                assert(listed(members, key)) by {
                    assert(members[j as int].0 == key);
                }
                assert(lookup(cur, key) == upserted_entry(before, members, j as int, local, now, key));
                assert forall|id: u64| #[trigger]
                    lookup(self@, id) == upserted_entry(before, members, j + 1, local, now, id) by {
                    lemma_members_push(seen, e, id);
                    assert(lookup(cur, id) == upserted_entry(before, members, j as int, local, now, id));
                }
                if inserted && key != local {
                    assert(member_views(started@) =~= member_views(started_before).push(e));
                } else {
                    assert(member_views(started@) =~= member_views(started_before));
                }
            }
            j += 1;
        }
        proof {
            assert(members.take(j as int) =~= members);
        }
        let ghost mid = self@;
        match self.position(self.local_id) {
            Some(_) => {},
            None => {
                let node = ClusterInnerNode {
                    id: self.local_id,
                    index: 0,
                    is_local: true,
                    addr: Arc::new(String::new()),
                    status: NodeStatus::Valid,
                    last_active_time: 0,
                    client_set: KeySet::new(),
                };
                self.insert_new(node);
            },
        }
        let ghost placed = self@;
        proof {
            assert(lookup(mid, local) == upserted_entry(before, members, j as int, local, now, local));
            assert forall|id: u64| #[trigger]
                lookup(placed, id) == updated_entry(before, members, local, now, id) by {
                assert(lookup(mid, id) == upserted_entry(before, members, j as int, local, now, id));
            }
        }
        self.update_nodes_index();
        proof {
            let after = self@;
            assert forall|id: u64|
                match #[trigger] updated_entry(before, members, local, now, id) {
                    Some(e) => lookup(after, id) matches Some(n) && n == e.with_index(n.index),
                    None => lookup(after, id) is None,
                } by {
                lemma_lookup(placed, id);
                lemma_lookup(after, id);
                assert(lookup(placed, id) == updated_entry(before, members, local, now, id));
                match lookup(placed, id) {
                    Some(e) => {
                        let k = choose|k: int| 0 <= k < placed.len() && placed[k] == e;
                        assert(after[k] == placed[k].with_index(k as u64));
                    },
                    None => {
                        assert forall|k: int| 0 <= k < after.len() implies (#[trigger] after[k]).id
                            != id by {
                            assert(after[k] == placed[k].with_index(k as u64));
                            if placed[k].id == id {
                                assert(lookup(placed, id) == Some(placed[k]));
                            }
                        }
                    },
                }
            }
        }
        NodeChanges { started, stopped }
    }

    /// `update_nodes_at` as of the time the clock shows.
    pub fn update_nodes(&mut self, nodes: Vec<(u64, Arc<String>)>) -> (changes: NodeChanges)
        requires
            old(self).wf(),
        ensures
            final(self).wf(),
            final(self).spec_local_id() == old(self).spec_local_id(),
            exists|now: u64|
                membership_applied(
                    old(self)@,
                    member_views(nodes@),
                    old(self).spec_local_id(),
                    now,
                    final(self)@,
                ),
            changes.stopped@ == dropped_peers(old(self)@, member_views(nodes@)),
            member_views(changes.started@) == started_peers(
                old(self)@,
                member_views(nodes@),
                old(self).spec_local_id(),
            ),
    {
        let now = now_millis();
        self.update_nodes_at(nodes, now)
    }

    /// The local node as the table holds it, or made up where it does not.
    pub fn get_this_node(&self) -> (r: ClusterInnerNode)
        requires
            self.wf(),
        ensures
            r@ == match lookup(self@, self.spec_local_id()) {
                Some(n) => n,
                None => ClusterInnerNodeSpec::local_default(self.spec_local_id()),
            },
    {
        match self.position(self.local_id) {
            Some(p) => self.all_nodes[p].clone(),
            None => ClusterInnerNode {
                id: self.local_id,
                index: 0,
                is_local: true,
                addr: Arc::new(String::new()),
                status: NodeStatus::Valid,
                last_active_time: 0,
                client_set: KeySet::new(),
            },
        }
    }

    /// All the nodes, in ascending id order.
    pub fn get_all_nodes(&self) -> (r: Vec<ClusterNode>)
        requires
            self.wf(),
        ensures
            public_views(r@) == all_public(self@, self.spec_local_id()),
    {
        let mut list: Vec<ClusterNode> = Vec::new();
        if self.all_nodes.len() == 0 {
            list.push(ClusterNode::from(self.get_this_node()));
            proof {
                lemma_lookup(self@, self.local_id);
                assert(public_views(list@) =~= all_public(self@, self.local_id));
            }
            return list;
        }
        let mut i: usize = 0;
        while i < self.all_nodes.len()
            invariant
                i <= self.all_nodes.len(),
                list@.len() == i,
                forall|k: int| 0 <= k < i ==> (#[trigger] list@[k])@ == self@[k].public(),
            decreases self.all_nodes.len() - i,
        {
            let n = &self.all_nodes[i];
            list.push(
                ClusterNode {
                    id: n.id,
                    index: n.index,
                    is_local: n.is_local,
                    addr: share(&n.addr),
                    status: n.status,
                },
            );
            i += 1;
        }
        assert(public_views(list@) =~= all_public(self@, self.local_id));
        list
    }

    /// The ids of the peers that a message to the other nodes goes to: the
    /// valid ones.
    fn peer_targets(&self) -> (targets: Vec<u64>)
        ensures
            targets@ == valid_peer_ids(self@),
    {
        let mut targets: Vec<u64> = Vec::new();
        let mut i: usize = 0;
        proof {
            assert(self@.take(0) =~= Seq::<ClusterInnerNodeSpec>::empty());
        }
        while i < self.all_nodes.len()
            invariant
                i <= self.all_nodes.len(),
                targets@ == valid_peer_ids(self@.take(i as int)),
            decreases self.all_nodes.len() - i,
        {
            proof {
                assert(self@.take(i + 1).drop_last() =~= self@.take(i as int));
                assert(self@.take(i + 1).last() == self@[i as int]);
            }
            let n = &self.all_nodes[i];
            if !n.is_local && n.status == NodeStatus::Valid {
                targets.push(n.id);
            }
            i += 1;
        }
        proof {
            assert(self@.take(i as int) =~= self@);
        }
        targets
    }

    /// Addresses a request to every valid peer.
    pub fn send_to_other_node(&self, req: NamingRouteRequest) -> (b: Broadcast)
        ensures
            b.request == req,
            b.targets@ == valid_peer_ids(self@),
    {
        Broadcast { request: req, targets: self.peer_targets() }
    }

    /// A ping from the local node to every valid peer.
    pub fn ping_other(&self) -> (b: Broadcast)
        ensures
            b.request == NamingRouteRequest::Ping(self.spec_local_id()),
            b.targets@ == valid_peer_ids(self@),
    {
        self.send_to_other_node(NamingRouteRequest::Ping(self.local_id))
    }

    /// Takes the clients of a node that was found dead out of its set: the
    /// naming state is to purge what they published.
    fn client_unvalid_instance(node: &mut ClusterInnerNode, purged: &mut Vec<Arc<String>>)
        ensures
            final(node)@ == (ClusterInnerNodeSpec { client_set: Seq::empty(), ..old(node)@ }),
            crate::keyed::models_of(final(purged)@) == crate::keyed::models_of(old(purged)@) + old(
                node,
            )@.client_set,
    {
        let mut clients = node.client_set.take_all();
        let ghost taken = clients@;
        let ghost had = purged@;
        purged.append(&mut clients);
        assert(crate::keyed::models_of(purged@) =~= crate::keyed::models_of(had)
            + crate::keyed::models_of(taken));
    }

    /// The liveness check as of `now`: every valid peer that was last heard
    /// of more than the timeout ago becomes invalid and loses its clients,
    /// which are handed back, node by node.
    pub fn check_node_status_at(&mut self, now: u64) -> (purged: Vec<Arc<String>>)
        requires
            old(self).wf(),
        ensures
            final(self).wf(),
            final(self).spec_local_id() == old(self).spec_local_id(),
            final(self)@ == checked_table(old(self)@, now),
            crate::keyed::models_of(purged@) == purged_clients(old(self)@, now),
    {
        let mut purged: Vec<Arc<String>> = Vec::new();
        let n = self.all_nodes.len();
        let mut i: usize = 0;
        proof {
            assert(self@.take(0) =~= Seq::<ClusterInnerNodeSpec>::empty());
            assert(crate::keyed::models_of(purged@) =~= Seq::<Seq<char>>::empty());
        }
        while i < n
            invariant
                i <= n,
                n == self@.len(),
                n == old(self)@.len(),
                self.local_id == old(self).local_id,
                old(self).wf(),
                forall|k: int|
                    0 <= k < i ==> #[trigger] self@[k] == checked_table(old(self)@, now)[k],
                forall|k: int| i <= k < n ==> #[trigger] self@[k] == old(self)@[k],
                crate::keyed::models_of(purged@) == purged_clients(old(self)@.take(i as int), now),
            decreases n - i,
        {
            let ghost cur = self@;
            proof {
                assert(old(self)@.take(i + 1).drop_last() =~= old(self)@.take(i as int));
                assert(old(self)@.take(i + 1).last() == old(self)@[i as int]);
                assert(cur[i as int] == old(self)@[i as int]);
            }
            let stale = !self.all_nodes[i].is_local && self.all_nodes[i].status
                == NodeStatus::Valid && now >= NODE_TIMEOUT_MS && self.all_nodes[i].last_active_time
                < now - NODE_TIMEOUT_MS;
            assert(stale == cur[i as int].stale(now));
            if stale {
                self.all_nodes[i].status = NodeStatus::Unvalid;
                Self::client_unvalid_instance(&mut self.all_nodes[i], &mut purged);
            }
            proof {
                assert forall|k: int| 0 <= k < i + 1 implies #[trigger] self@[k] == checked_table(
                    old(self)@,
                    now,
                )[k] by {
                    if k < i {
                        assert(self@[k] == cur[k]);
                    }
                }
                assert forall|k: int| i + 1 <= k < n implies #[trigger] self@[k] == old(self)@[k] by {
                    assert(self@[k] == cur[k]);
                }
            }
            i += 1;
        }
        proof {
            assert(old(self)@.take(i as int) =~= old(self)@);
            assert(self@ =~= checked_table(old(self)@, now));
            lemma_checked_table_ok(old(self)@, self.local_id, now);
        }
        purged
    }

    /// `check_node_status_at` as of the time the clock shows.
    pub fn check_node_status(&mut self) -> (purged: Vec<Arc<String>>)
        requires
            old(self).wf(),
        ensures
            final(self).wf(),
            final(self).spec_local_id() == old(self).spec_local_id(),
            exists|now: u64|
                final(self)@ == checked_table(old(self)@, now) && crate::keyed::models_of(purged@)
                    == purged_clients(old(self)@, now),
    {
        let now = now_millis();
        self.check_node_status_at(now)
    }

    /// A sign of life from the node with the given id at `now`: the node, if
    /// the table holds it, is valid and was last heard of at `now`.
    pub fn active_node_at(&mut self, node_id: u64, now: u64)
        requires
            old(self).wf(),
        ensures
            final(self).wf(),
            final(self).spec_local_id() == old(self).spec_local_id(),
            final(self)@ == activated_table(old(self)@, node_id, now),
    {
        match self.position(node_id) {
            Some(p) => {
                self.all_nodes[p].last_active_time = now;
                self.all_nodes[p].status = NodeStatus::Valid;
                proof {
                    let before = old(self)@;
                    assert forall|k: int| 0 <= k < before.len() implies #[trigger] self@[k]
                        == activated_table(before, node_id, now)[k] by {
                        if k != p && before[k].id == node_id {
                            if k < p {
                                assert(before[k].id < before[p as int].id);
                            } else {
                                assert(before[p as int].id < before[k].id);
                            }
                        }
                    }
                    assert(self@ =~= activated_table(before, node_id, now));
                }
            },
            None => {
                proof {
                    let before = old(self)@;
                    lemma_lookup(before, node_id);
                    assert forall|k: int| 0 <= k < before.len() implies (#[trigger] before[k]).id
                        != node_id by {
                        if before[k].id == node_id {
                            assert(lookup(before, node_id) == Some(before[k]));
                        }
                    }
                    assert(self@ =~= activated_table(before, node_id, now));
                }
            },
        }
        proof {
            let before = old(self)@;
            let after = self@;
            assert forall|a: int, b: int| 0 <= a < b < after.len() implies after[a].id
                < after[b].id by {
                assert(after[a].id == before[a].id && after[b].id == before[b].id);
            }
            assert forall|k: int| 0 <= k < after.len() implies (#[trigger] after[k]).index == k by {
                assert(after[k].index == before[k].index);
            }
            assert forall|k: int| 0 <= k < after.len() implies {
                &&& (#[trigger] after[k]).is_local == (after[k].id == self.local_id)
                &&& after[k].client_set.no_duplicates()
                &&& (after[k].status == NodeStatus::Unvalid ==> after[k].client_set.len() == 0)
            } by {
                assert(after[k].client_set == before[k].client_set);
                assert(after[k].is_local == before[k].is_local);
            }
        }
    }

    /// `active_node_at` as of the time the clock shows.
    pub fn active_node(&mut self, node_id: u64)
        requires
            old(self).wf(),
        ensures
            final(self).wf(),
            final(self).spec_local_id() == old(self).spec_local_id(),
            exists|now: u64| final(self)@ == activated_table(old(self)@, node_id, now),
    {
        let now = now_millis();
        self.active_node_at(node_id, now)
    }

    /// The node with the given id registered a client at `now`: a sign of
    /// life, and the client joins the node's set unless its id is empty.
    pub fn node_add_client_at(&mut self, node_id: u64, client_id: Arc<String>, now: u64)
        requires
            old(self).wf(),
        ensures
            final(self).wf(),
            final(self).spec_local_id() == old(self).spec_local_id(),
            final(self)@ == client_added_table(old(self)@, node_id, client_id@, now),
    {
        match self.position(node_id) {
            Some(p) => {
                self.all_nodes[p].last_active_time = now;
                self.all_nodes[p].status = NodeStatus::Valid;
                if !client_id.as_str().is_empty() {
                    self.all_nodes[p].client_set.insert(client_id);
                }
                proof {
                    let before = old(self)@;
                    assert forall|k: int| 0 <= k < before.len() implies #[trigger] self@[k]
                        == client_added_table(before, node_id, client_id@, now)[k] by {
                        if k != p && before[k].id == node_id {
                            if k < p {
                                assert(before[k].id < before[p as int].id);
                            } else {
                                assert(before[p as int].id < before[k].id);
                            }
                        }
                    }
                    assert(self@ =~= client_added_table(before, node_id, client_id@, now));
                }
            },
            None => {
                proof {
                    let before = old(self)@;
                    lemma_lookup(before, node_id);
                    assert forall|k: int| 0 <= k < before.len() implies (#[trigger] before[k]).id
                        != node_id by {
                        if before[k].id == node_id {
                            assert(lookup(before, node_id) == Some(before[k]));
                        }
                    }
                    assert(self@ =~= client_added_table(before, node_id, client_id@, now));
                }
            },
        }
        proof {
            let before = old(self)@;
            let after = self@;
            assert forall|a: int, b: int| 0 <= a < b < after.len() implies after[a].id
                < after[b].id by {
                assert(after[a].id == before[a].id && after[b].id == before[b].id);
            }
            assert forall|k: int| 0 <= k < after.len() implies (#[trigger] after[k]).index == k by {
                assert(after[k].index == before[k].index);
            }
            assert forall|k: int| 0 <= k < after.len() implies {
                &&& (#[trigger] after[k]).is_local == (after[k].id == self.local_id)
                &&& after[k].client_set.no_duplicates()
                &&& (after[k].status == NodeStatus::Unvalid ==> after[k].client_set.len() == 0)
            } by {
                assert(after[k].is_local == before[k].is_local);
                assert(before[k].client_set.no_duplicates());
            }
        }
    }

    /// `node_add_client_at` as of the time the clock shows.
    pub fn node_add_client(&mut self, node_id: u64, client_id: Arc<String>)
        requires
            old(self).wf(),
        ensures
            final(self).wf(),
            final(self).spec_local_id() == old(self).spec_local_id(),
            exists|now: u64|
                final(self)@ == client_added_table(old(self)@, node_id, client_id@, now),
    {
        let now = now_millis();
        self.node_add_client_at(node_id, client_id, now)
    }

    /// One tick of the heartbeat as of `now`: the liveness check, then a ping
    /// to the peers that are still valid.
    pub fn hb_at(&mut self, now: u64) -> (tick: NodeTick)
        requires
            old(self).wf(),
        ensures
            final(self).wf(),
            final(self).spec_local_id() == old(self).spec_local_id(),
            final(self)@ == checked_table(old(self)@, now),
            crate::keyed::models_of(tick.purged@) == purged_clients(old(self)@, now),
            tick.ping.request == NamingRouteRequest::Ping(old(self).spec_local_id()),
            tick.ping.targets@ == valid_peer_ids(final(self)@),
    {
        let purged = self.check_node_status_at(now);
        let ping = self.ping_other();
        NodeTick { purged, ping }
    }

    /// `hb_at` as of the time the clock shows.
    pub fn hb(&mut self) -> (tick: NodeTick)
        requires
            old(self).wf(),
        ensures
            final(self).wf(),
            final(self).spec_local_id() == old(self).spec_local_id(),
            exists|now: u64|
                final(self)@ == checked_table(old(self)@, now) && crate::keyed::models_of(
                    tick.purged@,
                ) == purged_clients(old(self)@, now),
            tick.ping.request == NamingRouteRequest::Ping(old(self).spec_local_id()),
            tick.ping.targets@ == valid_peer_ids(final(self)@),
    {
        let now = now_millis();
        self.hb_at(now)
    }
}

/// What one tick of the heartbeat asks of the surroundings.
pub struct NodeTick {
    /// Clients of peers that were found dead: the naming state is to purge
    /// what they published.
    pub purged: Vec<Arc<String>>,
    /// The ping to send.
    pub ping: Broadcast,
}

/// After a membership update the nodes hold the positions from zero up to
/// their number, each once, the node at a position holding that position,
/// and a node has the smaller position exactly when it has the smaller id.
pub proof fn law_indices_follow_ids(
    old_table: Seq<ClusterInnerNodeSpec>,
    members: Seq<(u64, Seq<char>)>,
    local_id: u64,
    now: u64,
    new_table: Seq<ClusterInnerNodeSpec>,
)
    requires
        membership_applied(old_table, members, local_id, now, new_table),
    ensures
        forall|j: int| 0 <= j < new_table.len() ==> (#[trigger] new_table[j]).index == j,
        forall|a: int, b: int|
            0 <= a < new_table.len() && 0 <= b < new_table.len() ==> (((
            #[trigger] new_table[a]).id < (#[trigger] new_table[b]).id) <==> (new_table[a].index
                < new_table[b].index)),
{
    assert forall|a: int, b: int| 0 <= a < new_table.len() && 0 <= b < new_table.len() implies (((
    #[trigger] new_table[a]).id < (#[trigger] new_table[b]).id) <==> (new_table[a].index
        < new_table[b].index)) by {
        assert(new_table[a].index == a && new_table[b].index == b);
        if a < b {
            assert(new_table[a].id < new_table[b].id);
        }
        if b < a {
            assert(new_table[b].id < new_table[a].id);
        }
    }
}

/// A node that the liveness check leaves invalid has no clients, and a
/// later sign of life, which makes it valid again, does not bring them back.
pub proof fn law_dead_peer_has_no_clients(
    table: Seq<ClusterInnerNodeSpec>,
    local_id: u64,
    now: u64,
    id: u64,
    later: u64,
)
    requires
        table_ok(table, local_id),
    ensures
        forall|i: int|
            0 <= i < table.len() && (#[trigger] checked_table(table, now)[i]).status
                == NodeStatus::Unvalid ==> checked_table(table, now)[i].client_set.len() == 0,
        forall|i: int|
            0 <= i < table.len() ==> (#[trigger] activated_table(
                checked_table(table, now),
                id,
                later,
            )[i]).client_set == checked_table(table, now)[i].client_set,
        forall|i: int|
            0 <= i < table.len() && table[i].id == id ==> (#[trigger] activated_table(
                checked_table(table, now),
                id,
                later,
            )[i]).status == NodeStatus::Valid,
{
    lemma_checked_table_ok(table, local_id, now);
}

/// The liveness check keeps a well-kept table well kept.
pub proof fn lemma_checked_table_ok(table: Seq<ClusterInnerNodeSpec>, local_id: u64, now: u64)
    requires
        table_ok(table, local_id),
    ensures
        table_ok(checked_table(table, now), local_id),
{
    let after = checked_table(table, now);
    assert forall|a: int, b: int| 0 <= a < b < after.len() implies after[a].id < after[b].id by {
        assert(after[a].id == table[a].id && after[b].id == table[b].id);
    }
    assert forall|k: int| 0 <= k < after.len() implies (#[trigger] after[k]).index == k by {
        assert(after[k].index == table[k].index);
    }
    assert forall|k: int| 0 <= k < after.len() implies {
        &&& (#[trigger] after[k]).is_local == (after[k].id == local_id)
        &&& after[k].client_set.no_duplicates()
        &&& (after[k].status == NodeStatus::Unvalid ==> after[k].client_set.len() == 0)
    } by {
        assert(table[k].is_local == (table[k].id == local_id));
    }
}

/// A request to the table of nodes.
pub enum NodeManageRequest {
    UpdateNodes(Vec<(u64, Arc<String>)>),
    GetThisNode,
    GetAllNodes,
    ActiveNode(u64),
    SendToOtherNodes(NamingRouteRequest),
    AddClientId(u64, Arc<String>),
    /// Not served: a client leaves a node's set only when the node is found dead.
    RemoveClientId(u64, Arc<String>),
}

/// The answer to a request to the table of nodes.
pub enum NodeManageResponse {
    Nothing,
    ThisNode(ClusterNode),
    AllNodes(Vec<ClusterNode>),
}

/// The answer to a request, with what the request asks of the transport.
pub struct NodeManageOutcome {
    pub response: NodeManageResponse,
    /// Senders to start and to stop, after a membership update.
    pub changes: Option<NodeChanges>,
    /// A request to pass on to the peers.
    pub broadcast: Option<Broadcast>,
}

/// What serving `msg` at `now` makes of the table and answers.
pub open spec fn handled(
    old_table: Seq<ClusterInnerNodeSpec>,
    local_id: u64,
    msg: NodeManageRequest,
    now: u64,
    new_table: Seq<ClusterInnerNodeSpec>,
    out: NodeManageOutcome,
) -> bool {
    match msg {
        NodeManageRequest::UpdateNodes(nodes) => {
            &&& membership_applied(old_table, member_views(nodes@), local_id, now, new_table)
            &&& out.response is Nothing
            &&& out.broadcast is None
            &&& out.changes matches Some(c) && c.stopped@ == dropped_peers(
                old_table,
                member_views(nodes@),
            ) && member_views(c.started@) == started_peers(
                old_table,
                member_views(nodes@),
                local_id,
            )
        },
        NodeManageRequest::GetThisNode => {
            &&& new_table == old_table
            &&& out.changes is None
            &&& out.broadcast is None
            &&& out.response matches NodeManageResponse::ThisNode(n) && n@ == (match lookup(
                old_table,
                local_id,
            ) {
                Some(n) => n,
                None => ClusterInnerNodeSpec::local_default(local_id),
            }).public()
        },
        NodeManageRequest::GetAllNodes => {
            &&& new_table == old_table
            &&& out.changes is None
            &&& out.broadcast is None
            &&& out.response matches NodeManageResponse::AllNodes(l) && public_views(l@)
                == all_public(old_table, local_id)
        },
        NodeManageRequest::ActiveNode(node_id) => {
            &&& new_table == activated_table(old_table, node_id, now)
            &&& out.response is Nothing
            &&& out.changes is None
            &&& out.broadcast is None
        },
        NodeManageRequest::SendToOtherNodes(req) => {
            &&& new_table == old_table
            &&& out.response is Nothing
            &&& out.changes is None
            &&& out.broadcast matches Some(b) && b.request == req && b.targets@ == valid_peer_ids(
                old_table,
            )
        },
        NodeManageRequest::AddClientId(node_id, client_id) => {
            &&& new_table == client_added_table(old_table, node_id, client_id@, now)
            &&& out.response is Nothing
            &&& out.changes is None
            &&& out.broadcast is None
        },
        NodeManageRequest::RemoveClientId(_, _) => false,
    }
}

impl InnerNodeManage {
    /// Serves one request as of `now`.
    pub fn handle_at(&mut self, msg: NodeManageRequest, now: u64) -> (out: NodeManageOutcome)
        requires
            old(self).wf(),
            !(msg is RemoveClientId),
        ensures
            final(self).wf(),
            final(self).spec_local_id() == old(self).spec_local_id(),
            handled(old(self)@, old(self).spec_local_id(), msg, now, final(self)@, out),
    {
        match msg {
            NodeManageRequest::UpdateNodes(nodes) => {
                let changes = self.update_nodes_at(nodes, now);
                NodeManageOutcome {
                    response: NodeManageResponse::Nothing,
                    changes: Some(changes),
                    broadcast: None,
                }
            },
            NodeManageRequest::GetThisNode => {
                NodeManageOutcome {
                    response: NodeManageResponse::ThisNode(ClusterNode::from(self.get_this_node())),
                    changes: None,
                    broadcast: None,
                }
            },
            NodeManageRequest::GetAllNodes => {
                NodeManageOutcome {
                    response: NodeManageResponse::AllNodes(self.get_all_nodes()),
                    changes: None,
                    broadcast: None,
                }
            },
            NodeManageRequest::SendToOtherNodes(req) => {
                NodeManageOutcome {
                    response: NodeManageResponse::Nothing,
                    changes: None,
                    broadcast: Some(self.send_to_other_node(req)),
                }
            },
            NodeManageRequest::ActiveNode(node_id) => {
                self.active_node_at(node_id, now);
                NodeManageOutcome {
                    response: NodeManageResponse::Nothing,
                    changes: None,
                    broadcast: None,
                }
            },
            NodeManageRequest::AddClientId(node_id, client_id) => {
                self.node_add_client_at(node_id, client_id, now);
                NodeManageOutcome {
                    response: NodeManageResponse::Nothing,
                    changes: None,
                    broadcast: None,
                }
            },
            NodeManageRequest::RemoveClientId(_, _) => {
                NodeManageOutcome {
                    response: NodeManageResponse::Nothing,
                    changes: None,
                    broadcast: None,
                }
            },
        }
    }

    /// `handle_at` as of the time the clock shows.
    pub fn handle(&mut self, msg: NodeManageRequest) -> (out: NodeManageOutcome)
        requires
            old(self).wf(),
            !(msg is RemoveClientId),
        ensures
            final(self).wf(),
            final(self).spec_local_id() == old(self).spec_local_id(),
            exists|now: u64|
                handled(old(self)@, old(self).spec_local_id(), msg, now, final(self)@, out),
    {
        let now = now_millis();
        self.handle_at(msg, now)
    }
}

/// The valid nodes of a list, in order.
fn keep_valid(nodes: Vec<ClusterNode>) -> (r: Vec<ClusterNode>)
    ensures
        public_views(r@) == valid_nodes(public_views(nodes@)),
{
    let ghost all = public_views(nodes@);
    let mut r: Vec<ClusterNode> = Vec::new();
    let mut i: usize = 0;
    proof {
        assert(all.take(0) =~= Seq::<ClusterNodeSpec>::empty());
        assert(public_views(r@) =~= Seq::<ClusterNodeSpec>::empty());
    }
    while i < nodes.len()
        invariant
            i <= nodes.len(),
            all == public_views(nodes@),
            public_views(r@) == valid_nodes(all.take(i as int)),
        decreases nodes.len() - i,
    {
        let ghost had = r@;
        proof {
            assert(all.take(i + 1).drop_last() =~= all.take(i as int));
            assert(all.take(i + 1).last() == all[i as int]);
        }
        if nodes[i].status == NodeStatus::Valid {
            r.push(nodes[i].clone());
            assert(public_views(r@) =~= public_views(had).push(all[i as int]));
        }
        i += 1;
    }
    proof {
        assert(all.take(i as int) =~= all);
    }
    r
}

/// The nodes of a list that are not local, in order.
fn keep_others(nodes: Vec<ClusterNode>) -> (r: Vec<ClusterNode>)
    ensures
        public_views(r@) == other_nodes(public_views(nodes@)),
{
    let ghost all = public_views(nodes@);
    let mut r: Vec<ClusterNode> = Vec::new();
    let mut i: usize = 0;
    proof {
        assert(all.take(0) =~= Seq::<ClusterNodeSpec>::empty());
        assert(public_views(r@) =~= Seq::<ClusterNodeSpec>::empty());
    }
    while i < nodes.len()
        invariant
            i <= nodes.len(),
            all == public_views(nodes@),
            public_views(r@) == other_nodes(all.take(i as int)),
        decreases nodes.len() - i,
    {
        let ghost had = r@;
        proof {
            assert(all.take(i + 1).drop_last() =~= all.take(i as int));
            assert(all.take(i + 1).last() == all[i as int]);
        }
        if !nodes[i].is_local {
            r.push(nodes[i].clone());
            assert(public_views(r@) =~= public_views(had).push(all[i as int]));
        }
        i += 1;
    }
    proof {
        assert(all.take(i as int) =~= all);
    }
    r
}

/// The table of nodes as the rest of the naming cluster uses it: to find the
/// valid nodes and the owner of a naming write.
pub struct NodeManage {
    pub inner_node_manage: InnerNodeManage,
}

impl NodeManage {
    /// The table as the rest of the naming cluster uses it.
    pub fn new(inner_node_manage: InnerNodeManage) -> (r: Self)
        ensures
            r.inner_node_manage == inner_node_manage,
    {
        Self { inner_node_manage }
    }

    /// The valid nodes as the table shows them, in ascending id order.
    pub open spec fn valid(&self) -> Seq<ClusterNodeSpec> {
        valid_nodes(all_public(self.inner_node_manage@, self.inner_node_manage.spec_local_id()))
    }

    /// The owner of a naming write whose key hashes to `hash_value`: the
    /// valid node at position `hash_value` modulo the number of valid nodes,
    /// in ascending id order. Every node of the cluster that sees the same
    /// valid nodes names the same owner.
    pub fn route_addr(&self, hash_value: usize) -> (r: NamingRouteAddr)
        requires
            self.inner_node_manage.wf(),
        ensures
            match r {
                NamingRouteAddr::Local(index) => route_of(self.valid(), hash_value).1 && index
                    == route_of(self.valid(), hash_value).0,
                NamingRouteAddr::Remote(index, addr) => !route_of(self.valid(), hash_value).1
                    && index == route_of(self.valid(), hash_value).0 && addr@ == route_of(
                    self.valid(),
                    hash_value,
                ).2,
            },
    {
        let nodes = self.get_all_valid_nodes();
        if nodes.len() == 0 {
            NamingRouteAddr::Local(0)
        } else {
            let index = hash_value % nodes.len();
            assert(public_views(nodes@)[index as int] == nodes@[index as int]@);
            if nodes[index].is_local {
                NamingRouteAddr::Local(index as u64)
            } else {
                NamingRouteAddr::Remote(index as u64, share(&nodes[index].addr))
            }
        }
    }

    /// The valid nodes, in ascending id order.
    pub fn get_all_valid_nodes(&self) -> (r: Vec<ClusterNode>)
        requires
            self.inner_node_manage.wf(),
        ensures
            public_views(r@) == self.valid(),
    {
        keep_valid(self.inner_node_manage.get_all_nodes())
    }

    /// The valid peers, in ascending id order.
    pub fn get_other_valid_nodes(&self) -> (r: Vec<ClusterNode>)
        requires
            self.inner_node_manage.wf(),
        ensures
            public_views(r@) == other_nodes(self.valid()),
    {
        keep_others(self.get_all_valid_nodes())
    }

    /// Passes a sign of life from the node with the given id on to the table.
    pub fn active_node(&mut self, node_id: u64)
        requires
            old(self).inner_node_manage.wf(),
        ensures
            final(self).inner_node_manage.wf(),
            final(self).inner_node_manage.spec_local_id() == old(
                self,
            ).inner_node_manage.spec_local_id(),
            exists|now: u64|
                final(self).inner_node_manage@ == activated_table(
                    old(self).inner_node_manage@,
                    node_id,
                    now,
                ),
    {
        self.inner_node_manage.active_node(node_id)
    }
}

} // verus!
