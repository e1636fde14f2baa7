//! The index of the confirmed configuration keys, kept in ascending order
//! of tenant, group and data id, and the paged query over it.

use std::sync::Arc;
use vstd::prelude::*;
use crate::config::config_core::{ConfigKey, ConfigKeySpec};
use crate::config::wire::key_views;
use crate::text::{
    contains_text,
    lemma_text_lt_irreflexive,
    lemma_text_lt_total,
    lemma_text_lt_transitive,
    occurs_in,
    text_before,
    text_lt,
};

verus! {

/// The order of the index: by tenant, then by group, then by data id, each
/// as text.
pub open spec fn key_lt(a: ConfigKeySpec, b: ConfigKeySpec) -> bool {
    if a.tenant != b.tenant {
        text_lt(a.tenant, b.tenant)
    } else if a.group != b.group {
        text_lt(a.group, b.group)
    } else {
        text_lt(a.data_id, b.data_id)
    }
}

/// The keys ascend strictly along the row.
pub open spec fn keys_ascend(s: Seq<ConfigKeySpec>) -> bool {
    forall|i: int, j: int| 0 <= i < j < s.len() ==> key_lt(s[i], s[j])
}

/// The order of the index is a strict total order.
pub proof fn lemma_key_lt_order(a: ConfigKeySpec, b: ConfigKeySpec, c: ConfigKeySpec)
    ensures
        !key_lt(a, a),
        key_lt(a, b) || key_lt(b, a) || a == b,
        !(key_lt(a, b) && key_lt(b, a)),
        key_lt(a, b) && key_lt(b, c) ==> key_lt(a, c),
{
    lemma_text_lt_irreflexive(a.tenant);
    lemma_text_lt_irreflexive(a.group);
    lemma_text_lt_irreflexive(a.data_id);
    lemma_text_lt_total(a.tenant, b.tenant);
    lemma_text_lt_total(a.group, b.group);
    lemma_text_lt_total(a.data_id, b.data_id);
    lemma_text_lt_total(b.tenant, c.tenant);
    lemma_text_lt_total(b.group, c.group);
    lemma_text_lt_total(b.data_id, c.data_id);
    lemma_text_lt_total(a.tenant, c.tenant);
    lemma_text_lt_total(a.group, c.group);
    if key_lt(a, b) && key_lt(b, c) {
        if text_lt(a.tenant, b.tenant) && text_lt(b.tenant, c.tenant) {
            lemma_text_lt_transitive(a.tenant, b.tenant, c.tenant);
        }
        if text_lt(a.group, b.group) && text_lt(b.group, c.group) {
            lemma_text_lt_transitive(a.group, b.group, c.group);
        }
        if text_lt(a.data_id, b.data_id) && text_lt(b.data_id, c.data_id) {
            lemma_text_lt_transitive(a.data_id, b.data_id, c.data_id);
        }
    }
}

/// The number of keys of the row that come before `k`.
pub open spec fn rank(s: Seq<ConfigKeySpec>, k: ConfigKeySpec) -> int
    decreases s.len(),
{
    if s.len() == 0 {
        0
    } else if key_lt(s.last(), k) {
        rank(s.drop_last(), k) + 1
    } else {
        rank(s.drop_last(), k)
    }
}

/// The index with one more key, at its place in the order, unless it is there.
pub open spec fn index_added(s: Seq<ConfigKeySpec>, k: ConfigKeySpec) -> Seq<ConfigKeySpec> {
    if s.contains(k) {
        s
    } else {
        s.insert(rank(s, k), k)
    }
}

/// The index without a key.
pub open spec fn index_removed(s: Seq<ConfigKeySpec>, k: ConfigKeySpec) -> Seq<ConfigKeySpec> {
    if s.contains(k) {
        s.remove(rank(s, k))
    } else {
        s
    }
}

/// Along ascending keys, the position up to which the keys come before `k`
/// is the number of keys before `k`.
pub proof fn lemma_rank(s: Seq<ConfigKeySpec>, k: ConfigKeySpec, p: int)
    requires
        keys_ascend(s),
        0 <= p <= s.len(),
        forall|i: int| 0 <= i < p ==> key_lt(#[trigger] s[i], k),
        forall|i: int| p <= i < s.len() ==> !key_lt(#[trigger] s[i], k),
    ensures
        rank(s, k) == p,
    decreases s.len(),
{
    if s.len() > 0 {
        let r = s.drop_last();
        let last = s.len() - 1;
        assert forall|i: int, j: int| 0 <= i < j < r.len() implies key_lt(r[i], r[j]) by {
            assert(r[i] == s[i] && r[j] == s[j]);
        }
        if key_lt(s.last(), k) {
            assert(p == s.len()) by {
                if p < s.len() {
                    assert(!key_lt(s[last], k));
                }
            }
            assert forall|i: int| 0 <= i < p - 1 implies key_lt(#[trigger] r[i], k) by {
                assert(r[i] == s[i]);
            }
            lemma_rank(r, k, p - 1);
        } else {
            assert(p <= last) by {
                if p == s.len() {
                    assert(key_lt(s[last], k));
                }
            }
            assert forall|i: int| 0 <= i < p implies key_lt(#[trigger] r[i], k) by {
                assert(r[i] == s[i]);
            }
            assert forall|i: int| p <= i < r.len() implies !key_lt(#[trigger] r[i], k) by {
                assert(r[i] == s[i]);
            }
            lemma_rank(r, k, p);
        }
    }
}

/// Adding a key keeps the order and adds the key to the set of keys;
/// removing one keeps the order and takes the key from the set.
pub proof fn lemma_index_sets(s: Seq<ConfigKeySpec>, k: ConfigKeySpec)
    requires
        keys_ascend(s),
    ensures
        keys_ascend(index_added(s, k)),
        index_added(s, k).to_set() == s.to_set().insert(k),
        keys_ascend(index_removed(s, k)),
        index_removed(s, k).to_set() == s.to_set().remove(k),
{
    let p = lemma_rank_parts(s, k);
    let a = index_added(s, k);
    let r = index_removed(s, k);
    if s.contains(k) {
        let i = choose|i: int| 0 <= i < s.len() && s[i] == k;
        lemma_key_lt_order(k, k, k);
        assert(i == p) by {
            if i < p {
                assert(key_lt(s[i], k));
            }
            if i > p {
                assert(!key_lt(s[p], k));
                assert(key_lt(s[p], s[i]));
            }
        }
        assert forall|x: int, y: int| 0 <= x < y < r.len() implies key_lt(r[x], r[y]) by {
            let x2 = if x < p { x } else { x + 1 };
            let y2 = if y < p { y } else { y + 1 };
            assert(r[x] == s[x2] && r[y] == s[y2]);
        }
        assert forall|z: ConfigKeySpec| r.to_set().contains(z) <==> s.to_set().remove(k).contains(
            z,
        ) by {
            if r.contains(z) {
                let x = choose|x: int| 0 <= x < r.len() && r[x] == z;
                let x2 = if x < p { x } else { x + 1 };
                assert(s[x2] == z);
                if z == k {
                    if x2 < p {
                        assert(key_lt(s[x2], s[p]));
                    } else {
                        assert(key_lt(s[p], s[x2]));
                    }
                }
            }
            if s.contains(z) && z != k {
                let x = choose|x: int| 0 <= x < s.len() && s[x] == z;
                let x2 = if x < p { x } else { x - 1 };
                assert(r[x2] == z);
            }
        }
        assert(r.to_set() =~= s.to_set().remove(k));
        assert(a.to_set() =~= s.to_set().insert(k));
    } else {
        assert forall|x: int, y: int| 0 <= x < y < a.len() implies key_lt(a[x], a[y]) by {
            let x2 = if x < p { x } else { x - 1 };
            let y2 = if y < p { y } else { y - 1 };
            if x != p && y != p {
                assert(a[x] == s[x2] && a[y] == s[y2]);
            } else if x == p {
                assert(a[y] == s[y2]);
                assert(!key_lt(s[y2], k));
                assert(s.contains(s[y2]));
                lemma_key_lt_order(s[y2], k, k);
            } else {
                assert(a[x] == s[x2]);
            }
        }
        assert forall|z: ConfigKeySpec| a.to_set().contains(z) <==> s.to_set().insert(k).contains(
            z,
        ) by {
            if a.contains(z) {
                let x = choose|x: int| 0 <= x < a.len() && a[x] == z;
                if x != p {
                    let x2 = if x < p { x } else { x - 1 };
                    assert(s[x2] == z);
                }
            }
            if s.contains(z) {
                let x = choose|x: int| 0 <= x < s.len() && s[x] == z;
                let x2 = if x < p { x } else { x + 1 };
                assert(a[x2] == z);
            }
            if z == k {
                assert(a[p] == z);
            }
        }
        assert(a.to_set() =~= s.to_set().insert(k));
        assert(r.to_set() =~= s.to_set().remove(k));
    }
}

/// Along ascending keys `rank` parts the keys before `k` from the others.
pub proof fn lemma_rank_parts(s: Seq<ConfigKeySpec>, k: ConfigKeySpec) -> (p: int)
    requires
        keys_ascend(s),
    ensures
        p == rank(s, k),
        0 <= p <= s.len(),
        forall|i: int| 0 <= i < p ==> key_lt(#[trigger] s[i], k),
        forall|i: int| p <= i < s.len() ==> !key_lt(#[trigger] s[i], k),
    decreases s.len(),
{
    if s.len() == 0 {
        0
    } else {
        let r = s.drop_last();
        let last = s.len() - 1;
        assert forall|i: int, j: int| 0 <= i < j < r.len() implies key_lt(r[i], r[j]) by {
            assert(r[i] == s[i] && r[j] == s[j]);
        }
        let b = lemma_rank_parts(r, k);
        let p = rank(s, k);
        assert forall|i: int| 0 <= i < p implies key_lt(#[trigger] s[i], k) by {
            if i < b {
                assert(r[i] == s[i]);
            } else if i < last {
                assert(r[i] == s[i]);
                assert(key_lt(s[i], s[last]));
                lemma_key_lt_order(s[i], s[last], k);
            }
        }
        assert forall|i: int| p <= i < s.len() implies !key_lt(#[trigger] s[i], k) by {
            if i < last {
                assert(r[i] == s[i]);
            } else if key_lt(s.last(), k) {
                assert(r[b] == s[b]);
                assert(!key_lt(r[b], k));
                assert(key_lt(s[b], s[last]));
                lemma_key_lt_order(s[b], s[last], k);
            }
        }
        p
    }
}

/// A paged query over the index.
pub struct ConfigQueryParam {
    /// The namespace to look in; empty for the default namespace.
    pub tenant: Arc<String>,
    /// A text that the group must hold, if given.
    pub like_group: Option<String>,
    /// A text that the data id must hold, if given.
    pub like_data_id: Option<String>,
    /// Whether content and digest are wanted with each key.
    pub query_context: bool,
    /// The number of matches to skip.
    pub offset: usize,
    /// The number of matches to return at most.
    pub limit: usize,
}

/// A paged query over texts.
pub struct ConfigQuerySpec {
    pub tenant: Seq<char>,
    pub like_group: Option<Seq<char>>,
    pub like_data_id: Option<Seq<char>>,
    pub query_context: bool,
    pub offset: usize,
    pub limit: usize,
}

impl View for ConfigQueryParam {
    type V = ConfigQuerySpec;

    open spec fn view(&self) -> ConfigQuerySpec {
        ConfigQuerySpec {
            tenant: self.tenant@,
            like_group: match self.like_group {
                Some(p) => Some(p@),
                None => None,
            },
            like_data_id: match self.like_data_id {
                Some(p) => Some(p@),
                None => None,
            },
            query_context: self.query_context,
            offset: self.offset,
            limit: self.limit,
        }
    }
}

impl ConfigQuerySpec {
    /// Whether the query asks for the key: the key is of the query's tenant,
    /// and its group and data id hold the texts that the query gives for
    /// them. An empty text is held by every text.
    pub open spec fn matches(self, k: ConfigKeySpec) -> bool {
        &&& k.tenant == self.tenant
        &&& match self.like_group {
            Some(p) => occurs_in(p, k.group),
            None => true,
        }
        &&& match self.like_data_id {
            Some(p) => occurs_in(p, k.data_id),
            None => true,
        }
    }

    /// The keys of the row that the query asks for, in order.
    pub open spec fn matching(self, s: Seq<ConfigKeySpec>) -> Seq<ConfigKeySpec>
        decreases s.len(),
    {
        if s.len() == 0 {
            Seq::empty()
        } else {
            let rest = self.matching(s.drop_last());
            if self.matches(s.last()) {
                rest.push(s.last())
            } else {
                rest
            }
        }
    }

    /// The page of a row of matches that the query asks for.
    pub open spec fn page(self, found: Seq<ConfigKeySpec>) -> Seq<ConfigKeySpec> {
        let from = if self.offset <= found.len() {
            self.offset as int
        } else {
            found.len() as int
        };
        let to = if self.offset + self.limit <= found.len() {
            self.offset + self.limit
        } else {
            found.len() as int
        };
        found.subrange(from, to)
    }
}

/// What a query finds comes from the row, in the order of the row.
pub proof fn lemma_matching_ascends(q: ConfigQuerySpec, s: Seq<ConfigKeySpec>)
    requires
        keys_ascend(s),
    ensures
        keys_ascend(q.matching(s)),
        q.matching(s).len() <= s.len(),
        forall|i: int|
            0 <= i < q.matching(s).len() ==> s.contains(#[trigger] q.matching(s)[i]) && q.matches(
                q.matching(s)[i],
            ),
        forall|i: int| 0 <= i < s.len() && q.matches(s[i]) ==> q.matching(s).contains(#[trigger] s[i]),
    decreases s.len(),
{
    if s.len() > 0 {
        let r = s.drop_last();
        let last = s.len() - 1;
        assert forall|i: int, j: int| 0 <= i < j < r.len() implies key_lt(r[i], r[j]) by {
            assert(r[i] == s[i] && r[j] == s[j]);
        }
        lemma_matching_ascends(q, r);
        let m = q.matching(s);
        let mr = q.matching(r);
        assert forall|i: int| 0 <= i < m.len() implies s.contains(#[trigger] m[i]) && q.matches(
            m[i],
        ) by {
            if i < mr.len() {
                assert(m[i] == mr[i]);
                let x = choose|x: int| 0 <= x < r.len() && r[x] == mr[i];
                assert(s[x] == m[i]);
            } else {
                assert(m[i] == s[last]);
            }
        }
        assert forall|i: int, j: int| 0 <= i < j < m.len() implies key_lt(m[i], m[j]) by {
            assert(m[i] == mr[i]);
            if j < mr.len() {
                assert(m[j] == mr[j]);
            } else {
                let x = choose|x: int| 0 <= x < r.len() && r[x] == mr[i];
                assert(key_lt(s[x], s[last]));
            }
        }
        assert forall|i: int| 0 <= i < s.len() && q.matches(s[i]) implies m.contains(
            #[trigger] s[i],
        ) by {
            if i < last {
                assert(r[i] == s[i]);
                let x = choose|x: int| 0 <= x < mr.len() && mr[x] == r[i];
                assert(m[x] == s[i]);
            } else {
                assert(m[m.len() - 1] == s[i]);
            }
        }
    }
}

/// The index of the confirmed keys.
pub struct TenantIndex {
    keys: Vec<ConfigKey>,
}

impl View for TenantIndex {
    type V = Seq<ConfigKeySpec>;

    closed spec fn view(&self) -> Seq<ConfigKeySpec> {
        key_views(self.keys@)
    }
}

/// Whether `a` comes before `b` in the order of the index.
fn key_before(a: &ConfigKey, b: &ConfigKey) -> (r: bool)
    ensures
        r == key_lt(a@, b@),
{
    if *a.tenant != *b.tenant {
        text_before(a.tenant.as_str(), b.tenant.as_str())
    } else if *a.group != *b.group {
        text_before(a.group.as_str(), b.group.as_str())
    } else {
        text_before(a.data_id.as_str(), b.data_id.as_str())
    }
}

/// Whether `text` holds `pattern`, where one is given.
fn like(pattern: &Option<String>, text: &str) -> (r: bool)
    ensures
        r == match pattern {
            Some(p) => occurs_in(p@, text@),
            None => true,
        },
{
    match pattern {
        Some(p) => contains_text(text, p.as_str()),
        None => true,
    }
}

impl ConfigQueryParam {
    /// Whether the query asks for the key.
    pub fn is_match(&self, key: &ConfigKey) -> (r: bool)
        ensures
            r == self@.matches(key@),
    {
        *key.tenant == *self.tenant && like(&self.like_group, key.group.as_str()) && like(
            &self.like_data_id,
            key.data_id.as_str(),
        )
    }
}

impl TenantIndex {
    /// The keys ascend: the index holds no key twice.
    pub open spec fn wf(&self) -> bool {
        keys_ascend(self@)
    }

    /// The index without keys.
    pub fn new() -> (r: Self)
        ensures
            r.wf(),
            r@ == Seq::<ConfigKeySpec>::empty(),
    {
        let r = TenantIndex { keys: Vec::new() };
        assert(r@ =~= Seq::<ConfigKeySpec>::empty());
        r
    }

    /// The number of keys.
    pub fn size(&self) -> (n: usize)
        ensures
            n == self@.len(),
    {
        self.keys.len()
    }

    /// The first position whose key does not come before `key`.
    fn place(&self, key: &ConfigKey) -> (p: usize)
        requires
            self.wf(),
        ensures
            p == rank(self@, key@),
            p <= self@.len(),
            self@.contains(key@) <==> (p < self@.len() && self@[p as int] == key@),
    {
        let mut p: usize = 0;
        while p < self.keys.len() && key_before(&self.keys[p], key)
            invariant
                p <= self.keys.len(),
                forall|i: int| 0 <= i < p ==> key_lt(#[trigger] self@[i], key@),
            decreases self.keys.len() - p,
        {
            p += 1;
        }
        proof {
            let s = self@;
            assert forall|i: int| p <= i < s.len() implies !key_lt(#[trigger] s[i], key@) by {
                if i > p {
                    assert(key_lt(s[p as int], s[i]));
                    lemma_key_lt_order(s[p as int], s[i], key@);
                }
            }
            lemma_rank(s, key@, p as int);
            lemma_key_lt_order(key@, key@, key@);
            if s.contains(key@) {
                let i = choose|i: int| 0 <= i < s.len() && s[i] == key@;
                if i < p {
                    assert(key_lt(s[i], key@));
                }
                if i > p {
                    assert(key_lt(s[p as int], s[i]));
                }
            }
        }
        p
    }

    /// Whether the index holds the key.
    pub fn contains(&self, key: &ConfigKey) -> (r: bool)
        requires
            self.wf(),
        ensures
            r == self@.contains(key@),
    {
        let p = self.place(key);
        p < self.keys.len() && self.keys[p] == *key
    }

    /// Puts the key into the index; says whether it was not there.
    pub fn insert_config(&mut self, key: ConfigKey) -> (added: bool)
        requires
            old(self).wf(),
        ensures
            final(self).wf(),
            added == !old(self)@.contains(key@),
            final(self)@ == index_added(old(self)@, key@),
            final(self)@.to_set() == old(self)@.to_set().insert(key@),
    {
        let p = self.place(&key);
        proof {
            lemma_index_sets(old(self)@, key@);
        }
        if p < self.keys.len() && self.keys[p] == key {
            false
        } else {
            self.keys.insert(p, key);
            assert(self@ =~= old(self)@.insert(p as int, key@));
            true
        }
    }

    /// Takes the key out of the index; says whether it was there.
    pub fn remove_config(&mut self, key: &ConfigKey) -> (removed: bool)
        requires
            old(self).wf(),
        ensures
            final(self).wf(),
            removed == old(self)@.contains(key@),
            final(self)@ == index_removed(old(self)@, key@),
            final(self)@.to_set() == old(self)@.to_set().remove(key@),
    {
        let p = self.place(key);
        proof {
            lemma_index_sets(old(self)@, key@);
        }
        if p < self.keys.len() && self.keys[p] == *key {
            self.keys.remove(p);
            assert(self@ =~= old(self)@.remove(p as int));
            true
        } else {
            false
        }
    }

    /// Empties the index.
    pub fn clear(&mut self)
        ensures
            final(self).wf(),
            final(self)@ == Seq::<ConfigKeySpec>::empty(),
    {
        self.keys = Vec::new();
        assert(self@ =~= Seq::<ConfigKeySpec>::empty());
    }

    /// The keys that the query asks for: their number, and the page of them
    /// that the query's offset and limit cut out, in ascending order of
    /// group and data id.
    pub fn query_config_page(&self, param: &ConfigQueryParam) -> (r: (usize, Vec<ConfigKey>))
        requires
            self.wf(),
        ensures
            r.0 == param@.matching(self@).len(),
            key_views(r.1@) == param@.page(param@.matching(self@)),
            keys_ascend(key_views(r.1@)),
    {
        let ghost q = param@;
        let ghost s = self@;
        let mut found: usize = 0;
        let mut page: Vec<ConfigKey> = Vec::new();
        let mut i: usize = 0;
        proof {
            assert(s.take(0) =~= Seq::<ConfigKeySpec>::empty());
            assert(key_views(page@) =~= Seq::<ConfigKeySpec>::empty());
        }
        while i < self.keys.len()
            invariant
                i <= self.keys.len(),
                q == param@,
                s == self@,
                keys_ascend(s),
                found == q.matching(s.take(i as int)).len(),
                found <= i,
                key_views(page@) == q.page(q.matching(s.take(i as int))),
            decreases self.keys.len() - i,
        {
            let ghost had = page@;
            let ghost before = q.matching(s.take(i as int));
            proof {
                assert(s.take(i + 1).drop_last() =~= s.take(i as int));
                assert(s.take(i + 1).last() == s[i as int]);
            }
            if param.is_match(&self.keys[i]) {
                if found >= param.offset && found - param.offset < param.limit {
                    page.push(self.keys[i].clone());
                    proof {
                        assert(key_views(page@) =~= key_views(had).push(s[i as int]));
                        assert(q.page(before.push(s[i as int])) =~= q.page(before).push(s[i as int]));
                    }
                } else {
                    proof {
                        assert(q.page(before.push(s[i as int])) =~= q.page(before));
                    }
                }
                found += 1;
            }
            i += 1;
        }
        proof {
            assert(s.take(i as int) =~= s);
            lemma_matching_ascends(q, s);
            let m = q.matching(s);
            let pg = q.page(m);
            assert forall|a: int, b: int| 0 <= a < b < pg.len() implies key_lt(pg[a], pg[b]) by {
                let from = if q.offset <= m.len() {
                    q.offset as int
                } else {
                    m.len() as int
                };
                assert(pg[a] == m[a + from] && pg[b] == m[b + from]);
            }
        }
        (found, page)
    }
}

} // verus!
