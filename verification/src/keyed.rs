//! Small collections whose elements are told apart by a mathematical model
//! rather than by a hash: a set and a map backed by vectors.

use std::sync::Arc;
use vstd::prelude::*;
use crate::text::share;

verus! {

/// A value that stands for a mathematical key: two values are the same key
/// exactly when their models are equal.
pub trait Keyed: Sized {
    type Model;

    spec fn model(&self) -> Self::Model;

    fn same(&self, other: &Self) -> (r: bool)
        ensures
            r == (self.model() == other.model()),
    ;

    fn dup(&self) -> (r: Self)
        ensures
            r.model() == self.model(),
    ;
}

impl Keyed for Arc<String> {
    type Model = Seq<char>;

    open spec fn model(&self) -> Seq<char> {
        self@
    }

    fn same(&self, other: &Self) -> (r: bool) {
        **self == **other
    }

    fn dup(&self) -> (r: Self) {
        share(self)
    }
}

/// The models of a sequence of keys, in order.
pub open spec fn models_of<T: Keyed>(items: Seq<T>) -> Seq<T::Model> {
    Seq::new(items.len(), |i: int| items[i].model())
}

/// `s` without its element `m`, where `m` occurs at most once.
pub open spec fn seq_without<M>(s: Seq<M>, m: M) -> Seq<M> {
    if s.contains(m) {
        s.remove(s.index_of(m))
    } else {
        s
    }
}

/// `s` with the element `m` at its end, unless `s` holds it.
pub open spec fn seq_with<M>(s: Seq<M>, m: M) -> Seq<M> {
    if s.contains(m) {
        s
    } else {
        s.push(m)
    }
}

/// `seq_with` adds the element and nothing else, and adds no duplicate.
pub proof fn lemma_seq_with<M>(s: Seq<M>, m: M)
    requires
        s.no_duplicates(),
    ensures
        seq_with(s, m).no_duplicates(),
        seq_with(s, m).len() > 0,
        forall|x: M| seq_with(s, m).contains(x) <==> (s.contains(x) || x == m),
{
    let r = seq_with(s, m);
    if s.contains(m) {
        let i = choose|i: int| 0 <= i < s.len() && s[i] == m;
    } else {
        assert(r[s.len() as int] == m);
        assert forall|x: M| r.contains(x) <==> (s.contains(x) || x == m) by {
            if s.contains(x) {
                let i = choose|i: int| 0 <= i < s.len() && s[i] == x;
                assert(r[i] == x);
            }
            if r.contains(x) {
                let i = choose|i: int| 0 <= i < r.len() && r[i] == x;
                if i < s.len() {
                    assert(s[i] == x);
                }
            }
        }
    }
}

/// `seq_without` takes the element out and nothing else.
pub proof fn lemma_seq_without<M>(s: Seq<M>, m: M)
    requires
        s.no_duplicates(),
    ensures
        seq_without(s, m).no_duplicates(),
        forall|x: M| seq_without(s, m).contains(x) <==> (s.contains(x) && x != m),
{
    if s.contains(m) {
        let i = s.index_of(m);
        lemma_remove_unique(s, i);
    }
}

/// In a sequence without duplicates an element sits at `index_of` of itself.
pub proof fn lemma_index_of_unique<M>(s: Seq<M>, i: int)
    requires
        s.no_duplicates(),
        0 <= i < s.len(),
    ensures
        s.index_of(s[i]) == i,
        s.contains(s[i]),
{
    let j = s.index_of(s[i]);
    assert(0 <= j < s.len() && s[j] == s[i]);
}

/// Removing the element at `i` from a sequence without duplicates removes
/// that value from the sequence and keeps all the others.
pub proof fn lemma_remove_unique<M>(s: Seq<M>, i: int)
    requires
        s.no_duplicates(),
        0 <= i < s.len(),
    ensures
        s.remove(i).no_duplicates(),
        !s.remove(i).contains(s[i]),
        forall|m: M| m != s[i] ==> s.remove(i).contains(m) == s.contains(m),
        seq_without(s, s[i]) == s.remove(i),
{
    let r = s.remove(i);
    lemma_index_of_unique(s, i);
    assert forall|a: int, b: int| 0 <= a < r.len() && 0 <= b < r.len() && a != b implies r[a]
        != r[b] by {
        let at_a = if a < i { a } else { a + 1 };
        let at_b = if b < i { b } else { b + 1 };
        assert(r[a] == s[at_a] && r[b] == s[at_b]);
    }
    if r.contains(s[i]) {
        let a = choose|a: int| 0 <= a < r.len() && r[a] == s[i];
        let at_a = if a < i { a } else { a + 1 };
        assert(r[a] == s[at_a]);
    }
    assert forall|m: M| m != s[i] implies r.contains(m) == s.contains(m) by {
        if s.contains(m) {
            let a = choose|a: int| 0 <= a < s.len() && s[a] == m;
            let at_a = if a < i { a } else { a - 1 };
            assert(r[at_a] == m);
        }
        if r.contains(m) {
            let a = choose|a: int| 0 <= a < r.len() && r[a] == m;
            let at_a = if a < i { a } else { a + 1 };
            assert(s[at_a] == m);
        }
    }
}

/// A set of keys, kept in the order in which they were inserted.
pub struct KeySet<T: Keyed> {
    items: Vec<T>,
}

impl<T: Keyed> View for KeySet<T> {
    type V = Seq<T::Model>;

    closed spec fn view(&self) -> Seq<T::Model> {
        models_of(self.items@)
    }
}

impl<T: Keyed> KeySet<T> {
    /// No key is held twice.
    pub open spec fn wf(&self) -> bool {
        self@.no_duplicates()
    }

    /// The set without keys.
    pub fn new() -> (r: Self)
        ensures
            r.wf(),
            r@ == Seq::<T::Model>::empty(),
    {
        let r = KeySet { items: Vec::new() };
        assert(r@ =~= Seq::<T::Model>::empty());
        r
    }

    /// The number of keys held.
    pub fn len(&self) -> (n: usize)
        ensures
            n == self@.len(),
    {
        self.items.len()
    }

    /// The key at position `i` of the insertion order.
    pub fn get(&self, i: usize) -> (r: &T)
        requires
            i < self@.len(),
        ensures
            r.model() == self@[i as int],
    {
        &self.items[i]
    }

    /// The position of `k`, if it is held.
    fn position(&self, k: &T) -> (r: Option<usize>)
        ensures
            match r {
                Some(i) => i < self@.len() && self@[i as int] == k.model(),
                None => !self@.contains(k.model()),
            },
    {
        let mut i: usize = 0;
        while i < self.items.len()
            invariant
                i <= self.items.len(),
                forall|j: int| 0 <= j < i ==> self@[j] != k.model(),
            decreases self.items.len() - i,
        {
            if self.items[i].same(k) {
                return Some(i);
            }
            i += 1;
        }
        None
    }

    /// Whether the key is held.
    pub fn contains(&self, k: &T) -> (r: bool)
        ensures
            r == self@.contains(k.model()),
    {
        self.position(k).is_some()
    }

    /// Adds `k` unless it is already held; says whether it was added.
    pub fn insert(&mut self, k: T) -> (added: bool)
        requires
            old(self).wf(),
        ensures
            final(self).wf(),
            added == !old(self)@.contains(k.model()),
            final(self)@ == seq_with(old(self)@, k.model()),
    {
        if self.contains(&k) {
            false
        } else {
            self.items.push(k);
            assert(self@ =~= old(self)@.push(k.model()));
            true
        }
    }

    /// Takes `k` out; says whether it was held.
    pub fn remove(&mut self, k: &T) -> (removed: bool)
        requires
            old(self).wf(),
        ensures
            final(self).wf(),
            removed == old(self)@.contains(k.model()),
            final(self)@ == seq_without(old(self)@, k.model()),
            !final(self)@.contains(k.model()),
            forall|m: T::Model|
                m != k.model() ==> final(self)@.contains(m) == old(self)@.contains(m),
    {
        match self.position(k) {
            Some(i) => {
                self.items.remove(i);
                proof {
                    lemma_remove_unique(old(self)@, i as int);
                    assert(self@ =~= old(self)@.remove(i as int));
                }
                true
            },
            None => false,
        }
    }

    /// The keys held, in insertion order.
    pub fn to_vec(&self) -> (out: Vec<T>)
        ensures
            models_of(out@) == self@,
    {
        let mut out: Vec<T> = Vec::new();
        let mut i: usize = 0;
        while i < self.items.len()
            invariant
                i <= self.items.len(),
                out@.len() == i,
                forall|j: int| 0 <= j < i ==> (#[trigger] out@[j]).model() == self.items@[j].model(),
            decreases self.items.len() - i,
        {
            out.push(self.items[i].dup());
            i += 1;
        }
        assert(models_of(out@) =~= self@);
        out
    }

    /// Empties the set and hands out what it held, in insertion order.
    pub fn take_all(&mut self) -> (out: Vec<T>)
        ensures
            final(self).wf(),
            final(self)@ == Seq::<T::Model>::empty(),
            models_of(out@) == old(self)@,
    {
        let mut out: Vec<T> = Vec::new();
        std::mem::swap(&mut out, &mut self.items);
        assert(self@ =~= Seq::<T::Model>::empty());
        out
    }
}

impl<T: Keyed> Clone for KeySet<T> {
    fn clone(&self) -> (r: Self)
        ensures
            r@ == self@,
    {
        let mut items: Vec<T> = Vec::new();
        let mut i: usize = 0;
        while i < self.items.len()
            invariant
                i <= self.items.len(),
                items@.len() == i,
                forall|j: int| 0 <= j < i ==> (#[trigger] items@[j]).model() == self.items@[j].model(),
            decreases self.items.len() - i,
        {
            items.push(self.items[i].dup());
            i += 1;
        }
        assert(models_of(items@) =~= models_of(self.items@));
        KeySet { items }
    }
}

/// A map from keys to values.
pub struct KeyMap<K: Keyed, V> {
    keys: Vec<K>,
    vals: Vec<V>,
}

impl<K: Keyed, V> View for KeyMap<K, V> {
    type V = Map<K::Model, V>;

    closed spec fn view(&self) -> Map<K::Model, V> {
        Map::new(
            |m: K::Model| models_of(self.keys@).contains(m),
            |m: K::Model| self.vals@[models_of(self.keys@).index_of(m)],
        )
    }
}

impl<K: Keyed, V> KeyMap<K, V> {
    /// Every key has its value, and no key is held twice.
    pub closed spec fn wf(&self) -> bool {
        &&& self.keys@.len() == self.vals@.len()
        &&& models_of(self.keys@).no_duplicates()
    }

    proof fn lemma_entry(&self, i: int)
        requires
            self.wf(),
            0 <= i < self.keys@.len(),
        ensures
            self@.contains_key(self.keys@[i].model()),
            self@[self.keys@[i].model()] == self.vals@[i],
    {
        lemma_index_of_unique(models_of(self.keys@), i);
    }

    /// The map without entries.
    pub fn new() -> (r: Self)
        ensures
            r.wf(),
            r@ == Map::<K::Model, V>::empty(),
    {
        let r = KeyMap { keys: Vec::new(), vals: Vec::new() };
        assert(r@ =~= Map::<K::Model, V>::empty());
        r
    }

    /// The number of entries.
    pub fn len(&self) -> (n: usize)
        requires
            self.wf(),
        ensures
            n == self@.dom().len(),
            self@.dom().finite(),
    {
        proof {
            let ms = models_of(self.keys@);
            ms.unique_seq_to_set();
            assert(self@.dom() =~= ms.to_set());
        }
        self.keys.len()
    }

    fn position(&self, k: &K) -> (r: Option<usize>)
        requires
            self.wf(),
        ensures
            match r {
                Some(i) => i < self.keys@.len() && self.keys@[i as int].model() == k.model()
                    && self@.contains_key(k.model()) && self@[k.model()] == self.vals@[i as int],
                None => !self@.contains_key(k.model()),
            },
    {
        let mut i: usize = 0;
        while i < self.keys.len()
            invariant
                self.wf(),
                i <= self.keys.len(),
                forall|j: int| 0 <= j < i ==> models_of(self.keys@)[j] != k.model(),
            decreases self.keys.len() - i,
        {
            if self.keys[i].same(k) {
                proof {
                    self.lemma_entry(i as int);
                }
                return Some(i);
            }
            i += 1;
        }
        None
    }

    /// Whether the key is bound.
    pub fn contains_key(&self, k: &K) -> (r: bool)
        requires
            self.wf(),
        ensures
            r == self@.contains_key(k.model()),
    {
        self.position(k).is_some()
    }

    /// The value that the key is bound to.
    pub fn get(&self, k: &K) -> (r: Option<&V>)
        requires
            self.wf(),
        ensures
            match r {
                Some(v) => self@.contains_key(k.model()) && *v == self@[k.model()],
                None => !self@.contains_key(k.model()),
            },
    {
        match self.position(k) {
            Some(i) => Some(&self.vals[i]),
            None => None,
        }
    }

    /// Takes the entry of `k` out and hands its value back.
    pub fn remove(&mut self, k: &K) -> (r: Option<V>)
        requires
            old(self).wf(),
        ensures
            final(self).wf(),
            final(self)@ == old(self)@.remove(k.model()),
            match r {
                Some(v) => old(self)@.contains_key(k.model()) && v == old(self)@[k.model()],
                None => !old(self)@.contains_key(k.model()),
            },
    {
        match self.position(k) {
            Some(i) => {
                self.keys.remove(i);
                let v = self.vals.remove(i);
                proof {
                    let ms0 = models_of(old(self).keys@);
                    let ms1 = models_of(self.keys@);
                    lemma_remove_unique(ms0, i as int);
                    assert(ms1 =~= ms0.remove(i as int));
                    assert forall|m: K::Model| #[trigger]
                        self@.contains_key(m) implies self@[m] == old(self)@[m] by {
                        let j = ms1.index_of(m);
                        let j0 = if j < i { j } else { j + 1 };
                        assert(ms0[j0] == m);
                        lemma_index_of_unique(ms0, j0);
                    }
                    assert(self@ =~= old(self)@.remove(k.model()));
                }
                Some(v)
            },
            None => {
                assert(self@ =~= old(self)@.remove(k.model()));
                None
            },
        }
    }

    /// Binds `k` to `v` and hands back the value it replaces, if any.
    pub fn insert(&mut self, k: K, v: V) -> (r: Option<V>)
        requires
            old(self).wf(),
        ensures
            final(self).wf(),
            final(self)@ == old(self)@.insert(k.model(), v),
            match r {
                Some(w) => old(self)@.contains_key(k.model()) && w == old(self)@[k.model()],
                None => !old(self)@.contains_key(k.model()),
            },
    {
        let r = self.remove(&k);
        let ghost mid = *self;
        self.keys.push(k);
        self.vals.push(v);
        proof {
            let ms0 = models_of(mid.keys@);
            let ms1 = models_of(self.keys@);
            assert(ms1 =~= ms0.push(k.model()));
            assert(!mid@.contains_key(k.model()));
            assert(!ms0.contains(k.model()));
            assert(ms1.no_duplicates());
            assert forall|m: K::Model| ms1.contains(m) <==> (ms0.contains(m) || m == k.model()) by {
                if ms0.contains(m) {
                    let j = choose|j: int| 0 <= j < ms0.len() && ms0[j] == m;
                    assert(ms1[j] == m);
                }
                if m == k.model() {
                    assert(ms1[ms0.len() as int] == m);
                }
            }
            assert forall|m: K::Model| #[trigger] self@.contains_key(m) implies self@[m] == mid@.insert(
                k.model(),
                v,
            )[m] by {
                let j = ms1.index_of(m);
                lemma_index_of_unique(ms1, j);
                if j < ms0.len() {
                    assert(ms0[j] == m);
                    lemma_index_of_unique(ms0, j);
                }
            }
            assert(self@ =~= mid@.insert(k.model(), v));
            assert(mid@.insert(k.model(), v) =~= old(self)@.insert(k.model(), v));
        }
        r
    }

    /// Drops every entry.
    pub fn clear(&mut self)
        ensures
            final(self).wf(),
            final(self)@ == Map::<K::Model, V>::empty(),
    {
        self.keys = Vec::new();
        self.vals = Vec::new();
        assert(self@ =~= Map::<K::Model, V>::empty());
    }
}

} // verus!
