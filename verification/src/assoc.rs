//! Small keyed tables kept as vectors of entries in insertion order.
//!
//! The emulation keeps many lookup tables (addresses to services, link ids to
//! links, path ids to paths, names to replicas).  They are held here as
//! association lists whose keys never repeat, so that every table has both a
//! mathematical view (a `Map`) and a well defined walking order.
use vstd::prelude::*;

verus! {

/// Keys that can be compared and duplicated by executable code.
pub trait Key: Sized {
    type KV;

    spec fn kv(&self) -> Self::KV;

    fn same(&self, other: &Self) -> (b: bool)
        ensures
            b == (self.kv() == other.kv()),
    ;

    fn dup(&self) -> (r: Self)
        ensures
            r.kv() == self.kv(),
    ;
}

impl Key for u32 {
    type KV = u32;

    open spec fn kv(&self) -> u32 {
        *self
    }

    fn same(&self, other: &Self) -> (b: bool) {
        *self == *other
    }

    fn dup(&self) -> (r: Self) {
        *self
    }
}

impl Key for u16 {
    type KV = u16;

    open spec fn kv(&self) -> u16 {
        *self
    }

    fn same(&self, other: &Self) -> (b: bool) {
        *self == *other
    }

    fn dup(&self) -> (r: Self) {
        *self
    }
}

impl Key for String {
    type KV = Seq<char>;

    open spec fn kv(&self) -> Seq<char> {
        self@
    }

    fn same(&self, other: &Self) -> (b: bool) {
        *self == *other
    }

    fn dup(&self) -> (r: Self) {
        self.clone()
    }
}

/// A table from keys to values; no key occurs twice among the entries.
pub struct AssocMap<K, V> {
    pub entries: Vec<(K, V)>,
}

impl<K: Key, V> AssocMap<K, V> {
    /// The key views in walking order.
    pub open spec fn keys(&self) -> Seq<K::KV> {
        self.entries@.map_values(|e: (K, V)| e.0.kv())
    }

    /// Values in walking order.
    pub open spec fn values(&self) -> Seq<V> {
        self.entries@.map_values(|e: (K, V)| e.1)
    }

    /// No key occurs twice.
    pub open spec fn wf(&self) -> bool {
        forall|i: int, j: int|
            0 <= i < self.entries@.len() && 0 <= j < self.entries@.len() && i != j
                ==> #[trigger] self.entries@[i].0.kv() != #[trigger] self.entries@[j].0.kv()
    }

    pub open spec fn has(&self, k: K::KV) -> bool {
        exists|i: int| 0 <= i < self.entries@.len() && #[trigger] self.entries@[i].0.kv() == k
    }

    /// Position of a key that is present.
    pub open spec fn pos(&self, k: K::KV) -> int {
        choose|i: int| 0 <= i < self.entries@.len() && #[trigger] self.entries@[i].0.kv() == k
    }

    /// The value stored under a key that is present.
    pub open spec fn at(&self, k: K::KV) -> V {
        self.entries@[self.pos(k)].1
    }

    /// The table as a map from key views to values.
    pub closed spec fn view(&self) -> Map<K::KV, V> {
        Map::new(|k: K::KV| self.has(k), |k: K::KV| self.at(k))
    }

    /// A key is in the map exactly when some entry has it, with the value
    /// of that entry.
    pub proof fn lemma_view(&self)
        ensures
            forall|k: K::KV| #[trigger] self.view().dom().contains(k) <==> self.has(k),
            forall|k: K::KV| self.has(k) ==> #[trigger] self.view()[k] == self.at(k),
    {
    }

    pub proof fn lemma_pos(&self, i: int)
        requires
            self.wf(),
            0 <= i < self.entries@.len(),
        ensures
            self.has(self.entries@[i].0.kv()),
            self.pos(self.entries@[i].0.kv()) == i,
            self.at(self.entries@[i].0.kv()) == self.entries@[i].1,
            self.view().dom().contains(self.entries@[i].0.kv()),
            self.view()[self.entries@[i].0.kv()] == self.entries@[i].1,
    {
        let k = self.entries@[i].0.kv();
        assert(self.entries@[i].0.kv() == k);
        let p = self.pos(k);
        assert(0 <= p < self.entries@.len() && self.entries@[p].0.kv() == k);
    }

    pub fn new() -> (m: Self)
        ensures
            m.wf(),
            m.entries@.len() == 0,
            m.view() == Map::<K::KV, V>::empty(),
    {
        let m = AssocMap { entries: Vec::new() };
        assert(m.view() =~= Map::<K::KV, V>::empty());
        m
    }

    pub fn len(&self) -> (n: usize)
        ensures
            n == self.entries@.len(),
    {
        self.entries.len()
    }

    /// Position of `k` among the entries, if present.
    pub fn find(&self, k: &K) -> (r: Option<usize>)
        requires
            self.wf(),
        ensures
            r is None <==> !self.has(k.kv()),
            r is None <==> !self.view().dom().contains(k.kv()),
            r matches Some(i) ==> i < self.entries@.len() && self.entries@[i as int].0.kv() == k.kv()
                && self.pos(k.kv()) == i && self.view()[k.kv()] == self.entries@[i as int].1,
    {
        let mut i: usize = 0;
        while i < self.entries.len()
            invariant
                self.wf(),
                i <= self.entries@.len(),
                forall|j: int| 0 <= j < i ==> #[trigger] self.entries@[j].0.kv() != k.kv(),
            decreases self.entries@.len() - i,
        {
            if self.entries[i].0.same(k) {
                proof {
                    self.lemma_pos(i as int);
                }
                return Some(i);
            }
            i = i + 1;
        }
        None
    }

    pub fn contains_key(&self, k: &K) -> (b: bool)
        requires
            self.wf(),
        ensures
            b == self.has(k.kv()),
            b == self.view().dom().contains(k.kv()),
    {
        self.find(k).is_some()
    }

    pub fn get(&self, k: &K) -> (r: Option<&V>)
        requires
            self.wf(),
        ensures
            r is None <==> !self.view().dom().contains(k.kv()),
            r matches Some(v) ==> *v == self.view()[k.kv()],
    {
        match self.find(k) {
            Some(i) => Some(&self.entries[i].1),
            None => None,
        }
    }

    /// Replaces the value at position `i`, keeping the key and the order.
    pub fn set_value(&mut self, i: usize, v: V)
        requires
            old(self).wf(),
            i < old(self).entries@.len(),
        ensures
            final(self).wf(),
            final(self).keys() == old(self).keys(),
            final(self).entries@.len() == old(self).entries@.len(),
            final(self).entries@[i as int].1 == v,
            forall|j: int|
                0 <= j < old(self).entries@.len() && j != i ==> final(self).entries@[j]
                    == old(self).entries@[j],
            final(self).entries@[i as int].0.kv() == old(self).entries@[i as int].0.kv(),
            final(self).view() == old(self).view().insert(old(self).entries@[i as int].0.kv(), v),
    {
        let k = self.entries[i].0.dup();
        let ghost old_self = *self;
        self.entries.set(i, (k, v));
        proof {
            assert(self.keys() =~= old_self.keys());
            assert forall|a: int, b: int|
                0 <= a < self.entries@.len() && 0 <= b < self.entries@.len() && a != b
                    implies #[trigger] self.entries@[a].0.kv() != #[trigger] self.entries@[b].0.kv() by {
                assert(self.entries@[a].0.kv() == old_self.entries@[a].0.kv());
                assert(self.entries@[b].0.kv() == old_self.entries@[b].0.kv());
            }
            let kk = old_self.entries@[i as int].0.kv();
            assert forall|x: K::KV| #[trigger] self.view().dom().contains(x) == old_self.view().insert(
                kk,
                v,
            ).dom().contains(x) by {
                if self.has(x) {
                    let p = self.pos(x);
                    assert(old_self.entries@[p].0.kv() == x);
                }
                if old_self.has(x) {
                    let p = old_self.pos(x);
                    assert(self.entries@[p].0.kv() == x);
                }
            }
            assert forall|x: K::KV| #[trigger] self.view().dom().contains(x) implies self.view()[x]
                == old_self.view().insert(kk, v)[x] by {
                let p = self.pos(x);
                self.lemma_pos(p);
                if x == kk {
                    self.lemma_pos(i as int);
                } else {
                    assert(old_self.entries@[p].0.kv() == x);
                    old_self.lemma_pos(p);
                }
            }
            assert(self.view() =~= old_self.view().insert(kk, v));
        }
    }

    /// Inserts or overwrites; a new key goes to the end of the walking order.
    pub fn insert(&mut self, k: K, v: V)
        requires
            old(self).wf(),
        ensures
            final(self).wf(),
            final(self).view() == old(self).view().insert(k.kv(), v),
            old(self).has(k.kv()) ==> final(self).keys() == old(self).keys(),
            !old(self).has(k.kv()) ==> final(self).keys() == old(self).keys().push(k.kv()),
    {
        match self.find(&k) {
            Some(i) => {
                self.set_value(i, v);
            },
            None => {
                let ghost old_self = *self;
                let ghost kk = k.kv();
                self.entries.push((k, v));
                proof {
                    let n = old_self.entries@.len() as int;
                    assert(self.keys() =~= old_self.keys().push(kk));
                    assert forall|a: int, b: int|
                        0 <= a < self.entries@.len() && 0 <= b < self.entries@.len() && a != b
                            implies #[trigger] self.entries@[a].0.kv()
                            != #[trigger] self.entries@[b].0.kv() by {
                        if a < n && b < n {
                            assert(self.entries@[a] == old_self.entries@[a]);
                            assert(self.entries@[b] == old_self.entries@[b]);
                        } else if a < n {
                            assert(self.entries@[a] == old_self.entries@[a]);
                        } else {
                            assert(self.entries@[b] == old_self.entries@[b]);
                        }
                    }
                    assert forall|x: K::KV| #[trigger] self.view().dom().contains(x)
                        == old_self.view().insert(kk, v).dom().contains(x) by {
                        if self.has(x) {
                            let p = self.pos(x);
                            if p < n {
                                assert(old_self.entries@[p] == self.entries@[p]);
                            }
                        }
                        if old_self.has(x) {
                            let p = old_self.pos(x);
                            assert(self.entries@[p] == old_self.entries@[p]);
                        }
                        if x == kk {
                            assert(self.entries@[n].0.kv() == kk);
                        }
                    }
                    assert forall|x: K::KV| #[trigger] self.view().dom().contains(x)
                        implies self.view()[x] == old_self.view().insert(kk, v)[x] by {
                        let p = self.pos(x);
                        self.lemma_pos(p);
                        if x == kk {
                            self.lemma_pos(n);
                        } else {
                            assert(p < n);
                            assert(old_self.entries@[p] == self.entries@[p]);
                            old_self.lemma_pos(p);
                        }
                    }
                    assert(self.view() =~= old_self.view().insert(kk, v));
                }
            },
        }
    }

    /// Removes a key; later entries move up by one place.
    pub fn remove(&mut self, k: &K) -> (r: Option<V>)
        requires
            old(self).wf(),
        ensures
            final(self).wf(),
            final(self).view() == old(self).view().remove(k.kv()),
            r is None <==> !old(self).has(k.kv()),
            r is None <==> !old(self).view().dom().contains(k.kv()),
            r matches Some(v) ==> v == old(self).view()[k.kv()],
            !old(self).has(k.kv()) ==> final(self).entries@ == old(self).entries@,
            old(self).has(k.kv()) ==> final(self).entries@ == old(self).entries@.remove(
                old(self).pos(k.kv()),
            ),
    {
        match self.find(k) {
            None => None,
            Some(i) => {
                let ghost old_self = *self;
                let ghost kk = k.kv();
                let e = self.entries.remove(i);
                proof {
                    old_self.lemma_pos(i as int);
                    let n = old_self.entries@.len() as int;
                    assert forall|a: int| 0 <= a < self.entries@.len() implies #[trigger] self.entries@[a]
                        == old_self.entries@[if a < i {
                        a
                    } else {
                        a + 1
                    }] by {}
                    assert forall|a: int, b: int|
                        0 <= a < self.entries@.len() && 0 <= b < self.entries@.len() && a != b
                            implies #[trigger] self.entries@[a].0.kv()
                            != #[trigger] self.entries@[b].0.kv() by {
                        let a2 = if a < i {
                            a
                        } else {
                            a + 1
                        };
                        let b2 = if b < i {
                            b
                        } else {
                            b + 1
                        };
                        assert(self.entries@[a] == old_self.entries@[a2]);
                        assert(self.entries@[b] == old_self.entries@[b2]);
                    }
                    assert forall|x: K::KV| #[trigger] self.view().dom().contains(x)
                        == old_self.view().remove(kk).dom().contains(x) by {
                        if self.has(x) {
                            let p = self.pos(x);
                            let p2 = if p < i {
                                p
                            } else {
                                p + 1
                            };
                            assert(self.entries@[p] == old_self.entries@[p2]);
                            assert(old_self.entries@[p2].0.kv() == x);
                            assert(p2 != i);
                        }
                        if old_self.has(x) && x != kk {
                            let p = old_self.pos(x);
                            assert(p != i);
                            let p2 = if p < i {
                                p
                            } else {
                                p - 1
                            };
                            assert(self.entries@[p2] == old_self.entries@[p]);
                        }
                    }
                    assert forall|x: K::KV| #[trigger] self.view().dom().contains(x)
                        implies self.view()[x] == old_self.view().remove(kk)[x] by {
                        let p = self.pos(x);
                        self.lemma_pos(p);
                        let p2 = if p < i {
                            p
                        } else {
                            p + 1
                        };
                        assert(self.entries@[p] == old_self.entries@[p2]);
                        old_self.lemma_pos(p2);
                    }
                    assert(self.view() =~= old_self.view().remove(kk));
                }
                Some(e.1)
            },
        }
    }
}


impl<K: Key, V: Copy> AssocMap<K, V> {
    /// Inserts every entry of `other`, in its order.
    pub fn merge_from(&mut self, other: &Self)
        requires
            old(self).wf(),
            other.wf(),
        ensures
            final(self).wf(),
            final(self)@ == old(self)@.union_prefer_right(other@),
    {
        let mut i: usize = 0;
        while i < other.entries.len()
            invariant
                self.wf(),
                other.wf(),
                i <= other.entries@.len(),
                forall|k: K::KV| #[trigger] self@.dom().contains(k) <==> old(self)@.dom().contains(k) || exists|j: int| 0 <= j < i && #[trigger] other.entries@[j].0.kv() == k,
                forall|k: K::KV| #[trigger] self@.dom().contains(k) ==> self@[k] == (if exists|j: int| 0 <= j < i && #[trigger] other.entries@[j].0.kv() == k {
                    other@[k]
                } else {
                    old(self)@[k]
                }),
            decreases other.entries@.len() - i,
        {
            let k = other.entries[i].0.dup();
            let v = other.entries[i].1;
            let ghost before = self@;
            proof {
                other.lemma_pos(i as int);
            }
            self.insert(k, v);
            proof {
                let kk = other.entries@[i as int].0.kv();
                assert forall|x: K::KV| #[trigger] self@.dom().contains(x) <==> old(self)@.dom().contains(x) || exists|j: int| 0 <= j < i + 1 && #[trigger] other.entries@[j].0.kv() == x by {
                    if x == kk {
                        assert(other.entries@[i as int].0.kv() == x);
                    } else {
                        if exists|j: int| 0 <= j < i + 1 && #[trigger] other.entries@[j].0.kv() == x {
                            let j = choose|j: int| 0 <= j < i + 1 && #[trigger] other.entries@[j].0.kv() == x;
                            assert(j < i);
                        }
                    }
                }
                assert forall|x: K::KV| #[trigger] self@.dom().contains(x) implies self@[x] == (if exists|j: int| 0 <= j < i + 1 && #[trigger] other.entries@[j].0.kv() == x {
                    other@[x]
                } else {
                    old(self)@[x]
                }) by {
                    if x == kk {
                        assert(other.entries@[i as int].0.kv() == x);
                    } else {
                        if exists|j: int| 0 <= j < i + 1 && #[trigger] other.entries@[j].0.kv() == x {
                            let j = choose|j: int| 0 <= j < i + 1 && #[trigger] other.entries@[j].0.kv() == x;
                            assert(j < i);
                        }
                    }
                }
            }
            i = i + 1;
        }
        proof {
            assert forall|x: K::KV| #[trigger] self@.dom().contains(x) == old(self)@.union_prefer_right(other@).dom().contains(x) by {
                if exists|j: int| 0 <= j < i && #[trigger] other.entries@[j].0.kv() == x {
                    let j = choose|j: int| 0 <= j < i && #[trigger] other.entries@[j].0.kv() == x;
                    other.lemma_pos(j);
                }
                if other@.dom().contains(x) {
                    let p = other.pos(x);
                    assert(other.entries@[p].0.kv() == x);
                }
            }
            assert forall|x: K::KV| #[trigger] self@.dom().contains(x) implies self@[x] == old(self)@.union_prefer_right(other@)[x] by {
                if exists|j: int| 0 <= j < i && #[trigger] other.entries@[j].0.kv() == x {
                    let j = choose|j: int| 0 <= j < i && #[trigger] other.entries@[j].0.kv() == x;
                    other.lemma_pos(j);
                } else {
                    if other@.dom().contains(x) {
                        let p = other.pos(x);
                        assert(other.entries@[p].0.kv() == x);
                    }
                }
            }
            assert(self@ =~= old(self)@.union_prefer_right(other@));
        }
    }
}

} // verus!
