//! A keyed table: the storage maps of the network are held in these.
//! Entries keep their insertion order; keys are unique.

use vstd::prelude::*;

verus! {

/// A key with an executable equality test that agrees with spec equality.
pub trait TableKey: Copy {
    fn key_eq(&self, other: &Self) -> (b: bool)
        ensures
            b == (*self == *other),
    ;
}

impl TableKey for u32 {
    fn key_eq(&self, other: &Self) -> (b: bool) {
        *self == *other
    }
}

impl TableKey for u64 {
    fn key_eq(&self, other: &Self) -> (b: bool) {
        *self == *other
    }
}

impl TableKey for u128 {
    fn key_eq(&self, other: &Self) -> (b: bool) {
        *self == *other
    }
}

/// Key of a per-subnet, per-account entry.
#[derive(Clone, Copy, PartialEq, Eq, Debug)]
pub struct SubnetAccount {
    pub subnet_id: u32,
    pub account: u64,
}

/// Key of a per-account, per-subnet entry.
#[derive(Clone, Copy, PartialEq, Eq, Debug)]
pub struct AccountSubnet {
    pub account: u64,
    pub subnet_id: u32,
}

/// Key of a per-subnet, per-epoch entry.
#[derive(Clone, Copy, PartialEq, Eq, Debug)]
pub struct SubnetEpoch {
    pub subnet_id: u32,
    pub epoch: u32,
}

impl TableKey for SubnetAccount {
    fn key_eq(&self, other: &Self) -> (b: bool) {
        self.subnet_id == other.subnet_id && self.account == other.account
    }
}

impl TableKey for AccountSubnet {
    fn key_eq(&self, other: &Self) -> (b: bool) {
        self.account == other.account && self.subnet_id == other.subnet_id
    }
}

impl TableKey for SubnetEpoch {
    fn key_eq(&self, other: &Self) -> (b: bool) {
        self.subnet_id == other.subnet_id && self.epoch == other.epoch
    }
}

/// Key/value pairs with unique keys, viewed as a `Map`.
#[derive(Debug)]
pub struct Table<K, V> {
    entries: Vec<(K, V)>,
}

impl<K, V> Table<K, V> {
    /// The entries in their stored order.
    pub closed spec fn entries(&self) -> Seq<(K, V)> {
        self.entries@
    }

    /// No key occurs twice: every table keeps this.
    #[verifier::type_invariant]
    pub open spec fn wf(&self) -> bool {
        forall|i: int, j: int|
            0 <= i < j < self.entries().len() ==> #[trigger] self.entries()[i].0
                != #[trigger] self.entries()[j].0
    }
}

impl<K: TableKey, V> Table<K, V> {
    /// The keys in their stored order.
    pub open spec fn key_seq(&self) -> Seq<K> {
        self.entries().map_values(|e: (K, V)| e.0)
    }

    pub open spec fn has_key(&self, k: K) -> bool {
        exists|i: int| 0 <= i < self.entries().len() && #[trigger] self.entries()[i].0 == k
    }

    pub open spec fn index_of(&self, k: K) -> int {
        choose|i: int| 0 <= i < self.entries().len() && #[trigger] self.entries()[i].0 == k
    }

    /// The table as a map from key to value.
    pub open spec fn view(&self) -> Map<K, V> {
        Map::new(|k: K| self.has_key(k), |k: K| self.entries()[self.index_of(k)].1)
    }

    /// The entry at position `i` is the map's value for its key.
    pub proof fn lemma_index(&self, i: int)
        requires
            self.wf(),
            0 <= i < self.entries().len(),
        ensures
            self@.contains_key(self.entries()[i].0),
            self@[self.entries()[i].0] == self.entries()[i].1,
            self.index_of(self.entries()[i].0) == i,
    {
        let k = self.entries()[i].0;
        assert(self.has_key(k));
        let j = self.index_of(k);
        assert(self.entries()[j].0 == k);
        if j < i {
            assert(self.entries()[j].0 != self.entries()[i].0);
        } else if i < j {
            assert(self.entries()[i].0 != self.entries()[j].0);
        }
    }

    /// The keys of the table are its stored keys, each once.
    pub proof fn lemma_keys(&self)
        requires
            self.wf(),
        ensures
            self.key_seq().no_duplicates(),
            self.key_seq().len() == self.entries().len(),
            self@.dom() =~= self.key_seq().to_set(),
            self@.dom().finite(),
            self@.dom().len() == self.entries().len(),
            forall|i: int|
                0 <= i < self.entries().len() ==> #[trigger] self.key_seq()[i]
                    == self.entries()[i].0,
    {
        let ks = self.key_seq();
        assert forall|i: int, j: int| 0 <= i < ks.len() && 0 <= j < ks.len() && i != j implies ks[i]
            != ks[j] by {
            if i < j {
                assert(self.entries()[i].0 != self.entries()[j].0);
            } else {
                assert(self.entries()[j].0 != self.entries()[i].0);
            }
        }
        assert forall|k: K| self@.dom().contains(k) <==> ks.to_set().contains(k) by {
            if self@.dom().contains(k) {
                let i = self.index_of(k);
                assert(ks[i] == k);
            }
            if ks.to_set().contains(k) {
                let i = choose|i: int| 0 <= i < ks.len() && ks[i] == k;
                assert(self.entries()[i].0 == k);
            }
        }
        ks.unique_seq_to_set();
        assert(self@.dom() =~= ks.to_set());
        assert(ks.to_set().finite()) by {
            broadcast use vstd::seq_lib::seq_to_set_is_finite;
        }
    }

    pub fn new() -> (t: Self)
        ensures
            t.wf(),
            t@ == Map::<K, V>::empty(),
            t.entries().len() == 0,
    {
        let t = Table { entries: Vec::new() };
        assert(t@ =~= Map::<K, V>::empty());
        t
    }

    /// Number of keys.
    pub fn len(&self) -> (n: usize)
        requires
            self.wf(),
        ensures
            n == self@.dom().len(),
            n == self.entries().len(),
    {
        proof {
            self.lemma_keys();
        }
        self.entries.len()
    }

    /// The key stored at position `i`.
    pub fn key_at(&self, i: usize) -> (k: K)
        requires
            self.wf(),
            i < self.entries().len(),
        ensures
            k == self.entries()[i as int].0,
            self@.contains_key(k),
    {
        proof {
            self.lemma_index(i as int);
        }
        self.entries[i].0
    }

    /// The value stored at position `i`.
    pub fn value_at(&self, i: usize) -> (v: &V)
        requires
            self.wf(),
            i < self.entries().len(),
        ensures
            *v == self.entries()[i as int].1,
            *v == self@[self.entries()[i as int].0],
    {
        proof {
            self.lemma_index(i as int);
        }
        &self.entries[i].1
    }

    fn find(&self, k: &K) -> (r: Option<usize>)
        requires
            self.wf(),
        ensures
            match r {
                Some(i) => i < self.entries().len() && self.entries()[i as int].0 == *k
                    && self@.contains_key(*k),
                None => !self@.contains_key(*k),
            },
    {
        let mut i: usize = 0;
        while i < self.entries.len()
            invariant
                self.wf(),
                i <= self.entries().len(),
                forall|j: int| 0 <= j < i ==> self.entries()[j].0 != *k,
            decreases self.entries().len() - i,
        {
            if self.entries[i].0.key_eq(k) {
                proof {
                    self.lemma_index(i as int);
                }
                return Some(i);
            }
            i = i + 1;
        }
        None
    }

    pub fn contains_key(&self, k: &K) -> (b: bool)
        requires
            self.wf(),
        ensures
            b == self@.contains_key(*k),
    {
        self.find(k).is_some()
    }

    pub fn get(&self, k: &K) -> (r: Option<&V>)
        requires
            self.wf(),
        ensures
            r is Some <==> self@.contains_key(*k),
            r matches Some(v) ==> *v == self@[*k],
    {
        match self.find(k) {
            Some(i) => {
                proof {
                    self.lemma_index(i as int);
                }
                Some(&self.entries[i].1)
            },
            None => None,
        }
    }

    /// Sets the value of `k`, adding the key if it is absent.
    pub fn insert(&mut self, k: K, v: V)
        requires
            old(self).wf(),
        ensures
            final(self).wf(),
            final(self)@ == old(self)@.insert(k, v),
    {
        match self.find(&k) {
            Some(i) => {
                let mut es: Vec<(K, V)> = Vec::new();
                std::mem::swap(&mut es, &mut self.entries);
                es.set(i, (k, v));
                self.entries = es;
                proof {
                    let o = old(self);
                    assert forall|a: int, b: int|
                        0 <= a < b < self.entries().len() implies #[trigger] self.entries()[a].0
                        != #[trigger] self.entries()[b].0 by {
                        assert(o.entries()[a].0 != o.entries()[b].0);
                    }
                    assert forall|k2: K| self.has_key(k2) <==> o@.insert(k, v).contains_key(k2) by {
                        if self.has_key(k2) {
                            let j = self.index_of(k2);
                            if j != i {
                                assert(o.entries()[j].0 == k2);
                            }
                        }
                        if o.has_key(k2) {
                            let j = o.index_of(k2);
                            assert(self.entries()[j].0 == k2);
                        }
                        if k2 == k {
                            assert(self.entries()[i as int].0 == k2);
                        }
                    }
                    assert forall|k2: K| #[trigger] self@.contains_key(k2) implies self@[k2] == o@.insert(
                        k,
                        v,
                    )[k2] by {
                        let j = self.index_of(k2);
                        self.lemma_index(j);
                        if j != i {
                            o.lemma_index(j);
                        }
                    }
                    assert(self@ =~= o@.insert(k, v));
                }
            },
            None => {
                let mut es: Vec<(K, V)> = Vec::new();
                std::mem::swap(&mut es, &mut self.entries);
                es.push((k, v));
                self.entries = es;
                proof {
                    let o = old(self);
                    let n: int = o.entries().len() as int;
                    assert forall|a: int, b: int|
                        0 <= a < b < self.entries().len() implies #[trigger] self.entries()[a].0
                        != #[trigger] self.entries()[b].0 by {
                        if b == n {
                            if o.entries()[a].0 == k {
                                assert(o.has_key(k));
                            }
                        } else {
                            assert(o.entries()[a].0 != o.entries()[b].0);
                        }
                    }
                    assert forall|k2: K| self.has_key(k2) <==> o@.insert(k, v).contains_key(k2) by {
                        if self.has_key(k2) {
                            let j = self.index_of(k2);
                            if j != n {
                                assert(o.entries()[j].0 == k2);
                            }
                        }
                        if o.has_key(k2) {
                            let j = o.index_of(k2);
                            assert(self.entries()[j].0 == k2);
                        }
                        if k2 == k {
                            assert(self.entries()[n].0 == k2);
                        }
                    }
                    assert forall|k2: K| #[trigger] self@.contains_key(k2) implies self@[k2] == o@.insert(
                        k,
                        v,
                    )[k2] by {
                        let j = self.index_of(k2);
                        self.lemma_index(j);
                        if j != n {
                            o.lemma_index(j);
                        }
                    }
                    assert(self@ =~= o@.insert(k, v));
                }
            },
        }
    }

    /// Removes `k`, handing back its value if it was present.
    pub fn remove(&mut self, k: &K) -> (r: Option<V>)
        requires
            old(self).wf(),
        ensures
            final(self).wf(),
            final(self)@ == old(self)@.remove(*k),
            r is Some <==> old(self)@.contains_key(*k),
            r matches Some(v) ==> v == old(self)@[*k],
            r is None ==> *final(self) == *old(self),
            r is Some ==> 0 <= old(self).index_of(*k) < old(self).entries().len()
                && old(self).entries()[old(self).index_of(*k)].0 == *k
                && final(self).entries() == old(self).entries().remove(old(self).index_of(*k)),
    {
        match self.find(k) {
            Some(i) => {
                proof {
                    old(self).lemma_index(i as int);
                }
                let mut es: Vec<(K, V)> = Vec::new();
                std::mem::swap(&mut es, &mut self.entries);
                let (_, v) = es.remove(i);
                self.entries = es;
                proof {
                    let o = old(self);
                    let ghost shift = |j: int| if j < i { j } else { j + 1 };
                    assert forall|j: int| 0 <= j < self.entries().len() implies #[trigger] self.entries()[j]
                        == o.entries()[shift(j)] by {}
                    assert forall|a: int, b: int|
                        0 <= a < b < self.entries().len() implies #[trigger] self.entries()[a].0
                        != #[trigger] self.entries()[b].0 by {
                        assert(self.entries()[a] == o.entries()[shift(a)]);
                        assert(self.entries()[b] == o.entries()[shift(b)]);
                        assert(o.entries()[shift(a)].0 != o.entries()[shift(b)].0);
                    }
                    assert forall|k2: K| self.has_key(k2) <==> o@.remove(*k).contains_key(k2) by {
                        if self.has_key(k2) {
                            let j = self.index_of(k2);
                            assert(self.entries()[j] == o.entries()[shift(j)]);
                            assert(o.entries()[shift(j)].0 == k2);
                            if k2 == *k {
                                assert(o.entries()[i as int].0 != o.entries()[shift(j)].0);
                            }
                        }
                        if o.has_key(k2) && k2 != *k {
                            let j = o.index_of(k2);
                            if j < i {
                                assert(self.entries()[j] == o.entries()[j]);
                                assert(self.entries()[j].0 == k2);
                            } else {
                                assert(j != i);
                                assert(self.entries()[j - 1] == o.entries()[j]);
                                assert(self.entries()[j - 1].0 == k2);
                            }
                        }
                    }
                    assert forall|k2: K| #[trigger] self@.contains_key(k2) implies self@[k2] == o@.remove(
                        *k,
                    )[k2] by {
                        let j = self.index_of(k2);
                        self.lemma_index(j);
                        assert(self.entries()[j] == o.entries()[shift(j)]);
                        o.lemma_index(shift(j));
                    }
                    assert(self@ =~= o@.remove(*k));
                }
                Some(v)
            },
            None => {
                proof {
                    assert(self@ =~= old(self)@.remove(*k));
                }
                None
            },
        }
    }
}

impl<K: TableKey, V> Table<K, V> {
    /// The keys, in stored order.
    pub fn keys(&self) -> (r: Vec<K>)
        requires
            self.wf(),
        ensures
            r@ == self.key_seq(),
            r@.no_duplicates(),
    {
        let mut out: Vec<K> = Vec::new();
        let n = self.len();
        let mut i: usize = 0;
        while i < n
            invariant
                self.wf(),
                n == self.entries().len(),
                i <= n,
                out@ == self.key_seq().take(i as int),
            decreases n - i,
        {
            let k = self.key_at(i);
            out.push(k);
            proof {
                assert(self.key_seq().take(i + 1) =~= self.key_seq().take(i as int).push(k));
            }
            i = i + 1;
        }
        proof {
            assert(self.key_seq().take(n as int) =~= self.key_seq());
            self.lemma_keys();
        }
        out
    }
}

impl<K: TableKey, V: Copy> Table<K, V> {
    /// A copy of the table.
    pub fn copy(&self) -> (r: Self)
        requires
            self.wf(),
        ensures
            r.wf(),
            r@ == self@,
            r.entries() == self.entries(),
    {
        let mut entries: Vec<(K, V)> = Vec::new();
        let mut i: usize = 0;
        while i < self.entries.len()
            invariant
                self.wf(),
                i <= self.entries@.len(),
                entries@ == self.entries@.take(i as int),
            decreases self.entries@.len() - i,
        {
            let e = self.entries[i];
            entries.push(e);
            proof {
                assert(self.entries@.take(i + 1) =~= self.entries@.take(i as int).push(e));
            }
            i = i + 1;
        }
        proof {
            assert(self.entries@.take(i as int) =~= self.entries@);
            assert(entries@ == self.entries());
        }
        let r = Table { entries };
        assert(r.entries() == self.entries());
        r
    }
}

impl<V> Table<SubnetAccount, V> {
    /// The entries of `subnet_id`, in stored order.
    pub open spec fn subnet_entries(&self, subnet_id: u32) -> Seq<(SubnetAccount, V)> {
        self.entries().filter(|e: (SubnetAccount, V)| e.0.subnet_id == subnet_id)
    }

    /// Accounts of the entries of `subnet_id`, in stored order.
    pub open spec fn subnet_accounts(&self, subnet_id: u32) -> Seq<u64> {
        self.entries().filter(|e: (SubnetAccount, V)| e.0.subnet_id == subnet_id).map_values(
            |e: (SubnetAccount, V)| e.0.account,
        )
    }

    /// Accounts of the entries of `subnet_id`; each occurs once.
    pub fn accounts_of(&self, subnet_id: u32) -> (r: Vec<u64>)
        requires
            self.wf(),
        ensures
            r@ == self.subnet_accounts(subnet_id),
            r@.no_duplicates(),
    {
        let ghost pred = |e: (SubnetAccount, V)| e.0.subnet_id == subnet_id;
        let ghost f = |e: (SubnetAccount, V)| e.0.account;
        let ghost es = self.entries();
        let n = self.len();
        let mut out: Vec<u64> = Vec::new();
        let mut i: usize = 0;
        proof {
            assert(es.take(0) =~= Seq::<(SubnetAccount, V)>::empty());
            reveal(Seq::filter);
            assert(es.take(0).filter(pred) =~= Seq::<(SubnetAccount, V)>::empty());
            assert(es.take(0).filter(pred).map_values(f) =~= Seq::<u64>::empty());
        }
        while i < n
            invariant
                self.wf(),
                n == es.len(),
                es == self.entries(),
                i <= n,
                out@ == es.take(i as int).filter(pred).map_values(f),
                out@.no_duplicates(),
                forall|j: int| #![trigger out@[j]] 0 <= j < out@.len() ==> exists|m: int| #![trigger es[m]] 0 <= m < i
                    && es[m].0 == (SubnetAccount { subnet_id, account: out@[j] }),
                pred == (|e: (SubnetAccount, V)| e.0.subnet_id == subnet_id),
                f == (|e: (SubnetAccount, V)| e.0.account),
            decreases n - i,
        {
            let k = self.key_at(i);
            let ghost e = es[i as int];
            proof {
                assert(es.take(i + 1) =~= es.take(i as int).push(e));
                es.take(i as int).lemma_filter_push(e, pred);
            }
            let ghost prev = out@;
            if k.subnet_id == subnet_id {
                proof {
                    assert forall|j: int| 0 <= j < prev.len() implies prev[j] != k.account by {
                        let m = choose|m: int| #![trigger es[m]] 0 <= m < i && es[m].0 == (SubnetAccount { subnet_id, account: prev[j] });
                        if prev[j] == k.account {
                            assert(es[m].0 == es[i as int].0);
                        }
                    }
                }
                out.push(k.account);
                proof {
                    assert(pred(e));
                    assert(out@ =~= es.take(i + 1).filter(pred).map_values(f));
                    assert forall|j: int| #![trigger out@[j]] 0 <= j < out@.len() implies exists|m: int| #![trigger es[m]] 0 <= m < i + 1
                        && es[m].0 == (SubnetAccount { subnet_id, account: out@[j] }) by {
                        if j < prev.len() {
                            assert(out@[j] == prev[j]);
                        } else {
                            assert(es[i as int].0 == (SubnetAccount { subnet_id, account: out@[j] }));
                        }
                    }
                }
            } else {
                proof {
                    assert(!pred(e));
                    assert(out@ =~= es.take(i + 1).filter(pred).map_values(f));
                }
            }
            i = i + 1;
        }
        proof {
            assert(es.take(n as int) =~= es);
        }
        out
    }

    /// Drops every entry of `subnet_id`, keeping the others.
    pub fn remove_subnet(&mut self, subnet_id: u32)
        requires
            old(self).wf(),
        ensures
            final(self).wf(),
            final(self)@ == Map::new(
                |k: SubnetAccount| old(self)@.contains_key(k) && k.subnet_id != subnet_id,
                |k: SubnetAccount| old(self)@[k],
            ),
            forall|id: u32| id != subnet_id ==> #[trigger] final(self).subnet_entries(id) == old(self).subnet_entries(id),
    {
        let mut doomed: Vec<SubnetAccount> = Vec::new();
        let n = self.len();
        let mut i: usize = 0;
        proof {
            self.lemma_keys();
        }
        while i < n
            invariant
                self == old(self),
                self.wf(),
                n == self.entries().len(),
                i <= n,
                forall|x: SubnetAccount| #[trigger] doomed@.contains(x) <==> (x.subnet_id == subnet_id && self.key_seq().take(i as int).contains(x)),
            decreases n - i,
        {
            let k = self.key_at(i);
            proof {
                assert(self.key_seq()[i as int] == k);
                assert(self.key_seq().take(i + 1) =~= self.key_seq().take(i as int).push(k));
            }
            let ghost d0 = doomed@;
            if k.subnet_id == subnet_id {
                doomed.push(k);
            }
            proof {
                assert forall|x: SubnetAccount| #[trigger] d0.push(k).contains(x) <==> (d0.contains(x) || x == k) by {
                    if d0.push(k).contains(x) && x != k {
                        let jj = choose|jj: int| 0 <= jj < d0.push(k).len() && d0.push(k)[jj] == x;
                        assert(d0[jj] == x);
                    }
                    if d0.contains(x) {
                        let jj = choose|jj: int| 0 <= jj < d0.len() && d0[jj] == x;
                        assert(d0.push(k)[jj] == x);
                    }
                    if x == k {
                        assert(d0.push(k)[d0.len() as int] == x);
                    }
                }
                assert forall|x: SubnetAccount| #[trigger] doomed@.contains(x) <==> (x.subnet_id == subnet_id && self.key_seq().take(i + 1).contains(x)) by {
                    let t = self.key_seq().take(i as int);
                    if t.push(k).contains(x) && x != k {
                        let j = choose|j: int| 0 <= j < t.push(k).len() && t.push(k)[j] == x;
                        assert(t[j] == x);
                    }
                    if t.contains(x) {
                        let j = choose|j: int| 0 <= j < t.len() && t[j] == x;
                        assert(t.push(k)[j] == x);
                    }
                    if x == k {
                        assert(t.push(k)[i as int] == x);
                    }
                }
            }
            i = i + 1;
        }
        proof {
            assert(self.key_seq().take(n as int) =~= self.key_seq());
        }
        let ghost o = old(self)@;
        let m = doomed.len();
        let mut j: usize = 0;
        while j < m
            invariant
                self.wf(),
                m == doomed@.len(),
                j <= m,
                forall|x: SubnetAccount| #[trigger] doomed@.contains(x) <==> (x.subnet_id == subnet_id && o.contains_key(x)),
                self@ == Map::new(
                    |k: SubnetAccount| o.contains_key(k) && !doomed@.take(j as int).contains(k),
                    |k: SubnetAccount| o[k],
                ),
                forall|id: u32| id != subnet_id ==> #[trigger] self.subnet_entries(id) == old(self).subnet_entries(id),
            decreases m - j,
        {
            let k = doomed[j];
            let ghost before = *self;
            let r = self.remove(&k);
            proof {
                assert(doomed@.contains(k));
                assert forall|id: u32| id != subnet_id implies #[trigger] self.subnet_entries(id) == old(self).subnet_entries(id) by {
                    if r is Some {
                        let q = |e: (SubnetAccount, V)| e.0.subnet_id == id;
                        crate::filters::lemma_filter_remove(before.entries(), before.index_of(k), q);
                        assert(self.subnet_entries(id) == before.subnet_entries(id));
                    }
                    assert(before.subnet_entries(id) == old(self).subnet_entries(id));
                }
                assert(doomed@.take(j + 1) =~= doomed@.take(j as int).push(k));
                assert forall|x: SubnetAccount| #[trigger] doomed@.take(j + 1).contains(x) <==> (doomed@.take(j as int).contains(x) || x == k) by {
                    let t = doomed@.take(j as int);
                    if t.push(k).contains(x) && x != k {
                        let jj = choose|jj: int| 0 <= jj < t.push(k).len() && t.push(k)[jj] == x;
                        assert(t[jj] == x);
                    }
                    if t.contains(x) {
                        let jj = choose|jj: int| 0 <= jj < t.len() && t[jj] == x;
                        assert(t.push(k)[jj] == x);
                    }
                    if x == k {
                        assert(t.push(k)[j as int] == x);
                    }
                }
                assert(self@ =~= Map::new(
                    |k2: SubnetAccount| o.contains_key(k2) && !doomed@.take(j + 1).contains(k2),
                    |k2: SubnetAccount| o[k2],
                ));
            }
            j = j + 1;
        }
        proof {
            assert(doomed@.take(m as int) =~= doomed@);
            assert(self@ =~= Map::new(
                |k: SubnetAccount| o.contains_key(k) && k.subnet_id != subnet_id,
                |k: SubnetAccount| o[k],
            )) by {
                assert forall|k: SubnetAccount| o.contains_key(k) implies (doomed@.contains(k) <==> k.subnet_id == subnet_id) by {}
            }
        }
    }
}

} // verus!
