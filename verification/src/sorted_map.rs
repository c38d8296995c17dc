//! A finite map kept as a vector of entries sorted by key.
//!
//! Iteration visits keys in increasing order, so everything built from a
//! `SortedMap` (read/write sets, state snapshots) is deterministic.

use vstd::prelude::*;

use crate::primitives::{KeyOrder, OrderedKey};

verus! {

pub struct SortedMap<K, V> {
    entries: Vec<(K, V)>,
}

/// The keys of a sequence of entries.
pub open spec fn keys_of<K, V>(s: Seq<(K, V)>) -> Seq<K> {
    s.map_values(|e: (K, V)| e.0)
}

/// Keys strictly increase along the sequence.
pub open spec fn strictly_sorted<K: OrderedKey, V>(s: Seq<(K, V)>) -> bool {
    forall|i: int, j: int| 0 <= i < j < s.len() ==> (#[trigger] s[i]).0.key_lt((#[trigger] s[j]).0)
}

/// The map that a sorted sequence of entries stands for.
pub open spec fn entries_map<K, V>(s: Seq<(K, V)>) -> Map<K, V> {
    Map::new(
        |k: K| keys_of(s).contains(k),
        |k: K| s[choose|i: int| 0 <= i < s.len() && s[i].0 == k].1,
    )
}

proof fn lemma_sorted_keys_distinct<K: OrderedKey, V>(s: Seq<(K, V)>, i: int, j: int)
    requires
        strictly_sorted(s),
        0 <= i < s.len(),
        0 <= j < s.len(),
        s[i].0 == s[j].0,
    ensures
        i == j,
{
    if i < j {
        K::lemma_key_lt_irreflexive(s[i].0);
        assert(s[i].0.key_lt(s[j].0));
    } else if j < i {
        K::lemma_key_lt_irreflexive(s[i].0);
        assert(s[j].0.key_lt(s[i].0));
    }
}

/// What a sorted sequence of entries says about its map.
pub proof fn lemma_entries_map<K: OrderedKey, V>(s: Seq<(K, V)>)
    requires
        strictly_sorted(s),
    ensures
        entries_map(s).dom().finite(),
        entries_map(s).dom().len() == s.len(),
        forall|i: int|
            0 <= i < s.len() ==> #[trigger] entries_map(s).contains_key(s[i].0) && entries_map(
                s,
            )[s[i].0] == s[i].1,
        forall|k: K|
            #[trigger] entries_map(s).contains_key(k) ==> exists|i: int|
                0 <= i < s.len() && s[i].0 == k,
{
    let m = entries_map(s);
    let ks = keys_of(s);
    assert(m.dom() =~= ks.to_set());
    assert(ks.no_duplicates()) by {
        assert forall|i: int, j: int| 0 <= i < ks.len() && 0 <= j < ks.len() && i != j implies ks[i]
            != ks[j] by {
            if ks[i] == ks[j] {
                lemma_sorted_keys_distinct(s, i, j);
            }
        }
    }
    ks.unique_seq_to_set();
    assert forall|i: int| 0 <= i < s.len() implies #[trigger] m.contains_key(s[i].0) && m[s[i].0]
        == s[i].1 by {
        assert(ks[i] == s[i].0);
        assert(ks.contains(s[i].0));
        let c = choose|c: int| 0 <= c < s.len() && s[c].0 == s[i].0;
        lemma_sorted_keys_distinct(s, c, i);
    }
    assert forall|k: K| #[trigger] m.contains_key(k) implies exists|i: int|
        0 <= i < s.len() && s[i].0 == k by {
        let i = choose|i: int| 0 <= i < ks.len() && ks[i] == k;
        assert(s[i].0 == k);
    }
}

/// Dropping the first entry of a sorted sequence removes its key from the map.
proof fn lemma_drop_first_map<K: OrderedKey, V>(s: Seq<(K, V)>)
    requires
        strictly_sorted(s),
        s.len() > 0,
    ensures
        strictly_sorted(s.drop_first()),
        entries_map(s.drop_first()) == entries_map(s).remove(s[0].0),
{
    let t = s.drop_first();
    assert(strictly_sorted(t)) by {
        assert forall|i: int, j: int| 0 <= i < j < t.len() implies (#[trigger] t[i]).0.key_lt(
            (#[trigger] t[j]).0,
        ) by {
            assert(t[i] == s[i + 1]);
            assert(t[j] == s[j + 1]);
        }
    }
    lemma_entries_map(s);
    lemma_entries_map(t);
    let m = entries_map(s).remove(s[0].0);
    assert forall|k: K| #[trigger] entries_map(t).contains_key(k) <==> m.contains_key(k) by {
        if entries_map(t).contains_key(k) {
            let i = choose|i: int| 0 <= i < t.len() && t[i].0 == k;
            assert(s[i + 1].0 == k);
            assert(entries_map(s).contains_key(s[i + 1].0));
            if k == s[0].0 {
                lemma_sorted_keys_distinct(s, 0, i + 1);
            }
        }
        if m.contains_key(k) {
            let i = choose|i: int| 0 <= i < s.len() && s[i].0 == k;
            assert(i != 0);
            assert(t[i - 1].0 == k);
            assert(entries_map(t).contains_key(t[i - 1].0));
        }
    }
    assert forall|k: K| #[trigger] entries_map(t).contains_key(k) implies entries_map(t)[k]
        == m[k] by {
        let i = choose|i: int| 0 <= i < t.len() && t[i].0 == k;
        assert(t[i] == s[i + 1]);
        assert(entries_map(t).contains_key(t[i].0));
        assert(entries_map(s).contains_key(s[i + 1].0));
    }
    assert(entries_map(t) =~= m);
}

/// Two strictly sorted entry sequences that stand for the same map are equal.
pub proof fn lemma_sorted_unique<K: OrderedKey, V>(s1: Seq<(K, V)>, s2: Seq<(K, V)>)
    requires
        strictly_sorted(s1),
        strictly_sorted(s2),
        entries_map(s1) == entries_map(s2),
    ensures
        s1 == s2,
    decreases s1.len(),
{
    lemma_entries_map(s1);
    lemma_entries_map(s2);
    if s1.len() == 0 {
        assert(s2.len() == 0);
        assert(s1 =~= s2);
    } else {
        let m = entries_map(s1);
        let k1 = s1[0].0;
        let k2 = s2[0].0;
        assert(m.contains_key(s1[0].0));
        assert(entries_map(s2).contains_key(s2[0].0));
        let j = choose|j: int| 0 <= j < s2.len() && s2[j].0 == k1;
        let i = choose|i: int| 0 <= i < s1.len() && s1[i].0 == k2;
        if k1 != k2 {
            assert(j != 0);
            assert(s2[0].0.key_lt(s2[j].0));
            assert(i != 0);
            assert(s1[0].0.key_lt(s1[i].0));
            K::lemma_key_lt_transitive(k1, k2, k1);
            K::lemma_key_lt_irreflexive(k1);
        }
        assert(s1[0].1 == m[k1]);
        assert(s2[0].1 == entries_map(s2)[k2]);
        lemma_drop_first_map(s1);
        lemma_drop_first_map(s2);
        lemma_sorted_unique(s1.drop_first(), s2.drop_first());
        assert forall|x: int| 0 <= x < s1.len() implies s1[x] == s2[x] by {
            if x > 0 {
                assert(s1[x] == s1.drop_first()[x - 1]);
                assert(s2[x] == s2.drop_first()[x - 1]);
            }
        }
        assert(s1 =~= s2);
    }
}

/// The strictly sorted entries of a finite map.
pub open spec fn sorted_entries<K: OrderedKey, V>(m: Map<K, V>) -> Seq<(K, V)> {
    choose|s: Seq<(K, V)>| strictly_sorted(s) && entries_map(s) == m
}

/// A strictly sorted sequence is the sorted entries of its own map.
pub proof fn lemma_sorted_entries<K: OrderedKey, V>(s: Seq<(K, V)>)
    requires
        strictly_sorted(s),
    ensures
        sorted_entries(entries_map(s)) == s,
{
    let m = entries_map(s);
    assert(strictly_sorted(s) && entries_map(s) == m);
    let c = sorted_entries(m);
    lemma_sorted_unique(c, s);
}

/// A finite nonempty set of keys has a largest key.
proof fn lemma_max_key<K: OrderedKey>(s: Set<K>) -> (m: K)
    requires
        s.finite(),
        s.len() > 0,
    ensures
        s.contains(m),
        forall|k: K| #[trigger] s.contains(k) ==> k == m || k.key_lt(m),
    decreases s.len(),
{
    let x = s.choose();
    let r = s.remove(x);
    if r.len() == 0 {
        assert forall|k: K| #[trigger] s.contains(k) implies k == x || k.key_lt(x) by {
            if k != x {
                assert(r.contains(k));
            }
        }
        x
    } else {
        let m1 = lemma_max_key(r);
        K::lemma_key_lt_total(x, m1);
        if x.key_lt(m1) {
            assert forall|k: K| #[trigger] s.contains(k) implies k == m1 || k.key_lt(m1) by {
                if k != x {
                    assert(r.contains(k));
                }
            }
            m1
        } else {
            assert forall|k: K| #[trigger] s.contains(k) implies k == x || k.key_lt(x) by {
                if k != x {
                    assert(r.contains(k));
                    if k != m1 {
                        K::lemma_key_lt_transitive(k, m1, x);
                    }
                }
            }
            x
        }
    }
}

/// Appending an entry whose key exceeds all others adds it to the map.
proof fn lemma_entries_map_push<K: OrderedKey, V>(s: Seq<(K, V)>, e: (K, V))
    requires
        strictly_sorted(s.push(e)),
    ensures
        strictly_sorted(s),
        entries_map(s.push(e)) == entries_map(s).insert(e.0, e.1),
{
    let t = s.push(e);
    assert(strictly_sorted(s)) by {
        assert forall|i: int, j: int| 0 <= i < j < s.len() implies (#[trigger] s[i]).0.key_lt(
            (#[trigger] s[j]).0,
        ) by {
            assert(t[i] == s[i] && t[j] == s[j]);
        }
    }
    lemma_entries_map(s);
    lemma_entries_map(t);
    let target = entries_map(s).insert(e.0, e.1);
    assert forall|k: K| #[trigger] entries_map(t).contains_key(k) <==> target.contains_key(k) by {
        if entries_map(t).contains_key(k) {
            let i = choose|i: int| 0 <= i < t.len() && t[i].0 == k;
            if i < s.len() {
                assert(s[i].0 == k);
                assert(entries_map(s).contains_key(s[i].0));
            }
        }
        if entries_map(s).contains_key(k) {
            let i = choose|i: int| 0 <= i < s.len() && s[i].0 == k;
            assert(t[i].0 == k);
            assert(entries_map(t).contains_key(t[i].0));
        }
        if k == e.0 {
            assert(t[s.len() as int].0 == k);
            assert(entries_map(t).contains_key(t[s.len() as int].0));
        }
    }
    assert forall|k: K| #[trigger] entries_map(t).contains_key(k) implies entries_map(t)[k] == target[k] by {
        let i = choose|i: int| 0 <= i < t.len() && t[i].0 == k;
        assert(entries_map(t).contains_key(t[i].0) && entries_map(t)[t[i].0] == t[i].1);
        if i < s.len() {
            assert(t[i] == s[i]);
            assert(entries_map(s).contains_key(s[i].0) && entries_map(s)[s[i].0] == s[i].1);
            assert(t[i].0.key_lt(t[s.len() as int].0));
            if k == e.0 {
                K::lemma_key_lt_irreflexive(k);
            }
        }
    }
    assert(entries_map(t) =~= target);
}

proof fn lemma_sorted_seq_of<K: OrderedKey, V>(m: Map<K, V>) -> (s: Seq<(K, V)>)
    requires
        m.dom().finite(),
    ensures
        strictly_sorted(s),
        entries_map(s) == m,
    decreases m.dom().len(),
{
    if m.dom().len() == 0 {
        let s = Seq::<(K, V)>::empty();
        lemma_entries_map(s);
        assert(m.dom() =~= Set::<K>::empty()) by {
            if exists|k: K| m.dom().contains(k) {
                let k = choose|k: K| m.dom().contains(k);
                assert(m.dom().remove(k).len() < m.dom().len());
            }
        }
        assert(entries_map(s) =~= m);
        s
    } else {
        let k = lemma_max_key(m.dom());
        let m2 = m.remove(k);
        assert(m2.dom() =~= m.dom().remove(k));
        let s2 = lemma_sorted_seq_of(m2);
        let s = s2.push((k, m[k]));
        lemma_entries_map(s2);
        assert(strictly_sorted(s)) by {
            assert forall|i: int, j: int| 0 <= i < j < s.len() implies (#[trigger] s[i]).0.key_lt(
                (#[trigger] s[j]).0,
            ) by {
                if j == s2.len() {
                    assert(s[i] == s2[i]);
                    assert(m2.contains_key(s2[i].0));
                    assert(m.dom().contains(s2[i].0) && s2[i].0 != k);
                } else {
                    assert(s[i] == s2[i] && s[j] == s2[j]);
                }
            }
        }
        lemma_entries_map_push(s2, (k, m[k]));
        assert(entries_map(s) =~= m);
        s
    }
}

/// Every finite map has strictly sorted entries that list it exactly.
pub proof fn lemma_sorted_entries_exist<K: OrderedKey, V>(m: Map<K, V>)
    requires
        m.dom().finite(),
    ensures
        strictly_sorted(sorted_entries(m)),
        entries_map(sorted_entries(m)) == m,
{
    let s = lemma_sorted_seq_of(m);
    assert(strictly_sorted(s) && entries_map(s) == m);
}

impl<K: OrderedKey, V> SortedMap<K, V> {
    /// The entries in increasing key order.
    pub closed spec fn entries(&self) -> Seq<(K, V)> {
        self.entries@
    }

    /// The map's well-formedness: entries are strictly sorted by key.
    pub closed spec fn wf(&self) -> bool {
        strictly_sorted(self.entries@)
    }

    pub open spec fn view(&self) -> Map<K, V> {
        entries_map(self.entries())
    }

    /// Well-formed maps have strictly sorted entries that list exactly the
    /// map's contents.
    #[verifier::spinoff_prover]
    pub proof fn lemma_wf(&self)
        requires
            self.wf(),
        ensures
            strictly_sorted(self.entries()),
            self@.dom().finite(),
            self@.dom().len() == self.entries().len(),
            forall|i: int|
                0 <= i < self.entries().len() ==> #[trigger] self@.contains_key(
                    self.entries()[i].0,
                ) && self@[self.entries()[i].0] == self.entries()[i].1,
            forall|k: K|
                #[trigger] self@.contains_key(k) ==> exists|i: int|
                    0 <= i < self.entries().len() && self.entries()[i].0 == k,
    {
        lemma_entries_map(self.entries());
    }

    pub fn new() -> (m: Self)
        ensures
            m.wf(),
            m@ == Map::<K, V>::empty(),
            m.entries().len() == 0,
    {
        let m = SortedMap { entries: Vec::new() };
        assert(m@ =~= Map::<K, V>::empty());
        m
    }

    pub fn len(&self) -> (n: usize)
        requires
            self.wf(),
        ensures
            n == self@.len(),
            n == self.entries().len(),
    {
        proof {
            self.lemma_wf();
        }
        self.entries.len()
    }

    pub fn is_empty(&self) -> (b: bool)
        requires
            self.wf(),
        ensures
            b == (self@.len() == 0),
            b == (self.entries().len() == 0),
    {
        proof {
            self.lemma_wf();
        }
        self.entries.len() == 0
    }

    /// The entry at position `i` in key order.
    pub fn entry_at(&self, i: usize) -> (e: &(K, V))
        requires
            i < self.entries().len(),
        ensures
            *e == self.entries()[i as int],
    {
        &self.entries[i]
    }

    /// Position of the first entry whose key is not below `k`.
    fn lower_bound(&self, k: &K) -> (r: (usize, KeyOrder))
        requires
            self.wf(),
        ensures
            r.0 <= self.entries().len(),
            forall|j: int| 0 <= j < r.0 ==> (#[trigger] self.entries()[j]).0.key_lt(*k),
            r.0 < self.entries().len() ==> !self.entries()[r.0 as int].0.key_lt(*k),
            r.0 < self.entries().len() ==> (r.1 == KeyOrder::Equal <==> self.entries()[r.0 as int].0
                == *k),
            r.0 < self.entries().len() && r.1 != KeyOrder::Equal ==> k.key_lt(
                self.entries()[r.0 as int].0,
            ),
    {
        let n = self.entries.len();
        let mut i: usize = 0;
        while i < n
            invariant
                n == self.entries().len(),
                i <= n,
                forall|j: int| 0 <= j < i ==> (#[trigger] self.entries()[j]).0.key_lt(*k),
            decreases n - i,
        {
            let c = self.entries[i].0.compare(k);
            match c {
                KeyOrder::Less => {
                },
                _ => {
                    proof {
                        K::lemma_key_lt_total(self.entries()[i as int].0, *k);
                    }
                    return (i, c);
                },
            }
            i = i + 1;
        }
        (n, KeyOrder::Greater)
    }

    /// Looks up the value stored under `k`.
    pub fn get(&self, k: &K) -> (r: Option<&V>)
        requires
            self.wf(),
        ensures
            r is Some <==> self@.contains_key(*k),
            r is Some ==> *r.unwrap() == self@[*k],
    {
        proof {
            self.lemma_wf();
        }
        let (i, c) = self.lower_bound(k);
        if i < self.entries.len() {
            match c {
                KeyOrder::Equal => {
                    return Some(&self.entries[i].1);
                },
                _ => {},
            }
        }
        proof {
            if self@.contains_key(*k) {
                let j = choose|j: int| 0 <= j < self.entries().len() && self.entries()[j].0 == *k;
                if j < i {
                    K::lemma_key_lt_irreflexive(*k);
                } else if j == i {
                } else {
                    assert(self.entries()[i as int].0.key_lt(self.entries()[j].0));
                    K::lemma_key_lt_transitive(*k, self.entries()[i as int].0, *k);
                    K::lemma_key_lt_irreflexive(*k);
                }
            }
        }
        None
    }

    /// Whether `k` has an entry.
    pub fn contains_key(&self, k: &K) -> (b: bool)
        requires
            self.wf(),
        ensures
            b == self@.contains_key(*k),
    {
        match self.get(k) {
            Some(_) => true,
            None => false,
        }
    }

    /// Stores `v` under `k`, replacing any earlier value.
    pub fn insert(&mut self, k: K, v: V)
        requires
            old(self).wf(),
        ensures
            final(self).wf(),
            final(self)@ == old(self)@.insert(k, v),
    {
        let ghost old_entries = self.entries@;
        proof {
            lemma_entries_map(old_entries);
        }
        let (i, c) = self.lower_bound(&k);
        let n = self.entries.len();
        if i < n && c == KeyOrder::Equal {
            self.entries.set(i, (k, v));
            let ghost s = self.entries@;
            assert(s == old_entries.update(i as int, (k, v)));
            assert(strictly_sorted(s)) by {
                assert forall|a: int, b: int| 0 <= a < b < s.len() implies (#[trigger] s[a]).0.key_lt(
                    (#[trigger] s[b]).0,
                ) by {
                    assert(old_entries[a].0.key_lt(old_entries[b].0));
                }
            }
            proof {
                lemma_entries_map(s);
                assert(self@ =~= old(self)@.insert(k, v)) by {
                    assert forall|x: K| #[trigger] self@.contains_key(x) <==> old(
                        self,
                    )@.insert(k, v).contains_key(x) by {
                        if self@.contains_key(x) {
                            let j = choose|j: int| 0 <= j < s.len() && s[j].0 == x;
                            if j != i {
                                assert(old_entries[j].0 == x);
                            }
                        }
                        if old(self)@.contains_key(x) {
                            let j = choose|j: int|
                                0 <= j < old_entries.len() && old_entries[j].0 == x;
                            assert(s[j].0 == x);
                        }
                        if x == k {
                            assert(s[i as int].0 == x);
                        }
                    }
                    assert forall|x: K| #[trigger] self@.contains_key(x) implies self@[x] == old(
                        self,
                    )@.insert(k, v)[x] by {
                        let j = choose|j: int| 0 <= j < s.len() && s[j].0 == x;
                        if j != i {
                            assert(old_entries[j].0 == x);
                            assert(x != k) by {
                                if x == k {
                                    lemma_sorted_keys_distinct(s, j, i as int);
                                }
                            }
                        }
                    }
                }
            }
        } else {
            self.entries.insert(i, (k, v));
            let ghost s = self.entries@;
            assert(s == old_entries.insert(i as int, (k, v)));
            assert(strictly_sorted(s)) by {
                assert forall|a: int, b: int| 0 <= a < b < s.len() implies (#[trigger] s[a]).0.key_lt(
                    (#[trigger] s[b]).0,
                ) by {
                    if b < i {
                        assert(old_entries[a].0.key_lt(old_entries[b].0));
                    } else if b == i {
                        assert(old_entries[a].0.key_lt(k));
                    } else if a < i {
                        assert(old_entries[a].0.key_lt(k));
                        assert(k.key_lt(old_entries[i as int].0));
                        if b - 1 > i {
                            assert(old_entries[i as int].0.key_lt(old_entries[b - 1].0));
                            K::lemma_key_lt_transitive(
                                k,
                                old_entries[i as int].0,
                                old_entries[b - 1].0,
                            );
                        }
                        K::lemma_key_lt_transitive(old_entries[a].0, k, old_entries[b - 1].0);
                    } else if a == i {
                        assert(k.key_lt(old_entries[i as int].0));
                        if b - 1 > i {
                            assert(old_entries[i as int].0.key_lt(old_entries[b - 1].0));
                            K::lemma_key_lt_transitive(
                                k,
                                old_entries[i as int].0,
                                old_entries[b - 1].0,
                            );
                        }
                    } else {
                        assert(old_entries[a - 1].0.key_lt(old_entries[b - 1].0));
                    }
                }
            }
            proof {
                lemma_entries_map(s);
                assert(!old(self)@.contains_key(k)) by {
                    if old(self)@.contains_key(k) {
                        let j = choose|j: int| 0 <= j < old_entries.len() && old_entries[j].0 == k;
                        if j < i {
                            K::lemma_key_lt_irreflexive(k);
                        } else if j == i {
                        } else {
                            assert(old_entries[i as int].0.key_lt(old_entries[j].0));
                            K::lemma_key_lt_transitive(k, old_entries[i as int].0, k);
                            K::lemma_key_lt_irreflexive(k);
                        }
                    }
                }
                assert(self@ =~= old(self)@.insert(k, v)) by {
                    assert forall|x: K| #[trigger] self@.contains_key(x) <==> old(
                        self,
                    )@.insert(k, v).contains_key(x) by {
                        if self@.contains_key(x) {
                            let j = choose|j: int| 0 <= j < s.len() && s[j].0 == x;
                            if j < i {
                                assert(old_entries[j].0 == x);
                            } else if j > i {
                                assert(old_entries[j - 1].0 == x);
                            }
                        }
                        if old(self)@.contains_key(x) {
                            let j = choose|j: int|
                                0 <= j < old_entries.len() && old_entries[j].0 == x;
                            if j < i {
                                assert(s[j].0 == x);
                            } else {
                                assert(s[j + 1].0 == x);
                            }
                        }
                        if x == k {
                            assert(s[i as int].0 == x);
                        }
                    }
                    assert forall|x: K| #[trigger] self@.contains_key(x) implies self@[x] == old(
                        self,
                    )@.insert(k, v)[x] by {
                        let j = choose|j: int| 0 <= j < s.len() && s[j].0 == x;
                        if j < i {
                            assert(old_entries[j].0 == x);
                            assert(x != k);
                        } else if j > i {
                            assert(old_entries[j - 1].0 == x);
                            assert(x != k);
                        }
                    }
                }
            }
        }
    }

    /// A copy of the map in which every value is cloned.
    pub fn clone_entries(&self) -> (r: Self) where V: Clone
        requires
            self.wf(),
        ensures
            r.wf(),
            r.entries().len() == self.entries().len(),
            forall|i: int|
                0 <= i < self.entries().len() ==> (#[trigger] r.entries()[i]).0 == self.entries()[i].0
                    && cloned(self.entries()[i].1, r.entries()[i].1),
    {
        let n = self.entries.len();
        let mut v: Vec<(K, V)> = Vec::new();
        let mut i: usize = 0;
        while i < n
            invariant
                self.wf(),
                n == self.entries@.len(),
                i <= n,
                v@.len() == i,
                forall|j: int|
                    0 <= j < i ==> (#[trigger] v@[j]).0 == self.entries@[j].0 && cloned(
                        self.entries@[j].1,
                        v@[j].1,
                    ),
            decreases n - i,
        {
            let k = self.entries[i].0;
            let val = self.entries[i].1.clone();
            v.push((k, val));
            i = i + 1;
        }
        let r = SortedMap { entries: v };
        assert(strictly_sorted(r.entries@)) by {
            assert forall|a: int, b: int| 0 <= a < b < r.entries@.len() implies (
            #[trigger] r.entries@[a]).0.key_lt((#[trigger] r.entries@[b]).0) by {
                assert(self.entries@[a].0.key_lt(self.entries@[b].0));
            }
        }
        r
    }

    /// Removes every entry.
    pub fn clear(&mut self)
        ensures
            final(self).wf(),
            final(self)@ == Map::<K, V>::empty(),
            final(self).entries().len() == 0,
    {
        self.entries.clear();
        assert(self@ =~= Map::<K, V>::empty());
    }
}

} // verus!
