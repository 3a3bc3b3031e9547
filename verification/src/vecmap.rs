//! A hybrid map from object handles to values.
//!
//! Small tables keep their entries in a vector and find keys by a linear
//! scan; once a table grows past [`THRESHOLD`] entries it spills into an
//! FNV-hashed `HashMap`. Either way the table behaves as a finite map,
//! which is its view.
use fnv::FnvHashMap;
use vstd::prelude::*;

verus! {

/// The largest number of entries that a small table holds.
pub const THRESHOLD: usize = 8;

/// The hasher of the large representation.
#[verifier::external_type_specification]
#[verifier::external_body]
pub struct ExFnvHasher(fnv::FnvHasher);

/// The hasher builder of the large representation.
#[verifier::external_type_specification]
#[verifier::external_body]
#[verifier::reject_recursive_types(H)]
pub struct ExBuildHasherDefault<H>(std::hash::BuildHasherDefault<H>);

/// A map from object handles to values.
#[derive(Debug)]
pub enum VecMap<V: Copy> {
    Small(Vec<(u64, V)>),
    Large(FnvHashMap<u64, V>),
}

/// No key occurs twice in `s`.
pub open spec fn distinct_keys<V>(s: Seq<(u64, V)>) -> bool {
    forall|i: int, j: int| 0 <= i < j < s.len() ==> s[i].0 != s[j].0
}

/// The map that a sequence of entries describes, a later entry for a key
/// replacing an earlier one.
pub open spec fn pairs_map<V>(s: Seq<(u64, V)>) -> Map<u64, V>
    decreases s.len(),
{
    if s.len() == 0 {
        Map::empty()
    } else {
        pairs_map(s.drop_last()).insert(s.last().0, s.last().1)
    }
}

impl<V: Copy> View for VecMap<V> {
    type V = Map<u64, V>;

    open spec fn view(&self) -> Map<u64, V> {
        match self {
            VecMap::Small(v) => pairs_map(v@),
            VecMap::Large(m) => m@,
        }
    }
}

/// A key is in the map of a sequence exactly when some entry has it.
pub proof fn lemma_pairs_map_dom<V>(s: Seq<(u64, V)>, k: u64)
    ensures
        pairs_map(s).contains_key(k) <==> exists|i: int| 0 <= i < s.len() && s[i].0 == k,
    decreases s.len(),
{
    if s.len() > 0 {
        lemma_pairs_map_dom(s.drop_last(), k);
        if pairs_map(s.drop_last()).contains_key(k) {
            let i = choose|i: int| 0 <= i < s.drop_last().len() && s.drop_last()[i].0 == k;
            assert(s[i].0 == k);
        }
        if exists|i: int| 0 <= i < s.len() && s[i].0 == k {
            let i = choose|i: int| 0 <= i < s.len() && s[i].0 == k;
            if i < s.len() - 1 {
                assert(s.drop_last()[i].0 == k);
            }
        }
    }
}

/// The map of a sequence has finitely many keys.
pub proof fn lemma_pairs_map_finite<V>(s: Seq<(u64, V)>)
    ensures
        pairs_map(s).dom().finite(),
    decreases s.len(),
{
    if s.len() > 0 {
        lemma_pairs_map_finite(s.drop_last());
    }
}

/// With distinct keys, the map of a sequence gives each entry's value.
pub proof fn lemma_pairs_map_value<V>(s: Seq<(u64, V)>, i: int)
    requires
        distinct_keys(s),
        0 <= i < s.len(),
    ensures
        pairs_map(s).contains_key(s[i].0),
        pairs_map(s)[s[i].0] == s[i].1,
    decreases s.len(),
{
    if i < s.len() - 1 {
        assert(s.drop_last()[i] == s[i]);
        lemma_pairs_map_value(s.drop_last(), i);
    }
}

/// With distinct keys, two sequences that hold the same entries up to order
/// describe the same map when each key has the same value in both.
proof fn lemma_pairs_map_ext<V>(s: Seq<(u64, V)>, m: Map<u64, V>)
    requires
        distinct_keys(s),
        forall|i: int| 0 <= i < s.len() ==> m.contains_key(#[trigger] s[i].0) && m[s[i].0] == s[i].1,
        forall|k: u64| m.contains_key(k) ==> exists|i: int| 0 <= i < s.len() && s[i].0 == k,
    ensures
        pairs_map(s) == m,
{
    assert forall|k: u64| pairs_map(s).contains_key(k) <==> m.contains_key(k) by {
        lemma_pairs_map_dom(s, k);
        if pairs_map(s).contains_key(k) {
            let i = choose|i: int| 0 <= i < s.len() && s[i].0 == k;
            assert(m.contains_key(s[i].0));
        }
    }
    assert forall|k: u64| pairs_map(s).contains_key(k) implies pairs_map(s)[k] == m[k] by {
        lemma_pairs_map_dom(s, k);
        let i = choose|i: int| 0 <= i < s.len() && s[i].0 == k;
        lemma_pairs_map_value(s, i);
        assert(m.contains_key(s[i].0));
    }
    assert(pairs_map(s) =~= m);
}

/// A table reads back what was written: after `insert(k, v)` the key `k`
/// gives `v` and every other key keeps what it had; after `remove(k)` the
/// key `k` is absent and every other key keeps what it had.
pub proof fn lemma_read_after_write<V>(m: Map<u64, V>, k: u64, v: V, other: u64)
    ensures
        m.insert(k, v).contains_key(k),
        m.insert(k, v)[k] == v,
        !m.remove(k).contains_key(k),
        other != k ==> m.insert(k, v).contains_key(other) == m.contains_key(other),
        other != k ==> m.remove(k).contains_key(other) == m.contains_key(other),
        other != k && m.contains_key(other) ==> m.insert(k, v)[other] == m[other] && m.remove(k)[other]
            == m[other],
{
}

// ---------------------------------------------------------------------------
// The large representation: `HashMap` with the FNV hasher
// ---------------------------------------------------------------------------

/// `HashMap::from_iter` on the FNV map: the entries are inserted in order,
/// a later entry for a key replacing an earlier one.
#[verifier::external_body]
fn fnv_from_pairs<V: Copy>(pairs: Vec<(u64, V)>) -> (m: FnvHashMap<u64, V>)
    requires
        distinct_keys(pairs@),
    ensures
        m@ == pairs_map(pairs@),
{
    FnvHashMap::from_iter(pairs)
}

/// `HashMap::insert` on the FNV map: afterwards `k` maps to `v`; the value
/// that `k` had before, if any, is returned.
#[verifier::external_body]
fn fnv_insert<V: Copy>(m: &mut FnvHashMap<u64, V>, k: u64, v: V) -> (r: Option<V>)
    ensures
        final(m)@ == old(m)@.insert(k, v),
        r == old(m)@.get(k),
{
    m.insert(k, v)
}

/// `HashMap::remove` on the FNV map: afterwards `k` is absent; the value it
/// had, if any, is returned.
#[verifier::external_body]
fn fnv_remove<V: Copy>(m: &mut FnvHashMap<u64, V>, k: &u64) -> (r: Option<V>)
    ensures
        final(m)@ == old(m)@.remove(*k),
        r == old(m)@.get(*k),
{
    m.remove(k)
}

/// `HashMap::get` on the FNV map: the value of `k`, if it has one.
#[verifier::external_body]
fn fnv_get<'a, V: Copy>(m: &'a FnvHashMap<u64, V>, k: &u64) -> (r: Option<&'a V>)
    ensures
        match r {
            Some(v) => m@.contains_key(*k) && *v == m@[*k],
            None => !m@.contains_key(*k),
        },
{
    m.get(k)
}

/// `HashMap::contains_key` on the FNV map.
#[verifier::external_body]
fn fnv_contains_key<V: Copy>(m: &FnvHashMap<u64, V>, k: &u64) -> (r: bool)
    ensures
        r == m@.contains_key(*k),
{
    m.contains_key(k)
}

/// `HashMap::iter` on the FNV map, collected: every entry once, in the
/// order in which the table is walked (which is left open).
#[verifier::external_body]
fn fnv_entries<V: Copy>(m: &FnvHashMap<u64, V>) -> (r: Vec<(u64, V)>)
    ensures
        distinct_keys(r@),
        pairs_map(r@) == m@,
{
    m.iter().map(|(k, v)| (*k, *v)).collect()
}

// ---------------------------------------------------------------------------
// The map
// ---------------------------------------------------------------------------

/// The index of the first entry of `vm` whose key is `key`.
fn position<V: Copy>(vm: &Vec<(u64, V)>, key: &u64) -> (r: Option<usize>)
    ensures
        match r {
            Some(i) => i < vm@.len() && vm@[i as int].0 == *key && forall|j: int|
                0 <= j < i ==> vm@[j].0 != *key,
            None => forall|j: int| 0 <= j < vm@.len() ==> vm@[j].0 != *key,
        },
{
    let mut i: usize = 0;
    while i < vm.len()
        invariant
            0 <= i <= vm@.len(),
            forall|j: int| 0 <= j < i ==> vm@[j].0 != *key,
        decreases vm@.len() - i,
    {
        if vm[i].0 == *key {
            return Some(i);
        }
        i += 1;
    }
    None
}

impl<V: Copy> Default for VecMap<V> {
    /// An empty small table.
    fn default() -> (r: Self)
        ensures
            r.wf(),
            r@ == Map::<u64, V>::empty(),
            r is Small,
    {
        VecMap::Small(Vec::with_capacity(THRESHOLD / 2))
    }
}

impl<V: Copy> VecMap<V> {
    /// The table's invariant: a small table holds each key at most once,
    /// and at most [`THRESHOLD`] entries.
    pub open spec fn wf(&self) -> bool {
        match self {
            VecMap::Small(v) => distinct_keys(v@) && v@.len() <= THRESHOLD,
            VecMap::Large(m) => m@.dom().finite(),
        }
    }

    /// Maps `key` to `value`; returns the value that `key` had before, if
    /// any. A small table that grows past [`THRESHOLD`] entries becomes large.
    pub fn insert(&mut self, key: u64, value: V) -> (r: Option<V>)
        requires
            old(self).wf(),
        ensures
            final(self).wf(),
            final(self)@ == old(self)@.insert(key, value),
            r == old(self)@.get(key),
            *old(self) is Large ==> *final(self) is Large,
            final(self)@.dom().finite(),
            final(self)@.dom().len() == old(self)@.dom().len() + if r is None {
                1int
            } else {
                0int
            },
            match *old(self) {
                VecMap::Small(v) => (*final(self) is Large) == (!old(self)@.contains_key(key)
                    && v@.len() == THRESHOLD),
                VecMap::Large(_) => true,
            },
    {
        proof {
            if *self is Small {
                lemma_pairs_map_finite((*self)->Small_0@);
            }
            assert(self@.dom().finite());
            assert(self@.insert(key, value).dom() =~= self@.dom().insert(key));
        }
        match self {
            VecMap::Small(vm) => {
                let ghost s = vm@;
                if let Some(i) = position(vm, &key) {
                    let old_value = vm[i].1;
                    proof {
                        lemma_pairs_map_value(s, i as int);
                    }
                    vm.set(i, (key, value));
                    proof {
                        let s2 = s.update(i as int, (key, value));
                        let target = pairs_map(s).insert(key, value);
                        assert(vm@ == s2);
                        assert(distinct_keys(s2));
                        assert forall|j: int| 0 <= j < s2.len() implies target.contains_key(
                            #[trigger] s2[j].0,
                        ) && target[s2[j].0] == s2[j].1 by {
                            if j != i {
                                lemma_pairs_map_value(s, j);
                            }
                        }
                        assert forall|k: u64| target.contains_key(k) implies exists|j: int|
                            0 <= j < s2.len() && s2[j].0 == k by {
                            if k != key {
                                lemma_pairs_map_dom(s, k);
                                let j = choose|j: int| 0 <= j < s.len() && s[j].0 == k;
                                assert(s2[j].0 == k);
                            } else {
                                assert(s2[i as int].0 == k);
                            }
                        }
                        lemma_pairs_map_ext(s2, target);
                    }
                    return Some(old_value);
                }
                proof {
                    lemma_pairs_map_dom(s, key);
                }
                vm.push((key, value));
                proof {
                    assert(vm@.drop_last() =~= s);
                }
                if vm.len() > THRESHOLD {
                    self.into_large();
                }
                None
            },
            VecMap::Large(vm) => fnv_insert(vm, key, value),
        }
    }

    /// Removes `key`; returns the value it had, if any.
    pub fn remove(&mut self, key: &u64) -> (r: Option<V>)
        requires
            old(self).wf(),
        ensures
            final(self).wf(),
            final(self)@ == old(self)@.remove(*key),
            r == old(self)@.get(*key),
    {
        match self {
            VecMap::Small(vm) => {
                let ghost s = vm@;
                if let Some(i) = position(vm, key) {
                    proof {
                        lemma_pairs_map_value(s, i as int);
                    }
                    let removed = vm.swap_remove(i);
                    proof {
                        let s2 = vm@;
                        let target = pairs_map(s).remove(*key);
                        assert(s2 =~= s.update(i as int, s.last()).drop_last());
                        assert forall|a: int, b: int| 0 <= a < b < s2.len() implies s2[a].0
                            != s2[b].0 by {
                            if a == i {
                                assert(s2[a] == s[s.len() - 1]);
                            } else if b == i {
                                assert(s2[b] == s[s.len() - 1]);
                            }
                        }
                        assert forall|j: int| 0 <= j < s2.len() implies target.contains_key(
                            #[trigger] s2[j].0,
                        ) && target[s2[j].0] == s2[j].1 by {
                            if j == i {
                                lemma_pairs_map_value(s, s.len() - 1);
                            } else {
                                lemma_pairs_map_value(s, j);
                            }
                        }
                        assert forall|k: u64| target.contains_key(k) implies exists|j: int|
                            0 <= j < s2.len() && s2[j].0 == k by {
                            lemma_pairs_map_dom(s, k);
                            let j = choose|j: int| 0 <= j < s.len() && s[j].0 == k;
                            if j == s.len() - 1 {
                                assert(s2[i as int].0 == k);
                            } else {
                                assert(s2[j].0 == k);
                            }
                        }
                        lemma_pairs_map_ext(s2, target);
                    }
                    Some(removed.1)
                } else {
                    proof {
                        lemma_pairs_map_dom(s, *key);
                        assert(pairs_map(s).remove(*key) =~= pairs_map(s));
                    }
                    None
                }
            },
            VecMap::Large(vm) => fnv_remove(vm, key),
        }
    }

    /// The value of `key`, if it has one.
    pub fn get(&self, key: &u64) -> (r: Option<&V>)
        requires
            self.wf(),
        ensures
            match r {
                Some(v) => self@.contains_key(*key) && *v == self@[*key],
                None => !self@.contains_key(*key),
            },
    {
        match self {
            VecMap::Small(vm) => {
                proof {
                    lemma_pairs_map_dom(vm@, *key);
                }
                match position(vm, key) {
                    Some(i) => {
                        proof {
                            lemma_pairs_map_value(vm@, i as int);
                        }
                        Some(&vm[i].1)
                    },
                    None => None,
                }
            },
            VecMap::Large(vm) => fnv_get(vm, key),
        }
    }

    /// Whether `key` has a value.
    pub fn contains_key(&self, key: &u64) -> (r: bool)
        requires
            self.wf(),
        ensures
            r == self@.contains_key(*key),
    {
        match self {
            VecMap::Small(vm) => {
                proof {
                    lemma_pairs_map_dom(vm@, *key);
                }
                position(vm, key).is_some()
            },
            VecMap::Large(vm) => fnv_contains_key(vm, key),
        }
    }

    /// Every entry once, as (key, value) pairs: a small table in the order of
    /// its entries, a large one in the order in which it is walked.
    pub fn iter(&self) -> (r: Vec<(u64, V)>)
        requires
            self.wf(),
        ensures
            distinct_keys(r@),
            pairs_map(r@) == self@,
            match self {
                VecMap::Small(v) => r@ == v@,
                VecMap::Large(_) => true,
            },
    {
        match self {
            VecMap::Small(vm) => {
                let mut r: Vec<(u64, V)> = Vec::new();
                let mut i: usize = 0;
                while i < vm.len()
                    invariant
                        0 <= i <= vm@.len(),
                        r@ == vm@.take(i as int),
                    decreases vm@.len() - i,
                {
                    r.push(vm[i]);
                    i += 1;
                    proof {
                        assert(r@ =~= vm@.take(i as int));
                    }
                }
                proof {
                    assert(vm@.take(vm@.len() as int) =~= vm@);
                }
                r
            },
            VecMap::Large(vm) => fnv_entries(vm),
        }
    }

    /// Every key once.
    pub fn keys(&self) -> (r: Vec<u64>)
        requires
            self.wf(),
        ensures
            r@.no_duplicates(),
            forall|k: u64| r@.contains(k) <==> self@.contains_key(k),
            match self {
                VecMap::Small(v) => r@ == v@.map_values(|p: (u64, V)| p.0),
                VecMap::Large(_) => true,
            },
    {
        let entries = self.iter();
        let mut r: Vec<u64> = Vec::new();
        let mut i: usize = 0;
        while i < entries.len()
            invariant
                0 <= i <= entries@.len(),
                distinct_keys(entries@),
                r@.len() == i,
                forall|j: int| 0 <= j < i ==> r@[j] == #[trigger] entries@[j].0,
            decreases entries@.len() - i,
        {
            r.push(entries[i].0);
            i += 1;
        }
        proof {
            assert forall|a: int, b: int| 0 <= a < r@.len() && 0 <= b < r@.len() && a != b implies r@[a]
                != r@[b] by {
                assert(r@[a] == entries@[a].0);
                assert(r@[b] == entries@[b].0);
            }
            assert forall|k: u64| r@.contains(k) <==> self@.contains_key(k) by {
                lemma_pairs_map_dom(entries@, k);
                if self@.contains_key(k) {
                    let j = choose|j: int| 0 <= j < entries@.len() && entries@[j].0 == k;
                    assert(r@[j] == k);
                }
                if r@.contains(k) {
                    let j = choose|j: int| 0 <= j < r@.len() && r@[j] == k;
                    assert(entries@[j].0 == k);
                }
            }
            assert(r@ =~= entries@.map_values(|p: (u64, V)| p.0));
        }
        r
    }

    /// Every value once per key that holds it, in the order of [`Self::iter`].
    pub fn values(&self) -> (r: Vec<V>)
        requires
            self.wf(),
        ensures
            exists|e: Seq<(u64, V)>|
                distinct_keys(e) && pairs_map(e) == self@ && r@ == e.map_values(
                    |p: (u64, V)| p.1,
                ),
            match self {
                VecMap::Small(v) => r@ == v@.map_values(|p: (u64, V)| p.1),
                VecMap::Large(_) => true,
            },
    {
        let entries = self.iter();
        let mut r: Vec<V> = Vec::new();
        let mut i: usize = 0;
        while i < entries.len()
            invariant
                0 <= i <= entries@.len(),
                r@.len() == i,
                forall|j: int| 0 <= j < i ==> r@[j] == #[trigger] entries@[j].1,
            decreases entries@.len() - i,
        {
            r.push(entries[i].1);
            i += 1;
        }
        proof {
            assert(r@ =~= entries@.map_values(|p: (u64, V)| p.1));
        }
        r
    }

    /// Copies every entry of `other` into this table, replacing the values
    /// of keys that both hold.
    pub fn extend(&mut self, other: &VecMap<V>)
        requires
            old(self).wf(),
            other.wf(),
        ensures
            final(self).wf(),
            final(self)@ == old(self)@.union_prefer_right(other@),
    {
        let entries = other.iter();
        let mut i: usize = 0;
        while i < entries.len()
            invariant
                0 <= i <= entries@.len(),
                self.wf(),
                self@ == old(self)@.union_prefer_right(pairs_map(entries@.take(i as int))),
            decreases entries@.len() - i,
        {
            let (k, v) = entries[i];
            let ghost before = pairs_map(entries@.take(i as int));
            self.insert(k, v);
            i += 1;
            proof {
                assert(entries@.take(i as int).drop_last() =~= entries@.take(i - 1));
                assert(self@ =~= old(self)@.union_prefer_right(before.insert(k, v)));
            }
        }
        proof {
            assert(entries@.take(entries@.len() as int) =~= entries@);
        }
    }

    /// Moves the entries of a small table into a hashed one.
    fn into_large(&mut self)
        requires
            match *old(self) {
                VecMap::Small(v) => distinct_keys(v@),
                VecMap::Large(m) => m@.dom().finite(),
            },
        ensures
            final(self).wf(),
            final(self)@ == old(self)@,
            *final(self) is Large,
    {
        let mut taken = VecMap::Small(Vec::new());
        std::mem::swap(self, &mut taken);
        *self = match taken {
            VecMap::Small(vm) => {
                proof {
                    lemma_pairs_map_finite(vm@);
                }
                VecMap::Large(fnv_from_pairs(vm))
            },
            VecMap::Large(vm) => VecMap::Large(vm),
        };
    }
}

} // verus!
