//! A map from strings to values that remembers the order in which keys were
//! first inserted.

use crate::unicode::str_eq;
use std::collections::HashMap;
use vstd::prelude::*;
use vstd::utf8::encode_utf8;

verus! {

/// Whether some entry of `m` has the key `k`.
pub open spec fn has_key<V>(m: Seq<(Seq<char>, V)>, k: Seq<char>) -> bool {
    exists|i: int| 0 <= i < m.len() && (#[trigger] m[i]).0 == k
}

/// The position of an entry with key `k`.
pub open spec fn index_of_key<V>(m: Seq<(Seq<char>, V)>, k: Seq<char>) -> int {
    choose|i: int| 0 <= i < m.len() && (#[trigger] m[i]).0 == k
}

/// The value stored under `k`, if any.
pub open spec fn lookup<V>(m: Seq<(Seq<char>, V)>, k: Seq<char>) -> Option<V> {
    if has_key(m, k) {
        Some(m[index_of_key(m, k)].1)
    } else {
        None
    }
}

/// No key occurs twice.
pub open spec fn distinct_keys<V>(m: Seq<(Seq<char>, V)>) -> bool {
    forall|i: int, j: int|
        0 <= i < j < m.len() ==> (#[trigger] m[i]).0 != (#[trigger] m[j]).0
}

/// `m` with `v` stored under `k`: in place where the key exists, at the end
/// where it does not.
pub open spec fn upsert<V>(m: Seq<(Seq<char>, V)>, k: Seq<char>, v: V) -> Seq<(Seq<char>, V)> {
    if has_key(m, k) {
        m.update(index_of_key(m, k), (k, v))
    } else {
        m.push((k, v))
    }
}

/// In a map with distinct keys an entry is found under its own key.
pub proof fn lemma_lookup_at<V>(m: Seq<(Seq<char>, V)>, i: int)
    requires
        distinct_keys(m),
        0 <= i < m.len(),
    ensures
        has_key(m, m[i].0),
        index_of_key(m, m[i].0) == i,
        lookup(m, m[i].0) == Some(m[i].1),
{
    let j = index_of_key(m, m[i].0);
    assert(0 <= j < m.len() && m[j].0 == m[i].0);
}

/// Storing a value keeps the keys distinct, makes it the value of its key
/// and leaves every other key alone.
pub proof fn lemma_upsert<V>(m: Seq<(Seq<char>, V)>, k: Seq<char>, v: V)
    requires
        distinct_keys(m),
    ensures
        distinct_keys(upsert(m, k, v)),
        lookup(upsert(m, k, v), k) == Some(v),
        forall|other: Seq<char>| other != k ==> lookup(upsert(m, k, v), other) == lookup(m, other),
        forall|other: Seq<char>| has_key(upsert(m, k, v), other) == (other == k || has_key(m, other)),
{
    let u = upsert(m, k, v);
    let at = if has_key(m, k) {
        index_of_key(m, k)
    } else {
        m.len() as int
    };
    assert(u[at] == (k, v));
    assert(distinct_keys(u)) by {
        assert forall|i: int, j: int| 0 <= i < j < u.len() implies (#[trigger] u[i]).0 != (
        #[trigger] u[j]).0 by {
            if has_key(m, k) {
                assert(m[i].0 != m[j].0);
            } else {
                if j < m.len() {
                    assert(m[i].0 != m[j].0);
                } else {
                    assert(u[i] == m[i]);
                }
            }
        }
    }
    lemma_lookup_at(u, at);
    assert forall|other: Seq<char>| has_key(u, other) == (other == k || has_key(m, other)) by {
        if has_key(u, other) {
            let i = index_of_key(u, other);
            if other != k {
                assert(m[i].0 == other);
            }
        }
        if has_key(m, other) {
            let i = index_of_key(m, other);
            if other != k {
                assert(u[i].0 == other);
            }
        }
    }
    assert forall|other: Seq<char>| other != k implies lookup(u, other) == lookup(m, other) by {
        if has_key(m, other) {
            let i = index_of_key(m, other);
            assert(u[i] == m[i]);
            lemma_lookup_at(u, i);
        }
    }
}

/// Modulus of the hash of a key.
const HASH_MODULUS: u64 = 576460752303423433;

/// The hash after one more byte.
spec fn hash_step(h: u64, b: u8) -> u64 {
    ((h * 31 + b) % (HASH_MODULUS as int)) as u64
}

/// The hash of a byte string: a polynomial in its bytes.
spec fn hash_of(bytes: Seq<u8>) -> u64
    decreases bytes.len(),
{
    if bytes.len() == 0 {
        7
    } else {
        hash_step(hash_of(bytes.drop_last()), bytes.last())
    }
}

/// The hash of a key.
spec fn key_hash(k: Seq<char>) -> u64 {
    hash_of(encode_utf8(k))
}

proof fn lemma_hash_bound(bytes: Seq<u8>)
    ensures
        hash_of(bytes) < HASH_MODULUS,
    decreases bytes.len(),
{
    if bytes.len() > 0 {
        lemma_hash_bound(bytes.drop_last());
    }
}

/// The hash of a key.
fn hash_str(s: &str) -> (h: u64)
    ensures
        h == key_hash(s@),
{
    let bytes = s.as_bytes();
    let mut h: u64 = 7;
    let mut i: usize = 0;
    assert(bytes@.take(0) =~= Seq::<u8>::empty());
    while i < bytes.len()
        invariant
            i <= bytes@.len(),
            h == hash_of(bytes@.take(i as int)),
            h < HASH_MODULUS,
        decreases bytes@.len() - i,
    {
        assert(bytes@.take(i + 1).drop_last() =~= bytes@.take(i as int));
        h = (h * 31 + bytes[i] as u64) % HASH_MODULUS;
        i += 1;
    }
    assert(bytes@.take(i as int) =~= bytes@);
    h
}

/// The entries as keys and values.
spec fn entries_view<V>(entries: Seq<(String, V)>) -> Seq<(Seq<char>, V)> {
    Seq::new(entries.len(), |i: int| (entries[i].0@, entries[i].1))
}

/// Position `i` stands in the bucket.
spec fn listed(bucket: Seq<usize>, i: int) -> bool {
    exists|j: int| 0 <= j < bucket.len() && #[trigger] bucket[j] == i
}

/// The slots list every entry under the hash of its key and list nothing
/// but positions of entries.
spec fn slots_ok<V>(entries: Seq<(String, V)>, slots: Map<u64, Vec<usize>>) -> bool {
    &&& forall|i: int|
        0 <= i < entries.len() ==> slots.contains_key(key_hash((#[trigger] entries[i]).0@))
            && listed(slots[key_hash(entries[i].0@)]@, i)
    &&& forall|h: u64, j: int|
        slots.contains_key(h) && 0 <= j < slots[h]@.len() ==> (#[trigger] slots[h]@[j])
            < entries.len()
}

/// Appends an entry and lists it under the hash of its key.
fn add_entry<V>(
    entries: &mut Vec<(String, V)>,
    slots: &mut HashMap<u64, Vec<usize>>,
    key: String,
    value: V,
)
    requires
        slots_ok(old(entries)@, old(slots)@),
    ensures
        final(entries)@ == old(entries)@.push((key, value)),
        slots_ok(final(entries)@, final(slots)@),
{
    broadcast use vstd::std_specs::hash::group_hash_axioms;

    let h = hash_str(key.as_str());
    let at = entries.len();
    let mut bucket: Vec<usize> = match slots.remove(&h) {
        Some(b) => b,
        None => Vec::new(),
    };
    let ghost before = bucket@;
    bucket.push(at);
    slots.insert(h, bucket);
    entries.push((key, value));
    proof {
        assert(bucket@[before.len() as int] == at);
        assert forall|i: int| 0 <= i < entries@.len() implies slots@.contains_key(
            key_hash((#[trigger] entries@[i]).0@),
        ) && listed(slots@[key_hash(entries@[i].0@)]@, i) by {
            if i < at {
                assert(entries@[i] == old(entries)@[i]);
                let hi = key_hash(old(entries)@[i].0@);
                assert(listed(old(slots)@[hi]@, i));
                if hi == h {
                    let j = choose|j: int| 0 <= j < before.len() && #[trigger] before[j] == i;
                    assert(bucket@[j] == i);
                }
            }
        }
        assert forall|g: u64, j: int| slots@.contains_key(g) && 0 <= j < slots@[g]@.len() implies (
        #[trigger] slots@[g]@[j]) < entries@.len() by {
            if g == h {
                if j < before.len() {
                    assert(old(slots)@[h]@[j] < at);
                }
            } else {
                assert(old(slots)@[g]@[j] < at);
            }
        }
    }
}

/// A map keyed by strings. Entries stay in the order in which their keys
/// first arrived, and no key occurs twice. Keys are found through a table
/// of hashes, so that looking one up does not walk the entries.
pub struct StrMap<V> {
    entries: Vec<(String, V)>,
    slots: HashMap<u64, Vec<usize>>,
}

impl<V> View for StrMap<V> {
    type V = Seq<(Seq<char>, V)>;

    closed spec fn view(&self) -> Seq<(Seq<char>, V)> {
        entries_view(self.entries@)
    }
}

impl<V> StrMap<V> {
    #[verifier::type_invariant]
    spec fn inv(self) -> bool {
        distinct_keys(self@) && slots_ok(self.entries@, self.slots@)
    }

    /// The empty map.
    pub fn new() -> (m: Self)
        ensures
            m@ == Seq::<(Seq<char>, V)>::empty(),
    {
        let m = StrMap { entries: Vec::new(), slots: HashMap::new() };
        assert(m@ =~= Seq::<(Seq<char>, V)>::empty());
        m
    }

    /// States that the keys are distinct; compiles to nothing.
    pub fn keys_distinct(&self)
        ensures
            distinct_keys(self@),
    {
        proof {
            use_type_invariant(self);
        }
    }

    /// The number of entries.
    pub fn len(&self) -> (n: usize)
        ensures
            n == self@.len(),
    {
        self.entries.len()
    }

    /// The key of the entry at `i`.
    pub fn key(&self, i: usize) -> (k: &String)
        requires
            i < self@.len(),
        ensures
            k@ == self@[i as int].0,
    {
        &self.entries[i].0
    }

    /// The value of the entry at `i`.
    pub fn value(&self, i: usize) -> (v: &V)
        requires
            i < self@.len(),
        ensures
            *v == self@[i as int].1,
    {
        &self.entries[i].1
    }

    /// The position of the entry with the given key.
    pub fn find(&self, key: &str) -> (r: Option<usize>)
        ensures
            match r {
                Some(i) => i < self@.len() && self@[i as int].0 == key@ && has_key(self@, key@)
                    && index_of_key(self@, key@) == i,
                None => !has_key(self@, key@),
            },
    {
        broadcast use vstd::std_specs::hash::group_hash_axioms;

        proof {
            use_type_invariant(self);
        }
        let h = hash_str(key);
        let bucket = match self.slots.get(&h) {
            Some(b) => b,
            None => {
                proof {
                    if has_key(self@, key@) {
                        let i = index_of_key(self@, key@);
                        assert(self.entries@[i].0@ == key@);
                    }
                }
                return None;
            },
        };
        let mut j: usize = 0;
        while j < bucket.len()
            invariant
                j <= bucket@.len(),
                distinct_keys(self@),
                slots_ok(self.entries@, self.slots@),
                self.slots@.contains_key(h),
                bucket@ == self.slots@[h]@,
                forall|t: int| 0 <= t < j ==> self@[bucket@[t] as int].0 != key@,
            decreases bucket@.len() - j,
        {
            let i = bucket[j];
            assert(i < self.entries@.len());
            if str_eq(self.entries[i].0.as_str(), key) {
                proof {
                    lemma_lookup_at(self@, i as int);
                }
                return Some(i);
            }
            j += 1;
        }
        proof {
            if has_key(self@, key@) {
                let i = index_of_key(self@, key@);
                assert(self.entries@[i].0@ == key@);
                assert(listed(bucket@, i));
                let t = choose|t: int| 0 <= t < bucket@.len() && #[trigger] bucket@[t] == i;
                assert(self@[bucket@[t] as int].0 != key@);
            }
        }
        None
    }

    /// The value stored under `key`, if any.
    pub fn get(&self, key: &str) -> (r: Option<&V>)
        ensures
            match r {
                Some(v) => lookup(self@, key@) == Some(*v),
                None => lookup(self@, key@).is_none(),
            },
    {
        match self.find(key) {
            Some(i) => Some(&self.entries[i].1),
            None => None,
        }
    }

    /// Stores `value` under `key`, replacing what was there.
    pub fn insert(&mut self, key: String, value: V)
        ensures
            final(self)@ == upsert(old(self)@, key@, value),
    {
        proof {
            use_type_invariant(&*self);
            lemma_upsert(self@, key@, value);
        }
        let found = self.find(key.as_str());
        let mut taken = StrMap::new();
        std::mem::swap(self, &mut taken);
        let StrMap { entries: mut entries, slots: mut slots } = taken;
        match found {
            Some(i) => {
                let ghost before = entries@;
                entries[i].1 = value;
                assert(slots_ok(entries@, slots@)) by {
                    assert forall|t: int| 0 <= t < entries@.len() implies (#[trigger] entries@[t]).0
                        == before[t].0 by {}
                    assert forall|t: int| 0 <= t < entries@.len() implies slots@.contains_key(
                        key_hash((#[trigger] entries@[t]).0@),
                    ) && listed(slots@[key_hash(entries@[t].0@)]@, t) by {
                        assert(before[t].0 == entries@[t].0);
                    }
                }
            },
            None => {
                add_entry(&mut entries, &mut slots, key, value);
            },
        }
        assert(entries_view(entries@) =~= upsert(old(self)@, key@, value));
        *self = StrMap { entries, slots };
    }

    /// Replaces the value of the entry at `i`.
    pub fn set(&mut self, i: usize, value: V)
        requires
            i < old(self)@.len(),
        ensures
            final(self)@ == old(self)@.update(i as int, (old(self)@[i as int].0, value)),
    {
        proof {
            use_type_invariant(&*self);
        }
        let mut taken = StrMap::new();
        std::mem::swap(self, &mut taken);
        let StrMap { entries: mut entries, slots: mut slots } = taken;
        let ghost before = entries@;
        entries[i].1 = value;
        let ghost after = entries_view(entries@);
        assert(after =~= old(self)@.update(i as int, (old(self)@[i as int].0, value)));
        assert(distinct_keys(after)) by {
            assert forall|a: int, b: int| 0 <= a < b < after.len() implies (#[trigger] after[a]).0
                != (#[trigger] after[b]).0 by {
                assert(old(self)@[a].0 != old(self)@[b].0);
            }
        }
        assert(slots_ok(entries@, slots@)) by {
            assert forall|t: int| 0 <= t < entries@.len() implies slots@.contains_key(
                key_hash((#[trigger] entries@[t]).0@),
            ) && listed(slots@[key_hash(entries@[t].0@)]@, t) by {
                assert(before[t].0 == entries@[t].0);
            }
        }
        *self = StrMap { entries, slots };
    }
}

/// The keys of a map, in its order.
pub open spec fn keys<V>(m: Seq<(Seq<char>, V)>) -> Seq<Seq<char>> {
    Seq::new(m.len(), |i: int| m[i].0)
}

/// The count stored under `k`, zero where there is none.
pub open spec fn count(m: Seq<(Seq<char>, u32)>, k: Seq<char>) -> nat {
    match lookup(m, k) {
        Some(c) => c as nat,
        None => 0,
    }
}

/// The sum of all counts.
pub open spec fn total(m: Seq<(Seq<char>, u32)>) -> nat
    decreases m.len(),
{
    if m.len() == 0 {
        0
    } else {
        total(m.drop_last()) + m.last().1 as nat
    }
}

/// Every count is at least one.
pub open spec fn positive_counts(m: Seq<(Seq<char>, u32)>) -> bool {
    forall|i: int| 0 <= i < m.len() ==> (#[trigger] m[i]).1 >= 1
}

/// Counting one more occurrence keeps every count at least one.
pub proof fn lemma_bump_keeps_positive(m: Seq<(Seq<char>, u32)>, k: Seq<char>)
    requires
        positive_counts(m),
        count(m, k) < u32::MAX,
    ensures
        positive_counts(upsert(m, k, (count(m, k) + 1) as u32)),
{
    let now = upsert(m, k, (count(m, k) + 1) as u32);
    let at = if has_key(m, k) {
        index_of_key(m, k)
    } else {
        m.len() as int
    };
    assert forall|i: int| 0 <= i < now.len() implies (#[trigger] now[i]).1 >= 1 by {
        if i != at {
            assert(now[i] == m[i]);
        }
    }
}

/// A map of lists with each list as a sequence.
pub open spec fn lists<T>(m: Seq<(Seq<char>, Vec<T>)>) -> Seq<(Seq<char>, Seq<T>)> {
    Seq::new(m.len(), |i: int| (m[i].0, m[i].1@))
}

/// The list stored under `k`, empty where there is none.
pub open spec fn items<T>(m: Seq<(Seq<char>, Seq<T>)>, k: Seq<char>) -> Seq<T> {
    match lookup(m, k) {
        Some(l) => l,
        None => Seq::empty(),
    }
}

/// `m` with `x` appended to the list of `k`.
pub open spec fn append_item<T>(m: Seq<(Seq<char>, Seq<T>)>, k: Seq<char>, x: T) -> Seq<
    (Seq<char>, Seq<T>),
> {
    upsert(m, k, items(m, k).push(x))
}

/// Appending to the list of a key keeps the keys distinct, lengthens that
/// list by the item and leaves every other list alone.
pub proof fn lemma_append_item<T>(m: Seq<(Seq<char>, Seq<T>)>, k: Seq<char>, x: T)
    requires
        distinct_keys(m),
    ensures
        distinct_keys(append_item(m, k, x)),
        items(append_item(m, k, x), k) == items(m, k).push(x),
        forall|t: Seq<char>| t != k ==> items(append_item(m, k, x), t) == items(m, t),
{
    lemma_upsert(m, k, items(m, k).push(x));
}

/// After appending `x` to the list of `k`, a list holds what it held, and
/// the list of `k` holds `x` besides.
pub proof fn lemma_append_item_contains<T>(
    m: Seq<(Seq<char>, Seq<T>)>,
    k: Seq<char>,
    x: T,
    t: Seq<char>,
    y: T,
)
    requires
        distinct_keys(m),
    ensures
        distinct_keys(append_item(m, k, x)),
        items(append_item(m, k, x), t).contains(y) <==> (items(m, t).contains(y) || (t == k && y
            == x)),
{
    lemma_append_item(m, k, x);
    if t == k {
        let old = items(m, k);
        let now = old.push(x);
        if now.contains(y) {
            let j = choose|j: int| 0 <= j < now.len() && now[j] == y;
            if j < old.len() {
                assert(old[j] == y);
            }
        }
        if old.contains(y) {
            let j = choose|j: int| 0 <= j < old.len() && old[j] == y;
            assert(now[j] == y);
        }
        if y == x {
            assert(now[old.len() as int] == y);
        }
    }
}

/// Replacing one count changes the total by the difference.
pub proof fn lemma_total_update(m: Seq<(Seq<char>, u32)>, i: int, c: u32)
    requires
        0 <= i < m.len(),
    ensures
        total(m.update(i, (m[i].0, c))) == total(m) - m[i].1 + c,
    decreases m.len(),
{
    let u = m.update(i, (m[i].0, c));
    if i == m.len() - 1 {
        assert(u.drop_last() =~= m.drop_last());
    } else {
        assert(u.drop_last() =~= m.drop_last().update(i, (m[i].0, c)));
        lemma_total_update(m.drop_last(), i, c);
    }
}

/// Counting one more occurrence of `k` raises the total by one.
pub proof fn lemma_total_bump(m: Seq<(Seq<char>, u32)>, k: Seq<char>)
    requires
        distinct_keys(m),
        count(m, k) < u32::MAX,
    ensures
        total(upsert(m, k, (count(m, k) + 1) as u32)) == total(m) + 1,
        count(m, k) <= total(m),
{
    let c = (count(m, k) + 1) as u32;
    if has_key(m, k) {
        let i = index_of_key(m, k);
        lemma_total_update(m, i, c);
        lemma_total_update(m, i, 0);
    } else {
        assert(m.push((k, c)).drop_last() =~= m);
    }
}

/// No count exceeds the total.
pub proof fn lemma_count_le_total(m: Seq<(Seq<char>, u32)>, k: Seq<char>)
    ensures
        count(m, k) <= total(m),
{
    if has_key(m, k) {
        let i = index_of_key(m, k);
        lemma_total_update(m, i, 0);
    }
}

impl StrMap<u32> {
    /// Counts one more occurrence of `key`.
    pub fn bump(&mut self, key: &str)
        requires
            count(old(self)@, key@) < u32::MAX,
        ensures
            final(self)@ == upsert(old(self)@, key@, (count(old(self)@, key@) + 1) as u32),
    {
        match self.find(key) {
            Some(i) => {
                let c = *self.value(i);
                self.set(i, c + 1);
            },
            None => {
                self.insert(key.to_owned(), 1);
            },
        }
    }
}

impl<T> StrMap<Vec<T>> {
    /// Appends `item` to the list of `key`, which starts empty.
    pub fn push_item(&mut self, key: &str, item: T)
        ensures
            lists(final(self)@) == append_item(lists(old(self)@), key@, item),
    {
        proof {
            use_type_invariant(&*self);
        }
        let found = self.find(key);
        let ghost before = lists(self@);
        let mut taken = StrMap::new();
        std::mem::swap(self, &mut taken);
        let StrMap { entries: mut entries, slots: mut slots } = taken;
        let ghost old_entries = entries@;
        match found {
            Some(i) => {
                proof {
                    assert(before[i as int].0 == key@);
                    lemma_lookup_at(before, i as int);
                }
                entries[i].1.push(item);
                assert(slots_ok(entries@, slots@)) by {
                    assert forall|t: int| 0 <= t < entries@.len() implies slots@.contains_key(
                        key_hash((#[trigger] entries@[t]).0@),
                    ) && listed(slots@[key_hash(entries@[t].0@)]@, t) by {
                        assert(old_entries[t].0 == entries@[t].0);
                    }
                }
            },
            None => {
                proof {
                    if has_key(before, key@) {
                        let j = index_of_key(before, key@);
                        assert(old(self)@[j].0 == key@);
                    }
                }
                let mut list: Vec<T> = Vec::new();
                list.push(item);
                add_entry(&mut entries, &mut slots, key.to_owned(), list);
            },
        }
        let ghost after = entries_view(entries@);
        assert(lists(after) =~= append_item(before, key@, item));
        assert(distinct_keys(after)) by {
            lemma_upsert(before, key@, items(before, key@).push(item));
            assert forall|a: int, b: int| 0 <= a < b < after.len() implies (#[trigger] after[a]).0
                != (#[trigger] after[b]).0 by {
                assert(lists(after)[a].0 != lists(after)[b].0);
            }
        }
        *self = StrMap { entries, slots };
    }
}

} // verus!
