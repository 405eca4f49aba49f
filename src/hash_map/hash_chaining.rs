//! A hash map that resolves collisions by chaining: an array of buckets,
//! each a linked list of the pairs whose keys hash to it. The array doubles
//! whenever an insertion would bring the load factor to 3/4.
use crate::hash_key::HashKey;
use crate::hash_map::hash_linked_list::{has_key, key_at, keys_distinct, HashLinkedList};
use vstd::prelude::*;

verus! {

pub struct HashMap<K, V> {
    // An array of linked lists (chained hash table).
    hash_array: Vec<HashLinkedList<K, V>>,
    // The current number of key-value pairs in the hash map.
    size: usize,
}

/// The bucket for a key with view `k` among `n` buckets.
pub open spec fn slot<K: HashKey>(n: int, k: K::V) -> int {
    (K::hash_spec(k) as usize) as int % n
}

/// The map held by a list of pairs with distinct keys.
pub open spec fn pairs_map<K: View, V>(s: Seq<(K, V)>) -> Map<K::V, V>
    decreases s.len(),
{
    if s.len() == 0 {
        Map::empty()
    } else {
        pairs_map(s.drop_first()).insert(s[0].0@, s[0].1)
    }
}

/// The map held by an array of buckets.
pub open spec fn buckets_map<K: View, V>(arr: Seq<HashLinkedList<K, V>>) -> Map<K::V, V>
    decreases arr.len(),
{
    if arr.len() == 0 {
        Map::empty()
    } else {
        buckets_map(arr.drop_last()).union_prefer_right(pairs_map(arr.last()@))
    }
}

/// The number of pairs in an array of buckets.
pub open spec fn total<K, V>(arr: Seq<HashLinkedList<K, V>>) -> nat
    decreases arr.len(),
{
    if arr.len() == 0 {
        0
    } else {
        total(arr.drop_last()) + arr.last()@.len()
    }
}

/// Every bucket holds distinct keys, each in the bucket it hashes to among
/// `n` buckets.
pub open spec fn buckets_placed<K: HashKey, V>(arr: Seq<HashLinkedList<K, V>>, n: int) -> bool {
    &&& forall|b: int| 0 <= b < arr.len() ==> keys_distinct(#[trigger] arr[b]@)
    &&& forall|b: int, i: int|
        0 <= b < arr.len() && 0 <= i < arr[b]@.len() ==> slot::<K>(n, #[trigger] arr[b]@[i].0@)
            == b
}

proof fn lemma_pairs_map<K: View, V>(s: Seq<(K, V)>)
    requires
        keys_distinct(s),
    ensures
        forall|k: K::V| #[trigger] pairs_map(s).contains_key(k) == has_key(s, k),
        forall|i: int| 0 <= i < s.len() ==> pairs_map(s)[#[trigger] s[i].0@] == s[i].1,
    decreases s.len(),
{
    if s.len() > 0 {
        let t = s.drop_first();
        assert forall|i: int, j: int|
            0 <= i < t.len() && 0 <= j < t.len() && i != j implies t[i].0@ != t[j].0@ by {
            assert(t[i] == s[i + 1] && t[j] == s[j + 1]);
        }
        lemma_pairs_map(t);
        assert(pairs_map(s) == pairs_map(t).insert(s[0].0@, s[0].1));
        assert(key_at(s, s[0].0@, 0));
        assert forall|k: K::V| #[trigger] pairs_map(s).contains_key(k) == has_key(s, k) by {
            if has_key(t, k) {
                let i = choose|i: int| key_at(t, k, i);
                assert(t[i] == s[i + 1]);
                assert(key_at(s, k, i + 1));
            }
            if has_key(s, k) && k != s[0].0@ {
                let i = choose|i: int| key_at(s, k, i);
                assert(i != 0);
                assert(t[i - 1] == s[i]);
                assert(key_at(t, k, i - 1));
            }
        }
        assert forall|i: int| 0 <= i < s.len() implies pairs_map(s)[#[trigger] s[i].0@] == s[i].1 by {
            if i > 0 {
                assert(s[i] == t[i - 1]);
                assert(key_at(t, s[i].0@, i - 1));
                assert(s[i].0@ != s[0].0@);
            }
        }
    }
}

proof fn lemma_buckets_map<K: HashKey, V>(arr: Seq<HashLinkedList<K, V>>, n: int)
    requires
        n > 0,
        buckets_placed(arr, n),
    ensures
        forall|k: K::V| #[trigger]
            buckets_map(arr).contains_key(k) == (slot::<K>(n, k) < arr.len() && has_key(
                arr[slot::<K>(n, k)]@,
                k,
            )),
        forall|b: int, i: int|
            0 <= b < arr.len() && 0 <= i < arr[b]@.len() ==> buckets_map(arr)[#[trigger] arr[b]@[i].0@]
                == arr[b]@[i].1,
    decreases arr.len(),
{
    if arr.len() > 0 {
        let p = arr.drop_last();
        let last = arr.len() - 1;
        assert(buckets_placed(p, n)) by {
            assert forall|b: int| 0 <= b < p.len() implies keys_distinct(#[trigger] p[b]@) by {
                assert(p[b] == arr[b]);
            }
            assert forall|b: int, i: int| 0 <= b < p.len() && 0 <= i < p[b]@.len() implies slot::<K>(
                n,
                #[trigger] p[b]@[i].0@,
            ) == b by {
                assert(p[b] == arr[b]);
            }
        }
        lemma_buckets_map(p, n);
        assert(keys_distinct(arr[last]@));
        lemma_pairs_map(arr[last]@);
        assert(buckets_map(arr) == buckets_map(p).union_prefer_right(pairs_map(arr[last]@)));
        assert forall|k: K::V| #[trigger]
            buckets_map(arr).contains_key(k) == (slot::<K>(n, k) < arr.len() && has_key(
                arr[slot::<K>(n, k)]@,
                k,
            )) by {
            let sk = slot::<K>(n, k);
            if has_key(arr[last]@, k) {
                let i = choose|i: int| key_at(arr[last]@, k, i);
                assert(slot::<K>(n, arr[last]@[i].0@) == last);
                assert(sk == last);
            }
            if 0 <= sk < p.len() {
                assert(p[sk] == arr[sk]);
            }
        }
        assert forall|b: int, i: int|
            0 <= b < arr.len() && 0 <= i < arr[b]@.len() implies buckets_map(arr)[#[trigger] arr[b]@[i].0@]
                == arr[b]@[i].1 by {
            let k = arr[b]@[i].0@;
            assert(slot::<K>(n, k) == b);
            if b < last {
                assert(p[b] == arr[b]);
                assert(p[b]@[i].0@ == k);
                if has_key(arr[last]@, k) {
                    let j = choose|j: int| key_at(arr[last]@, k, j);
                    assert(slot::<K>(n, arr[last]@[j].0@) == last);
                }
                assert(!pairs_map(arr[last]@).contains_key(k));
                assert(buckets_map(p)[p[b]@[i].0@] == p[b]@[i].1);
                assert(key_at(p[b]@, k, i));
                assert(buckets_map(p).contains_key(k));
            } else {
                assert(key_at(arr[last]@, k, i));
                assert(pairs_map(arr[last]@)[arr[last]@[i].0@] == arr[last]@[i].1);
            }
        }
    }
}

proof fn lemma_total_update<K, V>(arr: Seq<HashLinkedList<K, V>>, b: int, x: HashLinkedList<K, V>)
    requires
        0 <= b < arr.len(),
    ensures
        total(arr.update(b, x)) == total(arr) - arr[b]@.len() + x@.len(),
    decreases arr.len(),
{
    let u = arr.update(b, x);
    if b < arr.len() - 1 {
        assert(u.drop_last() =~= arr.drop_last().update(b, x));
        lemma_total_update(arr.drop_last(), b, x);
    } else {
        assert(u.drop_last() =~= arr.drop_last());
    }
}

proof fn lemma_total_zero<K, V>(arr: Seq<HashLinkedList<K, V>>)
    requires
        total(arr) == 0,
    ensures
        forall|b: int| 0 <= b < arr.len() ==> (#[trigger] arr[b])@.len() == 0,
    decreases arr.len(),
{
    if arr.len() > 0 {
        lemma_total_zero(arr.drop_last());
        assert forall|b: int| 0 <= b < arr.len() implies (#[trigger] arr[b])@.len() == 0 by {
            if b < arr.len() - 1 {
                assert(arr[b] == arr.drop_last()[b]);
            }
        }
    }
}

/// The number of buckets an insertion into a map of `pairs` pairs in
/// `buckets` buckets leaves: two where there were none, and twice as many
/// where one more pair would bring the load factor to 3/4 (unless doubling
/// would overflow `usize`).
pub open spec fn grown_bucket_count(pairs: nat, buckets: nat) -> nat {
    let n = if buckets == 0 {
        2
    } else {
        buckets
    };
    if 4 * (pairs + 1) >= 3 * n && n <= usize::MAX / 2 {
        2 * n
    } else {
        n
    }
}

/// Doubling the buckets as `grown_bucket_count` does keeps the load factor
/// below 3/4: a map that was below it, or empty, is below it after one more
/// pair.
pub proof fn lemma_load_factor_kept(pairs: nat, buckets: nat)
    requires
        pairs == 0 || 4 * pairs < 3 * buckets,
        buckets <= usize::MAX / 2,
    ensures
        4 * (pairs + 1) < 3 * grown_bucket_count(pairs, buckets),
{
}

impl<K: HashKey, V> View for HashMap<K, V> {
    type V = Map<K::V, V>;

    /// The map from key views to values.
    closed spec fn view(&self) -> Map<K::V, V> {
        buckets_map(self.hash_array@)
    }
}

impl<K: HashKey, V> HashMap<K, V> {
    /// Each pair sits in the bucket its key hashes to, no bucket holds two
    /// keys with the same view, and `size` counts the pairs.
    pub closed spec fn well_formed(&self) -> bool {
        &&& buckets_placed(self.hash_array@, self.hash_array@.len() as int)
        &&& self.size == total(self.hash_array@)
    }

    /// The number of stored pairs.
    pub closed spec fn pair_count(&self) -> nat {
        self.size as nat
    }

    /// The number of buckets.
    pub closed spec fn bucket_count(&self) -> nat {
        self.hash_array@.len()
    }

    /// An empty map with no buckets; the first insertion makes two.
    pub fn new() -> (map: HashMap<K, V>)
        ensures
            map.well_formed(),
            map@ == Map::<K::V, V>::empty(),
            map.pair_count() == 0,
            map.bucket_count() == 0,
    {
        let hash_array = Vec::new();
        HashMap { hash_array, size: 0 }
    }

    /// An empty map with `capacity` buckets.
    pub fn with_capacity(capacity: usize) -> (map: HashMap<K, V>)
        ensures
            map.well_formed(),
            map@ == Map::<K::V, V>::empty(),
            map.pair_count() == 0,
            map.bucket_count() == capacity,
    {
        let hash_array = Self::initialize_hash_array(capacity);
        let map = HashMap { hash_array, size: 0 };
        proof {
            Self::lemma_empty_buckets(map.hash_array@);
        }
        map
    }

    proof fn lemma_empty_buckets(arr: Seq<HashLinkedList<K, V>>)
        requires
            forall|b: int| 0 <= b < arr.len() ==> (#[trigger] arr[b])@.len() == 0,
        ensures
            buckets_placed(arr, arr.len() as int),
            total(arr) == 0,
            buckets_map(arr) == Map::<K::V, V>::empty(),
        decreases arr.len(),
    {
        if arr.len() > 0 {
            let p = arr.drop_last();
            assert forall|b: int| 0 <= b < p.len() implies (#[trigger] p[b])@.len() == 0 by {
                assert(p[b] == arr[b]);
            }
            Self::lemma_empty_buckets(p);
            assert(arr.last()@ =~= Seq::<(K, V)>::empty());
            assert(pairs_map(arr.last()@) == Map::<K::V, V>::empty());
            assert(buckets_map(arr) =~= Map::<K::V, V>::empty());
        }
    }

    fn initialize_hash_array(capacity: usize) -> (arr: Vec<HashLinkedList<K, V>>)
        ensures
            arr@.len() == capacity,
            forall|b: int| 0 <= b < arr@.len() ==> (#[trigger] arr@[b])@ == Seq::<(K, V)>::empty(),
    {
        let mut arr: Vec<HashLinkedList<K, V>> = Vec::new();
        let mut i: usize = 0;
        while i < capacity
            invariant
                i <= capacity,
                arr@.len() == i,
                forall|b: int| 0 <= b < arr@.len() ==> (#[trigger] arr@[b])@ == Seq::<(K, V)>::empty(),
            decreases capacity - i,
        {
            arr.push(HashLinkedList::new());
            i += 1;
        }
        arr
    }

    /// The bucket of `key`.
    fn bucket_index(&self, key: &K) -> (index: usize)
        requires
            self.hash_array@.len() > 0,
        ensures
            index == slot::<K>(self.hash_array@.len() as int, key@),
    {
        let hash_value = key.key_hash();
        let bucket_index = (hash_value as usize) % self.hash_array.len();
        bucket_index
    }

    /// Stores the pair in its bucket, leaving the number of buckets alone.
    fn insert_into_bucket(&mut self, key: K, value: V) -> (r: Option<V>)
        requires
            old(self).well_formed(),
            old(self).hash_array@.len() > 0,
            old(self).size < usize::MAX,
        ensures
            final(self).well_formed(),
            final(self).hash_array@.len() == old(self).hash_array@.len(),
            final(self)@ == old(self)@.insert(key@, value),
            r == if old(self)@.contains_key(key@) {
                Some(old(self)@[key@])
            } else {
                None
            },
            final(self).size == old(self).size + if r is None {
                1int
            } else {
                0
            },
    {
        let n = self.hash_array.len();
        let ghost arr = self.hash_array@;
        let ghost kv = key@;
        proof {
            lemma_buckets_map(arr, n as int);
        }
        let index = self.bucket_index(&key);
        let ghost bucket = arr[index as int]@;
        let old_value = self.hash_array[index].insert(key, value);
        if old_value.is_none() {
            self.size += 1;
        }
        proof {
            let new_arr = self.hash_array@;
            assert(new_arr =~= arr.update(index as int, new_arr[index as int]));
            lemma_total_update(arr, index as int, new_arr[index as int]);
            let nb = new_arr[index as int]@;
            assert forall|i: int| 0 <= i < nb.len() implies slot::<K>(n as int, #[trigger] nb[i].0@)
                == index by {
                if has_key(bucket, kv) {
                    if i < bucket.len() {
                        assert(nb[i].0@ == bucket[i].0@);
                    }
                } else if i < bucket.len() {
                    assert(nb[i] == bucket[i]);
                }
            }
            assert(buckets_placed(new_arr, n as int)) by {
                assert forall|b: int, i: int|
                    0 <= b < new_arr.len() && 0 <= i < new_arr[b]@.len() implies slot::<K>(
                    n as int,
                    #[trigger] new_arr[b]@[i].0@,
                ) == b by {
                    if b != index {
                        assert(new_arr[b] == arr[b]);
                    }
                }
                assert forall|b: int| 0 <= b < new_arr.len() implies keys_distinct(
                    #[trigger] new_arr[b]@,
                ) by {
                    if b != index {
                        assert(new_arr[b] == arr[b]);
                    }
                }
            }
            lemma_buckets_map(new_arr, n as int);
            if has_key(bucket, kv) {
                let i = choose|i: int| key_at(bucket, kv, i);
                assert(old(self)@[kv] == bucket[i].1);
            }
            assert forall|k: K::V| #[trigger] self@.contains_key(k) == old(self)@.insert(
                kv,
                value,
            ).contains_key(k) by {
                let s = slot::<K>(n as int, k);
                if s == index && k != kv {
                    if has_key(nb, k) {
                        let i = choose|i: int| key_at(nb, k, i);
                        if i < bucket.len() {
                            assert(key_at(bucket, k, i));
                        }
                    }
                    if has_key(bucket, k) {
                        let i = choose|i: int| key_at(bucket, k, i);
                        assert(key_at(nb, k, i));
                    }
                }
                if k == kv {
                    if has_key(bucket, kv) {
                        let i = choose|i: int| key_at(bucket, kv, i);
                        assert(key_at(nb, kv, i));
                    } else {
                        assert(key_at(nb, kv, bucket.len() as int));
                    }
                }
                if s != index {
                    assert(new_arr[s] == arr[s]);
                }
            }
            assert forall|k: K::V| #[trigger] self@.contains_key(k) implies self@[k] == old(
                self,
            )@.insert(kv, value)[k] by {
                let s = slot::<K>(n as int, k);
                let i = choose|i: int| key_at(new_arr[s]@, k, i);
                assert(self@[k] == new_arr[s]@[i].1);
                if s != index {
                    assert(new_arr[s] == arr[s]);
                    assert(old(self)@[k] == arr[s]@[i].1);
                } else if k != kv {
                    if i < bucket.len() {
                        assert(nb[i] == bucket[i]);
                        assert(old(self)@[k] == bucket[i].1);
                    }
                } else {
                    if has_key(bucket, kv) {
                        let j = choose|j: int| key_at(bucket, kv, j);
                        assert(key_at(nb, kv, j));
                    } else {
                        assert(key_at(nb, kv, bucket.len() as int));
                    }
                }
            }
            assert(self@ =~= old(self)@.insert(kv, value));
        }
        old_value
    }

    /// Stores `value` under `key` and returns the value it replaced, if
    /// any. The array of buckets is made (two buckets) when there is none,
    /// and doubled first when the insertion would bring the load factor to
    /// 3/4.
    pub fn insert(&mut self, key: K, value: V) -> (r: Option<V>)
        requires
            old(self).well_formed(),
            old(self).pair_count() < usize::MAX,
        ensures
            final(self).well_formed(),
            final(self)@ == old(self)@.insert(key@, value),
            r == if old(self)@.contains_key(key@) {
                Some(old(self)@[key@])
            } else {
                None
            },
            final(self).pair_count() == old(self).pair_count() + if r is None {
                1int
            } else {
                0
            },
            final(self).bucket_count() == grown_bucket_count(
                old(self).pair_count(),
                old(self).bucket_count(),
            ),
    {
        if self.hash_array.len() == 0 {
            self.hash_array = Self::initialize_hash_array(2);
            proof {
                Self::lemma_empty_buckets(self.hash_array@);
                assert(old(self)@ =~= Map::<K::V, V>::empty());
            }
        }
        if (self.size as u128 + 1) * 4 >= (self.hash_array.len() as u128) * 3
            && self.hash_array.len() <= usize::MAX / 2 {
            self.rehash();
        }
        self.insert_into_bucket(key, value)
    }

    /// The value stored under `key`, if any.
    pub fn get(&self, key: &K) -> (r: Option<&V>)
        requires
            self.well_formed(),
        ensures
            r == if self@.contains_key(key@) {
                Some(&self@[key@])
            } else {
                None
            },
    {
        if self.size == 0 {
            proof {
                lemma_total_zero(self.hash_array@);
                Self::lemma_empty_buckets(self.hash_array@);
            }
            return None;
        }
        proof {
            if self.hash_array@.len() == 0 {
                assert(total(self.hash_array@) == 0);
            }
            lemma_buckets_map(self.hash_array@, self.hash_array@.len() as int);
        }
        let index = self.bucket_index(&key);
        let bucket = &self.hash_array[index];
        bucket.get(key)
    }

    /// Removes the pair stored under `key` and returns its value, if any.
    pub fn remove(&mut self, key: &K) -> (r: Option<V>)
        requires
            old(self).well_formed(),
        ensures
            final(self).well_formed(),
            final(self)@ == old(self)@.remove(key@),
            r == if old(self)@.contains_key(key@) {
                Some(old(self)@[key@])
            } else {
                None
            },
            final(self).pair_count() + (if r is Some {
                1int
            } else {
                0
            }) == old(self).pair_count(),
            final(self).bucket_count() == old(self).bucket_count(),
    {
        if self.size == 0 {
            proof {
                lemma_total_zero(self.hash_array@);
                Self::lemma_empty_buckets(self.hash_array@);
                assert(old(self)@.remove(key@) =~= old(self)@);
            }
            return None;
        }
        let ghost arr = self.hash_array@;
        let ghost kv = key@;
        let n = self.hash_array.len();
        proof {
            if n == 0 {
                assert(total(arr) == 0);
            }
            lemma_buckets_map(arr, n as int);
        }
        let index = self.bucket_index(key);
        let ghost bucket = arr[index as int]@;
        let removed_value = self.hash_array[index].remove(key);
        if removed_value.is_some() {
            proof {
                lemma_total_update(arr, index as int, self.hash_array@[index as int]);
                assert(self.hash_array@ =~= arr.update(index as int, self.hash_array@[index as int]));
            }
            self.size -= 1;
        }
        proof {
            let new_arr = self.hash_array@;
            assert(new_arr =~= arr.update(index as int, new_arr[index as int]));
            lemma_total_update(arr, index as int, new_arr[index as int]);
            let nb = new_arr[index as int]@;
            assert(buckets_placed(new_arr, n as int)) by {
                assert forall|b: int, i: int|
                    0 <= b < new_arr.len() && 0 <= i < new_arr[b]@.len() implies slot::<K>(
                    n as int,
                    #[trigger] new_arr[b]@[i].0@,
                ) == b by {
                    if b != index {
                        assert(new_arr[b] == arr[b]);
                    } else if has_key(bucket, kv) {
                        let j = choose|j: int| key_at(bucket, kv, j) && nb == bucket.remove(j);
                        if i < j {
                            assert(nb[i] == bucket[i]);
                        } else {
                            assert(nb[i] == bucket[i + 1]);
                        }
                    }
                }
                assert forall|b: int| 0 <= b < new_arr.len() implies keys_distinct(
                    #[trigger] new_arr[b]@,
                ) by {
                    if b != index {
                        assert(new_arr[b] == arr[b]);
                    }
                }
            }
            lemma_buckets_map(new_arr, n as int);
            if has_key(bucket, kv) {
                let i = choose|i: int| key_at(bucket, kv, i);
                assert(old(self)@[kv] == bucket[i].1);
            }
            assert forall|k: K::V| #[trigger] self@.contains_key(k) == old(self)@.remove(
                kv,
            ).contains_key(k) by {
                let s = slot::<K>(n as int, k);
                if s != index {
                    assert(new_arr[s] == arr[s]);
                } else if has_key(bucket, kv) {
                    let j = choose|j: int| key_at(bucket, kv, j) && nb == bucket.remove(j);
                    if has_key(nb, k) {
                        let i = choose|i: int| key_at(nb, k, i);
                        if i < j {
                            assert(key_at(bucket, k, i));
                        } else {
                            assert(key_at(bucket, k, i + 1));
                        }
                    }
                    if has_key(bucket, k) && k != kv {
                        let i = choose|i: int| key_at(bucket, k, i);
                        if i < j {
                            assert(key_at(nb, k, i));
                        } else {
                            assert(key_at(nb, k, i - 1));
                        }
                    }
                }
            }
            assert forall|k: K::V| #[trigger] self@.contains_key(k) implies self@[k] == old(
                self,
            )@[k] by {
                let s = slot::<K>(n as int, k);
                let i = choose|i: int| key_at(new_arr[s]@, k, i);
                assert(self@[k] == new_arr[s]@[i].1);
                if s != index {
                    assert(new_arr[s] == arr[s]);
                    assert(old(self)@[k] == arr[s]@[i].1);
                } else if has_key(bucket, kv) {
                    let j = choose|j: int| key_at(bucket, kv, j) && nb == bucket.remove(j);
                    if i < j {
                        assert(old(self)@[k] == bucket[i].1);
                    } else {
                        assert(old(self)@[k] == bucket[i + 1].1);
                    }
                }
            }
            assert(self@ =~= old(self)@.remove(kv));
        }
        removed_value
    }

    /// Doubles the number of buckets and moves every pair to the bucket it
    /// hashes to among the new ones.
    fn rehash(&mut self)
        requires
            old(self).well_formed(),
            old(self).hash_array@.len() > 0,
            old(self).hash_array@.len() * 2 <= usize::MAX,
        ensures
            final(self).well_formed(),
            final(self)@ == old(self)@,
            final(self).size == old(self).size,
            final(self).hash_array@.len() == old(self).hash_array@.len() * 2,
    {
        let ghost whole = self@;
        let ghost old_n = self.hash_array@.len() as int;
        let ghost orig = self.hash_array@;
        let ghost orig_size = self.size as int;
        let new_capacity = self.hash_array.len() * 2;
        let mut old_hash_array = Self::initialize_hash_array(new_capacity);
        std::mem::swap(&mut self.hash_array, &mut old_hash_array);
        self.size = 0;
        proof {
            Self::lemma_empty_buckets(self.hash_array@);
            assert(old_hash_array@.subrange(0, old_n) =~= orig);
        }
        while old_hash_array.len() > 0
            invariant
                self.well_formed(),
                self.hash_array@.len() == new_capacity,
                new_capacity == old_n * 2,
                old_n == orig.len(),
                old_n > 0,
                buckets_placed(orig, old_n),
                whole == buckets_map(orig),
                orig_size == total(orig),
                old_hash_array@.len() <= old_n,
                old_hash_array@ == orig.subrange(0, old_hash_array@.len() as int),
                orig_size <= usize::MAX,
                self.size + total(old_hash_array@) == orig_size,
                whole == self@.union_prefer_right(buckets_map(old_hash_array@)),
                self@.dom().disjoint(buckets_map(old_hash_array@).dom()),
            decreases old_hash_array@.len(),
        {
            let ghost before = old_hash_array@;
            let bucket = old_hash_array.pop().unwrap();
            let ghost rest = old_hash_array@;
            proof {
                assert(rest =~= before.drop_last());
                assert(rest =~= orig.subrange(0, rest.len() as int));
                assert(bucket == before.last());
                assert(bucket == orig[rest.len() as int]);
                assert(keys_distinct(bucket@));
                assert(buckets_placed(rest, old_n)) by {
                    assert forall|b: int| 0 <= b < rest.len() implies keys_distinct(#[trigger] rest[b]@) by {
                        assert(rest[b] == orig[b]);
                    }
                    assert forall|b: int, i: int| 0 <= b < rest.len() && 0 <= i < rest[b]@.len() implies slot::<K>(
                        old_n,
                        #[trigger] rest[b]@[i].0@,
                    ) == b by {
                        assert(rest[b] == orig[b]);
                    }
                }
                lemma_buckets_map(rest, old_n);
                lemma_pairs_map(bucket@);
                assert forall|k: K::V| #[trigger] pairs_map(bucket@).contains_key(k) implies !buckets_map(
                    rest,
                ).contains_key(k) by {
                    let i = choose|i: int| key_at(bucket@, k, i);
                    assert(slot::<K>(old_n, orig[rest.len() as int]@[i].0@) == rest.len());
                }
            }
            let mut it = bucket.into_iter();
            loop
                invariant
                    self.well_formed(),
                    self.hash_array@.len() == new_capacity,
                    new_capacity == old_n * 2,
                    old_n == orig.len(),
                    old_n > 0,
                    buckets_placed(orig, old_n),
                    buckets_placed(rest, old_n),
                    whole == buckets_map(orig),
                    orig_size == total(orig),
                    orig_size <= usize::MAX,
                    old_hash_array@ == rest,
                    rest.len() < old_n,
                    rest == orig.subrange(0, rest.len() as int),
                    keys_distinct(it@),
                    self.size + total(rest) + it@.len() == orig_size,
                    whole == self@.union_prefer_right(buckets_map(rest)).union_prefer_right(
                        pairs_map(it@),
                    ),
                    self@.dom().disjoint(buckets_map(rest).dom()),
                    self@.dom().disjoint(pairs_map(it@).dom()),
                    buckets_map(rest).dom().disjoint(pairs_map(it@).dom()),
                ensures
                    self.well_formed(),
                    self.hash_array@.len() == new_capacity,
                    self.size + total(rest) == orig_size,
                    whole == self@.union_prefer_right(buckets_map(rest)),
                    self@.dom().disjoint(buckets_map(rest).dom()),
                decreases it@.len(),
            {
                let ghost items = it@;
                match it.next() {
                    None => {
                        proof {
                            assert(pairs_map(items) == Map::<K::V, V>::empty());
                            assert(whole =~= self@.union_prefer_right(buckets_map(rest)));
                        }
                        break;
                    },
                    Some((key, value)) => {
                        let ghost kv = key@;
                        let ghost tail = it@;
                        proof {
                            assert(tail =~= items.drop_first());
                            assert(pairs_map(items) == pairs_map(tail).insert(kv, value));
                            assert forall|i: int, j: int|
                                0 <= i < tail.len() && 0 <= j < tail.len() && i != j implies tail[i].0@
                                    != tail[j].0@ by {
                                assert(tail[i] == items[i + 1] && tail[j] == items[j + 1]);
                            }
                            lemma_pairs_map(items);
                            lemma_pairs_map(tail);
                            assert(!pairs_map(tail).contains_key(kv)) by {
                                if has_key(tail, kv) {
                                    let i = choose|i: int| key_at(tail, kv, i);
                                    assert(items[i + 1] == tail[i]);
                                    assert(items[0].0@ == kv);
                                }
                            }
                            assert(pairs_map(items).contains_key(kv));
                            assert(!self@.contains_key(kv));
                        }
                        let r = self.insert_into_bucket(key, value);
                        proof {
                            assert(self@.dom().disjoint(buckets_map(rest).dom()));
                            assert(self@.dom().disjoint(pairs_map(tail).dom()));
                            assert(whole =~= self@.union_prefer_right(buckets_map(rest)).union_prefer_right(
                                pairs_map(tail),
                            ));
                        }
                    },
                }
            }
        }
        proof {
            assert(buckets_map(old_hash_array@) =~= Map::<K::V, V>::empty());
            assert(whole =~= self@);
        }
    }
}

} // verus!
