use vstd::prelude::*;

verus! {

/// One step of the hasher: mix in one byte, then multiply by the FNV prime.
pub open spec fn mix_byte(h: u64, b: u8) -> u64 {
    (h ^ (b as u64)).wrapping_mul(0x100000001b3u64)
}

/// The hasher's state after it has been fed `bytes`, starting from `h`.
pub open spec fn mix_bytes(h: u64, bytes: Seq<u8>) -> u64
    decreases bytes.len(),
{
    if bytes.len() == 0 {
        h
    } else {
        mix_byte(mix_bytes(h, bytes.drop_last()), bytes.last())
    }
}

/// The eight bytes of a key, least significant first.
pub open spec fn key_bytes(key: u64) -> Seq<u8> {
    Seq::new(8, |i: int| ((key >> (8 * i) as u64) & 0xffu64) as u8)
}

/// The bucket that `key` falls in, among `n` buckets, under `seed`.
pub open spec fn slot_of(seed: u64, key: u64, n: int) -> int {
    (mix_bytes(seed, key_bytes(key)) as usize) as int % n
}

/// The seed from which each of a map's hashers starts.
#[derive(Clone, Copy)]
pub struct RandomState(pub u64);

impl RandomState {
    /// A hasher builder for the given seed (drawn at random by the caller).
    pub fn new(seed: u64) -> (r: Self)
        ensures
            r.0 == seed,
    {
        RandomState(seed)
    }

    pub fn build_hasher(&self) -> (r: SimpleHasher)
        ensures
            r.0 == self.0,
    {
        SimpleHasher::new(self.0)
    }
}

/// A byte-wise multiplicative hasher in the style of FNV-1a.
pub struct SimpleHasher(pub u64);

impl SimpleHasher {
    pub fn new(seed: u64) -> (r: Self)
        ensures
            r.0 == seed,
    {
        SimpleHasher(seed)
    }

    /// Feeds `bytes` to the hasher.
    pub fn write(&mut self, bytes: &[u8])
        ensures
            final(self).0 == mix_bytes(old(self).0, bytes@),
    {
        let mut hash = self.0;
        let mut i: usize = 0;
        while i < bytes.len()
            invariant
                0 <= i <= bytes@.len(),
                hash == mix_bytes(old(self).0, bytes@.subrange(0, i as int)),
            decreases bytes@.len() - i,
        {
            let byte = bytes[i];
            proof {
                let next = bytes@.subrange(0, i + 1);
                assert(next.drop_last() =~= bytes@.subrange(0, i as int));
            }
            hash = hash ^ (byte as u64);
            hash = hash.wrapping_mul(0x100000001b3u64);
            i = i + 1;
        }
        assert(bytes@.subrange(0, bytes@.len() as int) =~= bytes@);
        self.0 = hash;
    }

    pub fn finish(&self) -> (r: u64)
        ensures
            r == self.0,
    {
        self.0
    }
}

/// The eight bytes of `key`, least significant first.
fn key_to_bytes(key: u64) -> (r: Vec<u8>)
    ensures
        r@ == key_bytes(key),
{
    let mut r: Vec<u8> = Vec::new();
    let mut i: u64 = 0;
    while i < 8
        invariant
            0 <= i <= 8,
            r@.len() == i,
            forall|j: int| 0 <= j < i ==> r@[j] == key_bytes(key)[j],
        decreases 8 - i,
    {
        r.push(((key >> (8 * i)) & 0xff) as u8);
        i = i + 1;
    }
    assert(r@ =~= key_bytes(key));
    r
}

/// Whether some entry of `bucket` has key `key`.
pub open spec fn bucket_has<V>(bucket: Seq<(u64, V)>, key: u64) -> bool {
    exists|j: int| 0 <= j < bucket.len() && (#[trigger] bucket[j]).0 == key
}

/// The buckets `t` hold exactly the entries of `m`: each entry in the slot
/// of its key under `seed`, with its value, and no key twice.
pub open spec fn table_holds<V>(t: Seq<Vec<(u64, V)>>, seed: u64, m: Map<u64, V>) -> bool {
    &&& t.len() > 0
    &&& forall|i: int, j: int|
        0 <= i < t.len() && 0 <= j < t[i]@.len() ==> {
            &&& slot_of(seed, (#[trigger] t[i]@[j]).0, t.len() as int) == i
            &&& m.contains_key(t[i]@[j].0)
            &&& m[t[i]@[j].0] == t[i]@[j].1
        }
    &&& forall|i: int, j1: int, j2: int|
        0 <= i < t.len() && 0 <= j1 < t[i]@.len() && 0 <= j2 < t[i]@.len() && j1 != j2
            ==> (#[trigger] t[i]@[j1]).0 != (#[trigger] t[i]@[j2]).0
    &&& forall|k: u64| #[trigger]
        m.contains_key(k) ==> bucket_has(t[slot_of(seed, k, t.len() as int)]@, k)
}

/// A table of empty buckets holds the empty map.
proof fn lemma_empty_table<V>(t: Seq<Vec<(u64, V)>>, seed: u64)
    requires
        t.len() > 0,
        forall|i: int| 0 <= i < t.len() ==> (#[trigger] t[i]@).len() == 0,
    ensures
        table_holds(t, seed, Map::<u64, V>::empty()),
{
}

/// Pushing an entry with a fresh key onto the bucket of its slot adds it to
/// the map that the table holds.
proof fn lemma_table_push<V>(
    t: Seq<Vec<(u64, V)>>,
    t2: Seq<Vec<(u64, V)>>,
    seed: u64,
    m: Map<u64, V>,
    key: u64,
    value: V,
)
    requires
        table_holds(t, seed, m),
        !m.contains_key(key),
        t2.len() == t.len(),
        t2[slot_of(seed, key, t.len() as int)]@ == t[slot_of(seed, key, t.len() as int)]@.push(
            (key, value),
        ),
        forall|i: int|
            0 <= i < t.len() && i != slot_of(seed, key, t.len() as int) ==> (#[trigger] t2[i])@
                == t[i]@,
    ensures
        table_holds(t2, seed, m.insert(key, value)),
{
    let n = t.len() as int;
    let s = slot_of(seed, key, n);
    let m2 = m.insert(key, value);
    assert(0 <= s < n);
    assert forall|i: int, j: int| 0 <= i < t2.len() && 0 <= j < t2[i]@.len() implies {
        &&& slot_of(seed, (#[trigger] t2[i]@[j]).0, n) == i
        &&& m2.contains_key(t2[i]@[j].0)
        &&& m2[t2[i]@[j].0] == t2[i]@[j].1
    } by {
        if i == s && j == t[s]@.len() {
        } else {
            assert(t2[i]@[j] == t[i]@[j]);
        }
    }
    assert forall|i: int, j1: int, j2: int|
        0 <= i < t2.len() && 0 <= j1 < t2[i]@.len() && 0 <= j2 < t2[i]@.len() && j1 != j2
        implies (#[trigger] t2[i]@[j1]).0 != (#[trigger] t2[i]@[j2]).0 by {
        if i == s {
            if j1 == t[s]@.len() {
                assert(t2[i]@[j2] == t[i]@[j2]);
            } else if j2 == t[s]@.len() {
                assert(t2[i]@[j1] == t[i]@[j1]);
            } else {
                assert(t2[i]@[j1] == t[i]@[j1]);
                assert(t2[i]@[j2] == t[i]@[j2]);
            }
        }
    }
    assert forall|k: u64| #[trigger] m2.contains_key(k) implies bucket_has(
        t2[slot_of(seed, k, n)]@,
        k,
    ) by {
        if k == key {
            assert(t2[s]@[t[s]@.len() as int].0 == key);
        } else {
            let sk = slot_of(seed, k, n);
            assert(bucket_has(t[sk]@, k));
            let j = choose|j: int| 0 <= j < t[sk]@.len() && (#[trigger] t[sk]@[j]).0 == k;
            assert(t2[sk]@[j] == t[sk]@[j]);
        }
    }
}

/// Whether a table holds a map depends only on the views of its buckets.
proof fn lemma_table_same_views<V>(
    t: Seq<Vec<(u64, V)>>,
    t2: Seq<Vec<(u64, V)>>,
    seed: u64,
    m: Map<u64, V>,
)
    requires
        table_holds(t, seed, m),
        t2.len() == t.len(),
        forall|i: int| 0 <= i < t.len() ==> (#[trigger] t2[i])@ == t[i]@,
    ensures
        table_holds(t2, seed, m),
{
    assert forall|k: u64| #[trigger] m.contains_key(k) implies bucket_has(
        t2[slot_of(seed, k, t2.len() as int)]@,
        k,
    ) by {
        assert(t2[slot_of(seed, k, t.len() as int)]@ == t[slot_of(seed, k, t.len() as int)]@);
    }
}

/// The slot of `key` among `n` buckets under the seed of `state`.
fn slot_for(state: &RandomState, key: u64, n: usize) -> (r: usize)
    requires
        n > 0,
    ensures
        r == slot_of(state.0, key, n as int),
        r < n,
{
    let mut hasher = state.build_hasher();
    let bytes = key_to_bytes(key);
    hasher.write(bytes.as_slice());
    (hasher.finish() as usize) % n
}

/// A vector of `n` empty buckets.
fn empty_buckets<V>(n: usize) -> (r: Vec<Vec<(u64, V)>>)
    ensures
        r@.len() == n,
        forall|i: int| 0 <= i < n ==> (#[trigger] r@[i]@).len() == 0,
{
    let mut r: Vec<Vec<(u64, V)>> = Vec::with_capacity(n);
    let mut i: usize = 0;
    while i < n
        invariant
            0 <= i <= n,
            r@.len() == i,
            forall|j: int| 0 <= j < i ==> (#[trigger] r@[j]@).len() == 0,
        decreases n - i,
    {
        r.push(Vec::new());
        i = i + 1;
    }
    r
}

/// A hash map with `u64` keys, chained in buckets, whose hasher is seeded
/// per map.
pub struct HashMap<V> {
    buckets: Vec<Vec<(u64, V)>>,
    len: usize,
    hasher: RandomState,
    contents: Ghost<Map<u64, V>>,
}

impl<V> View for HashMap<V> {
    type V = Map<u64, V>;

    closed spec fn view(&self) -> Map<u64, V> {
        self.contents@
    }
}

impl<V> HashMap<V> {
    /// The map's invariant: the buckets hold exactly its entries, and `len`
    /// counts them.
    pub closed spec fn wf(&self) -> bool {
        &&& table_holds(self.buckets@, self.hasher.0, self.contents@)
        &&& self.contents@.dom().finite()
        &&& self.len == self.contents@.len()
    }

    /// An empty map with sixteen buckets, hashing from `seed`.
    pub fn new(seed: u64) -> (r: Self)
        ensures
            r.wf(),
            r@ == Map::<u64, V>::empty(),
    {
        Self::with_hasher(RandomState::new(seed))
    }

    /// An empty map with `capacity` buckets (at least one), hashing from
    /// `seed`.
    pub fn with_capacity(capacity: usize, seed: u64) -> (r: Self)
        ensures
            r.wf(),
            r@ == Map::<u64, V>::empty(),
    {
        Self::with_capacity_and_hasher(capacity, RandomState::new(seed))
    }

    pub fn with_hasher(hasher: RandomState) -> (r: Self)
        ensures
            r.wf(),
            r@ == Map::<u64, V>::empty(),
    {
        Self::with_capacity_and_hasher(16, hasher)
    }

    pub fn with_capacity_and_hasher(capacity: usize, hasher: RandomState) -> (r: Self)
        ensures
            r.wf(),
            r@ == Map::<u64, V>::empty(),
    {
        let capacity = if capacity > 1 {
            capacity
        } else {
            1
        };
        let buckets = empty_buckets(capacity);
        proof {
            lemma_empty_table(buckets@, hasher.0);
        }
        HashMap { buckets, len: 0, hasher, contents: Ghost(Map::empty()) }
    }

    fn hash_index(&self, key: u64) -> (r: usize)
        requires
            self.wf(),
        ensures
            r == slot_of(self.hasher.0, key, self.buckets@.len() as int),
            r < self.buckets@.len(),
    {
        slot_for(&self.hasher, key, self.buckets.len())
    }

    /// The value stored under `key`, if any.
    pub fn get(&self, key: &u64) -> (r: Option<&V>)
        requires
            self.wf(),
        ensures
            match r {
                Some(v) => self@.contains_key(*key) && *v == self@[*key],
                None => !self@.contains_key(*key),
            },
    {
        let index = self.hash_index(*key);
        let bucket = &self.buckets[index];
        let mut j: usize = 0;
        while j < bucket.len()
            invariant
                self.wf(),
                index == slot_of(self.hasher.0, *key, self.buckets@.len() as int),
                index < self.buckets@.len(),
                *bucket == self.buckets@[index as int],
                0 <= j <= bucket@.len(),
                forall|jj: int| 0 <= jj < j ==> (#[trigger] bucket@[jj]).0 != *key,
            decreases bucket@.len() - j,
        {
            if bucket[j].0 == *key {
                assert(self.buckets@[index as int]@[j as int] == bucket@[j as int]);
                return Some(&bucket[j].1);
            }
            j = j + 1;
        }
        None
    }

    pub fn contains_key(&self, key: &u64) -> (r: bool)
        requires
            self.wf(),
        ensures
            r == self@.contains_key(*key),
    {
        self.get(key).is_some()
    }

    pub fn len(&self) -> (r: usize)
        requires
            self.wf(),
        ensures
            r == self@.len(),
    {
        self.len
    }

    pub fn is_empty(&self) -> (r: bool)
        requires
            self.wf(),
        ensures
            r == (self@.len() == 0),
    {
        self.len == 0
    }
    /// Stores `value` under `key`, handing back the value it replaces.
    pub fn insert(&mut self, key: u64, value: V) -> (r: Option<V>)
        requires
            old(self).wf(),
            old(self)@.len() < usize::MAX,
        ensures
            final(self).wf(),
            final(self)@ == old(self)@.insert(key, value),
            r == (if old(self)@.contains_key(key) {
                Some(old(self)@[key])
            } else {
                None::<V>
            }),
    {
        let n = self.buckets.len();
        // grow at three quarters of the bucket count, written so as not to overflow
        if self.len >= n / 4 + n / 4 + n / 4 + (n % 4) * 3 / 4 {
            if n <= usize::MAX / 2 {
                self.resize(n * 2);
            }
        }
        let ghost t = self.buckets@;
        let ghost m = self.contents@;
        let ghost seed = self.hasher.0;
        let index = self.hash_index(key);
        let mut bucket: Vec<(u64, V)> = Vec::new();
        core::mem::swap(&mut self.buckets[index], &mut bucket);
        assert(bucket@ == t[index as int]@);
        let mut j: usize = 0;
        while j < bucket.len()
            invariant
                table_holds(t, seed, m),
                m == old(self)@,
                index == slot_of(seed, key, t.len() as int),
                index < t.len(),
                bucket@ == t[index as int]@,
                self.buckets@.len() == t.len(),
                forall|i: int|
                    0 <= i < t.len() && i != index ==> (#[trigger] self.buckets@[i])@ == t[i]@,
                self.hasher.0 == seed,
                self.contents@ == m,
                self.len == m.len(),
                m.dom().finite(),
                m.len() < usize::MAX,
                0 <= j <= bucket@.len(),
                forall|jj: int| 0 <= jj < j ==> (#[trigger] bucket@[jj]).0 != key,
            decreases bucket@.len() - j,
        {
            if bucket[j].0 == key {
                let ghost b0 = bucket@;
                let mut entry = (key, value);
                core::mem::swap(&mut bucket[j], &mut entry);
                core::mem::swap(&mut self.buckets[index], &mut bucket);
                proof {
                    let t2 = self.buckets@;
                    let m2 = m.insert(key, value);
                    assert(t[index as int]@[j as int] == entry);
                    assert(m.contains_key(key) && m[key] == entry.1);
                    assert(t2[index as int]@ == b0.update(j as int, (key, value)));
                    assert forall|i: int, jj: int|
                        0 <= i < t2.len() && 0 <= jj < t2[i]@.len() implies {
                        &&& slot_of(seed, (#[trigger] t2[i]@[jj]).0, t2.len() as int) == i
                        &&& m2.contains_key(t2[i]@[jj].0)
                        &&& m2[t2[i]@[jj].0] == t2[i]@[jj].1
                    } by {
                        if i == index && jj == j {
                        } else {
                            assert(t2[i]@[jj] == t[i]@[jj]);
                            if i == index {
                                assert(t[i]@[jj].0 != t[i]@[j as int].0);
                            }
                        }
                    }
                    assert forall|i: int, j1: int, j2: int|
                        0 <= i < t2.len() && 0 <= j1 < t2[i]@.len() && 0 <= j2 < t2[i]@.len()
                            && j1 != j2 implies (#[trigger] t2[i]@[j1]).0 != (
                    #[trigger] t2[i]@[j2]).0 by {
                        assert(t[i]@[j1] == t[i]@[j1]);
                        assert(t[i]@[j2] == t[i]@[j2]);
                    }
                    assert forall|k: u64| #[trigger] m2.contains_key(k) implies bucket_has(
                        t2[slot_of(seed, k, t2.len() as int)]@,
                        k,
                    ) by {
                        let sk = slot_of(seed, k, t.len() as int);
                        assert(bucket_has(t[sk]@, k));
                        let w = choose|w: int| 0 <= w < t[sk]@.len() && (#[trigger] t[sk]@[w]).0 == k;
                        assert(t2[sk]@[w].0 == k);
                    }
                    assert(m2.dom() =~= m.dom());
                    self.contents = Ghost(m2);
                }
                return Some(entry.1);
            }
            j = j + 1;
        }
        proof {
            if m.contains_key(key) {
                let w = choose|w: int|
                    0 <= w < t[index as int]@.len() && (#[trigger] t[index as int]@[w]).0 == key;
                assert(bucket@[w].0 == key);
            }
        }
        bucket.push((key, value));
        core::mem::swap(&mut self.buckets[index], &mut bucket);
        proof {
            lemma_table_push(t, self.buckets@, seed, m, key, value);
            self.contents = Ghost(m.insert(key, value));
        }
        self.len = self.len + 1;
        None
    }

    /// Takes the entry under `key` out of the map, handing back its value.
    pub fn remove(&mut self, key: &u64) -> (r: Option<V>)
        requires
            old(self).wf(),
        ensures
            final(self).wf(),
            final(self)@ == old(self)@.remove(*key),
            r == (if old(self)@.contains_key(*key) {
                Some(old(self)@[*key])
            } else {
                None::<V>
            }),
    {
        let ghost t = self.buckets@;
        let ghost m = self.contents@;
        let ghost seed = self.hasher.0;
        let index = self.hash_index(*key);
        let mut bucket: Vec<(u64, V)> = Vec::new();
        core::mem::swap(&mut self.buckets[index], &mut bucket);
        let mut j: usize = 0;
        while j < bucket.len()
            invariant
                table_holds(t, seed, m),
                m == old(self)@,
                index == slot_of(seed, *key, t.len() as int),
                index < t.len(),
                bucket@ == t[index as int]@,
                self.buckets@.len() == t.len(),
                forall|i: int|
                    0 <= i < t.len() && i != index ==> (#[trigger] self.buckets@[i])@ == t[i]@,
                self.hasher.0 == seed,
                self.contents@ == m,
                self.len == m.len(),
                m.dom().finite(),
                0 <= j <= bucket@.len(),
                forall|jj: int| 0 <= jj < j ==> (#[trigger] bucket@[jj]).0 != *key,
            decreases bucket@.len() - j,
        {
            if bucket[j].0 == *key {
                let ghost b0 = bucket@;
                let entry = bucket.remove(j);
                core::mem::swap(&mut self.buckets[index], &mut bucket);
                proof {
                    let t2 = self.buckets@;
                    let m2 = m.remove(*key);
                    assert(t[index as int]@[j as int] == entry);
                    assert(m.contains_key(*key) && m[*key] == entry.1);
                    assert(t2[index as int]@ == b0.remove(j as int));
                    assert forall|i: int, jj: int|
                        0 <= i < t2.len() && 0 <= jj < t2[i]@.len() implies {
                        &&& slot_of(seed, (#[trigger] t2[i]@[jj]).0, t2.len() as int) == i
                        &&& m2.contains_key(t2[i]@[jj].0)
                        &&& m2[t2[i]@[jj].0] == t2[i]@[jj].1
                    } by {
                        if i == index {
                            if jj < j {
                                assert(t2[i]@[jj] == t[i]@[jj]);
                                assert(t[i]@[jj].0 != t[i]@[j as int].0);
                            } else {
                                assert(t2[i]@[jj] == t[i]@[jj + 1]);
                                assert(t[i]@[jj + 1].0 != t[i]@[j as int].0);
                            }
                        } else {
                            assert(t2[i]@[jj] == t[i]@[jj]);
                        }
                    }
                    assert forall|i: int, j1: int, j2: int|
                        0 <= i < t2.len() && 0 <= j1 < t2[i]@.len() && 0 <= j2 < t2[i]@.len()
                            && j1 != j2 implies (#[trigger] t2[i]@[j1]).0 != (
                    #[trigger] t2[i]@[j2]).0 by {
                        if i == index {
                            let o1 = if j1 < j { j1 } else { j1 + 1 };
                            let o2 = if j2 < j { j2 } else { j2 + 1 };
                            assert(t2[i]@[j1] == t[i]@[o1]);
                            assert(t2[i]@[j2] == t[i]@[o2]);
                        } else {
                            assert(t2[i]@[j1] == t[i]@[j1]);
                            assert(t2[i]@[j2] == t[i]@[j2]);
                        }
                    }
                    assert forall|k: u64| #[trigger] m2.contains_key(k) implies bucket_has(
                        t2[slot_of(seed, k, t2.len() as int)]@,
                        k,
                    ) by {
                        let sk = slot_of(seed, k, t.len() as int);
                        assert(bucket_has(t[sk]@, k));
                        let w = choose|w: int| 0 <= w < t[sk]@.len() && (#[trigger] t[sk]@[w]).0 == k;
                        if sk == index {
                            if w < j {
                                assert(t2[sk]@[w].0 == k);
                            } else {
                                assert(w != j);
                                assert(t2[sk]@[w - 1].0 == k);
                            }
                        } else {
                            assert(t2[sk]@[w].0 == k);
                        }
                    }
                    self.contents = Ghost(m2);
                }
                self.len = self.len - 1;
                return Some(entry.1);
            }
            j = j + 1;
        }
        core::mem::swap(&mut self.buckets[index], &mut bucket);
        proof {
            lemma_table_same_views(t, self.buckets@, seed, m);
            if m.contains_key(*key) {
                let w = choose|w: int|
                    0 <= w < t[index as int]@.len() && (#[trigger] t[index as int]@[w]).0 == *key;
                assert(bucket@[w].0 == *key);
            }
            assert(m.remove(*key) =~= m);
        }
        None
    }

    /// Removes every entry, keeping the buckets.
    pub fn clear(&mut self)
        requires
            old(self).wf(),
        ensures
            final(self).wf(),
            final(self)@ == Map::<u64, V>::empty(),
    {
        let n = self.buckets.len();
        let mut i: usize = 0;
        while i < n
            invariant
                0 <= i <= n,
                n == self.buckets@.len(),
                n > 0,
                forall|jj: int| 0 <= jj < i ==> (#[trigger] self.buckets@[jj]@).len() == 0,
            decreases n - i,
        {
            let mut empty: Vec<(u64, V)> = Vec::new();
            core::mem::swap(&mut self.buckets[i], &mut empty);
            i = i + 1;
        }
        proof {
            lemma_empty_table(self.buckets@, self.hasher.0);
            self.contents = Ghost(Map::empty());
        }
        self.len = 0;
    }
    /// Moves every entry into `new_capacity` fresh buckets.
    fn resize(&mut self, new_capacity: usize)
        requires
            old(self).wf(),
            new_capacity > 0,
        ensures
            final(self).wf(),
            final(self)@ == old(self)@,
    {
        let ghost m = self.contents@;
        let ghost seed = self.hasher.0;
        let mut old_buckets = empty_buckets(new_capacity);
        core::mem::swap(&mut self.buckets, &mut old_buckets);
        let ghost n_old = old_buckets@.len() as int;
        let ghost mut moved = Map::<u64, V>::empty();
        let ghost mut rest = m;
        proof {
            lemma_empty_table(self.buckets@, seed);
        }
        while old_buckets.len() > 0
            invariant
                table_holds(self.buckets@, seed, moved),
                self.buckets@.len() == new_capacity,
                self.hasher.0 == seed,
                self.contents@ == m,
                self.len == m.len(),
                m.dom().finite(),
                n_old > 0,
                old_buckets@.len() <= n_old,
                forall|i: int, j: int|
                    0 <= i < old_buckets@.len() && 0 <= j < old_buckets@[i]@.len() ==> {
                        &&& slot_of(seed, (#[trigger] old_buckets@[i]@[j]).0, n_old) == i
                        &&& rest.contains_key(old_buckets@[i]@[j].0)
                        &&& rest[old_buckets@[i]@[j].0] == old_buckets@[i]@[j].1
                    },
                forall|i: int, j1: int, j2: int|
                    0 <= i < old_buckets@.len() && 0 <= j1 < old_buckets@[i]@.len() && 0 <= j2
                        < old_buckets@[i]@.len() && j1 != j2 ==> (
                    #[trigger] old_buckets@[i]@[j1]).0 != (#[trigger] old_buckets@[i]@[j2]).0,
                forall|k: u64| #[trigger]
                    rest.contains_key(k) ==> 0 <= slot_of(seed, k, n_old) < old_buckets@.len()
                        && bucket_has(old_buckets@[slot_of(seed, k, n_old)]@, k),
                forall|k: u64| #[trigger] rest.contains_key(k) ==> !moved.contains_key(k),
                forall|k: u64| #[trigger]
                    m.contains_key(k) <==> (moved.contains_key(k) || rest.contains_key(k)),
                forall|k: u64| #[trigger] moved.contains_key(k) ==> moved[k] == m[k],
                forall|k: u64| #[trigger] rest.contains_key(k) ==> rest[k] == m[k],
            decreases old_buckets@.len(),
        {
            let ghost ob = old_buckets@;
            let mut bucket = old_buckets.pop().unwrap();
            let ghost c = old_buckets@.len() as int;
            proof {
                assert(bucket == ob[c]);
                assert forall|i: int| 0 <= i < c implies old_buckets@[i] == ob[i] by {}
                assert forall|k: u64| #[trigger] rest.contains_key(k) implies (0 <= slot_of(
                    seed,
                    k,
                    n_old,
                ) < c && bucket_has(old_buckets@[slot_of(seed, k, n_old)]@, k)) || (slot_of(
                    seed,
                    k,
                    n_old,
                ) == c && bucket_has(bucket@, k)) by {
                    let sk = slot_of(seed, k, n_old);
                    if sk < c {
                        assert(old_buckets@[sk] == ob[sk]);
                    }
                }
            }
            while bucket.len() > 0
                invariant
                    table_holds(self.buckets@, seed, moved),
                    self.buckets@.len() == new_capacity,
                    self.hasher.0 == seed,
                    self.contents@ == m,
                    self.len == m.len(),
                    m.dom().finite(),
                    n_old > 0,
                    c == old_buckets@.len(),
                    c < n_old,
                    forall|i: int, j: int|
                        0 <= i < old_buckets@.len() && 0 <= j < old_buckets@[i]@.len() ==> {
                            &&& slot_of(seed, (#[trigger] old_buckets@[i]@[j]).0, n_old) == i
                            &&& rest.contains_key(old_buckets@[i]@[j].0)
                            &&& rest[old_buckets@[i]@[j].0] == old_buckets@[i]@[j].1
                        },
                    forall|i: int, j1: int, j2: int|
                        0 <= i < old_buckets@.len() && 0 <= j1 < old_buckets@[i]@.len() && 0
                            <= j2 < old_buckets@[i]@.len() && j1 != j2 ==> (
                        #[trigger] old_buckets@[i]@[j1]).0 != (#[trigger] old_buckets@[i]@[j2]).0,
                    forall|j: int|
                        0 <= j < bucket@.len() ==> {
                            &&& slot_of(seed, (#[trigger] bucket@[j]).0, n_old) == c
                            &&& rest.contains_key(bucket@[j].0)
                            &&& rest[bucket@[j].0] == bucket@[j].1
                        },
                    forall|j1: int, j2: int|
                        0 <= j1 < bucket@.len() && 0 <= j2 < bucket@.len() && j1 != j2 ==> (
                        #[trigger] bucket@[j1]).0 != (#[trigger] bucket@[j2]).0,
                    forall|k: u64| #[trigger]
                        rest.contains_key(k) ==> (0 <= slot_of(seed, k, n_old) < c && bucket_has(
                            old_buckets@[slot_of(seed, k, n_old)]@,
                            k,
                        )) || (slot_of(seed, k, n_old) == c && bucket_has(bucket@, k)),
                    forall|k: u64| #[trigger] rest.contains_key(k) ==> !moved.contains_key(k),
                    forall|k: u64| #[trigger]
                        m.contains_key(k) <==> (moved.contains_key(k) || rest.contains_key(k)),
                    forall|k: u64| #[trigger] moved.contains_key(k) ==> moved[k] == m[k],
                    forall|k: u64| #[trigger] rest.contains_key(k) ==> rest[k] == m[k],
                decreases bucket@.len(),
            {
                let ghost b0 = bucket@;
                let entry = bucket.pop().unwrap();
                let idx = slot_for(&self.hasher, entry.0, self.buckets.len());
                let ghost t = self.buckets@;
                let mut target: Vec<(u64, V)> = Vec::new();
                core::mem::swap(&mut self.buckets[idx], &mut target);
                target.push(entry);
                core::mem::swap(&mut self.buckets[idx], &mut target);
                proof {
                    let last = b0.len() - 1;
                    assert(entry == b0[last]);
                    assert forall|j: int| 0 <= j < bucket@.len() implies bucket@[j] == b0[j] by {}
                    assert forall|j: int| 0 <= j < bucket@.len() implies (#[trigger] bucket@[j]).0
                        != entry.0 by {
                        assert(b0[j].0 != b0[last].0);
                    }
                    lemma_table_push(t, self.buckets@, seed, moved, entry.0, entry.1);
                    let k0 = entry.0;
                    let rest2 = rest.remove(k0);
                    assert forall|k: u64| #[trigger] rest2.contains_key(k) implies (0 <= slot_of(
                        seed,
                        k,
                        n_old,
                    ) < c && bucket_has(old_buckets@[slot_of(seed, k, n_old)]@, k)) || (slot_of(
                        seed,
                        k,
                        n_old,
                    ) == c && bucket_has(bucket@, k)) by {
                        assert(rest.contains_key(k));
                        if slot_of(seed, k, n_old) == c && !(0 <= slot_of(seed, k, n_old) < c) {
                            assert(bucket_has(b0, k));
                            let w = choose|w: int| 0 <= w < b0.len() && (#[trigger] b0[w]).0 == k;
                            assert(w != last);
                            assert(bucket@[w].0 == k);
                        }
                    }
                    moved = moved.insert(k0, entry.1);
                    rest = rest2;
                }
            }
        }
        proof {
            assert forall|k: u64| #[trigger] m.contains_key(k) implies moved.contains_key(k) by {
                if rest.contains_key(k) {
                    assert(0 <= slot_of(seed, k, n_old) < old_buckets@.len());
                }
            }
            assert(moved =~= m);
        }
    }
    /// A walk over the map's entries, each visited once.
    pub fn iter(&self) -> (r: Iter<'_, V>)
        requires
            self.wf(),
        ensures
            r.wf(),
            r.map() == self@,
            r.seen() == Set::<u64>::empty(),
    {
        let r = Iter {
            buckets: &self.buckets,
            index: 0,
            pos: 0,
            seed: Ghost(self.hasher.0),
            map: Ghost(self.contents@),
            seen: Ghost(Set::empty()),
        };
        proof {
            reveal(sealed_table);
            assert forall|k: u64|
                !(#[trigger] walked(self.buckets@, self.hasher.0, self.contents@, 0, 0, k)) by {
                lemma_slot_bounds(self.hasher.0, k, self.buckets@.len() as int);
            }
        }
        r
    }
}


/// A slot lies among the buckets.
proof fn lemma_slot_bounds(seed: u64, key: u64, n: int)
    requires
        n > 0,
    ensures
        0 <= slot_of(seed, key, n) < n,
{
}

/// Whether a walk that stands at entry `pos` of bucket `index` has passed
/// the entry of `k`.
pub open spec fn walked<V>(
    t: Seq<Vec<(u64, V)>>,
    seed: u64,
    m: Map<u64, V>,
    index: int,
    pos: int,
    k: u64,
) -> bool {
    let s = slot_of(seed, k, t.len() as int);
    &&& m.contains_key(k)
    &&& (s < index || (s == index && exists|j: int| 0 <= j < pos && (#[trigger] t[s]@[j]).0 == k))
}

/// One step inside a bucket passes exactly the entry stepped over, which had
/// not been passed before.
proof fn lemma_walk_step<V>(t: Seq<Vec<(u64, V)>>, seed: u64, m: Map<u64, V>, i: int, p: int)
    requires
        table_holds(t, seed, m),
        0 <= i < t.len(),
        0 <= p < t[i]@.len(),
    ensures
        !walked(t, seed, m, i, p, t[i]@[p].0),
        forall|k: u64|
            #[trigger] walked(t, seed, m, i, p + 1, k) <==> (walked(t, seed, m, i, p, k) || k
                == t[i]@[p].0),
{
    let k0 = t[i]@[p].0;
    if walked(t, seed, m, i, p, k0) {
        let w = choose|w: int| 0 <= w < p && (#[trigger] t[i]@[w]).0 == k0;
        assert(t[i]@[w].0 != t[i]@[p].0);
    }
    assert forall|k: u64|
        #[trigger] walked(t, seed, m, i, p + 1, k) <==> (walked(t, seed, m, i, p, k) || k == k0) by {
        let sk = slot_of(seed, k, t.len() as int);
        if k == k0 {
            assert(t[i]@[p].0 == k);
        } else if sk == i && walked(t, seed, m, i, p + 1, k) {
            let w = choose|w: int| 0 <= w < p + 1 && (#[trigger] t[i]@[w]).0 == k;
            assert(w != p);
        }
    }
}

/// Moving on from the end of a bucket to the start of the next passes
/// nothing new.
proof fn lemma_walk_next_bucket<V>(t: Seq<Vec<(u64, V)>>, seed: u64, m: Map<u64, V>, i: int)
    requires
        table_holds(t, seed, m),
        0 <= i < t.len(),
    ensures
        forall|k: u64|
            #[trigger] walked(t, seed, m, i + 1, 0, k) <==> walked(
                t,
                seed,
                m,
                i,
                t[i]@.len() as int,
                k,
            ),
{
    assert forall|k: u64|
        #[trigger] walked(t, seed, m, i + 1, 0, k) <==> walked(
            t,
            seed,
            m,
            i,
            t[i]@.len() as int,
            k,
        ) by {
        let sk = slot_of(seed, k, t.len() as int);
        if sk == i && m.contains_key(k) {
            assert(bucket_has(t[i]@, k));
        }
    }
}

/// A walk past the last bucket has passed every entry.
proof fn lemma_walk_done<V>(t: Seq<Vec<(u64, V)>>, seed: u64, m: Map<u64, V>)
    requires
        table_holds(t, seed, m),
    ensures
        forall|k: u64| #[trigger] m.contains_key(k) ==> walked(t, seed, m, t.len() as int, 0, k),
{
    assert forall|k: u64| #[trigger] m.contains_key(k) implies walked(
        t,
        seed,
        m,
        t.len() as int,
        0,
        k,
    ) by {
        lemma_slot_bounds(seed, k, t.len() as int);
    }
}

/// `table_holds`, kept folded inside the walk's invariant.
#[verifier::opaque]
spec fn sealed_table<V>(t: Seq<Vec<(u64, V)>>, seed: u64, m: Map<u64, V>) -> bool {
    table_holds(t, seed, m)
}

/// A walk over the entries of a `HashMap`, bucket by bucket.
pub struct Iter<'a, V> {
    buckets: &'a Vec<Vec<(u64, V)>>,
    index: usize,
    pos: usize,
    seed: Ghost<u64>,
    map: Ghost<Map<u64, V>>,
    seen: Ghost<Set<u64>>,
}

impl<'a, V> Iter<'a, V> {
    /// The entries being walked.
    pub closed spec fn map(&self) -> Map<u64, V> {
        self.map@
    }

    /// The keys handed out so far.
    pub closed spec fn seen(&self) -> Set<u64> {
        self.seen@
    }

    pub closed spec fn wf(&self) -> bool {
        &&& sealed_table(self.buckets@, self.seed@, self.map@)
        &&& self.index <= self.buckets@.len()
        &&& self.index < self.buckets@.len() ==> self.pos <= self.buckets@[self.index as int]@.len()
        &&& self.index == self.buckets@.len() ==> self.pos == 0
        &&& forall|k: u64|
            self.seen@.contains(k) <==> #[trigger] walked(
                self.buckets@,
                self.seed@,
                self.map@,
                self.index as int,
                self.pos as int,
                k,
            )
    }

    /// The next entry not yet handed out; `None` once every entry has been.
    pub fn next(&mut self) -> (r: Option<(&'a u64, &'a V)>)
        requires
            old(self).wf(),
        ensures
            final(self).wf(),
            final(self).map() == old(self).map(),
            match r {
                Some((k, v)) => {
                    &&& old(self).map().contains_key(*k)
                    &&& old(self).map()[*k] == *v
                    &&& !old(self).seen().contains(*k)
                    &&& final(self).seen() == old(self).seen().insert(*k)
                },
                None => {
                    &&& old(self).seen() == old(self).map().dom()
                    &&& final(self).seen() == old(self).seen()
                },
            },
    {
        loop
            invariant
                self.wf(),
                self.map@ == old(self).map@,
                self.seen@ == old(self).seen@,
            decreases self.buckets@.len() - self.index,
        {
            let n = self.buckets.len();
            let ghost t = self.buckets@;
            let ghost seed = self.seed@;
            let ghost m = self.map@;
            if self.index >= n {
                proof {
                    reveal(sealed_table);
                    lemma_walk_done(t, seed, m);
                    assert forall|k: u64| self.seen@.contains(k) <==> #[trigger] m.dom().contains(k) by {
                        assert(self.index as int == t.len() && self.pos == 0);
                        assert(self.seen@.contains(k) <==> walked(t, seed, m, t.len() as int, 0, k));
                        if m.contains_key(k) {
                            assert(walked(t, seed, m, t.len() as int, 0, k));
                        }
                    }
                    assert(self.seen@ =~= m.dom());
                }
                return None;
            }
            let bucket: &'a Vec<(u64, V)> = &self.buckets[self.index];
            if self.pos < bucket.len() {
                let entry: &'a (u64, V) = &bucket[self.pos];
                proof {
                    reveal(sealed_table);
                    lemma_walk_step(t, seed, m, self.index as int, self.pos as int);
                    assert(t[self.index as int]@[self.pos as int] == *entry);
                    self.seen = Ghost(self.seen@.insert(entry.0));
                }
                self.pos = self.pos + 1;
                return Some((&entry.0, &entry.1));
            }
            proof {
                reveal(sealed_table);
                lemma_walk_next_bucket(t, seed, m, self.index as int);
            }
            self.index = self.index + 1;
            self.pos = 0;
        }
    }
}

} // verus!
