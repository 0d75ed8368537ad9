//! An associative container built from primitive array storage: keys are
//! routed to buckets by a 64-bit digest reduced modulo the bucket count,
//! collisions are resolved by a linear scan inside the bucket, and the
//! bucket array grows once the live-item counter exceeds three pairs per
//! slot.  Every operation's effect is stated against the table's view, a
//! `Map` from abstract key values to stored values.

use vstd::prelude::*;

pub mod bucket;
pub mod entry;
pub mod indexing;
pub mod key;
pub mod key_values;
pub mod laws;

pub use bucket::Bucket;
pub use entry::{Entry, OccupiedEntry, VacantEntry};
pub use key::HashKey;
pub use key_values::{Keys, Values, ValuesMut};

verus! {

use crate::bucket::{distinct_pair_keys, has_pair_key, lemma_pair_lookup, pair_key_index,
    pair_value};

/// The slot that a key with abstract value `k` occupies among `n` buckets.
pub open spec fn slot_of<K: HashKey>(k: K::V, n: nat) -> int {
    K::digest_of(k) as int % n as int
}

/// Whether bucket `b`, sitting at position `i` of `n`, holds only keys
/// that digest to slot `i`.
pub open spec fn bucket_in_slot<K: HashKey, V>(b: Bucket<K, V>, i: int, n: nat) -> bool {
    forall|j: int| 0 <= j < b@.len() ==> slot_of::<K>((#[trigger] b@[j]).0@, n) == i
}

/// Whether every bucket is well formed and routed to its own slot.
pub open spec fn buckets_wf<K: HashKey, V>(bs: Seq<Bucket<K, V>>) -> bool {
    forall|i: int|
        0 <= i < bs.len() ==> (#[trigger] bs[i]).wf() && bucket_in_slot(bs[i], i, bs.len() as nat)
}

/// Whether the bucket array holds a pair for `k`.
pub open spec fn buckets_contain<K: HashKey, V>(bs: Seq<Bucket<K, V>>, k: K::V) -> bool {
    bs.len() > 0 && has_pair_key(bs[slot_of::<K>(k, bs.len() as nat)]@, k)
}

/// The value the bucket array stores for `k`.
pub open spec fn buckets_value<K: HashKey, V>(bs: Seq<Bucket<K, V>>, k: K::V) -> V {
    pair_value(bs[slot_of::<K>(k, bs.len() as nat)]@, k)
}

/// The map from abstract key values to values that the bucket array holds.
pub open spec fn buckets_map<K: HashKey, V>(bs: Seq<Bucket<K, V>>) -> Map<<K as View>::V, V> {
    Map::new(|k: <K as View>::V| buckets_contain(bs, k), |k: <K as View>::V| buckets_value(bs, k))
}

/// The number of pairs held by the buckets from position `i` onward.
pub open spec fn pairs_from_count<K: HashKey, V>(bs: Seq<Bucket<K, V>>, i: int) -> nat
    decreases bs.len() - i,
{
    if i < 0 || i >= bs.len() {
        0
    } else {
        bs[i]@.len() + pairs_from_count(bs, i + 1)
    }
}

/// The number of pairs held by the whole bucket array.
pub open spec fn total_pairs<K: HashKey, V>(bs: Seq<Bucket<K, V>>) -> nat {
    pairs_from_count(bs, 0)
}

/// A bucket array without pairs has only empty buckets.
pub proof fn lemma_buckets_all_empty<K: HashKey, V>(bs: Seq<Bucket<K, V>>, i: int)
    requires
        0 <= i,
        pairs_from_count(bs, i) == 0,
    ensures
        forall|j: int| i <= j < bs.len() ==> (#[trigger] bs[j])@.len() == 0,
    decreases bs.len() - i,
{
    if i < bs.len() {
        lemma_buckets_all_empty(bs, i + 1);
    }
}

/// Replacing one bucket changes the pair count by the difference at that
/// position.
pub proof fn lemma_pairs_count_update<K: HashKey, V>(
    bs: Seq<Bucket<K, V>>,
    u: int,
    b: Bucket<K, V>,
    i: int,
)
    requires
        0 <= i,
        0 <= u < bs.len(),
    ensures
        i <= u ==> pairs_from_count(bs.update(u, b), i) + bs[u]@.len() == pairs_from_count(bs, i)
            + b@.len(),
        i > u ==> pairs_from_count(bs.update(u, b), i) == pairs_from_count(bs, i),
    decreases bs.len() - i,
{
    if i < bs.len() {
        lemma_pairs_count_update(bs, u, b, i + 1);
    }
}

/// An all-empty bucket array holds no pairs.
pub proof fn lemma_empty_count<K: HashKey, V>(bs: Seq<Bucket<K, V>>, i: int)
    requires
        forall|j: int| 0 <= j < bs.len() ==> (#[trigger] bs[j])@.len() == 0,
    ensures
        pairs_from_count(bs, i) == 0,
    decreases bs.len() - i,
{
    if 0 <= i < bs.len() {
        lemma_empty_count(bs, i + 1);
    }
}

/// One bucket never holds more pairs than the array from `i` on, if it
/// sits at or past `i`.
pub proof fn lemma_bucket_le_count<K: HashKey, V>(bs: Seq<Bucket<K, V>>, i: int, u: int)
    requires
        0 <= i <= u < bs.len(),
    ensures
        bs[u]@.len() <= pairs_from_count(bs, i),
    decreases u - i,
{
    if i < u {
        lemma_bucket_le_count(bs, i + 1, u);
    }
}

/// The bucket-array size after an insertion's growth check: a missing
/// array is allocated at 1024 slots, and a table whose counter exceeds
/// three pairs per slot doubles.
pub open spec fn grow_capacity(cap: nat, len: nat) -> nat {
    if cap == 0 {
        1024
    } else if len > 3 * cap {
        2 * cap
    } else {
        cap
    }
}

/// An associative container from keys to values, backed by an array of
/// buckets selected by the keys' digests.
pub struct HashMap<K: HashKey, V> {
    buckets: Vec<Bucket<K, V>>,
    num_items: usize,
}

impl<Key: HashKey, Val> View for HashMap<Key, Val> {
    type V = Map<<Key as View>::V, Val>;

    closed spec fn view(&self) -> Map<<Key as View>::V, Val> {
        buckets_map(self.buckets@)
    }
}

impl<K: HashKey, V> HashMap<K, V> {
    /// The bucket array.
    pub closed spec fn spec_buckets(self) -> Seq<Bucket<K, V>> {
        self.buckets@
    }

    /// The number of bucket slots.
    pub open spec fn spec_capacity(self) -> nat {
        self.spec_buckets().len()
    }

    /// The live-item counter, as `len` reports it.
    pub closed spec fn spec_len(self) -> nat {
        self.num_items as nat
    }

    /// Whether the table's representation is well formed: buckets are
    /// routed by digest, the counter covers every stored pair, and a
    /// missing bucket array means nothing was ever counted.
    pub open spec fn wf(self) -> bool {
        &&& buckets_wf(self.spec_buckets())
        &&& (self.spec_capacity() == 0 ==> self.spec_len() == 0)
        &&& total_pairs(self.spec_buckets()) <= self.spec_len()
    }

    /// Create an empty table; no bucket is allocated yet.
    pub fn new() -> (m: HashMap<K, V>)
        ensures
            m.wf(),
            m@ =~= Map::<<K as View>::V, V>::empty(),
            m.spec_len() == 0,
            m.spec_capacity() == 0,
    {
        let m = HashMap { buckets: Vec::new(), num_items: 0 };
        proof {
            assert(forall|k: <K as View>::V| !buckets_contain(m.buckets@, k));
        }
        m
    }

    /// The slot for `key` in the current bucket array.
    fn bucket_index(&self, key: &K) -> (i: usize)
        requires
            self.spec_capacity() > 0,
        ensures
            i as int == slot_of::<K>(key@, self.spec_capacity()),
            i < self.spec_capacity(),
    {
        let d = key.digest();
        let n = self.buckets.len() as u64;
        let idx = d % n;
        idx as usize
    }

    /// The number of insertions not yet matched by a removal.
    pub fn len(&self) -> (r: usize)
        ensures
            r == self.spec_len(),
    {
        self.num_items
    }

    /// Whether the live-item counter is zero.
    pub fn is_empty(&self) -> (r: bool)
        ensures
            r == (self.spec_len() == 0),
    {
        self.num_items == 0
    }

    /// Decide whether the table holds a pair for `key`; a table whose
    /// counter is zero holds none.
    pub fn contains_key(&self, key: &K) -> (r: bool)
        requires
            self.wf(),
        ensures
            r == self@.contains_key(key@),
    {
        if self.num_items == 0 {
            proof {
                lemma_buckets_all_empty(self.spec_buckets(), 0);
            }
            return false;
        }
        let idx = self.bucket_index(key);
        self.buckets[idx].contains_key(key)
    }

    /// Look up the value stored for `key`; a table without a bucket array
    /// stores nothing.
    pub fn get(&self, key: &K) -> (r: Option<&V>)
        requires
            self.wf(),
        ensures
            self@.contains_key(key@) ==> (r matches Some(v) && *v == self@[key@]),
            !self@.contains_key(key@) ==> r is None,
    {
        if self.buckets.is_empty() {
            return None;
        }
        let idx = self.bucket_index(key);
        self.buckets[idx].get(key)
    }

    /// Replace the bucket array by one of the next size and redistribute
    /// every stored pair by its freshly reduced digest.
    fn resize(&mut self)
        requires
            old(self).wf(),
            old(self).spec_capacity() == 0 || old(self).spec_len() > 3 * old(self).spec_capacity(),
        ensures
            final(self).wf(),
            final(self)@ == old(self)@,
            final(self).spec_len() == old(self).spec_len(),
            final(self).spec_capacity() == (if old(self).spec_capacity() == 0 {
                1024nat
            } else {
                2 * old(self).spec_capacity()
            }),
    {
        let ghost obs = self.buckets@;
        let ghost m0 = self@;
        let n = self.buckets.len();
        let target: usize = if n == 0 {
            1024
        } else {
            proof {
                assert(3 * n <= old(self).spec_len());
            }
            2 * n
        };
        let ghost nt = target as nat;
        let mut new_buckets: Vec<Bucket<K, V>> = Vec::new();
        while new_buckets.len() < target
            invariant
                new_buckets@.len() <= target,
                forall|j: int|
                    0 <= j < new_buckets@.len() ==> (#[trigger] new_buckets@[j])@.len() == 0,
            decreases target - new_buckets@.len(),
        {
            new_buckets.push(Bucket::new());
        }
        proof {
            lemma_empty_count(new_buckets@, 0);
            assert(forall|k: <K as View>::V| !#[trigger] buckets_contain(new_buckets@, k));
        }
        let mut bi: usize = 0;
        while bi < n
            invariant
                old(self).spec_buckets() == obs,
                old(self)@ == m0,
                old(self).wf(),
                self.spec_len() == old(self).spec_len(),
                self.spec_buckets().len() == obs.len(),
                n == obs.len(),
                0 <= bi <= n,
                nt == target as nat,
                nt > 0,
                forall|j: int| bi <= j < obs.len() ==> #[trigger] self.spec_buckets()[j] == obs[j],
                new_buckets@.len() == nt,
                buckets_wf(new_buckets@),
                forall|k: <K as View>::V| #[trigger]
                    buckets_contain(new_buckets@, k) ==> buckets_contain(obs, k) && slot_of::<K>(
                        k,
                        obs.len() as nat,
                    ) < bi,
                forall|k: <K as View>::V|
                    buckets_contain(obs, k) && slot_of::<K>(k, obs.len() as nat) < bi
                        ==> #[trigger] buckets_contain(new_buckets@, k),
                forall|k: <K as View>::V| #[trigger]
                    buckets_contain(new_buckets@, k) ==> buckets_value(new_buckets@, k)
                        == buckets_value(obs, k),
                total_pairs(new_buckets@) + pairs_from_count(obs, bi as int) == total_pairs(obs),
            decreases n - bi,
        {
            let bref = &mut self.buckets[bi];
            let mut items = bref.take_pairs();
            let ghost ob = obs[bi as int]@;
            proof {
                assert(items@ == ob);
                assert(items@ == ob.take(items@.len() as int));
                assert(obs[bi as int].wf());
                assert(bucket_in_slot(obs[bi as int], bi as int, obs.len() as nat));
                assert(pairs_from_count(obs, bi as int) == ob.len() + pairs_from_count(
                    obs,
                    bi as int + 1,
                ));
            }
            while items.len() > 0
                invariant
                    old(self).spec_buckets() == obs,
                    old(self).wf(),
                    self.spec_len() == old(self).spec_len(),
                    self.spec_buckets().len() == obs.len(),
                    n == obs.len(),
                    0 <= bi < n,
                    nt == target as nat,
                    nt > 0,
                    forall|j: int|
                        bi < j < obs.len() ==> #[trigger] self.spec_buckets()[j] == obs[j],
                    ob == obs[bi as int]@,
                    distinct_pair_keys(ob),
                    bucket_in_slot(obs[bi as int], bi as int, obs.len() as nat),
                    items@ == ob.take(items@.len() as int),
                    items@.len() <= ob.len(),
                    new_buckets@.len() == nt,
                    buckets_wf(new_buckets@),
                    forall|k: <K as View>::V| #[trigger]
                        buckets_contain(new_buckets@, k) ==> buckets_contain(obs, k) && (slot_of::<
                            K,
                        >(k, obs.len() as nat) < bi || (slot_of::<K>(k, obs.len() as nat) == bi
                            && !has_pair_key(items@, k))),
                    forall|k: <K as View>::V|
                        buckets_contain(obs, k) && (slot_of::<K>(k, obs.len() as nat) < bi || (
                        slot_of::<K>(k, obs.len() as nat) == bi && !has_pair_key(items@, k)))
                            ==> #[trigger] buckets_contain(new_buckets@, k),
                    forall|k: <K as View>::V| #[trigger]
                        buckets_contain(new_buckets@, k) ==> buckets_value(new_buckets@, k)
                            == buckets_value(obs, k),
                    total_pairs(new_buckets@) + items@.len() + pairs_from_count(obs, bi as int + 1)
                        == total_pairs(obs),
                decreases items@.len(),
            {
                let ghost items_pre = items@;
                let p = items.pop().unwrap();
                let (k, v) = p;
                let ghost ki = (items_pre.len() - 1) as int;
                proof {
                    assert(items_pre == ob.take(items_pre.len() as int));
                    assert(items_pre[ki] == ob[ki]);
                    assert(k == ob[ki].0 && v == ob[ki].1);
                    assert(items@ =~= ob.take(items@.len() as int));
                    lemma_pair_lookup(ob, k@, ki);
                    assert(slot_of::<K>(k@, obs.len() as nat) == bi);
                    assert(buckets_contain(obs, k@));
                    assert(buckets_value(obs, k@) == ob[ki].1) by {
                        lemma_pair_lookup(ob, k@, ki);
                    }
                }
                let d = k.digest();
                let idx = (d % (target as u64)) as usize;
                proof {
                    assert(idx as int == slot_of::<K>(k@, nt));
                    assert(0 <= idx < nt);
                    assert(!has_pair_key(items@, k@)) by {
                        if has_pair_key(items@, k@) {
                            let j = pair_key_index(items@, k@);
                            assert(items@[j] == ob[j]);
                            assert(ob[j].0@ == k@ && 0 <= j < ki);
                        }
                    }
                    assert(!buckets_contain(new_buckets@, k@)) by {
                        if buckets_contain(new_buckets@, k@) {
                            assert(has_pair_key(items_pre, k@)) by {
                                assert(items_pre[ki].0@ == k@);
                            }
                        }
                    }
                    assert(!has_pair_key(new_buckets@[idx as int]@, k@));
                    lemma_bucket_le_count(new_buckets@, 0, idx as int);
                    assert(new_buckets@[idx as int]@.len() < usize::MAX);
                }
                let ghost nbs_pre = new_buckets@;
                let nb = &mut new_buckets[idx];
                let _ = nb.insert(k, v);
                proof {
                    let nbs = new_buckets@;
                    let nb1 = nbs[idx as int];
                    assert(nbs == nbs_pre.update(idx as int, nb1));
                    lemma_pairs_count_update(nbs_pre, idx as int, nb1, 0);
                    assert(total_pairs(nbs) == total_pairs(nbs_pre) + 1);
                    assert(buckets_wf(nbs)) by {
                        assert forall|j: int| 0 <= j < nbs.len() implies (#[trigger] nbs[j]).wf()
                            && bucket_in_slot(nbs[j], j, nbs.len() as nat) by {
                            if j != idx as int {
                                assert(nbs[j] == nbs_pre[j]);
                            } else {
                                assert(bucket_in_slot(nb1, j, nbs.len() as nat)) by {
                                    assert forall|m: int| 0 <= m < nb1@.len() implies slot_of::<K>(
                                        (#[trigger] nb1@[m]).0@,
                                        nbs.len() as nat,
                                    ) == j by {
                                        if nb1@[m].0@ != k@ {
                                            assert(has_pair_key(nbs_pre[idx as int]@, nb1@[m].0@));
                                            let w = pair_key_index(nbs_pre[idx as int]@, nb1@[m].0@);
                                            assert(nbs_pre[idx as int]@[w].0@ == nb1@[m].0@);
                                        }
                                    }
                                }
                            }
                        }
                    }
                    assert forall|kk: <K as View>::V| #[trigger]
                        buckets_contain(nbs, kk) implies buckets_contain(obs, kk) && (slot_of::<K>(
                        kk,
                        obs.len() as nat,
                    ) < bi || (slot_of::<K>(kk, obs.len() as nat) == bi && !has_pair_key(
                        items@,
                        kk,
                    ))) by {
                        let sl = slot_of::<K>(kk, nt);
                        if sl == idx as int {
                            if kk != k@ {
                                assert(has_pair_key(nbs_pre[idx as int]@, kk));
                                assert(buckets_contain(nbs_pre, kk));
                            }
                        } else {
                            assert(nbs[sl] == nbs_pre[sl]);
                            assert(buckets_contain(nbs_pre, kk));
                        }
                    }
                    assert forall|kk: <K as View>::V|
                        buckets_contain(obs, kk) && (slot_of::<K>(kk, obs.len() as nat) < bi || (
                        slot_of::<K>(kk, obs.len() as nat) == bi && !has_pair_key(
                            items@,
                            kk,
                        ))) implies #[trigger] buckets_contain(nbs, kk) by {
                        if kk == k@ {
                            assert(has_pair_key(nbs[idx as int]@, kk));
                        } else {
                            if slot_of::<K>(kk, obs.len() as nat) < bi || !has_pair_key(
                                items_pre,
                                kk,
                            ) {
                                assert(buckets_contain(nbs_pre, kk));
                                let sl = slot_of::<K>(kk, nt);
                                if sl == idx as int {
                                    assert(has_pair_key(nbs[sl]@, kk));
                                } else {
                                    assert(nbs[sl] == nbs_pre[sl]);
                                }
                            } else {
                                assert(has_pair_key(items_pre, kk) && !has_pair_key(items@, kk));
                                let j = pair_key_index(items_pre, kk);
                                assert(items_pre[j].0@ == kk && 0 <= j < items_pre.len());
                                assert(items_pre[j] == ob[j]);
                                if j < items@.len() {
                                    assert(items@[j] == ob[j]);
                                    assert(has_pair_key(items@, kk));
                                } else {
                                    assert(j == ki);
                                    assert(kk == k@);
                                }
                            }
                        }
                    }
                    assert forall|kk: <K as View>::V| #[trigger]
                        buckets_contain(nbs, kk) implies buckets_value(nbs, kk) == buckets_value(
                        obs,
                        kk,
                    ) by {
                        let sl = slot_of::<K>(kk, nt);
                        if sl == idx as int {
                            if kk == k@ {
                                assert(pair_value(nbs[sl]@, kk) == v);
                                assert(buckets_value(obs, k@) == v);
                            } else {
                                assert(has_pair_key(nbs_pre[idx as int]@, kk));
                                assert(buckets_contain(nbs_pre, kk));
                                assert(pair_value(nbs[sl]@, kk) == pair_value(nbs_pre[sl]@, kk));
                            }
                        } else {
                            assert(nbs[sl] == nbs_pre[sl]);
                            assert(buckets_contain(nbs_pre, kk));
                        }
                    }
                }
            }
            proof {
                assert(items@.len() == 0);
                assert(forall|kk: <K as View>::V| !has_pair_key(items@, kk));
            }
            bi = bi + 1;
        }
        self.buckets = new_buckets;
        proof {
            assert(pairs_from_count(obs, n as int) == 0);
            assert(total_pairs(self.spec_buckets()) == total_pairs(obs));
            assert(total_pairs(obs) <= old(self).spec_len());
            assert(self@ =~= m0) by {
                assert forall|kk: <K as View>::V| #[trigger]
                    buckets_contain(self.spec_buckets(), kk) == buckets_contain(obs, kk) by {
                    if buckets_contain(obs, kk) {
                        assert(0 <= slot_of::<K>(kk, obs.len() as nat) < obs.len());
                    }
                }
            }
        }
    }

    /// Hand out the bucket in charge of `key`, allocating the bucket
    /// array first if none exists yet.
    fn get_bucket_mut(&mut self, key: &K) -> (b: &mut Bucket<K, V>)
        requires
            old(self).wf(),
        ensures
            ({
                let n1 = if old(self).spec_capacity() == 0 {
                    1024nat
                } else {
                    old(self).spec_capacity()
                };
                let idx = slot_of::<K>(key@, n1);
                &&& 0 <= idx < n1
                &&& final(self).spec_len() == old(self).spec_len()
                &&& final(self).spec_buckets().len() == n1
                &&& (*b).wf()
                &&& bucket_in_slot(*b, idx, n1)
                &&& (old(self).spec_capacity() > 0 ==> *b == old(self).spec_buckets()[idx])
                &&& (old(self).spec_capacity() == 0 ==> (*b)@ =~= Seq::<(K, V)>::empty())
                &&& (forall|k: <K as View>::V|
                    slot_of::<K>(k, n1) == idx ==> (#[trigger] has_pair_key((*b)@, k)
                        == old(self)@.contains_key(k)))
                &&& (forall|k: <K as View>::V|
                    slot_of::<K>(k, n1) == idx && has_pair_key((*b)@, k)
                        ==> #[trigger] pair_value((*b)@, k) == old(self)@[k])
                &&& final(self).spec_buckets()[idx] == *final(b)
                &&& (forall|j: int|
                    0 <= j < n1 && j != idx ==> (#[trigger] final(self).spec_buckets()[j]).wf()
                        && bucket_in_slot(final(self).spec_buckets()[j], j, n1))
                &&& (forall|k: <K as View>::V|
                    slot_of::<K>(k, n1) != idx ==> ((#[trigger] buckets_contain(
                        final(self).spec_buckets(),
                        k,
                    ) == old(self)@.contains_key(k)) && (buckets_contain(
                        final(self).spec_buckets(),
                        k,
                    ) ==> buckets_value(final(self).spec_buckets(), k) == old(self)@[k])))
                &&& total_pairs(final(self).spec_buckets()) + (*b)@.len() == total_pairs(
                    old(self).spec_buckets(),
                ) + (*final(b))@.len()
            }),
    {
        if self.buckets.is_empty() {
            self.resize();
        }
        let idx = self.bucket_index(key);
        let ghost mid = *self;
        proof {
            assert(mid@ == old(self)@);
            assert(mid.wf());
            if old(self).spec_capacity() == 0 {
                assert(mid.spec_len() == 0);
                lemma_buckets_all_empty(mid.spec_buckets(), 0);
                lemma_empty_count(mid.spec_buckets(), 0);
                assert(total_pairs(mid.spec_buckets()) == total_pairs(old(self).spec_buckets()));
            }
            assert(total_pairs(mid.spec_buckets()) == total_pairs(old(self).spec_buckets()));
            assert forall|k: <K as View>::V|
                slot_of::<K>(k, mid.spec_capacity()) == idx as int implies (#[trigger] has_pair_key(
                mid.spec_buckets()[idx as int]@,
                k,
            ) == mid@.contains_key(k)) by {
                assert(buckets_contain(mid.spec_buckets(), k) == has_pair_key(
                    mid.spec_buckets()[idx as int]@,
                    k,
                ));
            }
            lemma_bucket_le_count(mid.spec_buckets(), 0, idx as int);
            assert forall|fb: Bucket<K, V>| #[trigger] total_pairs(
                mid.spec_buckets().update(idx as int, fb),
            ) + mid.spec_buckets()[idx as int]@.len() == total_pairs(mid.spec_buckets())
                + fb@.len() by {
                lemma_pairs_count_update(mid.spec_buckets(), idx as int, fb, 0);
            }
        }
        &mut self.buckets[idx]
    }

    /// Store `value` under `key`: grow the bucket array if the growth
    /// check fires, count the insertion, and delegate to the bucket in
    /// charge; an existing pair for the key has its value replaced and
    /// returned.
    pub fn insert(&mut self, key: K, value: V) -> (r: Option<V>)
        requires
            old(self).wf(),
            old(self).spec_len() < usize::MAX,
        ensures
            final(self).wf(),
            final(self)@ =~= old(self)@.insert(key@, value),
            final(self).spec_len() == old(self).spec_len() + 1,
            final(self).spec_capacity() == grow_capacity(
                old(self).spec_capacity(),
                old(self).spec_len(),
            ),
            r is Some <==> old(self)@.contains_key(key@),
            r matches Some(v) ==> v == old(self)@[key@],
    {
        let l = self.buckets.len();
        if l == 0 || (self.num_items as u128) > 3 * (l as u128) {
            self.resize();
        }
        self.num_items = self.num_items + 1;
        let ghost mid = *self;
        proof {
            assert(mid@ == old(self)@);
            assert(mid.wf());
            assert(mid.spec_capacity() == grow_capacity(
                old(self).spec_capacity(),
                old(self).spec_len(),
            ));
            assert(total_pairs(mid.spec_buckets()) <= old(self).spec_len());
        }
        let b = self.get_bucket_mut(&key);
        let ghost b0 = (*b)@;
        let ghost n1 = mid.spec_capacity();
        let ghost idx = slot_of::<K>(key@, n1);
        proof {
            assert(*b == mid.spec_buckets()[idx]);
            lemma_bucket_le_count(mid.spec_buckets(), 0, idx);
            assert(b0.len() < usize::MAX);
        }
        let r = b.insert(key, value);
        proof {
            assert(bucket_in_slot(*final(b), idx, n1)) by {
                assert forall|m: int| 0 <= m < (*final(b))@.len() implies slot_of::<K>(
                    (#[trigger] (*final(b))@[m]).0@,
                    n1,
                ) == idx by {
                    if (*final(b))@[m].0@ != key@ {
                        assert(has_pair_key(b0, (*final(b))@[m].0@));
                        let w = pair_key_index(b0, (*final(b))@[m].0@);
                        assert(b0[w].0@ == (*final(b))@[m].0@);
                    }
                }
            }
        }
        r
    }

    /// Store `value` under `key` as `insert` does, and hand back a
    /// mutable borrow of the stored value instead of the displaced one.
    pub fn insert_mut(&mut self, key: K, value: V) -> (r: &mut V)
        requires
            old(self).wf(),
            old(self).spec_len() < usize::MAX,
        ensures
            *r == value,
            final(self).wf(),
            final(self)@ =~= old(self)@.insert(key@, *final(r)),
            final(self).spec_len() == old(self).spec_len() + 1,
            final(self).spec_capacity() == grow_capacity(
                old(self).spec_capacity(),
                old(self).spec_len(),
            ),
    {
        let l = self.buckets.len();
        if l == 0 || (self.num_items as u128) > 3 * (l as u128) {
            self.resize();
        }
        self.num_items = self.num_items + 1;
        let ghost mid = *self;
        proof {
            assert(mid@ == old(self)@);
            assert(mid.wf());
            assert(total_pairs(mid.spec_buckets()) <= old(self).spec_len());
        }
        let b = self.get_bucket_mut(&key);
        let ghost b0 = (*b)@;
        let ghost n1 = mid.spec_capacity();
        let ghost idx = slot_of::<K>(key@, n1);
        proof {
            assert(*b == mid.spec_buckets()[idx]);
            lemma_bucket_le_count(mid.spec_buckets(), 0, idx);
            assert(b0.len() < usize::MAX);
            assert forall|fb: Bucket<K, V>|
                (forall|m: int|
                    0 <= m < fb@.len() ==> ((#[trigger] fb@[m]).0@ == key@ || has_pair_key(
                        b0,
                        fb@[m].0@,
                    ))) implies #[trigger] bucket_in_slot(fb, idx, n1) by {
                assert forall|m: int| 0 <= m < fb@.len() implies slot_of::<K>(
                    (#[trigger] fb@[m]).0@,
                    n1,
                ) == idx by {
                    if fb@[m].0@ != key@ {
                        assert(has_pair_key(b0, fb@[m].0@));
                        let w = pair_key_index(b0, fb@[m].0@);
                        assert(b0[w].0@ == fb@[m].0@);
                    }
                }
            }
        }
        b.insert_mut(key, value)
    }

    /// A mutable borrow of the value stored for `key`; a table without a
    /// bucket array stores nothing.
    pub fn get_mut(&mut self, key: &K) -> (r: Option<&mut V>)
        requires
            old(self).wf(),
        ensures
            !old(self)@.contains_key(key@) ==> (r is None && final(self)@ == old(self)@
                && final(self).spec_len() == old(self).spec_len()
                && final(self).spec_capacity() == old(self).spec_capacity()
                && final(self).wf()),
            old(self)@.contains_key(key@) ==> (r matches Some(v) && *v == old(self)@[key@]
                && final(self)@ =~= old(self)@.insert(key@, *final(v))
                && final(self).spec_len() == old(self).spec_len()
                && final(self).spec_capacity() == old(self).spec_capacity()
                && final(self).wf()),
    {
        if self.buckets.is_empty() {
            return None;
        }
        let idx = self.bucket_index(key);
        let ghost m0 = *self;
        proof {
            assert(m0@.contains_key(key@) == has_pair_key(m0.spec_buckets()[idx as int]@, key@));
            assert forall|k: <K as View>::V|
                slot_of::<K>(k, m0.spec_capacity()) == idx as int implies (#[trigger] has_pair_key(
                m0.spec_buckets()[idx as int]@,
                k,
            ) == m0@.contains_key(k)) by {
                assert(buckets_contain(m0.spec_buckets(), k) == has_pair_key(
                    m0.spec_buckets()[idx as int]@,
                    k,
                ));
            }
            assert forall|fb: Bucket<K, V>| #[trigger] total_pairs(
                m0.spec_buckets().update(idx as int, fb),
            ) + m0.spec_buckets()[idx as int]@.len() == total_pairs(m0.spec_buckets())
                + fb@.len() by {
                lemma_pairs_count_update(m0.spec_buckets(), idx as int, fb, 0);
            }
        }
        let b = &mut self.buckets[idx];
        b.get_mut(key)
    }

    /// Remove the pair stored for `key` and return its value; the counter
    /// drops only when a pair was in fact removed.
    pub fn remove(&mut self, key: &K) -> (r: Option<V>)
        requires
            old(self).wf(),
        ensures
            final(self).wf(),
            final(self)@ =~= old(self)@.remove(key@),
            final(self).spec_capacity() == old(self).spec_capacity(),
            r is Some <==> old(self)@.contains_key(key@),
            r matches Some(v) ==> v == old(self)@[key@] && final(self).spec_len() == old(self).spec_len() - 1,
            r is None ==> final(self).spec_len() == old(self).spec_len(),
    {
        if self.buckets.is_empty() {
            return None;
        }
        let idx = self.bucket_index(key);
        let ghost m0 = *self;
        proof {
            assert(m0@.contains_key(key@) == has_pair_key(m0.spec_buckets()[idx as int]@, key@));
            assert forall|k: <K as View>::V|
                slot_of::<K>(k, m0.spec_capacity()) == idx as int implies (#[trigger] has_pair_key(
                m0.spec_buckets()[idx as int]@,
                k,
            ) == m0@.contains_key(k)) by {
                assert(buckets_contain(m0.spec_buckets(), k) == has_pair_key(
                    m0.spec_buckets()[idx as int]@,
                    k,
                ));
            }
            lemma_bucket_le_count(m0.spec_buckets(), 0, idx as int);
            assert forall|fb: Bucket<K, V>| #[trigger] total_pairs(
                m0.spec_buckets().update(idx as int, fb),
            ) + m0.spec_buckets()[idx as int]@.len() == total_pairs(m0.spec_buckets())
                + fb@.len() by {
                lemma_pairs_count_update(m0.spec_buckets(), idx as int, fb, 0);
            }
        }
        let b = &mut self.buckets[idx];
        let res = b.remove(key);
        if res.is_some() {
            self.num_items = self.num_items - 1;
        }
        res
    }

    /// The number of bucket slots.
    pub(crate) fn bucket_count(&self) -> (r: usize)
        ensures
            r == self.spec_capacity(),
    {
        self.buckets.len()
    }

    /// The number of pairs in bucket `i`.
    pub(crate) fn bucket_len_at(&self, i: usize) -> (r: usize)
        requires
            i < self.spec_capacity(),
        ensures
            r == self.spec_buckets()[i as int]@.len(),
    {
        self.buckets[i].len()
    }

    /// A mutable borrow of the value of the pair at position `j` of
    /// bucket `i`.
    pub(crate) fn value_at_mut(&mut self, i: usize, j: usize) -> (r: &mut V)
        requires
            old(self).wf(),
            i < old(self).spec_capacity(),
            j < old(self).spec_buckets()[i as int]@.len(),
        ensures
            ({
                let bs = old(self).spec_buckets();
                let p = bs[i as int]@[j as int];
                &&& *r == p.1
                &&& old(self)@.contains_key(p.0@)
                &&& old(self)@[p.0@] == p.1
                &&& final(self).wf()
                &&& final(self).spec_len() == old(self).spec_len()
                &&& final(self).spec_buckets().len() == old(self).spec_capacity()
                &&& final(self).spec_buckets()[i as int]@ =~= bs[i as int]@.update(
                    j as int,
                    (p.0, *final(r)),
                )
                &&& (forall|u: int|
                    0 <= u < bs.len() && u != i ==> final(self).spec_buckets()[u] == bs[u])
                &&& final(self)@ =~= old(self)@.insert(p.0@, *final(r))
            }),
    {
        let ghost m0 = *self;
        let ghost bs = self.buckets@;
        let ghost p0 = bs[i as int]@[j as int];
        proof {
            assert(bs[i as int].wf());
            lemma_pair_lookup(bs[i as int]@, p0.0@, j as int);
            assert(slot_of::<K>(p0.0@, m0.spec_capacity()) == i as int);
            assert(buckets_contain(bs, p0.0@));
            assert(m0@.contains_key(p0.0@) && m0@[p0.0@] == p0.1);
            assert forall|k: <K as View>::V|
                slot_of::<K>(k, m0.spec_capacity()) == i as int implies (#[trigger] has_pair_key(
                bs[i as int]@,
                k,
            ) == m0@.contains_key(k)) by {
                assert(buckets_contain(bs, k) == has_pair_key(bs[i as int]@, k));
            }
            assert forall|fb: Bucket<K, V>| #[trigger] total_pairs(
                bs.update(i as int, fb),
            ) + bs[i as int]@.len() == total_pairs(bs) + fb@.len() by {
                lemma_pairs_count_update(bs, i as int, fb, 0);
            }
            assert forall|w: V|
                #![trigger bs[i as int]@.update(j as int, (p0.0, w))]
                ({
                    let s1 = bs[i as int]@.update(j as int, (p0.0, w));
                    distinct_pair_keys(s1) && (forall|k: <K as View>::V|
                        #[trigger] has_pair_key(s1, k) == has_pair_key(bs[i as int]@, k))
                        && pair_value(s1, p0.0@) == w && (forall|k: <K as View>::V|
                        k != p0.0@ && has_pair_key(bs[i as int]@, k) ==> #[trigger] pair_value(
                            s1,
                            k,
                        ) == pair_value(bs[i as int]@, k)) && (forall|m: int|
                        0 <= m < s1.len() ==> (#[trigger] s1[m]).0@ == bs[i as int]@[m].0@)
                }) by {
                let s0 = bs[i as int]@;
                let s1 = s0.update(j as int, (p0.0, w));
                assert(distinct_pair_keys(s1)) by {
                    assert forall|a: int, b: int| 0 <= a < b < s1.len() implies (
                    #[trigger] s1[a]).0@ != (#[trigger] s1[b]).0@ by {
                        assert(s1[a].0@ == s0[a].0@ && s1[b].0@ == s0[b].0@);
                    }
                }
                assert forall|k: <K as View>::V| #[trigger]
                    has_pair_key(s1, k) == has_pair_key(s0, k) by {
                    if has_pair_key(s1, k) {
                        let w2 = choose|w2: int|
                            0 <= w2 < s1.len() && (#[trigger] s1[w2]).0@ == k;
                        assert(s0[w2].0@ == k);
                    }
                    if has_pair_key(s0, k) {
                        let w2 = pair_key_index(s0, k);
                        assert(s1[w2].0@ == k);
                    }
                }
                lemma_pair_lookup(s1, p0.0@, j as int);
                assert forall|k: <K as View>::V|
                    k != p0.0@ && has_pair_key(s0, k) implies #[trigger] pair_value(s1, k)
                    == pair_value(s0, k) by {
                    let w2 = pair_key_index(s0, k);
                    lemma_pair_lookup(s0, k, w2);
                    assert(s1[w2].0@ == k && s1[w2].1 == s0[w2].1);
                    lemma_pair_lookup(s1, k, w2);
                }
            }
        }
        let b = &mut self.buckets[i];
        let p = b.at_mut(j).unwrap();
        &mut p.1
    }

    /// Build an [`Entry`] handle for `key` on this table.
    pub fn entry<'a>(&'a mut self, key: K) -> (e: Entry<'a, K, V>)
        requires
            old(self).wf(),
        ensures
            old(self)@.contains_key(key@) ==> (e matches Entry::Occupied(oe) && oe.key == key
                && *oe.value == old(self)@[key@] && final(self)@ =~= old(self)@.insert(
                key@,
                *final(oe.value),
            ) && final(self).wf() && final(self).spec_len() == old(self).spec_len()
                && final(self).spec_capacity() == old(self).spec_capacity()),
            !old(self)@.contains_key(key@) ==> (e matches Entry::Vacant(ve) && ve.key == key
                && *ve.map == *old(self) && *final(self) == *final(ve.map)),
    {
        Entry::new(self, key)
    }

    /// A walk over this table's keys.
    pub fn keys<'a>(&'a self) -> (r: Keys<'a, K, V>)
        requires
            self.wf(),
        ensures
            r.wf_it(),
            r.remaining() == pairs_from(self.spec_buckets(), 0, 0).map_values(|p: (K, V)| p.0),
    {
        Keys::new(self)
    }

    /// A walk over this table's values.
    pub fn values<'a>(&'a self) -> (r: Values<'a, K, V>)
        requires
            self.wf(),
        ensures
            r.wf_it(),
            r.remaining() == pairs_from(self.spec_buckets(), 0, 0).map_values(|p: (K, V)| p.1),
    {
        Values::new(self)
    }

    /// A walk over this table's values that hands out mutable borrows.
    pub fn values_mut<'a>(&'a mut self) -> (r: ValuesMut<'a, K, V>)
        requires
            old(self).wf(),
        ensures
            *r.map == *old(self),
            *final(self) == *final(r.map),
            r.wf_vm(),
            r.remaining_pairs() == pairs_from(old(self).spec_buckets(), 0, 0),
    {
        ValuesMut::new(self)
    }
}

/// The pairs a traversal still yields from bucket `i`, position `j`, on.
pub open spec fn pairs_from<K: HashKey, V>(bs: Seq<Bucket<K, V>>, i: int, j: int) -> Seq<(K, V)>
    decreases bs.len() - i,
{
    if i < 0 || i >= bs.len() {
        Seq::empty()
    } else {
        bs[i]@.skip(j) + pairs_from(bs, i + 1, 0)
    }
}

/// A traversal standing at the end of a bucket continues at the next one.
pub proof fn lemma_pairs_from_next_bucket<K: HashKey, V>(bs: Seq<Bucket<K, V>>, i: int)
    requires
        0 <= i < bs.len(),
    ensures
        pairs_from(bs, i, bs[i]@.len() as int) == pairs_from(bs, i + 1, 0),
{
    assert(bs[i]@.skip(bs[i]@.len() as int) =~= Seq::<(K, V)>::empty());
    assert(bs[i]@.skip(bs[i]@.len() as int) + pairs_from(bs, i + 1, 0) =~= pairs_from(
        bs,
        i + 1,
        0,
    ));
}

/// A traversal of all-empty buckets yields nothing.
pub proof fn lemma_pairs_from_all_empty<K: HashKey, V>(bs: Seq<Bucket<K, V>>, i: int)
    requires
        forall|j: int| 0 <= j < bs.len() ==> (#[trigger] bs[j])@.len() == 0,
    ensures
        pairs_from(bs, i, 0).len() == 0,
    decreases bs.len() - i,
{
    if 0 <= i < bs.len() {
        lemma_pairs_from_all_empty(bs, i + 1);
        assert(bs[i]@.skip(0) =~= bs[i]@);
    }
}


/// Two bucket arrays equal from position `i` on yield the same pairs.
pub proof fn lemma_pairs_from_congruent<K: HashKey, V>(
    bs1: Seq<Bucket<K, V>>,
    bs2: Seq<Bucket<K, V>>,
    i: int,
    j: int,
)
    requires
        bs1.len() == bs2.len(),
        forall|u: int| i <= u < bs1.len() ==> bs1[u] == bs2[u],
    ensures
        pairs_from(bs1, i, j) == pairs_from(bs2, i, j),
    decreases bs1.len() - i,
{
    if 0 <= i < bs1.len() {
        lemma_pairs_from_congruent(bs1, bs2, i + 1, 0);
    }
}


/// What a walk from bucket `i` on yields, against what the buckets hold:
/// as many pairs as the buckets from `i` on, each routed to a slot at or
/// past `i` and stored with its value, every key routed at or past `i`
/// among them, and no key twice.
pub proof fn lemma_pairs_from_props<K: HashKey, V>(bs: Seq<Bucket<K, V>>, i: int)
    requires
        buckets_wf(bs),
        0 <= i <= bs.len(),
    ensures
        ({
            let ps = pairs_from(bs, i, 0);
            let n = bs.len() as nat;
            &&& ps.len() == pairs_from_count(bs, i)
            &&& (forall|x: int|
                0 <= x < ps.len() ==> i <= slot_of::<K>((#[trigger] ps[x]).0@, n)
                    && buckets_contain(bs, ps[x].0@) && buckets_value(bs, ps[x].0@) == ps[x].1)
            &&& (forall|k: <K as View>::V|
                #[trigger] buckets_contain(bs, k) && slot_of::<K>(k, n) >= i ==> exists|x: int|
                    0 <= x < ps.len() && (#[trigger] ps[x]).0@ == k)
            &&& (forall|x: int, y: int|
                0 <= x < y < ps.len() ==> (#[trigger] ps[x]).0@ != (#[trigger] ps[y]).0@)
        }),
    decreases bs.len() - i,
{
    let ps = pairs_from(bs, i, 0);
    let n = bs.len() as nat;
    if i == bs.len() {
        assert forall|k: <K as View>::V|
            #[trigger] buckets_contain(bs, k) && slot_of::<K>(k, n) >= i implies exists|x: int|
            0 <= x < ps.len() && (#[trigger] ps[x]).0@ == k by {
            assert(0 <= slot_of::<K>(k, n) < n);
        }
    } else {
        lemma_pairs_from_props(bs, i + 1);
        let head = bs[i]@;
        let rest = pairs_from(bs, i + 1, 0);
        assert(head.skip(0) =~= head);
        assert(ps =~= head + rest);
        assert(bs[i].wf() && bucket_in_slot(bs[i], i, n));
        assert forall|x: int|
            0 <= x < ps.len() implies i <= slot_of::<K>((#[trigger] ps[x]).0@, n)
            && buckets_contain(bs, ps[x].0@) && buckets_value(bs, ps[x].0@) == ps[x].1 by {
            if x < head.len() {
                assert(ps[x] == head[x]);
                assert(slot_of::<K>(head[x].0@, n) == i);
                assert(has_pair_key(head, head[x].0@));
                lemma_pair_lookup(head, head[x].0@, x);
            } else {
                assert(ps[x] == rest[x - head.len()]);
            }
        }
        assert forall|k: <K as View>::V|
            #[trigger] buckets_contain(bs, k) && slot_of::<K>(k, n) >= i implies exists|x: int|
            0 <= x < ps.len() && (#[trigger] ps[x]).0@ == k by {
            if slot_of::<K>(k, n) == i {
                let j = pair_key_index(head, k);
                assert(has_pair_key(head, k));
                assert(0 <= j < head.len() && head[j].0@ == k);
                assert(ps[j].0@ == k);
            } else {
                let x0 = choose|x0: int| 0 <= x0 < rest.len() && (#[trigger] rest[x0]).0@ == k;
                assert(ps[head.len() + x0].0@ == k);
            }
        }
        assert forall|x: int, y: int|
            0 <= x < y < ps.len() implies (#[trigger] ps[x]).0@ != (#[trigger] ps[y]).0@ by {
            if y < head.len() {
                assert(ps[x] == head[x] && ps[y] == head[y]);
            } else if x >= head.len() {
                assert(ps[x] == rest[x - head.len()] && ps[y] == rest[y - head.len()]);
            } else {
                assert(ps[x] == head[x] && ps[y] == rest[y - head.len()]);
                assert(slot_of::<K>(ps[x].0@, n) == i);
                assert(i + 1 <= slot_of::<K>(ps[y].0@, n));
            }
        }
    }
}

/// Iteration completeness: a full walk over a well-formed table yields
/// exactly the table's contents: one pair for every pair the buckets
/// hold, each key present in the table's map with the yielded value,
/// every key of the map among the yields, and no key yielded twice.
pub proof fn lemma_iteration_complete<K: HashKey, V>(m: HashMap<K, V>)
    requires
        m.wf(),
    ensures
        ({
            let ps = pairs_from(m.spec_buckets(), 0, 0);
            &&& ps.len() == total_pairs(m.spec_buckets())
            &&& (forall|x: int|
                0 <= x < ps.len() ==> m@.contains_key((#[trigger] ps[x]).0@) && m@[ps[x].0@]
                    == ps[x].1)
            &&& (forall|k: <K as View>::V|
                #[trigger] m@.contains_key(k) ==> exists|x: int|
                    0 <= x < ps.len() && (#[trigger] ps[x]).0@ == k)
            &&& (forall|x: int, y: int|
                0 <= x < y < ps.len() ==> (#[trigger] ps[x]).0@ != (#[trigger] ps[y]).0@)
            &&& m@.dom().finite()
            &&& ps.len() == m@.dom().len()
        }),
{
    broadcast use vstd::seq_lib::seq_to_set_is_finite;

    lemma_pairs_from_props(m.spec_buckets(), 0);
    let ps = pairs_from(m.spec_buckets(), 0, 0);
    let ks = ps.map_values(|p: (K, V)| p.0@);
    assert(ks.no_duplicates()) by {
        assert forall|x: int, y: int|
            0 <= x < ks.len() && 0 <= y < ks.len() && x != y implies ks[x] != ks[y] by {
            assert(ks[x] == ps[x].0@ && ks[y] == ps[y].0@);
        }
    }
    ks.unique_seq_to_set();
    assert(ks.to_set() =~= m@.dom()) by {
        assert forall|k: <K as View>::V| #[trigger] ks.to_set().contains(k) implies m@.dom().contains(
            k,
        ) by {
            let x = choose|x: int| 0 <= x < ks.len() && ks[x] == k;
            assert(ps[x].0@ == k);
        }
        assert forall|k: <K as View>::V| #[trigger] m@.dom().contains(k) implies ks.to_set().contains(
            k,
        ) by {
            let x = choose|x: int| 0 <= x < ps.len() && (#[trigger] ps[x]).0@ == k;
            assert(ks[x] == k);
        }
    }
}

/// A lazy walk over a table's pairs: bucket by bucket, and within one
/// bucket position by position.
pub struct HashMapIterator<'a, K: HashKey, V> {
    hmap: &'a HashMap<K, V>,
    bucket_idx: usize,
    bucket_at: usize,
}

impl<'a, K: HashKey, V> HashMapIterator<'a, K, V> {
    /// The table being walked.
    pub closed spec fn map_ref(self) -> HashMap<K, V> {
        *self.hmap
    }

    /// The bucket the walk stands at.
    pub closed spec fn pos_bucket(self) -> int {
        self.bucket_idx as int
    }

    /// The position inside that bucket.
    pub closed spec fn pos_at(self) -> int {
        self.bucket_at as int
    }

    /// The pairs not yet yielded.
    pub open spec fn remaining(self) -> Seq<(K, V)> {
        pairs_from(self.map_ref().spec_buckets(), self.pos_bucket(), self.pos_at())
    }

    /// Whether the walk stands at a valid position of a well-formed table.
    pub open spec fn wf_it(self) -> bool {
        &&& self.map_ref().wf()
        &&& 0 <= self.pos_bucket() <= self.map_ref().spec_capacity()
        &&& (self.pos_bucket() < self.map_ref().spec_capacity() ==> 0 <= self.pos_at()
            <= self.map_ref().spec_buckets()[self.pos_bucket()]@.len())
        &&& (self.pos_bucket() == self.map_ref().spec_capacity() ==> self.pos_at() == 0)
    }

    /// Start a walk at the first bucket.
    pub fn new(hm: &'a HashMap<K, V>) -> (it: Self)
        requires
            hm.wf(),
        ensures
            it.wf_it(),
            it.map_ref() == *hm,
            it.remaining() == pairs_from(hm.spec_buckets(), 0, 0),
    {
        HashMapIterator { hmap: hm, bucket_idx: 0, bucket_at: 0 }
    }

    /// Yield the next pair, or nothing once every pair has been yielded;
    /// a table whose counter is zero yields nothing at once.
    pub fn next(&mut self) -> (r: Option<(&'a K, &'a V)>)
        requires
            old(self).wf_it(),
        ensures
            final(self).wf_it(),
            final(self).map_ref() == old(self).map_ref(),
            old(self).remaining().len() == 0 ==> (r is None && final(self).remaining().len() == 0),
            old(self).remaining().len() > 0 ==> (r matches Some(p)
                && *p.0 == old(self).remaining()[0].0
                && *p.1 == old(self).remaining()[0].1 && final(self).remaining()
                =~= old(self).remaining().drop_first()),
    {
        let hm = self.hmap;
        if hm.num_items == 0 {
            proof {
                lemma_buckets_all_empty(hm.spec_buckets(), 0);
                if self.pos_bucket() < hm.spec_capacity() {
                    assert(self.pos_at() == 0);
                    lemma_pairs_from_all_empty(hm.spec_buckets(), self.pos_bucket());
                }
            }
            return None;
        }
        loop
            invariant
                self.hmap == old(self).hmap,
                self.wf_it(),
                self.remaining() == old(self).remaining(),
                hm == self.hmap,
            decreases hm.spec_buckets().len() - self.pos_bucket(),
        {
            if self.bucket_idx >= hm.buckets.len() {
                return None;
            }
            let bkt = &hm.buckets[self.bucket_idx];
            let blen = bkt.len();
            let ghost i = self.pos_bucket();
            let ghost j = self.pos_at();
            match bkt.at(self.bucket_at) {
                None => {
                    proof {
                        assert(j == bkt@.len());
                        lemma_pairs_from_next_bucket(hm.spec_buckets(), i);
                    }
                    self.bucket_at = 0;
                    self.bucket_idx = self.bucket_idx + 1;
                },
                Some(p) => {
                    proof {
                        assert(bkt@.skip(j)[0] == bkt@[j]);
                        assert(self.remaining()[0] == bkt@[j]);
                        assert(bkt@.skip(j).drop_first() =~= bkt@.skip(j + 1));
                        assert(self.remaining().drop_first() =~= pairs_from(
                            hm.spec_buckets(),
                            i,
                            j + 1,
                        ));
                    }
                    self.bucket_at = self.bucket_at + 1;
                    return Some((&p.0, &p.1));
                },
            }
        }
    }
}


impl<K: HashKey, V> Default for HashMap<K, V> {
    /// An empty table, as `new` builds it.
    fn default() -> (m: Self)
        ensures
            m.wf(),
            m@ =~= Map::<<K as View>::V, V>::empty(),
            m.spec_len() == 0,
            m.spec_capacity() == 0,
    {
        HashMap::new()
    }
}

} // verus!
