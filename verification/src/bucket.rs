use vstd::prelude::*;

use crate::key::HashKey;

verus! {

/// Whether some pair of `s` holds a key with abstract value `k`.
pub open spec fn has_pair_key<K: HashKey, V>(s: Seq<(K, V)>, k: K::V) -> bool {
    exists|i: int| 0 <= i < s.len() && (#[trigger] s[i]).0@ == k
}

/// The position of the pair of `s` whose key has abstract value `k`.
pub open spec fn pair_key_index<K: HashKey, V>(s: Seq<(K, V)>, k: K::V) -> int {
    choose|i: int| 0 <= i < s.len() && (#[trigger] s[i]).0@ == k
}

/// The value stored beside the key with abstract value `k`.
pub open spec fn pair_value<K: HashKey, V>(s: Seq<(K, V)>, k: K::V) -> V {
    s[pair_key_index(s, k)].1
}

/// Whether the pairs of `s` hold pairwise distinct abstract key values.
pub open spec fn distinct_pair_keys<K: HashKey, V>(s: Seq<(K, V)>) -> bool {
    forall|i: int, j: int|
        0 <= i < j < s.len() ==> (#[trigger] s[i]).0@ != (#[trigger] s[j]).0@
}

/// When keys are distinct, a position holding `k` is the position of `k`.
pub proof fn lemma_pair_lookup<K: HashKey, V>(s: Seq<(K, V)>, k: K::V, i: int)
    requires
        distinct_pair_keys(s),
        0 <= i < s.len(),
        s[i].0@ == k,
    ensures
        has_pair_key(s, k),
        pair_key_index(s, k) == i,
        pair_value(s, k) == s[i].1,
{
    assert(has_pair_key(s, k));
    let j = pair_key_index(s, k);
    assert(0 <= j < s.len() && s[j].0@ == k);
    if i < j {
        assert(s[i].0@ != s[j].0@);
    } else if j < i {
        assert(s[j].0@ != s[i].0@);
    }
}

/// Storage for one hash slot: the pairs whose keys digest to that slot,
/// holding at most one pair per abstract key value.
pub struct Bucket<K, V> {
    items: Vec<(K, V)>,
}

impl<Key: HashKey, Val> View for Bucket<Key, Val> {
    type V = Seq<(Key, Val)>;

    closed spec fn view(&self) -> Seq<(Key, Val)> {
        self.items@
    }
}

impl<K: HashKey, V> Bucket<K, V> {
    /// Whether the bucket holds at most one pair per abstract key value.
    pub open spec fn wf(self) -> bool {
        distinct_pair_keys(self@)
    }

    /// Create an empty bucket.
    pub fn new() -> (b: Bucket<K, V>)
        ensures
            b@ =~= Seq::<(K, V)>::empty(),
    {
        Bucket { items: Vec::new() }
    }

    /// Look up the value stored for `key`, if any.
    pub fn get(&self, key: &K) -> (r: Option<&V>)
        requires
            self.wf(),
        ensures
            has_pair_key(self@, key@) ==> (r matches Some(v) && *v == pair_value(self@, key@)),
            !has_pair_key(self@, key@) ==> r is None,
    {
        let n = self.items.len();
        let mut i: usize = 0;
        while i < n
            invariant
                self.wf(),
                n == self@.len(),
                0 <= i <= n,
                forall|j: int| 0 <= j < i ==> (#[trigger] self@[j]).0@ != key@,
            decreases n - i,
        {
            if self.items[i].0.key_eq(key) {
                proof {
                    lemma_pair_lookup(self@, key@, i as int);
                }
                return Some(&self.items[i].1);
            }
            i = i + 1;
        }
        None
    }

    /// Decide whether the bucket holds a pair for `key`.
    pub fn contains_key(&self, key: &K) -> (r: bool)
        ensures
            r == has_pair_key(self@, key@),
    {
        let n = self.items.len();
        let mut i: usize = 0;
        while i < n
            invariant
                n == self@.len(),
                0 <= i <= n,
                forall|j: int| 0 <= j < i ==> (#[trigger] self@[j]).0@ != key@,
            decreases n - i,
        {
            if self.items[i].0.key_eq(key) {
                return true;
            }
            i = i + 1;
        }
        false
    }

    /// Store `value` for `key`: replace the value of an existing pair in
    /// place, or append a fresh pair.  Return the replaced value, if any.
    pub fn insert(&mut self, key: K, value: V) -> (r: Option<V>)
        requires
            old(self).wf(),
            old(self)@.len() < usize::MAX,
        ensures
            final(self).wf(),
            r is Some <==> has_pair_key(old(self)@, key@),
            r matches Some(v) ==> v == pair_value(old(self)@, key@) && final(self)@ =~= old(
                self,
            )@.update(
                pair_key_index(old(self)@, key@),
                (old(self)@[pair_key_index(old(self)@, key@)].0, value),
            ),
            r is None ==> final(self)@ =~= old(self)@.push((key, value)),
            forall|k: <K as View>::V|
                #[trigger] has_pair_key(final(self)@, k) <==> (has_pair_key(old(self)@, k) || k
                    == key@),
            pair_value(final(self)@, key@) == value,
            forall|k: <K as View>::V|
                k != key@ && has_pair_key(old(self)@, k) ==> #[trigger] pair_value(
                    final(self)@,
                    k,
                ) == pair_value(old(self)@, k),
            forall|i: int|
                0 <= i < final(self)@.len() ==> ((#[trigger] final(self)@[i]).0@ == key@
                    || has_pair_key(old(self)@, final(self)@[i].0@)),
    {
        let ghost s0 = self@;
        let n = self.items.len();
        let mut i: usize = 0;
        while i < n
            invariant
                old(self)@ == s0,
                self@ == s0,
                distinct_pair_keys(s0),
                n == s0.len(),
                0 <= i <= n,
                forall|j: int| 0 <= j < i ==> (#[trigger] s0[j]).0@ != key@,
            decreases n - i,
        {
            if self.items[i].0.key_eq(&key) {
                proof {
                    lemma_pair_lookup(s0, key@, i as int);
                }
                let mut tmp = value;
                std::mem::swap(&mut self.items[i].1, &mut tmp);
                proof {
                    let s1 = self@;
                    assert(s1 =~= s0.update(i as int, (s0[i as int].0, value)));
                    assert forall|k: <K as View>::V| #[trigger]
                        has_pair_key(s1, k) <==> (has_pair_key(s0, k) || k == key@) by {
                        if has_pair_key(s1, k) {
                            let j = choose|j: int| 0 <= j < s1.len() && (#[trigger] s1[j]).0@ == k;
                            assert(s0[j].0@ == k);
                        }
                        if has_pair_key(s0, k) {
                            let j = pair_key_index(s0, k);
                            assert(s1[j].0@ == k);
                        }
                    }
                    assert(distinct_pair_keys(s1)) by {
                        assert forall|a: int, b: int| 0 <= a < b < s1.len() implies (
                        #[trigger] s1[a]).0@ != (#[trigger] s1[b]).0@ by {
                            assert(s1[a].0@ == s0[a].0@ && s1[b].0@ == s0[b].0@);
                        }
                    }
                    lemma_pair_lookup(s1, key@, i as int);
                    assert forall|k: <K as View>::V|
                        k != key@ && has_pair_key(s0, k) implies #[trigger] pair_value(s1, k)
                        == pair_value(s0, k) by {
                        let j = pair_key_index(s0, k);
                        lemma_pair_lookup(s0, k, j);
                        assert(s1[j].0@ == k && s1[j].1 == s0[j].1);
                        lemma_pair_lookup(s1, k, j);
                    }
                    assert forall|m: int| 0 <= m < s1.len() implies ((#[trigger] s1[m]).0@ == key@
                        || has_pair_key(s0, s1[m].0@)) by {
                        assert(s1[m].0@ == s0[m].0@);
                    }
                }
                return Some(tmp);
            }
            i = i + 1;
        }
        self.items.push((key, value));
        proof {
            let s1 = self@;
            assert(s1 =~= s0.push((key, value)));
            assert(!has_pair_key(s0, key@));
            assert(distinct_pair_keys(s1)) by {
                assert forall|a: int, b: int| 0 <= a < b < s1.len() implies (#[trigger] s1[a]).0@
                    != (#[trigger] s1[b]).0@ by {
                    if b < s0.len() {
                        assert(s0[a].0@ != s0[b].0@);
                    } else {
                        assert(s1[b].0@ == key@);
                        assert(s0[a].0@ != key@) by {
                            if s0[a].0@ == key@ {
                                assert(has_pair_key(s0, key@));
                            }
                        }
                    }
                }
            }
            assert(s1[s0.len() as int].0@ == key@);
            lemma_pair_lookup(s1, key@, s0.len() as int);
            assert forall|k: <K as View>::V| #[trigger]
                has_pair_key(s1, k) <==> (has_pair_key(s0, k) || k == key@) by {
                if has_pair_key(s1, k) && k != key@ {
                    let j = choose|j: int| 0 <= j < s1.len() && (#[trigger] s1[j]).0@ == k;
                    assert(j < s0.len() && s0[j].0@ == k);
                }
                if has_pair_key(s0, k) {
                    let j = pair_key_index(s0, k);
                    assert(s1[j].0@ == k);
                }
            }
            assert forall|k: <K as View>::V|
                k != key@ && has_pair_key(s0, k) implies #[trigger] pair_value(s1, k)
                == pair_value(s0, k) by {
                let j = pair_key_index(s0, k);
                lemma_pair_lookup(s0, k, j);
                assert(s1[j].0@ == k && s1[j].1 == s0[j].1);
                lemma_pair_lookup(s1, k, j);
            }
        }
        None
    }

    /// Remove the pair for `key` by swapping the last pair into its place,
    /// and return its value; absent keys leave the bucket unchanged.
    pub fn remove(&mut self, key: &K) -> (r: Option<V>)
        requires
            old(self).wf(),
        ensures
            final(self).wf(),
            r is Some <==> has_pair_key(old(self)@, key@),
            r matches Some(v) ==> v == pair_value(old(self)@, key@) && final(self)@ =~= old(
                self,
            )@.update(pair_key_index(old(self)@, key@), old(self)@.last()).drop_last(),
            r is None ==> final(self)@ == old(self)@,
            forall|k: <K as View>::V|
                #[trigger] has_pair_key(final(self)@, k) <==> (has_pair_key(old(self)@, k) && k
                    != key@),
            forall|k: <K as View>::V|
                k != key@ && has_pair_key(old(self)@, k) ==> #[trigger] pair_value(
                    final(self)@,
                    k,
                ) == pair_value(old(self)@, k),
            forall|i: int|
                0 <= i < final(self)@.len() ==> has_pair_key(
                    old(self)@,
                    (#[trigger] final(self)@[i]).0@,
                ),
    {
        let ghost s0 = self@;
        let n = self.items.len();
        let mut i: usize = 0;
        while i < n
            invariant
                old(self)@ == s0,
                self@ == s0,
                distinct_pair_keys(s0),
                n == s0.len(),
                0 <= i <= n,
                forall|j: int| 0 <= j < i ==> (#[trigger] s0[j]).0@ != key@,
            decreases n - i,
        {
            if self.items[i].0.key_eq(key) {
                proof {
                    lemma_pair_lookup(s0, key@, i as int);
                }
                let p = self.items.swap_remove(i);
                proof {
                    let s1 = self@;
                    assert(s1 =~= s0.update(i as int, s0.last()).drop_last());
                    assert(forall|m: int|
                        0 <= m < s1.len() && m != i ==> s1[m] == s0[m]);
                    assert(i < s1.len() ==> s1[i as int] == s0[s0.len() - 1]);
                    assert(distinct_pair_keys(s1)) by {
                        assert forall|a: int, b: int| 0 <= a < b < s1.len() implies (
                        #[trigger] s1[a]).0@ != (#[trigger] s1[b]).0@ by {
                            let oa: int = if a == i { s0.len() - 1 } else { a };
                            let ob: int = if b == i { s0.len() - 1 } else { b };
                            assert(s1[a] == s0[oa] && s1[b] == s0[ob]);
                        }
                    }
                    assert forall|k: <K as View>::V| #[trigger]
                        has_pair_key(s1, k) <==> (has_pair_key(s0, k) && k != key@) by {
                        if has_pair_key(s1, k) {
                            let j = choose|j: int| 0 <= j < s1.len() && (#[trigger] s1[j]).0@ == k;
                            let oj: int = if j == i { s0.len() - 1 } else { j };
                            assert(s0[oj].0@ == k);
                            assert(k != key@) by {
                                if k == key@ {
                                    lemma_pair_lookup(s0, key@, oj);
                                }
                            }
                        }
                        if has_pair_key(s0, k) && k != key@ {
                            let j = pair_key_index(s0, k);
                            lemma_pair_lookup(s0, k, j);
                            if j == s0.len() - 1 {
                                assert(j != i && i < s1.len());
                                assert(s1[i as int].0@ == k);
                            } else {
                                assert(s1[j].0@ == k);
                            }
                        }
                    }
                    assert forall|k: <K as View>::V|
                        k != key@ && has_pair_key(s0, k) implies #[trigger] pair_value(s1, k)
                        == pair_value(s0, k) by {
                        let j = pair_key_index(s0, k);
                        lemma_pair_lookup(s0, k, j);
                        if j == s0.len() - 1 {
                            assert(i < s1.len() && s1[i as int] == s0[j]);
                            lemma_pair_lookup(s1, k, i as int);
                        } else {
                            assert(s1[j] == s0[j]);
                            lemma_pair_lookup(s1, k, j);
                        }
                    }
                    assert forall|m: int| 0 <= m < s1.len() implies has_pair_key(
                        s0,
                        (#[trigger] s1[m]).0@,
                    ) by {
                        let om: int = if m == i { s0.len() - 1 } else { m };
                        assert(s1[m] == s0[om]);
                    }
                }
                return Some(p.1);
            }
            i = i + 1;
        }
        None
    }


    /// A mutable borrow of the value stored for `key`, if any.
    pub fn get_mut(&mut self, key: &K) -> (r: Option<&mut V>)
        requires
            old(self).wf(),
        ensures
            !has_pair_key(old(self)@, key@) ==> r is None && final(self)@ == old(self)@,
            has_pair_key(old(self)@, key@) ==> (r matches Some(v) && *v == pair_value(
                old(self)@,
                key@,
            ) && final(self).wf() && final(self)@.len() == old(self)@.len() && (forall|
                k: <K as View>::V,
            |
                #[trigger] has_pair_key(final(self)@, k) == has_pair_key(old(self)@, k))
                && pair_value(final(self)@, key@) == *final(v) && (forall|k: <K as View>::V|
                k != key@ && has_pair_key(old(self)@, k) ==> #[trigger] pair_value(final(self)@, k)
                    == pair_value(old(self)@, k)) && (forall|i: int|
                0 <= i < final(self)@.len() ==> (#[trigger] final(self)@[i]).0@ == old(
                    self,
                )@[i].0@)),
    {
        let ghost s0 = self@;
        let n = self.items.len();
        let mut i: usize = 0;
        while i < n
            invariant
                old(self)@ == s0,
                self@ == s0,
                distinct_pair_keys(s0),
                n == s0.len(),
                0 <= i <= n,
                forall|j: int| 0 <= j < i ==> (#[trigger] s0[j]).0@ != key@,
            decreases n - i,
        {
            if self.items[i].0.key_eq(key) {
                proof {
                    lemma_pair_lookup(s0, key@, i as int);
                }
                let v = &mut self.items[i].1;
                proof {
                    let s1 = s0.update(i as int, (s0[i as int].0, *final(v)));
                    assert(distinct_pair_keys(s1)) by {
                        assert forall|a: int, b: int| 0 <= a < b < s1.len() implies (
                        #[trigger] s1[a]).0@ != (#[trigger] s1[b]).0@ by {
                            assert(s1[a].0@ == s0[a].0@ && s1[b].0@ == s0[b].0@);
                        }
                    }
                    assert forall|k: <K as View>::V| #[trigger]
                        has_pair_key(s1, k) == has_pair_key(s0, k) by {
                        if has_pair_key(s1, k) {
                            let j = choose|j: int| 0 <= j < s1.len() && (#[trigger] s1[j]).0@ == k;
                            assert(s0[j].0@ == k);
                        }
                        if has_pair_key(s0, k) {
                            let j = pair_key_index(s0, k);
                            assert(s1[j].0@ == k);
                        }
                    }
                    lemma_pair_lookup(s1, key@, i as int);
                    assert forall|k: <K as View>::V|
                        k != key@ && has_pair_key(s0, k) implies #[trigger] pair_value(s1, k)
                        == pair_value(s0, k) by {
                        let j = pair_key_index(s0, k);
                        lemma_pair_lookup(s0, k, j);
                        assert(s1[j].0@ == k && s1[j].1 == s0[j].1);
                        lemma_pair_lookup(s1, k, j);
                    }
                }
                return Some(v);
            }
            i = i + 1;
        }
        None
    }


    /// Store `value` for `key` as `insert` does, and return a mutable
    /// borrow of the stored value.
    pub fn insert_mut(&mut self, key: K, value: V) -> (r: &mut V)
        requires
            old(self).wf(),
            old(self)@.len() < usize::MAX,
        ensures
            *r == value,
            final(self).wf(),
            has_pair_key(old(self)@, key@) ==> final(self)@.len() == old(self)@.len(),
            !has_pair_key(old(self)@, key@) ==> final(self)@.len() == old(self)@.len() + 1,
            forall|k: <K as View>::V|
                #[trigger] has_pair_key(final(self)@, k) <==> (has_pair_key(old(self)@, k) || k
                    == key@),
            pair_value(final(self)@, key@) == *final(r),
            forall|k: <K as View>::V|
                k != key@ && has_pair_key(old(self)@, k) ==> #[trigger] pair_value(
                    final(self)@,
                    k,
                ) == pair_value(old(self)@, k),
            forall|i: int|
                0 <= i < final(self)@.len() ==> ((#[trigger] final(self)@[i]).0@ == key@
                    || has_pair_key(old(self)@, final(self)@[i].0@)),
    {
        let ghost s0 = self@;
        let n = self.items.len();
        let mut i: usize = 0;
        while i < n
            invariant
                old(self)@ == s0,
                self@ == s0,
                distinct_pair_keys(s0),
                n == s0.len(),
                0 <= i <= n,
                forall|j: int| 0 <= j < i ==> (#[trigger] s0[j]).0@ != key@,
            decreases n - i,
        {
            if self.items[i].0.key_eq(&key) {
                proof {
                    lemma_pair_lookup(s0, key@, i as int);
                }
                self.items[i].1 = value;
                let ghost smid = self@;
                proof {
                    assert(smid =~= s0.update(i as int, (s0[i as int].0, value)));
                }
                let v = &mut self.items[i].1;
                proof {
                    let s1 = smid.update(i as int, (smid[i as int].0, *final(v)));
                    assert(s1 =~= s0.update(i as int, (s0[i as int].0, *final(v))));
                    assert(distinct_pair_keys(s1)) by {
                        assert forall|a: int, b: int| 0 <= a < b < s1.len() implies (
                        #[trigger] s1[a]).0@ != (#[trigger] s1[b]).0@ by {
                            assert(s1[a].0@ == s0[a].0@ && s1[b].0@ == s0[b].0@);
                        }
                    }
                    assert forall|k: <K as View>::V| #[trigger]
                        has_pair_key(s1, k) <==> (has_pair_key(s0, k) || k == key@) by {
                        if has_pair_key(s1, k) {
                            let j = choose|j: int| 0 <= j < s1.len() && (#[trigger] s1[j]).0@ == k;
                            assert(s0[j].0@ == k);
                        }
                        if has_pair_key(s0, k) {
                            let j = pair_key_index(s0, k);
                            assert(s1[j].0@ == k);
                        }
                    }
                    lemma_pair_lookup(s1, key@, i as int);
                    assert forall|k: <K as View>::V|
                        k != key@ && has_pair_key(s0, k) implies #[trigger] pair_value(s1, k)
                        == pair_value(s0, k) by {
                        let j = pair_key_index(s0, k);
                        lemma_pair_lookup(s0, k, j);
                        assert(s1[j].0@ == k && s1[j].1 == s0[j].1);
                        lemma_pair_lookup(s1, k, j);
                    }
                    assert forall|m: int| 0 <= m < s1.len() implies ((#[trigger] s1[m]).0@ == key@
                        || has_pair_key(s0, s1[m].0@)) by {
                        assert(s1[m].0@ == s0[m].0@);
                    }
                }
                return v;
            }
            i = i + 1;
        }
        self.items.push((key, value));
        let v = &mut self.items[n].1;
        proof {
            let s1 = s0.push((key, value)).update(n as int, ((key, value).0, *final(v)));
            assert(s1 =~= s0.push((key, *final(v))));
            assert(!has_pair_key(s0, key@));
            assert(distinct_pair_keys(s1)) by {
                assert forall|a: int, b: int| 0 <= a < b < s1.len() implies (#[trigger] s1[a]).0@
                    != (#[trigger] s1[b]).0@ by {
                    if b < s0.len() {
                        assert(s0[a].0@ != s0[b].0@);
                    } else {
                        assert(s1[b].0@ == key@);
                        assert(s0[a].0@ != key@) by {
                            if s0[a].0@ == key@ {
                                assert(has_pair_key(s0, key@));
                            }
                        }
                    }
                }
            }
            assert(s1[s0.len() as int].0@ == key@);
            lemma_pair_lookup(s1, key@, s0.len() as int);
            assert forall|k: <K as View>::V| #[trigger]
                has_pair_key(s1, k) <==> (has_pair_key(s0, k) || k == key@) by {
                if has_pair_key(s1, k) && k != key@ {
                    let j = choose|j: int| 0 <= j < s1.len() && (#[trigger] s1[j]).0@ == k;
                    assert(j < s0.len() && s0[j].0@ == k);
                }
                if has_pair_key(s0, k) {
                    let j = pair_key_index(s0, k);
                    assert(s1[j].0@ == k);
                }
            }
            assert forall|k: <K as View>::V|
                k != key@ && has_pair_key(s0, k) implies #[trigger] pair_value(s1, k)
                == pair_value(s0, k) by {
                let j = pair_key_index(s0, k);
                lemma_pair_lookup(s0, k, j);
                assert(s1[j].0@ == k && s1[j].1 == s0[j].1);
                lemma_pair_lookup(s1, k, j);
            }
        }
        v
    }


    /// The number of pairs in the bucket.
    pub fn len(&self) -> (r: usize)
        ensures
            r == self@.len(),
    {
        self.items.len()
    }

    /// The pair at position `idx`, if the bucket is that long.
    pub fn at(&self, idx: usize) -> (r: Option<&(K, V)>)
        ensures
            idx < self@.len() ==> (r matches Some(p) && *p == self@[idx as int]),
            idx >= self@.len() ==> r is None,
    {
        if idx < self.items.len() {
            Some(&self.items[idx])
        } else {
            None
        }
    }

    /// A mutable borrow of the pair at position `idx`, if the bucket is
    /// that long.
    pub fn at_mut(&mut self, idx: usize) -> (r: Option<&mut (K, V)>)
        ensures
            idx < old(self)@.len() ==> (r matches Some(p) && *p == old(self)@[idx as int]
                && final(self)@ == old(self)@.update(idx as int, *final(p))),
            idx >= old(self)@.len() ==> r is None && final(self)@ == old(self)@,
    {
        if idx < self.items.len() {
            Some(&mut self.items[idx])
        } else {
            None
        }
    }

    /// Move every pair out of the bucket, leaving it empty.
    pub fn take_pairs(&mut self) -> (r: Vec<(K, V)>)
        ensures
            r@ == old(self)@,
            final(self)@ =~= Seq::<(K, V)>::empty(),
    {
        let mut tmp: Vec<(K, V)> = Vec::new();
        std::mem::swap(&mut self.items, &mut tmp);
        tmp
    }
}


impl<K: HashKey, V> Default for Bucket<K, V> {
    /// An empty bucket, as `new` builds it.
    fn default() -> (b: Self)
        ensures
            b@ =~= Seq::<(K, V)>::empty(),
    {
        Bucket::new()
    }
}

} // verus!
