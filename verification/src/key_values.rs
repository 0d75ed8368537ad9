use vstd::prelude::*;

use crate::HashMap;
use crate::HashMapIterator;
use crate::key::HashKey;
use crate::Bucket;
use crate::pairs_from;
use crate::lemma_pairs_from_congruent;
use crate::lemma_pairs_from_next_bucket;

verus! {

/// A walk over the keys of a table, in the order of the full-pair walk.
pub struct Keys<'a, K: HashKey, V> {
    map_iter: HashMapIterator<'a, K, V>,
}

impl<'a, K: HashKey, V> Keys<'a, K, V> {
    /// Whether the underlying walk is valid.
    pub closed spec fn wf_it(self) -> bool {
        self.map_iter.wf_it()
    }

    /// The keys not yet yielded.
    pub closed spec fn remaining(self) -> Seq<K> {
        self.map_iter.remaining().map_values(|p: (K, V)| p.0)
    }

    /// Start a walk over the keys of `map`.
    pub fn new(map: &'a HashMap<K, V>) -> (r: Self)
        requires
            map.wf(),
        ensures
            r.wf_it(),
            r.remaining() == pairs_from(map.spec_buckets(), 0, 0).map_values(|p: (K, V)| p.0),
    {
        Keys { map_iter: HashMapIterator::new(map) }
    }

    /// Yield the next key, or nothing once every key has been yielded.
    pub fn next(&mut self) -> (r: Option<&'a K>)
        requires
            old(self).wf_it(),
        ensures
            final(self).wf_it(),
            old(self).remaining().len() == 0 ==> (r is None && final(self).remaining().len() == 0),
            old(self).remaining().len() > 0 ==> (r matches Some(k) && *k == old(self).remaining()[0]
                && final(self).remaining() =~= old(self).remaining().drop_first()),
    {
        let n = self.map_iter.next();
        match n {
            Some(p) => Some(p.0),
            None => None,
        }
    }
}

/// A walk over the values of a table, in the order of the full-pair walk.
pub struct Values<'a, K: HashKey, V> {
    map_iter: HashMapIterator<'a, K, V>,
}

impl<'a, K: HashKey, V> Values<'a, K, V> {
    /// Whether the underlying walk is valid.
    pub closed spec fn wf_it(self) -> bool {
        self.map_iter.wf_it()
    }

    /// The values not yet yielded.
    pub closed spec fn remaining(self) -> Seq<V> {
        self.map_iter.remaining().map_values(|p: (K, V)| p.1)
    }

    /// Start a walk over the values of `map`.
    pub fn new(map: &'a HashMap<K, V>) -> (r: Self)
        requires
            map.wf(),
        ensures
            r.wf_it(),
            r.remaining() == pairs_from(map.spec_buckets(), 0, 0).map_values(|p: (K, V)| p.1),
    {
        Values { map_iter: HashMapIterator::new(map) }
    }

    /// Yield the next value, or nothing once every value has been
    /// yielded.
    pub fn next(&mut self) -> (r: Option<&'a V>)
        requires
            old(self).wf_it(),
        ensures
            final(self).wf_it(),
            old(self).remaining().len() == 0 ==> (r is None && final(self).remaining().len() == 0),
            old(self).remaining().len() > 0 ==> (r matches Some(v) && *v == old(self).remaining()[0]
                && final(self).remaining() =~= old(self).remaining().drop_first()),
    {
        let n = self.map_iter.next();
        match n {
            Some(p) => Some(p.1),
            None => None,
        }
    }
}


/// A walk over the values of a table that hands out mutable borrows,
/// one at a time, re-deriving each borrow from its bucket position.
pub struct ValuesMut<'a, K: HashKey, V> {
    pub map: &'a mut HashMap<K, V>,
    pub bucket_idx: usize,
    pub bucket_at: usize,
}

impl<'a, K: HashKey, V> ValuesMut<'a, K, V> {
    /// The bucket the walk stands at.
    pub closed spec fn pos_bucket(self) -> int {
        self.bucket_idx as int
    }

    /// The position inside that bucket.
    pub closed spec fn pos_at(self) -> int {
        self.bucket_at as int
    }

    /// The pairs whose values are still to be yielded.
    pub closed spec fn remaining_pairs(self) -> Seq<(K, V)> {
        pairs_from((*self.map).spec_buckets(), self.pos_bucket(), self.pos_at())
    }

    /// Whether the walk stands at a valid position of a well-formed
    /// table.
    pub closed spec fn wf_vm(self) -> bool {
        &&& (*self.map).wf()
        &&& 0 <= self.pos_bucket() <= (*self.map).spec_capacity()
        &&& (self.pos_bucket() < (*self.map).spec_capacity() ==> 0 <= self.pos_at() <= (
        *self.map).spec_buckets()[self.pos_bucket()]@.len())
        &&& (self.pos_bucket() == (*self.map).spec_capacity() ==> self.pos_at() == 0)
    }

    /// Start a walk at the first bucket.
    pub fn new(map: &'a mut HashMap<K, V>) -> (r: Self)
        requires
            old(map).wf(),
        ensures
            *r.map == *old(map),
            *final(map) == *final(r.map),
            r.wf_vm(),
            r.remaining_pairs() == pairs_from(old(map).spec_buckets(), 0, 0),
    {
        ValuesMut { map, bucket_idx: 0, bucket_at: 0 }
    }

    /// Yield a mutable borrow of the next value, or nothing once every
    /// value has been yielded.  Writing through the borrow replaces the
    /// value stored for that pair's key and nothing else.
    pub fn next(&mut self) -> (r: Option<&mut V>)
        requires
            old(self).wf_vm(),
        ensures
            mut_ref_future(final(self).map) == mut_ref_future(old(self).map),
            final(self).wf_vm(),
            old(self).remaining_pairs().len() == 0 ==> (r is None
                && (*final(self).map) == (*old(self).map)
                && final(self).remaining_pairs().len() == 0),
            old(self).remaining_pairs().len() > 0 ==> (r matches Some(v)
                && *v == old(self).remaining_pairs()[0].1
                && (*final(self).map)@ =~= (*old(self).map)@.insert(
                old(self).remaining_pairs()[0].0@,
                *final(v),
            )
                && (*old(self).map)@.contains_key(old(self).remaining_pairs()[0].0@)
                && (*final(self).map).spec_len() == (*old(self).map).spec_len()
                && (*final(self).map).spec_capacity() == (*old(self).map).spec_capacity()
                && final(self).remaining_pairs() =~= old(self).remaining_pairs().drop_first()),
    {
        loop
            invariant
                self.map == old(self).map,
                self.wf_vm(),
                self.remaining_pairs() == old(self).remaining_pairs(),
            decreases (*self.map).spec_capacity() - self.pos_bucket(),
        {
            let cap = self.map.bucket_count();
            if self.bucket_idx >= cap {
                return None;
            }
            let bl = self.map.bucket_len_at(self.bucket_idx);
            let ghost i = self.pos_bucket();
            let ghost j = self.pos_at();
            let ghost bs = (*self.map).spec_buckets();
            if self.bucket_at >= bl {
                proof {
                    lemma_pairs_from_next_bucket(bs, i);
                }
                self.bucket_at = 0;
                self.bucket_idx = self.bucket_idx + 1;
            } else {
                let bi = self.bucket_idx;
                let ba = self.bucket_at;
                self.bucket_at = ba + 1;
                proof {
                    assert(bs[i]@.skip(j)[0] == bs[i]@[j]);
                    assert(bs[i]@.skip(j).drop_first() =~= bs[i]@.skip(j + 1));
                    assert(old(self).remaining_pairs().drop_first() =~= pairs_from(bs, i, j + 1));
                    assert forall|bs2: Seq<Bucket<K, V>>|
                        (bs2.len() == bs.len() && (forall|u: int|
                            0 <= u < bs.len() && u != i ==> bs2[u] == bs[u]) && bs2[i]@.len()
                            == bs[i]@.len() && (forall|m: int|
                            j + 1 <= m < bs[i]@.len() ==> bs2[i]@[m] == bs[i]@[m]))
                        implies #[trigger] pairs_from(bs2, i, j + 1) == pairs_from(
                        bs,
                        i,
                        j + 1,
                    ) by {
                        lemma_pairs_from_congruent(bs2, bs, i + 1, 0);
                        assert(bs2[i]@.skip(j + 1) =~= bs[i]@.skip(j + 1));
                    }
                }
                let v = self.map.value_at_mut(bi, ba);
                return Some(v);
            }
        }
    }
}

} // verus!
