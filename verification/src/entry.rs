use vstd::prelude::*;

use crate::key::HashKey;
use crate::HashMap;
use crate::grow_capacity;

verus! {

/// A handle on one key's place in a table: either the key is absent and
/// the handle holds the table, or it is present and the handle holds a
/// mutable borrow of its value.  A handle is consumed by exactly one
/// terminal operation.
pub enum Entry<'a, K: HashKey, V> {
    Vacant(VacantEntry<'a, K, V>),
    Occupied(OccupiedEntry<'a, K, V>),
}

/// The vacant side of an [`Entry`]: the key, and the table it is absent
/// from.
pub struct VacantEntry<'a, K: HashKey, V> {
    pub map: &'a mut HashMap<K, V>,
    pub key: K,
}

/// The occupied side of an [`Entry`]: the key, and a mutable borrow of
/// the value stored for it.
pub struct OccupiedEntry<'a, K: HashKey, V> {
    pub key: K,
    pub value: &'a mut V,
}

impl<'a, K: HashKey, V> Entry<'a, K, V> {
    /// The key this handle stands for.
    pub open spec fn spec_key(self) -> K {
        match self {
            Entry::Vacant(ve) => ve.key,
            Entry::Occupied(oe) => oe.key,
        }
    }

    /// Build the handle for `key`: occupied with a borrow of the stored
    /// value when the table holds the key, vacant with the table itself
    /// otherwise.
    pub fn new(map: &'a mut HashMap<K, V>, key: K) -> (e: Entry<'a, K, V>)
        requires
            old(map).wf(),
        ensures
            old(map)@.contains_key(key@) ==> (e matches Entry::Occupied(oe) && oe.key == key
                && *oe.value == old(map)@[key@] && final(map)@ =~= old(map)@.insert(
                key@,
                *final(oe.value),
            ) && final(map).wf() && final(map).spec_len() == old(map).spec_len()
                && final(map).spec_capacity() == old(map).spec_capacity()),
            !old(map)@.contains_key(key@) ==> (e matches Entry::Vacant(ve) && ve.key == key
                && *ve.map == *old(map) && *final(map) == *final(ve.map)),
    {
        if map.contains_key(&key) {
            let v = map.get_mut(&key).unwrap();
            Entry::Occupied(OccupiedEntry { key, value: v })
        } else {
            Entry::Vacant(VacantEntry { key, map })
        }
    }

    /// Consume the handle: store `val` when vacant, and return a mutable
    /// borrow of the stored value either way.  An occupied handle keeps
    /// its existing value and discards `val`.
    pub fn or_insert(self, val: V) -> (r: &'a mut V)
        requires
            self matches Entry::Vacant(ve) ==> (*ve.map).wf() && (*ve.map).spec_len()
                < usize::MAX,
        ensures
            self matches Entry::Occupied(oe) ==> (*r == *oe.value && *final(oe.value) == *final(r)),
            self matches Entry::Vacant(ve) ==> (*r == val && final(ve.map)@ =~= (
            *ve.map)@.insert(ve.key@, *final(r)) && final(ve.map).wf() && final(ve.map).spec_len()
                == (*ve.map).spec_len() + 1 && final(ve.map).spec_capacity() == grow_capacity(
                (*ve.map).spec_capacity(),
                (*ve.map).spec_len(),
            )),
    {
        match self {
            Entry::Vacant(ve) => ve.map.insert_mut(ve.key, val),
            Entry::Occupied(oe) => oe.value,
        }
    }

    /// Consume the handle as `or_insert` does, producing the value to
    /// store lazily, only when the handle is vacant.
    pub fn or_insert_with<F: FnOnce() -> V>(self, f: F) -> (r: &'a mut V)
        requires
            self matches Entry::Vacant(ve) ==> (*ve.map).wf() && (*ve.map).spec_len() < usize::MAX
                && f.requires(()),
        ensures
            self matches Entry::Occupied(oe) ==> (*r == *oe.value && *final(oe.value) == *final(r)),
            self matches Entry::Vacant(ve) ==> (f.ensures((), *r) && final(ve.map)@ =~= (
            *ve.map)@.insert(ve.key@, *final(r)) && final(ve.map).wf() && final(ve.map).spec_len()
                == (*ve.map).spec_len() + 1 && final(ve.map).spec_capacity() == grow_capacity(
                (*ve.map).spec_capacity(),
                (*ve.map).spec_len(),
            )),
    {
        match self {
            Entry::Vacant(ve) => {
                let v = f();
                ve.map.insert_mut(ve.key, v)
            },
            Entry::Occupied(oe) => oe.value,
        }
    }

    /// The key this handle stands for.
    pub fn key(&self) -> (r: &K)
        ensures
            *r == self.spec_key(),
    {
        match self {
            Entry::Vacant(ve) => &ve.key,
            Entry::Occupied(oe) => &oe.key,
        }
    }

    /// Apply `f` to the stored value of an occupied handle, in place, and
    /// hand the handle back; a vacant handle passes through untouched.
    pub fn and_modify<F: FnOnce(&mut V)>(self, f: F) -> (r: Self)
        requires
            self matches Entry::Occupied(oe) ==> (forall|a: &mut V|
                mut_ref_current(a) == *oe.value ==> #[trigger] f.requires((a,))),
        ensures
            self matches Entry::Vacant(ve) ==> (r matches Entry::Vacant(ve2) && ve2.key == ve.key
                && *ve2.map == *ve.map && *final(ve.map) == *final(ve2.map)),
            self matches Entry::Occupied(oe) ==> (r matches Entry::Occupied(oe2) && oe2.key
                == oe.key && (exists|a: &mut V|
                #[trigger] f.ensures((a,), ()) && mut_ref_current(a) == *oe.value
                    && mut_ref_future(a) == *oe2.value) && *final(oe2.value) == *final(oe.value)),
    {
        match self {
            Entry::Vacant(ve) => Entry::Vacant(ve),
            Entry::Occupied(oe) => {
                f(&mut *oe.value);
                Entry::Occupied(oe)
            },
        }
    }
}

impl<'a, K: HashKey, V> VacantEntry<'a, K, V> {
    /// Store `value` for this handle's key and return a mutable borrow of
    /// the stored value.
    pub fn insert(self, value: V) -> (r: &'a mut V)
        requires
            (*self.map).wf(),
            (*self.map).spec_len() < usize::MAX,
        ensures
            *r == value,
            final(self.map)@ =~= (*old(self.map))@.insert(self.key@, *final(r)),
            final(self.map).wf(),
            final(self.map).spec_len() == (*old(self.map)).spec_len() + 1,
            final(self.map).spec_capacity() == grow_capacity(
                (*old(self.map)).spec_capacity(),
                (*old(self.map)).spec_len(),
            ),
    {
        self.map.insert_mut(self.key, value)
    }
}

} // verus!
