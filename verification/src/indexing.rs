use vstd::prelude::*;

use crate::HashMap;
use crate::key::HashKey;

verus! {

impl<K: HashKey, V> HashMap<K, V> {
    /// Direct-index lookup of the value stored for `key`.  Unlike `get`,
    /// this accessor owes an answer: a caller must not ask for an absent
    /// key.
    pub fn index(&self, key: &K) -> (r: &V)
        requires
            self.wf(),
            self@.contains_key(key@),
        ensures
            *r == self@[key@],
    {
        self.get(key).unwrap()
    }
}

} // verus!
