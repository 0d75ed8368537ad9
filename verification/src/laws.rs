use vstd::prelude::*;

use crate::grow_capacity;

verus! {

/// Round-trip: storing `v` under `k` makes `k` present with value `v`,
/// whatever the map held before.  With `insert`'s contract
/// (`final@ == old@.insert(k, v)`) and `get`'s (`r` reads `self@[k]`),
/// a lookup right after an insertion returns the value inserted.
pub proof fn lemma_round_trip<KV, V>(m: Map<KV, V>, k: KV, v: V)
    ensures
        m.insert(k, v).contains_key(k),
        m.insert(k, v)[k] == v,
{
}

/// Replacement: a second insertion under the same key leaves the map as
/// if only the second had happened, and the displaced value handed back
/// is the first one stored.  The live-item counter is not part of this
/// law: `insert`'s contract raises `spec_len` by one on every call, also
/// when the key was already present.
pub proof fn lemma_replacement<KV, V>(m: Map<KV, V>, k: KV, v1: V, v2: V)
    ensures
        m.insert(k, v1).contains_key(k),
        m.insert(k, v1)[k] == v1,
        m.insert(k, v1).insert(k, v2) =~= m.insert(k, v2),
        m.insert(k, v1).insert(k, v2)[k] == v2,
{
}

/// Removal: removing `k` right after storing `v` under it hands that `v`
/// back (`remove`'s contract returns `old@[k]`) and leaves a map without
/// `k`; when `k` was absent before the insertion, the map is left as it
/// began.
pub proof fn lemma_removal<KV, V>(m: Map<KV, V>, k: KV, v: V)
    ensures
        m.insert(k, v)[k] == v,
        !m.insert(k, v).remove(k).contains_key(k),
        !m.contains_key(k) ==> m.insert(k, v).remove(k) =~= m,
{
}

/// Idempotent absence: removing a key that is not present changes
/// nothing.  With `remove`'s contract (`final@ == old@.remove(k)` and an
/// untouched counter when nothing came out), a miss leaves the table as
/// it was.
pub proof fn lemma_remove_absent<KV, V>(m: Map<KV, V>, k: KV)
    requires
        !m.contains_key(k),
    ensures
        m.remove(k) =~= m,
{
}

/// Growth trigger: the growth check of `insert` allocates 1024 slots for
/// a missing bucket array, doubles a bucket array whose counter exceeds
/// three pairs per slot, and otherwise leaves the capacity alone; so a
/// firing check always hands out strictly more slots.
pub proof fn lemma_growth(cap: nat, len: nat)
    ensures
        cap == 0 ==> grow_capacity(cap, len) == 1024,
        cap > 0 && len > 3 * cap ==> grow_capacity(cap, len) == 2 * cap,
        cap > 0 && len <= 3 * cap ==> grow_capacity(cap, len) == cap,
        (cap == 0 || len > 3 * cap) ==> grow_capacity(cap, len) > cap,
{
}

/// Entry semantics: `or_insert(v1)` on an absent key stores `v1`; a
/// later `or_insert(v2)` on the now-present key hands back the stored
/// `v1` untouched and stores nothing.  Over the model, the occupied
/// branch re-inserts the value it found, which changes nothing.
pub proof fn lemma_entry_or_insert<KV, V>(m: Map<KV, V>, k: KV, v1: V, v2: V)
    requires
        !m.contains_key(k),
    ensures
        m.insert(k, v1).contains_key(k),
        m.insert(k, v1)[k] == v1,
        m.insert(k, v1).insert(k, m.insert(k, v1)[k]) =~= m.insert(k, v1),
{
}

} // verus!
