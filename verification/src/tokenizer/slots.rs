//! Open-addressing slot table shared by the prefix indexes.
//!
//! A table of `cap` slots (a power of two) maps 32-bit prefix keys to the
//! index of the most recently inserted pattern with that key. Collisions
//! are resolved by linear probing.

use vstd::prelude::*;

verus! {

/// The 32-bit mixing hash used to place keys.
pub open spec fn hash32_spec(x: u32) -> u32 {
    let v0 = (x as int * 0x9E37_79B1) % 0x1_0000_0000;
    let v1 = (v0 as u32) ^ ((v0 as u32) >> 16u32);
    let v2 = ((v1 as int * 0x85EB_CA6B) % 0x1_0000_0000) as u32;
    v2 ^ (v2 >> 13u32)
}

pub fn hash32(x: u32) -> (r: u32)
    ensures
        r == hash32_spec(x),
{
    let mut v = x.wrapping_mul(0x9E37_79B1);
    v = v ^ (v >> 16);
    v = v.wrapping_mul(0x85EB_CA6B);
    v = v ^ (v >> 13);
    v
}

/// The slot visited after `d` probes for `key`.
pub open spec fn probe_slot(key: u32, mask: usize, d: int) -> int {
    ((hash32_spec(key) as usize & mask) as int + d) % (mask as int + 1)
}

/// Number of used slots among the first `hi`.
pub open spec fn count_used(used: Seq<u8>, hi: int) -> nat
    decreases hi,
{
    if hi <= 0 {
        0
    } else {
        count_used(used, hi - 1) + (if used[hi - 1] != 0 { 1nat } else { 0nat })
    }
}

/// `cap` is a power of two between 2^10 and 2^30.
pub open spec fn is_table_cap(cap: int) -> bool {
    exists|k: nat| 10 <= k <= 30 && cap == vstd::arithmetic::power2::pow2(k)
}

/// The slot table holds the keys `pk` of patterns `0..pk.len()`: each used
/// slot holds a distinct key and the index of the last pattern with it,
/// every pattern's key has a slot, and every slot is reachable by probing
/// from its key's home slot through used slots only.
pub open spec fn table_wf(mask: usize, keys: Seq<u32>, heads: Seq<i32>, used: Seq<u8>, pk: Seq<u32>) -> bool {
    &&& table_shape(mask, keys, heads, used, pk)
    &&& table_heads(mask, keys, heads, used, pk)
    &&& table_distinct(mask, keys, used)
    &&& table_covers(mask, keys, used, pk)
    &&& table_probes(mask, keys, used)
}

/// Sizes, the room left, the used-slot count and the 0/1 flags.
pub open spec fn table_shape(mask: usize, keys: Seq<u32>, heads: Seq<i32>, used: Seq<u8>, pk: Seq<u32>) -> bool {
    let cap = mask as int + 1;
    &&& is_table_cap(cap)
    &&& keys.len() == cap && heads.len() == cap && used.len() == cap
    &&& pk.len() < cap
    &&& count_used(used, cap) <= pk.len()
    &&& forall|s: int| 0 <= s < cap ==> (#[trigger] used[s] == 0 || used[s] == 1)
    &&& forall|s: int| 0 <= s < cap && #[trigger] used[s] == 0 ==> heads[s] == -1
}

/// A used slot's head is the last pattern with the slot's key.
pub open spec fn table_heads(mask: usize, keys: Seq<u32>, heads: Seq<i32>, used: Seq<u8>, pk: Seq<u32>) -> bool {
    forall|s: int|
        0 <= s < mask as int + 1 && #[trigger] used[s] == 1 ==> {
            &&& 0 <= heads[s] < pk.len()
            &&& pk[heads[s] as int] == keys[s]
            &&& forall|q: int| heads[s] < q < pk.len() ==> pk[q] != keys[s]
        }
}

/// Used slots hold distinct keys.
pub open spec fn table_distinct(mask: usize, keys: Seq<u32>, used: Seq<u8>) -> bool {
    forall|s1: int, s2: int|
        0 <= s1 < mask as int + 1 && 0 <= s2 < mask as int + 1 && #[trigger] used[s1] == 1 && #[trigger] used[s2] == 1 && s1 != s2
            ==> keys[s1] != keys[s2]
}

/// Some used slot holds `k`.
pub open spec fn key_in_table(mask: usize, keys: Seq<u32>, used: Seq<u8>, k: u32) -> bool {
    exists|s: int| 0 <= s < mask as int + 1 && used[s] == 1 && keys[s] == k
}

/// Every pattern's key has a slot.
pub open spec fn table_covers(mask: usize, keys: Seq<u32>, used: Seq<u8>, pk: Seq<u32>) -> bool {
    forall|q: int| 0 <= q < pk.len() ==> #[trigger] key_in_table(mask, keys, used, pk[q])
}

/// Every used slot is reached from its key's home slot through used slots.
pub open spec fn table_probes(mask: usize, keys: Seq<u32>, used: Seq<u8>) -> bool {
    forall|s: int|
        0 <= s < mask as int + 1 && #[trigger] used[s] == 1 ==> exists|d: int|
            0 <= d < mask as int + 1 && probe_slot(keys[s], mask, d) == s && forall|d2: int|
                0 <= d2 < d ==> used[#[trigger] probe_slot(keys[s], mask, d2)] == 1
}

/// The index of the last pattern with key `k`, or -1 when there is none.
pub open spec fn last_with_key(pk: Seq<u32>, k: u32, r: int) -> bool {
    &&& r >= -1
    &&& (r == -1 <==> forall|q: int| 0 <= q < pk.len() ==> pk[q] != k)
    &&& r >= 0 ==> r < pk.len() && pk[r] == k && forall|q: int| r < q < pk.len() ==> pk[q] != k
}

/// Masking with a table's capacity minus one is the remainder modulo the capacity.
pub proof fn lemma_mask_mod(x: usize, mask: usize)
    requires
        is_table_cap(mask as int + 1),
    ensures
        (x & mask) as int == (x as int) % (mask as int + 1),
        x & mask < mask as int + 1,
{
    let k = choose|k: nat| 10 <= k <= 30 && mask as int + 1 == vstd::arithmetic::power2::pow2(k);
    vstd::bits::lemma_usize_low_bits_mask_is_mod(x, k);
    vstd::arithmetic::power2::lemma_pow2_pos(k);
    vstd::bits::lemma_usize_pow2_no_overflow(k);
    assert(vstd::bits::low_bits_mask(k) == mask);
    assert((vstd::bits::low_bits_mask(k) as usize) == mask);
    assert((vstd::arithmetic::power2::pow2(k) as usize) as int == mask as int + 1);
    vstd::arithmetic::div_mod::lemma_mod_bound(x as int, mask as int + 1);
}

proof fn lemma_probe_next(key: u32, mask: usize, d: int)
    requires
        is_table_cap(mask as int + 1),
        0 <= d,
    ensures
        probe_slot(key, mask, d + 1) == (probe_slot(key, mask, d) + 1) % (mask as int + 1),
        0 <= probe_slot(key, mask, d) < mask as int + 1,
{
    let cap = mask as int + 1;
    let h = (hash32_spec(key) as usize & mask) as int;
    lemma_table_cap_bounds(cap);
    lemma_mask_mod(hash32_spec(key) as usize, mask);
    vstd::arithmetic::div_mod::lemma_add_mod_noop(h + d, 1, cap);
    vstd::arithmetic::div_mod::lemma_small_mod(1, cap as nat);
    vstd::arithmetic::div_mod::lemma_mod_bound(h + d, cap);
}

proof fn lemma_probe_start(key: u32, mask: usize)
    requires
        is_table_cap(mask as int + 1),
    ensures
        probe_slot(key, mask, 0) == (hash32_spec(key) as usize & mask) as int,
{
    lemma_mask_mod(hash32_spec(key) as usize, mask);
    vstd::arithmetic::div_mod::lemma_small_mod((hash32_spec(key) as usize & mask) as nat, (mask as int + 1) as nat);
}

/// The probe sequence of any key visits every slot within `cap` steps.
proof fn lemma_probe_covers(key: u32, mask: usize, s: int)
    requires
        is_table_cap(mask as int + 1),
        0 <= s < mask as int + 1,
    ensures
        exists|d: int| 0 <= d < mask as int + 1 && probe_slot(key, mask, d) == s,
{
    let cap = mask as int + 1;
    let h = (hash32_spec(key) as usize & mask) as int;
    lemma_mask_mod(hash32_spec(key) as usize, mask);
    if s >= h {
        vstd::arithmetic::div_mod::lemma_small_mod(s as nat, cap as nat);
        assert(probe_slot(key, mask, s - h) == s);
    } else {
        vstd::arithmetic::div_mod::lemma_mod_add_multiples_vanish(s, cap);
        vstd::arithmetic::div_mod::lemma_small_mod(s as nat, cap as nat);
        assert(probe_slot(key, mask, s + cap - h) == s);
    }
}

proof fn lemma_count_used_bound(used: Seq<u8>, hi: int)
    requires
        0 <= hi <= used.len(),
    ensures
        count_used(used, hi) <= hi,
    decreases hi,
{
    if hi > 0 {
        lemma_count_used_bound(used, hi - 1);
    }
}

proof fn lemma_count_used_full(used: Seq<u8>, hi: int)
    requires
        0 <= hi <= used.len(),
        forall|s: int| 0 <= s < hi ==> used[s] != 0,
    ensures
        count_used(used, hi) == hi,
    decreases hi,
{
    if hi > 0 {
        lemma_count_used_full(used, hi - 1);
    }
}

proof fn lemma_count_used_set(used: Seq<u8>, hi: int, s: int)
    requires
        0 <= s < used.len(),
        0 <= hi <= used.len(),
        used[s] == 0,
    ensures
        count_used(used.update(s, 1), hi) == count_used(used, hi) + (if s < hi { 1nat } else { 0nat }),
    decreases hi,
{
    if hi > 0 {
        lemma_count_used_set(used, hi - 1, s);
    }
}

/// Table capacities lie between 1024 and 2^30.
pub proof fn lemma_table_cap_bounds(cap: int)
    requires
        is_table_cap(cap),
    ensures
        1024 <= cap <= 0x4000_0000,
{
    let k = choose|k: nat| 10 <= k <= 30 && cap == vstd::arithmetic::power2::pow2(k);
    vstd::arithmetic::power2::lemma2_to64();
    if k > 10 {
        vstd::arithmetic::power2::lemma_pow2_strictly_increases(10, k);
    }
    if k < 30 {
        vstd::arithmetic::power2::lemma_pow2_strictly_increases(k, 30);
    }
}

/// A key whose probe sequence meets an unused slot before meeting itself is
/// not in the table.
proof fn lemma_absent(mask: usize, keys: Seq<u32>, heads: Seq<i32>, used: Seq<u8>, pk: Seq<u32>, key: u32, d: int)
    requires
        table_wf(mask, keys, heads, used, pk),
        0 <= d <= mask as int + 1,
        d <= mask as int ==> used[probe_slot(key, mask, d)] == 0,
        forall|d2: int| 0 <= d2 < d ==> used[#[trigger] probe_slot(key, mask, d2)] == 1 && keys[probe_slot(key, mask, d2)] != key,
    ensures
        forall|q: int| 0 <= q < pk.len() ==> pk[q] != key,
{
    let cap = mask as int + 1;
    assert forall|q: int| 0 <= q < pk.len() implies pk[q] != key by {
        if pk[q] == key {
            assert(key_in_table(mask, keys, used, pk[q]));
            let s = choose|s: int| 0 <= s < cap && used[s] == 1 && keys[s] == pk[q];
            let ds = choose|ds: int| 0 <= ds < cap && probe_slot(keys[s], mask, ds) == s && forall|d2: int|
                0 <= d2 < ds ==> used[#[trigger] probe_slot(keys[s], mask, d2)] == 1;
            if ds < d {
                assert(keys[probe_slot(key, mask, ds)] != key);
            } else if ds > d {
                assert(used[probe_slot(key, mask, d)] == 1);
            }
        }
    }
}

/// Look up `key`: the index of the last pattern inserted with it, or -1.
pub fn slot_lookup(mask: usize, keys: &Vec<u32>, heads: &Vec<i32>, used: &Vec<u8>, key: u32, Ghost(pk): Ghost<Seq<u32>>) -> (r: i32)
    requires
        table_wf(mask, keys@, heads@, used@, pk),
    ensures
        last_with_key(pk, key, r as int),
{
    let ghost cap = mask as int + 1;
    proof {
        lemma_probe_start(key, mask);
        lemma_table_cap_bounds(cap);
    }
    let mut slot = (hash32(key) as usize) & mask;
    let mut d: usize = 0;
    while d <= mask
        invariant
            table_wf(mask, keys@, heads@, used@, pk),
            cap == mask as int + 1,
            1024 <= cap <= 0x4000_0000,
            d <= cap,
            slot as int == probe_slot(key, mask, d as int),
            forall|d2: int| 0 <= d2 < d ==> used@[#[trigger] probe_slot(key, mask, d2)] == 1 && keys@[probe_slot(key, mask, d2)] != key,
        decreases cap - d,
    {
        proof {
            lemma_probe_next(key, mask, d as int);
        }
        if used[slot] == 0 {
            proof {
                lemma_absent(mask, keys@, heads@, used@, pk, key, d as int);
            }
            return -1;
        }
        if keys[slot] == key {
            return heads[slot];
        }
        proof {
            lemma_mask_mod((slot + 1) as usize, mask);
        }
        slot = (slot + 1) & mask;
        d = d + 1;
    }
    proof {
        lemma_absent(mask, keys@, heads@, used@, pk, key, d as int);
    }
    -1
}

/// Recording pattern `pk.len()` under a key that already has slot `s`.
proof fn lemma_insert_existing(mask: usize, keys: Seq<u32>, heads: Seq<i32>, used: Seq<u8>, pk: Seq<u32>, key: u32, s: int)
    requires
        table_wf(mask, keys, heads, used, pk),
        pk.len() + 1 < mask as int + 1,
        0 <= s < mask as int + 1,
        used[s] == 1,
        keys[s] == key,
    ensures
        table_wf(mask, keys, heads.update(s, pk.len() as i32), used, pk.push(key)),
{
    let cap = mask as int + 1;
    lemma_table_cap_bounds(cap);
    let pk2 = pk.push(key);
    let heads2 = heads.update(s, pk.len() as i32);
    assert(heads2[s] as int == pk.len());
    assert forall|t: int| 0 <= t < cap && #[trigger] used[t] == 1 implies {
        &&& 0 <= heads2[t] < pk2.len()
        &&& pk2[heads2[t] as int] == keys[t]
        &&& forall|q: int| heads2[t] < q < pk2.len() ==> pk2[q] != keys[t]
    } by {
        if t != s {
            assert(keys[t] != keys[s]);
        }
    }
    assert forall|q: int| 0 <= q < pk2.len() implies #[trigger] key_in_table(mask, keys, used, pk2[q]) by {
        if q == pk.len() {
            assert(keys[s] == pk2[q]);
        } else {
            assert(pk2[q] == pk[q]);
            assert(key_in_table(mask, keys, used, pk[q]));
        }
    }
}

/// Recording pattern `pk.len()` under an absent key placed in the unused
/// slot `s` that its probe sequence reaches at step `d`.
proof fn lemma_insert_new(mask: usize, keys: Seq<u32>, heads: Seq<i32>, used: Seq<u8>, pk: Seq<u32>, key: u32, s: int, d: int)
    requires
        table_wf(mask, keys, heads, used, pk),
        pk.len() + 1 < mask as int + 1,
        0 <= d < mask as int + 1,
        s == probe_slot(key, mask, d),
        used[s] == 0,
        forall|d2: int| 0 <= d2 < d ==> used[#[trigger] probe_slot(key, mask, d2)] == 1 && keys[probe_slot(key, mask, d2)] != key,
    ensures
        table_wf(mask, keys.update(s, key), heads.update(s, pk.len() as i32), used.update(s, 1), pk.push(key)),
{
    let cap = mask as int + 1;
    lemma_table_cap_bounds(cap);
    lemma_absent(mask, keys, heads, used, pk, key, d);
    lemma_probe_next(key, mask, d);
    lemma_count_used_set(used, cap, s);
    lemma_key_absent_from_slots(mask, keys, heads, used, pk, key);
    lemma_insert_new_heads(mask, keys, heads, used, pk, key, s);
    lemma_insert_new_distinct(mask, keys, used, key, s);
    lemma_insert_new_covers(mask, keys, used, pk, key, s);
    lemma_insert_new_probes(mask, keys, used, key, s, d);
    let heads2 = heads.update(s, pk.len() as i32);
    let used2 = used.update(s, 1);
    assert forall|t: int| 0 <= t < cap && #[trigger] used2[t] == 0 implies heads2[t] == -1 by {
        assert(t != s);
        assert(used[t] == 0);
    }
}

proof fn lemma_key_absent_from_slots(mask: usize, keys: Seq<u32>, heads: Seq<i32>, used: Seq<u8>, pk: Seq<u32>, key: u32)
    requires
        table_heads(mask, keys, heads, used, pk),
        forall|q: int| 0 <= q < pk.len() ==> pk[q] != key,
    ensures
        forall|t: int| 0 <= t < mask as int + 1 && used[t] == 1 ==> keys[t] != key,
{
    assert forall|t: int| 0 <= t < mask as int + 1 && used[t] == 1 implies keys[t] != key by {
        let q = heads[t] as int;
        assert(pk[q] == keys[t]);
    }
}

proof fn lemma_insert_new_heads(mask: usize, keys: Seq<u32>, heads: Seq<i32>, used: Seq<u8>, pk: Seq<u32>, key: u32, s: int)
    requires
        table_heads(mask, keys, heads, used, pk),
        keys.len() == mask as int + 1 && heads.len() == mask as int + 1 && used.len() == mask as int + 1,
        pk.len() < 0x4000_0000,
        0 <= s < mask as int + 1,
        forall|t: int| 0 <= t < mask as int + 1 && used[t] == 1 ==> keys[t] != key,
    ensures
        table_heads(mask, keys.update(s, key), heads.update(s, pk.len() as i32), used.update(s, 1), pk.push(key)),
{
    let pk2 = pk.push(key);
    let keys2 = keys.update(s, key);
    let heads2 = heads.update(s, pk.len() as i32);
    let used2 = used.update(s, 1);
    assert forall|t: int| 0 <= t < mask as int + 1 && #[trigger] used2[t] == 1 implies {
        &&& 0 <= heads2[t] < pk2.len()
        &&& pk2[heads2[t] as int] == keys2[t]
        &&& forall|q: int| heads2[t] < q < pk2.len() ==> pk2[q] != keys2[t]
    } by {
        if t != s {
            assert(used[t] == 1);
            assert(keys[t] != key);
        } else {
            assert(heads2[t] as int == pk.len());
        }
    }
}

proof fn lemma_insert_new_distinct(mask: usize, keys: Seq<u32>, used: Seq<u8>, key: u32, s: int)
    requires
        table_distinct(mask, keys, used),
        keys.len() == mask as int + 1 && used.len() == mask as int + 1,
        0 <= s < mask as int + 1,
        forall|t: int| 0 <= t < mask as int + 1 && used[t] == 1 ==> keys[t] != key,
    ensures
        table_distinct(mask, keys.update(s, key), used.update(s, 1)),
{
    let keys2 = keys.update(s, key);
    let used2 = used.update(s, 1);
    assert forall|t1: int, t2: int|
        0 <= t1 < mask as int + 1 && 0 <= t2 < mask as int + 1 && #[trigger] used2[t1] == 1 && #[trigger] used2[t2] == 1
            && t1 != t2 implies keys2[t1] != keys2[t2] by {
        if t1 != s && t2 != s {
            assert(used[t1] == 1 && used[t2] == 1);
        } else if t1 == s {
            assert(used[t2] == 1);
        } else {
            assert(used[t1] == 1);
        }
    }
}

proof fn lemma_insert_new_covers(mask: usize, keys: Seq<u32>, used: Seq<u8>, pk: Seq<u32>, key: u32, s: int)
    requires
        table_covers(mask, keys, used, pk),
        keys.len() == mask as int + 1 && used.len() == mask as int + 1,
        0 <= s < mask as int + 1,
        used[s] == 0,
    ensures
        table_covers(mask, keys.update(s, key), used.update(s, 1), pk.push(key)),
{
    let pk2 = pk.push(key);
    let keys2 = keys.update(s, key);
    let used2 = used.update(s, 1);
    assert forall|q: int| 0 <= q < pk2.len() implies #[trigger] key_in_table(mask, keys2, used2, pk2[q]) by {
        if q == pk.len() {
            assert(used2[s] == 1 && keys2[s] == pk2[q]);
        } else {
            assert(pk2[q] == pk[q]);
            assert(key_in_table(mask, keys, used, pk[q]));
            let t = choose|t: int| 0 <= t < mask as int + 1 && used[t] == 1 && keys[t] == pk[q];
            assert(t != s);
            assert(used2[t] == 1 && keys2[t] == pk2[q]);
        }
    }
}

proof fn lemma_insert_new_probes(mask: usize, keys: Seq<u32>, used: Seq<u8>, key: u32, s: int, d: int)
    requires
        table_probes(mask, keys, used),
        is_table_cap(mask as int + 1),
        keys.len() == mask as int + 1 && used.len() == mask as int + 1,
        0 <= d < mask as int + 1,
        s == probe_slot(key, mask, d),
        used[s] == 0,
        forall|d2: int| 0 <= d2 < d ==> used[#[trigger] probe_slot(key, mask, d2)] == 1,
    ensures
        table_probes(mask, keys.update(s, key), used.update(s, 1)),
{
    let cap = mask as int + 1;
    let keys2 = keys.update(s, key);
    let used2 = used.update(s, 1);
    assert forall|t: int|
        0 <= t < cap && #[trigger] used2[t] == 1 implies exists|dd: int|
            0 <= dd < cap && probe_slot(keys2[t], mask, dd) == t && forall|d2: int|
                0 <= d2 < dd ==> used2[#[trigger] probe_slot(keys2[t], mask, d2)] == 1 by {
        if t == s {
            assert(probe_slot(keys2[t], mask, d) == t);
            assert forall|d2: int| 0 <= d2 < d implies used2[#[trigger] probe_slot(keys2[t], mask, d2)] == 1 by {
                lemma_probe_next(key, mask, d2);
            }
        } else {
            assert(used[t] == 1);
            let dd = choose|dd: int| 0 <= dd < cap && probe_slot(keys[t], mask, dd) == t && forall|d2: int|
                0 <= d2 < dd ==> used[#[trigger] probe_slot(keys[t], mask, d2)] == 1;
            assert forall|d2: int| 0 <= d2 < dd implies used2[#[trigger] probe_slot(keys2[t], mask, d2)] == 1 by {
                lemma_probe_next(keys[t], mask, d2);
                assert(used[probe_slot(keys[t], mask, d2)] == 1);
            }
        }
    }
}

/// Find the slot for `key`, claiming the first unused slot on its probe
/// sequence when the key is new. The table keeps room for one more key.
pub fn find_slot_insert(
    key: u32,
    mask: usize,
    keys: &mut Vec<u32>,
    used: &mut Vec<u8>,
    Ghost(heads): Ghost<Seq<i32>>,
    Ghost(pk): Ghost<Seq<u32>>,
) -> (slot: usize)
    requires
        table_wf(mask, old(keys)@, heads, old(used)@, pk),
        pk.len() + 1 < mask as int + 1,
    ensures
        slot <= mask,
        final(used)@[slot as int] == 1,
        final(keys)@[slot as int] == key,
        last_with_key(pk, key, heads[slot as int] as int),
        table_wf(mask, final(keys)@, heads.update(slot as int, pk.len() as i32), final(used)@, pk.push(key)),
{
    let ghost cap = mask as int + 1;
    proof {
        lemma_probe_start(key, mask);
        lemma_table_cap_bounds(cap);
    }
    let mut slot = (hash32(key) as usize) & mask;
    let mut d: usize = 0;
    while d <= mask
        invariant
            table_wf(mask, keys@, heads, used@, pk),
            keys@ == old(keys)@,
            used@ == old(used)@,
            pk.len() + 1 < cap,
            cap == mask as int + 1,
            1024 <= cap <= 0x4000_0000,
            d <= cap,
            slot as int == probe_slot(key, mask, d as int),
            forall|d2: int| 0 <= d2 < d ==> used@[#[trigger] probe_slot(key, mask, d2)] == 1 && keys@[probe_slot(key, mask, d2)] != key,
        decreases cap - d,
    {
        proof {
            lemma_probe_next(key, mask, d as int);
        }
        if used[slot] == 0 {
            proof {
                lemma_insert_new(mask, keys@, heads, used@, pk, key, slot as int, d as int);
                lemma_absent(mask, keys@, heads, used@, pk, key, d as int);
            }
            used.set(slot, 1);
            keys.set(slot, key);
            return slot;
        }
        if keys[slot] == key {
            proof {
                lemma_insert_existing(mask, keys@, heads, used@, pk, key, slot as int);
            }
            return slot;
        }
        proof {
            lemma_mask_mod((slot + 1) as usize, mask);
        }
        slot = (slot + 1) & mask;
        d = d + 1;
    }
    proof {
        // Every slot on the probe sequence is used, so every slot is used,
        // which the count of used slots rules out.
        assert forall|t: int| 0 <= t < cap implies used@[t] != 0 by {
            lemma_probe_covers(key, mask, t);
            let dd = choose|dd: int| 0 <= dd < cap && probe_slot(key, mask, dd) == t;
            assert(used@[probe_slot(key, mask, dd)] == 1);
        }
        lemma_count_used_full(used@, cap);
        assert(false);
    }
    0
}

} // verus!
