//! The concrete table: buckets of `(String, i32)` slots with tombstone
//! reuse, and a table routing every key to one bucket by a fixed hash.

use std::collections::hash_map::DefaultHasher;
use std::hash::Hasher;
use vstd::prelude::*;
use vstd::std_specs::hash::DefaultHasherAdditionalSpecFns;
use vstd::utf8::encode_utf8;
use super::{Bucket, Hashtable};

verus! {

/// The key characters of a slot's entry (meaningful only for `Some` slots).
pub open spec fn entry_key(slot: Option<(String, i32)>) -> Seq<char> {
    match slot {
        Some(e) => e.0@,
        None => Seq::empty(),
    }
}

/// The value of a slot's entry (meaningful only for `Some` slots).
pub open spec fn entry_value(slot: Option<(String, i32)>) -> i32 {
    match slot {
        Some(e) => e.1,
        None => 0,
    }
}

/// Whether `slot` holds an entry under key `k`.
pub open spec fn slot_holds(slot: Option<(String, i32)>, k: Seq<char>) -> bool {
    slot is Some && entry_key(slot) == k
}

/// Whether some slot of `slots[0..len)` holds key `k`.
pub open spec fn has_key(slots: Seq<Option<(String, i32)>>, len: int, k: Seq<char>) -> bool {
    exists|i: int| 0 <= i < len && slot_holds(slots[i], k)
}

/// The index of the slot of `slots[0..len)` holding key `k` (meaningful only
/// under `has_key`).
pub open spec fn key_slot(slots: Seq<Option<(String, i32)>>, len: int, k: Seq<char>) -> int {
    choose|i: int| 0 <= i < len && slot_holds(slots[i], k)
}

/// The value stored under key `k` in `slots[0..len)` (meaningful only under
/// `has_key`).
pub open spec fn value_at(slots: Seq<Option<(String, i32)>>, len: int, k: Seq<char>) -> i32 {
    entry_value(slots[key_slot(slots, len, k)])
}

/// How many tombstones (`None` slots) `slots[0..len)` holds.
pub open spec fn tombstone_count(slots: Seq<Option<(String, i32)>>, len: int) -> int
    decreases len,
{
    if len <= 0 {
        0
    } else {
        tombstone_count(slots, len - 1) + (if slots[len - 1] is None {
            1int
        } else {
            0int
        })
    }
}

/// Slot sequences that agree on the counted region hold the same number of
/// tombstones.
proof fn lemma_tombstone_count_agree(
    s1: Seq<Option<(String, i32)>>,
    s2: Seq<Option<(String, i32)>>,
    len: int,
)
    requires
        forall|i: int| 0 <= i < len ==> s1[i] == s2[i],
    ensures
        tombstone_count(s1, len) == tombstone_count(s2, len),
    decreases len,
{
    if len > 0 {
        lemma_tombstone_count_agree(s1, s2, len - 1);
    }
}

/// The tombstone count is non-negative, and positive exactly when some slot
/// of the counted region is a tombstone.
proof fn lemma_tombstone_count_pos(slots: Seq<Option<(String, i32)>>, len: int)
    ensures
        tombstone_count(slots, len) >= 0,
        (exists|i: int| 0 <= i < len && (#[trigger] slots[i]) is None) <==> tombstone_count(
            slots,
            len,
        ) > 0,
    decreases len,
{
    if len > 0 {
        lemma_tombstone_count_pos(slots, len - 1);
        if tombstone_count(slots, len) > 0 {
            if !(slots[len - 1] is None) {
                let i = choose|i: int| 0 <= i < len - 1 && (#[trigger] slots[i]) is None;
                assert(0 <= i < len && slots[i] is None);
            }
        }
        if exists|i: int| 0 <= i < len && (#[trigger] slots[i]) is None {
            let i = choose|i: int| 0 <= i < len && (#[trigger] slots[i]) is None;
            if i < len - 1 {
                assert(exists|i2: int| 0 <= i2 < len - 1 && (#[trigger] slots[i2]) is None);
            }
        }
    }
}

/// Overwriting one slot changes the tombstone count by what the old and new
/// slot each contribute.
proof fn lemma_tombstone_count_update(
    slots: Seq<Option<(String, i32)>>,
    len: int,
    j: int,
    slot: Option<(String, i32)>,
)
    requires
        0 <= j < len <= slots.len(),
    ensures
        tombstone_count(slots.update(j, slot), len) == tombstone_count(slots, len) - (if slots[j]
            is None {
            1int
        } else {
            0int
        }) + (if slot is None {
            1int
        } else {
            0int
        }),
    decreases len,
{
    let s2 = slots.update(j, slot);
    if j == len - 1 {
        lemma_tombstone_count_agree(slots, s2, len - 1);
    } else {
        lemma_tombstone_count_update(slots, len - 1, j, slot);
    }
}

/// The first tombstone of `slots[0..len)`: the least index holding `None`
/// (meaningful only when a tombstone exists).
pub open spec fn first_tombstone(slots: Seq<Option<(String, i32)>>, len: int) -> int {
    choose|j: int|
        0 <= j < len && slots[j] is None && (forall|i: int|
            0 <= i < j ==> (#[trigger] slots[i]) is Some)
}

/// A tombstone with only occupied slots below it is the first tombstone.
proof fn lemma_first_tombstone_is(slots: Seq<Option<(String, i32)>>, len: int, f: int)
    requires
        0 <= f < len,
        slots[f] is None,
        forall|i: int| 0 <= i < f ==> (#[trigger] slots[i]) is Some,
    ensures
        first_tombstone(slots, len) == f,
{
    assert(0 <= f < len && slots[f] is None && (forall|i: int|
        0 <= i < f ==> (#[trigger] slots[i]) is Some));
    let j = first_tombstone(slots, len);
    assert(0 <= j < len && slots[j] is None && (forall|i: int|
        0 <= i < j ==> (#[trigger] slots[i]) is Some));
    if j < f {
        assert(slots[j] is Some);
        assert(false);
    } else if j > f {
        assert(slots[f] is Some);
        assert(false);
    }
}

/// Whether `n` is a power of two.
pub open spec fn is_pow2(n: int) -> bool
    decreases n,
{
    if n <= 0 {
        false
    } else if n == 1 {
        true
    } else {
        n % 2 == 0 && is_pow2(n / 2)
    }
}

/// Doubling keeps a power of two a power of two.
proof fn lemma_pow2_double(n: int)
    requires
        is_pow2(n),
    ensures
        is_pow2(2 * n),
{
    assert(n >= 1);
    assert((2 * n) % 2 == 0);
    assert((2 * n) / 2 == n);
}

/// At most one slot of `slots[0..len)` holds any given key.
pub open spec fn keys_unique(slots: Seq<Option<(String, i32)>>, len: int) -> bool {
    forall|i: int, j: int|
        0 <= i < len && 0 <= j < len && i != j && (#[trigger] slots[i]) is Some && (
        #[trigger] slots[j]) is Some ==> entry_key(slots[i]) != entry_key(slots[j])
}

/// The entries of `slots[0..len)` as a map from key characters to value.
pub open spec fn bucket_map(slots: Seq<Option<(String, i32)>>, len: int) -> Map<Seq<char>, i32> {
    Map::new(|k: Seq<char>| has_key(slots, len, k), |k: Seq<char>| value_at(slots, len, k))
}

/// When slot `j` holds key `k` and keys are unique, slot `j` is the slot the
/// bucket map reads.
proof fn lemma_key_slot_is(slots: Seq<Option<(String, i32)>>, len: int, j: int, k: Seq<char>)
    requires
        keys_unique(slots, len),
        0 <= j < len,
        slot_holds(slots[j], k),
    ensures
        has_key(slots, len, k),
        key_slot(slots, len, k) == j,
        bucket_map(slots, len).contains_key(k),
        bucket_map(slots, len)[k] == entry_value(slots[j]),
{
    assert(has_key(slots, len, k));
    let i = key_slot(slots, len, k);
    assert(0 <= i < len && slot_holds(slots[i], k));
    assert(i == j);
}

/// Writing `Some(e)` over slot `j` — an overwrite of the slot's own key, or
/// the reuse of a tombstone when the key is absent — inserts `e` into the
/// bucket map and keeps keys unique.
proof fn lemma_bucket_map_write(
    slots: Seq<Option<(String, i32)>>,
    len: int,
    j: int,
    e: (String, i32),
)
    requires
        0 <= j < len <= slots.len(),
        keys_unique(slots, len),
        slots[j] is None ==> !has_key(slots, len, e.0@),
        slots[j] is Some ==> entry_key(slots[j]) == e.0@,
    ensures
        keys_unique(slots.update(j, Some(e)), len),
        bucket_map(slots.update(j, Some(e)), len) == bucket_map(slots, len).insert(e.0@, e.1),
{
    let s2 = slots.update(j, Some(e));
    let k = e.0@;
    assert forall|i1: int, i2: int|
        0 <= i1 < len && 0 <= i2 < len && i1 != i2 && (#[trigger] s2[i1]) is Some && (
        #[trigger] s2[i2]) is Some implies entry_key(s2[i1]) != entry_key(s2[i2]) by {
        if i1 != j && i2 != j {
            assert(s2[i1] == slots[i1] && s2[i2] == slots[i2]);
        } else {
            let other: int = if i1 == j {
                i2
            } else {
                i1
            };
            assert(s2[other] == slots[other]);
            if slots[j] is Some {
                assert(entry_key(slots[other]) != entry_key(slots[j]));
            } else {
                assert(!slot_holds(slots[other], k));
            }
        }
    }
    lemma_key_slot_is(s2, len, j, k);
    assert forall|k2: Seq<char>|
        #[trigger] bucket_map(s2, len).contains_key(k2) == bucket_map(slots, len).insert(
            k,
            e.1,
        ).contains_key(k2) && (bucket_map(s2, len).contains_key(k2) ==> bucket_map(s2, len)[k2]
        == bucket_map(slots, len).insert(k, e.1)[k2]) by {
        if k2 == k {
            assert(bucket_map(s2, len)[k2] == e.1);
        } else {
            if has_key(slots, len, k2) {
                let i = key_slot(slots, len, k2);
                assert(0 <= i < len && slot_holds(slots[i], k2));
                assert(i != j);
                assert(s2[i] == slots[i]);
                lemma_key_slot_is(s2, len, i, k2);
                lemma_key_slot_is(slots, len, i, k2);
            }
            if has_key(s2, len, k2) {
                let i = key_slot(s2, len, k2);
                assert(0 <= i < len && slot_holds(s2[i], k2));
                assert(i != j);
                assert(slot_holds(slots[i], k2));
                assert(has_key(slots, len, k2));
            }
        }
    }
    assert(bucket_map(s2, len) =~= bucket_map(slots, len).insert(k, e.1));
}

/// Appending `Some(e)` at index `len` — a true net insertion — extends the
/// scanned region by one slot and inserts `e` into the bucket map.
proof fn lemma_bucket_map_append(slots: Seq<Option<(String, i32)>>, len: int, e: (String, i32))
    requires
        0 <= len < slots.len(),
        keys_unique(slots, len),
        !has_key(slots, len, e.0@),
    ensures
        keys_unique(slots.update(len, Some(e)), len + 1),
        bucket_map(slots.update(len, Some(e)), len + 1) == bucket_map(slots, len).insert(
            e.0@,
            e.1,
        ),
{
    let s2 = slots.update(len, Some(e));
    let k = e.0@;
    assert forall|i1: int, i2: int|
        0 <= i1 < len + 1 && 0 <= i2 < len + 1 && i1 != i2 && (#[trigger] s2[i1]) is Some && (
        #[trigger] s2[i2]) is Some implies entry_key(s2[i1]) != entry_key(s2[i2]) by {
        if i1 != len && i2 != len {
            assert(s2[i1] == slots[i1] && s2[i2] == slots[i2]);
        } else {
            let other: int = if i1 == len {
                i2
            } else {
                i1
            };
            assert(s2[other] == slots[other]);
            assert(!slot_holds(slots[other], k));
        }
    }
    lemma_key_slot_is(s2, len + 1, len, k);
    assert forall|k2: Seq<char>|
        #[trigger] bucket_map(s2, len + 1).contains_key(k2) == bucket_map(slots, len).insert(
            k,
            e.1,
        ).contains_key(k2) && (bucket_map(s2, len + 1).contains_key(k2) ==> bucket_map(
            s2,
            len + 1,
        )[k2] == bucket_map(slots, len).insert(k, e.1)[k2]) by {
        if k2 == k {
            assert(bucket_map(s2, len + 1)[k2] == e.1);
        } else {
            if has_key(slots, len, k2) {
                let i = key_slot(slots, len, k2);
                assert(0 <= i < len && slot_holds(slots[i], k2));
                assert(s2[i] == slots[i]);
                lemma_key_slot_is(s2, len + 1, i, k2);
                lemma_key_slot_is(slots, len, i, k2);
            }
            if has_key(s2, len + 1, k2) {
                let i = key_slot(s2, len + 1, k2);
                assert(0 <= i < len + 1 && slot_holds(s2[i], k2));
                assert(i != len);
                assert(slot_holds(slots[i], k2));
                assert(has_key(slots, len, k2));
            }
        }
    }
    assert(bucket_map(s2, len + 1) =~= bucket_map(slots, len).insert(k, e.1));
}

/// Tombstoning slot `j` removes exactly its key from the bucket map.
proof fn lemma_bucket_map_clear(slots: Seq<Option<(String, i32)>>, len: int, j: int)
    requires
        0 <= j < len <= slots.len(),
        keys_unique(slots, len),
        slots[j] is Some,
    ensures
        keys_unique(slots.update(j, None), len),
        bucket_map(slots.update(j, None), len) == bucket_map(slots, len).remove(
            entry_key(slots[j]),
        ),
{
    let s2 = slots.update(j, None);
    let k = entry_key(slots[j]);
    assert forall|i1: int, i2: int|
        0 <= i1 < len && 0 <= i2 < len && i1 != i2 && (#[trigger] s2[i1]) is Some && (
        #[trigger] s2[i2]) is Some implies entry_key(s2[i1]) != entry_key(s2[i2]) by {
        assert(s2[i1] == slots[i1] && s2[i2] == slots[i2]);
    }
    assert forall|k2: Seq<char>|
        #[trigger] bucket_map(s2, len).contains_key(k2) == bucket_map(slots, len).remove(
            k,
        ).contains_key(k2) && (bucket_map(s2, len).contains_key(k2) ==> bucket_map(s2, len)[k2]
        == bucket_map(slots, len).remove(k)[k2]) by {
        if k2 == k {
            if has_key(s2, len, k2) {
                let i = key_slot(s2, len, k2);
                assert(0 <= i < len && slot_holds(s2[i], k2));
                assert(i != j);
                assert(slot_holds(slots[i], k2));
                lemma_key_slot_is(slots, len, j, k2);
                assert(false);
            }
        } else {
            if has_key(slots, len, k2) {
                let i = key_slot(slots, len, k2);
                assert(0 <= i < len && slot_holds(slots[i], k2));
                assert(i != j);
                assert(s2[i] == slots[i]);
                lemma_key_slot_is(s2, len, i, k2);
                lemma_key_slot_is(slots, len, i, k2);
            }
            if has_key(s2, len, k2) {
                let i = key_slot(s2, len, k2);
                assert(0 <= i < len && slot_holds(s2[i], k2));
                assert(i != j);
                assert(slot_holds(slots[i], k2));
                assert(has_key(slots, len, k2));
            }
        }
    }
    assert(bucket_map(s2, len) =~= bucket_map(slots, len).remove(k));
}

/// A scanned region of length zero holds no entries.
proof fn lemma_bucket_map_zero(slots: Seq<Option<(String, i32)>>)
    ensures
        bucket_map(slots, 0) == Map::<Seq<char>, i32>::empty(),
{
    assert(bucket_map(slots, 0) =~= Map::<Seq<char>, i32>::empty());
}

/// Two slot sequences that agree on the scanned region have the same bucket
/// map: growth, which only pads with `None` past `len`, changes nothing.
proof fn lemma_bucket_map_agree(
    s1: Seq<Option<(String, i32)>>,
    s2: Seq<Option<(String, i32)>>,
    len: int,
)
    requires
        0 <= len <= s1.len(),
        len <= s2.len(),
        forall|i: int| 0 <= i < len ==> s1[i] == s2[i],
        keys_unique(s1, len),
    ensures
        keys_unique(s2, len),
        bucket_map(s2, len) == bucket_map(s1, len),
{
    assert forall|i1: int, i2: int|
        0 <= i1 < len && 0 <= i2 < len && i1 != i2 && (#[trigger] s2[i1]) is Some && (
        #[trigger] s2[i2]) is Some implies entry_key(s2[i1]) != entry_key(s2[i2]) by {
        assert(s2[i1] == s1[i1] && s2[i2] == s1[i2]);
    }
    assert forall|k2: Seq<char>|
        #[trigger] bucket_map(s2, len).contains_key(k2) == bucket_map(s1, len).contains_key(k2) && (
        bucket_map(s2, len).contains_key(k2) ==> bucket_map(s2, len)[k2] == bucket_map(
            s1,
            len,
        )[k2]) by {
        if has_key(s1, len, k2) {
            let i = key_slot(s1, len, k2);
            assert(0 <= i < len && slot_holds(s1[i], k2));
            assert(slot_holds(s2[i], k2));
            lemma_key_slot_is(s2, len, i, k2);
            lemma_key_slot_is(s1, len, i, k2);
        }
        if has_key(s2, len, k2) {
            let i = key_slot(s2, len, k2);
            assert(0 <= i < len && slot_holds(s2[i], k2));
            assert(slot_holds(s1[i], k2));
            assert(has_key(s1, len, k2));
        }
    }
    assert(bucket_map(s2, len) =~= bucket_map(s1, len));
}

/// An ordered, growable sequence of optional key-value slots, resolving
/// collisions by linear scan with lazy tombstone reuse. A removed entry's
/// slot is set to `None` (a tombstone) and reused by a later insertion
/// before the bucket ever grows.
pub struct Int32Array {
    /// The slots; its physical length always equals `capacity`.
    pub array: Vec<Option<(String, i32)>>,
    /// How many slots have been written at least once; only `[0, length)`
    /// is ever scanned.
    pub length: usize,
    /// The allocated slot count; doubles when an insertion finds neither
    /// the key nor a tombstone nor a never-written slot.
    pub capacity: usize,
}

impl Int32Array {
    /// A tombstone (or never-written hole) inside the scanned region.
    pub open spec fn has_tombstone(&self) -> bool {
        exists|i: int| 0 <= i < self.length && (#[trigger] self.array@[i]) is None
    }

    /// How many tombstones the scanned region holds.
    pub open spec fn tombstones(&self) -> int {
        tombstone_count(self.array@, self.length as int)
    }

    /// A bucket has a tombstone exactly when its tombstone count is positive.
    pub proof fn lemma_has_tombstone_iff_count(self)
        ensures
            self.has_tombstone() <==> self.tombstones() > 0,
            self.tombstones() >= 0,
    {
        lemma_tombstone_count_pos(self.array@, self.length as int);
    }

    /// Creates an empty bucket of capacity 1.
    fn new() -> (b: Int32Array)
        ensures
            b.wf(),
            b.contents() == Map::<Seq<char>, i32>::empty(),
            b.length == 0,
            b.capacity == 1,
    {
        let mut array: Vec<Option<(String, i32)>> = Vec::new();
        array.push(None);
        let b = Int32Array { array, length: 0, capacity: 1 };
        proof {
            lemma_bucket_map_zero(b.array@);
            assert(is_pow2(1));
        }
        b
    }

    /// Doubles the bucket's capacity, keeping every slot where it was and
    /// padding the new half with `None`.
    fn grow(&mut self)
        requires
            old(self).capacity == old(self).array@.len(),
    ensures
            final(self).capacity == 2 * old(self).capacity,
            final(self).capacity == final(self).array@.len(),
            final(self).length == old(self).length,
            forall|i: int|
                0 <= i < old(self).array@.len() ==> final(self).array@[i] == old(self).array@[i],
            forall|i: int|
                old(self).array@.len() <= i < final(self).array@.len() ==> (
                #[trigger] final(self).array@[i]) is None,
    {
        let old_cap: usize = self.capacity;
        let mut j: usize = 0;
        while j < old_cap
            invariant
                j <= old_cap,
                old_cap == old(self).capacity,
                old_cap == old(self).array@.len(),
                self.length == old(self).length,
                self.capacity == old(self).capacity,
                self.array@.len() == old(self).array@.len() + j,
                forall|i: int|
                    0 <= i < old(self).array@.len() ==> self.array@[i] == old(self).array@[i],
                forall|i: int|
                    old(self).array@.len() <= i < self.array@.len() ==> (
                    #[trigger] self.array@[i]) is None,
            decreases old_cap - j,
        {
            self.array.push(None);
            j += 1;
        }
        self.capacity = self.array.len();
    }
}

impl Bucket<i32> for Int32Array {
    /// The entries of the scanned region, as a map.
    open spec fn contents(&self) -> Map<Seq<char>, i32> {
        bucket_map(self.array@, self.length as int)
    }

    /// Well-formedness: the capacity names the physical slot count and is
    /// always a power of two, only grown slots are scanned, nothing past
    /// the scanned region has ever been written, no key occupies two slots,
    /// and the capacity exceeds 1 only when a true net insertion forced it
    /// to double.
    open spec fn wf(&self) -> bool {
        &&& self.capacity == self.array@.len()
        &&& self.length <= self.capacity
        &&& is_pow2(self.capacity as int)
        &&& (self.capacity == 1 || self.capacity + 2 <= 2 * self.length)
        &&& (forall|i: int|
            self.length <= i < self.array@.len() ==> (#[trigger] self.array@[i]) is None)
        &&& keys_unique(self.array@, self.length as int)
    }

    /// Linearly scans the slots for `key` and returns the first (and only)
    /// entry's value.
    fn get(&self, key: &str) -> (r: Option<i32>) {
        let key_owned: String = key.to_owned();
        let mut j: usize = 0;
        while j < self.length
            invariant
                self.wf(),
                key_owned@ == key@,
                j <= self.length,
                forall|i: int| 0 <= i < j ==> !slot_holds(self.array@[i], key@),
            decreases self.length - j,
        {
            match &self.array[j] {
                Some(e) => {
                    if e.0 == key_owned {
                        proof {
                            lemma_key_slot_is(
                                self.array@,
                                self.length as int,
                                j as int,
                                key@,
                            );
                        }
                        return Some(e.1);
                    }
                },
                None => {},
            }
            j += 1;
        }
        assert(!has_key(self.array@, self.length as int, key@));
        None
    }

    /// Scans for `key`; overwrites in place on a match, otherwise writes
    /// into the first tombstone seen, otherwise appends, doubling the
    /// capacity first if every slot has been written.
    fn set(&mut self, key: &str, value: i32)
        ensures
            set_post(*old(self), *final(self), key@, value),
    {
        let key_owned: String = key.to_owned();
        let mut first_none: Option<usize> = None;
        let mut j: usize = 0;
        while j < self.length
            invariant
                *self == *old(self),
                old(self).wf(),
                key_owned@ == key@,
                j <= self.length,
                forall|i: int| 0 <= i < j ==> !slot_holds(self.array@[i], key@),
                match first_none {
                    Some(f) => f < j && self.array@[f as int] is None && (forall|i: int|
                        0 <= i < f ==> (#[trigger] self.array@[i]) is Some),
                    None => forall|i: int| 0 <= i < j ==> (#[trigger] self.array@[i]) is Some,
                },
            decreases self.length - j,
        {
            let hit: bool = match &self.array[j] {
                Some(e) => e.0 == key_owned,
                None => false,
            };
            if hit {
                proof {
                    lemma_key_slot_is(self.array@, self.length as int, j as int, key@);
                    lemma_bucket_map_write(
                        self.array@,
                        self.length as int,
                        j as int,
                        (key_owned, value),
                    );
                    lemma_tombstone_count_update(
                        self.array@,
                        self.length as int,
                        j as int,
                        Some((key_owned, value)),
                    );
                }
                self.array[j] = Some((key_owned, value));
                return;
            }
            if first_none.is_none() {
                let vacant: bool = match &self.array[j] {
                    Some(_) => false,
                    None => true,
                };
                if vacant {
                    first_none = Some(j);
                }
            }
            j += 1;
        }
        assert(!has_key(self.array@, self.length as int, key@));
        match first_none {
            Some(f) => {
                proof {
                    lemma_first_tombstone_is(self.array@, self.length as int, f as int);
                    lemma_bucket_map_write(
                        self.array@,
                        self.length as int,
                        f as int,
                        (key_owned, value),
                    );
                    lemma_tombstone_count_update(
                        self.array@,
                        self.length as int,
                        f as int,
                        Some((key_owned, value)),
                    );
                }
                self.array[f] = Some((key_owned, value));
            },
            None => {
                assert(!self.has_tombstone());
                if self.length == self.capacity {
                    let ghost pre_grow = self.array@;
                    self.grow();
                    proof {
                        lemma_bucket_map_agree(
                            pre_grow,
                            self.array@,
                            self.length as int,
                        );
                        lemma_pow2_double(old(self).capacity as int);
                    }
                }
                proof {
                    lemma_bucket_map_append(
                        self.array@,
                        self.length as int,
                        (key_owned, value),
                    );
                    lemma_tombstone_count_pos(old(self).array@, old(self).length as int);
                    lemma_tombstone_count_agree(
                        old(self).array@,
                        self.array@,
                        self.length as int,
                    );
                    lemma_tombstone_count_agree(
                        self.array@,
                        self.array@.update(self.length as int, Some((key_owned, value))),
                        self.length as int,
                    );
                }
                let idx: usize = self.length;
                self.array[idx] = Some((key_owned, value));
                self.length = self.length + 1;
            },
        }
    }

    /// Scans for `key` and tombstones the matching slot; the slot is left in
    /// place, never compacted, and `length` never shrinks.
    fn remove(&mut self, key: &str)
        ensures
            remove_post(*old(self), *final(self), key@),
    {
        let key_owned: String = key.to_owned();
        let mut j: usize = 0;
        while j < self.length
            invariant
                *self == *old(self),
                old(self).wf(),
                key_owned@ == key@,
                j <= self.length,
                forall|i: int| 0 <= i < j ==> !slot_holds(self.array@[i], key@),
            decreases self.length - j,
        {
            let hit: bool = match &self.array[j] {
                Some(e) => e.0 == key_owned,
                None => false,
            };
            if hit {
                proof {
                    lemma_key_slot_is(self.array@, self.length as int, j as int, key@);
                    lemma_bucket_map_clear(self.array@, self.length as int, j as int);
                    lemma_tombstone_count_update(self.array@, self.length as int, j as int, None);
                }
                self.array[j] = None;
                return;
            }
            j += 1;
        }
        assert(!has_key(self.array@, self.length as int, key@));
        proof {
            assert(self.contents() =~= self.contents().remove(key@));
        }
    }
}

/// The one slot a call of [`Bucket::set`] writes: the key's own slot when
/// the key is present, else the first tombstone, else the append position
/// at the end of the scanned region.
pub open spec fn set_slot(pre: Int32Array, k: Seq<char>) -> int {
    if pre.contents().contains_key(k) {
        key_slot(pre.array@, pre.length as int, k)
    } else if pre.has_tombstone() {
        first_tombstone(pre.array@, pre.length as int)
    } else {
        pre.length as int
    }
}

/// Everything one call of [`Bucket::set`] on an `Int32Array` does: the
/// entries gain exactly the new pair, written into the one slot `set_slot`
/// names — the matching slot, else the first tombstone, else the append
/// position — with every other scanned slot left exactly as it was, and
/// the scanned region and capacity grow only when the key is new and no
/// tombstone or never-written slot could take it.
pub open spec fn set_post(pre: Int32Array, post: Int32Array, k: Seq<char>, v: i32) -> bool {
    &&& post.wf()
    &&& post.contents() == pre.contents().insert(k, v)
    &&& slot_holds(post.array@[set_slot(pre, k)], k)
    &&& entry_value(post.array@[set_slot(pre, k)]) == v
    &&& (forall|i: int|
        0 <= i < pre.length && i != set_slot(pre, k) ==> post.array@[i] == pre.array@[i])
    &&& (pre.contents().contains_key(k) ==> post.length == pre.length && post.capacity
        == pre.capacity && post.tombstones() == pre.tombstones())
    &&& (!pre.contents().contains_key(k) && pre.has_tombstone() ==> post.length == pre.length
        && post.capacity == pre.capacity && post.tombstones() == pre.tombstones() - 1)
    &&& (!pre.contents().contains_key(k) && !pre.has_tombstone() ==> post.length == pre.length
        + 1 && post.tombstones() == 0)
    &&& (!pre.contents().contains_key(k) && !pre.has_tombstone() && pre.length < pre.capacity
        ==> post.capacity == pre.capacity)
    &&& (!pre.contents().contains_key(k) && !pre.has_tombstone() && pre.length == pre.capacity
        ==> post.capacity == 2 * pre.capacity)
}

/// Everything one call of [`Bucket::remove`] on an `Int32Array` does: the
/// matching slot — and nothing else — becomes a tombstone, nothing is
/// compacted or shifted, and removing an absent key changes nothing at all.
pub open spec fn remove_post(pre: Int32Array, post: Int32Array, k: Seq<char>) -> bool {
    &&& post.wf()
    &&& post.contents() == pre.contents().remove(k)
    &&& post.length == pre.length
    &&& post.capacity == pre.capacity
    &&& (pre.contents().contains_key(k) ==> post.array@ == pre.array@.update(
        key_slot(pre.array@, pre.length as int, k),
        None,
    ) && post.has_tombstone() && post.tombstones() == pre.tombstones() + 1)
    &&& (!pre.contents().contains_key(k) ==> post == pre)
}

/// The fixed hash of a key: what `DefaultHasher` returns after one write of
/// the key's UTF-8 bytes. A deterministic function of the characters alone.
pub open spec fn spec_hash(key: Seq<char>) -> u64 {
    DefaultHasher::spec_finish(seq![encode_utf8(key)])
}

/// The bucket a key is routed to in a table of `size` buckets: its hash
/// reduced modulo the bucket count. Every operation on the same key in the
/// same table resolves to the same bucket.
pub open spec fn spec_bucket_of(key: Seq<char>, size: int) -> int {
    spec_hash(key) as int % size
}

/// Routing always lands inside the table.
pub proof fn lemma_bucket_of_in_range(key: Seq<char>, size: int)
    requires
        size > 0,
    ensures
        0 <= spec_bucket_of(key, size) < size,
{
}

/// A hash table from string keys to `i32` values: a fixed-length sequence
/// of independent buckets, every operation routed to exactly one of them by
/// the key's hash. The bucket count is set once at construction and never
/// changes.
pub struct Int32Hashtable {
    /// The buckets; the vector's length is fixed at construction.
    pub buckets: Vec<Int32Array>,
    /// The number of buckets; immutable after construction.
    pub size: usize,
}

impl Int32Hashtable {
    /// Allocates a table of `size` empty buckets.
    pub fn new_with_array(size: usize) -> (t: Int32Hashtable)
        requires
            size >= 1,
        ensures
            t.wf(),
            t.size == size,
            t.contents() == Map::<Seq<char>, i32>::empty(),
            forall|i: int|
                0 <= i < size ==> (#[trigger] t.buckets@[i]).length == 0 && t.buckets@[i].capacity
                    == 1,
    {
        let mut buckets: Vec<Int32Array> = Vec::with_capacity(size);
        let mut j: usize = 0;
        while j < size
            invariant
                j <= size,
                buckets@.len() == j,
                forall|i: int|
                    0 <= i < j ==> (#[trigger] buckets@[i]).wf() && buckets@[i].contents()
                        == Map::<Seq<char>, i32>::empty() && buckets@[i].length == 0
                        && buckets@[i].capacity == 1,
            decreases size - j,
        {
            buckets.push(Int32Array::new());
            j += 1;
        }
        let t = Int32Hashtable { buckets, size };
        proof {
            assert(t.contents() =~= Map::<Seq<char>, i32>::empty());
        }
        t
    }

    /// Hashes `key` with the table's one fixed hash function and borrows the
    /// bucket the key routes to.
    fn get_bucket(&self, key: &str) -> (b: &Int32Array)
        requires
            self.wf(),
        ensures
            *b == self.buckets@[spec_bucket_of(key@, self.size as int)],
    {
        let mut hasher = DefaultHasher::new();
        hasher.write(key.as_bytes());
        let hash: u64 = hasher.finish();
        let index: usize = (hash % (self.size as u64)) as usize;
        proof {
            assert(Seq::<Seq<u8>>::empty().push(encode_utf8(key@)) =~= seq![encode_utf8(key@)]);
            assert(hash == spec_hash(key@));
        }
        &self.buckets[index]
    }

    /// Hashes `key` with the table's one fixed hash function and mutably
    /// borrows the bucket the key routes to.
    fn get_mut_bucket(&mut self, key: &str) -> (b: &mut Int32Array)
        requires
            old(self).wf(),
        ensures
            *b == old(self).buckets@[spec_bucket_of(key@, old(self).size as int)],
            final(self).buckets@ == old(self).buckets@.update(
                spec_bucket_of(key@, old(self).size as int),
                *final(b),
            ),
            final(self).size == old(self).size,
    {
        let mut hasher = DefaultHasher::new();
        hasher.write(key.as_bytes());
        let hash: u64 = hasher.finish();
        let index: usize = (hash % (self.size as u64)) as usize;
        proof {
            assert(Seq::<Seq<u8>>::empty().push(encode_utf8(key@)) =~= seq![encode_utf8(key@)]);
            assert(hash == spec_hash(key@));
        }
        &mut self.buckets[index]
    }
}

impl Hashtable<i32> for Int32Hashtable {
    /// The union of the buckets' entries; a key lives only in the bucket it
    /// routes to, so the map reads exactly that bucket at each key.
    open spec fn contents(&self) -> Map<Seq<char>, i32> {
        Map::new(
            |k: Seq<char>|
                self.buckets@[spec_bucket_of(k, self.size as int)].contents().contains_key(k),
            |k: Seq<char>| self.buckets@[spec_bucket_of(k, self.size as int)].contents()[k],
        )
    }

    /// Well-formedness: the bucket count is positive and fixed, and every
    /// bucket is itself well-formed.
    open spec fn wf(&self) -> bool {
        &&& self.size >= 1
        &&& self.buckets@.len() == self.size
        &&& forall|i: int| 0 <= i < self.buckets@.len() ==> (#[trigger] self.buckets@[i]).wf()
    }

    /// Routes to the key's bucket and scans it: the answer comes from
    /// exactly the bucket `spec_bucket_of` names, a deterministic function
    /// of the key's characters and the table's size alone.
    fn get(&self, key: &str) -> (r: Option<i32>)
        ensures
            r == (if self.buckets@[spec_bucket_of(key@, self.size as int)].contents().contains_key(
                key@,
            ) {
                Some(self.buckets@[spec_bucket_of(key@, self.size as int)].contents()[key@])
            } else {
                None::<i32>
            }),
    {
        proof {
            lemma_bucket_of_in_range(key@, self.size as int);
        }
        let b = self.get_bucket(key);
        b.get(key)
    }

    /// Routes to the key's bucket and stores the entry there. Buckets are
    /// fully independent: every other bucket is left untouched.
    fn set(&mut self, key: &str, value: i32)
        ensures
            final(self).size == old(self).size,
            final(self).buckets@.len() == old(self).buckets@.len(),
            forall|i: int|
                0 <= i < old(self).buckets@.len() && i != spec_bucket_of(
                    key@,
                    old(self).size as int,
                ) ==> final(self).buckets@[i] == old(self).buckets@[i],
            set_post(
                old(self).buckets@[spec_bucket_of(key@, old(self).size as int)],
                final(self).buckets@[spec_bucket_of(key@, old(self).size as int)],
                key@,
                value,
            ),
    {
        proof {
            lemma_bucket_of_in_range(key@, old(self).size as int);
        }
        let ghost idx = spec_bucket_of(key@, old(self).size as int);
        let b = self.get_mut_bucket(key);
        b.set(key, value);
        proof {
            assert(self.buckets@[idx].wf());
            assert forall|i: int| 0 <= i < self.buckets@.len() implies (
            #[trigger] self.buckets@[i]).wf() by {
                if i != idx {
                    assert(self.buckets@[i] == old(self).buckets@[i]);
                }
            }
            assert forall|k2: Seq<char>|
                #[trigger] self.contents().contains_key(k2) == old(self).contents().insert(
                    key@,
                    value,
                ).contains_key(k2) && (self.contents().contains_key(k2) ==> self.contents()[k2]
                == old(self).contents().insert(key@, value)[k2]) by {
                lemma_bucket_of_in_range(k2, old(self).size as int);
                let i2 = spec_bucket_of(k2, old(self).size as int);
                if i2 != idx {
                    assert(self.buckets@[i2] == old(self).buckets@[i2]);
                }
            }
            assert(self.contents() =~= old(self).contents().insert(key@, value));
        }
    }

    /// Routes to the key's bucket and tombstones the entry there. Buckets
    /// are fully independent: every other bucket is left untouched, and
    /// removing an absent key leaves every bucket exactly as it was.
    fn remove(&mut self, key: &str)
        ensures
            final(self).size == old(self).size,
            final(self).buckets@.len() == old(self).buckets@.len(),
            forall|i: int|
                0 <= i < old(self).buckets@.len() && i != spec_bucket_of(
                    key@,
                    old(self).size as int,
                ) ==> final(self).buckets@[i] == old(self).buckets@[i],
            remove_post(
                old(self).buckets@[spec_bucket_of(key@, old(self).size as int)],
                final(self).buckets@[spec_bucket_of(key@, old(self).size as int)],
                key@,
            ),
            !old(self).contents().contains_key(key@) ==> final(self).buckets@ == old(
                self,
            ).buckets@,
    {
        proof {
            lemma_bucket_of_in_range(key@, old(self).size as int);
        }
        let ghost idx = spec_bucket_of(key@, old(self).size as int);
        let b = self.get_mut_bucket(key);
        b.remove(key);
        proof {
            assert(self.buckets@[idx].wf());
            assert forall|i: int| 0 <= i < self.buckets@.len() implies (
            #[trigger] self.buckets@[i]).wf() by {
                if i != idx {
                    assert(self.buckets@[i] == old(self).buckets@[i]);
                }
            }
            assert forall|k2: Seq<char>|
                #[trigger] self.contents().contains_key(k2) == old(self).contents().remove(
                    key@,
                ).contains_key(k2) && (self.contents().contains_key(k2) ==> self.contents()[k2]
                == old(self).contents().remove(key@)[k2]) by {
                lemma_bucket_of_in_range(k2, old(self).size as int);
                let i2 = spec_bucket_of(k2, old(self).size as int);
                if i2 != idx {
                    assert(self.buckets@[i2] == old(self).buckets@[i2]);
                }
            }
            assert(self.contents() =~= old(self).contents().remove(key@));
            if !old(self).contents().contains_key(key@) {
                assert(self.buckets@ =~= old(self).buckets@);
            }
        }
    }
}

/// Round trip: storing a value and immediately reading the same key back
/// yields exactly that value, over the map model that the contracts of
/// [`Bucket::set`]/[`Bucket::get`] and [`Hashtable::set`]/[`Hashtable::get`]
/// speak of.
pub proof fn lemma_set_then_get(m: Map<Seq<char>, i32>, k: Seq<char>, v: i32)
    ensures
        m.insert(k, v).contains_key(k),
        m.insert(k, v)[k] == v,
{
}

/// Overwriting: two stores under one key leave the second value, and the
/// second store lengthens neither the bucket's scanned region nor its
/// capacity.
pub proof fn lemma_overwrite(
    b0: Int32Array,
    b1: Int32Array,
    b2: Int32Array,
    k: Seq<char>,
    v1: i32,
    v2: i32,
)
    requires
        b0.wf(),
        set_post(b0, b1, k, v1),
        set_post(b1, b2, k, v2),
    ensures
        b2.contents().contains_key(k),
        b2.contents()[k] == v2,
        b2.length == b1.length,
        b2.capacity == b1.capacity,
{
}

/// Removal: storing a key and then removing it leaves the key absent, over
/// the same map model.
pub proof fn lemma_set_then_remove(m: Map<Seq<char>, i32>, k: Seq<char>, v: i32)
    ensures
        !m.insert(k, v).remove(k).contains_key(k),
{
}

/// Tombstone reuse bounds growth: removing a present key and then storing
/// any key at all reuses the tombstone the removal left behind, so neither
/// the bucket's scanned region nor its capacity grows past what it already
/// was before the removal.
pub proof fn lemma_remove_then_set(
    b0: Int32Array,
    b1: Int32Array,
    b2: Int32Array,
    k1: Seq<char>,
    k2: Seq<char>,
    v: i32,
)
    requires
        b0.wf(),
        b0.contents().contains_key(k1),
        remove_post(b0, b1, k1),
        set_post(b1, b2, k2, v),
    ensures
        b2.length == b0.length,
        b2.capacity == b0.capacity,
{
}

/// Growth only triggers on true net growth: a well-formed bucket's capacity
/// is 1 until an insertion that found every slot occupied doubled it, so it
/// never exceeds twice the scanned length minus two.
pub proof fn lemma_capacity_bounded(b: Int32Array)
    requires
        b.wf(),
    ensures
        b.capacity == 1 || b.capacity + 2 <= 2 * b.length,
{
}

/// Each step of a run of removals, every key present when removed, keeps
/// the scanned length and the capacity and leaves one more tombstone.
proof fn lemma_removal_chain(chain: Seq<Int32Array>, removed: Seq<Seq<char>>, j: int)
    requires
        0 <= j <= removed.len(),
        removed.len() < chain.len(),
        forall|i: int|
            0 <= i < removed.len() ==> chain[i].contents().contains_key(#[trigger] removed[i]),
        forall|i: int|
            0 <= i < removed.len() ==> remove_post(chain[i], chain[i + 1], #[trigger] removed[i]),
    ensures
        chain[j].length == chain[0].length,
        chain[j].capacity == chain[0].capacity,
        chain[j].tombstones() == chain[0].tombstones() + j,
    decreases j,
{
    if j > 0 {
        lemma_removal_chain(chain, removed, j - 1);
        assert(remove_post(chain[j - 1], chain[j], removed[j - 1]));
    }
}

/// Each step of a run of insertions backed by enough tombstones reuses one
/// tombstone instead of growing: the scanned length and the capacity stay.
proof fn lemma_insert_chain(
    chain: Seq<Int32Array>,
    inserted: Seq<Seq<char>>,
    values: Seq<i32>,
    start: int,
    j: int,
)
    requires
        0 <= start,
        0 <= j <= inserted.len(),
        values.len() == inserted.len(),
        start + inserted.len() < chain.len(),
        chain[start].tombstones() >= inserted.len(),
        forall|i: int|
            0 <= i < inserted.len() ==> set_post(
                chain[start + i],
                chain[start + i + 1],
                #[trigger] inserted[i],
                values[i],
            ),
    ensures
        chain[start + j].length == chain[start].length,
        chain[start + j].capacity == chain[start].capacity,
        chain[start + j].tombstones() >= chain[start].tombstones() - j,
    decreases j,
{
    if j > 0 {
        lemma_insert_chain(chain, inserted, values, start, j - 1);
        assert(set_post(chain[start + j - 1], chain[start + j], inserted[j - 1], values[j - 1]));
        chain[start + j - 1].lemma_has_tombstone_iff_count();
    }
}

/// Tombstone reuse bounds growth, in full: from any bucket state, removing
/// some keys, each present when removed, and then storing at most that many
/// keys — any keys at all — leaves the scanned length and the capacity
/// exactly where they started. A mixed workload of insertions and removals
/// therefore needs no more room than its net insertions alone require.
pub proof fn lemma_removals_then_inserts_no_growth(
    chain: Seq<Int32Array>,
    removed: Seq<Seq<char>>,
    inserted: Seq<Seq<char>>,
    values: Seq<i32>,
)
    requires
        chain.len() == removed.len() + inserted.len() + 1,
        values.len() == inserted.len(),
        inserted.len() <= removed.len(),
        forall|i: int|
            0 <= i < removed.len() ==> chain[i].contents().contains_key(#[trigger] removed[i]),
        forall|i: int|
            0 <= i < removed.len() ==> remove_post(chain[i], chain[i + 1], #[trigger] removed[i]),
        forall|i: int|
            0 <= i < inserted.len() ==> set_post(
                chain[removed.len() + i],
                chain[removed.len() + i + 1],
                #[trigger] inserted[i],
                values[i],
            ),
    ensures
        chain.last().length == chain[0].length,
        chain.last().capacity == chain[0].capacity,
{
    let m = removed.len() as int;
    let n = inserted.len() as int;
    lemma_removal_chain(chain, removed, m);
    chain[0].lemma_has_tombstone_iff_count();
    lemma_insert_chain(chain, inserted, values, m, n);
    assert(chain.last() == chain[m + n]);
}

} // verus!
