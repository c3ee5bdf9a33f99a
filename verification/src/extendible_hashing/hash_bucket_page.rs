//! One bucket page of the extendible hash index.
//!
//! The page holds three parallel arrays sized to the page: one
//! readable flag per slot (a slot is readable exactly while it holds a
//! live entry), one occupied flag per slot (set once the slot has ever
//! been used; kept for probing variants, not relied on by splitting),
//! and one key-value pair per slot, keys and values being four-byte
//! little-endian words. Flags are stored one byte each, `0` or `1`.

use vstd::bytes::*;
use vstd::prelude::*;

use crate::common::codec::{get_u32, put_u32_pairs, put_u8, u32_pair_byte, zero_bytes};
use crate::disk_management::buffer_pool::{RawPage, PAGE_SIZE};

verus! {

/// How many entries one bucket page holds:
/// `PAGE_SIZE / (1 + 1 + 4 + 4)`.
pub const BUCKET_SLOTS: usize = 409;

/// The flag byte for a bool: `1` for true, `0` for false.
pub open spec fn bool_byte(b: bool) -> u8 {
    if b {
        1
    } else {
        0
    }
}

/// The abstract contents of a bucket page.
pub ghost struct HashBucketView {
    pub readable: Seq<bool>,
    pub occupied: Seq<bool>,
    pub key_values: Seq<(u32, u32)>,
}

impl HashBucketView {
    /// Whether slot `i` holds a live entry.
    pub open spec fn live(self, i: int) -> bool {
        0 <= i < self.readable.len() && self.readable[i]
    }
}

/// The byte at offset `i` of the encoded bucket page.
pub open spec fn spec_bucket_byte(v: HashBucketView, i: int) -> u8 {
    if i < 409 {
        bool_byte(v.readable[i])
    } else if i < 818 {
        bool_byte(v.occupied[i - 409])
    } else if i < 4090 {
        u32_pair_byte(v.key_values, i - 818)
    } else {
        0
    }
}

/// The encoded form of a bucket page: always exactly one page.
pub open spec fn spec_encode_bucket(v: HashBucketView) -> Seq<u8> {
    Seq::new(PAGE_SIZE as nat, |i: int| spec_bucket_byte(v, i))
}

/// The bucket view read back from one page of bytes.
pub open spec fn spec_decode_bucket(s: Seq<u8>) -> HashBucketView {
    HashBucketView {
        readable: Seq::new(BUCKET_SLOTS as nat, |i: int| s[i] != 0),
        occupied: Seq::new(BUCKET_SLOTS as nat, |i: int| s[409 + i] != 0),
        key_values: Seq::new(
            BUCKET_SLOTS as nat,
            |i: int|
                (
                    spec_u32_from_le_bytes(s.subrange(818 + 8 * i, 818 + 8 * i + 4)),
                    spec_u32_from_le_bytes(s.subrange(818 + 8 * i + 4, 818 + 8 * i + 8)),
                ),
        ),
    }
}

/// Law: decoding an encoded bucket page gives back the same view, for
/// every view of the right shape.
pub proof fn lemma_bucket_round_trip(v: HashBucketView)
    requires
        v.readable.len() == BUCKET_SLOTS,
        v.occupied.len() == BUCKET_SLOTS,
        v.key_values.len() == BUCKET_SLOTS,
    ensures
        spec_decode_bucket(spec_encode_bucket(v)) == v,
{
    let enc = spec_encode_bucket(v);
    let dec = spec_decode_bucket(enc);
    assert(dec.readable =~= v.readable);
    assert(dec.occupied =~= v.occupied);
    assert forall|k: int| 0 <= k < 8 * v.key_values.len() implies enc[818 + k] == u32_pair_byte(
        v.key_values,
        k,
    ) by {
        assert(enc[818 + k] == spec_bucket_byte(v, 818 + k));
    }
    assert forall|i: int| 0 <= i < BUCKET_SLOTS implies dec.key_values[i] == v.key_values[i] by {
        crate::common::codec::lemma_u32_pair_field(enc, v.key_values, 818, i);
    }
    assert(dec.key_values =~= v.key_values);
}

/// How many slots of a flag sequence are set.
pub open spec fn spec_live_count(r: Seq<bool>) -> int
    decreases r.len(),
{
    if r.len() == 0 {
        0
    } else {
        spec_live_count(r.drop_last()) + if r.last() {
            1int
        } else {
            0int
        }
    }
}

/// The live count lies between zero and the number of slots.
pub proof fn lemma_live_count_bounds(r: Seq<bool>)
    ensures
        0 <= spec_live_count(r) <= r.len(),
    decreases r.len(),
{
    if r.len() > 0 {
        lemma_live_count_bounds(r.drop_last());
    }
}

/// A sequence with no set flag has live count zero.
pub proof fn lemma_live_count_none(r: Seq<bool>)
    requires
        forall|i: int| 0 <= i < r.len() ==> !r[i],
    ensures
        spec_live_count(r) == 0,
    decreases r.len(),
{
    if r.len() > 0 {
        lemma_live_count_none(r.drop_last());
    }
}

/// Setting one flag moves the live count by exactly the flag change.
pub proof fn lemma_live_count_update(r: Seq<bool>, i: int, b: bool)
    requires
        0 <= i < r.len(),
    ensures
        spec_live_count(r.update(i, b)) == spec_live_count(r) + (if b {
            1int
        } else {
            0int
        }) - (if r[i] {
            1int
        } else {
            0int
        }),
    decreases r.len(),
{
    if i == r.len() - 1 {
        assert(r.update(i, b).drop_last() =~= r.drop_last());
    } else {
        lemma_live_count_update(r.drop_last(), i, b);
        assert(r.update(i, b).drop_last() =~= r.drop_last().update(i, b));
        assert(r.update(i, b).last() == r.last());
    }
}

/// A sequence whose live count is below its length has a free slot.
pub proof fn lemma_live_count_partial_has_free(r: Seq<bool>)
    requires
        spec_live_count(r) < r.len(),
    ensures
        exists|i: int| 0 <= i < r.len() && !r[i],
    decreases r.len(),
{
    if r.len() > 0 {
        if !r.last() {
            assert(!r[r.len() - 1]);
        } else {
            lemma_live_count_partial_has_free(r.drop_last());
            let i = choose|i: int| 0 <= i < r.drop_last().len() && !r.drop_last()[i];
            assert(!r[i]);
        }
    }
}

/// The value of the first live entry of a key, if the key is present.
pub open spec fn spec_bucket_lookup(v: HashBucketView, key: u32) -> Option<u32>
    decreases v.readable.len(),
{
    spec_bucket_lookup_from(v, key, 0)
}

/// The scan for the first live entry of a key, from slot `i` on.
pub open spec fn spec_bucket_lookup_from(v: HashBucketView, key: u32, i: int) -> Option<u32>
    decreases v.readable.len() - i,
{
    if i < 0 || i >= v.readable.len() || i >= v.key_values.len() {
        None
    } else if v.readable[i] && v.key_values[i].0 == key {
        Some(v.key_values[i].1)
    } else {
        spec_bucket_lookup_from(v, key, i + 1)
    }
}

/// The key scan finds a value exactly when some live slot holds the
/// key.
pub proof fn lemma_lookup_some_iff_match(v: HashBucketView, key: u32, s: int)
    requires
        v.readable.len() == v.key_values.len(),
        0 <= s,
    ensures
        spec_bucket_lookup_from(v, key, s) is Some <==> exists|i: int|
            #![auto]
            s <= i < v.readable.len() && v.readable[i] && v.key_values[i].0 == key,
    decreases v.readable.len() - s,
{
    if s < v.readable.len() {
        lemma_lookup_some_iff_match(v, key, s + 1);
    }
}

/// A value the key scan finds is live in the bucket under that key.
pub proof fn lemma_bucket_lookup_value_is_live(v: HashBucketView, key: u32)
    requires
        v.readable.len() == v.key_values.len(),
        spec_bucket_lookup(v, key) is Some,
    ensures
        exists|i: int|
            #![auto]
            v.live(i) && v.key_values[i] == (key, spec_bucket_lookup(v, key).unwrap()),
{
    lemma_bucket_lookup_value_is_live_from(v, key, 0);
}

/// The scan's found value, from any starting slot, is live under the
/// key.
proof fn lemma_bucket_lookup_value_is_live_from(v: HashBucketView, key: u32, s: int)
    requires
        v.readable.len() == v.key_values.len(),
        0 <= s,
        spec_bucket_lookup_from(v, key, s) is Some,
    ensures
        exists|i: int|
            #![auto]
            v.live(i) && v.key_values[i] == (key, spec_bucket_lookup_from(v, key, s).unwrap()),
    decreases v.readable.len() - s,
{
    if s < v.readable.len() && v.readable[s] && v.key_values[s].0 == key {
        assert(v.live(s) && v.key_values[s] == (key, spec_bucket_lookup_from(
            v,
            key,
            s,
        ).unwrap()));
    } else {
        lemma_bucket_lookup_value_is_live_from(v, key, s + 1);
    }
}

/// The scan after an insert: from any slot at or before the filled one,
/// it yields either the inserted value or a value that was already live
/// under the same key.
proof fn lemma_lookup_scan_after_insert(
    b: HashBucketView,
    key: u32,
    value: u32,
    i: int,
    s: int,
)
    requires
        b.readable.len() == b.key_values.len(),
        b.occupied.len() == b.readable.len(),
        0 <= i < b.readable.len(),
        !b.readable[i],
        0 <= s <= i,
    ensures
        ({
            let b2 = HashBucketView {
                readable: b.readable.update(i, true),
                occupied: b.occupied.update(i, true),
                key_values: b.key_values.update(i, (key, value)),
            };
            match spec_bucket_lookup_from(b2, key, s) {
                Some(v) => v == value || exists|j: int|
                    #![auto]
                    0 <= j < b.readable.len() && b.live(j) && b.key_values[j] == (key, v),
                None => false,
            }
        }),
    decreases i - s,
{
    let b2 = HashBucketView {
        readable: b.readable.update(i, true),
        occupied: b.occupied.update(i, true),
        key_values: b.key_values.update(i, (key, value)),
    };
    if s == i {
        assert(b2.readable[s] && b2.key_values[s].0 == key);
    } else {
        if b2.readable[s] && b2.key_values[s].0 == key {
            assert(b.live(s) && b.key_values[s] == (key, b2.key_values[s].1));
        } else {
            lemma_lookup_scan_after_insert(b, key, value, i, s + 1);
        }
    }
}

/// Law: after an insert of `(key, value)` into the first free slot, a
/// lookup of `key` finds a value, and that value was put there by some
/// insert of `key`: the new one, or one already live.
pub proof fn lemma_insert_then_lookup(b: HashBucketView, key: u32, value: u32, i: int)
    requires
        b.readable.len() == b.key_values.len(),
        b.occupied.len() == b.readable.len(),
        0 <= i < b.readable.len(),
        !b.readable[i],
    ensures
        ({
            let b2 = HashBucketView {
                readable: b.readable.update(i, true),
                occupied: b.occupied.update(i, true),
                key_values: b.key_values.update(i, (key, value)),
            };
            match spec_bucket_lookup(b2, key) {
                Some(v) => v == value || exists|j: int|
                    #![auto]
                    0 <= j < b.readable.len() && b.live(j) && b.key_values[j] == (key, v),
                None => false,
            }
        }),
{
    lemma_lookup_scan_after_insert(b, key, value, i, 0);
}

/// One bucket of the extendible hash index: up to `BUCKET_SLOTS` live
/// key-value entries.
pub struct HashBucketPage {
    readable: Vec<bool>,
    has_been_occupied: Vec<bool>,
    pub key_values: Vec<(u32, u32)>,
}

impl View for HashBucketPage {
    type V = HashBucketView;

    closed spec fn view(&self) -> HashBucketView {
        HashBucketView {
            readable: self.readable@,
            occupied: self.has_been_occupied@,
            key_values: self.key_values@,
        }
    }
}

impl HashBucketPage {
    /// All three slot arrays hold exactly one entry per slot.
    pub open spec fn wf(&self) -> bool {
        &&& self@.readable.len() == BUCKET_SLOTS
        &&& self@.occupied.len() == BUCKET_SLOTS
        &&& self@.key_values.len() == BUCKET_SLOTS
    }

    /// Reads a bucket page back from its raw bytes.
    pub fn from_raw_page(raw_page: &RawPage) -> (r: HashBucketPage)
        requires
            raw_page.wf(),
        ensures
            r.wf(),
            r@ == spec_decode_bucket(raw_page@),
    {
        let mut readable: Vec<bool> = Vec::new();
        let mut has_been_occupied: Vec<bool> = Vec::new();
        let mut key_values: Vec<(u32, u32)> = Vec::new();
        let mut i: usize = 0;
        while i < BUCKET_SLOTS
            invariant
                i <= BUCKET_SLOTS,
                raw_page.wf(),
                readable@.len() == i,
                has_been_occupied@.len() == i,
                key_values@.len() == i,
                forall|j: int| 0 <= j < i ==> readable@[j] == (raw_page@[j] != 0),
                forall|j: int| 0 <= j < i ==> has_been_occupied@[j] == (raw_page@[409 + j] != 0),
                forall|j: int|
                    0 <= j < i ==> key_values@[j] == (
                    spec_u32_from_le_bytes(raw_page@.subrange(818 + 8 * j, 818 + 8 * j + 4)),
                    spec_u32_from_le_bytes(raw_page@.subrange(818 + 8 * j + 4, 818 + 8 * j + 8)),
                    ),
            decreases BUCKET_SLOTS - i,
        {
            readable.push(self::read_flag(&raw_page.data, i));
            has_been_occupied.push(self::read_flag(&raw_page.data, 409 + i));
            let key = get_u32(&raw_page.data, 818 + 8 * i);
            let value = get_u32(&raw_page.data, 818 + 8 * i + 4);
            key_values.push((key, value));
            i = i + 1;
        }
        let r = HashBucketPage { readable, has_been_occupied, key_values };
        proof {
            assert(r@.readable =~= spec_decode_bucket(raw_page@).readable);
            assert(r@.occupied =~= spec_decode_bucket(raw_page@).occupied);
            assert(r@.key_values =~= spec_decode_bucket(raw_page@).key_values);
        }
        r
    }

    /// Encodes the bucket into one raw page.
    pub fn to_raw_page(&self) -> (r: RawPage)
        requires
            self.wf(),
        ensures
            r.wf(),
            r@ == spec_encode_bucket(self@),
    {
        let mut page = zero_bytes(PAGE_SIZE);
        let mut i: usize = 0;
        while i < BUCKET_SLOTS
            invariant
                self.wf(),
                i <= BUCKET_SLOTS,
                page@.len() == PAGE_SIZE,
                forall|j: int| 0 <= j < i ==> page@[j] == bool_byte(self@.readable[j]),
                forall|j: int| 0 <= j < i ==> page@[409 + j] == bool_byte(self@.occupied[j]),
                forall|j: int| i <= j < PAGE_SIZE && !(409 <= j < 409 + i) ==> page@[j] == 0,
            decreases BUCKET_SLOTS - i,
        {
            let ghost prev = page@;
            let rflag: u8 = if self.readable[i] {
                1
            } else {
                0
            };
            let oflag: u8 = if self.has_been_occupied[i] {
                1
            } else {
                0
            };
            put_u8(&mut page, i, rflag);
            put_u8(&mut page, 409 + i, oflag);
            i = i + 1;
        }
        put_u32_pairs(&mut page, 818, &self.key_values);
        proof {
            assert forall|i2: int| 0 <= i2 < PAGE_SIZE implies page@[i2] == spec_bucket_byte(
                self@,
                i2,
            ) by {
                if 818 <= i2 < 4090 {
                    assert(page@[818 + (i2 - 818)] == u32_pair_byte(self@.key_values, i2 - 818));
                }
            }
            assert(page@ =~= spec_encode_bucket(self@));
        }
        RawPage::new(page)
    }

    /// Flips the readable flag of a slot; fails past the slot array.
    pub fn toggle_readable(&mut self, index: usize) -> (r: Result<(), &'static str>)
        requires
            old(self).wf(),
        ensures
            final(self).wf(),
            r is Ok <==> index < BUCKET_SLOTS,
            match r {
                Ok(u) => final(self)@ == (HashBucketView {
                    readable: old(self)@.readable.update(
                        index as int,
                        !old(self)@.readable[index as int],
                    ),
                    ..old(self)@
                }),
                Err(e) => final(self)@ == old(self)@,
            },
    {
        if index < self.readable.len() {
            let flag = self.readable[index];
            self.readable[index] = !flag;
            Ok(())
        } else {
            Err("The index is out of bounds.")
        }
    }

    /// The readable flag of a slot; `None` past the slot array.
    pub fn is_readable(&self, index: usize) -> (r: Option<&bool>)
        requires
            self.wf(),
        ensures
            match r {
                Some(b) => index < BUCKET_SLOTS && *b == self@.readable[index as int],
                None => index >= BUCKET_SLOTS,
            },
    {
        if index < self.readable.len() {
            Some(&self.readable[index])
        } else {
            None
        }
    }

    /// Flips the occupied flag of a slot; fails past the slot array.
    pub fn toggle_occupied(&mut self, index: usize) -> (r: Result<(), &'static str>)
        requires
            old(self).wf(),
        ensures
            final(self).wf(),
            r is Ok <==> index < BUCKET_SLOTS,
            match r {
                Ok(u) => final(self)@ == (HashBucketView {
                    occupied: old(self)@.occupied.update(
                        index as int,
                        !old(self)@.occupied[index as int],
                    ),
                    ..old(self)@
                }),
                Err(e) => final(self)@ == old(self)@,
            },
    {
        if index < self.has_been_occupied.len() {
            let flag = self.has_been_occupied[index];
            self.has_been_occupied[index] = !flag;
            Ok(())
        } else {
            Err("The index is out of bounds.")
        }
    }

    /// The occupied flag of a slot; `None` past the slot array.
    pub fn has_been_occupied(&self, index: usize) -> (r: Option<&bool>)
        requires
            self.wf(),
        ensures
            match r {
                Some(b) => index < BUCKET_SLOTS && *b == self@.occupied[index as int],
                None => index >= BUCKET_SLOTS,
            },
    {
        if index < self.has_been_occupied.len() {
            Some(&self.has_been_occupied[index])
        } else {
            None
        }
    }

    /// Sets the occupied flag of a slot; fails past the slot array.
    pub fn set_has_been_occupied(&mut self, index: usize, has_been_occupied: bool) -> (r: Result<
        (),
        &'static str,
    >)
        requires
            old(self).wf(),
        ensures
            final(self).wf(),
            r is Ok <==> index < BUCKET_SLOTS,
            match r {
                Ok(u) => final(self)@ == (HashBucketView {
                    occupied: old(self)@.occupied.update(index as int, has_been_occupied),
                    ..old(self)@
                }),
                Err(e) => final(self)@ == old(self)@,
            },
    {
        if index < self.has_been_occupied.len() {
            self.has_been_occupied[index] = has_been_occupied;
            Ok(())
        } else {
            Err("The index is out of bounds.")
        }
    }

    /// Whether every slot holds a live entry.
    pub fn is_full(&self) -> (r: bool)
        requires
            self.wf(),
        ensures
            r <==> forall|i: int| 0 <= i < BUCKET_SLOTS ==> self@.readable[i],
    {
        let mut i: usize = 0;
        while i < self.readable.len()
            invariant
                self.wf(),
                i <= BUCKET_SLOTS,
                forall|j: int| 0 <= j < i ==> self@.readable[j],
            decreases BUCKET_SLOTS - i,
        {
            if !self.readable[i] {
                return false;
            }
            i = i + 1;
        }
        true
    }

    /// Whether no slot holds a live entry.
    pub fn is_empty(&self) -> (r: bool)
        requires
            self.wf(),
        ensures
            r <==> forall|i: int| 0 <= i < BUCKET_SLOTS ==> !self@.readable[i],
    {
        let mut i: usize = 0;
        while i < self.readable.len()
            invariant
                self.wf(),
                i <= BUCKET_SLOTS,
                forall|j: int| 0 <= j < i ==> !self@.readable[j],
            decreases BUCKET_SLOTS - i,
        {
            if self.readable[i] {
                return false;
            }
            i = i + 1;
        }
        true
    }

    /// The lowest slot holding no live entry, if the bucket is not full.
    fn first_free_index(&self) -> (r: Option<usize>)
        requires
            self.wf(),
        ensures
            match r {
                Some(i) => i < BUCKET_SLOTS && !self@.readable[i as int] && forall|j: int|
                    0 <= j < i ==> self@.readable[j],
                None => forall|i: int| 0 <= i < BUCKET_SLOTS ==> self@.readable[i],
            },
    {
        let mut i: usize = 0;
        while i < self.readable.len()
            invariant
                self.wf(),
                i <= BUCKET_SLOTS,
                forall|j: int| 0 <= j < i ==> self@.readable[j],
            decreases BUCKET_SLOTS - i,
        {
            if !self.readable[i] {
                return Some(i);
            }
            i = i + 1;
        }
        None
    }

    /// Writes the entry into the lowest free slot, marking it live and
    /// occupied. Fails exactly when the bucket is full.
    pub fn insert(&mut self, key: u32, value: u32) -> (r: Result<(), &'static str>)
        requires
            old(self).wf(),
        ensures
            final(self).wf(),
            r is Ok <==> exists|i: int| 0 <= i < BUCKET_SLOTS && !old(self)@.readable[i],
            match r {
                Ok(u) => exists|i: int|
                    {
                        &&& 0 <= i < BUCKET_SLOTS
                        &&& !old(self)@.readable[i]
                        &&& (forall|j: int| 0 <= j < i ==> old(self)@.readable[j])
                        &&& final(self)@ == (HashBucketView {
                            readable: old(self)@.readable.update(i, true),
                            occupied: old(self)@.occupied.update(i, true),
                            key_values: old(self)@.key_values.update(i, (key, value)),
                        })
                    },
                Err(e) => final(self)@ == old(self)@,
            },
    {
        let index = match self.first_free_index() {
            Some(i) => i,
            None => {
                return Err("Inserting would overflow the bucket.");
            },
        };
        self.readable[index] = true;
        self.has_been_occupied[index] = true;
        self.key_values[index] = (key, value);
        proof {
            let i = index as int;
            assert(!old(self)@.readable[i]);
            assert(final(self)@ == (HashBucketView {
                readable: old(self)@.readable.update(i, true),
                occupied: old(self)@.occupied.update(i, true),
                key_values: old(self)@.key_values.update(i, (key, value)),
            }));
        }
        Ok(())
    }

    /// Takes the entry out of a slot: flips the slot's readable flag and
    /// replaces the pair with zeroes, returning what was there. Fails
    /// past the slot array.
    pub fn remove_index(&mut self, index: usize) -> (r: Result<(u32, u32), &'static str>)
        requires
            old(self).wf(),
        ensures
            final(self).wf(),
            r is Ok <==> index < BUCKET_SLOTS,
            match r {
                Ok(pair) => pair == old(self)@.key_values[index as int] && final(self)@
                    == (HashBucketView {
                    readable: old(self)@.readable.update(
                        index as int,
                        !old(self)@.readable[index as int],
                    ),
                    occupied: old(self)@.occupied,
                    key_values: old(self)@.key_values.update(index as int, (0u32, 0u32)),
                }),
                Err(e) => final(self)@ == old(self)@,
            },
    {
        if index >= self.readable.len() {
            return Err("Removal out of bounds");
        }
        let flag = self.readable[index];
        self.readable[index] = !flag;
        let pair = self.key_values[index];
        self.key_values[index] = (0, 0);
        Ok(pair)
    }

    /// Removes the live entry of the given key with the lowest slot:
    /// clears its readable flag and replaces the pair with zeroes,
    /// returning what was there. Fails exactly when no live entry has
    /// the key.
    pub fn remove(&mut self, key_to_remove: u32) -> (r: Result<(u32, u32), &'static str>)
        requires
            old(self).wf(),
        ensures
            final(self).wf(),
            r is Ok <==> exists|i: int|
                0 <= i < BUCKET_SLOTS && old(self)@.readable[i] && old(self)@.key_values[i].0
                    == key_to_remove,
            match r {
                Ok(pair) => exists|i: int|
                    {
                        &&& 0 <= i < BUCKET_SLOTS
                        &&& old(self)@.readable[i]
                        &&& old(self)@.key_values[i].0 == key_to_remove
                        &&& (forall|j: int|
                            0 <= j < i ==> !(old(self)@.readable[j] && old(self)@.key_values[j].0
                                == key_to_remove))
                        &&& pair == old(self)@.key_values[i]
                        &&& final(self)@ == (HashBucketView {
                            readable: old(self)@.readable.update(i, false),
                            occupied: old(self)@.occupied,
                            key_values: old(self)@.key_values.update(i, (0u32, 0u32)),
                        })
                    },
                Err(e) => final(self)@ == old(self)@,
            },
    {
        let mut i: usize = 0;
        while i < self.key_values.len()
            invariant
                self.wf(),
                self@ == old(self)@,
                i <= BUCKET_SLOTS,
                forall|j: int|
                    0 <= j < i ==> !(self@.readable[j] && self@.key_values[j].0 == key_to_remove),
            decreases BUCKET_SLOTS - i,
        {
            if self.key_values[i].0 == key_to_remove && self.readable[i] {
                self.readable[i] = false;
                let pair = self.key_values[i];
                self.key_values[i] = (0, 0);
                return Ok(pair);
            }
            i = i + 1;
        }
        Err("The requested key does not exist.")
    }

    /// The value of the first live entry of the given key; `None` when
    /// no live entry has the key.
    pub fn lookup(&self, key: u32) -> (r: Option<u32>)
        requires
            self.wf(),
        ensures
            r == spec_bucket_lookup(self@, key),
    {
        let mut i: usize = 0;
        while i < self.key_values.len()
            invariant
                self.wf(),
                i <= BUCKET_SLOTS,
                spec_bucket_lookup(self@, key) == spec_bucket_lookup_from(self@, key, i as int),
            decreases BUCKET_SLOTS - i,
        {
            if self.readable[i] && self.key_values[i].0 == key {
                return Some(self.key_values[i].1);
            }
            i = i + 1;
        }
        None
    }

    /// The key stored in a slot, live or not; `None` past the slot
    /// array.
    pub fn key_at(&self, index: usize) -> (r: Option<&u32>)
        requires
            self.wf(),
        ensures
            match r {
                Some(k) => index < BUCKET_SLOTS && *k == self@.key_values[index as int].0,
                None => index >= BUCKET_SLOTS,
            },
    {
        if index < self.key_values.len() {
            Some(&self.key_values[index].0)
        } else {
            None
        }
    }

    /// The value stored in a slot, live or not; `None` past the slot
    /// array.
    pub fn value_at(&self, index: usize) -> (r: Option<&u32>)
        requires
            self.wf(),
        ensures
            match r {
                Some(v) => index < BUCKET_SLOTS && *v == self@.key_values[index as int].1,
                None => index >= BUCKET_SLOTS,
            },
    {
        if index < self.key_values.len() {
            Some(&self.key_values[index].1)
        } else {
            None
        }
    }
}

/// Reads one flag byte as a bool.
fn read_flag(page: &Vec<u8>, off: usize) -> (r: bool)
    requires
        off < page.len(),
    ensures
        r == (page@[off as int] != 0),
{
    page[off] != 0
}

} // verus!
