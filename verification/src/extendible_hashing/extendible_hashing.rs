//! The extendible hash index proper: addressing by the low bits of a
//! stable hash, insertion with bucket splitting, lookup and removal,
//! all through the buffer cache.

use std::collections::hash_map::DefaultHasher;
use std::hash::Hasher;
use vstd::arithmetic::power2::pow2;
use vstd::bytes::spec_u32_to_le_bytes;
use vstd::prelude::*;
use vstd::std_specs::hash::DefaultHasherAdditionalSpecFns;

use crate::disk_management::buffer_pool::BufferPool;
use crate::extendible_hashing::hash_bucket_page::{
    lemma_bucket_lookup_value_is_live, lemma_bucket_round_trip, lemma_live_count_bounds,
    lemma_live_count_none, lemma_live_count_partial_has_free, lemma_live_count_update,
    spec_bucket_lookup, spec_decode_bucket, spec_encode_bucket, spec_live_count, HashBucketPage,
    HashBucketView, BUCKET_SLOTS,
};
use crate::extendible_hashing::hash_directory_page::{
    lemma_directory_round_trip, spec_decode_directory, spec_encode_directory, HashDirectoryPage,
    HashDirectoryView, DIRECTORY_SLOTS,
};

verus! {

/// The stable hash of a key: the default hasher fed the key's four
/// little-endian bytes. The same key always hashes the same way.
pub open spec fn spec_hash_of(key: u32) -> u64 {
    DefaultHasher::spec_finish(seq![spec_u32_to_le_bytes(key)])
}

/// The directory slot a key belongs to: the low `global_depth` bits of
/// its hash.
pub open spec fn spec_slot_of(key: u32, global_depth: u8) -> u64
    recommends
        global_depth < 64,
{
    spec_hash_of(key) % (1u64 << global_depth)
}

/// Hashes a key's bytes with the process-stable default hasher.
pub fn get_hash(key: u32) -> (r: u64)
    ensures
        r == spec_hash_of(key),
{
    let mut hasher = DefaultHasher::new();
    let bytes = vstd::bytes::u32_to_le_bytes(key);
    hasher.write(bytes.as_slice());
    proof {
        assert(hasher@ =~= seq![spec_u32_to_le_bytes(key)]);
    }
    hasher.finish()
}

/// Law: a slot index keeps every hash bit below the directory depth:
/// bit `s` of `hash mod 2^g` is bit `s` of the hash itself, for
/// `s < g`. This is why the slot families a local split tells apart by
/// bit `L-1` of the slot index hold exactly the keys told apart by bit
/// `L-1` of their hashes.
pub proof fn lemma_slot_bit(h: u64, g: u64, s: u64)
    requires
        s < g <= 9,
    ensures
        (((h % (1u64 << g)) >> s) & 1) == ((h >> s) & 1),
{
    vstd::arithmetic::power2::lemma2_to64();
    vstd::arithmetic::power2::lemma_pow2_pos(g as nat);
    vstd::arithmetic::power2::lemma_pow2_pos(s as nat);
    if (g as nat) < 9 {
        vstd::arithmetic::power2::lemma_pow2_strictly_increases(g as nat, 9);
    }
    assert(pow2(g as nat) <= 512);
    vstd::bits::lemma_u64_shl_is_mul(1u64, g);
    assert((1u64 << g) == pow2(g as nat));
    let m = h % (1u64 << g);
    vstd::bits::lemma_u64_shr_is_div(m, s);
    vstd::bits::lemma_u64_shr_is_div(h, s);
    vstd::bits::lemma_u64_low_bits_mask_is_mod(m >> s, 1);
    vstd::bits::lemma_u64_low_bits_mask_is_mod(h >> s, 1);
    vstd::bits::lemma_low_bits_mask_values();
    assert((m >> s) & 1 == (m >> s) % 2);
    assert((h >> s) & 1 == (h >> s) % 2);
    // h splits as pow2(g) * q + m; dividing by pow2(s) hoists out an
    // even multiple, which the final modulo two discards.
    let q = h as int / pow2(g as nat) as int;
    vstd::arithmetic::div_mod::lemma_fundamental_div_mod(h as int, pow2(g as nat) as int);
    assert(h as int == pow2(g as nat) as int * q + (h as int % pow2(g as nat) as int));
    assert(m as int == h as int % pow2(g as nat) as int);
    vstd::arithmetic::power2::lemma_pow2_adds((g - s) as nat, s as nat);
    assert(pow2(g as nat) == pow2((g - s) as nat) * pow2(s as nat));
    let j = pow2((g - s) as nat) as int * q;
    assert(pow2(g as nat) as int * q == j * pow2(s as nat) as int) by (nonlinear_arith)
        requires
            pow2(g as nat) == pow2((g - s) as nat) * pow2(s as nat),
            j == pow2((g - s) as nat) as int * q,
    ;
    vstd::arithmetic::div_mod::lemma_hoist_over_denominator(m as int, j, pow2(s as nat));
    assert(m as int / pow2(s as nat) as int + j == (m as int + j * pow2(s as nat) as int) / pow2(
        s as nat,
    ) as int);
    assert(h as int == m as int + j * pow2(s as nat) as int);
    assert(h as int / pow2(s as nat) as int == m as int / pow2(s as nat) as int + j);
    // j is even: g - s >= 1
    vstd::arithmetic::power2::lemma_pow2_adds(1, (g - s - 1) as nat);
    assert(pow2((g - s) as nat) == 2 * pow2((g - s - 1) as nat));
    let a = pow2((g - s - 1) as nat) as int * q;
    assert(j == 2 * a) by (nonlinear_arith)
        requires
            pow2((g - s) as nat) == 2 * pow2((g - s - 1) as nat),
            j == pow2((g - s) as nat) as int * q,
            a == pow2((g - s - 1) as nat) as int * q,
    ;
    vstd::arithmetic::div_mod::lemma_mod_multiples_vanish(
        a,
        m as int / pow2(s as nat) as int,
        2,
    );
    assert((m as int / pow2(s as nat) as int + 2 * a) % 2 == (m as int / pow2(
        s as nat,
    ) as int) % 2);
    assert((m >> s) as int == m as int / pow2(s as nat) as int);
    assert((h >> s) as int == h as int / pow2(s as nat) as int);
}

/// Law: one more address bit splits a key's new slot into its old slot
/// plus the newly significant hash bit times the old directory size —
/// exactly the two sibling slots a doubling leaves pointing at the old
/// and the new bucket.
pub proof fn lemma_slot_split(h: u64, g: u64)
    requires
        g <= 8,
    ensures
        h % (1u64 << ((g + 1) as u64)) == h % (1u64 << g) + (1u64 << g) * ((h >> g) & 1),
{
    vstd::arithmetic::power2::lemma2_to64();
    vstd::arithmetic::power2::lemma_pow2_pos(g as nat);
    if (g as nat) < 8 {
        vstd::arithmetic::power2::lemma_pow2_strictly_increases(g as nat, 8);
    }
    assert(pow2(g as nat) <= 256);
    vstd::arithmetic::power2::lemma_pow2_adds(g as nat, 1);
    assert(pow2((g + 1) as nat) == pow2(g as nat) * 2);
    vstd::bits::lemma_u64_shl_is_mul(1u64, g);
    vstd::bits::lemma_u64_shl_is_mul(1u64, (g + 1) as u64);
    vstd::bits::lemma_u64_shr_is_div(h, g);
    vstd::bits::lemma_u64_low_bits_mask_is_mod(h >> g, 1);
    vstd::bits::lemma_low_bits_mask_values();
    assert((h >> g) & 1 == (h >> g) % 2);
    vstd::arithmetic::div_mod::lemma_mod_breakdown(h as int, pow2(g as nat) as int, 2);
    assert(h as int % (pow2(g as nat) as int * 2) == pow2(g as nat) as int * ((h as int / pow2(
        g as nat,
    ) as int) % 2) + h as int % pow2(g as nat) as int);
    assert((h >> g) as int == h as int / pow2(g as nat) as int);
}

/// The directory a local split leaves behind, as a value: every slot
/// aliasing the split bucket takes the new local depth, and those whose
/// newly significant bit is zero take the new bucket.
pub open spec fn spec_local_split_dir(
    d: HashDirectoryView,
    new_local_depth: u8,
    new_bid: u32,
    old_bid: u32,
) -> HashDirectoryView {
    HashDirectoryView {
        local_depths: Seq::new(
            DIRECTORY_SLOTS as nat,
            |i: int|
                if i < (1u64 << d.global_depth) && d.bucket_page_ids[i] == old_bid {
                    new_local_depth
                } else {
                    d.local_depths[i]
                },
        ),
        bucket_page_ids: Seq::new(
            DIRECTORY_SLOTS as nat,
            |i: int|
                if i < (1u64 << d.global_depth) && d.bucket_page_ids[i] == old_bid && ((
                i as u64) >> ((new_local_depth - 1) as u64)) & 1 == 0 {
                    new_bid
                } else {
                    d.bucket_page_ids[i]
                },
        ),
        ..d
    }
}

/// The directory a global split leaves behind, as a value: the depth
/// grows by one, every old slot is mirrored into its new sibling, and
/// the split slot takes the new bucket.
pub open spec fn spec_global_split_dir(
    d: HashDirectoryView,
    bucket_index: int,
    new_bid: u32,
) -> HashDirectoryView {
    HashDirectoryView {
        global_depth: (d.global_depth + 1) as u8,
        local_depths: Seq::new(
            DIRECTORY_SLOTS as nat,
            |i: int|
                if (1u64 << d.global_depth) <= i < 2 * (1u64 << d.global_depth) {
                    d.local_depths[i - (1u64 << d.global_depth)]
                } else {
                    d.local_depths[i]
                },
        ),
        bucket_page_ids: Seq::new(
            DIRECTORY_SLOTS as nat,
            |i: int|
                if i == bucket_index {
                    new_bid
                } else if (1u64 << d.global_depth) <= i < 2 * (1u64 << d.global_depth) {
                    d.bucket_page_ids[i - (1u64 << d.global_depth)]
                } else {
                    d.bucket_page_ids[i]
                },
        ),
        ..d
    }
}

/// Redirects every slot that aliases the bucket being split: all of
/// them take the new local depth, and those whose newly significant bit
/// is zero take the new bucket.
pub fn local_split_bucket(
    directory_page: &mut HashDirectoryPage,
    new_local_depth: u8,
    new_bucket_page_id: usize,
    old_bucket_page_id: u32,
)
    requires
        old(directory_page).wf(),
        old(directory_page)@.global_depth <= 9,
        1 <= new_local_depth <= 64,
        new_bucket_page_id <= u32::MAX,
    ensures
        final(directory_page).wf(),
        final(directory_page)@.global_depth == old(directory_page)@.global_depth,
        final(directory_page)@.page_id == old(directory_page)@.page_id,
        final(directory_page)@.log_id == old(directory_page)@.log_id,
        forall|i: int|
            0 <= i < (1u64 << old(directory_page)@.global_depth) ==> {
                if old(directory_page)@.bucket_page_ids[i] == old_bucket_page_id {
                    &&& final(directory_page)@.local_depths[i] == new_local_depth
                    &&& final(directory_page)@.bucket_page_ids[i] == if ((i as u64) >> (
                        (new_local_depth - 1) as u64)) & 1 == 0 {
                        new_bucket_page_id as u32
                    } else {
                        old_bucket_page_id
                    }
                } else {
                    &&& final(directory_page)@.local_depths[i] == old(directory_page)@.local_depths[i]
                    &&& final(directory_page)@.bucket_page_ids[i] == old(directory_page)@.bucket_page_ids[i]
                }
            },
        forall|i: int|
            (1u64 << old(directory_page)@.global_depth) <= i < DIRECTORY_SLOTS ==> final(directory_page)@.local_depths[i] == old(directory_page)@.local_depths[i] && final(directory_page)@.bucket_page_ids[i] == old(directory_page)@.bucket_page_ids[i],
        final(directory_page)@ == spec_local_split_dir(
            old(directory_page)@,
            new_local_depth,
            new_bucket_page_id as u32,
            old_bucket_page_id,
        ),
{
    let gd = directory_page.get_global_depth();
    proof {
        assert((1u64 << gd) <= 512) by (bit_vector)
            requires
                gd <= 9,
        ;
    }
    let slots = (1u64 << gd) as usize;
    let mut i: usize = 0;
    while i < slots
        invariant
            directory_page.wf(),
            directory_page@.global_depth == old(directory_page)@.global_depth,
            directory_page@.page_id == old(directory_page)@.page_id,
            directory_page@.log_id == old(directory_page)@.log_id,
            1 <= new_local_depth <= 64,
            new_bucket_page_id <= u32::MAX,
            slots == (1u64 << old(directory_page)@.global_depth),
            slots <= DIRECTORY_SLOTS,
            i <= slots,
            forall|j: int|
                0 <= j < i ==> {
                    if old(directory_page)@.bucket_page_ids[j] == old_bucket_page_id {
                        &&& directory_page@.local_depths[j] == new_local_depth
                        &&& directory_page@.bucket_page_ids[j] == if ((j as u64) >> ((
                        new_local_depth - 1) as u64)) & 1 == 0 {
                            new_bucket_page_id as u32
                        } else {
                            old_bucket_page_id
                        }
                    } else {
                        &&& directory_page@.local_depths[j] == old(directory_page)@.local_depths[j]
                        &&& directory_page@.bucket_page_ids[j] == old(directory_page)@.bucket_page_ids[j]
                    }
                },
            forall|j: int|
                i <= j < DIRECTORY_SLOTS ==> directory_page@.local_depths[j] == old(directory_page)@.local_depths[j] && directory_page@.bucket_page_ids[j] == old(directory_page)@.bucket_page_ids[j],
        decreases slots - i,
    {
        let bucket_here = *directory_page.get_bucket_page_id(i).unwrap();
        if bucket_here == old_bucket_page_id {
            let set_depth = directory_page.set_local_depth(i, new_local_depth);
            proof {
                assert(set_depth is Ok);
            }
            if ((i as u64) >> ((new_local_depth - 1) as u64)) & 1 == 0 {
                let set_bucket = directory_page.set_bucket_page_id(i, new_bucket_page_id as u32);
                proof {
                    assert(set_bucket is Ok);
                }
            }
        }
        i = i + 1;
    }
    proof {
        let transformed = spec_local_split_dir(
            old(directory_page)@,
            new_local_depth,
            new_bucket_page_id as u32,
            old_bucket_page_id,
        );
        assert(directory_page@.local_depths =~= transformed.local_depths);
        assert(directory_page@.bucket_page_ids =~= transformed.bucket_page_ids);
    }
}

/// Law: after a local split, a key whose slot aliased the split bucket
/// routes to the new bucket exactly when the newly significant bit of
/// its hash is zero, and back to the old bucket otherwise — so each
/// rehashed entry is found where the directory now points its key.
pub proof fn lemma_local_split_routes_by_bit(
    d: HashDirectoryView,
    new_local_depth: u8,
    new_bid: u32,
    old_bid: u32,
    key: u32,
)
    requires
        d.local_depths.len() == DIRECTORY_SLOTS,
        d.bucket_page_ids.len() == DIRECTORY_SLOTS,
        1 <= new_local_depth <= d.global_depth <= 9,
        d.bucket_page_ids[spec_slot_of(key, d.global_depth) as int] == old_bid,
    ensures
        ({
            let t = spec_local_split_dir(d, new_local_depth, new_bid, old_bid);
            let slot = spec_slot_of(key, d.global_depth) as int;
            t.bucket_page_ids[slot] == if (spec_hash_of(key) >> ((new_local_depth - 1) as u64))
                & 1 == 0 {
                new_bid
            } else {
                old_bid
            }
        }),
{
    let g = d.global_depth as u64;
    let gb = d.global_depth;
    let s = (new_local_depth - 1) as u64;
    let h = spec_hash_of(key);
    lemma_slot_bit(h, g, s);
    assert((1u64 << gb) == (1u64 << g) && (1u64 << g) >= 1) by (bit_vector)
        requires
            g == gb as u64,
            g <= 9,
    ;
    assert(spec_slot_of(key, d.global_depth) == h % (1u64 << g));
    assert(spec_slot_of(key, d.global_depth) < (1u64 << g));
    assert(((spec_slot_of(key, d.global_depth)) >> s) & 1 == (h >> s) & 1);
    let slot = spec_slot_of(key, d.global_depth) as int;
    assert((slot as u64) == spec_slot_of(key, d.global_depth));
    assert(((slot as u64) >> ((new_local_depth - 1) as u64)) & 1 == (h >> s) & 1);
    assert((1u64 << gb) <= 512) by (bit_vector)
        requires
            gb <= 9,
    ;
    assert(0 <= slot < DIRECTORY_SLOTS);
    let tr = spec_local_split_dir(d, new_local_depth, new_bid, old_bid);
    if (h >> s) & 1 == 0 {
        assert(tr.bucket_page_ids[slot] == new_bid);
    } else {
        assert(tr.bucket_page_ids[slot] == d.bucket_page_ids[slot]);
    }
}

/// Law: after the directory doubles at a key's slot, the key routes to
/// the new bucket exactly when the newly significant hash bit is zero,
/// and to the old slot's bucket — now reached through the mirror slot —
/// otherwise.
pub proof fn lemma_global_split_routes_by_bit(d: HashDirectoryView, new_bid: u32, key: u32)
    requires
        d.local_depths.len() == DIRECTORY_SLOTS,
        d.bucket_page_ids.len() == DIRECTORY_SLOTS,
        d.global_depth <= 8,
    ensures
        ({
            let g = d.global_depth;
            let slot = spec_slot_of(key, g) as int;
            let t = spec_global_split_dir(d, slot, new_bid);
            t.bucket_page_ids[spec_slot_of(key, (g + 1) as u8) as int] == if (spec_hash_of(key)
                >> (g as u64)) & 1 == 0 {
                new_bid
            } else {
                d.bucket_page_ids[slot]
            }
        }),
{
    let g = d.global_depth as u64;
    let gb = d.global_depth;
    let h = spec_hash_of(key);
    lemma_slot_split(h, g);
    assert((1u64 << gb) == (1u64 << g) && (1u64 << ((gb + 1) as u8)) == (1u64 << ((g + 1) as u64))
        && (1u64 << g) >= 1 && (1u64 << ((g + 1) as u64)) == 2 * (1u64 << g) && ((h >> g) & 1)
        <= 1 && ((h >> gb) & 1) == ((h >> g) & 1)) by (bit_vector)
        requires
            g == gb as u64,
            g <= 8,
    ;
    assert(spec_slot_of(key, d.global_depth) < (1u64 << g));
    assert(spec_slot_of(key, (d.global_depth + 1) as u8) == spec_slot_of(key, d.global_depth) + (
    1u64 << g) * ((h >> g) & 1));
    assert((1u64 << ((gb + 1) as u8)) <= 512) by (bit_vector)
        requires
            gb <= 8,
    ;
    let slot = spec_slot_of(key, d.global_depth) as int;
    let slot2 = spec_slot_of(key, (d.global_depth + 1) as u8) as int;
    let tr = spec_global_split_dir(d, slot, new_bid);
    assert(0 <= slot < DIRECTORY_SLOTS && 0 <= slot2 < DIRECTORY_SLOTS);
    if (h >> g) & 1 == 0 {
        assert(spec_slot_of(key, (d.global_depth + 1) as u8) == spec_slot_of(
            key,
            d.global_depth,
        ));
        assert(tr.bucket_page_ids[slot2] == new_bid);
    } else {
        assert(spec_slot_of(key, (d.global_depth + 1) as u8) == spec_slot_of(
            key,
            d.global_depth,
        ) + (1u64 << g));
        assert(slot2 == slot + (1u64 << gb));
        assert(slot2 != slot);
        assert((1u64 << gb) <= slot2 < 2 * (1u64 << gb));
        assert(tr.bucket_page_ids[slot2] == d.bucket_page_ids[slot2 - (1u64 << gb)]);
        assert(slot2 - (1u64 << gb) == slot);
    }
}

/// Law: a local split keeps slots that alias one bucket agreeing on
/// their local depth. Given a directory in which aliased slots had
/// equal depths and a fresh bucket id nowhere in the table, the
/// directory a local split leaves behind has the same property: the
/// split slots all take the new depth, and everything else kept both
/// its pointer and its depth.
pub proof fn lemma_local_split_preserves_alias_depths(
    pre: HashDirectoryView,
    post: HashDirectoryView,
    new_local_depth: u8,
    new_bid: u32,
    old_bid: u32,
)
    requires
        pre.local_depths.len() == DIRECTORY_SLOTS,
        pre.bucket_page_ids.len() == DIRECTORY_SLOTS,
        pre.global_depth <= 9,
        post.global_depth == pre.global_depth,
        new_local_depth >= 1,
        new_bid != old_bid,
        forall|i: int|
            0 <= i < (1u64 << pre.global_depth) ==> (#[trigger] pre.bucket_page_ids[i]) != new_bid,
        forall|i: int|
            0 <= i < (1u64 << pre.global_depth) ==> {
                if (#[trigger] pre.bucket_page_ids[i]) == old_bid {
                    &&& post.local_depths[i] == new_local_depth
                    &&& post.bucket_page_ids[i] == if ((i as u64) >> ((new_local_depth - 1)
                        as u64)) & 1 == 0 {
                        new_bid
                    } else {
                        old_bid
                    }
                } else {
                    &&& post.local_depths[i] == pre.local_depths[i]
                    &&& post.bucket_page_ids[i] == pre.bucket_page_ids[i]
                }
            },
        forall|i: int, j: int|
            0 <= i < (1u64 << pre.global_depth) && 0 <= j < (1u64 << pre.global_depth) && (
            #[trigger] pre.bucket_page_ids[i]) == (#[trigger] pre.bucket_page_ids[j])
                ==> pre.local_depths[i] == pre.local_depths[j],
    ensures
        forall|i: int, j: int|
            0 <= i < (1u64 << post.global_depth) && 0 <= j < (1u64 << post.global_depth) && (
            #[trigger] post.bucket_page_ids[i]) == (#[trigger] post.bucket_page_ids[j])
                ==> post.local_depths[i] == post.local_depths[j],
{
    assert forall|i: int, j: int|
        0 <= i < (1u64 << post.global_depth) && 0 <= j < (1u64 << post.global_depth) && (
        #[trigger] post.bucket_page_ids[i]) == (#[trigger] post.bucket_page_ids[j]) implies
        post.local_depths[i] == post.local_depths[j] by {
        if pre.bucket_page_ids[i] == old_bid && pre.bucket_page_ids[j] == old_bid {
        } else if pre.bucket_page_ids[i] == old_bid {
            assert(pre.bucket_page_ids[j] != new_bid && pre.bucket_page_ids[j] != old_bid);
            assert(false);
        } else if pre.bucket_page_ids[j] == old_bid {
            assert(pre.bucket_page_ids[i] != new_bid && pre.bucket_page_ids[i] != old_bid);
            assert(false);
        } else {
            assert(pre.local_depths[i] == pre.local_depths[j]);
        }
    }
}

/// Doubles the directory: raises the global depth by one, mirrors every
/// old slot into its new sibling, then redirects the split slot to the
/// new bucket.
pub fn global_split_bucket(
    directory_page: &mut HashDirectoryPage,
    bucket_index: usize,
    new_bucket_page_id: usize,
)
    requires
        old(directory_page).wf(),
        old(directory_page)@.global_depth < 9,
        bucket_index < (1u64 << old(directory_page)@.global_depth),
        new_bucket_page_id <= u32::MAX,
    ensures
        final(directory_page).wf(),
        final(directory_page)@.global_depth == old(directory_page)@.global_depth + 1,
        final(directory_page)@.page_id == old(directory_page)@.page_id,
        final(directory_page)@.log_id == old(directory_page)@.log_id,
        final(directory_page)@.bucket_page_ids[bucket_index as int] == new_bucket_page_id as u32,
        forall|i: int|
            0 <= i < (1u64 << old(directory_page)@.global_depth) && i != bucket_index ==> final(directory_page)@.bucket_page_ids[i] == old(directory_page)@.bucket_page_ids[i],
        forall|i: int|
            0 <= i < (1u64 << old(directory_page)@.global_depth) ==> final(directory_page)@.local_depths[i] == old(directory_page)@.local_depths[i],
        forall|i: int|
            0 <= i < (1u64 << old(directory_page)@.global_depth) ==> {
                &&& final(directory_page)@.bucket_page_ids[i + (1u64 << old(directory_page)@.global_depth)] == old(directory_page)@.bucket_page_ids[i]
                &&& final(directory_page)@.local_depths[i + (1u64 << old(directory_page)@.global_depth)] == old(directory_page)@.local_depths[i]
            },
        final(directory_page)@ == spec_global_split_dir(
            old(directory_page)@,
            bucket_index as int,
            new_bucket_page_id as u32,
        ),
{
    let old_global_depth = directory_page.get_global_depth();
    proof {
        assert((1u64 << old_global_depth) <= 256 && (1u64 << (old_global_depth + 1)) == 2 * (
        1u64 << old_global_depth)) by (bit_vector)
            requires
                old_global_depth < 9,
        ;
    }
    directory_page.increment_global_depth();
    let half = (1u64 << old_global_depth) as usize;
    let mut i: usize = 0;
    while i < half
        invariant
            directory_page.wf(),
            directory_page@.global_depth == old(directory_page)@.global_depth + 1,
            directory_page@.page_id == old(directory_page)@.page_id,
            directory_page@.log_id == old(directory_page)@.log_id,
            half == (1u64 << old(directory_page)@.global_depth),
            2 * half <= DIRECTORY_SLOTS,
            i <= half,
            forall|j: int|
                0 <= j < half ==> directory_page@.bucket_page_ids[j] == old(directory_page)@.bucket_page_ids[j] && directory_page@.local_depths[j] == old(directory_page)@.local_depths[j],
            forall|j: int|
                0 <= j < i ==> directory_page@.bucket_page_ids[j + half] == old(directory_page)@.bucket_page_ids[j] && directory_page@.local_depths[j + half] == old(directory_page)@.local_depths[j],
            forall|j: int|
                i + half <= j < DIRECTORY_SLOTS ==> directory_page@.bucket_page_ids[j] == old(directory_page)@.bucket_page_ids[j] && directory_page@.local_depths[j] == old(directory_page)@.local_depths[j],
        decreases half - i,
    {
        let bucket_here = *directory_page.get_bucket_page_id(i).unwrap();
        let depth_here = *directory_page.get_local_depth(i).unwrap();
        let set_bucket = directory_page.set_bucket_page_id(i + half, bucket_here);
        proof {
            assert(set_bucket is Ok);
        }
        let set_depth = directory_page.set_local_depth(i + half, depth_here);
        proof {
            assert(set_depth is Ok);
        }
        i = i + 1;
    }
    let set_split = directory_page.set_bucket_page_id(bucket_index, new_bucket_page_id as u32);
    proof {
        assert(set_split is Ok);
        let transformed = spec_global_split_dir(
            old(directory_page)@,
            bucket_index as int,
            new_bucket_page_id as u32,
        );
        assert(directory_page@.local_depths =~= transformed.local_depths);
        assert(directory_page@.bucket_page_ids =~= transformed.bucket_page_ids);
    }
}

/// Moves every live entry whose newly significant hash bit is zero from
/// the overflowing bucket into the fresh, still empty one. Afterwards
/// every entry left behind has the bit set and every moved entry has it
/// clear: exactly the split the directory's new depth calls for. Fails
/// only if the fresh bucket would itself overflow, which a real split
/// cannot cause.
pub fn rehash_bucket(
    bucket_page: &mut HashBucketPage,
    new_bucket_page: &mut HashBucketPage,
    new_local_depth: u8,
) -> (r: Result<(), &'static str>)
    requires
        old(bucket_page).wf(),
        old(new_bucket_page).wf(),
        1 <= new_local_depth <= 64,
        forall|j: int| !old(new_bucket_page)@.live(j),
    ensures
        final(bucket_page).wf(),
        final(new_bucket_page).wf(),
        r is Ok,
        forall|j: int| #[trigger]
            final(bucket_page)@.live(j) ==> old(bucket_page)@.live(j) && final(bucket_page)@.key_values[j] == old(bucket_page)@.key_values[j] && (spec_hash_of(
                old(bucket_page)@.key_values[j].0,
            ) >> ((new_local_depth - 1) as u64)) & 1 == 1,
        forall|j: int| #[trigger]
            final(new_bucket_page)@.live(j) ==> (spec_hash_of(
                final(new_bucket_page)@.key_values[j].0,
            ) >> ((new_local_depth - 1) as u64)) & 1 == 0,
        forall|j: int|
            (#[trigger] old(bucket_page)@.live(j)) && (spec_hash_of(
                old(bucket_page)@.key_values[j].0,
            ) >> ((new_local_depth - 1) as u64)) & 1 == 1 ==> final(bucket_page)@.live(j)
                && final(bucket_page)@.key_values[j] == old(bucket_page)@.key_values[j],
        forall|j: int|
            (#[trigger] old(bucket_page)@.live(j)) && (spec_hash_of(
                old(bucket_page)@.key_values[j].0,
            ) >> ((new_local_depth - 1) as u64)) & 1 == 0 ==> exists|j2: int|
                #![auto]
                final(new_bucket_page)@.live(j2) && final(new_bucket_page)@.key_values[j2] == old(bucket_page)@.key_values[j],
        forall|j2: int| #[trigger]
            final(new_bucket_page)@.live(j2) ==> exists|j: int|
                #![auto]
                old(bucket_page)@.live(j) && old(bucket_page)@.key_values[j] == final(new_bucket_page)@.key_values[j2],
        spec_live_count(final(bucket_page)@.readable) + spec_live_count(
            final(new_bucket_page)@.readable,
        ) == spec_live_count(old(bucket_page)@.readable),
{
    proof {
        assert forall|i: int|
            0 <= i < old(new_bucket_page)@.readable.len() implies !old(
            new_bucket_page,
        )@.readable[i] by {
            assert(!old(new_bucket_page)@.live(i));
        }
        lemma_live_count_none(old(new_bucket_page)@.readable);
    }
    let shift = (new_local_depth - 1) as u64;
    let mut i: usize = 0;
    while i < BUCKET_SLOTS
        invariant
            bucket_page.wf(),
            new_bucket_page.wf(),
            1 <= new_local_depth <= 64,
            shift == (new_local_depth - 1) as u64,
            i <= BUCKET_SLOTS,
            old(bucket_page)@.readable.len() == BUCKET_SLOTS,
            forall|j: int|
                0 <= j < i && #[trigger] bucket_page@.live(j) ==> (spec_hash_of(
                    bucket_page@.key_values[j].0,
                ) >> shift) & 1 == 1,
            forall|j: int| #[trigger]
                bucket_page@.live(j) ==> old(bucket_page)@.live(j) && bucket_page@.key_values[j]
                    == old(bucket_page)@.key_values[j],
            forall|j: int|
                (#[trigger] old(bucket_page)@.live(j)) && j >= i ==> bucket_page@.live(j)
                    && bucket_page@.key_values[j] == old(bucket_page)@.key_values[j],
            forall|j: int|
                (#[trigger] old(bucket_page)@.live(j)) && j < i && (spec_hash_of(
                    old(bucket_page)@.key_values[j].0,
                ) >> shift) & 1 == 1 ==> bucket_page@.live(j) && bucket_page@.key_values[j] == old(bucket_page)@.key_values[j],
            forall|j: int| #[trigger]
                new_bucket_page@.live(j) ==> (spec_hash_of(new_bucket_page@.key_values[j].0)
                    >> shift) & 1 == 0,
            forall|j2: int| #[trigger]
                new_bucket_page@.live(j2) ==> exists|j: int|
                    #![auto]
                    old(bucket_page)@.live(j) && old(bucket_page)@.key_values[j] == new_bucket_page@.key_values[j2],
            spec_live_count(bucket_page@.readable) + spec_live_count(new_bucket_page@.readable)
                == spec_live_count(old(bucket_page)@.readable),
            forall|j: int|
                (#[trigger] old(bucket_page)@.live(j)) && j < i && (spec_hash_of(
                    old(bucket_page)@.key_values[j].0,
                ) >> shift) & 1 == 0 ==> exists|j2: int|
                    #![auto]
                    new_bucket_page@.live(j2) && new_bucket_page@.key_values[j2] == old(bucket_page)@.key_values[j],
        decreases BUCKET_SLOTS - i,
    {
        let ghost step_b = bucket_page@;
        let ghost step_n = new_bucket_page@;
        let readable = *bucket_page.is_readable(i).unwrap();
        if readable {
            let key = *bucket_page.key_at(i).unwrap();
            let hash = get_hash(key);
            if (hash >> shift) & 1 == 0 {
                proof {
                    lemma_live_count_bounds(old(bucket_page)@.readable);
                    lemma_live_count_bounds(step_b.readable);
                    lemma_live_count_bounds(step_n.readable);
                }
                let pair = match bucket_page.remove_index(i) {
                    Ok(p) => p,
                    Err(e) => {
                        proof {
                            assert(false);
                        }
                        return Err(e);
                    },
                };
                proof {
                    lemma_live_count_update(step_b.readable, i as int, false);
                    assert(spec_live_count(bucket_page@.readable) == spec_live_count(
                        step_b.readable,
                    ) - 1);
                    lemma_live_count_bounds(bucket_page@.readable);
                    assert(spec_live_count(step_b.readable) >= 1);
                    lemma_live_count_bounds(old(bucket_page)@.readable);
                    assert(spec_live_count(step_n.readable) < BUCKET_SLOTS);
                    lemma_live_count_partial_has_free(step_n.readable);
                }
                match new_bucket_page.insert(pair.0, pair.1) {
                    Ok(u) => (),
                    Err(e) => {
                        proof {
                            assert(false);
                        }
                        return Err("Could not insert the value into the new bucket.");
                    },
                };
                proof {
                    assert(pair == step_b.key_values[i as int]);
                    assert(pair.0 == key);
                    let i0 = choose|i0: int|
                        {
                            &&& 0 <= i0 < BUCKET_SLOTS
                            &&& !step_n.readable[i0]
                            &&& (forall|j: int| 0 <= j < i0 ==> step_n.readable[j])
                            &&& new_bucket_page@ == (HashBucketView {
                                readable: step_n.readable.update(i0, true),
                                occupied: step_n.occupied.update(i0, true),
                                key_values: step_n.key_values.update(i0, (pair.0, pair.1)),
                            })
                        };
                    lemma_live_count_update(step_n.readable, i0, true);
                    assert(spec_live_count(new_bucket_page@.readable) == spec_live_count(
                        step_n.readable,
                    ) + 1);
                    assert(new_bucket_page@.live(i0) && new_bucket_page@.key_values[i0] == pair);
                    assert(step_b.live(i as int));
                    assert(old(bucket_page)@.live(i as int) && old(bucket_page)@.key_values[
                        i as int
                    ] == pair);
                    assert forall|j2: int| #[trigger]
                        new_bucket_page@.live(j2) implies exists|j: int|
                        #![auto]
                        old(bucket_page)@.live(j) && old(bucket_page)@.key_values[j]
                            == new_bucket_page@.key_values[j2] by {
                        if j2 != i0 {
                            assert(step_n.live(j2));
                            assert(new_bucket_page@.key_values[j2] == step_n.key_values[j2]);
                        }
                    }
                    assert forall|j: int| #[trigger]
                        bucket_page@.live(j) implies step_b.live(j) && bucket_page@.key_values[j]
                        == step_b.key_values[j] by {
                        assert(j != i);
                    }
                    assert forall|j: int| #[trigger]
                        new_bucket_page@.live(j) implies (spec_hash_of(
                        new_bucket_page@.key_values[j].0,
                    ) >> shift) & 1 == 0 by {
                        if new_bucket_page@.key_values[j] == pair
                            && !step_n.live(j) {
                            assert((spec_hash_of(pair.0) >> shift) & 1 == 0);
                        }
                        if step_n.live(j) {
                            assert((spec_hash_of(step_n.key_values[j].0) >> shift) & 1 == 0);
                        }
                    }
                    assert forall|j: int|
                        (#[trigger] old(bucket_page)@.live(j)) && j < i + 1 && (spec_hash_of(
                            old(bucket_page)@.key_values[j].0,
                        ) >> shift) & 1 == 0 implies exists|j2: int|
                        #![auto]
                        new_bucket_page@.live(j2) && new_bucket_page@.key_values[j2] == old(bucket_page)@.key_values[j] by {
                        if j == i {
                            assert(old(bucket_page)@.key_values[j] == pair);
                        } else {
                            let j2 = choose|j2: int|
                                #![auto]
                                step_n.live(j2) && step_n.key_values[j2] == old(bucket_page)@.key_values[j];
                            assert(j2 != i0);
                            assert(new_bucket_page@.live(j2));
                        }
                    }
                }
            } else {
                proof {
                    assert((hash >> shift) & 1 == 1) by (bit_vector)
                        requires
                            (hash >> shift) & 1 != 0u64,
                    ;
                    assert(bucket_page@.live(i as int) ==> (spec_hash_of(
                        bucket_page@.key_values[i as int].0,
                    ) >> shift) & 1 == 1);
                    assert(old(bucket_page)@.live(i as int) ==> (spec_hash_of(
                        old(bucket_page)@.key_values[i as int].0,
                    ) >> shift) & 1 == 1);
                }
            }
        }
        proof {
            assert forall|j: int|
                (#[trigger] old(bucket_page)@.live(j)) && j < i + 1 && (spec_hash_of(
                    old(bucket_page)@.key_values[j].0,
                ) >> shift) & 1 == 1 implies bucket_page@.live(j) && bucket_page@.key_values[j]
                == old(bucket_page)@.key_values[j] by {
                if j == i {
                    assert(step_b.live(j) && step_b.key_values[j] == old(bucket_page)@.key_values[j]);
                }
            }
        }
        i = i + 1;
    }
    Ok(())
}

/// Decodes the directory page out of its pinned frame.
fn read_directory_page(pool: &BufferPool, dpid: usize, frame: usize) -> (r: HashDirectoryPage)
    requires
        pool.wf(),
        pool.resident(dpid),
        frame == pool.frame_of(dpid),
    ensures
        r.wf(),
        r@ == spec_decode_directory(pool.page_bytes(dpid)),
{
    proof {
        BufferPool::lemma_resident_frame(pool, dpid);
    }
    match pool.get_raw_page(frame) {
        Some(raw) => {
            proof {
                assert(raw.wf());
                assert(raw@ == pool.page_bytes(dpid));
            }
            match HashDirectoryPage::from_raw_page(raw) {
                Ok(d) => d,
                Err(e) => {
                    proof {
                        assert(false);
                    }
                    HashDirectoryPage::new_empty(0, 0, 0, 0)
                },
            }
        },
        None => {
            proof {
                assert(false);
            }
            HashDirectoryPage::new_empty(0, 0, 0, 0)
        },
    }
}

/// Decodes a bucket page out of its pinned frame.
fn read_bucket_page(pool: &BufferPool, bpid: usize, frame: usize) -> (r: HashBucketPage)
    requires
        pool.wf(),
        pool.resident(bpid),
        frame == pool.frame_of(bpid),
    ensures
        r.wf(),
        r@ == spec_decode_bucket(pool.page_bytes(bpid)),
{
    proof {
        BufferPool::lemma_resident_frame(pool, bpid);
    }
    match pool.get_raw_page(frame) {
        Some(raw) => {
            proof {
                assert(raw.wf());
                assert(raw@ == pool.page_bytes(bpid));
            }
            HashBucketPage::from_raw_page(raw)
        },
        None => {
            proof {
                assert(false);
            }
            let zeroes = crate::common::codec::zero_bytes(
                crate::disk_management::buffer_pool::PAGE_SIZE,
            );
            let raw = crate::disk_management::buffer_pool::RawPage::new(zeroes);
            HashBucketPage::from_raw_page(&raw)
        },
    }
}

/// Whether one walk from the directory page to a key's bucket is owed
/// success: both pages exist, pinning either cannot overflow its pin
/// count, the pool has a free or evictable frame to offer, the decoded
/// global depth fits the directory, and the bucket is a page of its
/// own. The walk pins one page at a time, so one frame's worth of room
/// is enough.
pub open spec fn spec_can_reach_bucket(pool: BufferPool, directory_page_id: u32, key: u32) -> bool {
    let dpid = directory_page_id as usize;
    let d = spec_decode_directory(pool.page_bytes(dpid));
    let b = d.bucket_page_ids[spec_slot_of(key, d.global_depth) as int];
    &&& pool.page_known(dpid)
    &&& (pool.has_free_frame() || pool.has_evictable())
    &&& (pool.resident(dpid) ==> pool.table()[dpid].ref_count < usize::MAX)
    &&& d.global_depth <= 9
    &&& b != directory_page_id
    &&& pool.page_known(b as usize)
    &&& (pool.resident(b as usize) ==> pool.table()[b as usize].ref_count < usize::MAX)
}

/// Whether an insert is owed immediate success: the walk to the key's
/// bucket is owed success and the bucket still has a free slot.
pub open spec fn spec_insert_owed(pool: BufferPool, directory_page_id: u32, key: u32) -> bool {
    let d = spec_decode_directory(pool.page_bytes(directory_page_id as usize));
    let b = spec_decode_bucket(
        pool.page_bytes(d.bucket_page_ids[spec_slot_of(key, d.global_depth) as int] as usize),
    );
    &&& spec_can_reach_bucket(pool, directory_page_id, key)
    &&& exists|i: int| 0 <= i < BUCKET_SLOTS && !(#[trigger] b.readable[i])
}

/// Law: a split loses nothing a lookup could see. Take one split's
/// outcome — the directory became the split transform and the two
/// buckets partition the old bucket's live entries by the newly
/// significant hash bit, as `insert_once` ensures on a split — and any
/// entry that was live in the old bucket under a key the old directory
/// routed to that bucket. The new directory routes that key to the
/// bucket now holding the entry, and a lookup there finds a value that
/// was live under the key in the old bucket.
pub proof fn lemma_split_keeps_entries_reachable(
    d: HashDirectoryView,
    b: HashBucketView,
    bf: HashBucketView,
    nf: HashBucketView,
    new_local_depth: u8,
    new_bid: u32,
    old_bid: u32,
    j: int,
)
    requires
        d.local_depths.len() == DIRECTORY_SLOTS,
        d.bucket_page_ids.len() == DIRECTORY_SLOTS,
        b.readable.len() == BUCKET_SLOTS,
        b.key_values.len() == BUCKET_SLOTS,
        bf.readable.len() == BUCKET_SLOTS,
        bf.key_values.len() == BUCKET_SLOTS,
        nf.readable.len() == BUCKET_SLOTS,
        nf.key_values.len() == BUCKET_SLOTS,
        1 <= new_local_depth <= 10,
        d.global_depth <= 9,
        new_local_depth <= d.global_depth || d.global_depth < 9,
        d.global_depth < new_local_depth ==> new_local_depth == d.global_depth + 1,
        new_bid != old_bid,
        b.live(j),
        d.bucket_page_ids[spec_slot_of(b.key_values[j].0, d.global_depth) as int] == old_bid,
        forall|j2: int| #[trigger]
            bf.live(j2) ==> b.live(j2) && bf.key_values[j2] == b.key_values[j2] && (spec_hash_of(
                b.key_values[j2].0,
            ) >> ((new_local_depth - 1) as u64)) & 1 == 1,
        forall|j2: int|
            (#[trigger] b.live(j2)) && (spec_hash_of(b.key_values[j2].0) >> ((new_local_depth
                - 1) as u64)) & 1 == 1 ==> bf.live(j2) && bf.key_values[j2] == b.key_values[j2],
        forall|j2: int|
            (#[trigger] b.live(j2)) && (spec_hash_of(b.key_values[j2].0) >> ((new_local_depth
                - 1) as u64)) & 1 == 0 ==> exists|j3: int|
                #![auto]
                nf.live(j3) && nf.key_values[j3] == b.key_values[j2],
        forall|j3: int| #[trigger]
            nf.live(j3) ==> exists|j2: int|
                #![auto]
                b.live(j2) && b.key_values[j2] == nf.key_values[j3],
    ensures
        ({
            let key = b.key_values[j].0;
            let d1 = HashDirectoryView {
                local_depths: d.local_depths.update(
                    spec_slot_of(key, d.global_depth) as int,
                    new_local_depth,
                ),
                ..d
            };
            let post = if d.global_depth < new_local_depth {
                spec_global_split_dir(d1, spec_slot_of(key, d.global_depth) as int, new_bid)
            } else {
                spec_local_split_dir(d1, new_local_depth, new_bid, old_bid)
            };
            let routed = post.bucket_page_ids[spec_slot_of(key, post.global_depth) as int];
            let side = if routed == new_bid {
                nf
            } else {
                bf
            };
            &&& (routed == new_bid || routed == old_bid)
            &&& match spec_bucket_lookup(side, key) {
                Some(v) => exists|j2: int|
                    #![auto]
                    b.live(j2) && b.key_values[j2] == (key, v),
                None => false,
            }
        }),
{
    let key = b.key_values[j].0;
    let h = spec_hash_of(key);
    let sh = (new_local_depth - 1) as u64;
    let slot = spec_slot_of(key, d.global_depth) as int;
    let gb = d.global_depth;
    assert((1u64 << gb) >= 1 && (1u64 << gb) <= 512) by (bit_vector)
        requires
            gb <= 9,
    ;
    assert(spec_slot_of(key, d.global_depth) < (1u64 << gb));
    assert(0 <= slot < DIRECTORY_SLOTS);
    let d1 = HashDirectoryView {
        local_depths: d.local_depths.update(slot, new_local_depth),
        ..d
    };
    assert(d1.local_depths.len() == DIRECTORY_SLOTS);
    // the transformed directory routes the key to the side of its bit
    if d.global_depth < new_local_depth {
        assert(d.global_depth < 9);
        assert(new_local_depth == d.global_depth + 1);
        lemma_global_split_routes_by_bit(d1, new_bid, key);
        assert((h >> (d.global_depth as u64)) & 1 == (h >> sh) & 1);
    } else {
        lemma_local_split_routes_by_bit(d1, new_local_depth, new_bid, old_bid, key);
    }
    let post = if d.global_depth < new_local_depth {
        spec_global_split_dir(d1, slot, new_bid)
    } else {
        spec_local_split_dir(d1, new_local_depth, new_bid, old_bid)
    };
    let routed = post.bucket_page_ids[spec_slot_of(key, post.global_depth) as int];
    assert(routed == if (h >> sh) & 1 == 0 {
        new_bid
    } else {
        old_bid
    });
    // the entry's side holds a live entry of the key, and every value a
    // scan can find there was live in the old bucket under the key
    if (h >> sh) & 1 == 0 {
        let j3 = choose|j3: int|
            #![auto]
            nf.live(j3) && nf.key_values[j3] == b.key_values[j];
        assert(nf.live(j3) && nf.key_values[j3].0 == key);
        crate::extendible_hashing::hash_bucket_page::lemma_lookup_some_iff_match(nf, key, 0);
        assert(spec_bucket_lookup(nf, key) is Some);
        lemma_bucket_lookup_value_is_live(nf, key);
        let jv = choose|jv: int|
            #![auto]
            nf.live(jv) && nf.key_values[jv] == (key, spec_bucket_lookup(nf, key).unwrap());
        assert(nf.live(jv));
    } else {
        assert((h >> sh) & 1 == 1) by (bit_vector)
            requires
                (h >> sh) & 1 != 0u64,
        ;
        assert((spec_hash_of(b.key_values[j].0) >> ((new_local_depth - 1) as u64)) & 1 == 1);
        assert(bf.live(j) && bf.key_values[j] == b.key_values[j]);
        crate::extendible_hashing::hash_bucket_page::lemma_lookup_some_iff_match(bf, key, 0);
        assert(spec_bucket_lookup(bf, key) is Some);
        lemma_bucket_lookup_value_is_live(bf, key);
        let jv = choose|jv: int|
            #![auto]
            bf.live(jv) && bf.key_values[jv] == (key, spec_bucket_lookup(bf, key).unwrap());
        assert(bf.live(jv));
    }
}

/// Law: an insert is seen by the next lookup. When an insert was owed
/// success and performed — the key's bucket gained the pair at its
/// first free slot and the directory read back unchanged — a lookup of
/// the same key over the resulting pages finds a value, and that value
/// was put there by some insert of the key: the new one, or one that
/// was already live in the bucket.
pub proof fn lemma_insert_then_lookup_pages(
    pre: BufferPool,
    post: BufferPool,
    directory_page_id: u32,
    key: u32,
    value: u32,
)
    requires
        ({
            let d = spec_decode_directory(pre.page_bytes(directory_page_id as usize));
            let bpid = d.bucket_page_ids[spec_slot_of(key, d.global_depth) as int];
            let b = spec_decode_bucket(pre.page_bytes(bpid as usize));
            &&& spec_decode_directory(post.page_bytes(directory_page_id as usize)) == d
            &&& b.readable.len() == BUCKET_SLOTS
            &&& b.occupied.len() == BUCKET_SLOTS
            &&& b.key_values.len() == BUCKET_SLOTS
            &&& exists|i: int|
                #![auto]
                {
                    &&& 0 <= i < BUCKET_SLOTS
                    &&& !b.readable[i]
                    &&& spec_decode_bucket(post.page_bytes(bpid as usize)) == (HashBucketView {
                        readable: b.readable.update(i, true),
                        occupied: b.occupied.update(i, true),
                        key_values: b.key_values.update(i, (key, value)),
                    })
                }
        }),
    ensures
        ({
            let d = spec_decode_directory(post.page_bytes(directory_page_id as usize));
            let bpid = d.bucket_page_ids[spec_slot_of(key, d.global_depth) as int];
            let b_post = spec_decode_bucket(post.page_bytes(bpid as usize));
            let b_pre = spec_decode_bucket(pre.page_bytes(bpid as usize));
            match spec_bucket_lookup(b_post, key) {
                Some(v) => v == value || exists|j: int|
                    #![auto]
                    0 <= j < BUCKET_SLOTS && b_pre.readable[j] && b_pre.key_values[j] == (
                    key,
                    v,
                    ),
                None => false,
            }
        }),
{
    let d = spec_decode_directory(pre.page_bytes(directory_page_id as usize));
    let bpid = d.bucket_page_ids[spec_slot_of(key, d.global_depth) as int];
    let b = spec_decode_bucket(pre.page_bytes(bpid as usize));
    let i = choose|i: int|
        #![auto]
        {
            &&& 0 <= i < BUCKET_SLOTS
            &&& !b.readable[i]
            &&& spec_decode_bucket(post.page_bytes(bpid as usize)) == (HashBucketView {
                readable: b.readable.update(i, true),
                occupied: b.occupied.update(i, true),
                key_values: b.key_values.update(i, (key, value)),
            })
        };
    crate::extendible_hashing::hash_bucket_page::lemma_insert_then_lookup(b, key, value, i);
}

/// One extendible hash index: everything it owns lives in pages under
/// the buffer cache; the handle keeps only where the directory page is.
pub struct ExtendibleHashing {
    pub directory_page_id: u32,
}

impl ExtendibleHashing {
    /// An index handle over an existing directory page.
    pub fn new(directory_page_id: u32) -> (r: ExtendibleHashing)
        ensures
            r.directory_page_id == directory_page_id,
    {
        ExtendibleHashing { directory_page_id }
    }

    /// Creates a fresh hash index: allocates the directory page and two
    /// initial bucket pages, and writes the directory with global depth
    /// one pointing at them. Fails exactly when the cache cannot pin a
    /// page or the page id space is exhausted.
    pub fn setup_new_hashmap(pool: &mut BufferPool, log_id: u32) -> (r: Result<
        ExtendibleHashing,
        &'static str,
    >)
        requires
            old(pool).wf(),
        ensures
            final(pool).wf(),
            final(pool).pool_size() == old(pool).pool_size(),
            r is Ok <==> (old(pool).has_free_frame() || old(pool).has_evictable()) && old(pool).disk().len() <= u32::MAX - 2,
            match r {
                Ok(h) => ({
                    let d = spec_decode_directory(
                        final(pool).page_bytes(h.directory_page_id as usize),
                    );
                    &&& final(pool).page_known(h.directory_page_id as usize)
                    &&& d.global_depth == 1
                    &&& d.page_id == h.directory_page_id
                    &&& d.log_id == log_id
                    &&& d.local_depths[0] == 1 && d.local_depths[1] == 1
                    &&& d.bucket_page_ids[0] != d.bucket_page_ids[1]
                    &&& final(pool).page_known(d.bucket_page_ids[0] as usize)
                    &&& final(pool).page_known(d.bucket_page_ids[1] as usize)
                }),
                Err(e) => true,
            },
    {
        let (directory_page_id, directory_frame_id) = match pool.load_new_page() {
            Some(pair) => pair,
            None => {
                return Err("Could not load a new page");
            },
        };
        if directory_page_id > u32::MAX as usize - 2 {
            let unpinned = pool.unload_page_id(directory_page_id);
            return Err("Page id space exhausted");
        }
        let bucket1_pid = pool.allocate_new_page();
        let bucket2_pid = pool.allocate_new_page();
        let directory_page = HashDirectoryPage::new_empty(
            directory_page_id as u32,
            bucket1_pid as u32,
            bucket2_pid as u32,
            log_id,
        );
        let raw = directory_page.to_raw_page();
        let ghost dir_view = directory_page@;
        match pool.update_page(directory_page_id, raw) {
            Ok(u) => (),
            Err(e) => {
                proof {
                    assert(false);
                }
                return Err("Could not update directory page");
            },
        };
        match pool.unload_page_id(directory_page_id) {
            Ok(u) => (),
            Err(e) => {
                proof {
                    assert(false);
                }
                return Err("Could not unload");
            },
        };
        proof {
            crate::extendible_hashing::hash_directory_page::lemma_directory_round_trip(dir_view);
        }
        Ok(ExtendibleHashing { directory_page_id: directory_page_id as u32 })
    }

    /// Pins the directory page just long enough to decode it, computes
    /// the key's slot and bucket, and unpins it again. On success the
    /// pool is byte-for-byte as before, with as much room as before.
    fn pin_read_directory(&self, pool: &mut BufferPool, key: u32) -> (r: Result<
        (HashDirectoryPage, usize, u32),
        &'static str,
    >)
        requires
            old(pool).wf(),
        ensures
            final(pool).wf(),
            final(pool).pool_size() == old(pool).pool_size(),
            final(pool).disk().len() == old(pool).disk().len(),
            forall|q: usize| #[trigger]
                old(pool).page_known(q) ==> final(pool).page_known(q) && final(pool).page_bytes(q)
                    == old(pool).page_bytes(q),
            (old(pool).has_free_frame() || old(pool).has_evictable()) ==> (final(pool).has_free_frame() || final(pool).has_evictable()),
            forall|q: usize| #[trigger]
                final(pool).resident(q) ==> (old(pool).resident(q) && final(pool).table()[q].ref_count <= old(pool).table()[q].ref_count) || q == self.directory_page_id as usize,
            match r {
                Ok(found) => ({
                    let d = spec_decode_directory(
                        old(pool).page_bytes(self.directory_page_id as usize),
                    );
                    &&& old(pool).page_known(self.directory_page_id as usize)
                    &&& found.0.wf()
                    &&& found.0@ == d
                    &&& d.global_depth <= 9
                    &&& found.1 == spec_slot_of(key, d.global_depth)
                    &&& found.1 < DIRECTORY_SLOTS
                    &&& found.1 < (1u64 << d.global_depth)
                    &&& found.2 == d.bucket_page_ids[found.1 as int]
                    &&& found.2 != self.directory_page_id
                }),
                Err(e) => !spec_can_reach_bucket(*old(pool), self.directory_page_id, key),
            },
    {
        let dpid = self.directory_page_id as usize;
        let dir_frame = match pool.load_page(dpid) {
            Some(f) => f,
            None => {
                return Err("Could not load the directory page");
            },
        };
        let ghost s1 = *pool;
        proof {
            assert(old(pool).page_known(dpid));
            assert(s1.page_bytes(dpid) == old(pool).page_bytes(dpid));
        }
        let directory_page = read_directory_page(pool, dpid, dir_frame);
        let gd = directory_page.get_global_depth();
        let hash = get_hash(key);
        proof {
            if gd <= 9 {
                assert(1u64 << gd >= 1 && 1u64 << gd <= 512) by (bit_vector)
                    requires
                        gd <= 9,
                ;
            }
        }
        let mut trouble: Option<&'static str> = None;
        let mut slot: usize = 0;
        let mut bucket_pid: u32 = 0;
        if gd > 9 {
            trouble = Some("The directory global depth is corrupt");
        } else {
            slot = (hash % (1u64 << gd)) as usize;
            bucket_pid = *directory_page.get_bucket_page_id(slot).unwrap();
            if bucket_pid == self.directory_page_id {
                trouble = Some("The directory points a bucket at itself");
            }
        }
        match pool.unload_page_id(dpid) {
            Ok(u) => (),
            Err(e) => {
                proof {
                    assert(false);
                }
                return Err(e);
            },
        };
        proof {
            let pre = *old(pool);
            assert forall|q: usize| #[trigger]
                pre.page_known(q) implies pool.page_known(q) && pool.page_bytes(q)
                == pre.page_bytes(q) by {
                assert(s1.page_known(q) && s1.page_bytes(q) == pre.page_bytes(q));
            }
            if pre.has_free_frame() || pre.has_evictable() {
                if pre.resident(dpid) && pre.table()[dpid].ref_count >= 1 {
                    assert(s1.frames() == pre.frames());
                    assert(s1.table()[dpid].ref_count == pre.table()[dpid].ref_count + 1);
                    assert(pool.frames() == s1.frames());
                    assert(pool.lru() == s1.lru());
                    if pre.has_free_frame() {
                        let fi = choose|fi: int|
                            0 <= fi < pre.frames().len() && (#[trigger] pre.frames()[fi]) is None;
                        assert(pool.frames()[fi] is None);
                        assert(pool.has_free_frame());
                    } else {
                        let k = choose|k: usize| #[trigger] pre.lru().dom().contains(k);
                        BufferPool::lemma_evictable_iff_unpinned(&pre, dpid);
                        assert(k != dpid);
                        assert(s1.lru().dom().contains(k));
                        assert(pool.has_evictable());
                    }
                } else {
                    assert(s1.table()[dpid].ref_count == 1);
                    assert(pool.lru().dom() =~= s1.lru().dom().insert(dpid));
                    assert(pool.lru().dom().contains(dpid));
                    assert(pool.has_evictable());
                }
            }
            assert forall|q: usize| #[trigger]
                pool.resident(q) implies (pre.resident(q) && pool.table()[q].ref_count
                <= pre.table()[q].ref_count) || q == dpid by {
                if q != dpid {
                    assert(s1.resident(q) && s1.table()[q] == pool.table()[q]);
                    assert(pre.resident(q) && s1.table()[q] == pre.table()[q]);
                }
            }
        }
        match trouble {
            Some(e) => Err(e),
            None => Ok((directory_page, slot, bucket_pid)),
        }
    }

    /// Looks a key up: follows the directory to the key's bucket and
    /// scans it, touching nothing. The walk is owed success whenever
    /// `spec_can_reach_bucket` holds of the pool.
    pub fn lookup(&self, pool: &mut BufferPool, key: u32) -> (r: Result<
        Option<u32>,
        &'static str,
    >)
        requires
            old(pool).wf(),
        ensures
            final(pool).wf(),
            final(pool).pool_size() == old(pool).pool_size(),
            final(pool).disk().len() == old(pool).disk().len(),
            forall|q: usize| #[trigger]
                old(pool).page_known(q) ==> final(pool).page_known(q) && final(pool).page_bytes(q)
                    == old(pool).page_bytes(q),
            spec_can_reach_bucket(*old(pool), self.directory_page_id, key) ==> r is Ok,
            match r {
                Ok(res) => ({
                    let d = spec_decode_directory(
                        old(pool).page_bytes(self.directory_page_id as usize),
                    );
                    let slot = spec_slot_of(key, d.global_depth) as int;
                    let b = spec_decode_bucket(
                        old(pool).page_bytes(d.bucket_page_ids[slot] as usize),
                    );
                    res == spec_bucket_lookup(b, key)
                }),
                Err(e) => !spec_can_reach_bucket(*old(pool), self.directory_page_id, key),
            },
    {
        let dpid = self.directory_page_id as usize;
        let (directory_page, slot, bucket_pid) = match self.pin_read_directory(pool, key) {
            Ok(found) => found,
            Err(e) => {
                return Err(e);
            },
        };
        let ghost s2 = *pool;
        proof {
            if spec_can_reach_bucket(*old(pool), self.directory_page_id, key) {
                if old(pool).resident(bucket_pid as usize) {
                    BufferPool::lemma_resident_frame(&*old(pool), bucket_pid as usize);
                }
                assert((bucket_pid as usize as int) < old(pool).disk().len());
                assert(s2.page_known(bucket_pid as usize));
            }
        }
        let bucket_frame = match pool.load_page(bucket_pid as usize) {
            Some(f) => f,
            None => {
                proof {
                    assert(!spec_can_reach_bucket(*old(pool), self.directory_page_id, key));
                }
                return Err("Could not load the bucket page");
            },
        };
        let ghost s3 = *pool;
        proof {
            assert(s2.page_known(bucket_pid as usize));
            if s2.resident(bucket_pid as usize) {
                assert(old(pool).resident(bucket_pid as usize) || bucket_pid as usize == dpid);
            }
            assert(old(pool).page_known(bucket_pid as usize));
            assert(s2.page_bytes(bucket_pid as usize) == old(pool).page_bytes(
                bucket_pid as usize,
            ));
            assert(s3.page_bytes(bucket_pid as usize) == s2.page_bytes(bucket_pid as usize));
        }
        let bucket_page = read_bucket_page(pool, bucket_pid as usize, bucket_frame);
        let result = bucket_page.lookup(key);
        match pool.unload_page_id(bucket_pid as usize) {
            Ok(u) => (),
            Err(e) => {
                proof {
                    assert(false);
                }
                return Err(e);
            },
        };
        proof {
            assert forall|q: usize| #[trigger]
                old(pool).page_known(q) implies pool.page_known(q) && pool.page_bytes(q) == old(pool).page_bytes(q) by {
                assert(s2.page_known(q) && s2.page_bytes(q) == old(pool).page_bytes(q));
                assert(s3.page_known(q) && s3.page_bytes(q) == s2.page_bytes(q));
            }
        }
        Ok(result)
    }

    /// Inserts a key-value pair: walks the directory to the key's
    /// bucket; if the bucket is full, splits it — doubling the directory
    /// when the local depth would pass the global depth — and retries.
    /// After success the key's bucket holds the pair. Success is owed,
    /// and only the key's bucket page changes, whenever the walk is owed
    /// success and the bucket has a free slot. Fails when the cache
    /// cannot pin a page, the directory is corrupt, or a tenth split
    /// would be needed, which the directory cannot hold.
    pub fn insert(&self, pool: &mut BufferPool, key: u32, value: u32) -> (r: Result<
        (),
        &'static str,
    >)
        requires
            old(pool).wf(),
        ensures
            final(pool).wf(),
            final(pool).pool_size() == old(pool).pool_size(),
            match r {
                Ok(u) => ({
                    let d = spec_decode_directory(
                        final(pool).page_bytes(self.directory_page_id as usize),
                    );
                    let slot = spec_slot_of(key, d.global_depth) as int;
                    let b = spec_decode_bucket(
                        final(pool).page_bytes(d.bucket_page_ids[slot] as usize),
                    );
                    exists|i: int|
                        0 <= i < BUCKET_SLOTS && b.readable[i] && #[trigger] b.key_values[i] == (
                        key,
                        value,
                        )
                }),
                Err(e) => true,
            },
            ({
                let d = spec_decode_directory(
                    old(pool).page_bytes(self.directory_page_id as usize),
                );
                let bpid = d.bucket_page_ids[spec_slot_of(key, d.global_depth) as int];
                let b = spec_decode_bucket(old(pool).page_bytes(bpid as usize));
                spec_insert_owed(*old(pool), self.directory_page_id, key) ==> (r is Ok
                    && spec_decode_directory(final(pool).page_bytes(self.directory_page_id as usize)) == d && (exists|i: int|
                    #![auto]
                    {
                        &&& 0 <= i < BUCKET_SLOTS
                        &&& !b.readable[i]
                        &&& (forall|j: int| 0 <= j < i ==> b.readable[j])
                        &&& spec_decode_bucket(final(pool).page_bytes(bpid as usize))
                            == (HashBucketView {
                            readable: b.readable.update(i, true),
                            occupied: b.occupied.update(i, true),
                            key_values: b.key_values.update(i, (key, value)),
                        })
                    }) && forall|q: usize|
                    q != bpid as usize && #[trigger] old(pool).page_known(q) ==> final(pool).page_known(q) && final(pool).page_bytes(q) == old(pool).page_bytes(q))
            }),
    {
        match self.insert_once(pool, key, value) {
            Ok(true) => {
                return Ok(());
            },
            Ok(false) => {},
            Err(e) => {
                return Err(e);
            },
        }
        proof {
            assert(!spec_insert_owed(*old(pool), self.directory_page_id, key));
        }
        let mut attempts: usize = 1;
        while attempts < 16
            invariant
                pool.wf(),
                pool.pool_size() == old(pool).pool_size(),
                attempts <= 16,
                !spec_insert_owed(*old(pool), self.directory_page_id, key),
            decreases 16 - attempts,
        {
            match self.insert_once(pool, key, value) {
                Ok(true) => {
                    return Ok(());
                },
                Ok(false) => {},
                Err(e) => {
                    return Err(e);
                },
            }
            attempts = attempts + 1;
        }
        Err("The bucket could not be split often enough to make room for the key")
    }

    /// One insertion step: places the pair if the key's bucket has
    /// room — then `Ok(true)`, with the bucket updated at its first
    /// free slot and nothing else changed — or splits the full bucket
    /// once and reports `Ok(false)`: the directory becomes exactly the
    /// split transform, the old and the fresh bucket partition the old
    /// bucket's live entries by the newly significant hash bit — union
    /// preserved, counts conserved, nothing planted and nothing lost —
    /// and no other page changes. `insert` drives this to completion.
    pub fn insert_once(&self, pool: &mut BufferPool, key: u32, value: u32) -> (r: Result<
        bool,
        &'static str,
    >)
        requires
            old(pool).wf(),
        ensures
            final(pool).wf(),
            final(pool).pool_size() == old(pool).pool_size(),
            match r {
                Ok(done) => done ==> ({
                    let d = spec_decode_directory(
                        final(pool).page_bytes(self.directory_page_id as usize),
                    );
                    let slot = spec_slot_of(key, d.global_depth) as int;
                    let b = spec_decode_bucket(
                        final(pool).page_bytes(d.bucket_page_ids[slot] as usize),
                    );
                    exists|i: int|
                        0 <= i < BUCKET_SLOTS && b.readable[i] && #[trigger] b.key_values[i] == (
                        key,
                        value,
                        )
                }),
                Err(e) => true,
            },
            ({
                let dpid_s = self.directory_page_id as usize;
                let d = spec_decode_directory(old(pool).page_bytes(dpid_s));
                let slot = spec_slot_of(key, d.global_depth) as int;
                let bpid = d.bucket_page_ids[slot];
                let b = spec_decode_bucket(old(pool).page_bytes(bpid as usize));
                let nl = (d.local_depths[slot] + 1) as u8;
                let new_pid = old(pool).disk().len() as usize;
                let d1 = HashDirectoryView { local_depths: d.local_depths.update(slot, nl), ..d };
                r == Result::<bool, &'static str>::Ok(false) ==> {
                    &&& (forall|i: int| 0 <= i < BUCKET_SLOTS ==> #[trigger] b.readable[i])
                    &&& d.local_depths[slot] < u8::MAX
                    &&& 1 <= nl <= 10
                    &&& final(pool).disk().len() == old(pool).disk().len() + 1
                    &&& new_pid <= u32::MAX
                    &&& new_pid != dpid_s && new_pid != bpid as usize
                    &&& spec_decode_directory(final(pool).page_bytes(dpid_s)) == (if d.global_depth
                        < nl {
                        spec_global_split_dir(d1, slot, new_pid as u32)
                    } else {
                        spec_local_split_dir(d1, nl, new_pid as u32, bpid)
                    })
                    &&& ({
                        let bf = spec_decode_bucket(final(pool).page_bytes(bpid as usize));
                        let nf = spec_decode_bucket(final(pool).page_bytes(new_pid));
                        &&& (forall|j: int| #[trigger]
                            bf.live(j) ==> b.live(j) && bf.key_values[j] == b.key_values[j] && (
                            spec_hash_of(b.key_values[j].0) >> ((nl - 1) as u64)) & 1 == 1)
                        &&& (forall|j: int|
                            (#[trigger] b.live(j)) && (spec_hash_of(b.key_values[j].0) >> ((nl
                                - 1) as u64)) & 1 == 1 ==> bf.live(j) && bf.key_values[j]
                                == b.key_values[j])
                        &&& (forall|j: int|
                            (#[trigger] b.live(j)) && (spec_hash_of(b.key_values[j].0) >> ((nl
                                - 1) as u64)) & 1 == 0 ==> exists|j2: int|
                                #![auto]
                                nf.live(j2) && nf.key_values[j2] == b.key_values[j])
                        &&& (forall|j2: int| #[trigger]
                            nf.live(j2) ==> exists|j: int|
                                #![auto]
                                b.live(j) && b.key_values[j] == nf.key_values[j2])
                        &&& spec_live_count(bf.readable) + spec_live_count(nf.readable)
                            == spec_live_count(b.readable)
                    })
                    &&& (forall|q: usize|
                        q != dpid_s && q != bpid as usize && q != new_pid && #[trigger] old(pool).page_known(q) ==> final(pool).page_known(q) && final(pool).page_bytes(q) == old(pool).page_bytes(q))
                }
            }),
            ({
                let d = spec_decode_directory(
                    old(pool).page_bytes(self.directory_page_id as usize),
                );
                let bpid = d.bucket_page_ids[spec_slot_of(key, d.global_depth) as int];
                let b = spec_decode_bucket(old(pool).page_bytes(bpid as usize));
                spec_insert_owed(*old(pool), self.directory_page_id, key) ==> (r
                    == Result::<bool, &'static str>::Ok(true) && spec_decode_directory(
                    final(pool).page_bytes(self.directory_page_id as usize),
                ) == d && (exists|i: int|
                    #![auto]
                    {
                        &&& 0 <= i < BUCKET_SLOTS
                        &&& !b.readable[i]
                        &&& (forall|j: int| 0 <= j < i ==> b.readable[j])
                        &&& spec_decode_bucket(final(pool).page_bytes(bpid as usize))
                            == (HashBucketView {
                            readable: b.readable.update(i, true),
                            occupied: b.occupied.update(i, true),
                            key_values: b.key_values.update(i, (key, value)),
                        })
                    }) && forall|q: usize|
                    q != bpid as usize && #[trigger] old(pool).page_known(q) ==> final(pool).page_known(q) && final(pool).page_bytes(q) == old(pool).page_bytes(q))
            }),
    {
        let dpid = self.directory_page_id as usize;
        let ghost can = spec_can_reach_bucket(*old(pool), self.directory_page_id, key);
        let ghost owed = spec_insert_owed(*old(pool), self.directory_page_id, key);
        let (mut directory_page, slot, bucket_pid) = match self.pin_read_directory(pool, key) {
            Ok(found) => found,
            Err(e) => {
                return Err(e);
            },
        };
        let ghost s2 = *pool;
        proof {
            if can {
                if old(pool).resident(bucket_pid as usize) {
                    BufferPool::lemma_resident_frame(&*old(pool), bucket_pid as usize);
                }
                assert((bucket_pid as usize as int) < old(pool).disk().len());
            }
        }
        let bucket_frame = match pool.load_page(bucket_pid as usize) {
            Some(f) => f,
            None => {
                proof {
                    assert(!can);
                }
                return Err("Could not load the bucket page");
            },
        };
        let ghost s3 = *pool;
        proof {
            assert(s2.page_known(bucket_pid as usize));
            if s2.resident(bucket_pid as usize) {
                assert(old(pool).resident(bucket_pid as usize) || bucket_pid as usize == dpid);
            }
            assert(old(pool).page_known(bucket_pid as usize));
            assert(s2.page_bytes(bucket_pid as usize) == old(pool).page_bytes(
                bucket_pid as usize,
            ));
            assert(s3.page_bytes(bucket_pid as usize) == s2.page_bytes(bucket_pid as usize));
        }
        let mut bucket_page = read_bucket_page(pool, bucket_pid as usize, bucket_frame);
        let ghost pre_bucket = bucket_page@;
        if !bucket_page.is_full() {
            match bucket_page.insert(key, value) {
                Ok(u) => (),
                Err(e) => {
                    proof {
                        assert(false);
                    }
                    return Err(e);
                },
            };
            let ghost bucket_view = bucket_page@;
            let bucket_raw = bucket_page.to_raw_page();
            match pool.update_page(bucket_pid as usize, bucket_raw) {
                Ok(u) => (),
                Err(e) => {
                    proof {
                        assert(false);
                    }
                    return Err(e);
                },
            };
            let ghost s4 = *pool;
            match pool.unload_page_id(bucket_pid as usize) {
                Ok(u) => (),
                Err(e) => {
                    proof {
                        assert(false);
                    }
                    return Err(e);
                },
            };
            proof {
                lemma_bucket_round_trip(bucket_view);
                assert(s4.page_bytes(bucket_pid as usize) == spec_encode_bucket(bucket_view));
                assert(s4.page_known(bucket_pid as usize));
                assert(pool.page_bytes(bucket_pid as usize) == s4.page_bytes(
                    bucket_pid as usize,
                ));
                assert(spec_decode_bucket(pool.page_bytes(bucket_pid as usize)) == bucket_view);
                assert forall|q: usize|
                    q != bucket_pid as usize && #[trigger] old(pool).page_known(q) implies pool.page_known(q) && pool.page_bytes(q) == old(pool).page_bytes(q) by {
                    assert(s2.page_known(q) && s2.page_bytes(q) == old(pool).page_bytes(q));
                    assert(s3.page_known(q) && s3.page_bytes(q) == s2.page_bytes(q));
                    assert(s4.page_known(q) && s4.page_bytes(q) == s3.page_bytes(q));
                }
                assert(dpid != bucket_pid as usize);
                assert(old(pool).page_known(dpid));
                assert(pool.page_bytes(dpid) == old(pool).page_bytes(dpid));
                assert(directory_page@ == spec_decode_directory(pool.page_bytes(dpid)));
                assert(spec_slot_of(key, directory_page@.global_depth) == slot);
                assert(directory_page@.bucket_page_ids[slot as int] == bucket_pid);
                let i0 = choose|i: int|
                    {
                        &&& 0 <= i < BUCKET_SLOTS
                        &&& !pre_bucket.readable[i]
                        &&& (forall|j: int| 0 <= j < i ==> pre_bucket.readable[j])
                        &&& bucket_view == (HashBucketView {
                            readable: pre_bucket.readable.update(i, true),
                            occupied: pre_bucket.occupied.update(i, true),
                            key_values: pre_bucket.key_values.update(i, (key, value)),
                        })
                    };
                assert(0 <= i0 < BUCKET_SLOTS);
                assert(bucket_view.readable[i0]);
                assert(bucket_view.key_values[i0] == (key, value));
                if can {
                    assert(pre_bucket == spec_decode_bucket(
                        old(pool).page_bytes(bucket_pid as usize),
                    ));
                }
            }
            Ok(true)
        } else {
            proof {
                if owed {
                    assert(pre_bucket == spec_decode_bucket(
                        old(pool).page_bytes(bucket_pid as usize),
                    ));
                    assert(false);
                }
            }
            let new_local = match directory_page.increment_local_depth(slot) {
                Ok(d) => d,
                Err(e) => {
                    let unpinned_bucket = pool.unload_page_id(bucket_pid as usize);
                    return Err(e);
                },
            };
            if new_local > 10 {
                let unpinned_bucket = pool.unload_page_id(bucket_pid as usize);
                return Err("The local depth is corrupt");
            }
            let ghost pre_split_dir = directory_page@;
            let (new_bucket_pid, new_bucket_frame) = match pool.load_new_page() {
                Some(pair) => pair,
                None => {
                    let unpinned_bucket = pool.unload_page_id(bucket_pid as usize);
                    return Err("Could not allocate a new bucket page");
                },
            };
            let ghost g4 = *pool;
            if new_bucket_pid > u32::MAX as usize {
                let unpinned_new = pool.unload_page_id(new_bucket_pid);
                let unpinned_bucket = pool.unload_page_id(bucket_pid as usize);
                return Err("Page id space exhausted");
            }
            let new_bucket_page_read = read_bucket_page(pool, new_bucket_pid, new_bucket_frame);
            let mut new_bucket_page = new_bucket_page_read;
            proof {
                assert(pool.page_bytes(new_bucket_pid)
                    == crate::disk_management::disk_manager::zero_page());
                assert forall|j: int| !(#[trigger] new_bucket_page@.live(j)) by {
                    if 0 <= j < new_bucket_page@.readable.len() {
                        assert(new_bucket_page@.readable[j] == (
                        crate::disk_management::disk_manager::zero_page()[j] != 0));
                    }
                }
            }
            let gd = directory_page.get_global_depth();
            if gd < new_local {
                if gd >= 9 {
                    let unpinned_new = pool.unload_page_id(new_bucket_pid);
                    let unpinned_bucket = pool.unload_page_id(bucket_pid as usize);
                    return Err("A tenth split cannot be held by the directory");
                }
                global_split_bucket(&mut directory_page, slot, new_bucket_pid);
            } else {
                local_split_bucket(&mut directory_page, new_local, new_bucket_pid, bucket_pid);
            }
            match rehash_bucket(&mut bucket_page, &mut new_bucket_page, new_local) {
                Ok(u) => (),
                Err(e) => {
                    proof {
                        assert(false);
                    }
                    return Err(e);
                },
            };
            let ghost rehashed_bucket = bucket_page@;
            let ghost rehashed_new = new_bucket_page@;
            let new_bucket_raw = new_bucket_page.to_raw_page();
            match pool.update_page(new_bucket_pid, new_bucket_raw) {
                Ok(u) => (),
                Err(e) => {
                    return Err(e);
                },
            };
            let ghost g5 = *pool;
            match pool.unload_page_id(new_bucket_pid) {
                Ok(u) => (),
                Err(e) => {
                    return Err(e);
                },
            };
            let ghost g6 = *pool;
            let bucket_raw = bucket_page.to_raw_page();
            match pool.update_page(bucket_pid as usize, bucket_raw) {
                Ok(u) => (),
                Err(e) => {
                    return Err(e);
                },
            };
            let ghost g7 = *pool;
            match pool.unload_page_id(bucket_pid as usize) {
                Ok(u) => (),
                Err(e) => {
                    return Err(e);
                },
            };
            let ghost g8 = *pool;
            let dir_raw = directory_page.to_raw_page();
            match pool.load_page(dpid) {
                Some(f) => (),
                None => {
                    return Err("Could not pin the directory page to write it");
                },
            };
            let ghost g9 = *pool;
            match pool.update_page(dpid, dir_raw) {
                Ok(u) => (),
                Err(e) => {
                    return Err(e);
                },
            };
            let ghost g10 = *pool;
            match pool.unload_page_id(dpid) {
                Ok(u) => (),
                Err(e) => {
                    return Err(e);
                },
            };
            proof {
                let pre = *old(pool);
                let d = spec_decode_directory(pre.page_bytes(dpid));
                let b = spec_decode_bucket(pre.page_bytes(bucket_pid as usize));
                let bpu = bucket_pid as usize;
                let npu = new_bucket_pid;
                assert(b == pre_bucket);
                if pre.resident(dpid) {
                    BufferPool::lemma_resident_frame(&pre, dpid);
                }
                if pre.resident(bpu) {
                    BufferPool::lemma_resident_frame(&pre, bpu);
                }
                assert((dpid as int) < pre.disk().len());
                assert((bpu as int) < pre.disk().len());
                assert(npu == pre.disk().len());
                lemma_directory_round_trip(directory_page@);
                lemma_bucket_round_trip(rehashed_bucket);
                lemma_bucket_round_trip(rehashed_new);
                // bytes of the three written pages, chained to the end
                assert(g5.page_bytes(npu) == spec_encode_bucket(rehashed_new));
                assert(g5.page_known(npu));
                assert(g6.page_bytes(npu) == g5.page_bytes(npu));
                assert(g6.page_known(npu));
                assert(g7.page_bytes(npu) == g6.page_bytes(npu));
                assert(g7.page_known(npu));
                assert(g8.page_bytes(npu) == g7.page_bytes(npu));
                assert(g8.page_known(npu));
                assert(g9.page_bytes(npu) == g8.page_bytes(npu));
                assert(g9.page_known(npu));
                assert(g10.page_bytes(npu) == g9.page_bytes(npu));
                assert(g10.page_known(npu));
                assert(pool.page_bytes(npu) == g10.page_bytes(npu));
                assert(spec_decode_bucket(pool.page_bytes(npu)) == rehashed_new);
                assert(g7.page_bytes(bpu) == spec_encode_bucket(rehashed_bucket));
                assert(g7.page_known(bpu));
                assert(g8.page_bytes(bpu) == g7.page_bytes(bpu));
                assert(g8.page_known(bpu));
                assert(g9.page_bytes(bpu) == g8.page_bytes(bpu));
                assert(g9.page_known(bpu));
                assert(g10.page_bytes(bpu) == g9.page_bytes(bpu));
                assert(g10.page_known(bpu));
                assert(pool.page_bytes(bpu) == g10.page_bytes(bpu));
                assert(spec_decode_bucket(pool.page_bytes(bpu)) == rehashed_bucket);
                assert(g10.page_bytes(dpid) == dir_raw@);
                assert(g10.page_known(dpid));
                assert(pool.page_bytes(dpid) == g10.page_bytes(dpid));
                assert(spec_decode_directory(pool.page_bytes(dpid)) == directory_page@);
                // the directory view equals the split transform of the decoded one
                let nl = (d.local_depths[slot as int] + 1) as u8;
                let d1 = HashDirectoryView {
                    local_depths: d.local_depths.update(slot as int, nl),
                    ..d
                };
                assert(pre_split_dir == d1);
                // untouched pages keep their bytes
                assert forall|q: usize|
                    q != dpid && q != bpu && q != npu && #[trigger] pre.page_known(
                        q,
                    ) implies pool.page_known(q) && pool.page_bytes(q) == pre.page_bytes(q) by {
                    assert(s2.page_known(q) && s2.page_bytes(q) == pre.page_bytes(q));
                    assert(s3.page_known(q) && s3.page_bytes(q) == s2.page_bytes(q));
                    assert(g4.page_known(q) && g4.page_bytes(q) == s3.page_bytes(q));
                    assert(g5.page_known(q) && g5.page_bytes(q) == g4.page_bytes(q));
                    assert(g6.page_known(q) && g6.page_bytes(q) == g5.page_bytes(q));
                    assert(g7.page_known(q) && g7.page_bytes(q) == g6.page_bytes(q));
                    assert(g8.page_known(q) && g8.page_bytes(q) == g7.page_bytes(q));
                    assert(g9.page_known(q) && g9.page_bytes(q) == g8.page_bytes(q));
                    assert(g10.page_known(q) && g10.page_bytes(q) == g9.page_bytes(q));
                }
            }
            Ok(false)
        }
    }

    /// Removes the first live entry of the key from its bucket and
    /// hands the pair back. `None` means nothing changed: the key had no
    /// live entry, or the walk failed; a `Some` is owed whenever the
    /// walk is owed success and a live entry of the key exists.
    pub fn remove(&self, pool: &mut BufferPool, key: u32) -> (r: Option<(u32, u32)>)
        requires
            old(pool).wf(),
        ensures
            final(pool).wf(),
            final(pool).pool_size() == old(pool).pool_size(),
            ({
                let d = spec_decode_directory(
                    old(pool).page_bytes(self.directory_page_id as usize),
                );
                let slot = spec_slot_of(key, d.global_depth) as int;
                let b = spec_decode_bucket(
                    old(pool).page_bytes(d.bucket_page_ids[slot] as usize),
                );
                (spec_can_reach_bucket(*old(pool), self.directory_page_id, key)
                    && spec_bucket_lookup(b, key) is Some) ==> r is Some
            }),
            match r {
                Some(pair) => ({
                    let d = spec_decode_directory(
                        old(pool).page_bytes(self.directory_page_id as usize),
                    );
                    let slot = spec_slot_of(key, d.global_depth) as int;
                    let b = spec_decode_bucket(
                        old(pool).page_bytes(d.bucket_page_ids[slot] as usize),
                    );
                    &&& pair.0 == key
                    &&& spec_decode_directory(final(pool).page_bytes(self.directory_page_id as usize)) == d
                    &&& (forall|q: usize|
                        q != d.bucket_page_ids[slot] as usize && #[trigger] old(pool).page_known(
                            q,
                        ) ==> final(pool).page_known(q) && final(pool).page_bytes(q) == old(pool).page_bytes(q))
                    &&& exists|i: int|
                        {
                            &&& 0 <= i < BUCKET_SLOTS
                            &&& b.readable[i]
                            &&& (#[trigger] b.key_values[i]).0 == key
                            &&& (forall|j: int|
                                0 <= j < i ==> !(b.readable[j] && b.key_values[j].0 == key))
                            &&& pair.1 == b.key_values[i].1
                            &&& spec_decode_bucket(
                                final(pool).page_bytes(d.bucket_page_ids[slot] as usize),
                            ) == (HashBucketView {
                                readable: b.readable.update(i, false),
                                occupied: b.occupied,
                                key_values: b.key_values.update(i, (0u32, 0u32)),
                            })
                        }
                }),
                None => forall|q: usize| #[trigger]
                    old(pool).page_known(q) ==> final(pool).page_known(q) && final(pool).page_bytes(q) == old(pool).page_bytes(q),
            },
    {
        let dpid = self.directory_page_id as usize;
        let ghost can = spec_can_reach_bucket(*old(pool), self.directory_page_id, key);
        let (directory_page, slot, bucket_pid) = match self.pin_read_directory(pool, key) {
            Ok(found) => found,
            Err(e) => {
                return None;
            },
        };
        let ghost s2 = *pool;
        proof {
            if can {
                if old(pool).resident(bucket_pid as usize) {
                    BufferPool::lemma_resident_frame(&*old(pool), bucket_pid as usize);
                }
                assert((bucket_pid as usize as int) < old(pool).disk().len());
            }
        }
        let bucket_frame = match pool.load_page(bucket_pid as usize) {
            Some(f) => f,
            None => {
                proof {
                    assert(!can);
                }
                return None;
            },
        };
        let ghost s3 = *pool;
        proof {
            assert(s2.page_known(bucket_pid as usize));
            if s2.resident(bucket_pid as usize) {
                assert(old(pool).resident(bucket_pid as usize) || bucket_pid as usize == dpid);
            }
            assert(old(pool).page_known(bucket_pid as usize));
            assert(s2.page_bytes(bucket_pid as usize) == old(pool).page_bytes(
                bucket_pid as usize,
            ));
            assert(s3.page_bytes(bucket_pid as usize) == s2.page_bytes(bucket_pid as usize));
        }
        let mut bucket_page = read_bucket_page(pool, bucket_pid as usize, bucket_frame);
        let ghost old_bucket_view = bucket_page@;
        let pair = match bucket_page.remove(key) {
            Ok(pair) => pair,
            Err(e) => {
                match pool.unload_page_id(bucket_pid as usize) {
                    Ok(u) => (),
                    Err(e2) => {
                        proof {
                            assert(false);
                        }
                        return None;
                    },
                };
                proof {
                    crate::extendible_hashing::hash_bucket_page::lemma_lookup_some_iff_match(
                        old_bucket_view,
                        key,
                        0,
                    );
                    assert forall|q: usize| #[trigger]
                        old(pool).page_known(q) implies pool.page_known(q) && pool.page_bytes(q)
                        == old(pool).page_bytes(q) by {
                        assert(s2.page_known(q) && s2.page_bytes(q) == old(pool).page_bytes(q));
                        assert(s3.page_known(q) && s3.page_bytes(q) == s2.page_bytes(q));
                    }
                }
                return None;
            },
        };
        let ghost bucket_view = bucket_page@;
        let bucket_raw = bucket_page.to_raw_page();
        match pool.update_page(bucket_pid as usize, bucket_raw) {
            Ok(u) => (),
            Err(e) => {
                proof {
                    assert(false);
                }
                return None;
            },
        };
        let ghost s4 = *pool;
        match pool.unload_page_id(bucket_pid as usize) {
            Ok(u) => (),
            Err(e) => {
                proof {
                    assert(false);
                }
                return None;
            },
        };
        proof {
            lemma_bucket_round_trip(bucket_view);
            assert(s4.page_bytes(bucket_pid as usize) == spec_encode_bucket(bucket_view));
            assert(s4.page_known(bucket_pid as usize));
            assert(pool.page_bytes(bucket_pid as usize) == s4.page_bytes(bucket_pid as usize));
            assert(spec_decode_bucket(pool.page_bytes(bucket_pid as usize)) == bucket_view);
            assert forall|q: usize|
                q != bucket_pid as usize && #[trigger] old(pool).page_known(q) implies pool.page_known(q) && pool.page_bytes(q) == old(pool).page_bytes(q) by {
                assert(s2.page_known(q) && s2.page_bytes(q) == old(pool).page_bytes(q));
                assert(s3.page_known(q) && s3.page_bytes(q) == s2.page_bytes(q));
                assert(s4.page_known(q) && s4.page_bytes(q) == s3.page_bytes(q));
            }
            assert(dpid != bucket_pid as usize);
            assert(old(pool).page_known(dpid));
            assert(pool.page_bytes(dpid) == old(pool).page_bytes(dpid));
            assert(old_bucket_view == spec_decode_bucket(
                old(pool).page_bytes(bucket_pid as usize),
            ));
            assert(spec_slot_of(key, directory_page@.global_depth) == slot);
            assert(directory_page@.bucket_page_ids[slot as int] == bucket_pid);
            let i0 = choose|i: int|
                {
                    &&& 0 <= i < BUCKET_SLOTS
                    &&& old_bucket_view.readable[i]
                    &&& old_bucket_view.key_values[i].0 == key
                    &&& (forall|j: int|
                        0 <= j < i ==> !(old_bucket_view.readable[j]
                            && old_bucket_view.key_values[j].0 == key))
                    &&& pair == old_bucket_view.key_values[i]
                    &&& bucket_view == (HashBucketView {
                        readable: old_bucket_view.readable.update(i, false),
                        occupied: old_bucket_view.occupied,
                        key_values: old_bucket_view.key_values.update(i, (0u32, 0u32)),
                    })
                };
            assert(0 <= i0 < BUCKET_SLOTS && old_bucket_view.readable[i0]
                && old_bucket_view.key_values[i0].0 == key);
        }
        Some(pair)
    }
}

} // verus!
