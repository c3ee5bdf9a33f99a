//! Little-endian field access within a fixed-size page buffer.
//!
//! Every on-page integer in this crate is little-endian and fixed width;
//! these helpers read and write one field at a given offset and state
//! exactly which bytes change.

use vstd::bytes::*;
use vstd::prelude::*;
use vstd::slice::slice_subrange;

verus! {

/// Writes one byte at `off`, leaving every other byte unchanged.
pub fn put_u8(page: &mut Vec<u8>, off: usize, v: u8)
    requires
        off < old(page).len(),
    ensures
        final(page)@ == old(page)@.update(off as int, v),
{
    page[off] = v;
}

/// Reads the byte at `off`.
pub fn get_u8(page: &Vec<u8>, off: usize) -> (r: u8)
    requires
        off < page.len(),
    ensures
        r == page@[off as int],
{
    page[off]
}

/// Writes `v` as two little-endian bytes at `off..off + 2`.
pub fn put_u16(page: &mut Vec<u8>, off: usize, v: u16)
    requires
        off + 2 <= old(page).len(),
    ensures
        final(page)@.len() == old(page)@.len(),
        final(page)@.subrange(off as int, off + 2) == spec_u16_to_le_bytes(v),
        forall|i: int|
            0 <= i < old(page)@.len() && !(off <= i < off + 2) ==> final(page)@[i] == old(page)@[i],
{
    let bytes = u16_to_le_bytes(v);
    page[off] = bytes[0];
    page[off + 1] = bytes[1];
    proof {
        assert(final(page)@.subrange(off as int, off + 2) =~= spec_u16_to_le_bytes(v));
    }
}

/// Reads two little-endian bytes at `off..off + 2` as a `u16`.
pub fn get_u16(page: &Vec<u8>, off: usize) -> (r: u16)
    requires
        off + 2 <= page.len(),
    ensures
        r == spec_u16_from_le_bytes(page@.subrange(off as int, off + 2)),
{
    let field = slice_subrange(page.as_slice(), off, off + 2);
    u16_from_le_bytes(field)
}

/// Writes `v` as four little-endian bytes at `off..off + 4`.
pub fn put_u32(page: &mut Vec<u8>, off: usize, v: u32)
    requires
        off + 4 <= old(page).len(),
    ensures
        final(page)@.len() == old(page)@.len(),
        final(page)@.subrange(off as int, off + 4) == spec_u32_to_le_bytes(v),
        forall|i: int|
            0 <= i < old(page)@.len() && !(off <= i < off + 4) ==> final(page)@[i] == old(page)@[i],
{
    let bytes = u32_to_le_bytes(v);
    page[off] = bytes[0];
    page[off + 1] = bytes[1];
    page[off + 2] = bytes[2];
    page[off + 3] = bytes[3];
    proof {
        assert(final(page)@.subrange(off as int, off + 4) =~= spec_u32_to_le_bytes(v));
    }
}

/// Reads four little-endian bytes at `off..off + 4` as a `u32`.
pub fn get_u32(page: &Vec<u8>, off: usize) -> (r: u32)
    requires
        off + 4 <= page.len(),
    ensures
        r == spec_u32_from_le_bytes(page@.subrange(off as int, off + 4)),
{
    let field = slice_subrange(page.as_slice(), off, off + 4);
    u32_from_le_bytes(field)
}

/// The byte at offset `k` of a packed array of little-endian `u32`s.
pub open spec fn u32_array_byte(a: Seq<u32>, k: int) -> u8 {
    spec_u32_to_le_bytes(a[k / 4])[k % 4]
}

/// The byte at offset `k` of a packed array of pairs of little-endian
/// `u32`s, eight bytes per pair.
pub open spec fn u32_pair_byte(a: Seq<(u32, u32)>, k: int) -> u8 {
    if k % 8 < 4 {
        spec_u32_to_le_bytes(a[k / 8].0)[k % 8]
    } else {
        spec_u32_to_le_bytes(a[k / 8].1)[k % 8 - 4]
    }
}

/// Reading four bytes at entry `i` of a packed `u32` array recovers the
/// entry.
pub proof fn lemma_u32_array_field(s: Seq<u8>, a: Seq<u32>, base: int, i: int)
    requires
        0 <= base,
        0 <= i < a.len(),
        base + 4 * a.len() <= s.len(),
        forall|k: int| 0 <= k < 4 * a.len() ==> s[base + k] == u32_array_byte(a, k),
    ensures
        spec_u32_from_le_bytes(s.subrange(base + 4 * i, base + 4 * i + 4)) == a[i],
{
    lemma_auto_spec_u32_to_from_le_bytes();
    assert forall|j: int| 0 <= j < 4 implies s[base + 4 * i + j] == spec_u32_to_le_bytes(a[i])[j] by {
        assert(0 <= 4 * i + j < 4 * a.len()) by (nonlinear_arith)
            requires
                0 <= i < a.len(),
                0 <= j < 4,
        ;
        assert(s[base + (4 * i + j)] == u32_array_byte(a, 4 * i + j));
        assert((4 * i + j) / 4 == i && (4 * i + j) % 4 == j) by (nonlinear_arith)
            requires
                0 <= j < 4,
        ;
    }
    assert(s.subrange(base + 4 * i, base + 4 * i + 4) =~= spec_u32_to_le_bytes(a[i]));
}

/// Reading the two four-byte halves at entry `i` of a packed pair array
/// recovers the pair.
pub proof fn lemma_u32_pair_field(s: Seq<u8>, a: Seq<(u32, u32)>, base: int, i: int)
    requires
        0 <= base,
        0 <= i < a.len(),
        base + 8 * a.len() <= s.len(),
        forall|k: int| 0 <= k < 8 * a.len() ==> s[base + k] == u32_pair_byte(a, k),
    ensures
        spec_u32_from_le_bytes(s.subrange(base + 8 * i, base + 8 * i + 4)) == a[i].0,
        spec_u32_from_le_bytes(s.subrange(base + 8 * i + 4, base + 8 * i + 8)) == a[i].1,
{
    lemma_auto_spec_u32_to_from_le_bytes();
    assert forall|j: int| 0 <= j < 4 implies s[base + 8 * i + j] == spec_u32_to_le_bytes(
        a[i].0,
    )[j] by {
        assert(0 <= 8 * i + j < 8 * a.len()) by (nonlinear_arith)
            requires
                0 <= i < a.len(),
                0 <= j < 4,
        ;
        assert(s[base + (8 * i + j)] == u32_pair_byte(a, 8 * i + j));
        assert((8 * i + j) / 8 == i && (8 * i + j) % 8 == j) by (nonlinear_arith)
            requires
                0 <= j < 4,
        ;
    }
    assert forall|j: int| 0 <= j < 4 implies s[base + 8 * i + 4 + j] == spec_u32_to_le_bytes(
        a[i].1,
    )[j] by {
        assert(0 <= 8 * i + 4 + j < 8 * a.len()) by (nonlinear_arith)
            requires
                0 <= i < a.len(),
                0 <= j < 4,
        ;
        assert(s[base + (8 * i + 4 + j)] == u32_pair_byte(a, 8 * i + 4 + j));
        assert((8 * i + 4 + j) / 8 == i && (8 * i + 4 + j) % 8 == 4 + j) by (nonlinear_arith)
            requires
                0 <= j < 4,
        ;
    }
    assert(s.subrange(base + 8 * i, base + 8 * i + 4) =~= spec_u32_to_le_bytes(a[i].0));
    assert(s.subrange(base + 8 * i + 4, base + 8 * i + 8) =~= spec_u32_to_le_bytes(a[i].1));
}

/// Writes a packed array of little-endian `u32`s at `base`, leaving
/// every byte outside the region unchanged.
pub fn put_u32_array(page: &mut Vec<u8>, base: usize, a: &Vec<u32>)
    requires
        base + 4 * a@.len() <= old(page).len(),
    ensures
        final(page)@.len() == old(page)@.len(),
        forall|k: int| 0 <= k < 4 * a@.len() ==> final(page)@[base + k] == u32_array_byte(a@, k),
        forall|i: int|
            0 <= i < old(page)@.len() && !(base <= i < base + 4 * a@.len()) ==> final(page)@[i]
                == old(page)@[i],
{
    let mut idx: usize = 0;
    while idx < a.len()
        invariant
            base + 4 * a@.len() <= page.len(),
            page@.len() == old(page)@.len(),
            idx <= a@.len(),
            forall|k: int| 0 <= k < 4 * idx ==> page@[base + k] == u32_array_byte(a@, k),
            forall|i: int|
                0 <= i < page@.len() && !(base <= i < base + 4 * idx) ==> page@[i] == old(page)@[i],
        decreases a@.len() - idx,
    {
        let ghost prev = page@;
        put_u32(page, base + 4 * idx, a[idx]);
        proof {
            assert forall|k: int| 0 <= k < 4 * (idx + 1) implies page@[base + k] == u32_array_byte(
                a@,
                k,
            ) by {
                if k < 4 * idx {
                    assert(page@[base + k] == prev[base + k]);
                } else {
                    let j = k - 4 * idx;
                    assert(page@.subrange(base + 4 * idx, base + 4 * idx + 4)
                        == spec_u32_to_le_bytes(a@[idx as int]));
                    assert(page@[base + 4 * idx + j] == spec_u32_to_le_bytes(a@[idx as int])[j]);
                    assert((4 * idx + j) / 4 == idx && (4 * idx + j) % 4 == j) by (nonlinear_arith)
                        requires
                            0 <= j < 4,
                    ;
                }
            }
        }
        idx = idx + 1;
    }
}

/// Writes a packed array of `u32` pairs at `base`, eight bytes per
/// pair, leaving every byte outside the region unchanged.
pub fn put_u32_pairs(page: &mut Vec<u8>, base: usize, a: &Vec<(u32, u32)>)
    requires
        base + 8 * a@.len() <= old(page).len(),
    ensures
        final(page)@.len() == old(page)@.len(),
        forall|k: int| 0 <= k < 8 * a@.len() ==> final(page)@[base + k] == u32_pair_byte(a@, k),
        forall|i: int|
            0 <= i < old(page)@.len() && !(base <= i < base + 8 * a@.len()) ==> final(page)@[i]
                == old(page)@[i],
{
    let mut idx: usize = 0;
    while idx < a.len()
        invariant
            base + 8 * a@.len() <= page.len(),
            page@.len() == old(page)@.len(),
            idx <= a@.len(),
            forall|k: int| 0 <= k < 8 * idx ==> page@[base + k] == u32_pair_byte(a@, k),
            forall|i: int|
                0 <= i < page@.len() && !(base <= i < base + 8 * idx) ==> page@[i] == old(page)@[i],
        decreases a@.len() - idx,
    {
        let ghost prev = page@;
        let pair = a[idx];
        put_u32(page, base + 8 * idx, pair.0);
        put_u32(page, base + 8 * idx + 4, pair.1);
        proof {
            assert forall|k: int| 0 <= k < 8 * (idx + 1) implies page@[base + k] == u32_pair_byte(
                a@,
                k,
            ) by {
                if k < 8 * idx {
                    assert(page@[base + k] == prev[base + k]);
                } else {
                    let j = k - 8 * idx;
                    assert((8 * idx + j) / 8 == idx && (8 * idx + j) % 8 == j) by (nonlinear_arith)
                        requires
                            0 <= j < 8,
                    ;
                    if j < 4 {
                        assert(page@.subrange(base + 8 * idx, base + 8 * idx + 4)
                            == spec_u32_to_le_bytes(a@[idx as int].0));
                        assert(page@[base + 8 * idx + j] == spec_u32_to_le_bytes(
                            a@[idx as int].0,
                        )[j]);
                    } else {
                        assert(page@.subrange(base + 8 * idx + 4, base + 8 * idx + 8)
                            == spec_u32_to_le_bytes(a@[idx as int].1));
                        assert(page@[base + 8 * idx + 4 + (j - 4)] == spec_u32_to_le_bytes(
                            a@[idx as int].1,
                        )[j - 4]);
                    }
                }
            }
        }
        idx = idx + 1;
    }
}

/// Writes a run of bytes at `base`, leaving every byte outside the run
/// unchanged.
pub fn put_bytes(page: &mut Vec<u8>, base: usize, bytes: &Vec<u8>)
    requires
        base + bytes@.len() <= old(page).len(),
    ensures
        final(page)@.len() == old(page)@.len(),
        final(page)@.subrange(base as int, base + bytes@.len()) == bytes@,
        forall|i: int|
            0 <= i < old(page)@.len() && !(base <= i < base + bytes@.len()) ==> final(page)@[i]
                == old(page)@[i],
{
    let mut idx: usize = 0;
    while idx < bytes.len()
        invariant
            base + bytes@.len() <= page.len(),
            page@.len() == old(page)@.len(),
            idx <= bytes@.len(),
            forall|k: int| 0 <= k < idx ==> page@[base + k] == bytes@[k],
            forall|i: int|
                0 <= i < page@.len() && !(base <= i < base + idx) ==> page@[i] == old(page)@[i],
        decreases bytes@.len() - idx,
    {
        let ghost prev = page@;
        page[base + idx] = bytes[idx];
        proof {
            assert forall|k: int| 0 <= k < idx + 1 implies page@[base + k] == bytes@[k] by {
                if k < idx {
                    assert(page@[base + k] == prev[base + k]);
                }
            }
        }
        idx = idx + 1;
    }
    proof {
        assert(page@.subrange(base as int, base + bytes@.len()) =~= bytes@);
    }
}

/// Reads a run of `n` bytes starting at `off`.
pub fn get_bytes(page: &Vec<u8>, off: usize, n: usize) -> (r: Vec<u8>)
    requires
        off + n <= page.len(),
    ensures
        r@ == page@.subrange(off as int, off + n),
{
    vstd::slice::slice_to_vec(slice_subrange(page.as_slice(), off, off + n))
}

/// A buffer of `n` zero bytes.
pub fn zero_bytes(n: usize) -> (r: Vec<u8>)
    ensures
        r@ == Seq::new(n as nat, |i: int| 0u8),
{
    let r = vec![0u8; n];
    proof {
        assert(r@ =~= Seq::new(n as nat, |i: int| 0u8));
    }
    r
}

} // verus!
