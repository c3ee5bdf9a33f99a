//! An internal page of the B+ tree.
//!
//! Layout, little-endian: a 21-byte header — own page id (four bytes),
//! the page-type byte (zero for internal pages), the log sequence
//! number, current size, greatest size and parent page id (four bytes
//! each) — followed by one eight-byte entry per child: a key and the
//! child's page id. The key of entry `0` is conventionally unused; for
//! a later entry, every key in its subtree is at least the entry's key
//! and below the next entry's key, the last subtree open-ended.

use vstd::bytes::*;
use vstd::prelude::*;

use crate::common::codec::{get_u32, get_u8, put_u32, put_u32_pairs, put_u8, u32_pair_byte};
use crate::disk_management::buffer_pool::{RawPage, PAGE_SIZE};

verus! {

/// The page-type byte of an internal page.
pub const INTERNAL_PAGE_TYPE: u8 = 0;

/// The abstract contents of an internal page.
pub ghost struct BPlusTreeInternalView {
    pub own_pid: u32,
    pub page_type: u8,
    pub lsn: u32,
    pub current_size: u32,
    pub max_size: u32,
    pub parent_pid: u32,
    pub key_page_pairs: Seq<(u32, u32)>,
}

impl BPlusTreeInternalView {
    /// The entries fit the page and agree with the current size.
    pub open spec fn wf(self) -> bool {
        &&& self.key_page_pairs.len() == self.current_size
        &&& 21 + 8 * self.key_page_pairs.len() <= PAGE_SIZE
    }
}

/// The byte at offset `i` of the encoded internal page.
pub open spec fn spec_internal_byte(v: BPlusTreeInternalView, i: int) -> u8 {
    if i < 4 {
        spec_u32_to_le_bytes(v.own_pid)[i]
    } else if i == 4 {
        v.page_type
    } else if i < 9 {
        spec_u32_to_le_bytes(v.lsn)[i - 5]
    } else if i < 13 {
        spec_u32_to_le_bytes(v.current_size)[i - 9]
    } else if i < 17 {
        spec_u32_to_le_bytes(v.max_size)[i - 13]
    } else if i < 21 {
        spec_u32_to_le_bytes(v.parent_pid)[i - 17]
    } else if i < 21 + 8 * v.key_page_pairs.len() {
        u32_pair_byte(v.key_page_pairs, i - 21)
    } else {
        0
    }
}

/// The encoded form of an internal page: always exactly one page.
pub open spec fn spec_encode_internal(v: BPlusTreeInternalView) -> Seq<u8> {
    Seq::new(PAGE_SIZE as nat, |i: int| spec_internal_byte(v, i))
}

/// The internal view read back from one page of bytes, or `None` when
/// the recorded size does not fit the page.
pub open spec fn spec_decode_internal(s: Seq<u8>) -> Option<BPlusTreeInternalView> {
    let current_size = spec_u32_from_le_bytes(s.subrange(9, 13));
    if 21 + 8 * (current_size as int) <= PAGE_SIZE {
        Some(
            BPlusTreeInternalView {
                own_pid: spec_u32_from_le_bytes(s.subrange(0, 4)),
                page_type: s[4],
                lsn: spec_u32_from_le_bytes(s.subrange(5, 9)),
                current_size,
                max_size: spec_u32_from_le_bytes(s.subrange(13, 17)),
                parent_pid: spec_u32_from_le_bytes(s.subrange(17, 21)),
                key_page_pairs: Seq::new(
                    current_size as nat,
                    |i: int|
                        (
                            spec_u32_from_le_bytes(s.subrange(21 + 8 * i, 21 + 8 * i + 4)),
                            spec_u32_from_le_bytes(s.subrange(21 + 8 * i + 4, 21 + 8 * i + 8)),
                        ),
                ),
            },
        )
    } else {
        None
    }
}

/// Law: decoding an encoded internal page gives back the same view,
/// for every well-formed view.
pub proof fn lemma_internal_round_trip(v: BPlusTreeInternalView)
    requires
        v.wf(),
    ensures
        spec_decode_internal(spec_encode_internal(v)) == Some(v),
{
    lemma_auto_spec_u32_to_from_le_bytes();
    let enc = spec_encode_internal(v);
    assert(enc.subrange(0, 4) =~= spec_u32_to_le_bytes(v.own_pid));
    assert(enc.subrange(5, 9) =~= spec_u32_to_le_bytes(v.lsn));
    assert(enc.subrange(9, 13) =~= spec_u32_to_le_bytes(v.current_size));
    assert(enc.subrange(13, 17) =~= spec_u32_to_le_bytes(v.max_size));
    assert(enc.subrange(17, 21) =~= spec_u32_to_le_bytes(v.parent_pid));
    let dec = spec_decode_internal(enc).unwrap();
    assert forall|k: int| 0 <= k < 8 * v.key_page_pairs.len() implies enc[21 + k]
        == u32_pair_byte(v.key_page_pairs, k) by {
        assert(enc[21 + k] == spec_internal_byte(v, 21 + k));
    }
    assert forall|i: int| 0 <= i < v.key_page_pairs.len() implies dec.key_page_pairs[i]
        == v.key_page_pairs[i] by {
        crate::common::codec::lemma_u32_pair_field(enc, v.key_page_pairs, 21, i);
    }
    assert(dec.key_page_pairs =~= v.key_page_pairs);
}

/// Where the routing rule sends a key: the first child whose key range
/// holds it, the first child for keys below the second entry's key, the
/// last child for keys past the end.
pub open spec fn spec_route(pairs: Seq<(u32, u32)>, key: u32) -> u32
    recommends
        pairs.len() >= 1,
{
    if pairs.len() == 1 || key < pairs[1].0 {
        pairs[0].1
    } else {
        spec_route_from(pairs, key, 1)
    }
}

/// The routing scan from entry `i` on.
pub open spec fn spec_route_from(pairs: Seq<(u32, u32)>, key: u32, i: int) -> u32
    recommends
        1 <= i < pairs.len(),
    decreases pairs.len() - i,
{
    if i >= pairs.len() - 1 {
        pairs[pairs.len() - 1].1
    } else if key >= pairs[i].0 && key < pairs[i + 1].0 {
        pairs[i].1
    } else {
        spec_route_from(pairs, key, i + 1)
    }
}

/// One internal page of the B+ tree.
pub struct BPlusTreeInternalPage {
    own_pid: u32,
    page_type: u8,
    lsn: u32,
    current_size: u32,
    max_size: u32,
    parent_pid: u32,
    key_page_pairs: Vec<(u32, u32)>,
}

impl View for BPlusTreeInternalPage {
    type V = BPlusTreeInternalView;

    closed spec fn view(&self) -> BPlusTreeInternalView {
        BPlusTreeInternalView {
            own_pid: self.own_pid,
            page_type: self.page_type,
            lsn: self.lsn,
            current_size: self.current_size,
            max_size: self.max_size,
            parent_pid: self.parent_pid,
            key_page_pairs: self.key_page_pairs@,
        }
    }
}

impl BPlusTreeInternalPage {
    /// Builds an internal page from its parts.
    pub fn new(
        own_pid: u32,
        lsn: u32,
        max_size: u32,
        parent_pid: u32,
        key_page_pairs: Vec<(u32, u32)>,
    ) -> (r: BPlusTreeInternalPage)
        requires
            21 + 8 * key_page_pairs@.len() <= PAGE_SIZE,
            key_page_pairs@.len() <= u32::MAX,
        ensures
            r@ == (BPlusTreeInternalView {
                own_pid,
                page_type: INTERNAL_PAGE_TYPE,
                lsn,
                current_size: key_page_pairs@.len() as u32,
                max_size,
                parent_pid,
                key_page_pairs: key_page_pairs@,
            }),
            r@.wf(),
    {
        let current_size = key_page_pairs.len() as u32;
        BPlusTreeInternalPage {
            own_pid,
            page_type: INTERNAL_PAGE_TYPE,
            lsn,
            current_size,
            max_size,
            parent_pid,
            key_page_pairs,
        }
    }

    /// Reads an internal page back from its raw bytes; fails exactly
    /// when the recorded size does not fit the page.
    pub fn from_raw_page(raw_page: &RawPage) -> (r: Option<BPlusTreeInternalPage>)
        requires
            raw_page.wf(),
        ensures
            match r {
                Some(p) => spec_decode_internal(raw_page@) == Some(p@) && p@.wf(),
                None => spec_decode_internal(raw_page@) is None,
            },
    {
        let own_pid = get_u32(&raw_page.data, 0);
        let page_type = get_u8(&raw_page.data, 4);
        let lsn = get_u32(&raw_page.data, 5);
        let current_size = get_u32(&raw_page.data, 9);
        let max_size = get_u32(&raw_page.data, 13);
        let parent_pid = get_u32(&raw_page.data, 17);
        if current_size as usize > (PAGE_SIZE - 21) / 8 {
            return None;
        }
        let count = current_size as usize;
        let mut key_page_pairs: Vec<(u32, u32)> = Vec::new();
        let mut i: usize = 0;
        while i < count
            invariant
                raw_page.wf(),
                21 + 8 * count <= PAGE_SIZE,
                i <= count,
                key_page_pairs@.len() == i,
                forall|j: int|
                    0 <= j < i ==> key_page_pairs@[j] == (
                    spec_u32_from_le_bytes(raw_page@.subrange(21 + 8 * j, 21 + 8 * j + 4)),
                    spec_u32_from_le_bytes(raw_page@.subrange(21 + 8 * j + 4, 21 + 8 * j + 8)),
                    ),
            decreases count - i,
        {
            let key = get_u32(&raw_page.data, 21 + 8 * i);
            let pid = get_u32(&raw_page.data, 21 + 8 * i + 4);
            key_page_pairs.push((key, pid));
            i = i + 1;
        }
        let r = BPlusTreeInternalPage {
            own_pid,
            page_type,
            lsn,
            current_size,
            max_size,
            parent_pid,
            key_page_pairs,
        };
        proof {
            let dec = spec_decode_internal(raw_page@).unwrap();
            assert(r@.key_page_pairs =~= dec.key_page_pairs);
            assert(spec_decode_internal(raw_page@) == Some(r@));
        }
        Some(r)
    }

    /// Encodes the page into one raw page of exactly `PAGE_SIZE` bytes.
    pub fn to_raw_page(self) -> (r: Option<RawPage>)
        requires
            self@.wf(),
        ensures
            match r {
                Some(raw) => raw.wf() && raw@ == spec_encode_internal(self@),
                None => false,
            },
    {
        let mut page = crate::common::codec::zero_bytes(PAGE_SIZE);
        put_u32(&mut page, 0, self.own_pid);
        put_u8(&mut page, 4, self.page_type);
        put_u32(&mut page, 5, self.lsn);
        put_u32(&mut page, 9, self.current_size);
        put_u32(&mut page, 13, self.max_size);
        put_u32(&mut page, 17, self.parent_pid);
        put_u32_pairs(&mut page, 21, &self.key_page_pairs);
        proof {
            assert forall|i: int| 0 <= i < PAGE_SIZE implies page@[i] == spec_internal_byte(
                self@,
                i,
            ) by {
                if i < 4 {
                    assert(page@[i] == page@.subrange(0, 4)[i]);
                } else if 5 <= i < 9 {
                    assert(page@[i] == page@.subrange(5, 9)[i - 5]);
                } else if 9 <= i < 13 {
                    assert(page@[i] == page@.subrange(9, 13)[i - 9]);
                } else if 13 <= i < 17 {
                    assert(page@[i] == page@.subrange(13, 17)[i - 13]);
                } else if 17 <= i < 21 {
                    assert(page@[i] == page@.subrange(17, 21)[i - 17]);
                } else if 21 <= i < 21 + 8 * self@.key_page_pairs.len() {
                    assert(page@[21 + (i - 21)] == u32_pair_byte(self@.key_page_pairs, i - 21));
                }
            }
            assert(page@ =~= spec_encode_internal(self@));
        }
        Some(RawPage::new(page))
    }

    /// Routes a key: the page id of the child whose subtree may hold it.
    pub fn get_child_node(&self, key: u32) -> (r: u32)
        requires
            self@.key_page_pairs.len() >= 1,
        ensures
            r == spec_route(self@.key_page_pairs, key),
    {
        let n = self.key_page_pairs.len();
        if n == 1 || key < self.key_page_pairs[1].0 {
            return self.key_page_pairs[0].1;
        }
        let mut i: usize = 1;
        while i < n - 1
            invariant
                self@.key_page_pairs.len() == n,
                n >= 2,
                key >= self@.key_page_pairs[1].0,
                1 <= i <= n - 1,
                spec_route_from(self@.key_page_pairs, key, 1) == spec_route_from(
                    self@.key_page_pairs,
                    key,
                    i as int,
                ),
            decreases n - i,
        {
            if key >= self.key_page_pairs[i].0 && key < self.key_page_pairs[i + 1].0 {
                return self.key_page_pairs[i].1;
            }
            i = i + 1;
        }
        self.key_page_pairs[n - 1].1
    }

    /// The page id of the first child, if the page has any entry.
    pub fn get_first_child(&self) -> (r: Option<u32>)
        ensures
            match r {
                Some(p) => self@.key_page_pairs.len() >= 1 && p == self@.key_page_pairs[0].1,
                None => self@.key_page_pairs.len() == 0,
            },
    {
        if self.key_page_pairs.len() >= 1 {
            Some(self.key_page_pairs[0].1)
        } else {
            None
        }
    }
}

} // verus!
