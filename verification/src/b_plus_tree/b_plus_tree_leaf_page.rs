//! A leaf page of the B+ tree.
//!
//! Layout, little-endian: a 29-byte header — the internal-page header
//! followed by the next and previous leaf page ids, which chain all
//! leaves into a doubly linked list for range scans. Keys (four bytes
//! each) grow forward from byte 29; RIDs (eight bytes each) grow
//! forward from `PAGE_SIZE - max_size * 8`. Keys are kept ascending and
//! `rids[i]` belongs to `keys[i]`.

use vstd::bytes::*;
use vstd::prelude::*;

use crate::common::codec::{
    get_u32, get_u8, put_u32, put_u32_array, put_u32_pairs, put_u8, u32_array_byte, u32_pair_byte,
};
use crate::common::rid::Rid;
use crate::disk_management::buffer_pool::{RawPage, PAGE_SIZE};

verus! {

/// The page-type byte of a leaf page.
pub const LEAF_PAGE_TYPE: u8 = 1;

/// The abstract contents of a leaf page.
pub ghost struct BPlusTreeLeafView {
    pub own_pid: u32,
    pub page_type: u8,
    pub lsn: u32,
    pub current_size: u32,
    pub max_size: u32,
    pub parent_pid: u32,
    pub next_leaf: u32,
    pub prev_leaf: u32,
    pub keys: Seq<u32>,
    pub rids: Seq<Rid>,
}

/// Whether a key sequence is ascending, duplicates permitted.
pub open spec fn spec_sorted(keys: Seq<u32>) -> bool {
    forall|i: int, j: int| 0 <= i < j < keys.len() ==> keys[i] <= keys[j]
}

impl BPlusTreeLeafView {
    /// Where the RID array starts.
    pub open spec fn rid_base(self) -> int {
        PAGE_SIZE - 8 * self.max_size
    }

    /// Keys and RIDs agree with the current size, which fits the
    /// greatest size, and both arrays fit the page without touching.
    pub open spec fn wf(self) -> bool {
        &&& self.keys.len() == self.current_size
        &&& self.rids.len() == self.current_size
        &&& self.current_size <= self.max_size
        &&& 29 + 4 * self.max_size + 8 * self.max_size <= PAGE_SIZE
    }
}

/// The RID array as packed pairs of words.
pub open spec fn spec_rid_pairs(rids: Seq<Rid>) -> Seq<(u32, u32)> {
    Seq::new(rids.len(), |i: int| (rids[i].page_id, rids[i].slot_id))
}

/// The byte at offset `i` of the encoded leaf page.
pub open spec fn spec_leaf_byte(v: BPlusTreeLeafView, i: int) -> u8 {
    if i < 4 {
        spec_u32_to_le_bytes(v.own_pid)[i]
    } else if i == 4 {
        v.page_type
    } else if i < 9 {
        spec_u32_to_le_bytes(v.lsn)[i - 5]
    } else if i < 13 {
        spec_u32_to_le_bytes(v.current_size)[i - 9]
    } else if i < 17 {
        spec_u32_to_le_bytes(v.max_size)[i - 13]
    } else if i < 21 {
        spec_u32_to_le_bytes(v.parent_pid)[i - 17]
    } else if i < 25 {
        spec_u32_to_le_bytes(v.next_leaf)[i - 21]
    } else if i < 29 {
        spec_u32_to_le_bytes(v.prev_leaf)[i - 25]
    } else if i < 29 + 4 * v.keys.len() {
        u32_array_byte(v.keys, i - 29)
    } else if v.rid_base() <= i < v.rid_base() + 8 * v.rids.len() {
        u32_pair_byte(spec_rid_pairs(v.rids), i - v.rid_base())
    } else {
        0
    }
}

/// The encoded form of a leaf page: always exactly one page.
pub open spec fn spec_encode_leaf(v: BPlusTreeLeafView) -> Seq<u8> {
    Seq::new(PAGE_SIZE as nat, |i: int| spec_leaf_byte(v, i))
}

/// The leaf view read back from one page of bytes, or `None` when the
/// recorded sizes do not fit the page.
pub open spec fn spec_decode_leaf(s: Seq<u8>) -> Option<BPlusTreeLeafView> {
    let current_size = spec_u32_from_le_bytes(s.subrange(9, 13));
    let max_size = spec_u32_from_le_bytes(s.subrange(13, 17));
    if current_size <= max_size && 29 + 4 * (max_size as int) + 8 * (max_size as int)
        <= PAGE_SIZE {
        let rid_base = PAGE_SIZE - 8 * (max_size as int);
        Some(
            BPlusTreeLeafView {
                own_pid: spec_u32_from_le_bytes(s.subrange(0, 4)),
                page_type: s[4],
                lsn: spec_u32_from_le_bytes(s.subrange(5, 9)),
                current_size,
                max_size,
                parent_pid: spec_u32_from_le_bytes(s.subrange(17, 21)),
                next_leaf: spec_u32_from_le_bytes(s.subrange(21, 25)),
                prev_leaf: spec_u32_from_le_bytes(s.subrange(25, 29)),
                keys: Seq::new(
                    current_size as nat,
                    |i: int| spec_u32_from_le_bytes(s.subrange(29 + 4 * i, 29 + 4 * i + 4)),
                ),
                rids: Seq::new(
                    current_size as nat,
                    |i: int| Rid {
                        page_id: spec_u32_from_le_bytes(
                            s.subrange(rid_base + 8 * i, rid_base + 8 * i + 4),
                        ),
                        slot_id: spec_u32_from_le_bytes(
                            s.subrange(rid_base + 8 * i + 4, rid_base + 8 * i + 8),
                        ),
                    },
                ),
            },
        )
    } else {
        None
    }
}

/// Law: decoding an encoded leaf page gives back the same view, for
/// every well-formed view.
pub proof fn lemma_leaf_round_trip(v: BPlusTreeLeafView)
    requires
        v.wf(),
    ensures
        spec_decode_leaf(spec_encode_leaf(v)) == Some(v),
{
    lemma_auto_spec_u32_to_from_le_bytes();
    let enc = spec_encode_leaf(v);
    assert(enc.subrange(0, 4) =~= spec_u32_to_le_bytes(v.own_pid));
    assert(enc.subrange(5, 9) =~= spec_u32_to_le_bytes(v.lsn));
    assert(enc.subrange(9, 13) =~= spec_u32_to_le_bytes(v.current_size));
    assert(enc.subrange(13, 17) =~= spec_u32_to_le_bytes(v.max_size));
    assert(enc.subrange(17, 21) =~= spec_u32_to_le_bytes(v.parent_pid));
    assert(enc.subrange(21, 25) =~= spec_u32_to_le_bytes(v.next_leaf));
    assert(enc.subrange(25, 29) =~= spec_u32_to_le_bytes(v.prev_leaf));
    let dec = spec_decode_leaf(enc).unwrap();
    assert forall|k: int| 0 <= k < 4 * v.keys.len() implies enc[29 + k] == u32_array_byte(
        v.keys,
        k,
    ) by {
        assert(enc[29 + k] == spec_leaf_byte(v, 29 + k));
    }
    assert forall|i: int| 0 <= i < v.keys.len() implies dec.keys[i] == v.keys[i] by {
        crate::common::codec::lemma_u32_array_field(enc, v.keys, 29, i);
    }
    assert(dec.keys =~= v.keys);
    let base = v.rid_base();
    assert forall|k: int| 0 <= k < 8 * v.rids.len() implies enc[base + k] == u32_pair_byte(
        spec_rid_pairs(v.rids),
        k,
    ) by {
        assert(enc[base + k] == spec_leaf_byte(v, base + k));
    }
    assert forall|i: int| 0 <= i < v.rids.len() implies dec.rids[i] == v.rids[i] by {
        crate::common::codec::lemma_u32_pair_field(enc, spec_rid_pairs(v.rids), base, i);
        assert(spec_rid_pairs(v.rids)[i] == (v.rids[i].page_id, v.rids[i].slot_id));
    }
    assert(dec.rids =~= v.rids);
}

/// One leaf page of the B+ tree.
pub struct BPlusTreeLeafPage {
    own_pid: u32,
    page_type: u8,
    lsn: u32,
    current_size: u32,
    max_size: u32,
    parent_pid: u32,
    next_leaf: u32,
    prev_leaf: u32,
    keys: Vec<u32>,
    rids: Vec<Rid>,
}

impl View for BPlusTreeLeafPage {
    type V = BPlusTreeLeafView;

    closed spec fn view(&self) -> BPlusTreeLeafView {
        BPlusTreeLeafView {
            own_pid: self.own_pid,
            page_type: self.page_type,
            lsn: self.lsn,
            current_size: self.current_size,
            max_size: self.max_size,
            parent_pid: self.parent_pid,
            next_leaf: self.next_leaf,
            prev_leaf: self.prev_leaf,
            keys: self.keys@,
            rids: self.rids@,
        }
    }
}

impl BPlusTreeLeafPage {
    /// Builds an empty leaf page.
    pub fn new_empty(own_pid: u32, lsn: u32, max_size: u32, parent_pid: u32) -> (r:
        BPlusTreeLeafPage)
        requires
            29 + 4 * max_size + 8 * max_size <= PAGE_SIZE,
        ensures
            r@.wf(),
            r@.own_pid == own_pid,
            r@.page_type == LEAF_PAGE_TYPE,
            r@.current_size == 0,
            r@.max_size == max_size,
            r@.keys.len() == 0,
            r@.rids.len() == 0,
            r@.next_leaf == 0,
            r@.prev_leaf == 0,
    {
        BPlusTreeLeafPage {
            own_pid,
            page_type: LEAF_PAGE_TYPE,
            lsn,
            current_size: 0,
            max_size,
            parent_pid,
            next_leaf: 0,
            prev_leaf: 0,
            keys: Vec::new(),
            rids: Vec::new(),
        }
    }

    /// Reads a leaf page back from its raw bytes; fails exactly when
    /// the recorded sizes do not fit the page.
    pub fn from_raw_page(raw_page: &RawPage) -> (r: Option<BPlusTreeLeafPage>)
        requires
            raw_page.wf(),
        ensures
            match r {
                Some(p) => spec_decode_leaf(raw_page@) == Some(p@) && p@.wf(),
                None => spec_decode_leaf(raw_page@) is None,
            },
    {
        let own_pid = get_u32(&raw_page.data, 0);
        let page_type = get_u8(&raw_page.data, 4);
        let lsn = get_u32(&raw_page.data, 5);
        let current_size = get_u32(&raw_page.data, 9);
        let max_size = get_u32(&raw_page.data, 13);
        let parent_pid = get_u32(&raw_page.data, 17);
        let next_leaf = get_u32(&raw_page.data, 21);
        let prev_leaf = get_u32(&raw_page.data, 25);
        if current_size > max_size {
            return None;
        }
        if max_size as usize > (PAGE_SIZE - 29) / 12 {
            proof {
                assert(29 + 4 * (max_size as int) + 8 * (max_size as int) > PAGE_SIZE);
            }
            return None;
        }
        proof {
            assert(29 + 4 * (max_size as int) + 8 * (max_size as int) <= PAGE_SIZE);
        }
        let rid_base = PAGE_SIZE - 8 * (max_size as usize);
        let count = current_size as usize;
        let mut keys: Vec<u32> = Vec::new();
        let mut rids: Vec<Rid> = Vec::new();
        let mut i: usize = 0;
        while i < count
            invariant
                raw_page.wf(),
                count <= max_size as usize,
                29 + 12 * (max_size as int) <= PAGE_SIZE,
                rid_base == PAGE_SIZE - 8 * (max_size as int),
                i <= count,
                keys@.len() == i,
                rids@.len() == i,
                forall|j: int|
                    0 <= j < i ==> keys@[j] == spec_u32_from_le_bytes(
                        raw_page@.subrange(29 + 4 * j, 29 + 4 * j + 4),
                    ),
                forall|j: int|
                    0 <= j < i ==> rids@[j] == (Rid {
                        page_id: spec_u32_from_le_bytes(
                            raw_page@.subrange(rid_base + 8 * j, rid_base + 8 * j + 4),
                        ),
                        slot_id: spec_u32_from_le_bytes(
                            raw_page@.subrange(rid_base + 8 * j + 4, rid_base + 8 * j + 8),
                        ),
                    }),
            decreases count - i,
        {
            keys.push(get_u32(&raw_page.data, 29 + 4 * i));
            let page_id = get_u32(&raw_page.data, rid_base + 8 * i);
            let slot_id = get_u32(&raw_page.data, rid_base + 8 * i + 4);
            rids.push(Rid::new(page_id, slot_id));
            i = i + 1;
        }
        let r = BPlusTreeLeafPage {
            own_pid,
            page_type,
            lsn,
            current_size,
            max_size,
            parent_pid,
            next_leaf,
            prev_leaf,
            keys,
            rids,
        };
        proof {
            let dec = spec_decode_leaf(raw_page@).unwrap();
            assert(r@.keys =~= dec.keys);
            assert(r@.rids =~= dec.rids);
            assert(spec_decode_leaf(raw_page@) == Some(r@));
        }
        Some(r)
    }

    /// Encodes the page into one raw page of exactly `PAGE_SIZE` bytes.
    pub fn to_raw_page(self) -> (r: Option<RawPage>)
        requires
            self@.wf(),
        ensures
            match r {
                Some(raw) => raw.wf() && raw@ == spec_encode_leaf(self@),
                None => false,
            },
    {
        let mut page = crate::common::codec::zero_bytes(PAGE_SIZE);
        put_u32(&mut page, 0, self.own_pid);
        put_u8(&mut page, 4, self.page_type);
        put_u32(&mut page, 5, self.lsn);
        put_u32(&mut page, 9, self.current_size);
        put_u32(&mut page, 13, self.max_size);
        put_u32(&mut page, 17, self.parent_pid);
        put_u32(&mut page, 21, self.next_leaf);
        put_u32(&mut page, 25, self.prev_leaf);
        put_u32_array(&mut page, 29, &self.keys);
        let rid_base = PAGE_SIZE - 8 * (self.max_size as usize);
        let mut rid_pairs: Vec<(u32, u32)> = Vec::new();
        let mut i: usize = 0;
        let ghost mid = page@;
        while i < self.rids.len()
            invariant
                i <= self.rids@.len(),
                rid_pairs@.len() == i,
                page@ == mid,
                forall|j: int|
                    0 <= j < i ==> rid_pairs@[j] == (self.rids@[j].page_id, self.rids@[j].slot_id),
            decreases self.rids@.len() - i,
        {
            let rid = self.rids[i];
            rid_pairs.push((rid.page_id, rid.slot_id));
            i = i + 1;
        }
        proof {
            assert(rid_pairs@ =~= spec_rid_pairs(self@.rids));
        }
        put_u32_pairs(&mut page, rid_base, &rid_pairs);
        proof {
            let v = self@;
            assert forall|p: int| 0 <= p < PAGE_SIZE implies page@[p] == spec_leaf_byte(v, p) by {
                if p < 4 {
                    assert(page@[p] == page@.subrange(0, 4)[p]);
                } else if 5 <= p < 9 {
                    assert(page@[p] == page@.subrange(5, 9)[p - 5]);
                } else if 9 <= p < 13 {
                    assert(page@[p] == page@.subrange(9, 13)[p - 9]);
                } else if 13 <= p < 17 {
                    assert(page@[p] == page@.subrange(13, 17)[p - 13]);
                } else if 17 <= p < 21 {
                    assert(page@[p] == page@.subrange(17, 21)[p - 17]);
                } else if 21 <= p < 25 {
                    assert(page@[p] == page@.subrange(21, 25)[p - 21]);
                } else if 25 <= p < 29 {
                    assert(page@[p] == page@.subrange(25, 29)[p - 25]);
                } else if 29 <= p < 29 + 4 * v.keys.len() {
                    assert(page@[29 + (p - 29)] == u32_array_byte(v.keys, p - 29));
                } else if v.rid_base() <= p < v.rid_base() + 8 * v.rids.len() {
                    assert(page@[rid_base + (p - rid_base)] == u32_pair_byte(
                        rid_pairs@,
                        p - rid_base,
                    ));
                }
            }
            assert(page@ =~= spec_encode_leaf(self@));
        }
        Some(RawPage::new(page))
    }

    /// The next leaf in the chain.
    fn get_next_leaf(&self) -> (r: u32)
        ensures
            r == self@.next_leaf,
    {
        self.next_leaf
    }

    /// The previous leaf in the chain.
    fn get_previous_leaf(&self) -> (r: u32)
        ensures
            r == self@.prev_leaf,
    {
        self.prev_leaf
    }

    /// The RID of the live entry of a key, if the key is present.
    pub fn get_rid_of(&self, key: u32) -> (r: Option<&Rid>)
        requires
            self@.wf(),
        ensures
            match r {
                Some(rid) => exists|i: int|
                    0 <= i < self@.keys.len() && self@.keys[i] == key && self@.rids[i] == *rid,
                None => forall|i: int| 0 <= i < self@.keys.len() ==> self@.keys[i] != key,
            },
    {
        let mut i: usize = 0;
        while i < self.keys.len()
            invariant
                self@.wf(),
                i <= self@.keys.len(),
                forall|j: int| 0 <= j < i ==> self@.keys[j] != key,
            decreases self@.keys.len() - i,
        {
            if self.keys[i] == key {
                return Some(&self.rids[i]);
            }
            i = i + 1;
        }
        None
    }

    /// The key at a position, if the position is filled.
    pub fn get_key_at(&self, index: usize) -> (r: Option<&u32>)
        ensures
            match r {
                Some(k) => index < self@.keys.len() && *k == self@.keys[index as int],
                None => index >= self@.keys.len(),
            },
    {
        if index < self.keys.len() {
            Some(&self.keys[index])
        } else {
            None
        }
    }

    /// The RID at a position, if the position is filled.
    pub fn get_rid_at(&self, index: usize) -> (r: Option<&Rid>)
        ensures
            match r {
                Some(rid) => index < self@.rids.len() && *rid == self@.rids[index as int],
                None => index >= self@.rids.len(),
            },
    {
        if index < self.rids.len() {
            Some(&self.rids[index])
        } else {
            None
        }
    }

    /// Inserts the pair at the key's ordered position: every smaller
    /// key stays in front, every greater-or-equal key moves behind, so
    /// an ascending leaf stays ascending. Fails — leaving the page
    /// unchanged — exactly when the leaf is full: growing the tree is
    /// reported to the caller, not handled here.
    pub fn insert(&mut self, key: u32, rid: Rid) -> (r: Option<usize>)
        requires
            old(self)@.wf(),
        ensures
            final(self)@.wf(),
            r is Some <==> old(self)@.current_size < old(self)@.max_size,
            match r {
                Some(pos) => {
                    &&& pos <= old(self)@.keys.len()
                    &&& (forall|j: int| 0 <= j < pos ==> old(self)@.keys[j] < key)
                    &&& (pos < old(self)@.keys.len() ==> old(self)@.keys[pos as int] >= key)
                    &&& final(self)@ == (BPlusTreeLeafView {
                        current_size: (old(self)@.current_size + 1) as u32,
                        keys: old(self)@.keys.insert(pos as int, key),
                        rids: old(self)@.rids.insert(pos as int, rid),
                        ..old(self)@
                    })
                    &&& (spec_sorted(old(self)@.keys) ==> spec_sorted(final(self)@.keys))
                },
                None => final(self)@ == old(self)@,
            },
    {
        if self.current_size == self.max_size {
            return None;
        }
        let mut pos: usize = 0;
        while pos < self.keys.len() && self.keys[pos] < key
            invariant
                self@.wf(),
                self@ == old(self)@,
                pos <= self@.keys.len(),
                forall|j: int| 0 <= j < pos ==> self@.keys[j] < key,
            decreases self@.keys.len() - pos,
        {
            pos = pos + 1;
        }
        self.keys.insert(pos, key);
        self.rids.insert(pos, rid);
        self.current_size = self.current_size + 1;
        proof {
            if spec_sorted(old(self)@.keys) {
                let ks = final(self)@.keys;
                let pk = old(self)@.keys;
                assert forall|i: int, j: int| 0 <= i < j < ks.len() implies ks[i] <= ks[j] by {
                    if i < pos && j == pos {
                        assert(ks[i] == pk[i]);
                    } else if i == pos && j > pos {
                        assert(ks[j] == pk[j - 1]);
                        assert(j - 1 >= pos && pos < pk.len());
                        assert(pk[pos as int] >= key);
                        assert(pk[pos as int] <= pk[j - 1]);
                    } else if i < pos && j > pos {
                        assert(ks[i] == pk[i] && ks[j] == pk[j - 1]);
                    } else if j < pos {
                        assert(ks[i] == pk[i] && ks[j] == pk[j]);
                    } else if i > pos {
                        assert(ks[i] == pk[i - 1] && ks[j] == pk[j - 1]);
                    }
                }
            }
        }
        Some(pos)
    }

    /// Removes the first entry of the given key and hands it back.
    /// Fails — leaving the page unchanged — when the leaf is at half
    /// its greatest size (shrinking the tree is reported to the caller,
    /// not handled here) or when the key is absent.
    pub fn remove(&mut self, key: u32) -> (r: Option<(u32, Rid)>)
        requires
            old(self)@.wf(),
        ensures
            final(self)@.wf(),
            match r {
                Some(pair) => {
                    &&& old(self)@.current_size != old(self)@.max_size / 2
                    &&& pair.0 == key
                    &&& exists|i: int|
                        {
                            &&& 0 <= i < old(self)@.keys.len()
                            &&& old(self)@.keys[i] == key
                            &&& (forall|j: int| 0 <= j < i ==> old(self)@.keys[j] != key)
                            &&& pair.1 == old(self)@.rids[i]
                            &&& final(self)@ == (BPlusTreeLeafView {
                                current_size: (old(self)@.current_size - 1) as u32,
                                keys: old(self)@.keys.remove(i),
                                rids: old(self)@.rids.remove(i),
                                ..old(self)@
                            })
                        }
                },
                None => final(self)@ == old(self)@ && (old(self)@.current_size == old(self)@.max_size / 2 || forall|i: int|
                    0 <= i < old(self)@.keys.len() ==> old(self)@.keys[i] != key),
            },
    {
        if self.current_size == self.max_size / 2 {
            return None;
        }
        let mut i: usize = 0;
        while i < self.keys.len()
            invariant
                self@.wf(),
                self@ == old(self)@,
                old(self)@.current_size != old(self)@.max_size / 2,
                i <= self@.keys.len(),
                forall|j: int| 0 <= j < i ==> self@.keys[j] != key,
            decreases self@.keys.len() - i,
        {
            if self.keys[i] == key {
                let rid = self.rids.remove(i);
                self.keys.remove(i);
                self.current_size = self.current_size - 1;
                proof {
                    let gi = i as int;
                    assert(final(self)@ == (BPlusTreeLeafView {
                        current_size: (old(self)@.current_size - 1) as u32,
                        keys: old(self)@.keys.remove(gi),
                        rids: old(self)@.rids.remove(gi),
                        ..old(self)@
                    }));
                }
                return Some((key, rid));
            }
            i = i + 1;
        }
        None
    }

    /// The page's own id.
    pub fn get_own_pid(&self) -> (r: u32)
        ensures
            r == self@.own_pid,
    {
        self.own_pid
    }
}

} // verus!
