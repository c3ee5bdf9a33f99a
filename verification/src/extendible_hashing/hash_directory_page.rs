//! The hash index's directory page.
//!
//! Layout, little-endian throughout:
//! bytes `0..4` the directory's own page id; `4..8` the log id; byte
//! `8` the global depth; `9..521` one local depth per slot; `521..2569`
//! one bucket page id (four bytes) per slot; the rest zero. The 512
//! slots bound the global depth by nine.

use vstd::bytes::*;
use vstd::prelude::*;

use crate::common::codec::{
    get_bytes, get_u32, get_u8, put_bytes, put_u32, put_u32_array, put_u8, u32_array_byte,
    zero_bytes,
};
use crate::disk_management::buffer_pool::{RawPage, PAGE_SIZE};

verus! {

/// The number of directory slots a page can hold: `2^9`.
pub const DIRECTORY_SLOTS: usize = 512;

/// The abstract contents of a directory page.
pub ghost struct HashDirectoryView {
    pub page_id: u32,
    pub log_id: u32,
    pub global_depth: u8,
    pub local_depths: Seq<u8>,
    pub bucket_page_ids: Seq<u32>,
}

/// The byte at offset `i` of the encoded directory page.
pub open spec fn spec_directory_byte(v: HashDirectoryView, i: int) -> u8 {
    if i < 4 {
        spec_u32_to_le_bytes(v.page_id)[i]
    } else if i < 8 {
        spec_u32_to_le_bytes(v.log_id)[i - 4]
    } else if i == 8 {
        v.global_depth
    } else if i < 521 {
        v.local_depths[i - 9]
    } else if i < 2569 {
        u32_array_byte(v.bucket_page_ids, i - 521)
    } else {
        0
    }
}

/// The encoded form of a directory page: always exactly one page.
pub open spec fn spec_encode_directory(v: HashDirectoryView) -> Seq<u8> {
    Seq::new(PAGE_SIZE as nat, |i: int| spec_directory_byte(v, i))
}

/// The directory view read back from one page of bytes.
pub open spec fn spec_decode_directory(s: Seq<u8>) -> HashDirectoryView {
    HashDirectoryView {
        page_id: spec_u32_from_le_bytes(s.subrange(0, 4)),
        log_id: spec_u32_from_le_bytes(s.subrange(4, 8)),
        global_depth: s[8],
        local_depths: s.subrange(9, 521),
        bucket_page_ids: Seq::new(
            DIRECTORY_SLOTS as nat,
            |i: int| spec_u32_from_le_bytes(s.subrange(521 + 4 * i, 521 + 4 * i + 4)),
        ),
    }
}

/// Law: decoding an encoded directory page gives back the same view,
/// for every view of the right shape.
pub proof fn lemma_directory_round_trip(v: HashDirectoryView)
    requires
        v.local_depths.len() == DIRECTORY_SLOTS,
        v.bucket_page_ids.len() == DIRECTORY_SLOTS,
    ensures
        spec_decode_directory(spec_encode_directory(v)) == v,
{
    lemma_auto_spec_u32_to_from_le_bytes();
    let enc = spec_encode_directory(v);
    let dec = spec_decode_directory(enc);
    assert(enc.subrange(0, 4) =~= spec_u32_to_le_bytes(v.page_id));
    assert(enc.subrange(4, 8) =~= spec_u32_to_le_bytes(v.log_id));
    assert(dec.local_depths =~= v.local_depths);
    assert forall|k: int| 0 <= k < 4 * v.bucket_page_ids.len() implies enc[521 + k]
        == u32_array_byte(v.bucket_page_ids, k) by {
        assert(enc[521 + k] == spec_directory_byte(v, 521 + k));
    }
    assert forall|i: int| 0 <= i < DIRECTORY_SLOTS implies dec.bucket_page_ids[i]
        == v.bucket_page_ids[i] by {
        crate::common::codec::lemma_u32_array_field(enc, v.bucket_page_ids, 521, i);
    }
    assert(dec.bucket_page_ids =~= v.bucket_page_ids);
}

/// The directory of one extendible hash index: the global depth, and
/// one local depth and bucket page id per slot.
pub struct HashDirectoryPage {
    page_id: u32,
    log_id: u32,
    global_depth: u8,
    local_depths: Vec<u8>,
    pub bucket_page_ids: Vec<u32>,
}

impl View for HashDirectoryPage {
    type V = HashDirectoryView;

    closed spec fn view(&self) -> HashDirectoryView {
        HashDirectoryView {
            page_id: self.page_id,
            log_id: self.log_id,
            global_depth: self.global_depth,
            local_depths: self.local_depths@,
            bucket_page_ids: self.bucket_page_ids@,
        }
    }
}

impl HashDirectoryPage {
    /// Both slot arrays hold exactly one entry per slot.
    pub open spec fn wf(&self) -> bool {
        &&& self@.local_depths.len() == DIRECTORY_SLOTS
        &&& self@.bucket_page_ids.len() == DIRECTORY_SLOTS
    }

    /// Reads a directory page back from its raw bytes.
    pub fn from_raw_page(raw_page: &RawPage) -> (r: Result<HashDirectoryPage, &'static str>)
        requires
            raw_page.wf(),
        ensures
            match r {
                Ok(d) => d.wf() && d@ == spec_decode_directory(raw_page@),
                Err(e) => false,
            },
    {
        let page_id = get_u32(&raw_page.data, 0);
        let log_id = get_u32(&raw_page.data, 4);
        let global_depth = get_u8(&raw_page.data, 8);
        let local_depths = get_bytes(&raw_page.data, 9, DIRECTORY_SLOTS);
        let mut bucket_page_ids: Vec<u32> = Vec::new();
        let mut i: usize = 0;
        while i < DIRECTORY_SLOTS
            invariant
                i <= DIRECTORY_SLOTS,
                raw_page.wf(),
                bucket_page_ids@.len() == i,
                forall|j: int|
                    0 <= j < i ==> bucket_page_ids@[j] == spec_u32_from_le_bytes(
                        raw_page@.subrange(521 + 4 * j, 521 + 4 * j + 4),
                    ),
            decreases DIRECTORY_SLOTS - i,
        {
            bucket_page_ids.push(get_u32(&raw_page.data, 521 + 4 * i));
            i = i + 1;
        }
        let r = HashDirectoryPage { page_id, log_id, global_depth, local_depths, bucket_page_ids };
        proof {
            assert(r@.bucket_page_ids =~= spec_decode_directory(raw_page@).bucket_page_ids);
            assert(r@ == spec_decode_directory(raw_page@));
        }
        Ok(r)
    }

    /// A fresh directory: global depth one, the first two slots pointing
    /// at the two initial buckets with local depth one, everything else
    /// zero.
    pub fn new_empty(own_pid: u32, bucket1_pid: u32, bucket2_pid: u32, log_id: u32) -> (r:
        HashDirectoryPage)
        ensures
            r.wf(),
            r@.page_id == own_pid,
            r@.log_id == log_id,
            r@.global_depth == 1,
            r@.local_depths == Seq::new(
                DIRECTORY_SLOTS as nat,
                |i: int| if i < 2 { 1u8 } else { 0u8 },
            ),
            r@.bucket_page_ids == Seq::new(
                DIRECTORY_SLOTS as nat,
                |i: int|
                    if i == 0 {
                        bucket1_pid
                    } else if i == 1 {
                        bucket2_pid
                    } else {
                        0u32
                    },
            ),
    {
        let mut local_depths = zero_bytes(DIRECTORY_SLOTS);
        local_depths[0] = 1;
        local_depths[1] = 1;
        let mut bucket_page_ids: Vec<u32> = Vec::new();
        let mut i: usize = 0;
        while i < DIRECTORY_SLOTS
            invariant
                i <= DIRECTORY_SLOTS,
                bucket_page_ids@.len() == i,
                forall|j: int| 0 <= j < i ==> bucket_page_ids@[j] == 0u32,
            decreases DIRECTORY_SLOTS - i,
        {
            bucket_page_ids.push(0);
            i = i + 1;
        }
        bucket_page_ids[0] = bucket1_pid;
        bucket_page_ids[1] = bucket2_pid;
        let r = HashDirectoryPage {
            page_id: own_pid,
            log_id,
            global_depth: 1,
            local_depths,
            bucket_page_ids,
        };
        proof {
            assert(r@.local_depths =~= Seq::new(
                DIRECTORY_SLOTS as nat,
                |i: int| if i < 2 { 1u8 } else { 0u8 },
            ));
            assert(r@.bucket_page_ids =~= Seq::new(
                DIRECTORY_SLOTS as nat,
                |i: int|
                    if i == 0 {
                        bucket1_pid
                    } else if i == 1 {
                        bucket2_pid
                    } else {
                        0u32
                    },
            ));
        }
        r
    }

    /// Encodes the directory into one raw page.
    pub fn to_raw_page(&self) -> (r: RawPage)
        requires
            self.wf(),
        ensures
            r.wf(),
            r@ == spec_encode_directory(self@),
    {
        let mut page = zero_bytes(PAGE_SIZE);
        put_u32(&mut page, 0, self.page_id);
        put_u32(&mut page, 4, self.log_id);
        put_u8(&mut page, 8, self.global_depth);
        put_bytes(&mut page, 9, &self.local_depths);
        put_u32_array(&mut page, 521, &self.bucket_page_ids);
        proof {
            assert forall|i: int| 0 <= i < PAGE_SIZE implies page@[i] == spec_directory_byte(
                self@,
                i,
            ) by {
                if 9 <= i < 521 {
                    assert(page@[i] == page@.subrange(9, 521)[i - 9]);
                }
            }
            assert(page@ =~= spec_encode_directory(self@));
        }
        RawPage::new(page)
    }

    /// The local depth of a slot; `None` past the slot array.
    pub fn get_local_depth(&self, index: usize) -> (r: Option<&u8>)
        requires
            self.wf(),
        ensures
            match r {
                Some(d) => index < DIRECTORY_SLOTS && *d == self@.local_depths[index as int],
                None => index >= DIRECTORY_SLOTS,
            },
    {
        if index < self.local_depths.len() {
            Some(&self.local_depths[index])
        } else {
            None
        }
    }

    /// Sets the local depth of a slot; fails past the slot array.
    pub fn set_local_depth(&mut self, index: usize, local_depth: u8) -> (r: Result<
        (),
        &'static str,
    >)
        requires
            old(self).wf(),
        ensures
            final(self).wf(),
            r is Ok <==> index < DIRECTORY_SLOTS,
            match r {
                Ok(u) => final(self)@ == (HashDirectoryView {
                    local_depths: old(self)@.local_depths.update(index as int, local_depth),
                    ..old(self)@
                }),
                Err(e) => final(self)@ == old(self)@,
            },
    {
        if index < self.local_depths.len() {
            self.local_depths[index] = local_depth;
            Ok(())
        } else {
            Err("Index out of bounds")
        }
    }

    /// Raises the local depth of a slot by one and returns the new
    /// depth; fails past the slot array or when the depth is at its
    /// ceiling.
    pub fn increment_local_depth(&mut self, index: usize) -> (r: Result<u8, &'static str>)
        requires
            old(self).wf(),
        ensures
            final(self).wf(),
            r is Ok <==> index < DIRECTORY_SLOTS && old(self)@.local_depths[index as int]
                < u8::MAX,
            match r {
                Ok(d) => d == old(self)@.local_depths[index as int] + 1 && final(self)@
                    == (HashDirectoryView {
                    local_depths: old(self)@.local_depths.update(index as int, d),
                    ..old(self)@
                }),
                Err(e) => final(self)@ == old(self)@,
            },
    {
        if index < self.local_depths.len() {
            let depth = self.local_depths[index];
            if depth < u8::MAX {
                self.local_depths[index] = depth + 1;
                Ok(depth + 1)
            } else {
                Err("Local depth at ceiling")
            }
        } else {
            Err("Index out of bounds")
        }
    }

    /// The bucket page id of a slot; `None` past the slot array.
    pub fn get_bucket_page_id(&self, index: usize) -> (r: Option<&u32>)
        requires
            self.wf(),
        ensures
            match r {
                Some(p) => index < DIRECTORY_SLOTS && *p == self@.bucket_page_ids[index as int],
                None => index >= DIRECTORY_SLOTS,
            },
    {
        if index < self.bucket_page_ids.len() {
            Some(&self.bucket_page_ids[index])
        } else {
            None
        }
    }

    /// Redirects a slot to a bucket page; fails past the slot array.
    pub fn set_bucket_page_id(&mut self, index: usize, page_id: u32) -> (r: Result<
        (),
        &'static str,
    >)
        requires
            old(self).wf(),
        ensures
            final(self).wf(),
            r is Ok <==> index < DIRECTORY_SLOTS,
            match r {
                Ok(u) => final(self)@ == (HashDirectoryView {
                    bucket_page_ids: old(self)@.bucket_page_ids.update(index as int, page_id),
                    ..old(self)@
                }),
                Err(e) => final(self)@ == old(self)@,
            },
    {
        if index < self.bucket_page_ids.len() {
            self.bucket_page_ids[index] = page_id;
            Ok(())
        } else {
            Err("Index out of bounds")
        }
    }

    /// The directory's global depth.
    pub fn get_global_depth(&self) -> (r: u8)
        ensures
            r == self@.global_depth,
    {
        self.global_depth
    }

    /// Raises the global depth by one and returns the new depth.
    pub fn increment_global_depth(&mut self) -> (r: u8)
        requires
            old(self)@.global_depth < u8::MAX,
        ensures
            r == old(self)@.global_depth + 1,
            final(self)@ == (HashDirectoryView {
                global_depth: r,
                ..old(self)@
            }),
    {
        self.global_depth = self.global_depth + 1;
        self.global_depth
    }
}

} // verus!
