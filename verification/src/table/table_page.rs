//! The heap page holding a table's tuples.
//!
//! Layout, little-endian: bytes `0..4` the page's own id; `4..6` the
//! free-space pointer; `6..8` the tuple count. From byte `8` a
//! forward-growing array of five-byte slot headers — offset (two
//! bytes), size (two bytes), free flag (one byte) — and from the end of
//! the page a backward-growing region of tuple bytes. The tuples tile
//! the page end exactly: tuple `0` ends at the page end, each further
//! tuple ends where the previous one starts, and the free-space pointer
//! is where the last tuple starts. Slots are stable: a removed tuple is
//! tombstoned, never compacted, and new tuples always append.

use vstd::bytes::*;
use vstd::prelude::*;

use crate::common::codec::{
    get_bytes, get_u16, get_u32, get_u8, put_bytes, put_u16, put_u32, put_u8,
};
use crate::common::rid::Rid;
use crate::disk_management::buffer_pool::{RawPage, PAGE_SIZE};

verus! {

/// The bytes one slot header occupies.
pub const TUPLE_HEADER_SIZE: u16 = 5;

/// One slot header: where the slot's tuple lives, how long it is, and
/// whether the slot has been tombstoned.
#[derive(Clone, Copy, Debug, PartialEq, Eq, Structural)]
pub struct TupleHeader {
    pub tuple_offset: u16,
    pub tuple_size: u16,
    pub free: bool,
}

impl TupleHeader {
    /// A live slot header for a tuple at the given place.
    pub fn new_occupied(tuple_offset: u16, tuple_size: u16) -> (r: TupleHeader)
        ensures
            r.tuple_offset == tuple_offset,
            r.tuple_size == tuple_size,
            !r.free,
    {
        TupleHeader { tuple_offset, tuple_size, free: false }
    }
}

/// One tuple: its bytes and its own row identifier.
#[derive(Debug, PartialEq)]
pub struct Tuple {
    pub data: Vec<u8>,
    pub own_rid: Rid,
}

/// The abstract contents of a table page. A tombstoned slot keeps its
/// header but its tuple bytes are gone.
pub ghost struct TablePageView {
    pub own_pid: u32,
    pub free_space_pointer: u16,
    pub tuple_count: u16,
    pub tuple_headers: Seq<TupleHeader>,
    pub tuples: Seq<Seq<u8>>,
}

/// Where the region of slot `i`'s tuple must end: at the page end for
/// slot `0`, at the previous tuple's start after that.
pub open spec fn spec_region_end(h: Seq<TupleHeader>, i: int) -> int {
    if i == 0 {
        PAGE_SIZE as int
    } else {
        h[i - 1].tuple_offset as int
    }
}

/// Whether the slot headers tile the end of the page exactly.
pub open spec fn spec_packed(h: Seq<TupleHeader>) -> bool {
    forall|i: int|
        0 <= i < h.len() ==> (#[trigger] h[i].tuple_offset) + h[i].tuple_size == spec_region_end(
            h,
            i,
        )
}

impl TablePageView {
    /// The slot arrays agree with the count.
    pub open spec fn slots_wf(self) -> bool {
        &&& self.tuple_count == self.tuple_headers.len()
        &&& self.tuples.len() == self.tuple_headers.len()
    }

    /// A fully well-formed page: slots agree with the count, the tuples
    /// tile the page end, the header region stays below the free-space
    /// pointer, and each slot's bytes match its header — empty once
    /// tombstoned.
    pub open spec fn wf(self) -> bool {
        &&& self.slots_wf()
        &&& spec_packed(self.tuple_headers)
        &&& 8 + 5 * self.tuple_headers.len() <= self.free_space_pointer <= PAGE_SIZE
        &&& self.free_space_pointer == if self.tuple_headers.len() == 0 {
            PAGE_SIZE as int
        } else {
            self.tuple_headers[self.tuple_headers.len() - 1].tuple_offset as int
        }
        &&& forall|i: int|
            0 <= i < self.tuples.len() ==> (#[trigger] self.tuples[i]).len() == if self.tuple_headers[i].free {
                0
            } else {
                self.tuple_headers[i].tuple_size as int
            }
    }
}

/// Every slot's offset lies at or above the last slot's offset.
proof fn lemma_offsets_nonincreasing(h: Seq<TupleHeader>, i: int, j: int)
    requires
        spec_packed(h),
        0 <= i <= j < h.len(),
    ensures
        h[j].tuple_offset <= h[i].tuple_offset,
    decreases j - i,
{
    if i < j {
        assert(h[j].tuple_offset + h[j].tuple_size == h[j - 1].tuple_offset as int);
        lemma_offsets_nonincreasing(h, i, j - 1);
    }
}

/// Every slot's region ends at or below the page end.
proof fn lemma_region_in_page(h: Seq<TupleHeader>, i: int)
    requires
        spec_packed(h),
        0 <= i < h.len(),
    ensures
        h[i].tuple_offset + h[i].tuple_size <= PAGE_SIZE,
    decreases i,
{
    if i > 0 {
        lemma_region_in_page(h, i - 1);
        assert(h[i].tuple_offset + h[i].tuple_size == h[i - 1].tuple_offset as int);
    }
}

/// Regions of distinct slots never overlap: a later slot's region ends
/// at or below an earlier slot's start.
proof fn lemma_regions_disjoint(h: Seq<TupleHeader>, i: int, j: int)
    requires
        spec_packed(h),
        0 <= i < j < h.len(),
    ensures
        h[j].tuple_offset + h[j].tuple_size <= h[i].tuple_offset,
{
    assert(h[j].tuple_offset + h[j].tuple_size == h[j - 1].tuple_offset as int);
    lemma_offsets_nonincreasing(h, i, j - 1);
}

/// Slot headers decode unchanged while every byte of the header region
/// is unchanged.
proof fn lemma_slot_header_preserved(prev: Seq<u8>, cur: Seq<u8>, count: int, j: int)
    requires
        prev.len() == cur.len(),
        0 <= j < count,
        8 + 5 * count <= prev.len(),
        forall|p: int| 0 <= p < 8 + 5 * count ==> cur[p] == prev[p],
    ensures
        spec_decode_tuple_header(cur, j) == spec_decode_tuple_header(prev, j),
{
    assert(cur.subrange(8 + 5 * j, 8 + 5 * j + 2) =~= prev.subrange(8 + 5 * j, 8 + 5 * j + 2));
    assert(cur.subrange(8 + 5 * j + 2, 8 + 5 * j + 4) =~= prev.subrange(
        8 + 5 * j + 2,
        8 + 5 * j + 4,
    ));
}

/// The header view read back at slot `i` of one page of bytes.
pub open spec fn spec_decode_tuple_header(s: Seq<u8>, i: int) -> TupleHeader {
    TupleHeader {
        tuple_offset: spec_u16_from_le_bytes(s.subrange(8 + 5 * i, 8 + 5 * i + 2)),
        tuple_size: spec_u16_from_le_bytes(s.subrange(8 + 5 * i + 2, 8 + 5 * i + 4)),
        free: s[8 + 5 * i + 4] != 0,
    }
}

/// The table page view read back from one page of bytes, or `None`
/// when the headers are inconsistent.
pub open spec fn spec_decode_table_page(s: Seq<u8>) -> Option<TablePageView> {
    let count = spec_u16_from_le_bytes(s.subrange(6, 8)) as int;
    let fsp = spec_u16_from_le_bytes(s.subrange(4, 6));
    let headers = Seq::new(count as nat, |i: int| spec_decode_tuple_header(s, i));
    let v = TablePageView {
        own_pid: spec_u32_from_le_bytes(s.subrange(0, 4)),
        free_space_pointer: fsp,
        tuple_count: spec_u16_from_le_bytes(s.subrange(6, 8)),
        tuple_headers: headers,
        tuples: Seq::new(
            count as nat,
            |i: int|
                if headers[i].free {
                    Seq::<u8>::empty()
                } else {
                    s.subrange(
                        headers[i].tuple_offset as int,
                        headers[i].tuple_offset + headers[i].tuple_size,
                    )
                },
        ),
    };
    if v.wf() {
        Some(v)
    } else {
        None
    }
}

/// One heap page: tuples indexed by stable slot ids.
pub struct TablePage {
    pub own_pid: u32,
    pub free_space_pointer: u16,
    pub tuple_count: u16,
    pub tuple_headers: Vec<TupleHeader>,
    pub tuples: Vec<Tuple>,
}

impl View for TablePage {
    type V = TablePageView;

    open spec fn view(&self) -> TablePageView {
        TablePageView {
            own_pid: self.own_pid,
            free_space_pointer: self.free_space_pointer,
            tuple_count: self.tuple_count,
            tuple_headers: self.tuple_headers@,
            tuples: Seq::new(self.tuples@.len(), |i: int| self.tuples@[i].data@),
        }
    }
}

impl TablePage {
    /// Each tuple also carries its own row identifier.
    pub open spec fn rids_wf(&self) -> bool {
        forall|i: int|
            0 <= i < self.tuples@.len() ==> (#[trigger] self.tuples@[i]).own_rid == (Rid {
                page_id: self.own_pid,
                slot_id: i as u32,
            })
    }

    /// Reads a table page back from its raw bytes; fails exactly when
    /// the headers are inconsistent.
    pub fn from_raw_page(raw_page: &RawPage) -> (r: Result<TablePage, &'static str>)
        requires
            raw_page.wf(),
        ensures
            match r {
                Ok(t) => spec_decode_table_page(raw_page@) == Some(t@) && t@.wf() && t.rids_wf(),
                Err(e) => spec_decode_table_page(raw_page@) is None,
            },
    {
        let own_pid = get_u32(&raw_page.data, 0);
        let free_space_pointer = get_u16(&raw_page.data, 4);
        let tuple_count = get_u16(&raw_page.data, 6);
        let count = tuple_count as usize;
        if 8 + 5 * count > free_space_pointer as usize || (free_space_pointer as usize)
            > PAGE_SIZE {
            proof {
                let dec = spec_decode_table_page(raw_page@);
                if dec is Some {
                    let v = dec.unwrap();
                    assert(v.tuple_headers.len() == count);
                    assert(v.free_space_pointer == free_space_pointer);
                    assert(false);
                }
            }
            return Err("Malformed raw page");
        }
        let mut tuple_headers: Vec<TupleHeader> = Vec::new();
        let mut tuples: Vec<Tuple> = Vec::new();
        let mut i: usize = 0;
        while i < count
            invariant
                raw_page.wf(),
                count == spec_u16_from_le_bytes(raw_page@.subrange(6, 8)) as int,
                free_space_pointer == spec_u16_from_le_bytes(raw_page@.subrange(4, 6)),
                8 + 5 * count <= free_space_pointer as int,
                free_space_pointer <= PAGE_SIZE,
                i <= count,
                tuple_headers@.len() == i,
                tuples@.len() == i,
                forall|j: int|
                    0 <= j < i ==> tuple_headers@[j] == spec_decode_tuple_header(raw_page@, j),
                forall|j: int|
                    0 <= j < i ==> (#[trigger] tuple_headers@[j]).tuple_offset
                        + tuple_headers@[j].tuple_size == spec_region_end(tuple_headers@, j),
                forall|j: int|
                    0 <= j < i ==> (#[trigger] tuples@[j]).data@ == (if tuple_headers@[j].free {
                        Seq::<u8>::empty()
                    } else {
                        raw_page@.subrange(
                            tuple_headers@[j].tuple_offset as int,
                            tuple_headers@[j].tuple_offset + tuple_headers@[j].tuple_size,
                        )
                    }),
                forall|j: int|
                    0 <= j < i ==> (#[trigger] tuple_headers@[j]).tuple_offset + tuple_headers@[
                        j
                    ].tuple_size <= PAGE_SIZE,
                forall|j: int|
                    0 <= j < i ==> (#[trigger] tuples@[j]).own_rid == (Rid {
                        page_id: own_pid,
                        slot_id: j as u32,
                    }),
            decreases count - i,
        {
            let ghost prev_headers = tuple_headers@;
            proof {
                assert(8 + 5 * i + 5 <= 8 + 5 * count);
            }
            let tuple_offset = get_u16(&raw_page.data, 8 + 5 * i);
            let tuple_size = get_u16(&raw_page.data, 8 + 5 * i + 2);
            let free = get_u8(&raw_page.data, 8 + 5 * i + 4) != 0;
            let header = TupleHeader { tuple_offset, tuple_size, free };
            proof {
                assert(header == spec_decode_tuple_header(raw_page@, i as int));
            }
            let region_end: usize = if i == 0 {
                PAGE_SIZE
            } else {
                tuple_headers[i - 1].tuple_offset as usize
            };
            proof {
                assert(region_end <= PAGE_SIZE);
            }
            if tuple_offset as usize + tuple_size as usize != region_end {
                proof {
                    let dec = spec_decode_table_page(raw_page@);
                    if dec is Some {
                        let v = dec.unwrap();
                        assert(v.tuple_headers.len() == count);
                        assert(v.tuple_headers[i as int] == header);
                        if i > 0 {
                            assert(v.tuple_headers[i - 1] == tuple_headers@[i - 1]);
                        }
                        assert(v.tuple_headers[i as int].tuple_offset + v.tuple_headers[
                        i as int].tuple_size != spec_region_end(v.tuple_headers, i as int));
                        assert(false);
                    }
                }
                return Err("Malformed raw page");
            }
            let data: Vec<u8> = if free {
                Vec::new()
            } else {
                get_bytes(&raw_page.data, tuple_offset as usize, tuple_size as usize)
            };
            tuple_headers.push(header);
            tuples.push(Tuple { data, own_rid: Rid::new(own_pid, i as u32) });
            proof {
                assert(tuple_headers@ == prev_headers.push(header));
                assert(tuple_headers@[i as int] == header);
                assert(tuples@[i as int].data@ == (if header.free {
                    Seq::<u8>::empty()
                } else {
                    raw_page@.subrange(
                        header.tuple_offset as int,
                        header.tuple_offset + header.tuple_size,
                    )
                }));
                assert forall|j: int|
                    0 <= j < i + 1 implies (#[trigger] tuple_headers@[j]).tuple_offset
                    + tuple_headers@[j].tuple_size == spec_region_end(tuple_headers@, j) by {
                    if j < i {
                        assert(tuple_headers@[j] == prev_headers[j]);
                        assert(spec_region_end(tuple_headers@, j) == spec_region_end(
                            prev_headers,
                            j,
                        ));
                    }
                }
            }
            i = i + 1;
        }
        let mut last_offset: u16 = PAGE_SIZE as u16;
        if count > 0 {
            last_offset = tuple_headers[count - 1].tuple_offset;
        }
        if free_space_pointer != last_offset {
            proof {
                let dec = spec_decode_table_page(raw_page@);
                if dec is Some {
                    let v = dec.unwrap();
                    assert(v.tuple_headers.len() == count);
                    assert(v.tuple_headers =~= tuple_headers@);
                    assert(v.free_space_pointer == free_space_pointer);
                    assert(false);
                }
            }
            return Err("Malformed raw page");
        }
        let r = TablePage { own_pid, free_space_pointer, tuple_count, tuple_headers, tuples };
        proof {
            let headers = Seq::new(count as nat, |j: int| spec_decode_tuple_header(raw_page@, j));
            assert(r@.tuple_headers =~= headers);
            assert(r@.tuple_headers == headers);
            assert(spec_packed(headers)) by {
                assert forall|j: int|
                    0 <= j < headers.len() implies (#[trigger] headers[j].tuple_offset)
                    + headers[j].tuple_size == spec_region_end(headers, j) by {
                    assert(headers[j] == tuple_headers@[j]);
                    assert(spec_region_end(headers, j) == spec_region_end(tuple_headers@, j));
                }
            }
            assert(r@.tuples =~= Seq::new(
                count as nat,
                |j: int|
                    if headers[j].free {
                        Seq::<u8>::empty()
                    } else {
                        raw_page@.subrange(
                            headers[j].tuple_offset as int,
                            headers[j].tuple_offset + headers[j].tuple_size,
                        )
                    },
            ));
            assert forall|j: int| 0 <= j < r@.tuples.len() implies (#[trigger] r@.tuples[j]).len()
                == (if r@.tuple_headers[j].free {
                0int
            } else {
                r@.tuple_headers[j].tuple_size as int
            }) by {
                assert(tuples@[j].data@ == r@.tuples[j]);
            }
            assert(r@.wf());
            assert(spec_decode_table_page(raw_page@) == Some(r@));
        }
        Ok(r)
    }

    /// Encodes the page into raw bytes. The result decodes back to the
    /// same view: encoding then decoding is the identity.
    #[verifier::rlimit(60)]
    pub fn to_raw_page(&self) -> (r: RawPage)
        requires
            self@.wf(),
        ensures
            r.wf(),
            spec_decode_table_page(r@) == Some(self@),
    {
        let mut page = crate::common::codec::zero_bytes(PAGE_SIZE);
        put_u32(&mut page, 0, self.own_pid);
        put_u16(&mut page, 4, self.free_space_pointer);
        put_u16(&mut page, 6, self.tuple_count);
        let count = self.tuple_headers.len();
        let mut i: usize = 0;
        while i < count
            invariant
                self@.wf(),
                count == self@.tuple_headers.len(),
                i <= count,
                page@.len() == PAGE_SIZE,
                page@.subrange(0, 4) == spec_u32_to_le_bytes(self@.own_pid),
                page@.subrange(4, 6) == spec_u16_to_le_bytes(self@.free_space_pointer),
                page@.subrange(6, 8) == spec_u16_to_le_bytes(self@.tuple_count),
                forall|j: int|
                    0 <= j < i ==> spec_decode_tuple_header(page@, j) == self@.tuple_headers[j],
                forall|p: int| 8 + 5 * i <= p < PAGE_SIZE ==> page@[p] == 0,
            decreases count - i,
        {
            let ghost prev = page@;
            let h = self.tuple_headers[i];
            proof {
                assert(8 + 5 * (i + 1) <= self@.free_space_pointer);
            }
            put_u16(&mut page, 8 + 5 * i, h.tuple_offset);
            put_u16(&mut page, 8 + 5 * i + 2, h.tuple_size);
            let flag: u8 = if h.free {
                1
            } else {
                0
            };
            put_u8(&mut page, 8 + 5 * i + 4, flag);
            proof {
                lemma_auto_spec_u16_to_from_le_bytes();
                assert(page@.subrange(0, 4) =~= prev.subrange(0, 4));
                assert(page@.subrange(4, 6) =~= prev.subrange(4, 6));
                assert(page@.subrange(6, 8) =~= prev.subrange(6, 8));
                assert(page@.subrange(8 + 5 * i, 8 + 5 * i + 2) =~= spec_u16_to_le_bytes(
                    h.tuple_offset,
                ));
                assert(page@.subrange(8 + 5 * i + 2, 8 + 5 * i + 4) =~= spec_u16_to_le_bytes(
                    h.tuple_size,
                ));
                assert(spec_decode_tuple_header(page@, i as int) == self@.tuple_headers[i as int]);
                assert forall|j: int|
                    0 <= j < i implies spec_decode_tuple_header(page@, j)
                    == self@.tuple_headers[j] by {
                    assert(page@.subrange(8 + 5 * j, 8 + 5 * j + 2) =~= prev.subrange(
                        8 + 5 * j,
                        8 + 5 * j + 2,
                    ));
                    assert(page@.subrange(8 + 5 * j + 2, 8 + 5 * j + 4) =~= prev.subrange(
                        8 + 5 * j + 2,
                        8 + 5 * j + 4,
                    ));
                    assert(spec_decode_tuple_header(prev, j) == self@.tuple_headers[j]);
                }
            }
            i = i + 1;
        }
        let mut t: usize = 0;
        while t < count
            invariant
                self@.wf(),
                count == self@.tuple_headers.len(),
                count == self.tuples@.len(),
                t <= count,
                page@.len() == PAGE_SIZE,
                page@.subrange(0, 4) == spec_u32_to_le_bytes(self@.own_pid),
                page@.subrange(4, 6) == spec_u16_to_le_bytes(self@.free_space_pointer),
                page@.subrange(6, 8) == spec_u16_to_le_bytes(self@.tuple_count),
                forall|j: int|
                    0 <= j < count ==> spec_decode_tuple_header(page@, j)
                        == self@.tuple_headers[j],
                forall|j: int|
                    0 <= j < t && !self@.tuple_headers[j].free ==> page@.subrange(
                        self@.tuple_headers[j].tuple_offset as int,
                        self@.tuple_headers[j].tuple_offset + self@.tuple_headers[j].tuple_size,
                    ) == self@.tuples[j],
            decreases count - t,
        {
            let ghost prev = page@;
            let h = self.tuple_headers[t];
            if !h.free {
                proof {
                    lemma_region_in_page(self@.tuple_headers, t as int);
                    assert(self@.tuples[t as int] == self.tuples@[t as int].data@);
                    assert(self@.tuples[t as int].len() == h.tuple_size);
                    assert(self.tuples@[t as int].data@.len() == h.tuple_size);
                }
                put_bytes(&mut page, h.tuple_offset as usize, &self.tuples[t].data);
            }
            proof {
                let ghost ht = self@.tuple_headers;
                if !h.free {
                    lemma_offsets_nonincreasing(ht, t as int, count - 1);
                    assert(ht[count - 1].tuple_offset == self@.free_space_pointer);
                    assert(self@.free_space_pointer <= h.tuple_offset);
                    assert(8 + 5 * count <= self@.free_space_pointer);
                    assert forall|p: int|
                        0 <= p < 8 + 5 * count implies page@[p] == prev[p] by {
                        assert(p < h.tuple_offset);
                    }
                } else {
                    assert(page@ =~= prev);
                }
                assert(page@.subrange(0, 4) =~= prev.subrange(0, 4));
                assert(page@.subrange(4, 6) =~= prev.subrange(4, 6));
                assert(page@.subrange(6, 8) =~= prev.subrange(6, 8));
                assert forall|j: int|
                    0 <= j < count implies spec_decode_tuple_header(page@, j)
                    == self@.tuple_headers[j] by {
                    lemma_slot_header_preserved(prev, page@, count as int, j);
                }
                assert forall|j: int|
                    0 <= j < t + 1 && !self@.tuple_headers[j].free implies page@.subrange(
                    self@.tuple_headers[j].tuple_offset as int,
                    self@.tuple_headers[j].tuple_offset + self@.tuple_headers[j].tuple_size,
                ) == self@.tuples[j] by {
                    if j < t {
                        lemma_region_in_page(ht, j);
                        if !ht[t as int].free {
                            lemma_regions_disjoint(ht, j, t as int);
                        }
                        assert(page@.subrange(
                            ht[j].tuple_offset as int,
                            ht[j].tuple_offset + ht[j].tuple_size,
                        ) =~= prev.subrange(
                            ht[j].tuple_offset as int,
                            ht[j].tuple_offset + ht[j].tuple_size,
                        ));
                    } else {
                        assert(!ht[t as int].free);
                    }
                }
            }
            t = t + 1;
        }
        proof {
            lemma_auto_spec_u16_to_from_le_bytes();
            lemma_auto_spec_u32_to_from_le_bytes();
            let dec = spec_decode_table_page(page@);
            let count_n = self@.tuple_headers.len();
            let headers = Seq::new(count_n, |j: int| spec_decode_tuple_header(page@, j));
            assert(headers =~= self@.tuple_headers);
            let tuples = Seq::new(
                count_n,
                |j: int|
                    if headers[j].free {
                        Seq::<u8>::empty()
                    } else {
                        page@.subrange(
                            headers[j].tuple_offset as int,
                            headers[j].tuple_offset + headers[j].tuple_size,
                        )
                    },
            );
            assert forall|j: int| 0 <= j < count_n implies tuples[j] == self@.tuples[j] by {
                if self@.tuple_headers[j].free {
                    assert(self@.tuples[j].len() == 0);
                    assert(self@.tuples[j] =~= Seq::<u8>::empty());
                }
            }
            assert(tuples =~= self@.tuples);
            assert(dec == Some(self@));
        }
        RawPage::new(page)
    }

    /// Appends a tuple: places its bytes just below the free-space
    /// pointer and appends a live slot header. Fails — leaving the page
    /// unchanged — exactly when the header region would touch the tuple
    /// region.
    pub fn insert(&mut self, tuple_data: Vec<u8>) -> (r: Option<Rid>)
        requires
            old(self)@.slots_wf(),
        ensures
            final(self)@.slots_wf(),
            r is Some <==> tuple_data@.len() <= old(self)@.free_space_pointer && 8 + 5 * (old(self)@.tuple_headers.len() + 1) <= old(self)@.free_space_pointer - tuple_data@.len(),
            match r {
                Some(rid) => {
                    &&& rid == (Rid {
                        page_id: old(self)@.own_pid,
                        slot_id: old(self)@.tuple_headers.len() as u32,
                    })
                    &&& (old(self).rids_wf() ==> final(self).rids_wf())
                    &&& final(self)@.own_pid == old(self)@.own_pid
                    &&& final(self)@.free_space_pointer == old(self)@.free_space_pointer
                        - tuple_data@.len()
                    &&& final(self)@.tuple_count == old(self)@.tuple_count + 1
                    &&& final(self)@.tuple_headers == old(self)@.tuple_headers.push(
                        (TupleHeader {
                            tuple_offset: (old(self)@.free_space_pointer
                                - tuple_data@.len()) as u16,
                            tuple_size: tuple_data@.len() as u16,
                            free: false,
                        }),
                    )
                    &&& final(self)@.tuples == old(self)@.tuples.push(tuple_data@)
                    &&& (old(self)@.wf() ==> final(self)@.wf())
                },
                None => final(self)@ == old(self)@,
            },
    {
        let len = tuple_data.len();
        if len > self.free_space_pointer as usize {
            return None;
        }
        if 8 + 5 * (self.tuple_headers.len() + 1) > self.free_space_pointer as usize - len {
            return None;
        }
        let new_fsp = self.free_space_pointer - (len as u16);
        let header = TupleHeader { tuple_offset: new_fsp, tuple_size: len as u16, free: false };
        let rid = Rid::new(self.own_pid, self.tuple_headers.len() as u32);
        self.free_space_pointer = new_fsp;
        self.tuple_headers.push(header);
        self.tuples.push(Tuple { data: tuple_data, own_rid: rid });
        self.tuple_count = self.tuple_count + 1;
        proof {
            assert(final(self)@.tuples =~= old(self)@.tuples.push(tuple_data@));
            if old(self)@.wf() {
                let h = final(self)@.tuple_headers;
                let n = h.len();
                assert forall|i: int|
                    0 <= i < n implies (#[trigger] h[i].tuple_offset) + h[i].tuple_size
                    == spec_region_end(h, i) by {
                    if i < n - 1 {
                        assert(h[i] == old(self)@.tuple_headers[i]);
                        assert(spec_region_end(h, i) == spec_region_end(
                            old(self)@.tuple_headers,
                            i,
                        ));
                    }
                }
            }
        }
        Some(rid)
    }

    /// Tombstones a slot and hands back what it held. Fails — leaving
    /// the page unchanged — exactly when the slot does not exist or is
    /// already tombstoned.
    pub fn remove(&mut self, slot_id: usize) -> (r: Option<Tuple>)
        requires
            old(self)@.slots_wf(),
        ensures
            final(self)@.slots_wf(),
            r is Some <==> slot_id < old(self)@.tuple_headers.len() && !old(self)@.tuple_headers[slot_id as int].free,
            match r {
                Some(tuple) => {
                    &&& tuple.data@ == old(self)@.tuples[slot_id as int]
                    &&& (old(self).rids_wf() ==> tuple.own_rid == (Rid {
                        page_id: old(self)@.own_pid,
                        slot_id: slot_id as u32,
                    }) && final(self).rids_wf())
                    &&& final(self)@ == (TablePageView {
                        tuple_headers: old(self)@.tuple_headers.update(
                            slot_id as int,
                            (TupleHeader {
                                free: true,
                                ..old(self)@.tuple_headers[slot_id as int]
                            }),
                        ),
                        tuples: old(self)@.tuples.update(slot_id as int, Seq::<u8>::empty()),
                        ..old(self)@
                    })
                },
                None => final(self)@ == old(self)@,
            },
    {
        if slot_id >= self.tuple_headers.len() {
            return None;
        }
        let header = self.tuple_headers[slot_id];
        if header.free {
            return None;
        }
        self.tuple_headers[slot_id] = TupleHeader {
            tuple_offset: header.tuple_offset,
            tuple_size: header.tuple_size,
            free: true,
        };
        let empty = Tuple { data: Vec::new(), own_rid: Rid::new(self.own_pid, slot_id as u32) };
        self.tuples.push(empty);
        let previous = self.tuples.swap_remove(slot_id);
        proof {
            assert(final(self)@.tuples =~= old(self)@.tuples.update(
                slot_id as int,
                Seq::<u8>::empty(),
            ));
        }
        Some(previous)
    }
}

} // verus!
