//! The table directory page: which heap pages a table owns, and how
//! full each one is.
//!
//! Layout, little-endian: bytes `0..4` the directory's own page id;
//! `4..8` the log sequence number; `8..12` and `12..16` the previous
//! and next directory pages. From byte `16`, one five-byte entry per
//! heap page — a one-byte capacity and a four-byte page id — filling
//! the page exactly.

use vstd::bytes::*;
use vstd::prelude::*;

use crate::common::codec::{get_u32, get_u8, put_u32, put_u8, zero_bytes};
use crate::disk_management::buffer_pool::{RawPage, PAGE_SIZE};

verus! {

/// How many entries one directory page holds:
/// `(PAGE_SIZE - 16) / 5`.
pub const TABLE_DIRECTORY_ENTRIES: usize = 816;

/// One directory entry: a heap page and its remaining capacity.
#[derive(Copy, Clone, Debug, PartialEq, Eq, Structural)]
pub struct DirectoryEntry {
    pub capacity: u8,
    pub page_id: u32,
}

/// The abstract contents of a table directory page.
pub ghost struct TableDirectoryView {
    pub own_pid: u32,
    pub lsn: u32,
    pub prev_directory: u32,
    pub next_directory: u32,
    pub entries: Seq<DirectoryEntry>,
}

/// The byte at offset `k` of the packed entry array.
pub open spec fn spec_entry_byte(a: Seq<DirectoryEntry>, k: int) -> u8 {
    if k % 5 == 0 {
        a[k / 5].capacity
    } else {
        spec_u32_to_le_bytes(a[k / 5].page_id)[k % 5 - 1]
    }
}

/// The byte at offset `i` of the encoded directory page.
pub open spec fn spec_table_directory_byte(v: TableDirectoryView, i: int) -> u8 {
    if i < 4 {
        spec_u32_to_le_bytes(v.own_pid)[i]
    } else if i < 8 {
        spec_u32_to_le_bytes(v.lsn)[i - 4]
    } else if i < 12 {
        spec_u32_to_le_bytes(v.prev_directory)[i - 8]
    } else if i < 16 {
        spec_u32_to_le_bytes(v.next_directory)[i - 12]
    } else {
        spec_entry_byte(v.entries, i - 16)
    }
}

/// The encoded form of a table directory page: always exactly one page.
pub open spec fn spec_encode_table_directory(v: TableDirectoryView) -> Seq<u8> {
    Seq::new(PAGE_SIZE as nat, |i: int| spec_table_directory_byte(v, i))
}

/// The directory view read back from one page of bytes.
pub open spec fn spec_decode_table_directory(s: Seq<u8>) -> TableDirectoryView {
    TableDirectoryView {
        own_pid: spec_u32_from_le_bytes(s.subrange(0, 4)),
        lsn: spec_u32_from_le_bytes(s.subrange(4, 8)),
        prev_directory: spec_u32_from_le_bytes(s.subrange(8, 12)),
        next_directory: spec_u32_from_le_bytes(s.subrange(12, 16)),
        entries: Seq::new(
            TABLE_DIRECTORY_ENTRIES as nat,
            |i: int| DirectoryEntry {
                capacity: s[16 + 5 * i],
                page_id: spec_u32_from_le_bytes(
                    s.subrange(16 + 5 * i + 1, 16 + 5 * i + 5),
                ),
            },
        ),
    }
}

/// Reading back entry `i` of a packed entry array recovers the entry.
proof fn lemma_entry_field(s: Seq<u8>, a: Seq<DirectoryEntry>, i: int)
    requires
        0 <= i < a.len(),
        16 + 5 * a.len() <= s.len(),
        forall|k: int| 0 <= k < 5 * a.len() ==> s[16 + k] == spec_entry_byte(a, k),
    ensures
        s[16 + 5 * i] == a[i].capacity,
        spec_u32_from_le_bytes(s.subrange(16 + 5 * i + 1, 16 + 5 * i + 5)) == a[i].page_id,
{
    lemma_auto_spec_u32_to_from_le_bytes();
    assert(0 <= 5 * i < 5 * a.len()) by (nonlinear_arith)
        requires
            0 <= i < a.len(),
    ;
    assert(s[16 + 5 * i] == spec_entry_byte(a, 5 * i));
    assert((5 * i) % 5 == 0 && (5 * i) / 5 == i) by (nonlinear_arith);
    assert forall|j: int| 0 <= j < 4 implies s[16 + 5 * i + 1 + j] == spec_u32_to_le_bytes(
        a[i].page_id,
    )[j] by {
        assert(0 <= 5 * i + 1 + j < 5 * a.len()) by (nonlinear_arith)
            requires
                0 <= i < a.len(),
                0 <= j < 4,
        ;
        assert(s[16 + (5 * i + 1 + j)] == spec_entry_byte(a, 5 * i + 1 + j));
        assert((5 * i + 1 + j) % 5 == 1 + j && (5 * i + 1 + j) / 5 == i) by (nonlinear_arith)
            requires
                0 <= j < 4,
        ;
    }
    assert(s.subrange(16 + 5 * i + 1, 16 + 5 * i + 5) =~= spec_u32_to_le_bytes(a[i].page_id));
}

/// Law: decoding an encoded table directory page gives back the same
/// view, for every view of the right shape.
pub proof fn lemma_table_directory_round_trip(v: TableDirectoryView)
    requires
        v.entries.len() == TABLE_DIRECTORY_ENTRIES,
    ensures
        spec_decode_table_directory(spec_encode_table_directory(v)) == v,
{
    lemma_auto_spec_u32_to_from_le_bytes();
    let enc = spec_encode_table_directory(v);
    let dec = spec_decode_table_directory(enc);
    assert(enc.subrange(0, 4) =~= spec_u32_to_le_bytes(v.own_pid));
    assert(enc.subrange(4, 8) =~= spec_u32_to_le_bytes(v.lsn));
    assert(enc.subrange(8, 12) =~= spec_u32_to_le_bytes(v.prev_directory));
    assert(enc.subrange(12, 16) =~= spec_u32_to_le_bytes(v.next_directory));
    assert forall|k: int| 0 <= k < 5 * v.entries.len() implies enc[16 + k] == spec_entry_byte(
        v.entries,
        k,
    ) by {
        assert(enc[16 + k] == spec_table_directory_byte(v, 16 + k));
    }
    assert forall|i: int| 0 <= i < TABLE_DIRECTORY_ENTRIES implies dec.entries[i]
        == v.entries[i] by {
        lemma_entry_field(enc, v.entries, i);
    }
    assert(dec.entries =~= v.entries);
}

/// One table directory page.
pub struct TableDirectoryPage {
    pub own_pid: u32,
    pub lsn: u32,
    pub prev_directory: u32,
    pub next_directory: u32,
    pub entries: Vec<DirectoryEntry>,
}

impl View for TableDirectoryPage {
    type V = TableDirectoryView;

    open spec fn view(&self) -> TableDirectoryView {
        TableDirectoryView {
            own_pid: self.own_pid,
            lsn: self.lsn,
            prev_directory: self.prev_directory,
            next_directory: self.next_directory,
            entries: self.entries@,
        }
    }
}

impl TableDirectoryPage {
    /// The entry array holds exactly one entry per slot.
    pub open spec fn wf(&self) -> bool {
        self@.entries.len() == TABLE_DIRECTORY_ENTRIES
    }

    /// Reads a table directory page back from its raw bytes.
    pub fn from_raw_page(raw_page: &RawPage) -> (r: Result<TableDirectoryPage, &'static str>)
        requires
            raw_page.wf(),
        ensures
            match r {
                Ok(d) => d.wf() && d@ == spec_decode_table_directory(raw_page@),
                Err(e) => false,
            },
    {
        let own_pid = get_u32(&raw_page.data, 0);
        let lsn = get_u32(&raw_page.data, 4);
        let prev_directory = get_u32(&raw_page.data, 8);
        let next_directory = get_u32(&raw_page.data, 12);
        let mut entries: Vec<DirectoryEntry> = Vec::new();
        let mut i: usize = 0;
        while i < TABLE_DIRECTORY_ENTRIES
            invariant
                raw_page.wf(),
                i <= TABLE_DIRECTORY_ENTRIES,
                entries@.len() == i,
                forall|j: int|
                    0 <= j < i ==> entries@[j] == (DirectoryEntry {
                        capacity: raw_page@[16 + 5 * j],
                        page_id: spec_u32_from_le_bytes(
                            raw_page@.subrange(16 + 5 * j + 1, 16 + 5 * j + 5),
                        ),
                    }),
            decreases TABLE_DIRECTORY_ENTRIES - i,
        {
            let capacity = get_u8(&raw_page.data, 16 + 5 * i);
            let page_id = get_u32(&raw_page.data, 16 + 5 * i + 1);
            entries.push(DirectoryEntry { capacity, page_id });
            i = i + 1;
        }
        let r = TableDirectoryPage { own_pid, lsn, prev_directory, next_directory, entries };
        proof {
            assert(r@.entries =~= spec_decode_table_directory(raw_page@).entries);
            assert(r@ == spec_decode_table_directory(raw_page@));
        }
        Ok(r)
    }

    /// Encodes the directory into one raw page.
    pub fn to_raw_page(&self) -> (r: RawPage)
        requires
            self.wf(),
        ensures
            r.wf(),
            r@ == spec_encode_table_directory(self@),
    {
        let mut page = zero_bytes(PAGE_SIZE);
        put_u32(&mut page, 0, self.own_pid);
        put_u32(&mut page, 4, self.lsn);
        put_u32(&mut page, 8, self.prev_directory);
        put_u32(&mut page, 12, self.next_directory);
        let mut i: usize = 0;
        while i < TABLE_DIRECTORY_ENTRIES
            invariant
                self.wf(),
                i <= TABLE_DIRECTORY_ENTRIES,
                page@.len() == PAGE_SIZE,
                page@.subrange(0, 4) == spec_u32_to_le_bytes(self@.own_pid),
                page@.subrange(4, 8) == spec_u32_to_le_bytes(self@.lsn),
                page@.subrange(8, 12) == spec_u32_to_le_bytes(self@.prev_directory),
                page@.subrange(12, 16) == spec_u32_to_le_bytes(self@.next_directory),
                forall|k: int| 0 <= k < 5 * i ==> page@[16 + k] == spec_entry_byte(self@.entries, k),
                forall|p: int| 16 + 5 * i <= p < PAGE_SIZE ==> page@[p] == 0,
            decreases TABLE_DIRECTORY_ENTRIES - i,
        {
            let ghost prev = page@;
            let entry = self.entries[i];
            put_u8(&mut page, 16 + 5 * i, entry.capacity);
            put_u32(&mut page, 16 + 5 * i + 1, entry.page_id);
            proof {
                assert(page@.subrange(0, 4) =~= prev.subrange(0, 4));
                assert(page@.subrange(4, 8) =~= prev.subrange(4, 8));
                assert(page@.subrange(8, 12) =~= prev.subrange(8, 12));
                assert(page@.subrange(12, 16) =~= prev.subrange(12, 16));
                assert forall|k: int| 0 <= k < 5 * (i + 1) implies page@[16 + k] == spec_entry_byte(
                    self@.entries,
                    k,
                ) by {
                    if k < 5 * i {
                        assert(page@[16 + k] == prev[16 + k]);
                    } else {
                        let j = k - 5 * i;
                        assert((5 * i + j) / 5 == i && (5 * i + j) % 5 == j) by (nonlinear_arith)
                            requires
                                0 <= j < 5,
                        ;
                        if j == 0 {
                            assert(page@[16 + 5 * i] == entry.capacity);
                        } else {
                            assert(page@.subrange(16 + 5 * i + 1, 16 + 5 * i + 5)
                                == spec_u32_to_le_bytes(entry.page_id));
                            assert(page@[16 + 5 * i + 1 + (j - 1)] == spec_u32_to_le_bytes(
                                entry.page_id,
                            )[j - 1]);
                        }
                    }
                }
            }
            i = i + 1;
        }
        proof {
            assert forall|p: int| 0 <= p < PAGE_SIZE implies page@[p] == spec_table_directory_byte(
                self@,
                p,
            ) by {
                if p < 4 {
                    assert(page@[p] == page@.subrange(0, 4)[p]);
                } else if p < 8 {
                    assert(page@[p] == page@.subrange(4, 8)[p - 4]);
                } else if p < 12 {
                    assert(page@[p] == page@.subrange(8, 12)[p - 8]);
                } else if p < 16 {
                    assert(page@[p] == page@.subrange(12, 16)[p - 12]);
                } else {
                    assert(page@[16 + (p - 16)] == spec_entry_byte(self@.entries, p - 16));
                }
            }
            assert(page@ =~= spec_encode_table_directory(self@));
        }
        RawPage::new(page)
    }
}

} // verus!
