//! The page store: a file image addressed page by page.
//!
//! The store keeps the whole backing file as a sequence of fixed-size
//! pages; the byte offset of page `page_id` in the file is
//! `page_id * PAGE_SIZE`. Reading past the end fails; writing past the
//! end first extends the image with zero-filled pages. Loading the image
//! from a real file, and saving it back, is the embedding program's job.

use vstd::prelude::*;

use crate::disk_management::buffer_pool::{RawPage, PAGE_SIZE};

verus! {

/// The bytes of a page that has never been written.
pub open spec fn zero_page() -> Seq<u8> {
    Seq::new(PAGE_SIZE as nat, |i: int| 0u8)
}

/// A file image: page `i` of the file is `self@[i]`.
pub struct DiskManager {
    pages: Vec<Vec<u8>>,
}

impl View for DiskManager {
    type V = Seq<Seq<u8>>;

    closed spec fn view(&self) -> Seq<Seq<u8>> {
        Seq::new(self.pages@.len(), |i: int| self.pages@[i]@)
    }
}

impl DiskManager {
    /// Every page of the image holds exactly `PAGE_SIZE` bytes.
    pub open spec fn wf(&self) -> bool {
        forall|i: int| 0 <= i < self@.len() ==> (#[trigger] self@[i]).len() == PAGE_SIZE
    }

    /// An empty file image.
    pub fn new() -> (d: DiskManager)
        ensures
            d@ =~= Seq::<Seq<u8>>::empty(),
            d.wf(),
    {
        DiskManager { pages: Vec::new() }
    }

    /// The number of pages in the image.
    pub fn num_pages(&self) -> (n: usize)
        ensures
            n == self@.len(),
    {
        self.pages.len()
    }

    /// The length of the backing file in bytes: always a whole number of
    /// pages.
    pub fn file_length(&self) -> (n: u64)
        requires
            self@.len() * PAGE_SIZE <= u64::MAX,
        ensures
            n == self@.len() * PAGE_SIZE,
    {
        (self.pages.len() as u64) * (PAGE_SIZE as u64)
    }

    /// Reads one whole page. Fails exactly when `page_id` lies past the
    /// end of the file.
    pub fn read_page(&self, page_id: usize) -> (r: Option<Vec<u8>>)
        requires
            self.wf(),
        ensures
            match r {
                Some(bytes) => page_id < self@.len() && bytes@ == self@[page_id as int],
                None => page_id >= self@.len(),
            },
    {
        if page_id < self.pages.len() {
            let bytes = clone_page_bytes(&self.pages[page_id]);
            Some(bytes)
        } else {
            None
        }
    }

    /// Writes one whole page, extending the file with zero-filled pages
    /// first if `page_id` lies past the current end.
    pub fn write_page(&mut self, page_id: usize, data: &RawPage)
        requires
            old(self).wf(),
            data.wf(),
        ensures
            final(self).wf(),
            final(self)@.len() == if page_id < old(self)@.len() {
                old(self)@.len() as int
            } else {
                page_id + 1
            },
            final(self)@[page_id as int] == data@,
            forall|i: int|
                0 <= i < final(self)@.len() && i != page_id ==> final(self)@[i] == if i < old(self)@.len() {
                    old(self)@[i]
                } else {
                    zero_page()
                },
    {
        let ghost orig = self@;
        while self.pages.len() <= page_id
            invariant
                self.wf(),
                self@.len() >= orig.len(),
                self@.len() <= page_id + 1 || self@.len() == orig.len(),
                forall|i: int|
                    0 <= i < self@.len() ==> self@[i] == if i < orig.len() {
                        orig[i]
                    } else {
                        zero_page()
                    },
            decreases page_id + 1 - self.pages.len(),
        {
            let ghost pre = self@;
            let ghost pre_pages = self.pages@;
            let zeroes = crate::common::codec::zero_bytes(PAGE_SIZE);
            self.pages.push(zeroes);
            proof {
                assert(self.pages@ == pre_pages.push(zeroes));
                assert(self@[self@.len() - 1] =~= zero_page());
                assert forall|i: int|
                    0 <= i < self@.len() implies self@[i] == (if i < orig.len() {
                    orig[i]
                } else {
                    zero_page()
                }) by {
                    if i < self@.len() - 1 {
                        assert(self.pages@[i] == pre_pages[i]);
                        assert(self@[i] == pre[i]);
                    }
                }
                assert forall|i: int|
                    0 <= i < self@.len() implies (#[trigger] self@[i]).len() == PAGE_SIZE by {
                    if i < self@.len() - 1 {
                        assert(self@[i] == pre[i]);
                        assert(pre[i].len() == PAGE_SIZE);
                    } else {
                        assert(self@[i] == zero_page());
                    }
                }
            }
        }
        let ghost mid = self@;
        let bytes = clone_page_bytes(&data.data);
        self.pages[page_id] = bytes;
        proof {
            assert(self@.len() == mid.len());
            assert(self@[page_id as int] == data@);
            assert forall|i: int| 0 <= i < self@.len() && i != page_id implies self@[i] == (
            if i < orig.len() {
                orig[i]
            } else {
                zero_page()
            }) by {
                assert(self@[i] == mid[i]);
            }
            assert forall|i: int|
                0 <= i < self@.len() implies (#[trigger] self@[i]).len() == PAGE_SIZE by {
                if i != page_id {
                    assert(self@[i] == mid[i]);
                }
            }
        }
    }

    /// Allocates the next page of the file: its id is the current file
    /// length divided by the page size, and a zero-filled page is written
    /// there.
    pub fn allocate_new_page(&mut self) -> (page_id: usize)
        requires
            old(self).wf(),
        ensures
            final(self).wf(),
            page_id == old(self)@.len(),
            final(self)@ =~= old(self)@.push(zero_page()),
    {
        let page_id = self.pages.len();
        let zeroes = crate::common::codec::zero_bytes(PAGE_SIZE);
        self.pages.push(zeroes);
        proof {
            assert(self@[page_id as int] =~= zero_page());
            assert(self@ =~= old(self)@.push(zero_page()));
        }
        page_id
    }
}

/// A byte-for-byte copy of one page's bytes.
fn clone_page_bytes(bytes: &Vec<u8>) -> (r: Vec<u8>)
    ensures
        r@ == bytes@,
{
    let mut r: Vec<u8> = Vec::new();
    let mut i: usize = 0;
    while i < bytes.len()
        invariant
            i <= bytes.len(),
            r@ =~= bytes@.subrange(0, i as int),
        decreases bytes.len() - i,
    {
        r.push(bytes[i]);
        i = i + 1;
    }
    proof {
        assert(r@ =~= bytes@);
    }
    r
}

} // verus!
