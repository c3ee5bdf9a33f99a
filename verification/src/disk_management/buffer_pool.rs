//! The buffer cache: a bounded set of in-memory frames over the page
//! store, with per-page pin counts, dirty flags and LRU eviction of
//! unpinned frames.
//!
//! The cache enforces at most one in-memory copy of each page. A page is
//! evictable exactly while its pin count is zero, which is exactly while
//! it is registered with the LRU replacer. Dirty pages are never dropped
//! silently: they are written back on eviction and on flush.

use std::collections::HashMap;
use vstd::prelude::*;

use crate::disk_management::disk_manager::DiskManager;
use crate::disk_management::lru_replacer::LRUReplacer;

verus! {

broadcast use vstd::std_specs::hash::group_hash_axioms;

/// The size of every page, on disk and in memory, in bytes.
pub const PAGE_SIZE: usize = 4096;

/// The default number of in-memory frames of a buffer pool.
pub const POOL_SIZE: usize = 100;

/// One page's bytes held in memory.
pub struct RawPage {
    pub data: Vec<u8>,
}

impl View for RawPage {
    type V = Seq<u8>;

    open spec fn view(&self) -> Seq<u8> {
        self.data@
    }
}

impl RawPage {
    /// A raw page holds exactly `PAGE_SIZE` bytes.
    pub open spec fn wf(&self) -> bool {
        self@.len() == PAGE_SIZE
    }

    pub fn new(data: Vec<u8>) -> (r: RawPage)
        requires
            data@.len() == PAGE_SIZE,
        ensures
            r@ == data@,
            r.wf(),
    {
        RawPage { data }
    }
}

/// The cache's bookkeeping for one resident page.
#[derive(Clone, Copy)]
pub struct PageTableEntry {
    /// Which frame of the pool holds the page's bytes.
    pub frame_index: usize,
    /// Whether the in-memory bytes differ from the page store. Sticky:
    /// cleared only by write-back during eviction or flush.
    pub dirty: bool,
    /// The number of outstanding pins. While it is positive the page
    /// cannot be evicted.
    pub ref_count: usize,
}

impl PageTableEntry {
    /// A fresh entry for a page just read into a frame: pinned once,
    /// clean.
    pub fn new(frame_id: usize) -> (r: PageTableEntry)
        ensures
            r.frame_index == frame_id,
            !r.dirty,
            r.ref_count == 1,
    {
        PageTableEntry { frame_index: frame_id, dirty: false, ref_count: 1 }
    }
}

/// The cache of at most `pool_size` in-memory frames, the page table
/// mapping each resident page id to its bookkeeping, the LRU replacer
/// holding the evictable pages, and the page store underneath.
pub struct BufferPool {
    data: Vec<Option<RawPage>>,
    frame_owner: Vec<Option<usize>>,
    page_table: HashMap<usize, PageTableEntry>,
    lru_replacer: LRUReplacer,
    file_manager: DiskManager,
}

impl BufferPool {
    /// The in-memory frames.
    pub closed spec fn frames(&self) -> Seq<Option<RawPage>> {
        self.data@
    }

    /// The page table: which pages are resident, and their bookkeeping.
    pub closed spec fn table(&self) -> Map<usize, PageTableEntry> {
        self.page_table@
    }

    /// The evictable pages with their stamps.
    pub closed spec fn lru(&self) -> Map<usize, i64> {
        self.lru_replacer@
    }

    /// The page store underneath the cache.
    pub closed spec fn disk(&self) -> Seq<Seq<u8>> {
        self.file_manager@
    }

    /// The number of frames.
    pub open spec fn pool_size(&self) -> int {
        self.frames().len() as int
    }

    /// Whether the page is held in some frame.
    pub open spec fn resident(&self, page_id: usize) -> bool {
        self.table().dom().contains(page_id)
    }

    /// The frame holding a resident page.
    pub open spec fn frame_of(&self, page_id: usize) -> int {
        self.table()[page_id].frame_index as int
    }

    /// Whether the page exists at all: resident, or backed by the store.
    pub open spec fn page_known(&self, page_id: usize) -> bool {
        self.resident(page_id) || (page_id as int) < self.disk().len()
    }

    /// Whether some frame holds no page.
    pub open spec fn has_free_frame(&self) -> bool {
        exists|fi: int| 0 <= fi < self.frames().len() && (#[trigger] self.frames()[fi]) is None
    }

    /// Whether some page is evictable.
    pub open spec fn has_evictable(&self) -> bool {
        exists|q: usize| #[trigger] self.lru().dom().contains(q)
    }

    /// Whether the pool is sure to have room for one more pin: some
    /// frame is free or some page is evictable, and no pin count is at
    /// its ceiling.
    pub open spec fn one_pin_roomy(&self) -> bool {
        &&& self.has_free_frame() || self.has_evictable()
        &&& forall|q: usize| #[trigger]
            self.resident(q) ==> self.table()[q].ref_count < usize::MAX
    }

    /// The current bytes of a page: the frame's bytes while resident,
    /// else the store's.
    pub open spec fn page_bytes(&self, page_id: usize) -> Seq<u8> {
        if self.resident(page_id) {
            self.frames()[self.frame_of(page_id)].unwrap()@
        } else {
            self.disk()[page_id as int]
        }
    }

    /// The cache's invariant.
    ///
    /// Each resident page owns one frame holding `PAGE_SIZE` bytes, the
    /// frame-to-page index mirrors the page table, a page sits in the LRU
    /// replacer exactly while its pin count is zero, every resident page
    /// is backed by the store, and a clean frame agrees with the store
    /// byte for byte.
    pub closed spec fn wf(&self) -> bool {
        &&& self.file_manager.wf()
        &&& self.lru_replacer.wf()
        &&& self.frame_owner@.len() == self.frames().len()
        &&& self.table().dom().finite()
        &&& forall|pid: usize| #[trigger]
            self.resident(pid) ==> {
                &&& self.table()[pid].frame_index < self.frames().len()
                &&& self.frames()[self.table()[pid].frame_index as int] is Some
                &&& self.frame_owner@[self.table()[pid].frame_index as int] == Some(pid)
                &&& (pid as int) < self.disk().len()
                &&& (!self.table()[pid].dirty ==> self.frames()[self.table()[pid].frame_index
                    as int].unwrap()@ == self.disk()[pid as int])
            }
        &&& forall|fi: int|
            0 <= fi < self.frame_owner@.len() && #[trigger] self.frame_owner@[fi] is Some ==> {
                &&& self.resident(self.frame_owner@[fi].unwrap())
                &&& self.table()[self.frame_owner@[fi].unwrap()].frame_index == fi
            }
        &&& forall|fi: int|
            0 <= fi < self.frames().len() && #[trigger] self.frames()[fi] is Some
                ==> self.frames()[fi].unwrap().wf()
        &&& forall|pid: usize| #[trigger]
            self.lru().dom().contains(pid) ==> self.resident(pid)
        &&& forall|pid: usize| #[trigger]
            self.resident(pid) ==> (self.lru().dom().contains(pid) <==> self.table()[pid].ref_count == 0)
    }

    /// A pool of `pool_size` frames, all empty, over the given page
    /// store.
    pub fn with_pool_size(file_manager: DiskManager, pool_size: usize) -> (r: BufferPool)
        requires
            file_manager.wf(),
        ensures
            r.wf(),
            r.pool_size() == pool_size,
            r.table() == Map::<usize, PageTableEntry>::empty(),
            r.lru() == Map::<usize, i64>::empty(),
            r.disk() == file_manager@,
            forall|fi: int| 0 <= fi < pool_size ==> #[trigger] r.frames()[fi] is None,
    {
        let mut data: Vec<Option<RawPage>> = Vec::new();
        let mut frame_owner: Vec<Option<usize>> = Vec::new();
        let mut i: usize = 0;
        while i < pool_size
            invariant
                i <= pool_size,
                data@.len() == i,
                frame_owner@.len() == i,
                forall|fi: int| 0 <= fi < i ==> #[trigger] data@[fi] is None,
                forall|fi: int| 0 <= fi < i ==> #[trigger] frame_owner@[fi] is None,
            decreases pool_size - i,
        {
            data.push(None);
            frame_owner.push(None);
            i = i + 1;
        }
        let r = BufferPool {
            data,
            frame_owner,
            page_table: HashMap::new(),
            lru_replacer: LRUReplacer::new(pool_size),
            file_manager,
        };
        r
    }

    /// A pool with the default number of frames.
    pub fn new(file_manager: DiskManager) -> (r: BufferPool)
        requires
            file_manager.wf(),
        ensures
            r.wf(),
            r.pool_size() == POOL_SIZE,
            r.table() == Map::<usize, PageTableEntry>::empty(),
            r.lru() == Map::<usize, i64>::empty(),
            r.disk() == file_manager@,
    {
        BufferPool::with_pool_size(file_manager, POOL_SIZE)
    }

    /// The frame of lowest index that holds no page, if any frame is
    /// free.
    fn find_free_frame(&self) -> (r: Option<usize>)
        ensures
            match r {
                Some(fi) => fi < self.frames().len() && self.frames()[fi as int] is None
                    && forall|j: int| 0 <= j < fi ==> #[trigger] self.frames()[j] is Some,
                None => forall|j: int|
                    0 <= j < self.frames().len() ==> #[trigger] self.frames()[j] is Some,
            },
    {
        let mut i: usize = 0;
        while i < self.data.len()
            invariant
                i <= self.frames().len(),
                forall|j: int| 0 <= j < i ==> #[trigger] self.frames()[j] is Some,
            decreases self.frames().len() - i,
        {
            if self.data[i].is_none() {
                return Some(i);
            }
            i = i + 1;
        }
        None
    }

    /// Reads a page from the store into a free frame and installs a
    /// fresh page-table entry for it: pinned once, clean.
    fn install_frame(&mut self, page_id: usize, frame_index: usize, bytes: Vec<u8>)
        requires
            old(self).wf(),
            !old(self).resident(page_id),
            frame_index < old(self).frames().len(),
            old(self).frame_owner@[frame_index as int] is None,
            (page_id as int) < old(self).disk().len(),
            bytes@ == old(self).disk()[page_id as int],
        ensures
            final(self).wf(),
            final(self).table() == old(self).table().insert(
                page_id,
                (PageTableEntry { frame_index, dirty: false, ref_count: 1 }),
            ),
            final(self).frames().len() == old(self).frames().len(),
            final(self).frames()[frame_index as int] is Some,
            final(self).frames()[frame_index as int].unwrap()@ == bytes@,
            forall|j: int|
                0 <= j < old(self).frames().len() && j != frame_index ==> final(self).frames()[j]
                    == old(self).frames()[j],
            final(self).frame_owner@ == old(self).frame_owner@.update(
                frame_index as int,
                Some(page_id),
            ),
            final(self).lru() == old(self).lru(),
            final(self).disk() == old(self).disk(),
    {
        proof {
            assert(old(self).disk()[page_id as int].len() == PAGE_SIZE);
        }
        let raw = RawPage::new(bytes);
        self.data[frame_index] = Some(raw);
        self.frame_owner[frame_index] = Some(page_id);
        self.page_table.insert(page_id, PageTableEntry::new(frame_index));
        proof {
            let pre = old(self);
            assert forall|pid: usize| #[trigger] self.resident(pid) implies {
                &&& self.table()[pid].frame_index < self.frames().len()
                &&& self.frames()[self.table()[pid].frame_index as int] is Some
                &&& self.frame_owner@[self.table()[pid].frame_index as int] == Some(pid)
                &&& (pid as int) < self.disk().len()
                &&& (!self.table()[pid].dirty ==> self.frames()[self.table()[pid].frame_index
                    as int].unwrap()@ == self.disk()[pid as int])
            } by {
                if pid != page_id {
                    assert(pre.resident(pid));
                    assert(pre.frame_owner@[pre.table()[pid].frame_index as int] == Some(pid));
                    assert(pre.table()[pid].frame_index != frame_index);
                    assert(self.table()[pid] == pre.table()[pid]);
                }
            }
            assert forall|fi: int|
                0 <= fi < self.frame_owner@.len() && #[trigger] self.frame_owner@[fi]
                    is Some implies {
                &&& self.resident(self.frame_owner@[fi].unwrap())
                &&& self.table()[self.frame_owner@[fi].unwrap()].frame_index == fi
            } by {
                if fi != frame_index {
                    let pid = pre.frame_owner@[fi].unwrap();
                    assert(pre.resident(pid));
                    assert(pid != page_id);
                }
            }
            assert forall|fi2: int|
                0 <= fi2 < self.frames().len() && #[trigger] self.frames()[fi2]
                    is Some implies self.frames()[fi2].unwrap().wf() by {
                if fi2 != frame_index {
                    assert(self.frames()[fi2] == pre.frames()[fi2]);
                }
            }
            assert forall|pid: usize| #[trigger]
                self.lru().dom().contains(pid) implies self.resident(pid) by {
                assert(pre.lru().dom().contains(pid));
                assert(pre.resident(pid));
            }
            assert forall|pid: usize| #[trigger] self.resident(pid) implies (
            self.lru().dom().contains(pid) <==> self.table()[pid].ref_count == 0) by {
                if pid == page_id {
                    assert(!pre.lru().dom().contains(pid));
                } else {
                    assert(pre.resident(pid));
                }
            }
            assert(self.table().dom() =~= pre.table().dom().insert(page_id));
        }
    }

    /// The invariant carries over between two states whose components
    /// are equal, even when the exec values differ underneath their
    /// views.
    proof fn lemma_wf_same(pre: BufferPool, cur: BufferPool)
        requires
            pre.wf(),
            cur.lru_replacer.wf(),
            cur.file_manager.wf(),
            cur.frames() == pre.frames(),
            cur.frame_owner@ == pre.frame_owner@,
            cur.table() == pre.table(),
            cur.lru() == pre.lru(),
            cur.disk() == pre.disk(),
        ensures
            cur.wf(),
    {
        assert forall|pid: usize| #[trigger] cur.resident(pid) implies {
            &&& cur.table()[pid].frame_index < cur.frames().len()
            &&& cur.frames()[cur.table()[pid].frame_index as int] is Some
            &&& cur.frame_owner@[cur.table()[pid].frame_index as int] == Some(pid)
            &&& (pid as int) < cur.disk().len()
            &&& (!cur.table()[pid].dirty ==> cur.frames()[cur.table()[pid].frame_index
                as int].unwrap()@ == cur.disk()[pid as int])
        } by {
            assert(pre.resident(pid));
        }
        assert forall|fi: int|
            0 <= fi < cur.frame_owner@.len() && #[trigger] cur.frame_owner@[fi]
                is Some implies {
            &&& cur.resident(cur.frame_owner@[fi].unwrap())
            &&& cur.table()[cur.frame_owner@[fi].unwrap()].frame_index == fi
        } by {
            assert(pre.frame_owner@[fi] is Some);
            assert(pre.resident(pre.frame_owner@[fi].unwrap()));
        }
        assert forall|fi: int|
            0 <= fi < cur.frames().len() && #[trigger] cur.frames()[fi] is Some implies cur.frames()[
            fi].unwrap().wf() by {
            assert(pre.frames()[fi] is Some);
        }
        assert forall|pid: usize| #[trigger]
            cur.lru().dom().contains(pid) implies cur.resident(pid) by {
            assert(pre.lru().dom().contains(pid));
            assert(pre.resident(pid));
        }
        assert forall|pid: usize| #[trigger] cur.resident(pid) implies (
        cur.lru().dom().contains(pid) <==> cur.table()[pid].ref_count == 0) by {
            assert(pre.resident(pid));
        }
    }

    /// Pops the least recently used evictable page, writes it back to
    /// the store if dirty, and removes it from the page table, freeing
    /// its frame. Fails exactly when no page is evictable.
    fn evict_one(&mut self) -> (r: Option<(usize, usize)>)
        requires
            old(self).wf(),
        ensures
            final(self).wf(),
            final(self).pool_size() == old(self).pool_size(),
            final(self).disk().len() == old(self).disk().len(),
            match r {
                Some(pair) => {
                    &&& old(self).resident(pair.0)
                    &&& old(self).lru().dom().contains(pair.0)
                    &&& (forall|k: usize|
                        old(self).lru().dom().contains(k) ==> old(self).lru()[pair.0]
                            <= #[trigger] old(self).lru()[k])
                    &&& old(self).table()[pair.0].ref_count == 0
                    &&& pair.1 == old(self).table()[pair.0].frame_index
                    &&& pair.1 < old(self).frames().len()
                    &&& final(self).table() == old(self).table().remove(pair.0)
                    &&& final(self).lru() == old(self).lru().remove(pair.0)
                    &&& final(self).frames() == old(self).frames()
                    &&& final(self).frame_owner@ == old(self).frame_owner@.update(
                        pair.1 as int,
                        None,
                    )
                    &&& final(self).disk()[pair.0 as int] == old(self).page_bytes(pair.0)
                    &&& forall|q: usize|
                        q != pair.0 && #[trigger] old(self).page_known(q) ==> final(self).page_bytes(q) == old(self).page_bytes(q)
                },
                None => {
                    &&& forall|q: usize| !old(self).lru().dom().contains(q)
                    &&& final(self).table() == old(self).table()
                    &&& final(self).lru() == old(self).lru()
                    &&& final(self).frames() == old(self).frames()
                    &&& final(self).frame_owner@ == old(self).frame_owner@
                    &&& final(self).disk() == old(self).disk()
                },
            },
    {
        let victim = match self.lru_replacer.pop_least_recently_used() {
            Some(v) => v,
            None => {
                proof {
                    Self::lemma_wf_same(*old(self), *self);
                }
                return None;
            },
        };
        proof {
            assert(old(self).lru().dom().contains(victim));
            assert(old(self).resident(victim));
            assert(old(self).table()[victim].ref_count == 0);
        }
        let entry = *self.page_table.get(&victim).unwrap();
        let frame_index = entry.frame_index;
        if entry.dirty {
            let frame_ref = self.data[frame_index].as_ref().unwrap();
            self.file_manager.write_page(victim, frame_ref);
        }
        self.page_table.remove(&victim);
        self.frame_owner[frame_index] = None;
        proof {
            let pre = old(self);
            assert(self.disk().len() == pre.disk().len());
            assert forall|pid: usize| #[trigger] self.resident(pid) implies {
                &&& self.table()[pid].frame_index < self.frames().len()
                &&& self.frames()[self.table()[pid].frame_index as int] is Some
                &&& self.frame_owner@[self.table()[pid].frame_index as int] == Some(pid)
                &&& (pid as int) < self.disk().len()
                &&& (!self.table()[pid].dirty ==> self.frames()[self.table()[pid].frame_index
                    as int].unwrap()@ == self.disk()[pid as int])
            } by {
                assert(pid != victim);
                assert(pre.resident(pid));
                assert(pre.frame_owner@[pre.table()[pid].frame_index as int] == Some(pid));
                assert(pre.table()[pid].frame_index != frame_index);
                if !self.table()[pid].dirty {
                    assert(self.disk()[pid as int] == pre.disk()[pid as int]);
                }
            }
            assert forall|fi: int|
                0 <= fi < self.frame_owner@.len() && #[trigger] self.frame_owner@[fi]
                    is Some implies {
                &&& self.resident(self.frame_owner@[fi].unwrap())
                &&& self.table()[self.frame_owner@[fi].unwrap()].frame_index == fi
            } by {
                let pid = self.frame_owner@[fi].unwrap();
                assert(pre.frame_owner@[fi] == Some(pid));
                assert(pre.resident(pid));
                assert(pid != victim);
            }
            assert forall|fi2: int|
                0 <= fi2 < self.frames().len() && #[trigger] self.frames()[fi2]
                    is Some implies self.frames()[fi2].unwrap().wf() by {
                assert(self.frames()[fi2] == pre.frames()[fi2]);
            }
            assert forall|pid: usize| #[trigger]
                self.lru().dom().contains(pid) implies self.resident(pid) by {
                assert(pre.lru().dom().contains(pid));
                assert(pre.resident(pid));
                assert(pid != victim);
            }
            assert forall|pid: usize| #[trigger] self.resident(pid) implies (
            self.lru().dom().contains(pid) <==> self.table()[pid].ref_count == 0) by {
                assert(pre.resident(pid));
                assert(pid != victim);
            }
            assert forall|q: usize|
                q != victim && #[trigger] pre.page_known(q) implies self.page_bytes(q)
                    == pre.page_bytes(q) by {
                if pre.resident(q) {
                    assert(pre.frame_owner@[pre.table()[q].frame_index as int] == Some(q));
                    assert(pre.table()[q].frame_index != frame_index);
                }
            }
            assert(self.disk()[victim as int] == pre.page_bytes(victim));
        }
        Some((victim, frame_index))
    }

    /// What a miss with a full pool does: the page evicted to make room
    /// is an evictable page of least stamp — the least recently unpinned
    /// one. Its frame is reused, it leaves the page table and the LRU
    /// replacer, and the store holds its last bytes.
    pub open spec fn evicted_victim(
        self,
        post: BufferPool,
        v: usize,
        page_id: usize,
        fi: usize,
    ) -> bool {
        &&& self.lru().dom().contains(v)
        &&& self.table()[v].ref_count == 0
        &&& (forall|k: usize|
            self.lru().dom().contains(k) ==> self.lru()[v] <= #[trigger] self.lru()[k])
        &&& fi == self.table()[v].frame_index
        &&& !post.resident(v)
        &&& post.table().dom() == self.table().dom().remove(v).insert(page_id)
        &&& post.lru() == self.lru().remove(v)
        &&& post.disk()[v as int] == self.page_bytes(v)
    }

    /// Pins a page: after success the page is resident, its pin count is
    /// positive, it is not evictable, and its frame holds the page's
    /// current bytes. On a miss the page is read from the store, evicting
    /// the least recently used unpinned page first if no frame is free;
    /// a dirty evicted page is written back. Fails — leaving the cache
    /// unchanged — when the page is unknown, or when every frame is
    /// pinned, or when the pin count would overflow.
    pub fn load_page(&mut self, page_id: usize) -> (r: Option<usize>)
        requires
            old(self).wf(),
        ensures
            final(self).wf(),
            final(self).pool_size() == old(self).pool_size(),
            final(self).disk().len() == old(self).disk().len(),
            match r {
                Some(fi) => {
                    &&& old(self).page_known(page_id)
                    &&& final(self).resident(page_id)
                    &&& final(self).frame_of(page_id) == fi
                    &&& final(self).table()[page_id].ref_count == if old(self).resident(page_id) {
                        old(self).table()[page_id].ref_count + 1
                    } else {
                        1
                    }
                    &&& final(self).table()[page_id].dirty == if old(self).resident(page_id) {
                        old(self).table()[page_id].dirty
                    } else {
                        false
                    }
                    &&& !final(self).lru().dom().contains(page_id)
                    &&& forall|q: usize| #[trigger]
                        old(self).page_known(q) ==> final(self).page_known(q) && final(self).page_bytes(q) == old(self).page_bytes(q)
                    &&& forall|q: usize|
                        q != page_id && #[trigger] final(self).resident(q) ==> old(self).resident(q) && final(self).table()[q] == old(self).table()[q]
                    &&& forall|q: usize|
                        q != page_id && #[trigger] old(self).resident(q) && old(self).table()[
                            q
                        ].ref_count > 0 ==> final(self).resident(q)
                    &&& forall|q: usize|
                        q != page_id && #[trigger] final(self).lru().dom().contains(q) ==> old(self).lru().dom().contains(q)
                    &&& (old(self).resident(page_id) ==> final(self).table().dom() =~= old(self).table().dom())
                    &&& (old(self).resident(page_id) ==> fi == old(self).frame_of(page_id)
                        && final(self).frames() == old(self).frames() && forall|q: usize|
                        q != page_id ==> (#[trigger] final(self).lru().dom().contains(q) <==> old(self).lru().dom().contains(q)))
                    &&& (!old(self).resident(page_id) ==> old(self).has_free_frame() || old(self).has_evictable())
                    &&& (!old(self).resident(page_id) ==> (final(self).table().dom() == old(self).table().dom().insert(page_id) && final(self).lru() == old(self).lru()
                        && old(self).frames()[fi as int] is None) || exists|v: usize|
                        #[trigger] old(self).evicted_victim(*final(self), v, page_id, fi))
                },
                None => {
                    &&& final(self).table() == old(self).table()
                    &&& final(self).lru() == old(self).lru()
                    &&& final(self).frames() == old(self).frames()
                    &&& final(self).disk() == old(self).disk()
                    &&& (old(self).resident(page_id) && old(self).table()[page_id].ref_count
                        == usize::MAX) || (!old(self).resident(page_id) && ((page_id as int) >= old(self).disk().len() || (!old(self).has_free_frame() && !old(self).has_evictable())))
                },
            },
    {
        if self.page_table.contains_key(&page_id) {
            let entry = *self.page_table.get(&page_id).unwrap();
            if entry.ref_count == usize::MAX {
                return None;
            }
            let new_entry = PageTableEntry {
                frame_index: entry.frame_index,
                dirty: entry.dirty,
                ref_count: entry.ref_count + 1,
            };
            self.page_table.insert(page_id, new_entry);
            if new_entry.ref_count == 1 {
                self.lru_replacer.drop_page(page_id);
            }
            proof {
                let pre = old(self);
                assert(self.table() == pre.table().insert(page_id, new_entry));
                assert(new_entry.ref_count > 0);
                if entry.ref_count == 0 {
                    assert(pre.lru().dom().contains(page_id));
                    assert(self.lru() == pre.lru().remove(page_id));
                } else {
                    assert(!pre.lru().dom().contains(page_id));
                    assert(self.lru() == pre.lru());
                }
                assert(!self.lru().dom().contains(page_id));
                assert forall|pid: usize| #[trigger] self.resident(pid) implies {
                    &&& self.table()[pid].frame_index < self.frames().len()
                    &&& self.frames()[self.table()[pid].frame_index as int] is Some
                    &&& self.frame_owner@[self.table()[pid].frame_index as int] == Some(pid)
                    &&& (pid as int) < self.disk().len()
                    &&& (!self.table()[pid].dirty ==> self.frames()[self.table()[pid].frame_index
                        as int].unwrap()@ == self.disk()[pid as int])
                } by {
                    assert(pre.resident(pid));
                }
                assert forall|fi: int|
                    0 <= fi < self.frame_owner@.len() && #[trigger] self.frame_owner@[fi]
                        is Some implies {
                    &&& self.resident(self.frame_owner@[fi].unwrap())
                    &&& self.table()[self.frame_owner@[fi].unwrap()].frame_index == fi
                } by {
                    assert(pre.resident(pre.frame_owner@[fi].unwrap()));
                }
                assert forall|fi2: int|
                    0 <= fi2 < self.frames().len() && #[trigger] self.frames()[fi2]
                        is Some implies self.frames()[fi2].unwrap().wf() by {
                    assert(self.frames()[fi2] == pre.frames()[fi2]);
                }
                assert forall|pid: usize| #[trigger]
                    self.lru().dom().contains(pid) implies self.resident(pid) by {
                    assert(pre.lru().dom().contains(pid));
                    assert(pre.resident(pid));
                }
                assert forall|pid: usize| #[trigger] self.resident(pid) implies (
                self.lru().dom().contains(pid) <==> self.table()[pid].ref_count == 0) by {
                    assert(pre.resident(pid));
                }
                assert(self.table().dom() =~= pre.table().dom());
                assert forall|q: usize| #[trigger]
                    pre.page_known(q) implies self.page_bytes(q) == pre.page_bytes(q) by {
                    if pre.resident(q) {
                        assert(self.resident(q));
                        assert(self.table()[q].frame_index == pre.table()[q].frame_index);
                    }
                }
            }
            return Some(entry.frame_index);
        }
        let bytes = match self.file_manager.read_page(page_id) {
            Some(b) => b,
            None => {
                return None;
            },
        };
        let ghost pre = *old(self);
        let pair: (usize, Ghost<Option<usize>>) = match self.find_free_frame() {
            Some(fi) => (fi, Ghost(None)),
            None => {
                match self.evict_one() {
                    Some(vp) => (vp.1, Ghost(Some(vp.0))),
                    None => {
                        proof {
                            assert(!old(self).has_free_frame());
                            assert(!old(self).has_evictable());
                        }
                        return None;
                    },
                }
            },
        };
        let frame_index = pair.0;
        let ghost victim = pair.1@;
        let ghost mid = *self;
        proof {
            assert(!mid.resident(page_id));
            if victim is Some {
                let v = victim.unwrap();
                assert(v != page_id);
                assert(pre.page_known(page_id));
                assert(mid.page_bytes(page_id) == pre.page_bytes(page_id));
                assert(bytes@ == mid.disk()[page_id as int]);
            } else {
                assert(mid.frames()[frame_index as int] is None);
                if mid.frame_owner@[frame_index as int] is Some {
                    let p = mid.frame_owner@[frame_index as int].unwrap();
                    assert(mid.resident(p));
                    assert(false);
                }
            }
            assert(mid.frame_owner@[frame_index as int] is None);
            assert(bytes@ == mid.disk()[page_id as int]);
        }
        self.install_frame(page_id, frame_index, bytes);
        proof {
            assert(!mid.lru().dom().contains(page_id));
            assert(!self.lru().dom().contains(page_id));
            assert(self.table()[page_id].ref_count == 1);
            assert forall|q: usize| #[trigger]
                pre.page_known(q) implies self.page_known(q) && self.page_bytes(q)
                == pre.page_bytes(q) by {
                if q == page_id {
                    assert(self.page_bytes(q) == bytes@);
                } else {
                    assert(mid.page_bytes(q) == pre.page_bytes(q));
                    if mid.resident(q) {
                        assert(mid.frame_owner@[mid.table()[q].frame_index as int] == Some(q));
                        assert(mid.table()[q].frame_index != frame_index);
                        assert(self.resident(q));
                        assert(self.table()[q] == mid.table()[q]);
                        assert(self.page_bytes(q) == mid.page_bytes(q));
                    } else {
                        assert(self.disk()[q as int] == mid.disk()[q as int]);
                        if self.resident(q) {
                            assert(self.table().dom() == mid.table().dom().insert(page_id));
                            assert(false);
                        }
                    }
                }
            }
            assert forall|q: usize|
                q != page_id && #[trigger] self.resident(q) implies pre.resident(q)
                    && self.table()[q] == pre.table()[q] by {
                assert(mid.resident(q));
            }
            assert forall|q: usize|
                q != page_id && #[trigger] pre.resident(q) && pre.table()[q].ref_count
                    > 0 implies self.resident(q) by {
                if victim is Some {
                    assert(q != victim.unwrap());
                }
                assert(mid.resident(q));
            }
            if victim is Some {
                let v = victim.unwrap();
                assert(pre.lru().dom().contains(v));
                assert(pre.has_evictable());
                assert(self.table().dom() =~= pre.table().dom().remove(v).insert(page_id));
                assert(self.lru() == mid.lru() && mid.lru() == pre.lru().remove(v));
                assert(self.disk()[v as int] == mid.disk()[v as int]);
                assert(pre.evicted_victim(*self, v, page_id, frame_index));
            } else {
                assert(pre.frames()[frame_index as int] is None);
                assert(pre.has_free_frame());
                assert(self.table().dom() =~= pre.table().dom().insert(page_id));
                assert(self.lru() == mid.lru() && mid.lru() == pre.lru());
            }
        }
        Some(frame_index)
    }

    /// Unpins a page: decrements its pin count, and on the transition to
    /// zero registers it with the LRU replacer as evictable. Fails —
    /// leaving the cache unchanged — when the page is not resident or is
    /// not pinned.
    pub fn unload_page_id(&mut self, page_id: usize) -> (r: Result<(), &'static str>)
        requires
            old(self).wf(),
        ensures
            final(self).wf(),
            final(self).pool_size() == old(self).pool_size(),
            r is Ok <==> old(self).resident(page_id) && old(self).table()[page_id].ref_count > 0,
            match r {
                Ok(u) => {
                    &&& final(self).table() == old(self).table().insert(
                        page_id,
                        (PageTableEntry {
                            frame_index: old(self).table()[page_id].frame_index,
                            dirty: old(self).table()[page_id].dirty,
                            ref_count: (old(self).table()[page_id].ref_count - 1) as usize,
                        }),
                    )
                    &&& final(self).frames() == old(self).frames()
                    &&& final(self).disk() == old(self).disk()
                    &&& (old(self).table()[page_id].ref_count == 1 ==> final(self).lru().dom()
                        =~= old(self).lru().dom().insert(page_id))
                    &&& (old(self).table()[page_id].ref_count > 1 ==> final(self).lru() == old(self).lru())
                    &&& forall|q: usize| #[trigger]
                        old(self).page_known(q) ==> final(self).page_known(q) && final(self).page_bytes(q) == old(self).page_bytes(q)
                },
                Err(e) => {
                    &&& final(self).table() == old(self).table()
                    &&& final(self).lru() == old(self).lru()
                    &&& final(self).frames() == old(self).frames()
                    &&& final(self).disk() == old(self).disk()
                },
            },
    {
        let entry = match self.page_table.get(&page_id) {
            Some(e) => *e,
            None => {
                return Err("Cannot find the specified page index");
            },
        };
        if entry.ref_count == 0 {
            return Err("There is currently no reference to the specified page");
        }
        let new_entry = PageTableEntry {
            frame_index: entry.frame_index,
            dirty: entry.dirty,
            ref_count: entry.ref_count - 1,
        };
        self.page_table.insert(page_id, new_entry);
        if new_entry.ref_count == 0 {
            self.lru_replacer.add_page(page_id);
        }
        proof {
            let pre = old(self);
            assert(self.table() == pre.table().insert(page_id, new_entry));
            if new_entry.ref_count == 0 {
                assert(self.lru() == pre.lru().insert(page_id, self.lru()[page_id]));
                assert(self.lru().dom() =~= pre.lru().dom().insert(page_id));
            } else {
                assert(self.lru() == pre.lru());
            }
            assert forall|pid: usize| #[trigger] self.resident(pid) implies {
                &&& self.table()[pid].frame_index < self.frames().len()
                &&& self.frames()[self.table()[pid].frame_index as int] is Some
                &&& self.frame_owner@[self.table()[pid].frame_index as int] == Some(pid)
                &&& (pid as int) < self.disk().len()
                &&& (!self.table()[pid].dirty ==> self.frames()[self.table()[pid].frame_index
                    as int].unwrap()@ == self.disk()[pid as int])
            } by {
                assert(pre.resident(pid));
            }
            assert forall|fi: int|
                0 <= fi < self.frame_owner@.len() && #[trigger] self.frame_owner@[fi]
                    is Some implies {
                &&& self.resident(self.frame_owner@[fi].unwrap())
                &&& self.table()[self.frame_owner@[fi].unwrap()].frame_index == fi
            } by {
                assert(pre.resident(pre.frame_owner@[fi].unwrap()));
            }
            assert forall|fi2: int|
                0 <= fi2 < self.frames().len() && #[trigger] self.frames()[fi2]
                    is Some implies self.frames()[fi2].unwrap().wf() by {
                assert(self.frames()[fi2] == pre.frames()[fi2]);
            }
            assert forall|pid: usize| #[trigger]
                self.lru().dom().contains(pid) implies self.resident(pid) by {
                if pid != page_id {
                    assert(pre.lru().dom().contains(pid));
                    assert(pre.resident(pid));
                }
            }
            assert forall|pid: usize| #[trigger] self.resident(pid) implies (
            self.lru().dom().contains(pid) <==> self.table()[pid].ref_count == 0) by {
                if pid != page_id {
                    assert(pre.resident(pid));
                    assert(self.lru().dom().contains(pid) == pre.lru().dom().contains(pid));
                }
            }
            assert forall|q: usize| #[trigger]
                pre.page_known(q) implies self.page_bytes(q) == pre.page_bytes(q) by {
                if pre.resident(q) {
                    assert(self.resident(q));
                    assert(self.table()[q].frame_index == pre.table()[q].frame_index);
                }
            }
        }
        Ok(())
    }

    /// Replaces a page's bytes with the given raw page and marks it
    /// dirty. A page that was not resident is first loaded — and thereby
    /// pinned — exactly as by `load_page`; a page already resident keeps
    /// its pin count. Fails — leaving the cache unchanged — exactly when
    /// that load fails.
    pub fn update_page(&mut self, page_id: usize, new_page: RawPage) -> (r: Result<
        (),
        &'static str,
    >)
        requires
            old(self).wf(),
            new_page.wf(),
        ensures
            final(self).wf(),
            final(self).pool_size() == old(self).pool_size(),
            final(self).disk().len() == old(self).disk().len(),
            r is Ok <==> old(self).resident(page_id) || ((page_id as int) < old(self).disk().len() && (old(self).has_free_frame() || old(self).has_evictable())),
            match r {
                Ok(u) => {
                    &&& final(self).resident(page_id)
                    &&& final(self).page_bytes(page_id) == new_page@
                    &&& final(self).table()[page_id].dirty
                    &&& final(self).table()[page_id].ref_count == if old(self).resident(page_id) {
                        old(self).table()[page_id].ref_count as int
                    } else {
                        1
                    }
                    &&& forall|q: usize|
                        q != page_id && #[trigger] old(self).page_known(q) ==> final(self).page_known(q) && final(self).page_bytes(q) == old(self).page_bytes(q)
                    &&& forall|q: usize|
                        q != page_id && #[trigger] final(self).resident(q) ==> old(self).resident(
                            q,
                        ) && final(self).table()[q] == old(self).table()[q]
                    &&& forall|q: usize|
                        q != page_id && #[trigger] old(self).resident(q) && old(self).table()[
                            q
                        ].ref_count > 0 ==> final(self).resident(q)
                    &&& (old(self).resident(page_id) ==> final(self).table().dom() =~= old(self).table().dom() && final(self).lru() == old(self).lru())
                },
                Err(e) => {
                    &&& final(self).table() == old(self).table()
                    &&& final(self).lru() == old(self).lru()
                    &&& final(self).frames() == old(self).frames()
                    &&& final(self).disk() == old(self).disk()
                },
            },
    {
        if !self.page_table.contains_key(&page_id) {
            match self.load_page(page_id) {
                Some(fi) => {
                },
                None => {
                    return Err("Could not load the page to update");
                },
            }
        }
        let ghost mid = *self;
        proof {
            assert(self.wf());
            assert(self.resident(page_id));
            assert(mid.wf());
            assert(mid.resident(page_id));
        }
        let entry = *self.page_table.get(&page_id).unwrap();
        self.data[entry.frame_index] = Some(new_page);
        let new_entry = PageTableEntry {
            frame_index: entry.frame_index,
            dirty: true,
            ref_count: entry.ref_count,
        };
        self.page_table.insert(page_id, new_entry);
        proof {
            let pre = old(self);
            assert(self.table() == mid.table().insert(page_id, new_entry));
            assert forall|pid: usize| #[trigger] self.resident(pid) implies {
                &&& self.table()[pid].frame_index < self.frames().len()
                &&& self.frames()[self.table()[pid].frame_index as int] is Some
                &&& self.frame_owner@[self.table()[pid].frame_index as int] == Some(pid)
                &&& (pid as int) < self.disk().len()
                &&& (!self.table()[pid].dirty ==> self.frames()[self.table()[pid].frame_index
                    as int].unwrap()@ == self.disk()[pid as int])
            } by {
                assert(mid.resident(pid));
                if pid != page_id {
                    assert(mid.frame_owner@[mid.table()[pid].frame_index as int] == Some(pid));
                    assert(mid.table()[pid].frame_index != entry.frame_index);
                }
            }
            assert forall|fi: int|
                0 <= fi < self.frame_owner@.len() && #[trigger] self.frame_owner@[fi]
                    is Some implies {
                &&& self.resident(self.frame_owner@[fi].unwrap())
                &&& self.table()[self.frame_owner@[fi].unwrap()].frame_index == fi
            } by {
                assert(mid.resident(mid.frame_owner@[fi].unwrap()));
            }
            assert forall|fi2: int|
                0 <= fi2 < self.frames().len() && #[trigger] self.frames()[fi2]
                    is Some implies self.frames()[fi2].unwrap().wf() by {
                if fi2 != entry.frame_index {
                    assert(self.frames()[fi2] == mid.frames()[fi2]);
                }
            }
            assert forall|pid: usize| #[trigger]
                self.lru().dom().contains(pid) implies self.resident(pid) by {
                assert(mid.lru().dom().contains(pid));
                assert(mid.resident(pid));
            }
            assert forall|pid: usize| #[trigger] self.resident(pid) implies (
            self.lru().dom().contains(pid) <==> self.table()[pid].ref_count == 0) by {
                assert(mid.resident(pid));
            }
            assert(self.table().dom() =~= mid.table().dom());
            assert forall|q: usize|
                q != page_id && #[trigger] pre.page_known(q) implies self.page_known(q)
                    && self.page_bytes(q) == pre.page_bytes(q) by {
                assert(mid.page_bytes(q) == pre.page_bytes(q));
                if mid.resident(q) {
                    assert(mid.frame_owner@[mid.table()[q].frame_index as int] == Some(q));
                    assert(mid.table()[q].frame_index != entry.frame_index);
                    assert(self.table()[q] == mid.table()[q]);
                }
            }
            assert(self.page_bytes(page_id) == new_page@);
        }
        Ok(())
    }

    /// Allocates the next page of the backing file through the page
    /// store. The new page is not pinned.
    pub fn allocate_new_page(&mut self) -> (page_id: usize)
        requires
            old(self).wf(),
        ensures
            final(self).wf(),
            final(self).pool_size() == old(self).pool_size(),
            page_id == old(self).disk().len(),
            final(self).disk() =~= old(self).disk().push(
                crate::disk_management::disk_manager::zero_page(),
            ),
            final(self).table() == old(self).table(),
            final(self).lru() == old(self).lru(),
            final(self).frames() == old(self).frames(),
            forall|q: usize| #[trigger]
                old(self).page_known(q) ==> final(self).page_bytes(q) == old(self).page_bytes(q),
    {
        let page_id = self.file_manager.allocate_new_page();
        proof {
            let pre = old(self);
            assert forall|pid: usize| #[trigger] self.resident(pid) implies {
                &&& self.table()[pid].frame_index < self.frames().len()
                &&& self.frames()[self.table()[pid].frame_index as int] is Some
                &&& self.frame_owner@[self.table()[pid].frame_index as int] == Some(pid)
                &&& (pid as int) < self.disk().len()
                &&& (!self.table()[pid].dirty ==> self.frames()[self.table()[pid].frame_index
                    as int].unwrap()@ == self.disk()[pid as int])
            } by {
                assert(pre.resident(pid));
                assert(self.disk()[pid as int] == pre.disk()[pid as int]);
            }
            assert forall|fi: int|
                0 <= fi < self.frame_owner@.len() && #[trigger] self.frame_owner@[fi]
                    is Some implies {
                &&& self.resident(self.frame_owner@[fi].unwrap())
                &&& self.table()[self.frame_owner@[fi].unwrap()].frame_index == fi
            } by {
                assert(pre.resident(pre.frame_owner@[fi].unwrap()));
            }
            assert forall|fi2: int|
                0 <= fi2 < self.frames().len() && #[trigger] self.frames()[fi2]
                    is Some implies self.frames()[fi2].unwrap().wf() by {
                assert(self.frames()[fi2] == pre.frames()[fi2]);
            }
            assert forall|pid: usize| #[trigger]
                self.lru().dom().contains(pid) implies self.resident(pid) by {
                assert(pre.lru().dom().contains(pid));
                assert(pre.resident(pid));
            }
            assert forall|pid: usize| #[trigger] self.resident(pid) implies (
            self.lru().dom().contains(pid) <==> self.table()[pid].ref_count == 0) by {
                assert(pre.resident(pid));
            }
            assert forall|q: usize| #[trigger]
                pre.page_known(q) implies self.page_bytes(q) == pre.page_bytes(q) by {
                if !pre.resident(q) {
                    assert(self.disk()[q as int] == pre.disk()[q as int]);
                }
            }
        }
        page_id
    }

    /// Allocates a new page and pins it: returns the new page id and its
    /// frame. Fails — with the file still extended — when every frame is
    /// pinned.
    pub fn load_new_page(&mut self) -> (r: Option<(usize, usize)>)
        requires
            old(self).wf(),
        ensures
            final(self).wf(),
            final(self).pool_size() == old(self).pool_size(),
            final(self).disk().len() == old(self).disk().len() + 1,
            match r {
                Some(pair) => {
                    &&& pair.0 == old(self).disk().len()
                    &&& (old(self).has_free_frame() || old(self).has_evictable())
                    &&& final(self).resident(pair.0)
                    &&& final(self).frame_of(pair.0) == pair.1
                    &&& final(self).table()[pair.0].ref_count == 1
                    &&& !final(self).table()[pair.0].dirty
                    &&& final(self).page_bytes(pair.0)
                        == crate::disk_management::disk_manager::zero_page()
                    &&& forall|q: usize| #[trigger]
                        old(self).page_known(q) ==> final(self).page_known(q) && final(self).page_bytes(q) == old(self).page_bytes(q)
                    &&& forall|q: usize|
                        q != pair.0 && #[trigger] old(self).resident(q) && old(self).table()[
                            q
                        ].ref_count > 0 ==> final(self).resident(q)
                },
                None => {
                    &&& final(self).table() == old(self).table()
                    &&& final(self).lru() == old(self).lru()
                    &&& final(self).frames() == old(self).frames()
                    &&& !old(self).has_free_frame() && !old(self).has_evictable()
                },
            },
    {
        let page_id = self.allocate_new_page();
        let ghost mid = *self;
        match self.load_page(page_id) {
            Some(frame_index) => {
                proof {
                    assert(mid.wf());
                    if mid.resident(page_id) {
                        assert(old(self).resident(page_id));
                        assert(false);
                    }
                    assert(mid.disk()[page_id as int]
                        == crate::disk_management::disk_manager::zero_page());
                    assert(mid.page_bytes(page_id)
                        == crate::disk_management::disk_manager::zero_page());
                    assert(mid.has_free_frame() || mid.has_evictable());
                    if mid.has_free_frame() {
                        let fi = choose|fi: int|
                            0 <= fi < mid.frames().len() && (#[trigger] mid.frames()[fi]) is None;
                        assert(old(self).frames()[fi] is None);
                        assert(old(self).has_free_frame());
                    } else {
                        let q = choose|q: usize| #[trigger] mid.lru().dom().contains(q);
                        assert(old(self).lru().dom().contains(q));
                        assert(old(self).has_evictable());
                    }
                    assert forall|q: usize| #[trigger]
                        old(self).page_known(q) implies self.page_bytes(q) == old(self).page_bytes(q) by {
                        assert(mid.page_known(q));
                        assert(mid.page_bytes(q) == old(self).page_bytes(q));
                    }
                    assert forall|q: usize|
                        q != page_id && #[trigger] old(self).resident(q) && old(self).table()[
                            q
                        ].ref_count > 0 implies self.resident(q) by {
                        assert(mid.resident(q));
                        assert(mid.table()[q] == old(self).table()[q]);
                    }
                }
                Some((page_id, frame_index))
            },
            None => {
                proof {
                    assert(mid.wf());
                    if mid.resident(page_id) {
                        assert(old(self).resident(page_id));
                        assert(false);
                    }
                    assert((page_id as int) < mid.disk().len());
                    if old(self).has_free_frame() {
                        let fi = choose|fi: int|
                            0 <= fi < old(self).frames().len() && (#[trigger] old(self).frames()[fi]) is None;
                        assert(mid.frames()[fi] is None);
                        assert(mid.has_free_frame());
                    }
                    if old(self).has_evictable() {
                        let q = choose|q: usize| #[trigger] old(self).lru().dom().contains(q);
                        assert(mid.lru().dom().contains(q));
                        assert(mid.has_evictable());
                    }
                }
                None
            },
        }
    }

    /// Flushes the whole cache: writes every dirty frame through the
    /// page store, then drops every frame, every page-table entry and
    /// every LRU registration. Afterwards the store holds, for every
    /// page, the bytes the cache last saw for it. Outstanding pins are
    /// invalidated; that is the caller's responsibility.
    pub fn unload_all_pages_and_write_to_file(&mut self)
        requires
            old(self).wf(),
        ensures
            final(self).wf(),
            final(self).pool_size() == old(self).pool_size(),
            final(self).table() =~= Map::<usize, PageTableEntry>::empty(),
            final(self).lru() =~= Map::<usize, i64>::empty(),
            forall|fi: int|
                0 <= fi < final(self).pool_size() ==> (#[trigger] final(self).frames()[fi])
                    is None,
            final(self).disk().len() == old(self).disk().len(),
            forall|q: usize| #[trigger]
                old(self).page_known(q) ==> final(self).disk()[q as int] == old(self).page_bytes(
                    q,
                ),
    {
        let ghost pre = *old(self);
        let mut fi: usize = 0;
        while fi < self.data.len()
            invariant
                pre.wf(),
                fi <= self.frames().len(),
                self.frame_owner@.len() == self.frames().len(),
                self.frames().len() == pre.frames().len(),
                self.file_manager.wf(),
                self.lru_replacer == pre.lru_replacer,
                self.disk().len() == pre.disk().len(),
                forall|j: int| 0 <= j < fi ==> (#[trigger] self.frames()[j]) is None,
                forall|j: int| 0 <= j < fi ==> (#[trigger] self.frame_owner@[j]) is None,
                forall|j: int|
                    fi <= j < self.frames().len() ==> (#[trigger] self.frames()[j])
                        == pre.frames()[j],
                forall|j: int|
                    fi <= j < self.frames().len() ==> (#[trigger] self.frame_owner@[j])
                        == pre.frame_owner@[j],
                forall|pid: usize|
                    (#[trigger] self.resident(pid)) <==> (pre.resident(pid) && pre.table()[pid].frame_index >= fi),
                forall|pid: usize| #[trigger]
                    self.resident(pid) ==> self.table()[pid] == pre.table()[pid],
                self.table().dom().finite(),
                forall|q: usize| #[trigger]
                    pre.page_known(q) ==> (q as int) < self.disk().len() && self.disk()[q as int]
                        == (if pre.resident(q) && pre.table()[q].frame_index < fi {
                        pre.page_bytes(q)
                    } else {
                        pre.disk()[q as int]
                    }),
            decreases self.frames().len() - fi,
        {
            let ghost step = *self;
            let owner = self.frame_owner[fi];
            if let Some(pid) = owner {
                proof {
                    assert(self.frame_owner@[fi as int] == pre.frame_owner@[fi as int]);
                    assert(pre.frame_owner@[fi as int] == Some(pid));
                    assert(pre.resident(pid));
                    assert(pre.table()[pid].frame_index == fi);
                    assert(self.resident(pid));
                    assert(self.table()[pid] == pre.table()[pid]);
                    assert(self.frames()[fi as int] == pre.frames()[fi as int]);
                    assert(pre.frames()[fi as int] is Some);
                    assert(pre.page_known(pid));
                    assert((pid as int) < pre.disk().len());
                }
                let entry = *self.page_table.get(&pid).unwrap();
                if entry.dirty {
                    let frame_ref = self.data[fi].as_ref().unwrap();
                    self.file_manager.write_page(pid, frame_ref);
                    proof {
                        assert(self.disk()[pid as int] == pre.frames()[fi as int].unwrap()@);
                    }
                } else {
                    proof {
                        assert(pre.frames()[fi as int].unwrap()@ == pre.disk()[pid as int]);
                        assert(self.disk()[pid as int] == pre.disk()[pid as int]);
                    }
                }
                self.page_table.remove(&pid);
                proof {
                    assert(self.table() == step.table().remove(pid));
                    assert(self.disk()[pid as int] == pre.page_bytes(pid));
                }
            }
            self.data[fi] = None;
            self.frame_owner[fi] = None;
            proof {
                assert forall|j: int|
                    0 <= j < fi + 1 implies (#[trigger] self.frames()[j]) is None by {
                    if j < fi {
                        assert(step.frames()[j] is None);
                    }
                }
                assert forall|j: int|
                    0 <= j < fi + 1 implies (#[trigger] self.frame_owner@[j]) is None by {
                    if j < fi {
                        assert(step.frame_owner@[j] is None);
                    }
                }
                assert forall|j: int|
                    fi + 1 <= j < self.frames().len() implies (#[trigger] self.frames()[j])
                    == pre.frames()[j] by {
                    assert(step.frames()[j] == pre.frames()[j]);
                }
                assert forall|j: int|
                    fi + 1 <= j < self.frames().len() implies (#[trigger] self.frame_owner@[j])
                    == pre.frame_owner@[j] by {
                    assert(step.frame_owner@[j] == pre.frame_owner@[j]);
                }
                assert forall|pid2: usize| #[trigger]
                    self.resident(pid2) implies self.table()[pid2] == pre.table()[pid2] by {
                    assert(step.resident(pid2));
                    assert(step.table()[pid2] == pre.table()[pid2]);
                }
                assert forall|pid2: usize| #[trigger]
                    self.resident(pid2) implies (pre.resident(pid2) && pre.table()[
                    pid2].frame_index >= fi + 1) by {
                    assert(step.resident(pid2));
                    assert(pre.resident(pid2));
                    assert(pre.table()[pid2].frame_index >= fi);
                    if pre.table()[pid2].frame_index == fi {
                        assert(pre.frame_owner@[fi as int] == Some(pid2));
                        assert(owner == Some(pid2));
                        assert(false);
                    }
                }
                assert forall|pid2: usize|
                    pre.resident(pid2) && pre.table()[pid2].frame_index >= fi + 1 implies (
                #[trigger] self.resident(pid2)) by {
                    assert(step.resident(pid2));
                    if owner is Some {
                        assert(pid2 != owner.unwrap());
                    }
                }
                assert forall|q: usize| #[trigger]
                    pre.page_known(q) implies (q as int) < self.disk().len() && self.disk()[
                    q as int] == (if pre.resident(q) && pre.table()[q].frame_index < fi + 1 {
                    pre.page_bytes(q)
                } else {
                    pre.disk()[q as int]
                }) by {
                    if owner is Some && q == owner.unwrap() {
                        assert(self.disk()[q as int] == pre.page_bytes(q));
                    } else {
                        if pre.resident(q) && pre.table()[q].frame_index == fi {
                            assert(pre.frame_owner@[fi as int] == Some(q));
                            assert(false);
                        }
                    }
                }
            }
            fi = fi + 1;
        }
        proof {
            assert forall|pid: usize| !(#[trigger] self.resident(pid)) by {
                if self.resident(pid) {
                    assert(pre.resident(pid));
                    assert(pre.table()[pid].frame_index >= self.frames().len());
                    assert(false);
                }
            }
            assert forall|x: usize| !(#[trigger] self.table().dom().contains(x)) by {
                assert(!self.resident(x));
            }
            assert(self.table().dom() =~= Set::<usize>::empty());
            assert(self.table() =~= Map::<usize, PageTableEntry>::empty());
        }
        self.lru_replacer.drop_all_pages();
        proof {
            assert forall|q: usize| #[trigger]
                pre.page_known(q) implies self.disk()[q as int] == pre.page_bytes(q) by {
                if pre.resident(q) {
                    assert(pre.table()[q].frame_index < pre.frames().len());
                }
            }
        }
    }

    /// A resident page's frame is filled, holds exactly one page of
    /// bytes — the page's current bytes — and the page is backed by the
    /// store.
    pub proof fn lemma_resident_frame(pool: &BufferPool, page_id: usize)
        requires
            pool.wf(),
            pool.resident(page_id),
        ensures
            0 <= pool.frame_of(page_id) < pool.frames().len(),
            pool.frames()[pool.frame_of(page_id)] is Some,
            pool.frames()[pool.frame_of(page_id)].unwrap().wf(),
            pool.page_bytes(page_id) == pool.frames()[pool.frame_of(page_id)].unwrap()@,
            (page_id as int) < pool.disk().len(),
    {
        assert(pool.resident(page_id));
        assert(pool.frames()[pool.frame_of(page_id)] is Some);
    }

    /// Law: a resident page is registered with the LRU replacer as
    /// evictable exactly while its pin count is zero.
    pub proof fn lemma_evictable_iff_unpinned(pool: &BufferPool, page_id: usize)
        requires
            pool.wf(),
            pool.resident(page_id),
        ensures
            pool.lru().dom().contains(page_id) <==> pool.table()[page_id].ref_count == 0,
    {
        assert(pool.resident(page_id));
    }

    /// Law: the page table never holds more pages than the pool has
    /// frames.
    pub proof fn lemma_resident_bounded(pool: &BufferPool)
        requires
            pool.wf(),
        ensures
            pool.table().dom().len() <= pool.pool_size(),
    {
        let s = pool.table().dom();
        let f = |pid: usize| pool.table()[pid].frame_index as int;
        assert forall|x: usize, y: usize|
            s.contains(x) && s.contains(y) && #[trigger] f(x) == #[trigger] f(y) implies x
            == y by {
            assert(pool.resident(x));
            assert(pool.resident(y));
            assert(pool.frame_owner@[f(x)] == Some(x));
            assert(pool.frame_owner@[f(y)] == Some(y));
        }
        assert forall|x: usize| s.contains(x) implies 0 <= #[trigger] f(x)
            < pool.pool_size() by {
            assert(pool.resident(x));
        }
        lemma_injection_bounds_len(s, f, pool.pool_size());
    }

    /// How many pages the page store holds.
    pub fn disk_pages(&self) -> (n: usize)
        ensures
            n == self.disk().len(),
    {
        self.file_manager.num_pages()
    }

    /// The page store underneath the cache, for reading it out whole.
    pub fn disk_manager(&self) -> (r: &DiskManager)
        requires
            self.wf(),
        ensures
            r@ == self.disk(),
            r.wf(),
    {
        &self.file_manager
    }

    /// Law: once the page table holds as many pages as the pool has
    /// frames, no frame is free — each resident page owns a distinct
    /// filled frame. With the pin-iff-not-evictable law this is what
    /// makes a full pool of pinned pages refuse further loads.
    pub proof fn lemma_full_table_no_free_frame(pool: &BufferPool)
        requires
            pool.wf(),
            pool.table().dom().len() >= pool.pool_size(),
        ensures
            !pool.has_free_frame(),
    {
        if pool.has_free_frame() {
            let fi0 = choose|fi: int|
                0 <= fi < pool.frames().len() && (#[trigger] pool.frames()[fi]) is None;
            let s = pool.table().dom();
            let f = |pid: usize|
                if pool.table()[pid].frame_index < fi0 {
                    pool.table()[pid].frame_index as int
                } else {
                    pool.table()[pid].frame_index - 1
                };
            assert forall|x: usize| s.contains(x) implies 0 <= #[trigger] f(x) < pool.pool_size()
                - 1 by {
                assert(pool.resident(x));
                assert(pool.frames()[pool.frame_of(x)] is Some);
                assert(pool.table()[x].frame_index != fi0);
            }
            assert forall|x: usize, y: usize|
                s.contains(x) && s.contains(y) && #[trigger] f(x) == #[trigger] f(y) implies x
                == y by {
                assert(pool.resident(x));
                assert(pool.resident(y));
                assert(pool.frames()[pool.frame_of(x)] is Some);
                assert(pool.frames()[pool.frame_of(y)] is Some);
                assert(pool.table()[x].frame_index != fi0);
                assert(pool.table()[y].frame_index != fi0);
                assert(pool.frame_of(x) == pool.frame_of(y));
                assert(pool.frame_owner@[pool.frame_of(x)] == Some(x));
                assert(pool.frame_owner@[pool.frame_of(y)] == Some(y));
            }
            lemma_injection_bounds_len(s, f, pool.pool_size() - 1);
            assert(false);
        }
    }

    /// The raw page held by a frame, if the frame is filled.
    pub fn get_raw_page(&self, frame_index: usize) -> (r: Option<&RawPage>)
        ensures
            match r {
                Some(p) => frame_index < self.frames().len() && self.frames()[frame_index as int]
                    is Some && p == self.frames()[frame_index as int].unwrap(),
                None => frame_index >= self.frames().len() || self.frames()[frame_index as int]
                    is None,
            },
    {
        if frame_index < self.data.len() {
            self.data[frame_index].as_ref()
        } else {
            None
        }
    }
}

/// A finite set that maps injectively into `[0, n)` holds at most `n`
/// elements.
proof fn lemma_injection_bounds_len(s: Set<usize>, f: spec_fn(usize) -> int, n: int)
    requires
        s.finite(),
        n >= 0,
        forall|x: usize| s.contains(x) ==> 0 <= #[trigger] f(x) < n,
        forall|x: usize, y: usize|
            s.contains(x) && s.contains(y) && #[trigger] f(x) == #[trigger] f(y) ==> x == y,
    ensures
        s.len() <= n,
    decreases n,
{
    if n == 0 {
        assert forall|x: usize| !s.contains(x) by {
            if s.contains(x) {
                assert(0 <= f(x) < n);
            }
        }
        assert(s =~= Set::<usize>::empty());
    } else {
        if exists|x: usize| s.contains(x) && #[trigger] f(x) == n - 1 {
            let x = choose|x: usize| s.contains(x) && #[trigger] f(x) == n - 1;
            let s2 = s.remove(x);
            assert forall|y: usize| s2.contains(y) implies 0 <= #[trigger] f(y) < n - 1 by {
                assert(s.contains(y));
                if f(y) == n - 1 {
                    assert(f(y) == f(x));
                    assert(y == x);
                }
            }
            lemma_injection_bounds_len(s2, f, n - 1);
            assert(s2.len() == s.len() - 1);
        } else {
            assert forall|y: usize| s.contains(y) implies 0 <= #[trigger] f(y) < n - 1 by {
                assert(f(y) < n);
                assert(f(y) != n - 1);
            }
            lemma_injection_bounds_len(s, f, n - 1);
        }
    }
}

} // verus!
