//! The B+ tree index: an ordered key-to-RID map over the buffer cache,
//! with leaf chaining for range scans.

pub mod b_plus_tree_internal_page;
pub mod b_plus_tree_leaf_page;

use vstd::prelude::*;

use crate::b_plus_tree::b_plus_tree_internal_page::{
    spec_decode_internal, spec_route, BPlusTreeInternalPage, INTERNAL_PAGE_TYPE,
};
use crate::b_plus_tree::b_plus_tree_leaf_page::{
    lemma_leaf_round_trip, spec_decode_leaf, BPlusTreeLeafPage, BPlusTreeLeafView, LEAF_PAGE_TYPE,
};
use crate::common::rid::Rid;
use crate::disk_management::buffer_pool::{BufferPool, RawPage};

verus! {

/// One page of the B+ tree, told apart by the type byte at offset four.
pub enum BPlusTreePage {
    InternalPage(BPlusTreeInternalPage),
    LeafPage(BPlusTreeLeafPage),
}

impl BPlusTreePage {
    /// Reads a tree page back from its raw bytes, following the type
    /// byte; fails when the type byte names neither kind or the page
    /// does not decode.
    pub fn from_raw_page(raw_page: &RawPage) -> (r: Option<BPlusTreePage>)
        requires
            raw_page.wf(),
        ensures
            match r {
                Some(p) => match p {
                    BPlusTreePage::LeafPage(leaf) => raw_page@[4] == LEAF_PAGE_TYPE
                        && spec_decode_leaf(raw_page@) == Some(leaf@) && leaf@.wf(),
                    BPlusTreePage::InternalPage(ip) => raw_page@[4] == INTERNAL_PAGE_TYPE
                        && spec_decode_internal(raw_page@) == Some(ip@) && ip@.wf(),
                },
                None => (raw_page@[4] == LEAF_PAGE_TYPE && spec_decode_leaf(raw_page@) is None)
                    || (raw_page@[4] == INTERNAL_PAGE_TYPE && spec_decode_internal(raw_page@)
                    is None) || (raw_page@[4] != LEAF_PAGE_TYPE && raw_page@[4]
                    != INTERNAL_PAGE_TYPE),
            },
    {
        let type_byte = crate::common::codec::get_u8(&raw_page.data, 4);
        if type_byte == LEAF_PAGE_TYPE {
            match BPlusTreeLeafPage::from_raw_page(raw_page) {
                Some(leaf) => Some(BPlusTreePage::LeafPage(leaf)),
                None => None,
            }
        } else if type_byte == INTERNAL_PAGE_TYPE {
            match BPlusTreeInternalPage::from_raw_page(raw_page) {
                Some(ip) => Some(BPlusTreePage::InternalPage(ip)),
                None => None,
            }
        } else {
            None
        }
    }
}

/// Decodes a tree page out of its pinned frame.
fn read_tree_page(pool: &BufferPool, pid: usize, frame: usize) -> (r: Option<BPlusTreePage>)
    requires
        pool.wf(),
        pool.resident(pid),
        frame == pool.frame_of(pid),
    ensures
        match r {
            Some(p) => match p {
                BPlusTreePage::LeafPage(leaf) => pool.page_bytes(pid)[4] == LEAF_PAGE_TYPE
                    && spec_decode_leaf(pool.page_bytes(pid)) == Some(leaf@) && leaf@.wf(),
                BPlusTreePage::InternalPage(ip) => pool.page_bytes(pid)[4] == INTERNAL_PAGE_TYPE
                    && spec_decode_internal(pool.page_bytes(pid)) == Some(ip@) && ip@.wf(),
            },
            None => (pool.page_bytes(pid)[4] == LEAF_PAGE_TYPE && spec_decode_leaf(
                pool.page_bytes(pid),
            ) is None) || (pool.page_bytes(pid)[4] == INTERNAL_PAGE_TYPE && spec_decode_internal(
                pool.page_bytes(pid),
            ) is None) || (pool.page_bytes(pid)[4] != LEAF_PAGE_TYPE && pool.page_bytes(pid)[4]
                != INTERNAL_PAGE_TYPE),
        },
{
    proof {
        BufferPool::lemma_resident_frame(pool, pid);
    }
    match pool.get_raw_page(frame) {
        Some(raw) => {
            proof {
                assert(raw.wf());
                assert(raw@ == pool.page_bytes(pid));
            }
            BPlusTreePage::from_raw_page(raw)
        },
        None => {
            proof {
                assert(false);
            }
            None
        },
    }
}

/// The routing walk over one state of the pages: from a page, a leaf is
/// the destination; an internal page routes the key onward; anything
/// else — an unknown page, a page that does not decode, an empty
/// internal page, or running out of fuel — ends the walk with nothing.
pub open spec fn spec_tree_walk(pool: BufferPool, pid: usize, key: u32, fuel: nat) -> Option<
    BPlusTreeLeafView,
>
    decreases fuel,
{
    if fuel == 0 || !pool.page_known(pid) {
        None
    } else {
        let bytes = pool.page_bytes(pid);
        if bytes[4] == LEAF_PAGE_TYPE {
            spec_decode_leaf(bytes)
        } else if bytes[4] == INTERNAL_PAGE_TYPE {
            match spec_decode_internal(bytes) {
                Some(ip) => if ip.key_page_pairs.len() >= 1 {
                    spec_tree_walk(
                        pool,
                        spec_route(ip.key_page_pairs, key) as usize,
                        key,
                        (fuel - 1) as nat,
                    )
                } else {
                    None
                },
                None => None,
            }
        } else {
            None
        }
    }
}

/// The page the routing walk ends on: the leaf page itself, reached by
/// the same routing as `spec_tree_walk`; what that page decodes to is
/// what the walk hands back.
pub open spec fn spec_tree_walk_pid(pool: BufferPool, pid: usize, key: u32, fuel: nat) -> Option<
    usize,
>
    decreases fuel,
{
    if fuel == 0 || !pool.page_known(pid) {
        None
    } else {
        let bytes = pool.page_bytes(pid);
        if bytes[4] == LEAF_PAGE_TYPE {
            if spec_decode_leaf(bytes) is Some {
                Some(pid)
            } else {
                None
            }
        } else if bytes[4] == INTERNAL_PAGE_TYPE {
            match spec_decode_internal(bytes) {
                Some(ip) => if ip.key_page_pairs.len() >= 1 {
                    spec_tree_walk_pid(
                        pool,
                        spec_route(ip.key_page_pairs, key) as usize,
                        key,
                        (fuel - 1) as nat,
                    )
                } else {
                    None
                },
                None => None,
            }
        } else {
            None
        }
    }
}

/// The walk to the leftmost leaf: as the routing walk, but always
/// through the first child.
pub open spec fn spec_leftmost_walk(pool: BufferPool, pid: usize, fuel: nat) -> Option<
    BPlusTreeLeafView,
>
    decreases fuel,
{
    if fuel == 0 || !pool.page_known(pid) {
        None
    } else {
        let bytes = pool.page_bytes(pid);
        if bytes[4] == LEAF_PAGE_TYPE {
            spec_decode_leaf(bytes)
        } else if bytes[4] == INTERNAL_PAGE_TYPE {
            match spec_decode_internal(bytes) {
                Some(ip) => if ip.key_page_pairs.len() >= 1 {
                    spec_leftmost_walk(pool, ip.key_page_pairs[0].1 as usize, (fuel - 1) as nat)
                } else {
                    None
                },
                None => None,
            }
        } else {
            None
        }
    }
}

/// One B+ tree index: everything it owns lives in pages under the
/// buffer cache; the handle keeps only where the root page is.
pub struct BPlusTreeIndex {
    pub root_pid: u32,
}

impl BPlusTreeIndex {
    /// An index handle over an existing root page.
    pub fn new(root_pid: u32) -> (r: BPlusTreeIndex)
        ensures
            r.root_pid == root_pid,
    {
        BPlusTreeIndex { root_pid }
    }

    /// Walks from the root to the leaf that may hold the key, routing
    /// through internal pages and pinning each page only while reading
    /// it. The leaf handed back is exactly what the routing walk over
    /// the old state reaches; the walk fails only where the spec walk
    /// ends with nothing or the pool has no room to pin.
    fn get_leaf_of(&self, pool: &mut BufferPool, key: u32) -> (r: Option<
        (BPlusTreeLeafPage, usize),
    >)
        requires
            old(pool).wf(),
        ensures
            final(pool).wf(),
            final(pool).pool_size() == old(pool).pool_size(),
            final(pool).disk().len() == old(pool).disk().len(),
            forall|q: usize| #[trigger]
                old(pool).page_known(q) ==> final(pool).page_known(q) && final(pool).page_bytes(q)
                    == old(pool).page_bytes(q),
            old(pool).one_pin_roomy() ==> final(pool).one_pin_roomy(),
            match r {
                Some(found) => found.0@.wf() && spec_tree_walk(
                    *old(pool),
                    self.root_pid as usize,
                    key,
                    old(pool).disk().len() as nat,
                ) == Some(found.0@) && spec_tree_walk_pid(
                    *old(pool),
                    self.root_pid as usize,
                    key,
                    old(pool).disk().len() as nat,
                ) == Some(found.1) && old(pool).page_known(found.1) && spec_decode_leaf(
                    old(pool).page_bytes(found.1),
                ) == Some(found.0@),
                None => spec_tree_walk(
                    *old(pool),
                    self.root_pid as usize,
                    key,
                    old(pool).disk().len() as nat,
                ) is None || !old(pool).one_pin_roomy(),
            },
    {
        let mut current_pid = self.root_pid as usize;
        let mut fuel = pool.disk_pages();
        let ghost n0 = old(pool).disk().len() as nat;
        let ghost roomy = old(pool).one_pin_roomy();
        while fuel > 0
            invariant
                pool.wf(),
                pool.pool_size() == old(pool).pool_size(),
                pool.disk().len() == old(pool).disk().len(),
                n0 == old(pool).disk().len() as nat,
                roomy == old(pool).one_pin_roomy(),
                fuel <= n0,
                forall|q: usize| #[trigger]
                    old(pool).page_known(q) ==> pool.page_known(q) && pool.page_bytes(q) == old(
                        pool,
                    ).page_bytes(q),
                forall|q: usize| #[trigger] pool.resident(q) ==> old(pool).page_known(q),
                roomy ==> pool.one_pin_roomy(),
                spec_tree_walk(*old(pool), self.root_pid as usize, key, n0) == spec_tree_walk(
                    *old(pool),
                    current_pid,
                    key,
                    fuel as nat,
                ),
                spec_tree_walk_pid(*old(pool), self.root_pid as usize, key, n0)
                    == spec_tree_walk_pid(*old(pool), current_pid, key, fuel as nat),
            decreases fuel,
        {
            let ghost p0 = *pool;
            let frame = match pool.load_page(current_pid) {
                Some(f) => f,
                None => {
                    proof {
                        if roomy {
                            if p0.resident(current_pid) {
                                assert(p0.table()[current_pid].ref_count < usize::MAX);
                                assert(false);
                            } else {
                                if (current_pid as int) < p0.disk().len() {
                                    assert(!p0.has_free_frame() && !p0.has_evictable());
                                    assert(false);
                                }
                                assert(!old(pool).page_known(current_pid)) by {
                                    if old(pool).resident(current_pid) {
                                        BufferPool::lemma_resident_frame(
                                            &*old(pool),
                                            current_pid,
                                        );
                                        assert(false);
                                    }
                                }
                                assert(spec_tree_walk(
                                    *old(pool),
                                    current_pid,
                                    key,
                                    fuel as nat,
                                ) is None);
                                assert(spec_tree_walk_pid(
                                    *old(pool),
                                    current_pid,
                                    key,
                                    fuel as nat,
                                ) is None);
                            }
                            if p0.has_free_frame() {
                                let fi = choose|fi: int|
                                    0 <= fi < p0.frames().len() && (#[trigger] p0.frames()[fi])
                                        is None;
                                assert(pool.frames()[fi] is None);
                            } else {
                                let k = choose|k: usize| #[trigger] p0.lru().dom().contains(k);
                                assert(pool.lru().dom().contains(k));
                            }
                            assert forall|q: usize| #[trigger]
                                pool.resident(q) implies pool.table()[q].ref_count
                                < usize::MAX by {
                                assert(p0.resident(q) && p0.table()[q] == pool.table()[q]);
                            }
                            assert(pool.one_pin_roomy());
                        }
                    }
                    return None;
                },
            };
            let ghost p1 = *pool;
            proof {
                assert(p0.page_known(current_pid));
                if p0.resident(current_pid) {
                    assert(old(pool).page_known(current_pid));
                } else {
                    assert((current_pid as int) < old(pool).disk().len());
                }
                assert(old(pool).page_known(current_pid));
                assert(p0.page_bytes(current_pid) == old(pool).page_bytes(current_pid));
                assert(p1.page_bytes(current_pid) == p0.page_bytes(current_pid));
            }
            let page = read_tree_page(pool, current_pid, frame);
            let ghost walk_here = spec_tree_walk(*old(pool), current_pid, key, fuel as nat);
            let ghost walk_pid_here = spec_tree_walk_pid(*old(pool), current_pid, key, fuel as nat);
            match pool.unload_page_id(current_pid) {
                Ok(u) => (),
                Err(e) => {
                    proof {
                        assert(false);
                    }
                    return None;
                },
            };
            proof {
                assert forall|q: usize| #[trigger]
                    old(pool).page_known(q) implies pool.page_known(q) && pool.page_bytes(q)
                    == old(pool).page_bytes(q) by {
                    assert(p0.page_known(q) && p0.page_bytes(q) == old(pool).page_bytes(q));
                    assert(p1.page_known(q) && p1.page_bytes(q) == p0.page_bytes(q));
                }
                assert forall|q: usize| #[trigger]
                    pool.resident(q) implies old(pool).page_known(q) by {
                    assert(p1.resident(q));
                    if q != current_pid {
                        assert(p0.resident(q));
                    }
                }
                if roomy {
                    assert(p0.one_pin_roomy());
                    if p0.resident(current_pid) && p0.table()[current_pid].ref_count >= 1 {
                        assert(p1.table()[current_pid].ref_count >= 2);
                        assert(p1.frames() == p0.frames());
                        assert(pool.frames() == p1.frames());
                        assert(pool.lru() == p1.lru());
                        if p0.has_free_frame() {
                            let fi = choose|fi: int|
                                0 <= fi < p0.frames().len() && (#[trigger] p0.frames()[fi])
                                    is None;
                            assert(pool.frames()[fi] is None);
                            assert(pool.has_free_frame());
                        } else {
                            let k = choose|k: usize| #[trigger] p0.lru().dom().contains(k);
                            BufferPool::lemma_evictable_iff_unpinned(&p0, current_pid);
                            assert(k != current_pid);
                            assert(p1.lru().dom().contains(k));
                            assert(pool.has_evictable());
                        }
                    } else {
                        assert(p1.table()[current_pid].ref_count == 1);
                        assert(pool.lru().dom() =~= p1.lru().dom().insert(current_pid));
                        assert(pool.lru().dom().contains(current_pid));
                        assert(pool.has_evictable());
                    }
                    assert forall|q: usize| #[trigger]
                        pool.resident(q) implies pool.table()[q].ref_count < usize::MAX by {
                        if q != current_pid {
                            assert(p1.resident(q) && p1.table()[q] == pool.table()[q]);
                            assert(p0.resident(q) && p0.table()[q] == p1.table()[q]);
                        } else {
                            if p0.resident(q) {
                                assert(pool.table()[q].ref_count == p0.table()[q].ref_count);
                            } else {
                                assert(pool.table()[q].ref_count == 0);
                            }
                        }
                    }
                    assert(pool.one_pin_roomy());
                }
            }
            match page {
                Some(BPlusTreePage::LeafPage(leaf)) => {
                    proof {
                        assert(spec_decode_leaf(old(pool).page_bytes(current_pid)) == Some(
                            leaf@,
                        ));
                        assert(old(pool).page_bytes(current_pid)[4] == LEAF_PAGE_TYPE);
                        assert(walk_here == Some(leaf@));
                        assert(walk_pid_here == Some(current_pid));
                    }
                    return Some((leaf, current_pid));
                },
                Some(BPlusTreePage::InternalPage(ip)) => {
                    let next_pid = match ip.get_first_child() {
                        Some(child) => ip.get_child_node(key),
                        None => {
                            proof {
                                assert(spec_decode_internal(old(pool).page_bytes(current_pid))
                                    == Some(ip@));
                                assert(walk_here is None);
                                assert(walk_pid_here is None);
                            }
                            return None;
                        },
                    };
                    proof {
                        assert(spec_decode_internal(old(pool).page_bytes(current_pid)) == Some(
                            ip@,
                        ));
                        assert(old(pool).page_bytes(current_pid)[4] == INTERNAL_PAGE_TYPE);
                        assert(walk_here == spec_tree_walk(
                            *old(pool),
                            spec_route(ip@.key_page_pairs, key) as usize,
                            key,
                            (fuel - 1) as nat,
                        ));
                        assert(walk_pid_here == spec_tree_walk_pid(
                            *old(pool),
                            spec_route(ip@.key_page_pairs, key) as usize,
                            key,
                            (fuel - 1) as nat,
                        ));
                    }
                    current_pid = next_pid as usize;
                },
                None => {
                    proof {
                        assert(walk_here is None);
                        assert(walk_pid_here is None);
                    }
                    return None;
                },
            }
            fuel = fuel - 1;
        }
        None
    }

    /// Searches for a key: walks to its leaf and scans it. A returned
    /// RID is the one the routing walk's leaf pairs with the key, and a
    /// `Some` is owed whenever the walk reaches a leaf holding the key
    /// and the pool has room to pin.
    pub fn search(&self, key: u32, pool: &mut BufferPool) -> (r: Option<Rid>)
        requires
            old(pool).wf(),
        ensures
            final(pool).wf(),
            final(pool).pool_size() == old(pool).pool_size(),
            final(pool).disk().len() == old(pool).disk().len(),
            forall|q: usize| #[trigger]
                old(pool).page_known(q) ==> final(pool).page_known(q) && final(pool).page_bytes(q)
                    == old(pool).page_bytes(q),
            match r {
                Some(rid) => ({
                    let walked = spec_tree_walk(
                        *old(pool),
                        self.root_pid as usize,
                        key,
                        old(pool).disk().len() as nat,
                    );
                    &&& walked is Some
                    &&& exists|i: int|
                        0 <= i < walked.unwrap().keys.len() && walked.unwrap().keys[i] == key && (
                        #[trigger] walked.unwrap().rids[i]) == rid
                }),
                None => ({
                    let walked = spec_tree_walk(
                        *old(pool),
                        self.root_pid as usize,
                        key,
                        old(pool).disk().len() as nat,
                    );
                    (old(pool).one_pin_roomy() && walked is Some) ==> forall|i: int|
                        0 <= i < walked.unwrap().keys.len() ==> (#[trigger] walked.unwrap().keys[
                        i]) != key
                }),
            },
    {
        let leaf = match self.get_leaf_of(pool, key) {
            Some(found) => found.0,
            None => {
                return None;
            },
        };
        match leaf.get_rid_of(key) {
            Some(rid) => {
                let found = *rid;
                proof {
                    let i = choose|i: int|
                        0 <= i < leaf@.keys.len() && leaf@.keys[i] == key && leaf@.rids[i]
                            == found;
                    let walked = spec_tree_walk(
                        *old(pool),
                        self.root_pid as usize,
                        key,
                        old(pool).disk().len() as nat,
                    );
                    assert(walked.unwrap().keys[i] == key);
                    assert(walked.unwrap().rids[i] == found);
                }
                Some(found)
            },
            None => None,
        }
    }

    /// Inserts a key-RID pair: walks to the key's leaf, places the pair
    /// at its ordered position, and writes the leaf back under its own
    /// page id. After success that page decodes to the walk's leaf with
    /// the pair inserted, and no other page changed. Success is owed
    /// whenever the walk reaches a leaf with room whose recorded page id
    /// exists and the pool has room to pin; a full leaf is reported, not
    /// grown.
    pub fn insert(&mut self, key: u32, rid: Rid, pool: &mut BufferPool) -> (r: Option<()>)
        requires
            old(pool).wf(),
        ensures
            final(pool).wf(),
            final(pool).pool_size() == old(pool).pool_size(),
            ({
                let walked = spec_tree_walk(
                    *old(pool),
                    old(self).root_pid as usize,
                    key,
                    old(pool).disk().len() as nat,
                );
                (old(pool).one_pin_roomy() && walked is Some && walked.unwrap().current_size
                    < walked.unwrap().max_size) ==> r is Some
            }),
            match r {
                Some(u) => ({
                    let walked = spec_tree_walk(
                        *old(pool),
                        old(self).root_pid as usize,
                        key,
                        old(pool).disk().len() as nat,
                    );
                    let reached = spec_tree_walk_pid(
                        *old(pool),
                        old(self).root_pid as usize,
                        key,
                        old(pool).disk().len() as nat,
                    );
                    &&& walked is Some
                    &&& reached is Some
                    &&& exists|pos: int|
                        #![auto]
                        {
                            &&& 0 <= pos <= walked.unwrap().keys.len()
                            &&& (forall|j: int| 0 <= j < pos ==> walked.unwrap().keys[j] < key)
                            &&& (pos < walked.unwrap().keys.len() ==> walked.unwrap().keys[pos]
                                >= key)
                            &&& spec_decode_leaf(final(pool).page_bytes(reached.unwrap()))
                                == Some(
                                BPlusTreeLeafView {
                                    current_size: (walked.unwrap().current_size + 1) as u32,
                                    keys: walked.unwrap().keys.insert(pos, key),
                                    rids: walked.unwrap().rids.insert(pos, rid),
                                    ..walked.unwrap()
                                },
                            )
                        }
                    &&& forall|q: usize|
                        q != reached.unwrap() && #[trigger] old(pool).page_known(q) ==> final(pool).page_known(q) && final(pool).page_bytes(q) == old(pool).page_bytes(q)
                }),
                None => true,
            },
    {
        let (mut leaf, reached_pid) = match self.get_leaf_of(pool, key) {
            Some(found) => found,
            None => {
                return None;
            },
        };
        let ghost w = *pool;
        let ghost pre_leaf = leaf@;
        let pos = match leaf.insert(key, rid) {
            Some(p) => p,
            None => {
                return None;
            },
        };
        let ghost leaf_view = leaf@;
        let raw = match leaf.to_raw_page() {
            Some(raw) => raw,
            None => {
                return None;
            },
        };
        proof {
            assert(old(pool).page_known(reached_pid));
            assert(w.page_known(reached_pid));
        }
        match pool.load_page(reached_pid) {
            Some(frame) => (),
            None => {
                proof {
                    if old(pool).one_pin_roomy() {
                        assert(w.one_pin_roomy());
                        assert(false);
                    }
                }
                return None;
            },
        };
        let ghost l1 = *pool;
        match pool.update_page(reached_pid, raw) {
            Ok(u) => (),
            Err(e) => {
                proof {
                    assert(false);
                }
                return None;
            },
        };
        let ghost s1 = *pool;
        match pool.unload_page_id(reached_pid) {
            Ok(u) => (),
            Err(e) => {
                proof {
                    assert(false);
                }
                return None;
            },
        };
        proof {
            lemma_leaf_round_trip(leaf_view);
            assert(s1.page_bytes(reached_pid) == raw@);
            assert(s1.page_known(reached_pid));
            assert(pool.page_bytes(reached_pid) == s1.page_bytes(reached_pid));
            assert(spec_decode_leaf(pool.page_bytes(reached_pid)) == Some(leaf_view));
            let walked = spec_tree_walk(
                *old(pool),
                old(self).root_pid as usize,
                key,
                old(pool).disk().len() as nat,
            );
            let reached = spec_tree_walk_pid(
                *old(pool),
                old(self).root_pid as usize,
                key,
                old(pool).disk().len() as nat,
            );
            assert(walked == Some(pre_leaf));
            assert(reached == Some(reached_pid));
            assert(0 <= pos <= pre_leaf.keys.len());
            assert(leaf_view == (BPlusTreeLeafView {
                current_size: (pre_leaf.current_size + 1) as u32,
                keys: pre_leaf.keys.insert(pos as int, key),
                rids: pre_leaf.rids.insert(pos as int, rid),
                ..pre_leaf
            }));
            assert(spec_decode_leaf(pool.page_bytes(reached.unwrap())) == Some(
                BPlusTreeLeafView {
                    current_size: (walked.unwrap().current_size + 1) as u32,
                    keys: walked.unwrap().keys.insert(pos as int, key),
                    rids: walked.unwrap().rids.insert(pos as int, rid),
                    ..walked.unwrap()
                },
            ));
            assert(0 <= (pos as int) <= walked.unwrap().keys.len());
            assert(forall|j: int| 0 <= j < (pos as int) ==> walked.unwrap().keys[j] < key);
            assert((pos as int) < walked.unwrap().keys.len() ==> walked.unwrap().keys[
                pos as int
            ] >= key);
            assert forall|q: usize|
                q != reached_pid && #[trigger] old(pool).page_known(q) implies pool.page_known(q) && pool.page_bytes(q) == old(pool).page_bytes(q) by {
                assert(w.page_known(q) && w.page_bytes(q) == old(pool).page_bytes(q));
                assert(l1.page_known(q) && l1.page_bytes(q) == w.page_bytes(q));
                assert(s1.page_known(q) && s1.page_bytes(q) == l1.page_bytes(q));
            }
        }
        Some(())
    }

    /// Walks to the leftmost leaf: the start of a full range scan along
    /// the leaf chain. The leaf handed back is exactly what the
    /// leftmost walk over the old state reaches; the walk fails only
    /// where the spec walk ends with nothing or the pool has no room to
    /// pin.
    pub fn get_first_leaf(&self, pool: &mut BufferPool) -> (r: Option<BPlusTreeLeafPage>)
        requires
            old(pool).wf(),
        ensures
            final(pool).wf(),
            final(pool).pool_size() == old(pool).pool_size(),
            final(pool).disk().len() == old(pool).disk().len(),
            forall|q: usize| #[trigger]
                old(pool).page_known(q) ==> final(pool).page_known(q) && final(pool).page_bytes(q)
                    == old(pool).page_bytes(q),
            match r {
                Some(leaf) => leaf@.wf() && spec_leftmost_walk(
                    *old(pool),
                    self.root_pid as usize,
                    old(pool).disk().len() as nat,
                ) == Some(leaf@),
                None => spec_leftmost_walk(
                    *old(pool),
                    self.root_pid as usize,
                    old(pool).disk().len() as nat,
                ) is None || !old(pool).one_pin_roomy(),
            },
    {
        let mut current_pid = self.root_pid as usize;
        let mut fuel = pool.disk_pages();
        let ghost n0 = old(pool).disk().len() as nat;
        let ghost roomy = old(pool).one_pin_roomy();
        while fuel > 0
            invariant
                pool.wf(),
                pool.pool_size() == old(pool).pool_size(),
                pool.disk().len() == old(pool).disk().len(),
                n0 == old(pool).disk().len() as nat,
                roomy == old(pool).one_pin_roomy(),
                fuel <= n0,
                forall|q: usize| #[trigger]
                    old(pool).page_known(q) ==> pool.page_known(q) && pool.page_bytes(q) == old(
                        pool,
                    ).page_bytes(q),
                forall|q: usize| #[trigger] pool.resident(q) ==> old(pool).page_known(q),
                roomy ==> pool.one_pin_roomy(),
                spec_leftmost_walk(*old(pool), self.root_pid as usize, n0) == spec_leftmost_walk(
                    *old(pool),
                    current_pid,
                    fuel as nat,
                ),
            decreases fuel,
        {
            let ghost p0 = *pool;
            let frame = match pool.load_page(current_pid) {
                Some(f) => f,
                None => {
                    proof {
                        if roomy {
                            if p0.resident(current_pid) {
                                assert(p0.table()[current_pid].ref_count < usize::MAX);
                                assert(false);
                            } else {
                                if (current_pid as int) < p0.disk().len() {
                                    assert(!p0.has_free_frame() && !p0.has_evictable());
                                    assert(false);
                                }
                                assert(!old(pool).page_known(current_pid)) by {
                                    if old(pool).resident(current_pid) {
                                        BufferPool::lemma_resident_frame(
                                            &*old(pool),
                                            current_pid,
                                        );
                                        assert(false);
                                    }
                                }
                                assert(spec_leftmost_walk(
                                    *old(pool),
                                    current_pid,
                                    fuel as nat,
                                ) is None);
                            }
                            if p0.has_free_frame() {
                                let fi = choose|fi: int|
                                    0 <= fi < p0.frames().len() && (#[trigger] p0.frames()[fi])
                                        is None;
                                assert(pool.frames()[fi] is None);
                            } else {
                                let k = choose|k: usize| #[trigger] p0.lru().dom().contains(k);
                                assert(pool.lru().dom().contains(k));
                            }
                            assert forall|q: usize| #[trigger]
                                pool.resident(q) implies pool.table()[q].ref_count
                                < usize::MAX by {
                                assert(p0.resident(q) && p0.table()[q] == pool.table()[q]);
                            }
                            assert(pool.one_pin_roomy());
                        }
                    }
                    return None;
                },
            };
            let ghost p1 = *pool;
            proof {
                assert(p0.page_known(current_pid));
                if p0.resident(current_pid) {
                    assert(old(pool).page_known(current_pid));
                } else {
                    assert((current_pid as int) < old(pool).disk().len());
                }
                assert(old(pool).page_known(current_pid));
                assert(p0.page_bytes(current_pid) == old(pool).page_bytes(current_pid));
                assert(p1.page_bytes(current_pid) == p0.page_bytes(current_pid));
            }
            let page = read_tree_page(pool, current_pid, frame);
            let ghost walk_here = spec_leftmost_walk(*old(pool), current_pid, fuel as nat);
            match pool.unload_page_id(current_pid) {
                Ok(u) => (),
                Err(e) => {
                    proof {
                        assert(false);
                    }
                    return None;
                },
            };
            proof {
                assert forall|q: usize| #[trigger]
                    old(pool).page_known(q) implies pool.page_known(q) && pool.page_bytes(q)
                    == old(pool).page_bytes(q) by {
                    assert(p0.page_known(q) && p0.page_bytes(q) == old(pool).page_bytes(q));
                    assert(p1.page_known(q) && p1.page_bytes(q) == p0.page_bytes(q));
                }
                assert forall|q: usize| #[trigger]
                    pool.resident(q) implies old(pool).page_known(q) by {
                    assert(p1.resident(q));
                    if q != current_pid {
                        assert(p0.resident(q));
                    }
                }
                if roomy {
                    assert(p0.one_pin_roomy());
                    if p0.resident(current_pid) && p0.table()[current_pid].ref_count >= 1 {
                        assert(p1.table()[current_pid].ref_count >= 2);
                        assert(p1.frames() == p0.frames());
                        assert(pool.frames() == p1.frames());
                        assert(pool.lru() == p1.lru());
                        if p0.has_free_frame() {
                            let fi = choose|fi: int|
                                0 <= fi < p0.frames().len() && (#[trigger] p0.frames()[fi])
                                    is None;
                            assert(pool.frames()[fi] is None);
                            assert(pool.has_free_frame());
                        } else {
                            let k = choose|k: usize| #[trigger] p0.lru().dom().contains(k);
                            BufferPool::lemma_evictable_iff_unpinned(&p0, current_pid);
                            assert(k != current_pid);
                            assert(p1.lru().dom().contains(k));
                            assert(pool.has_evictable());
                        }
                    } else {
                        assert(p1.table()[current_pid].ref_count == 1);
                        assert(pool.lru().dom() =~= p1.lru().dom().insert(current_pid));
                        assert(pool.lru().dom().contains(current_pid));
                        assert(pool.has_evictable());
                    }
                    assert forall|q: usize| #[trigger]
                        pool.resident(q) implies pool.table()[q].ref_count < usize::MAX by {
                        if q != current_pid {
                            assert(p1.resident(q) && p1.table()[q] == pool.table()[q]);
                            assert(p0.resident(q) && p0.table()[q] == p1.table()[q]);
                        } else {
                            if p0.resident(q) {
                                assert(pool.table()[q].ref_count == p0.table()[q].ref_count);
                            } else {
                                assert(pool.table()[q].ref_count == 0);
                            }
                        }
                    }
                    assert(pool.one_pin_roomy());
                }
            }
            match page {
                Some(BPlusTreePage::LeafPage(leaf)) => {
                    proof {
                        assert(spec_decode_leaf(old(pool).page_bytes(current_pid)) == Some(
                            leaf@,
                        ));
                        assert(old(pool).page_bytes(current_pid)[4] == LEAF_PAGE_TYPE);
                        assert(walk_here == Some(leaf@));
                    }
                    return Some(leaf);
                },
                Some(BPlusTreePage::InternalPage(ip)) => {
                    let next_pid = match ip.get_first_child() {
                        Some(child) => child,
                        None => {
                            proof {
                                assert(spec_decode_internal(old(pool).page_bytes(current_pid))
                                    == Some(ip@));
                                assert(walk_here is None);
                            }
                            return None;
                        },
                    };
                    proof {
                        assert(spec_decode_internal(old(pool).page_bytes(current_pid)) == Some(
                            ip@,
                        ));
                        assert(old(pool).page_bytes(current_pid)[4] == INTERNAL_PAGE_TYPE);
                        assert(walk_here == spec_leftmost_walk(
                            *old(pool),
                            ip@.key_page_pairs[0].1 as usize,
                            (fuel - 1) as nat,
                        ));
                    }
                    current_pid = next_pid as usize;
                },
                None => {
                    proof {
                        assert(walk_here is None);
                    }
                    return None;
                },
            }
            fuel = fuel - 1;
        }
        None
    }
}

} // verus!
