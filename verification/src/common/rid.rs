//! Row identifiers: a `(page_id, slot_id)` pair pointing into a heap page.

use vstd::prelude::*;

verus! {

/// The number of bytes a `Rid` occupies on a page: two little-endian `u32`s.
pub const RID_SIZE: usize = 8;

/// A row identifier: which heap page a tuple lives on, and which slot
/// of that page holds it. Opaque to the indexes that store it.
#[derive(Copy, Clone, Debug, PartialEq, Eq, Structural)]
pub struct Rid {
    pub page_id: u32,
    pub slot_id: u32,
}

impl Rid {
    pub fn new(page_id: u32, slot_id: u32) -> (r: Rid)
        ensures
            r.page_id == page_id,
            r.slot_id == slot_id,
    {
        Rid { page_id, slot_id }
    }
}

} // verus!
