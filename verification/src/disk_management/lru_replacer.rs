//! The eviction policy: the set of evictable page ids, each stamped with
//! the time it became evictable; the pool evicts the oldest stamp first.
//!
//! The set is kept in a priority queue from an outside crate, ordered by
//! `Reverse` of the stamp so that popping the greatest priority yields
//! the smallest stamp. The queue is reached only through the trusted
//! wrappers below; everything above them is verified.

use priority_queue::PriorityQueue;
use std::cmp::Reverse;
use vstd::prelude::*;

verus! {

#[verifier::external_type_specification]
#[verifier::external_body]
#[verifier::reject_recursive_types(I)]
#[verifier::reject_recursive_types(P)]
#[verifier::reject_recursive_types(H)]
pub struct ExPriorityQueue<I, P, H>(PriorityQueue<I, P, H>);

#[verifier::external_type_specification]
pub struct ExReverse<T>(Reverse<T>);

/// What the queue holds: each stored page id with its stamp.
pub uninterp spec fn queue_entries(
    q: &PriorityQueue<usize, Reverse<i64>>,
) -> Map<usize, i64>;

/// Relies on PriorityQueue::with_capacity: a fresh queue is empty.
#[verifier::external_body]
fn queue_with_capacity(capacity: usize) -> (q: PriorityQueue<usize, Reverse<i64>>)
    ensures
        queue_entries(&q).dom().len() == 0 && queue_entries(&q).dom().finite(),
{
    PriorityQueue::with_capacity(capacity)
}

/// Relies on PriorityQueue::len: the number of stored pairs, which is the
/// size of the queue's (always finite) contents.
#[verifier::external_body]
fn queue_len(q: &PriorityQueue<usize, Reverse<i64>>) -> (n: usize)
    ensures
        n == queue_entries(q).dom().len(),
{
    q.len()
}

/// Relies on PriorityQueue::push: inserts the pair, or replaces the
/// priority of an item already present.
#[verifier::external_body]
fn queue_push(q: &mut PriorityQueue<usize, Reverse<i64>>, item: usize, stamp: i64)
    ensures
        queue_entries(final(q)) == queue_entries(old(q)).insert(item, stamp),
{
    q.push(item, Reverse(stamp));
}

/// Relies on PriorityQueue::remove: removes the pair of the given item if
/// present and returns it, leaving the rest unchanged.
#[verifier::external_body]
fn queue_remove(q: &mut PriorityQueue<usize, Reverse<i64>>, item: usize) -> (r: Option<
    (usize, i64),
>)
    ensures
        match r {
            Some(pair) => queue_entries(old(q)).dom().contains(item) && pair.0 == item
                && pair.1 == queue_entries(old(q))[item] && queue_entries(final(q))
                == queue_entries(old(q)).remove(item),
            None => !queue_entries(old(q)).dom().contains(item) && queue_entries(final(q))
                == queue_entries(old(q)),
        },
{
    q.remove(&item).map(|pair| (pair.0, pair.1.0))
}

/// Relies on PriorityQueue::pop: removes and returns a pair of greatest
/// priority, which under `Reverse` is one of smallest stamp; `None` on an
/// empty queue.
#[verifier::external_body]
fn queue_pop(q: &mut PriorityQueue<usize, Reverse<i64>>) -> (r: Option<(usize, i64)>)
    ensures
        match r {
            Some(pair) => queue_entries(old(q)).dom().contains(pair.0) && pair.1
                == queue_entries(old(q))[pair.0] && queue_entries(final(q)) == queue_entries(
                old(q),
            ).remove(pair.0) && forall|k: usize|
                queue_entries(old(q)).dom().contains(k) ==> pair.1 <= queue_entries(old(q))[k],
            None => queue_entries(old(q)) == Map::<usize, i64>::empty() && queue_entries(
                final(q),
            ) == queue_entries(old(q)),
        },
{
    q.pop().map(|pair| (pair.0, pair.1.0))
}

/// Relies on PriorityQueue::clear: drops every pair.
#[verifier::external_body]
fn queue_clear(q: &mut PriorityQueue<usize, Reverse<i64>>)
    ensures
        forall|k: usize| !queue_entries(final(q)).dom().contains(k),
{
    q.clear();
}

/// Relies on chrono's DateTime::from_timestamp and timestamp_millis for
/// a wall-clock reading in milliseconds; nothing is assumed of the
/// value. The raw reading comes from the system clock, with a clock
/// before 1970 or out of chrono's range read as zero, so that no input
/// can make this panic.
#[verifier::external_body]
fn now_millis() -> i64 {
    match std::time::SystemTime::now().duration_since(std::time::UNIX_EPOCH) {
        Ok(elapsed) => {
            match chrono::DateTime::from_timestamp(elapsed.as_secs() as i64, elapsed.subsec_nanos()) {
                Some(t) => t.timestamp_millis(),
                None => 0,
            }
        },
        Err(e) => 0,
    }
}

/// The set of evictable pages, each stamped with the time it became
/// evictable.
///
/// Stamps start from the wall clock but are forced strictly upward, so
/// that two pages never share a stamp and popping by smallest stamp
/// recovers exactly the order in which pages became evictable.
pub struct LRUReplacer {
    current_pages: PriorityQueue<usize, Reverse<i64>>,
    last_stamp: i64,
}

impl View for LRUReplacer {
    type V = Map<usize, i64>;

    closed spec fn view(&self) -> Map<usize, i64> {
        queue_entries(&self.current_pages)
    }
}

impl LRUReplacer {
    /// Every stored stamp is at most the last stamp handed out, and the
    /// contents are finite.
    pub closed spec fn wf(&self) -> bool {
        &&& self@.dom().finite()
        &&& forall|k: usize| self@.dom().contains(k) ==> #[trigger] self@[k] <= self.last_stamp
        &&& self.last_stamp < i64::MAX
    }

    /// The greatest stamp handed out so far. While it stays below
    /// `i64::MAX - 1` (it always does in practice: stamps start from a
    /// millisecond clock), stamps are strictly increasing.
    pub closed spec fn stamp_bound(&self) -> i64 {
        self.last_stamp
    }

    /// Allocates a new LRUReplacer with a given capacity.
    pub fn new(capacity: usize) -> (r: LRUReplacer)
        ensures
            r@ == Map::<usize, i64>::empty(),
            r@.dom().finite(),
            r.wf(),
            r.stamp_bound() == i64::MIN,
    {
        LRUReplacer { current_pages: queue_with_capacity(capacity), last_stamp: i64::MIN }
    }

    /// Returns the current number of available pages.
    pub fn current_size(&self) -> (n: usize)
        requires
            self.wf(),
        ensures
            n == self@.dom().len(),
    {
        queue_len(&self.current_pages)
    }

    /// Adds a page index to the available page indices and stamps it with
    /// the current time; the stamp is never below any stamp already
    /// stored, and strictly above all of them while the stamp bound has
    /// room left.
    pub fn add_page(&mut self, page_index: usize)
        requires
            old(self).wf(),
        ensures
            final(self).wf(),
            final(self)@ == old(self)@.insert(page_index, final(self)@[page_index]),
            final(self)@.dom().finite(),
            final(self).stamp_bound() == final(self)@[page_index],
            final(self).stamp_bound() >= old(self).stamp_bound(),
            forall|k: usize|
                old(self)@.dom().contains(k) ==> final(self)@[page_index] >= #[trigger] old(self)@[k],
            old(self).stamp_bound() < i64::MAX - 1 ==> final(self).stamp_bound() > old(self).stamp_bound(),
            old(self).stamp_bound() < i64::MAX - 1 ==> forall|k: usize|
                old(self)@.dom().contains(k) && k != page_index ==> final(self)@[page_index]
                    > #[trigger] old(self)@[k],
    {
        let now = now_millis();
        let stamp: i64 = if now > self.last_stamp && now < i64::MAX {
            now
        } else if self.last_stamp < i64::MAX - 1 {
            self.last_stamp + 1
        } else {
            i64::MAX - 1
        };
        queue_push(&mut self.current_pages, page_index, stamp);
        self.last_stamp = stamp;
        proof {
            assert(final(self)@ == old(self)@.insert(page_index, stamp));
            assert(final(self)@[page_index] == stamp);
        }
    }

    /// Removes the page index from the available list and returns it;
    /// `None` if the page index was not present.
    pub fn drop_page(&mut self, page_index: usize) -> (r: Option<usize>)
        requires
            old(self).wf(),
        ensures
            final(self).wf(),
            final(self)@.dom().finite(),
            final(self).stamp_bound() == old(self).stamp_bound(),
            match r {
                Some(p) => p == page_index && old(self)@.dom().contains(page_index) && final(self)@ == old(self)@.remove(page_index),
                None => !old(self)@.dom().contains(page_index) && final(self)@ == old(self)@,
            },
    {
        match queue_remove(&mut self.current_pages, page_index) {
            Some(pair) => Some(pair.0),
            None => None,
        }
    }

    /// Empties the available list.
    pub fn drop_all_pages(&mut self)
        ensures
            final(self).wf(),
            final(self)@ == Map::<usize, i64>::empty(),
            final(self)@.dom().finite(),
    {
        queue_clear(&mut self.current_pages);
        if self.last_stamp == i64::MAX {
            self.last_stamp = i64::MAX - 1;
        }
        proof {
            assert(queue_entries(&self.current_pages).dom() =~= Set::<usize>::empty());
            assert(queue_entries(&self.current_pages) =~= Map::<usize, i64>::empty());
        }
    }

    /// Removes and returns the page index with the smallest stamp: the
    /// page that has been evictable for the longest. `None` if no page is
    /// available.
    pub fn pop_least_recently_used(&mut self) -> (r: Option<usize>)
        requires
            old(self).wf(),
        ensures
            final(self).wf(),
            final(self)@.dom().finite(),
            final(self).stamp_bound() == old(self).stamp_bound(),
            match r {
                Some(p) => old(self)@.dom().contains(p) && final(self)@ == old(self)@.remove(p)
                    && forall|k: usize|
                    old(self)@.dom().contains(k) ==> old(self)@[p] <= #[trigger] old(self)@[k],
                None => old(self)@ == Map::<usize, i64>::empty() && final(self)@ == old(self)@,
            },
    {
        match queue_pop(&mut self.current_pages) {
            Some(pair) => Some(pair.0),
            None => None,
        }
    }
}

} // verus!
