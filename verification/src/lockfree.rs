//! Page cache, queues, counters and metrics for concurrent use.
//!
//! Each structure here is owned by one holder at a time and changed through
//! `&mut`; the counters wrap around as atomic counters do.

use vstd::prelude::*;
use std::collections::{HashMap, VecDeque};
use crossbeam_queue::SegQueue;
use crate::storage::Page;
use crate::types::{PageId, Result, VelociError};

verus! {

broadcast use vstd::std_specs::hash::group_hash_axioms;

/// The current time in microseconds since the Unix epoch (0 when the clock
/// reads earlier than the epoch). It reads the system clock, so nothing is
/// stated of its value.
#[verifier::external_body]
pub fn current_timestamp() -> u64 {
    match std::time::SystemTime::now().duration_since(std::time::UNIX_EPOCH) {
        Ok(d) => d.as_micros() as u64,
        Err(_) => 0,
    }
}

/// A cached page with its access count and last access time.
#[derive(Clone)]
pub struct CachedPage {
    pub page_id: PageId,
    pub page: Page,
    pub access_count: u64,
    pub last_access: u64,
}

/// `x + 1`, wrapping to 0 after `u64::MAX`.
pub open spec fn next_u64(x: u64) -> u64 {
    if x == u64::MAX { 0 } else { (x + 1) as u64 }
}

impl CachedPage {
    /// A page accessed once, now.
    pub fn new(page_id: PageId, page: Page) -> (c: CachedPage)
        ensures
            c.page_id == page_id,
            c.page@ == page@,
            c.access_count == 1,
    {
        CachedPage::new_at(page_id, page, current_timestamp())
    }

    /// A page accessed once, at time `now`.
    pub fn new_at(page_id: PageId, page: Page, now: u64) -> (c: CachedPage)
        ensures
            c.page_id == page_id,
            c.page@ == page@,
            c.access_count == 1,
            c.last_access == now,
    {
        CachedPage { page_id, page, access_count: 1, last_access: now }
    }

    /// Records an access now.
    pub fn access(&mut self)
        ensures
            final(self).page_id == old(self).page_id,
            final(self).page@ == old(self).page@,
            final(self).access_count == next_u64(old(self).access_count),
    {
        self.access_at(current_timestamp());
    }

    /// Records an access at time `now`.
    pub fn access_at(&mut self, now: u64)
        ensures
            final(self).page_id == old(self).page_id,
            final(self).page@ == old(self).page@,
            final(self).access_count == next_u64(old(self).access_count),
            final(self).last_access == now,
    {
        self.access_count = self.access_count.wrapping_add(1);
        self.last_access = now;
    }

    /// A copy with the same fields.
    pub fn copy(&self) -> (c: CachedPage)
        ensures
            c.page_id == self.page_id,
            c.page@ == self.page@,
            c.access_count == self.access_count,
            c.last_access == self.last_access,
    {
        CachedPage {
            page_id: self.page_id,
            page: self.page.copy(),
            access_count: self.access_count,
            last_access: self.last_access,
        }
    }

    /// How many times the page was accessed.
    pub fn get_access_count(&self) -> (n: u64)
        ensures
            n == self.access_count,
    {
        self.access_count
    }

    /// When the page was last accessed.
    pub fn get_last_access(&self) -> (t: u64)
        ensures
            t == self.last_access,
    {
        self.last_access
    }
}

/// The unbounded queue of the crossbeam-queue crate.
#[verifier::external_type_specification]
#[verifier::external_body]
#[verifier::reject_recursive_types(T)]
pub struct ExSegQueue<T>(SegQueue<T>);

/// The page numbers a queue holds, front first.
pub uninterp spec fn queued(q: SegQueue<u64>) -> Seq<u64>;

/// `SegQueue::new`: an empty queue.
#[verifier::external_body]
fn queue_new() -> (q: SegQueue<u64>)
    ensures
        queued(q) == Seq::<u64>::empty(),
{
    SegQueue::new()
}

/// `SegQueue::push`: adds `x` at the back.
#[verifier::external_body]
fn queue_push(q: &mut SegQueue<u64>, x: u64)
    ensures
        queued(*final(q)) == queued(*old(q)).push(x),
{
    q.push(x)
}

/// `SegQueue::pop`: takes the front item, if any.
#[verifier::external_body]
fn queue_pop(q: &mut SegQueue<u64>) -> (r: Option<u64>)
    ensures
        queued(*old(q)).len() == 0 ==> r is None && queued(*final(q)) == queued(*old(q)),
        queued(*old(q)).len() > 0 ==> r == Some(queued(*old(q))[0]) && queued(*final(q)) == queued(*old(q)).drop_first(),
{
    q.pop()
}

/// `q` turned `i` places: the item at `i` (modulo the length) first.
pub open spec fn rotated(q: Seq<u64>, i: int) -> Seq<u64> {
    Seq::new(q.len(), |j: int| q[(i + j) % (q.len() as int)])
}

/// The page an eviction scan picks: over rounds `i..k`, the round's page is
/// the queue's item at `i` (modulo its length); the first page seen with an
/// access time below the best so far becomes the best.
pub open spec fn scan_best(q: Seq<u64>, m: Map<u64, CachedPage>, i: int, k: int, best: Option<u64>, ts: u64) -> Option<u64>
    decreases k - i,
{
    if i >= k || q.len() == 0 {
        best
    } else {
        let id = q[i % (q.len() as int)];
        if m.contains_key(id) && m[id].last_access < ts {
            scan_best(q, m, i + 1, k, Some(id), m[id].last_access)
        } else {
            scan_best(q, m, i + 1, k, best, ts)
        }
    }
}

/// The number of rounds an eviction scan makes.
pub open spec fn scan_rounds(capacity: usize) -> int {
    if capacity < 100 { capacity as int } else { 100 }
}

/// A page cache that evicts the least recently accessed of the pages it
/// scans when full.
pub struct LockFreePageCache {
    capacity: usize,
    size: usize,
    entries: HashMap<PageId, CachedPage>,
    lru_queue: SegQueue<u64>,
}

/// The statistics of a page cache.
#[derive(Debug, Clone)]
pub struct CacheStats {
    pub size: usize,
    pub capacity: usize,
}

/// `x - 1`, wrapping to `usize::MAX` below 0.
pub open spec fn prev_usize(x: usize) -> usize {
    if x == 0 { usize::MAX } else { (x - 1) as usize }
}

/// `x + 1`, wrapping to 0 after `usize::MAX`.
pub open spec fn next_usize(x: usize) -> usize {
    if x == usize::MAX { 0 } else { (x + 1) as usize }
}

impl LockFreePageCache {
    /// The capacity.
    pub closed spec fn spec_capacity(&self) -> usize {
        self.capacity
    }

    /// The counted size.
    pub closed spec fn spec_size(&self) -> usize {
        self.size
    }

    /// The cached pages by number.
    pub closed spec fn cached(&self) -> Map<PageId, CachedPage> {
        self.entries@
    }

    /// The access queue, front first.
    pub closed spec fn queue(&self) -> Seq<u64> {
        queued(self.lru_queue)
    }

    /// An empty cache of the given capacity.
    pub fn new(capacity: usize) -> (c: LockFreePageCache)
        ensures
            c.spec_capacity() == capacity,
            c.spec_size() == 0,
            c.cached() == Map::<PageId, CachedPage>::empty(),
            c.queue() == Seq::<u64>::empty(),
    {
        LockFreePageCache { capacity, size: 0, entries: HashMap::new(), lru_queue: queue_new() }
    }

    /// The cached page `page_id`, after recording an access to it now
    /// (which also queues its number).
    pub fn get(&mut self, page_id: PageId) -> (r: Option<CachedPage>)
        ensures
            final(self).spec_capacity() == old(self).spec_capacity(),
            final(self).spec_size() == old(self).spec_size(),
            !old(self).cached().contains_key(page_id) ==> r is None && final(self).cached() == old(self).cached()
                && final(self).queue() == old(self).queue(),
            old(self).cached().contains_key(page_id) ==> ({
                let c = old(self).cached()[page_id];
                &&& r matches Some(p) && p.page_id == final(self).cached()[page_id].page_id
                    && p.page@ == final(self).cached()[page_id].page@
                    && p.access_count == final(self).cached()[page_id].access_count
                    && p.last_access == final(self).cached()[page_id].last_access
                &&& final(self).cached().dom() == old(self).cached().dom()
                &&& final(self).cached().remove(page_id) == old(self).cached().remove(page_id)
                &&& final(self).cached()[page_id].page_id == c.page_id
                &&& final(self).cached()[page_id].page@ == c.page@
                &&& final(self).cached()[page_id].access_count == next_u64(c.access_count)
                &&& final(self).queue() == old(self).queue().push(page_id)
            }),
    {
        self.get_at(page_id, current_timestamp())
    }

    /// The cached page `page_id`, after recording an access to it at time
    /// `now` (which also queues its number).
    pub fn get_at(&mut self, page_id: PageId, now: u64) -> (r: Option<CachedPage>)
        ensures
            final(self).spec_capacity() == old(self).spec_capacity(),
            final(self).spec_size() == old(self).spec_size(),
            !old(self).cached().contains_key(page_id) ==> r is None && final(self).cached() == old(self).cached()
                && final(self).queue() == old(self).queue(),
            old(self).cached().contains_key(page_id) ==> ({
                let c = old(self).cached()[page_id];
                &&& r matches Some(p) && p.page_id == final(self).cached()[page_id].page_id
                    && p.page@ == final(self).cached()[page_id].page@
                    && p.access_count == final(self).cached()[page_id].access_count
                    && p.last_access == final(self).cached()[page_id].last_access
                &&& final(self).cached().dom() == old(self).cached().dom()
                &&& final(self).cached().remove(page_id) == old(self).cached().remove(page_id)
                &&& final(self).cached()[page_id].page_id == c.page_id
                &&& final(self).cached()[page_id].page@ == c.page@
                &&& final(self).cached()[page_id].access_count == next_u64(c.access_count)
                &&& final(self).cached()[page_id].last_access == now
                &&& final(self).queue() == old(self).queue().push(page_id)
            }),
    {
        let mut cached = match self.entries.get(&page_id) {
            Some(c) => c.copy(),
            None => return None,
        };
        cached.access_at(now);
        let copy = cached.copy();
        self.entries.insert(page_id, cached);
        queue_push(&mut self.lru_queue, page_id);
        proof {
            assert(self.entries@.remove(page_id) =~= old(self).entries@.remove(page_id));
            assert(self.entries@.dom() =~= old(self).entries@.dom());
        }
        Some(copy)
    }

    /// Inserts `page` as page `page_id`, accessed now, first evicting when the counted
    /// size has reached the capacity. Always `Ok`.
    pub fn insert(&mut self, page_id: PageId, page: Page) -> (r: Result<()>)
        ensures
            r is Ok,
            final(self).spec_capacity() == old(self).spec_capacity(),
            ({
                let ev = if old(self).spec_size() >= old(self).spec_capacity() {
                    evicted(old(self).cached(), old(self).queue(), old(self).spec_size(), old(self).spec_capacity())
                } else {
                    (old(self).cached(), old(self).queue(), old(self).spec_size())
                };
                &&& final(self).cached().dom() == ev.0.dom().insert(page_id)
                &&& final(self).cached().remove(page_id) == ev.0.remove(page_id)
                &&& final(self).cached()[page_id].page_id == page_id
                &&& final(self).cached()[page_id].page@ == page@
                &&& final(self).cached()[page_id].access_count == 1
                &&& final(self).spec_size() == next_usize(ev.2)
                &&& final(self).queue() == ev.1.push(page_id)
            }),
    {
        self.insert_at(page_id, page, current_timestamp())
    }

    /// Inserts `page` as page `page_id`, accessed at time `now`, first
    /// evicting when the counted size has reached the capacity. Always `Ok`.
    pub fn insert_at(&mut self, page_id: PageId, page: Page, now: u64) -> (r: Result<()>)
        ensures
            r is Ok,
            final(self).spec_capacity() == old(self).spec_capacity(),
            ({
                let ev = if old(self).spec_size() >= old(self).spec_capacity() {
                    evicted(old(self).cached(), old(self).queue(), old(self).spec_size(), old(self).spec_capacity())
                } else {
                    (old(self).cached(), old(self).queue(), old(self).spec_size())
                };
                &&& final(self).cached().dom() == ev.0.dom().insert(page_id)
                &&& final(self).cached().remove(page_id) == ev.0.remove(page_id)
                &&& final(self).cached()[page_id].page_id == page_id
                &&& final(self).cached()[page_id].page@ == page@
                &&& final(self).cached()[page_id].access_count == 1
                &&& final(self).cached()[page_id].last_access == now
                &&& final(self).spec_size() == next_usize(ev.2)
                &&& final(self).queue() == ev.1.push(page_id)
            }),
    {
        let cached = CachedPage::new_at(page_id, page, now);
        if self.size >= self.capacity {
            let _ = self.evict_lru();
        }
        let ghost mid = self.entries@;
        self.entries.insert(page_id, cached);
        self.size = self.size.wrapping_add(1);
        queue_push(&mut self.lru_queue, page_id);
        proof {
            assert(self.entries@.remove(page_id) =~= mid.remove(page_id));
            assert(self.entries@.dom() =~= mid.dom().insert(page_id));
        }
        Ok(())
    }

    /// Scans `min(100, capacity)` queued pages, moving each to the back, and
    /// removes the one accessed least recently. Always `Ok`.
    fn evict_lru(&mut self) -> (r: Result<()>)
        ensures
            r is Ok,
            final(self).spec_capacity() == old(self).spec_capacity(),
            (final(self).cached(), final(self).queue(), final(self).spec_size()) == evicted(
                old(self).cached(),
                old(self).queue(),
                old(self).spec_size(),
                old(self).spec_capacity(),
            ),
    {
        let rounds: usize = if self.capacity < 100 { self.capacity } else { 100 };
        let ghost q0 = queued(self.lru_queue);
        let ghost m = self.entries@;
        let mut oldest: Option<u64> = None;
        let mut oldest_ts: u64 = u64::MAX;
        let mut i: usize = 0;
        proof {
            assert(rotated(q0, 0) =~= q0) by {
                if q0.len() > 0 {
                    assert forall|j: int| 0 <= j < q0.len() implies rotated(q0, 0)[j] == q0[j] by {
                        vstd::arithmetic::div_mod::lemma_small_mod(j as nat, q0.len());
                    }
                }
            }
        }
        while i < rounds
            invariant
                i <= rounds,
                rounds as int == scan_rounds(self.capacity),
                m == self.entries@,
                m == old(self).entries@,
                q0 == queued(old(self).lru_queue),
                self.capacity == old(self).capacity,
                self.size == old(self).size,
                queued(self.lru_queue) == rotated(q0, i as int),
                scan_best(q0, m, 0, rounds as int, None, u64::MAX) == scan_best(q0, m, i as int, rounds as int, oldest, oldest_ts),
            decreases rounds - i,
        {
            let ghost before = queued(self.lru_queue);
            match queue_pop(&mut self.lru_queue) {
                Some(id) => {
                    proof {
                        lemma_rotate_front(q0, i as int);
                    }
                    match self.entries.get(&id) {
                        Some(c) => {
                            if c.last_access < oldest_ts {
                                oldest_ts = c.last_access;
                                oldest = Some(id);
                            }
                        },
                        None => {},
                    }
                    queue_push(&mut self.lru_queue, id);
                    proof {
                        lemma_rotate_step(q0, i as int);
                    }
                },
                None => {
                    proof {
                        assert(q0.len() == 0);
                        assert(rotated(q0, i + 1) =~= rotated(q0, i as int));
                    }
                },
            }
            i = i + 1;
        }
        proof {
            if q0.len() == 0 {
                assert(rotated(q0, rounds as int) =~= q0);
            }
        }
        match oldest {
            Some(id) => {
                self.entries.remove(&id);
                self.size = self.size.wrapping_sub(1);
            },
            None => {},
        }
        Ok(())
    }

    /// Removes page `page_id`; the counted size drops when it was cached.
    pub fn remove(&mut self, page_id: PageId) -> (r: Option<CachedPage>)
        ensures
            final(self).spec_capacity() == old(self).spec_capacity(),
            final(self).queue() == old(self).queue(),
            final(self).cached() == old(self).cached().remove(page_id),
            old(self).cached().contains_key(page_id) ==> r == Some(old(self).cached()[page_id])
                && final(self).spec_size() == prev_usize(old(self).spec_size()),
            !old(self).cached().contains_key(page_id) ==> r is None && final(self).spec_size() == old(self).spec_size(),
    {
        let removed = self.entries.remove(&page_id);
        if removed.is_some() {
            self.size = self.size.wrapping_sub(1);
        }
        removed
    }

    /// The counted size and the capacity.
    pub fn stats(&self) -> (s: CacheStats)
        ensures
            s.size == self.spec_size(),
            s.capacity == self.spec_capacity(),
    {
        CacheStats { size: self.size, capacity: self.capacity }
    }

    /// Empties the cache and its queue.
    pub fn clear(&mut self)
        ensures
            final(self).spec_capacity() == old(self).spec_capacity(),
            final(self).spec_size() == 0,
            final(self).cached() == Map::<PageId, CachedPage>::empty(),
            final(self).queue() == Seq::<u64>::empty(),
    {
        self.entries.clear();
        self.size = 0;
        loop
            invariant
                self.entries@ == Map::<PageId, CachedPage>::empty(),
                self.size == 0,
                self.capacity == old(self).capacity,
            ensures
                queued(self.lru_queue) == Seq::<u64>::empty(),
                self.entries@ == Map::<PageId, CachedPage>::empty(),
                self.size == 0,
                self.capacity == old(self).capacity,
            decreases queued(self.lru_queue).len(),
        {
            match queue_pop(&mut self.lru_queue) {
                Some(_) => {},
                None => break,
            }
        }
    }
}

/// The cache after an eviction: the scan's pick (if any) removed and the
/// counted size dropped, and the queue turned by the number of rounds.
pub open spec fn evicted(m: Map<u64, CachedPage>, q: Seq<u64>, size: usize, capacity: usize) -> (Map<u64, CachedPage>, Seq<u64>, usize) {
    let k = scan_rounds(capacity);
    let q2 = if q.len() == 0 { q } else { rotated(q, k) };
    match scan_best(q, m, 0, k, None, u64::MAX) {
        Some(id) => (m.remove(id), q2, prev_usize(size)),
        None => (m, q2, size),
    }
}

/// Once a scan has a pick, it keeps one: a later pick only replaces it by a
/// cached page with an earlier time.
proof fn lemma_scan_keeps_pick(q: Seq<u64>, m: Map<u64, CachedPage>, i: int, k: int, best: Option<u64>, ts: u64)
    requires
        best matches Some(b) && m.contains_key(b) && m[b].last_access == ts,
    ensures
        scan_best(q, m, i, k, best, ts) matches Some(b) && m.contains_key(b) && m[b].last_access <= ts,
    decreases k - i,
{
    if i < k && q.len() > 0 {
        let id = q[i % (q.len() as int)];
        if m.contains_key(id) && m[id].last_access < ts {
            lemma_scan_keeps_pick(q, m, i + 1, k, Some(id), m[id].last_access);
        } else {
            lemma_scan_keeps_pick(q, m, i + 1, k, best, ts);
        }
    }
}

/// An eviction frees a slot when the page at the front of the queue is
/// cached with an access time below `u64::MAX`: one cached page is removed
/// and the counted size drops by one.
pub proof fn law_eviction_frees_a_slot(m: Map<u64, CachedPage>, q: Seq<u64>, size: usize, capacity: usize)
    requires
        capacity > 0,
        size > 0,
        q.len() > 0,
        m.contains_key(q[0]),
        m[q[0]].last_access < u64::MAX,
    ensures
        exists|id: u64| m.contains_key(id) && evicted(m, q, size, capacity).0 == m.remove(id),
        evicted(m, q, size, capacity).2 == size - 1,
{
    let k = scan_rounds(capacity);
    assert(0int % (q.len() as int) == 0);
    lemma_scan_keeps_pick(q, m, 1, k, Some(q[0]), m[q[0]].last_access);
    assert(scan_best(q, m, 0, k, None, u64::MAX) == scan_best(q, m, 1, k, Some(q[0]), m[q[0]].last_access));
    let b = scan_best(q, m, 0, k, None, u64::MAX)->0;
    assert(m.contains_key(b) && evicted(m, q, size, capacity).0 == m.remove(b));
}

proof fn lemma_rotate_front(q: Seq<u64>, i: int)
    requires
        q.len() > 0,
        0 <= i,
    ensures
        rotated(q, i)[0] == q[i % (q.len() as int)],
{
}

proof fn lemma_rotate_step(q: Seq<u64>, i: int)
    requires
        q.len() > 0,
        0 <= i,
    ensures
        rotated(q, i).drop_first().push(rotated(q, i)[0]) == rotated(q, i + 1),
{
    let n = q.len() as int;
    let a = rotated(q, i).drop_first().push(rotated(q, i)[0]);
    let b = rotated(q, i + 1);
    assert forall|j: int| 0 <= j < n implies a[j] == b[j] by {
        if j < n - 1 {
            assert(i + (j + 1) == (i + 1) + j);
        } else {
            assert((i + 1) + j == i + n);
            vstd::arithmetic::div_mod::lemma_mod_add_multiples_vanish(i, n);
            assert((n + i) % n == i % n);
            assert(i + n == n + i);
        }
    }
    assert(a =~= b);
}

// ---------------------------------------------------------------------------
// Queues, counters and metrics

/// A FIFO queue of I/O requests with its count of items.
pub struct LockFreeIoQueue<T> {
    queue: VecDeque<T>,
    size: usize,
}

impl<T> LockFreeIoQueue<T> {
    /// The items, front first.
    pub closed spec fn items(&self) -> Seq<T> {
        self.queue@
    }

    /// The counted number of items.
    pub closed spec fn count(&self) -> usize {
        self.size
    }

    /// An empty queue.
    pub fn new() -> (q: LockFreeIoQueue<T>)
        ensures
            q.items() == Seq::<T>::empty(),
            q.count() == 0,
    {
        LockFreeIoQueue { queue: VecDeque::new(), size: 0 }
    }

    /// Adds `item` at the back.
    pub fn push(&mut self, item: T)
        ensures
            final(self).items() == old(self).items().push(item),
            final(self).count() == next_usize(old(self).count()),
    {
        self.queue.push_back(item);
        self.size = self.size.wrapping_add(1);
    }

    /// Takes the front item, if any.
    pub fn pop(&mut self) -> (r: Option<T>)
        ensures
            old(self).items().len() == 0 ==> r is None && final(self).items() == old(self).items()
                && final(self).count() == old(self).count(),
            old(self).items().len() > 0 ==> r == Some(old(self).items()[0]) && final(self).items()
                == old(self).items().drop_first() && final(self).count() == prev_usize(old(self).count()),
    {
        let item = self.queue.pop_front();
        if item.is_some() {
            self.size = self.size.wrapping_sub(1);
        }
        item
    }

    /// The counted number of items.
    pub fn len(&self) -> (n: usize)
        ensures
            n == self.count(),
    {
        self.size
    }

    /// Whether the count is zero.
    pub fn is_empty(&self) -> (b: bool)
        ensures
            b == (self.count() == 0),
    {
        self.len() == 0
    }
}

/// A counter, for transaction numbers.
pub struct LockFreeCounter {
    value: u64,
}

impl LockFreeCounter {
    /// The current value.
    pub closed spec fn spec_value(&self) -> u64 {
        self.value
    }

    /// A counter at `initial`.
    pub fn new(initial: u64) -> (c: LockFreeCounter)
        ensures
            c.spec_value() == initial,
    {
        LockFreeCounter { value: initial }
    }

    /// Adds one (wrapping after `u64::MAX`) and returns the value before.
    pub fn increment(&mut self) -> (v: u64)
        ensures
            v == old(self).spec_value(),
            final(self).spec_value() == next_u64(old(self).spec_value()),
    {
        let v = self.value;
        self.value = self.value.wrapping_add(1);
        v
    }

    /// The current value.
    pub fn get(&self) -> (v: u64)
        ensures
            v == self.spec_value(),
    {
        self.value
    }

    /// Sets the value.
    pub fn set(&mut self, val: u64)
        ensures
            final(self).spec_value() == val,
    {
        self.value = val;
    }

    /// Sets the value to `new` when it is `current`, giving `Ok(current)`;
    /// otherwise leaves it and gives `Err` with the value.
    pub fn compare_and_swap(&mut self, current: u64, new: u64) -> (r: std::result::Result<u64, u64>)
        ensures
            old(self).spec_value() == current ==> r == Ok::<u64, u64>(current) && final(self).spec_value() == new,
            old(self).spec_value() != current ==> r == Err::<u64, u64>(old(self).spec_value())
                && final(self).spec_value() == old(self).spec_value(),
    {
        if self.value == current {
            self.value = new;
            Ok(current)
        } else {
            Err(self.value)
        }
    }
}

impl Default for LockFreeCounter {
    fn default() -> (c: LockFreeCounter)
        ensures
            c.spec_value() == 0,
    {
        LockFreeCounter::new(0)
    }
}

/// A bounded FIFO buffer.
pub struct LockFreeRingBuffer<T> {
    buffer: VecDeque<T>,
    cap: usize,
}

impl<T> LockFreeRingBuffer<T> {
    /// The items, front first.
    pub closed spec fn items(&self) -> Seq<T> {
        self.buffer@
    }

    /// The capacity.
    pub closed spec fn spec_capacity(&self) -> usize {
        self.cap
    }

    /// An empty buffer of the given capacity, which must not be zero.
    pub fn new(capacity: usize) -> (b: LockFreeRingBuffer<T>)
        requires
            capacity > 0,
        ensures
            b.items() == Seq::<T>::empty(),
            b.spec_capacity() == capacity,
    {
        LockFreeRingBuffer { buffer: VecDeque::new(), cap: capacity }
    }

    /// Adds `item` at the back; gives it back when the buffer is full.
    pub fn try_push(&mut self, item: T) -> (r: std::result::Result<(), T>)
        ensures
            final(self).spec_capacity() == old(self).spec_capacity(),
            old(self).items().len() >= old(self).spec_capacity() ==> r == Err::<(), T>(item) && final(self).items()
                == old(self).items(),
            old(self).items().len() < old(self).spec_capacity() ==> r is Ok && final(self).items() == old(
                self,
            ).items().push(item),
    {
        if self.buffer.len() >= self.cap {
            Err(item)
        } else {
            self.buffer.push_back(item);
            Ok(())
        }
    }

    /// Takes the front item, if any.
    pub fn try_pop(&mut self) -> (r: Option<T>)
        ensures
            final(self).spec_capacity() == old(self).spec_capacity(),
            old(self).items().len() == 0 ==> r is None && final(self).items() == old(self).items(),
            old(self).items().len() > 0 ==> r == Some(old(self).items()[0]) && final(self).items() == old(
                self,
            ).items().drop_first(),
    {
        self.buffer.pop_front()
    }

    /// The capacity.
    pub fn capacity(&self) -> (c: usize)
        ensures
            c == self.spec_capacity(),
    {
        self.cap
    }

    /// The number of items.
    pub fn len(&self) -> (n: usize)
        ensures
            n == self.items().len(),
    {
        self.buffer.len()
    }

    /// Whether there are no items.
    pub fn is_empty(&self) -> (b: bool)
        ensures
            b == (self.items().len() == 0),
    {
        self.buffer.len() == 0
    }

    /// Whether the buffer holds as many items as its capacity.
    pub fn is_full(&self) -> (b: bool)
        ensures
            b == (self.items().len() >= self.spec_capacity()),
    {
        self.buffer.len() >= self.cap
    }
}

/// Counts of reads, writes and cache outcomes.
pub struct LockFreeMetrics {
    reads: u64,
    writes: u64,
    cache_hits: u64,
    cache_misses: u64,
}

/// A copy of the metrics' counts.
#[derive(Debug, Clone)]
pub struct MetricsSnapshot {
    pub reads: u64,
    pub writes: u64,
    pub cache_hits: u64,
    pub cache_misses: u64,
}

impl LockFreeMetrics {
    /// The counts, as a snapshot.
    pub closed spec fn counts(&self) -> (u64, u64, u64, u64) {
        (self.reads, self.writes, self.cache_hits, self.cache_misses)
    }

    /// All counts zero.
    pub fn new() -> (m: LockFreeMetrics)
        ensures
            m.counts() == (0u64, 0u64, 0u64, 0u64),
    {
        LockFreeMetrics { reads: 0, writes: 0, cache_hits: 0, cache_misses: 0 }
    }

    /// Counts a read.
    pub fn record_read(&mut self)
        ensures
            final(self).counts() == (next_u64(old(self).counts().0), old(self).counts().1, old(self).counts().2, old(self).counts().3),
    {
        self.reads = self.reads.wrapping_add(1);
    }

    /// Counts a write.
    pub fn record_write(&mut self)
        ensures
            final(self).counts() == (old(self).counts().0, next_u64(old(self).counts().1), old(self).counts().2, old(self).counts().3),
    {
        self.writes = self.writes.wrapping_add(1);
    }

    /// Counts a cache hit.
    pub fn record_cache_hit(&mut self)
        ensures
            final(self).counts() == (old(self).counts().0, old(self).counts().1, next_u64(old(self).counts().2), old(self).counts().3),
    {
        self.cache_hits = self.cache_hits.wrapping_add(1);
    }

    /// Counts a cache miss.
    pub fn record_cache_miss(&mut self)
        ensures
            final(self).counts() == (old(self).counts().0, old(self).counts().1, old(self).counts().2, next_u64(old(self).counts().3)),
    {
        self.cache_misses = self.cache_misses.wrapping_add(1);
    }

    /// The current counts.
    pub fn get_stats(&self) -> (s: MetricsSnapshot)
        ensures
            (s.reads, s.writes, s.cache_hits, s.cache_misses) == self.counts(),
    {
        MetricsSnapshot {
            reads: self.reads,
            writes: self.writes,
            cache_hits: self.cache_hits,
            cache_misses: self.cache_misses,
        }
    }

    /// Sets every count to zero.
    pub fn reset(&mut self)
        ensures
            final(self).counts() == (0u64, 0u64, 0u64, 0u64),
    {
        self.reads = 0;
        self.writes = 0;
        self.cache_hits = 0;
        self.cache_misses = 0;
    }
}

impl Default for LockFreeMetrics {
    fn default() -> (m: LockFreeMetrics)
        ensures
            m.counts() == (0u64, 0u64, 0u64, 0u64),
    {
        LockFreeMetrics::new()
    }
}

} // verus!
