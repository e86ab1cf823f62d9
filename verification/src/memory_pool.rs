//! A pool of reusable byte buffers and strings, with usage statistics.

use vstd::prelude::*;
use vstd::arithmetic::div_mod::{lemma_mod_add_multiples_vanish, lemma_mod_sub_multiples_vanish, lemma_small_mod};

verus! {

/// Bytes a pooled buffer is counted as.
pub const BUFFER_BYTES: usize = 1024;

/// Bytes a pooled string is counted as.
pub const STRING_BYTES: usize = 256;

/// `usize` arithmetic wraps modulo this.
pub open spec fn word_modulus() -> int {
    usize::MAX as int + 1
}

/// Running totals of what the pool handed out and took back. The totals wrap around as
/// the atomic counters they model do.
pub struct InternalPoolStats {
    pub total_allocated: usize,
    pub total_freed: usize,
    pub current_usage: usize,
    pub peak_usage: usize,
}

/// `total_allocated` and `total_freed + current_usage` agree modulo the word size, and the
/// peak is at least the current usage.
pub open spec fn stats_consistent(s: InternalPoolStats) -> bool {
    &&& (s.total_freed + s.current_usage - s.total_allocated) % word_modulus() == 0
    &&& s.peak_usage >= s.current_usage
}

impl InternalPoolStats {
    /// All counters at zero.
    pub fn new() -> (r: Self)
        ensures
            r.total_allocated == 0,
            r.total_freed == 0,
            r.current_usage == 0,
            r.peak_usage == 0,
            stats_consistent(r),
    {
        proof {
            lemma_small_mod(0, word_modulus() as nat);
        }
        InternalPoolStats { total_allocated: 0, total_freed: 0, current_usage: 0, peak_usage: 0 }
    }

    /// Counts `size` bytes handed out: both the total and the current usage grow by it, and
    /// the peak follows the current usage up. The total wraps around as its atomic counter
    /// does; the current usage must not pass the word size.
    pub fn record_allocation(&mut self, size: usize)
        requires
            old(self).current_usage + size <= usize::MAX,
        ensures
            final(self).total_allocated == old(self).total_allocated.wrapping_add(size),
            final(self).total_freed == old(self).total_freed,
            final(self).current_usage == old(self).current_usage + size,
            final(self).peak_usage == if final(self).current_usage > old(self).peak_usage {
                final(self).current_usage
            } else {
                old(self).peak_usage
            },
            stats_consistent(*old(self)) ==> stats_consistent(*final(self)),
    {
        let ghost old_s = *self;
        self.total_allocated = self.total_allocated.wrapping_add(size);
        let current = self.current_usage + size;
        self.current_usage = current;
        if current > self.peak_usage {
            self.peak_usage = current;
        }
        proof {
            let m = word_modulus();
            if stats_consistent(old_s) {
                let before = old_s.total_freed + old_s.current_usage - old_s.total_allocated;
                if old_s.total_allocated + size > usize::MAX {
                    assert(self.total_freed + self.current_usage - self.total_allocated == m
                        + before);
                    lemma_mod_add_multiples_vanish(before, m);
                } else {
                    assert(self.total_freed + self.current_usage - self.total_allocated == before);
                }
            }
        }
    }

    /// Counts `size` bytes taken back: the freed total grows by it and the current usage
    /// shrinks by it.
    pub fn record_deallocation(&mut self, size: usize)
        ensures
            final(self).total_allocated == old(self).total_allocated,
            final(self).total_freed == old(self).total_freed.wrapping_add(size),
            final(self).current_usage == old(self).current_usage.wrapping_sub(size),
            final(self).peak_usage == old(self).peak_usage,
            stats_consistent(*old(self)) && size <= old(self).current_usage ==> stats_consistent(
                *final(self),
            ),
    {
        let ghost old_s = *self;
        self.total_freed = self.total_freed.wrapping_add(size);
        self.current_usage = self.current_usage.wrapping_sub(size);
        proof {
            let m = word_modulus();
            if stats_consistent(old_s) && size <= old_s.current_usage {
                let before = old_s.total_freed + old_s.current_usage - old_s.total_allocated;
                if old_s.total_freed + size > usize::MAX {
                    assert(self.total_freed + self.current_usage - self.total_allocated == -m
                        + before);
                    lemma_mod_sub_multiples_vanish(before, m);
                } else {
                    assert(self.total_freed + self.current_usage - self.total_allocated == before);
                }
            }
        }
    }
}

/// A snapshot of the pool's statistics.
#[derive(Clone, Copy, Debug)]
pub struct PoolStats {
    pub available_buffers: usize,
    pub total_pool_size: usize,
    pub total_allocated: usize,
    pub total_freed: usize,
    pub current_usage: usize,
    pub peak_usage: usize,
}

/// A pool of reusable byte buffers and strings. Each kind has a fixed capacity; the pool
/// starts full, a taken item is counted as in use until it is returned, and a returned item
/// is emptied and kept only while the pool has room for it.
pub struct MemoryPool {
    buffer_pool: Vec<Vec<u8>>,
    buffer_capacity: usize,
    string_pool: Vec<String>,
    string_capacity: usize,
    stats: InternalPoolStats,
}

/// The observable state of a [`MemoryPool`].
pub struct PoolView {
    pub available_buffers: nat,
    pub buffer_capacity: nat,
    pub available_strings: nat,
    pub string_capacity: nat,
    pub total_allocated: usize,
    pub total_freed: usize,
    pub current_usage: usize,
    pub peak_usage: usize,
}

impl View for MemoryPool {
    type V = PoolView;

    closed spec fn view(&self) -> PoolView {
        PoolView {
            available_buffers: self.buffer_pool@.len(),
            buffer_capacity: self.buffer_capacity as nat,
            available_strings: self.string_pool@.len(),
            string_capacity: self.string_capacity as nat,
            total_allocated: self.stats.total_allocated,
            total_freed: self.stats.total_freed,
            current_usage: self.stats.current_usage,
            peak_usage: self.stats.peak_usage,
        }
    }
}

/// The pool's state after `get_buffer`.
pub open spec fn after_get_buffer(v: PoolView) -> PoolView {
    if v.available_buffers > 0 {
        let current = v.current_usage.wrapping_add(BUFFER_BYTES);
        PoolView {
            available_buffers: (v.available_buffers - 1) as nat,
            total_allocated: v.total_allocated.wrapping_add(BUFFER_BYTES),
            current_usage: current,
            peak_usage: if current > v.peak_usage {
                current
            } else {
                v.peak_usage
            },
            ..v
        }
    } else {
        v
    }
}

/// The pool's state after `return_buffer`.
pub open spec fn after_return_buffer(v: PoolView) -> PoolView {
    if v.available_buffers < v.buffer_capacity {
        PoolView {
            available_buffers: v.available_buffers + 1,
            total_freed: v.total_freed.wrapping_add(BUFFER_BYTES),
            current_usage: v.current_usage.wrapping_sub(BUFFER_BYTES),
            ..v
        }
    } else {
        v
    }
}

/// The pool's state after `get_string`.
pub open spec fn after_get_string(v: PoolView) -> PoolView {
    if v.available_strings > 0 {
        let current = v.current_usage.wrapping_add(STRING_BYTES);
        PoolView {
            available_strings: (v.available_strings - 1) as nat,
            total_allocated: v.total_allocated.wrapping_add(STRING_BYTES),
            current_usage: current,
            peak_usage: if current > v.peak_usage {
                current
            } else {
                v.peak_usage
            },
            ..v
        }
    } else {
        v
    }
}

/// The pool's state after `return_string`.
pub open spec fn after_return_string(v: PoolView) -> PoolView {
    if v.available_strings < v.string_capacity {
        PoolView {
            available_strings: v.available_strings + 1,
            total_freed: v.total_freed.wrapping_add(STRING_BYTES),
            current_usage: v.current_usage.wrapping_sub(STRING_BYTES),
            ..v
        }
    } else {
        v
    }
}

/// What the pool guarantees in every state: at most its capacity of each kind is pooled,
/// the current usage is exactly the size of what is out, and the totals agree with it.
pub open spec fn pool_consistent(v: PoolView) -> bool {
    &&& v.available_buffers <= v.buffer_capacity
    &&& v.available_strings <= v.string_capacity
    &&& v.buffer_capacity * BUFFER_BYTES + v.string_capacity * STRING_BYTES <= usize::MAX
    &&& v.current_usage == (v.buffer_capacity - v.available_buffers) * BUFFER_BYTES + (
    v.string_capacity - v.available_strings) * STRING_BYTES
    &&& stats_consistent(
        InternalPoolStats {
            total_allocated: v.total_allocated,
            total_freed: v.total_freed,
            current_usage: v.current_usage,
            peak_usage: v.peak_usage,
        },
    )
}


/// `String::clear`, which empties the string.
#[verifier::external_body]
fn clear_string(s: &mut String)
    ensures
        final(s)@ == Seq::<char>::empty(),
{
    s.clear();
}

impl MemoryPool {
    /// The pool's invariant: [`pool_consistent`], and every pooled item is empty.
    pub closed spec fn wf(&self) -> bool {
        &&& pool_consistent(self@)
        &&& forall|i: int| 0 <= i < self.buffer_pool@.len() ==> (#[trigger] self.buffer_pool@[i])@.len() == 0
        &&& forall|i: int| 0 <= i < self.string_pool@.len() ==> (#[trigger] self.string_pool@[i])@.len() == 0
    }

    /// A full pool of `2 * pool_size` buffers and `pool_size` strings.
    pub fn new(pool_size: usize) -> (r: Self)
        requires
            pool_size * 2 * BUFFER_BYTES + pool_size * STRING_BYTES <= usize::MAX,
        ensures
            r.wf(),
            r@.available_buffers == 2 * pool_size,
            r@.buffer_capacity == 2 * pool_size,
            r@.available_strings == pool_size,
            r@.string_capacity == pool_size,
            r@.total_allocated == 0,
            r@.total_freed == 0,
            r@.current_usage == 0,
            r@.peak_usage == 0,
    {
        let buffer_capacity = pool_size * 2;
        let mut buffer_pool: Vec<Vec<u8>> = Vec::with_capacity(buffer_capacity);
        let mut i: usize = 0;
        while i < buffer_capacity
            invariant
                i <= buffer_capacity,
                buffer_pool@.len() == i,
                forall|k: int| 0 <= k < i ==> (#[trigger] buffer_pool@[k])@.len() == 0,
            decreases buffer_capacity - i,
        {
            buffer_pool.push(Vec::with_capacity(BUFFER_BYTES));
            i = i + 1;
        }
        let mut string_pool: Vec<String> = Vec::with_capacity(pool_size);
        let mut j: usize = 0;
        while j < pool_size
            invariant
                j <= pool_size,
                string_pool@.len() == j,
                forall|k: int| 0 <= k < j ==> (#[trigger] string_pool@[k])@.len() == 0,
            decreases pool_size - j,
        {
            string_pool.push(String::new());
            j = j + 1;
        }
        MemoryPool {
            buffer_pool,
            buffer_capacity,
            string_pool,
            string_capacity: pool_size,
            stats: InternalPoolStats::new(),
        }
    }

    /// Takes a buffer from the pool: an empty one, or `None` when the pool has none left.
    pub fn get_buffer(&mut self) -> (r: Option<Vec<u8>>)
        requires
            old(self).wf(),
        ensures
            final(self).wf(),
            final(self)@ == after_get_buffer(old(self)@),
            r is Some <==> old(self)@.available_buffers > 0,
            r matches Some(b) ==> b@.len() == 0,
    {
        let result = self.buffer_pool.pop();
        if result.is_some() {
            self.stats.record_allocation(BUFFER_BYTES);
        }
        result
    }

    /// Gives a buffer back: it is emptied and kept while the pool is below its capacity,
    /// dropped otherwise.
    pub fn return_buffer(&mut self, buffer: Vec<u8>)
        requires
            old(self).wf(),
        ensures
            final(self).wf(),
            final(self)@ == after_return_buffer(old(self)@),
    {
        let mut buffer = buffer;
        buffer.clear();
        if self.buffer_pool.len() < self.buffer_capacity {
            self.buffer_pool.push(buffer);
            self.stats.record_deallocation(BUFFER_BYTES);
        }
    }

    /// Takes a string from the pool: an empty one, or `None` when the pool has none left.
    pub fn get_string(&mut self) -> (r: Option<String>)
        requires
            old(self).wf(),
        ensures
            final(self).wf(),
            final(self)@ == after_get_string(old(self)@),
            r is Some <==> old(self)@.available_strings > 0,
            r matches Some(s) ==> s@.len() == 0,
    {
        let result = self.string_pool.pop();
        if result.is_some() {
            self.stats.record_allocation(STRING_BYTES);
        }
        result
    }

    /// Gives a string back: it is emptied and kept while the pool is below its capacity,
    /// dropped otherwise.
    pub fn return_string(&mut self, string: String)
        requires
            old(self).wf(),
        ensures
            final(self).wf(),
            final(self)@ == after_return_string(old(self)@),
    {
        let mut string = string;
        clear_string(&mut string);
        if self.string_pool.len() < self.string_capacity {
            self.string_pool.push(string);
            self.stats.record_deallocation(STRING_BYTES);
        }
    }

    /// The pool's statistics.
    pub fn stats(&self) -> (r: PoolStats)
        ensures
            r.available_buffers == self@.available_buffers,
            r.total_pool_size == self@.buffer_capacity,
            r.total_allocated == self@.total_allocated,
            r.total_freed == self@.total_freed,
            r.current_usage == self@.current_usage,
            r.peak_usage == self@.peak_usage,
    {
        PoolStats {
            available_buffers: self.buffer_pool.len(),
            total_pool_size: self.buffer_capacity,
            total_allocated: self.stats.total_allocated,
            total_freed: self.stats.total_freed,
            current_usage: self.stats.current_usage,
            peak_usage: self.stats.peak_usage,
        }
    }
}

impl Default for MemoryPool {
    fn default() -> (r: Self)
        ensures
            r.wf(),
            r@.buffer_capacity == 2000,
            r@.available_buffers == 2000,
            r@.string_capacity == 1000,
            r@.available_strings == 1000,
            r@.current_usage == 0,
    {
        Self::new(1000)
    }
}


/// Taking a buffer and giving it back leaves the pool as it was, but for the totals, which
/// each count the buffer once, and the peak, which has seen it.
pub proof fn lemma_buffer_round_trip(v: PoolView)
    requires
        pool_consistent(v),
        v.available_buffers > 0,
    ensures
        ({
            let w = after_return_buffer(after_get_buffer(v));
            &&& w.available_buffers == v.available_buffers
            &&& w.available_strings == v.available_strings
            &&& w.current_usage == v.current_usage
            &&& w.total_allocated == v.total_allocated.wrapping_add(BUFFER_BYTES)
            &&& w.total_freed == v.total_freed.wrapping_add(BUFFER_BYTES)
            &&& w.peak_usage >= v.current_usage + BUFFER_BYTES
        }),
{
}

/// Taking a string and giving it back leaves the pool as it was, but for the totals, which
/// each count the string once, and the peak, which has seen it.
pub proof fn lemma_string_round_trip(v: PoolView)
    requires
        pool_consistent(v),
        v.available_strings > 0,
    ensures
        ({
            let w = after_return_string(after_get_string(v));
            &&& w.available_buffers == v.available_buffers
            &&& w.available_strings == v.available_strings
            &&& w.current_usage == v.current_usage
            &&& w.total_allocated == v.total_allocated.wrapping_add(STRING_BYTES)
            &&& w.total_freed == v.total_freed.wrapping_add(STRING_BYTES)
            &&& w.peak_usage >= v.current_usage + STRING_BYTES
        }),
{
}

/// A full pool takes nothing back: returning to it changes nothing.
pub proof fn lemma_full_pool_drops_returns(v: PoolView)
    requires
        pool_consistent(v),
        v.available_buffers == v.buffer_capacity,
        v.available_strings == v.string_capacity,
    ensures
        after_return_buffer(v) == v,
        after_return_string(v) == v,
        v.current_usage == 0,
{
}

/// A fresh pool (as `new` makes it) with at least one buffer: taking a buffer and giving
/// it back leaves every buffer pooled again, with one buffer counted in each total, none in
/// use and one at the peak; giving a buffer back to it before any is taken changes nothing.
pub proof fn lemma_fresh_pool_buffer_round_trip(v: PoolView)
    requires
        pool_consistent(v),
        v.buffer_capacity >= 1,
        v.available_buffers == v.buffer_capacity,
        v.available_strings == v.string_capacity,
        v.total_allocated == 0,
        v.total_freed == 0,
        v.peak_usage == 0,
    ensures
        ({
            let w = after_return_buffer(after_get_buffer(v));
            &&& w.available_buffers == v.buffer_capacity
            &&& w.available_strings == v.string_capacity
            &&& w.total_allocated == BUFFER_BYTES
            &&& w.total_freed == BUFFER_BYTES
            &&& w.current_usage == 0
            &&& w.peak_usage == BUFFER_BYTES
        }),
        after_return_buffer(v) == v,
{
}

} // verus!
