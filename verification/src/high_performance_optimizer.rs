//! Tuning pieces of the fast path: its worker counts and file batches, the byte transform,
//! round-robin buffers, the memory-map threshold and the optimisation switches.

use vstd::prelude::*;

verus! {

/// Worker counts, preallocation and batch size of the fast path.
pub struct HighPerformanceOptimizer {
    parallel_workers: usize,
    io_permits: usize,
    prealloc_size: usize,
    batch_size: usize,
}

/// Files of `bs`, batch after batch.
pub open spec fn batched_files(bs: Seq<Vec<String>>) -> Seq<String>
    decreases bs.len(),
{
    if bs.len() == 0 {
        seq![]
    } else {
        batched_files(bs.drop_last()) + bs.last()@
    }
}

/// `bs` are batches of exactly `size` files but the last, which holds from one to `size`.
pub open spec fn batches_sized(bs: Seq<Vec<String>>, size: int) -> bool {
    forall|k: int|
        0 <= k < bs.len() ==> if k + 1 < bs.len() {
            (#[trigger] bs[k])@.len() == size
        } else {
            1 <= bs[k]@.len() <= size
        }
}

impl HighPerformanceOptimizer {
    #[verifier::type_invariant]
    spec fn batches_nonempty(&self) -> bool {
        self.batch_size > 0
    }

    /// Parallel workers: four per CPU (wrapping as release arithmetic does).
    pub closed spec fn parallel_workers_view(&self) -> usize {
        self.parallel_workers
    }

    /// I/O permits: two per CPU (wrapping as release arithmetic does).
    pub closed spec fn io_permits_view(&self) -> usize {
        self.io_permits
    }

    /// Bytes reserved for each preallocated buffer.
    pub closed spec fn prealloc_size_view(&self) -> usize {
        self.prealloc_size
    }

    /// Files handled per batch.
    pub closed spec fn batch_size_view(&self) -> usize {
        self.batch_size
    }

    /// The settings for `cpu_count` CPUs.
    pub fn for_cpu_count(cpu_count: usize) -> (r: Self)
        ensures
            r.parallel_workers_view() == cpu_count.wrapping_mul(4),
            r.io_permits_view() == cpu_count.wrapping_mul(2),
            r.prealloc_size_view() == 32 * 1024 * 1024,
            r.batch_size_view() == 64,
    {
        HighPerformanceOptimizer {
            parallel_workers: cpu_count.wrapping_mul(4),
            io_permits: cpu_count.wrapping_mul(2),
            prealloc_size: 32 * 1024 * 1024,
            batch_size: 64,
        }
    }

    /// The settings for this machine's CPUs.
    pub fn new() -> (r: Self)
        ensures
            exists|cpu_count: usize|
                cpu_count >= 1 && r.parallel_workers_view() == cpu_count.wrapping_mul(4)
                    && r.io_permits_view() == cpu_count.wrapping_mul(2),
            r.prealloc_size_view() == 32 * 1024 * 1024,
            r.batch_size_view() == 64,
    {
        let cpu_count = crate::platform::cpu_count();
        Self::for_cpu_count(cpu_count)
    }

    /// `count` empty buffers, each meant to reserve the preallocation size.
    pub fn create_optimized_buffers(&self, count: usize) -> (r: Vec<Vec<u8>>)
        ensures
            r@.len() == count,
            forall|k: int| 0 <= k < count ==> (#[trigger] r@[k])@.len() == 0,
    {
        let mut out: Vec<Vec<u8>> = Vec::new();
        let mut i: usize = 0;
        while i < count
            invariant
                i <= count,
                out@.len() == i,
                forall|k: int| 0 <= k < i ==> (#[trigger] out@[k])@.len() == 0,
            decreases count - i,
        {
            out.push(Vec::with_capacity(self.prealloc_size));
            i = i + 1;
        }
        out
    }

    /// The files split into batches of the batch size, in order, the last batch holding
    /// what is left.
    pub fn file_batches(&self, file_paths: Vec<String>) -> (r: Vec<Vec<String>>)
        ensures
            batched_files(r@) == file_paths@,
            batches_sized(r@, self.batch_size_view() as int),
    {
        proof {
            use_type_invariant(self);
        }
        split_into_batches(file_paths, self.batch_size)
    }
}

/// The files split into batches of `size`, in order, the last batch holding what is left.
pub fn split_into_batches(file_paths: Vec<String>, size: usize) -> (r: Vec<Vec<String>>)
    requires
        size > 0,
    ensures
        batched_files(r@) == file_paths@,
        batches_sized(r@, size as int),
{
    let ghost all = file_paths@;
    let mut batches: Vec<Vec<String>> = Vec::new();
    let mut current: Vec<String> = Vec::new();
    for path in it: file_paths
        invariant
            all == it.seq(),
            size > 0,
            batched_files(batches@) + current@ == all.take(it.index() as int),
            batches_sized(batches@, size as int),
            forall|k: int| 0 <= k < batches@.len() ==> (#[trigger] batches@[k])@.len() == size,
            current@.len() < size,
    {
        let ghost i = it.index() as int;
        proof {
            assert(all.take(i + 1) =~= all.take(i).push(path));
        }
        current.push(path);
        if current.len() == size {
            let ghost before = batches@;
            let full = current;
            batches.push(full);
            current = Vec::new();
            proof {
                assert(batches@.drop_last() =~= before);
                assert(batched_files(batches@) + current@ =~= batched_files(before) + full@);
            }
        }
    }
    proof {
        assert(all.take(all.len() as int) =~= all);
    }
    if current.len() > 0 {
        let ghost before = batches@;
        let cur = current;
        batches.push(cur);
        proof {
            assert(batches@.drop_last() =~= before);
        }
    } else {
        proof {
            assert(batched_files(batches@) + current@ =~= batched_files(batches@));
        }
    }
    batches
}

/// The byte transform of the fast path: every byte plus one, wrapping at 256.
pub open spec fn next_byte(b: u8) -> u8 {
    if b == 255 {
        0
    } else {
        (b + 1) as u8
    }
}

/// The fast path's byte transform.
pub struct SIMDProcessor;

impl SIMDProcessor {
    /// Adds one to every byte, wrapping at 256.
    pub fn process_bytes_simd(data: &[u8]) -> (r: Vec<u8>)
        ensures
            r@.len() == data@.len(),
            forall|k: int| 0 <= k < data@.len() ==> #[trigger] r@[k] == next_byte(data@[k]),
    {
        let mut out: Vec<u8> = Vec::new();
        let mut i: usize = 0;
        while i < data.len()
            invariant
                i <= data@.len(),
                out@.len() == i,
                forall|k: int| 0 <= k < i ==> #[trigger] out@[k] == next_byte(data@[k]),
            decreases data@.len() - i,
        {
            out.push(data[i].wrapping_add(1));
            i = i + 1;
        }
        out
    }
}

/// Buffers handed out in turn.
pub struct ZeroCopyBufferManager {
    buffers: Vec<Vec<u8>>,
    current_index: usize,
}

impl ZeroCopyBufferManager {
    /// The buffers.
    pub closed spec fn buffers_view(&self) -> Seq<Vec<u8>> {
        self.buffers@
    }

    /// How many buffers have been handed out, wrapping at the word size.
    pub closed spec fn handed_out(&self) -> usize {
        self.current_index
    }

    /// `buffer_count` empty buffers, each meant to reserve `buffer_size` bytes; none handed
    /// out yet.
    pub fn new(buffer_count: usize, buffer_size: usize) -> (r: Self)
        ensures
            r.buffers_view().len() == buffer_count,
            forall|k: int| 0 <= k < buffer_count ==> (#[trigger] r.buffers_view()[k])@.len() == 0,
            r.handed_out() == 0,
    {
        let mut buffers: Vec<Vec<u8>> = Vec::new();
        let mut i: usize = 0;
        while i < buffer_count
            invariant
                i <= buffer_count,
                buffers@.len() == i,
                forall|k: int| 0 <= k < i ==> (#[trigger] buffers@[k])@.len() == 0,
            decreases buffer_count - i,
        {
            buffers.push(Vec::with_capacity(buffer_size));
            i = i + 1;
        }
        ZeroCopyBufferManager { buffers, current_index: 0 }
    }

    /// The next buffer in turn: the count handed out so far, modulo the number of buffers.
    pub fn get_buffer(&mut self) -> (r: &Vec<u8>)
        requires
            old(self).buffers_view().len() > 0,
        ensures
            final(self).buffers_view() == old(self).buffers_view(),
            final(self).handed_out() == old(self).handed_out().wrapping_add(1),
            *r == old(self).buffers_view()[(old(self).handed_out() as int) % (old(self).buffers_view().len() as int)],
    {
        let index = self.current_index % self.buffers.len();
        self.current_index = self.current_index.wrapping_add(1);
        &self.buffers[index]
    }
}

/// Chooses between reading a file and mapping it into memory.
pub struct MemoryMappedProcessor {
    mmap_threshold: usize,
}

impl MemoryMappedProcessor {
    /// Files larger than this many bytes are mapped.
    pub closed spec fn threshold(&self) -> usize {
        self.mmap_threshold
    }

    /// Maps files above 4 MiB.
    pub fn new() -> (r: Self)
        ensures
            r.threshold() == 4 * 1024 * 1024,
    {
        MemoryMappedProcessor { mmap_threshold: 4 * 1024 * 1024 }
    }

    /// Whether a file of `file_size` bytes is mapped rather than read.
    pub fn uses_memory_map(&self, file_size: usize) -> (r: bool)
        ensures
            r == (file_size > self.threshold()),
    {
        file_size > self.mmap_threshold
    }
}

/// Which optimisations the fast path applies.
#[derive(Clone, Copy, Debug)]
pub struct SuperOptimizedConfig {
    pub use_rayon_parallel: bool,
    pub use_simd_processing: bool,
    pub use_zero_copy_buffers: bool,
    pub use_memory_mapping: bool,
    pub aggressive_prefetch: bool,
    pub cpu_affinity_optimization: bool,
}

impl Default for SuperOptimizedConfig {
    /// Every optimisation but pinning threads to CPUs.
    fn default() -> (r: Self)
        ensures
            r.use_rayon_parallel,
            r.use_simd_processing,
            r.use_zero_copy_buffers,
            r.use_memory_mapping,
            r.aggressive_prefetch,
            !r.cpu_affinity_optimization,
    {
        SuperOptimizedConfig {
            use_rayon_parallel: true,
            use_simd_processing: true,
            use_zero_copy_buffers: true,
            use_memory_mapping: true,
            aggressive_prefetch: true,
            cpu_affinity_optimization: false,
        }
    }
}

impl SuperOptimizedConfig {
    /// Every optimisation, pinning threads to CPUs included.
    pub fn extreme_performance() -> (r: Self)
        ensures
            r.use_rayon_parallel,
            r.use_simd_processing,
            r.use_zero_copy_buffers,
            r.use_memory_mapping,
            r.aggressive_prefetch,
            r.cpu_affinity_optimization,
    {
        SuperOptimizedConfig {
            use_rayon_parallel: true,
            use_simd_processing: true,
            use_zero_copy_buffers: true,
            use_memory_mapping: true,
            aggressive_prefetch: true,
            cpu_affinity_optimization: true,
        }
    }
}

} // verus!
