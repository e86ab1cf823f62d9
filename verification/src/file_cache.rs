//! The file cache's counters, how each cache event changes them, and which files a warmup
//! loads.

use vstd::prelude::*;

verus! {

/// What the file cache reports: lookups that hit and missed, entries evicted, bytes
/// loaded and entries held.
#[derive(Clone, Copy, Debug)]
pub struct CacheStats {
    pub hits: u64,
    pub misses: u64,
    pub evictions: u64,
    pub total_size: usize,
    pub cache_size: usize,
}

impl CacheStats {
    /// Nothing counted yet.
    pub fn empty() -> (r: Self)
        ensures
            r == (CacheStats { hits: 0, misses: 0, evictions: 0, total_size: 0, cache_size: 0 }),
    {
        CacheStats { hits: 0, misses: 0, evictions: 0, total_size: 0, cache_size: 0 }
    }

    /// A lookup found its file in the cache.
    pub fn record_hit(&mut self)
        requires
            old(self).hits < u64::MAX,
        ensures
            *final(self) == (CacheStats { hits: (old(self).hits + 1) as u64, ..*old(self) }),
    {
        self.hits = self.hits + 1;
    }

    /// A lookup did not find its file in the cache.
    pub fn record_miss(&mut self)
        requires
            old(self).misses < u64::MAX,
        ensures
            *final(self) == (CacheStats { misses: (old(self).misses + 1) as u64, ..*old(self) }),
    {
        self.misses = self.misses + 1;
    }

    /// A file of `size` bytes was loaded into the cache, which now holds `cache_size`
    /// entries.
    pub fn record_load(&mut self, size: usize, cache_size: usize)
        requires
            old(self).total_size + size <= usize::MAX,
        ensures
            *final(self) == (CacheStats {
                total_size: (old(self).total_size + size) as usize,
                cache_size,
                ..*old(self)
            }),
    {
        self.total_size = self.total_size + size;
        self.cache_size = cache_size;
    }

    /// The cache was emptied: no bytes are counted as loaded.
    pub fn record_clear(&mut self)
        ensures
            *final(self) == (CacheStats { total_size: 0, ..*old(self) }),
    {
        self.total_size = 0;
    }

    /// The report: the hits and misses the cache itself counted (0 where it counts none),
    /// no evictions, the bytes counted here and the entries the cache holds.
    pub fn reported(&self, cache_hits: Option<u64>, cache_misses: Option<u64>, cache_size: usize) -> (r: Self)
        ensures
            r.hits == match cache_hits { Some(h) => h, None => 0 },
            r.misses == match cache_misses { Some(m) => m, None => 0 },
            r.evictions == 0,
            r.total_size == self.total_size,
            r.cache_size == cache_size,
    {
        CacheStats {
            hits: match cache_hits {
                Some(h) => h,
                None => 0,
            },
            misses: match cache_misses {
                Some(m) => m,
                None => 0,
            },
            evictions: 0,
            total_size: self.total_size,
            cache_size,
        }
    }
}

/// Files a warmup loads at most.
pub const WARMUP_FILES: usize = 100;

/// File `a` is loaded before file `b` in a warmup: the smaller first, and of two files of
/// the same size the one found first.
pub open spec fn warms_before(sizes: Seq<u64>, a: int, b: int) -> bool {
    sizes[a] < sizes[b] || (sizes[a] == sizes[b] && a < b)
}

/// `r` lists files of `sizes` in warmup order.
pub open spec fn in_warmup_order(sizes: Seq<u64>, r: Seq<usize>) -> bool {
    &&& forall|i: int| 0 <= i < r.len() ==> (#[trigger] r[i]) < sizes.len()
    &&& forall|i: int, j: int| 0 <= i < j < r.len() ==> warms_before(sizes, #[trigger] r[i] as int, #[trigger] r[j] as int)
}

/// The files a warmup loads, given the files' sizes in the order they were found: the
/// `WARMUP_FILES` smallest (or all of them), smallest first, ties in the order found.
pub fn warmup_order(sizes: &[u64]) -> (r: Vec<usize>)
    ensures
        r@.len() == if sizes@.len() < WARMUP_FILES { sizes@.len() } else { WARMUP_FILES as nat },
        in_warmup_order(sizes@, r@),
        forall|i: int, k: usize|
            0 <= i < r@.len() && k < sizes@.len() && !(#[trigger] r@.contains(k)) ==> warms_before(
                sizes@,
                #[trigger] r@[i] as int,
                k as int,
            ),
{
    let n = sizes.len();
    let ghost s = sizes@;
    let mut order: Vec<usize> = Vec::new();
    let mut k: usize = 0;
    while k < n
        invariant
            k <= n == s.len(),
            s == sizes@,
            order@.len() == k,
            in_warmup_order(s, order@),
            forall|m: int| 0 <= m < order@.len() ==> (#[trigger] order@[m]) < k,
            forall|m: usize| m < k ==> #[trigger] order@.contains(m),
        decreases n - k,
    {
        let mut p: usize = 0;
        while p < order.len() && sizes[order[p]] <= sizes[k]
            invariant
                p <= order@.len() == k,
                k < n == s.len(),
                s == sizes@,
                in_warmup_order(s, order@),
                forall|m: int| 0 <= m < order@.len() ==> (#[trigger] order@[m]) < k,
                forall|q: int| 0 <= q < p ==> s[#[trigger] order@[q] as int] <= s[k as int],
            decreases order@.len() - p,
        {
            p = p + 1;
        }
        let ghost before = order@;
        order.insert(p, k);
        proof {
            let after = order@;
            assert(after == before.insert(p as int, k));
            assert forall|i: int, j: int| 0 <= i < j < after.len() implies warms_before(s, #[trigger] after[i] as int, #[trigger] after[j] as int) by {
                if j < p {
                    assert(after[i] == before[i] && after[j] == before[j]);
                } else if j == p {
                    assert(after[i] == before[i]);
                    assert(s[before[i] as int] <= s[k as int]);
                } else if i > p {
                    assert(after[i] == before[i - 1] && after[j] == before[j - 1]);
                } else if i == p {
                    assert(after[j] == before[j - 1]);
                    assert(p < before.len());
                    assert(s[before[p as int] as int] > s[k as int]);
                    if j - 1 > p {
                        assert(warms_before(s, before[p as int] as int, before[j - 1] as int));
                    }
                } else {
                    assert(after[i] == before[i] && after[j] == before[j - 1]);
                }
            }
            assert forall|m: usize| m < k + 1 implies #[trigger] after.contains(m) by {
                if m == k {
                    assert(after[p as int] == k);
                } else {
                    assert(before.contains(m));
                    let q = choose|q: int| 0 <= q < before.len() && before[q] == m;
                    if q < p {
                        assert(after[q] == before[q]);
                    } else {
                        assert(after[q + 1] == before[q]);
                    }
                }
            }
            assert forall|m: int| 0 <= m < after.len() implies (#[trigger] after[m]) < k + 1 by {
                if m < p {
                    assert(after[m] == before[m]);
                } else if m > p {
                    assert(after[m] == before[m - 1]);
                }
            }
        }
        k = k + 1;
    }
    let ghost full = order@;
    let count = if n < WARMUP_FILES {
        n
    } else {
        WARMUP_FILES
    };
    order.truncate(count);
    proof {
        let r = order@;
        assert(r == full.subrange(0, count as int));
        assert forall|i: int, m: usize|
            0 <= i < r.len() && m < s.len() && !(#[trigger] r.contains(m)) implies warms_before(s, #[trigger] r[i] as int, m as int) by {
            assert(full.contains(m));
            let q = choose|q: int| 0 <= q < full.len() && full[q] == m;
            if q < count {
                assert(r[q] == m as usize);
            }
            assert(r[i] == full[i]);
        }
    }
    order
}

} // verus!
