//! The worker's bookkeeping: the order it takes files in, what a run has counted of the
//! files it handled, and which metrics each outcome updates.

use vstd::prelude::*;
use crate::metrics::custom::{MetricUpdate, record_file_parse_complete, record_parse_error};
use crate::text::chars_of;

verus! {

/// Files handled, files that failed and frames parsed, so far in a run.
pub struct RunTally {
    processed_files: usize,
    error_files: usize,
    total_frames: usize,
}

impl RunTally {
    #[verifier::type_invariant]
    spec fn failures_counted(&self) -> bool {
        self.error_files <= self.processed_files
    }

    /// Files handled.
    pub closed spec fn processed(&self) -> nat {
        self.processed_files as nat
    }

    /// Files that failed.
    pub closed spec fn errors(&self) -> nat {
        self.error_files as nat
    }

    /// Frames parsed from the files that did not fail.
    pub closed spec fn frames(&self) -> nat {
        self.total_frames as nat
    }

    /// Nothing counted yet.
    pub fn new() -> (r: Self)
        ensures
            r.processed() == 0,
            r.errors() == 0,
            r.frames() == 0,
    {
        RunTally { processed_files: 0, error_files: 0, total_frames: 0 }
    }

    /// A file parsed into `frame_count` frames; returns the metric updates it makes.
    pub fn record_success(&mut self, frame_count: usize) -> (r: Vec<MetricUpdate>)
        requires
            old(self).processed() < usize::MAX,
            old(self).frames() + frame_count <= usize::MAX,
        ensures
            final(self).processed() == old(self).processed() + 1,
            final(self).errors() == old(self).errors(),
            final(self).frames() == old(self).frames() + frame_count,
            r@ == seq![
                MetricUpdate::IncrementCounter { name: "file_parse_completed", label: None, value: 1 },
                MetricUpdate::RecordHistogram { name: "file_parse_duration_ms", value: 0 },
            ],
    {
        proof {
            use_type_invariant(&*self);
        }
        self.processed_files = self.processed_files + 1;
        self.total_frames = self.total_frames + frame_count;
        record_file_parse_complete(0)
    }

    /// A file failed; returns the metric updates it makes.
    pub fn record_failure(&mut self) -> (r: Vec<MetricUpdate>)
        requires
            old(self).processed() < usize::MAX,
        ensures
            final(self).processed() == old(self).processed() + 1,
            final(self).errors() == old(self).errors() + 1,
            final(self).frames() == old(self).frames(),
            r@ == seq![
                MetricUpdate::IncrementCounter {
                    name: "can_parser_errors_total",
                    label: Some(("type", "file_processing_error")),
                    value: 1,
                },
            ],
    {
        proof {
            use_type_invariant(&*self);
        }
        self.processed_files = self.processed_files + 1;
        self.error_files = self.error_files + 1;
        record_parse_error("file_processing_error")
    }

    /// Files handled.
    pub fn processed_files(&self) -> (r: usize)
        ensures
            r == self.processed(),
    {
        self.processed_files
    }

    /// Files that failed.
    pub fn error_files(&self) -> (r: usize)
        ensures
            r == self.errors(),
    {
        self.error_files
    }

    /// Frames parsed.
    pub fn total_frames(&self) -> (r: usize)
        ensures
            r == self.frames(),
    {
        self.total_frames
    }

    /// Files that did not fail: with the failures, every file handled.
    pub fn succeeded_files(&self) -> (r: usize)
        ensures
            r + self.errors() == self.processed(),
    {
        proof {
            use_type_invariant(self);
        }
        self.processed_files - self.error_files
    }
}

/// The metric updates for one file's parse: its duration when it succeeded, a
/// `parse_timeout_error` when it failed.
pub fn file_outcome_metrics(succeeded: bool, duration_ms: u64) -> (r: Vec<MetricUpdate>)
    ensures
        succeeded ==> r@ == seq![
            MetricUpdate::IncrementCounter { name: "file_parse_completed", label: None, value: 1 },
            MetricUpdate::RecordHistogram { name: "file_parse_duration_ms", value: duration_ms },
        ],
        !succeeded ==> r@ == seq![
            MetricUpdate::IncrementCounter {
                name: "can_parser_errors_total",
                label: Some(("type", "parse_timeout_error")),
                value: 1,
            },
        ],
{
    if succeeded {
        record_file_parse_complete(duration_ms)
    } else {
        record_parse_error("parse_timeout_error")
    }
}

/// `a` sorts before `b` character by character; a proper prefix sorts first.
pub open spec fn text_less(a: Seq<char>, b: Seq<char>) -> bool
    decreases a.len(),
{
    if a.len() == 0 {
        b.len() > 0
    } else if b.len() == 0 {
        false
    } else if a[0] != b[0] {
        (a[0] as int) < (b[0] as int)
    } else {
        text_less(a.drop_first(), b.drop_first())
    }
}

/// Two texts are equal or one sorts before the other.
pub proof fn lemma_text_less_total(a: Seq<char>, b: Seq<char>)
    ensures
        a == b || text_less(a, b) || text_less(b, a),
        !(text_less(a, b) && text_less(b, a)),
    decreases a.len(),
{
    if a.len() > 0 && b.len() > 0 && a[0] == b[0] {
        lemma_text_less_total(a.drop_first(), b.drop_first());
        if a.drop_first() == b.drop_first() {
            assert forall|i: int| 0 <= i < a.len() implies a[i] == b[i] by {
                if i > 0 {
                    assert(a[i] == a.drop_first()[i - 1]);
                    assert(b[i] == b.drop_first()[i - 1]);
                }
            }
            assert(a =~= b);
        }
    } else if a.len() == 0 && b.len() == 0 {
        assert(a =~= b);
    }
}

/// Sorting before is transitive.
pub proof fn lemma_text_less_trans(a: Seq<char>, b: Seq<char>, c: Seq<char>)
    requires
        text_less(a, b),
        text_less(b, c),
    ensures
        text_less(a, c),
    decreases a.len(),
{
    if a.len() > 0 && b.len() > 0 && c.len() > 0 && a[0] == b[0] && b[0] == c[0] {
        lemma_text_less_trans(a.drop_first(), b.drop_first(), c.drop_first());
    }
}

/// File `a` comes before file `b` by name; of two equal names the one listed first.
pub open spec fn name_before(names: Seq<Seq<char>>, a: int, b: int) -> bool {
    text_less(names[a], names[b]) || (names[a] == names[b] && a < b)
}

/// Whether `a` sorts before `b`.
pub fn text_lt(a: &[char], b: &[char]) -> (r: bool)
    ensures
        r == text_less(a@, b@),
{
    let mut i: usize = 0;
    assert(a@.skip(0) =~= a@);
    assert(b@.skip(0) =~= b@);
    while i < a.len() && i < b.len() && a[i] == b[i]
        invariant
            i <= a@.len(),
            i <= b@.len(),
            text_less(a@, b@) == text_less(a@.skip(i as int), b@.skip(i as int)),
        decreases a@.len() - i,
    {
        assert(a@.skip(i as int).drop_first() =~= a@.skip(i + 1));
        assert(b@.skip(i as int).drop_first() =~= b@.skip(i + 1));
        i = i + 1;
    }
    if i == a.len() {
        i < b.len()
    } else if i == b.len() {
        false
    } else {
        a[i] < b[i]
    }
}

/// The order a run takes files in: the indices of `names`, sorted by name, equal names in
/// the order listed.
pub fn name_order(names: &Vec<String>) -> (r: Vec<usize>)
    ensures
        r@.len() == names@.len(),
        forall|i: int| 0 <= i < r@.len() ==> (#[trigger] r@[i]) < names@.len(),
        forall|m: usize| m < names@.len() ==> #[trigger] r@.contains(m),
        forall|i: int, j: int|
            0 <= i < j < r@.len() ==> name_before(
                names@.map_values(|s: String| s@),
                #[trigger] r@[i] as int,
                #[trigger] r@[j] as int,
            ),
{
    let n = names.len();
    let ghost ns = names@.map_values(|s: String| s@);
    let mut texts: Vec<Vec<char>> = Vec::new();
    let mut t: usize = 0;
    while t < n
        invariant
            t <= n == names@.len() == ns.len(),
            ns == names@.map_values(|s: String| s@),
            texts@.len() == t,
            forall|m: int| 0 <= m < t ==> (#[trigger] texts@[m])@ == ns[m],
        decreases n - t,
    {
        texts.push(chars_of(names[t].as_str()));
        t = t + 1;
    }
    let mut order: Vec<usize> = Vec::new();
    let mut k: usize = 0;
    while k < n
        invariant
            k <= n == ns.len() == texts@.len(),
            forall|m: int| 0 <= m < n ==> (#[trigger] texts@[m])@ == ns[m],
            order@.len() == k,
            forall|m: int| 0 <= m < order@.len() ==> (#[trigger] order@[m]) < k,
            forall|m: usize| m < k ==> #[trigger] order@.contains(m),
            forall|i: int, j: int|
                0 <= i < j < order@.len() ==> name_before(ns, #[trigger] order@[i] as int, #[trigger] order@[j] as int),
        decreases n - k,
    {
        let mut p: usize = 0;
        while p < order.len() && !text_lt(texts[k].as_slice(), texts[order[p]].as_slice())
            invariant
                p <= order@.len() == k,
                k < n == ns.len() == texts@.len(),
                forall|m: int| 0 <= m < n ==> (#[trigger] texts@[m])@ == ns[m],
                forall|m: int| 0 <= m < order@.len() ==> (#[trigger] order@[m]) < k,
                forall|q: int| 0 <= q < p ==> !text_less(ns[k as int], ns[#[trigger] order@[q] as int]),
            decreases order@.len() - p,
        {
            p = p + 1;
        }
        let ghost before = order@;
        order.insert(p, k);
        proof {
            let after = order@;
            assert(after == before.insert(p as int, k));
            assert forall|i: int, j: int| 0 <= i < j < after.len() implies name_before(ns, #[trigger] after[i] as int, #[trigger] after[j] as int) by {
                if j < p {
                    assert(after[i] == before[i] && after[j] == before[j]);
                } else if j == p {
                    assert(after[i] == before[i]);
                    assert(!text_less(ns[k as int], ns[before[i] as int]));
                    lemma_text_less_total(ns[k as int], ns[before[i] as int]);
                } else if i > p {
                    assert(after[i] == before[i - 1] && after[j] == before[j - 1]);
                } else if i == p {
                    assert(after[j] == before[j - 1]);
                    let x = ns[k as int];
                    let y = ns[before[p as int] as int];
                    let z = ns[before[j - 1] as int];
                    assert(text_less(x, y));
                    if j - 1 > p {
                        assert(name_before(ns, before[p as int] as int, before[j - 1] as int));
                        if text_less(y, z) {
                            lemma_text_less_trans(x, y, z);
                        }
                    }
                } else {
                    assert(after[i] == before[i] && after[j] == before[j - 1]);
                }
            }
            assert forall|m: int| 0 <= m < after.len() implies (#[trigger] after[m]) < k + 1 by {
                if m < p {
                    assert(after[m] == before[m]);
                } else if m > p {
                    assert(after[m] == before[m - 1]);
                }
            }
            assert forall|m: usize| m < k + 1 implies #[trigger] after.contains(m) by {
                if m == k {
                    assert(after[p as int] == k);
                } else {
                    assert(before.contains(m));
                    let q = choose|q: int| 0 <= q < before.len() && before[q] == m;
                    if q < p {
                        assert(after[q] == before[q]);
                    } else {
                        assert(after[q + 1] == before[q]);
                    }
                }
            }
        }
        k = k + 1;
    }
    order
}

} // verus!
