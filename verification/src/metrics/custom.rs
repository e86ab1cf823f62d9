//! Which metrics each event updates, and by how much.

use vstd::prelude::*;

verus! {

/// One update of a named metric.
#[derive(Clone, Debug, PartialEq, Eq)]
pub enum MetricUpdate {
    /// Add `value` to a counter, labelled with `label` (key, value) when there is one.
    IncrementCounter { name: &'static str, label: Option<(&'static str, &'static str)>, value: u64 },
    /// Set a gauge to `numerator / denominator`.
    SetGauge { name: &'static str, numerator: usize, denominator: usize },
    /// Record one sample in a histogram.
    RecordHistogram { name: &'static str, value: u64 },
}

/// A parse of a file started: `file_parse_started` goes up by one.
pub fn record_file_parse_start() -> (r: Vec<MetricUpdate>)
    ensures
        r@ == seq![MetricUpdate::IncrementCounter { name: "file_parse_started", label: None, value: 1 }],
{
    vec![MetricUpdate::IncrementCounter { name: "file_parse_started", label: None, value: 1 }]
}

/// A parse of a file completed in `duration_ms`: `file_parse_completed` goes up by one and
/// the duration is recorded in `file_parse_duration_ms`.
pub fn record_file_parse_complete(duration_ms: u64) -> (r: Vec<MetricUpdate>)
    ensures
        r@ == seq![
            MetricUpdate::IncrementCounter { name: "file_parse_completed", label: None, value: 1 },
            MetricUpdate::RecordHistogram { name: "file_parse_duration_ms", value: duration_ms },
        ],
{
    vec![
        MetricUpdate::IncrementCounter { name: "file_parse_completed", label: None, value: 1 },
        MetricUpdate::RecordHistogram { name: "file_parse_duration_ms", value: duration_ms },
    ]
}

/// The memory pool holds `used` of `total` bytes: the used and total gauges are set, and
/// the usage ratio to `used / total`.
pub fn record_memory_pool_usage(used: usize, total: usize) -> (r: Vec<MetricUpdate>)
    ensures
        r@ == seq![
            MetricUpdate::SetGauge { name: "memory_pool_used_bytes", numerator: used, denominator: 1 },
            MetricUpdate::SetGauge { name: "memory_pool_total_bytes", numerator: total, denominator: 1 },
            MetricUpdate::SetGauge { name: "memory_pool_usage_ratio", numerator: used, denominator: total },
        ],
{
    vec![
        MetricUpdate::SetGauge { name: "memory_pool_used_bytes", numerator: used, denominator: 1 },
        MetricUpdate::SetGauge { name: "memory_pool_total_bytes", numerator: total, denominator: 1 },
        MetricUpdate::SetGauge { name: "memory_pool_usage_ratio", numerator: used, denominator: total },
    ]
}

/// `active_workers` of `total_workers` are busy: both gauges are set.
pub fn record_worker_status(active_workers: usize, total_workers: usize) -> (r: Vec<MetricUpdate>)
    ensures
        r@ == seq![
            MetricUpdate::SetGauge { name: "active_workers", numerator: active_workers, denominator: 1 },
            MetricUpdate::SetGauge { name: "total_workers", numerator: total_workers, denominator: 1 },
        ],
{
    vec![
        MetricUpdate::SetGauge { name: "active_workers", numerator: active_workers, denominator: 1 },
        MetricUpdate::SetGauge { name: "total_workers", numerator: total_workers, denominator: 1 },
    ]
}

/// A parse failed with `error_type`: the error counter `can_parser_errors_total`, labelled
/// with the type, goes up by one.
pub fn record_parse_error(error_type: &'static str) -> (r: Vec<MetricUpdate>)
    ensures
        r@ == seq![
            MetricUpdate::IncrementCounter { name: "can_parser_errors_total", label: Some(("type", error_type)), value: 1 },
        ],
{
    vec![MetricUpdate::IncrementCounter { name: "can_parser_errors_total", label: Some(("type", error_type)), value: 1 }]
}

/// Frame counts of a parse: each of the total, valid and invalid counters goes up by its
/// count.
pub fn record_can_frame_stats(total_frames: u64, valid_frames: u64, invalid_frames: u64) -> (r: Vec<MetricUpdate>)
    ensures
        r@ == seq![
            MetricUpdate::IncrementCounter { name: "total_can_frames", label: None, value: total_frames },
            MetricUpdate::IncrementCounter { name: "valid_can_frames", label: None, value: valid_frames },
            MetricUpdate::IncrementCounter { name: "invalid_can_frames", label: None, value: invalid_frames },
        ],
{
    vec![
        MetricUpdate::IncrementCounter { name: "total_can_frames", label: None, value: total_frames },
        MetricUpdate::IncrementCounter { name: "valid_can_frames", label: None, value: valid_frames },
        MetricUpdate::IncrementCounter { name: "invalid_can_frames", label: None, value: invalid_frames },
    ]
}

} // verus!
