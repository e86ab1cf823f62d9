use can_parser::config::Config;
use can_parser::file_cache::{warmup_order, CacheStats};
use can_parser::high_performance_optimizer::{
    split_into_batches, HighPerformanceOptimizer, MemoryMappedProcessor, SIMDProcessor, SuperOptimizedConfig,
    ZeroCopyBufferManager,
};
use can_parser::metrics::custom::{
    record_can_frame_stats, record_file_parse_complete, record_file_parse_start, record_memory_pool_usage,
    record_parse_error, record_worker_status, MetricUpdate,
};
use can_parser::text::{chars_of, parse_u32_chars, split_lines, split_whitespace, trim_chars};
use can_parser::worker::{file_outcome_metrics, name_order, text_lt, RunTally};

#[test]
fn config_new_defaults() {
    let c = Config::new("in".to_string(), "db.dbc".to_string(), "out".to_string(), 8, 16, 512);
    assert_eq!(c.input_dir, "in");
    assert_eq!(c.dbc_file, "db.dbc");
    assert_eq!(c.output_dir, "out");
    assert_eq!(c.workers, 8);
    assert_eq!(c.batch_size, 16);
    assert_eq!(c.memory_pool_size, 512);
    assert_eq!(c.chunk_size, 1024 * 1024);
    assert_eq!(c.max_file_size, 15 * 1024 * 1024);
    assert_eq!(c.cache_max_entries, 1000);
    assert_eq!(c.cache_ttl_seconds, 3600);
}

#[test]
fn config_pool_bytes() {
    let c = Config::new(String::new(), String::new(), String::new(), 1, 1, 3);
    assert_eq!(c.memory_pool_size_bytes(), 3 * 1024 * 1024);
}

#[test]
fn metrics_parse_start() {
    assert_eq!(
        record_file_parse_start(),
        vec![MetricUpdate::IncrementCounter { name: "file_parse_started", label: None, value: 1 }]
    );
}

#[test]
fn metrics_parse_complete() {
    assert_eq!(
        record_file_parse_complete(250),
        vec![
            MetricUpdate::IncrementCounter { name: "file_parse_completed", label: None, value: 1 },
            MetricUpdate::RecordHistogram { name: "file_parse_duration_ms", value: 250 },
        ]
    );
}

#[test]
fn metrics_pool_usage() {
    assert_eq!(
        record_memory_pool_usage(3, 4),
        vec![
            MetricUpdate::SetGauge { name: "memory_pool_used_bytes", numerator: 3, denominator: 1 },
            MetricUpdate::SetGauge { name: "memory_pool_total_bytes", numerator: 4, denominator: 1 },
            MetricUpdate::SetGauge { name: "memory_pool_usage_ratio", numerator: 3, denominator: 4 },
        ]
    );
}

#[test]
fn metrics_worker_status() {
    assert_eq!(
        record_worker_status(2, 8),
        vec![
            MetricUpdate::SetGauge { name: "active_workers", numerator: 2, denominator: 1 },
            MetricUpdate::SetGauge { name: "total_workers", numerator: 8, denominator: 1 },
        ]
    );
}

#[test]
fn metrics_parse_error_label() {
    assert_eq!(
        record_parse_error("bad_header"),
        vec![MetricUpdate::IncrementCounter { name: "can_parser_errors_total", label: Some(("type", "bad_header")), value: 1 }]
    );
}

#[test]
fn metrics_frame_stats() {
    let u = record_can_frame_stats(10, 7, 3);
    assert_eq!(u.len(), 3);
    assert_eq!(u[0], MetricUpdate::IncrementCounter { name: "total_can_frames", label: None, value: 10 });
    assert_eq!(u[1], MetricUpdate::IncrementCounter { name: "valid_can_frames", label: None, value: 7 });
    assert_eq!(u[2], MetricUpdate::IncrementCounter { name: "invalid_can_frames", label: None, value: 3 });
}

#[test]
fn worker_tally_counts() {
    let mut t = RunTally::new();
    let u = t.record_success(12);
    assert_eq!(u, record_file_parse_complete(0));
    let u = t.record_failure();
    assert_eq!(u, record_parse_error("file_processing_error"));
    t.record_success(3);
    assert_eq!(t.processed_files(), 3);
    assert_eq!(t.error_files(), 1);
    assert_eq!(t.total_frames(), 15);
    assert_eq!(t.succeeded_files(), 2);
}

#[test]
fn worker_outcome_metrics() {
    assert_eq!(file_outcome_metrics(true, 40), record_file_parse_complete(40));
    assert_eq!(file_outcome_metrics(false, 40), record_parse_error("parse_timeout_error"));
}

#[test]
fn cache_stats_events() {
    let mut s = CacheStats::empty();
    s.record_hit();
    s.record_miss();
    s.record_miss();
    s.record_load(100, 1);
    s.record_load(50, 2);
    assert_eq!(s.hits, 1);
    assert_eq!(s.misses, 2);
    assert_eq!(s.total_size, 150);
    assert_eq!(s.cache_size, 2);
    s.record_clear();
    assert_eq!(s.total_size, 0);
    assert_eq!(s.hits, 1);
}

#[test]
fn cache_stats_report() {
    let mut s = CacheStats::empty();
    s.record_load(70, 1);
    let r = s.reported(Some(5), None, 9);
    assert_eq!(r.hits, 5);
    assert_eq!(r.misses, 0);
    assert_eq!(r.evictions, 0);
    assert_eq!(r.total_size, 70);
    assert_eq!(r.cache_size, 9);
}

#[test]
fn optimizer_settings() {
    let o = HighPerformanceOptimizer::for_cpu_count(3);
    let bufs = o.create_optimized_buffers(4);
    assert_eq!(bufs.len(), 4);
    assert!(bufs.iter().all(|b| b.is_empty()));
    let files: Vec<String> = (0..130).map(|i| format!("f{}.bin", i)).collect();
    let batches = o.file_batches(files.clone());
    let lens: Vec<usize> = batches.iter().map(|b| b.len()).collect();
    assert_eq!(lens, vec![64, 64, 2]);
    let flat: Vec<String> = batches.into_iter().flatten().collect();
    assert_eq!(flat, files);
}

#[test]
fn split_batches_exact_multiple() {
    let files: Vec<String> = (0..6).map(|i| i.to_string()).collect();
    let batches = split_into_batches(files, 3);
    assert_eq!(batches, vec![vec!["0", "1", "2"], vec!["3", "4", "5"]]);
    assert!(split_into_batches(Vec::new(), 3).is_empty());
}

#[test]
fn simd_adds_one_wrapping() {
    assert_eq!(SIMDProcessor::process_bytes_simd(&[0, 1, 254, 255]), vec![1, 2, 255, 0]);
    let long: Vec<u8> = (0..200u32).map(|i| i as u8).collect();
    let out = SIMDProcessor::process_bytes_simd(&long);
    assert_eq!(out.len(), 200);
    assert_eq!(out[199], 200);
}

#[test]
fn zero_copy_round_robin() {
    let mut m = ZeroCopyBufferManager::new(3, 16);
    for _ in 0..7 {
        assert!(m.get_buffer().is_empty());
    }
}

#[test]
fn memory_map_threshold() {
    let p = MemoryMappedProcessor::new();
    assert!(!p.uses_memory_map(4 * 1024 * 1024));
    assert!(p.uses_memory_map(4 * 1024 * 1024 + 1));
}

#[test]
fn super_config_profiles() {
    let d = SuperOptimizedConfig::default();
    assert!(d.use_rayon_parallel && d.use_simd_processing && d.use_zero_copy_buffers);
    assert!(d.use_memory_mapping && d.aggressive_prefetch);
    assert!(!d.cpu_affinity_optimization);
    let e = SuperOptimizedConfig::extreme_performance();
    assert!(e.cpu_affinity_optimization);
}

#[test]
fn text_lines_and_words() {
    let lines = split_lines(&chars_of("a b\r\n  c\n\nd"));
    let shown: Vec<String> = lines.iter().map(|l| l.iter().collect()).collect();
    assert_eq!(shown, vec!["a b", "  c", "", "d"]);
    let words = split_whitespace(&chars_of("  BO_ 100\tX:  8 "));
    let shown: Vec<String> = words.iter().map(|w| w.iter().collect()).collect();
    assert_eq!(shown, vec!["BO_", "100", "X:", "8"]);
    assert_eq!(trim_chars(&chars_of("  x y \t")).iter().collect::<String>(), "x y");
}

#[test]
fn text_numbers() {
    assert_eq!(parse_u32_chars(&chars_of("4294967295")), Some(u32::MAX));
    assert_eq!(parse_u32_chars(&chars_of("4294967296")), None);
    assert_eq!(parse_u32_chars(&chars_of("+7")), Some(7));
    assert_eq!(parse_u32_chars(&chars_of("")), None);
    assert_eq!(parse_u32_chars(&chars_of("1a")), None);
}

#[test]
fn warmup_smallest_first_ties_in_order() {
    assert_eq!(warmup_order(&[30, 10, 20, 10]), vec![1, 3, 2, 0]);
    assert!(warmup_order(&[]).is_empty());
}

#[test]
fn warmup_at_most_100_files() {
    let sizes: Vec<u64> = (0..150u64).map(|i| 1000 - i).collect();
    let order = warmup_order(&sizes);
    assert_eq!(order.len(), 100);
    assert_eq!(order[0], 149);
    assert_eq!(order[99], 50);
}

#[test]
fn names_sorted_by_characters() {
    let names: Vec<String> = ["b.bin", "a.bin", "ab.bin", "a.bin", "B.bin"].iter().map(|s| s.to_string()).collect();
    assert_eq!(name_order(&names), vec![4, 1, 3, 2, 0]);
    assert!(name_order(&Vec::new()).is_empty());
}

#[test]
fn text_order_prefix_first() {
    assert!(text_lt(&['a'], &['a', 'b']));
    assert!(!text_lt(&['a', 'b'], &['a']));
    assert!(!text_lt(&['a'], &['a']));
    assert!(text_lt(&['A'], &['a']));
}
