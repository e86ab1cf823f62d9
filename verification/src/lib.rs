//! CAN log parsing: a layered binary frame format read in several ways, a DBC signal
//! database with bit-exact signal extraction, and the bookkeeping of the drivers that run
//! the parsers over directories: pooled buffers, batches, cache counters and metrics.

pub mod wire;
pub mod signal_decode;
pub mod text;
pub mod dbc_parser;
pub mod compression;
pub mod platform;
pub mod frame_parser;
pub mod memory_pool;
pub mod concurrent_frame_parser;
pub mod batch_concurrent_parser;
pub mod async_pipeline;
pub mod high_performance_optimizer;
pub mod ultra_fast_worker;
pub mod config;
pub mod file_cache;
pub mod metrics;
pub mod worker;
