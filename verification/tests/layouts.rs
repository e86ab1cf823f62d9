use std::io::Write;
use std::sync::Arc;

use can_parser::async_pipeline::{parse_chunk, parse_data_parallel, PipelineConfig};
use can_parser::batch_concurrent_parser::{BatchConcurrentParser, BatchProcessConfig, DataBatch};
use can_parser::concurrent_frame_parser::{ConcurrentFrameParser, ConcurrentParseConfig};
use can_parser::dbc_parser::DbcParser;
use can_parser::frame_parser::{FileLevelData, FrameError};
use can_parser::ultra_fast_worker::{optimal_batch_size, parse_chunk_to_frames, parse_frames_optimized, process_data_ultra_fast};

fn gzip(data: &[u8]) -> Vec<u8> {
    let mut enc = flate2::write::GzEncoder::new(Vec::new(), flate2::Compression::default());
    enc.write_all(data).unwrap();
    enc.finish().unwrap()
}

fn file_block(compressed: &[u8]) -> Vec<u8> {
    let mut out = vec![0u8; 31];
    out.extend_from_slice(&(compressed.len() as u32).to_be_bytes());
    out.extend_from_slice(compressed);
    out
}

/// A record with a 24-byte header: 20 bytes, then the big-endian length, then the bytes.
fn record24(body: &[u8]) -> Vec<u8> {
    let mut out = vec![0u8; 20];
    out.extend_from_slice(&(body.len() as u32).to_be_bytes());
    out.extend_from_slice(body);
    out
}

/// A frame record: little-endian timestamp and id, then the payload.
fn frame_record(ts: u64, id: u32, payload: &[u8]) -> Vec<u8> {
    let mut out = ts.to_le_bytes().to_vec();
    out.extend_from_slice(&id.to_le_bytes());
    out.extend_from_slice(payload);
    out
}

fn concurrent_parser() -> ConcurrentFrameParser {
    ConcurrentFrameParser::new(Arc::new(DbcParser::new()), Some(ConcurrentParseConfig::for_cpu_count(4)))
}

fn batch_parser(config: BatchProcessConfig) -> BatchConcurrentParser {
    BatchConcurrentParser::new(Arc::new(DbcParser::new()), Some(config))
}

fn block_with(records: &[Vec<u8>]) -> Vec<u8> {
    let mut seq = Vec::new();
    for r in records {
        seq.extend(record24(r));
    }
    record24(&seq)
}

#[test]
fn concurrent_frames_in_order() {
    let b1 = block_with(&[frame_record(1000, 0x123, &[1, 2, 3, 4, 5, 6, 7, 8, 9]), frame_record(2000, 7, &[1, 2, 3, 4])]);
    let b2 = block_with(&[frame_record(3000, 9, &[0xAA; 8])]);
    let mut file = file_block(&gzip(&b1));
    file.extend(file_block(&gzip(&b2)));
    let frames = concurrent_parser().parse_data_concurrent(&file).unwrap();
    assert_eq!(frames.len(), 3);
    assert_eq!(frames[0].timestamp, 1000);
    assert_eq!(frames[0].can_id, 0x123);
    assert_eq!(frames[0].data, vec![1, 2, 3, 4, 5, 6, 7, 8]);
    assert_eq!(frames[1].timestamp, 2000);
    assert_eq!(frames[1].data, vec![1, 2, 3, 4]);
    assert_eq!(frames[2].can_id, 9);
}

#[test]
fn concurrent_short_records_passed_over() {
    let b = block_with(&[vec![1, 2, 3], frame_record(5, 6, &[7; 4])]);
    let frames = concurrent_parser().parse_data_concurrent(&file_block(&gzip(&b))).unwrap();
    assert_eq!(frames.len(), 1);
    assert_eq!(frames[0].timestamp, 5);
}

#[test]
fn concurrent_corrupt_block() {
    let mut file = file_block(&gzip(&block_with(&[])));
    file.extend(file_block(&[1, 2, 3]));
    assert_eq!(concurrent_parser().parse_data_concurrent(&file).err(), Some(FrameError::Decompress));
}

#[test]
fn concurrent_truncated_tail_is_ignored() {
    let mut file = file_block(&gzip(&block_with(&[frame_record(1, 2, &[3; 4])])));
    file.extend_from_slice(&[0u8; 20]);
    let frames = concurrent_parser().parse_data_concurrent(&file).unwrap();
    assert_eq!(frames.len(), 1);
}

#[test]
fn concurrent_single_frame_too_short() {
    assert_eq!(
        ConcurrentFrameParser::parse_single_frame_sync(&[0u8; 15]).err(),
        Some(FrameError::FrameRecordTooShort)
    );
}

#[test]
fn concurrent_single_block_header_too_short() {
    assert_eq!(
        ConcurrentFrameParser::parse_single_file_block(&[0u8; 34]).err(),
        Some(FrameError::FileHeaderTooShort)
    );
}

#[test]
fn concurrent_config_and_stats() {
    let cfg = ConcurrentParseConfig::for_cpu_count(4);
    assert_eq!(cfg.decompress_workers, 4);
    assert_eq!(cfg.parse_workers, 8);
    assert_eq!(cfg.frame_workers, 8);
    assert_eq!(cfg.batch_size, 64);
    let p = concurrent_parser();
    assert_eq!(p.get_config().parse_workers, 8);
    let stats = p.get_performance_stats();
    assert_eq!(stats.frame_workers, 8);
    assert_eq!(stats.batch_size, 64);
}

#[test]
fn batch_frames_from_16_byte_windows() {
    let mut d = Vec::new();
    d.extend(frame_record(11, 1, &[1, 2, 3, 4]));
    d.extend(frame_record(22, 2, &[5, 6, 7, 8]));
    d.extend_from_slice(&[9; 5]);
    let file = file_block(&gzip(&d));
    let frames = batch_parser(BatchProcessConfig::for_cpu_count(2)).parse_data_batch_concurrent(&file).unwrap();
    assert_eq!(frames.len(), 2);
    assert_eq!(frames[0].timestamp, 11);
    assert_eq!(frames[0].can_id, 1);
    assert_eq!(frames[0].data, vec![1, 2, 3, 4]);
    assert_eq!(frames[1].timestamp, 22);
    assert_eq!(frames[1].can_id, 2);
}

#[test]
fn batch_chunks_of_1k_drop_partial_windows() {
    // 1030 bytes: 64 whole windows in the first KiB, none in the 6-byte rest
    let data: Vec<u8> = (0..1030u32).map(|i| i as u8).collect();
    let frames = BatchConcurrentParser::parse_decompressed_data_fast(&data);
    assert_eq!(frames.len(), 64);
    assert_eq!(frames[63].data, data[63 * 16 + 12..64 * 16].to_vec());
}

#[test]
fn batch_corrupt_block() {
    let file = file_block(&[0u8; 4]);
    assert_eq!(
        batch_parser(BatchProcessConfig::for_cpu_count(2)).parse_data_batch_concurrent(&file).err(),
        Some(FrameError::Decompress)
    );
}

fn block_of_size(n: usize) -> FileLevelData {
    FileLevelData { header: [0; 35], data_length: n as u32, compressed_data: vec![0; n] }
}

#[test]
fn batch_small_blocks_grouped_by_count() {
    let mut cfg = BatchProcessConfig::for_cpu_count(1);
    cfg.decompress_batch_size = 3;
    let parser = batch_parser(cfg);
    let blocks: Vec<FileLevelData> = (0..7).map(|_| block_of_size(10)).collect();
    let batches = parser.create_smart_batches(blocks);
    let lens: Vec<usize> = batches.iter().map(|b| b.len()).collect();
    assert_eq!(lens, vec![3, 3, 1]);
    let ids: Vec<usize> = batches.iter().map(|b| b.batch_id).collect();
    assert_eq!(ids, vec![0, 1, 2]);
    assert_eq!(batches[0].estimated_total_size, 30);
    assert_eq!(batches[2].estimated_total_size, 10);
}

#[test]
fn batch_large_blocks_grouped_by_size() {
    let mut cfg = BatchProcessConfig::for_cpu_count(1);
    cfg.small_block_threshold = 100;
    cfg.decompress_batch_size = 32;
    let parser = batch_parser(cfg);
    // large blocks of 150 bytes: a second one would pass 200 bytes
    let blocks = vec![block_of_size(150), block_of_size(150), block_of_size(10), block_of_size(40)];
    let batches = parser.create_smart_batches(blocks);
    let lens: Vec<usize> = batches.iter().map(|b| b.len()).collect();
    assert_eq!(lens, vec![1, 3]);
    assert_eq!(batches[1].estimated_total_size, 200);
}

#[test]
fn batch_no_blocks_no_batches() {
    let parser = batch_parser(BatchProcessConfig::for_cpu_count(1));
    assert!(parser.create_smart_batches(Vec::new()).is_empty());
}

#[test]
fn batch_decompress_keeps_batch_numbers() {
    let mk = |d: &[u8]| {
        let c = gzip(d);
        FileLevelData { header: [0; 35], data_length: c.len() as u32, compressed_data: c }
    };
    let batches = vec![
        DataBatch::new(vec![mk(&[1, 2]), mk(&[3])], 0),
        DataBatch::new(vec![mk(&[4, 5, 6])], 1),
    ];
    let out = BatchConcurrentParser::decompress_batches_concurrent(&batches).unwrap();
    assert_eq!(out.len(), 2);
    assert_eq!(out[0].batch_id, 0);
    assert_eq!(out[0].items, vec![vec![1, 2], vec![3]]);
    assert_eq!(out[1].batch_id, 1);
    assert_eq!(out[1].items, vec![vec![4, 5, 6]]);
    assert_eq!(out[1].estimated_total_size, 0);
}

#[test]
fn batch_data_batch_basics() {
    let b = DataBatch::new(vec![1u8, 2, 3], 4);
    assert_eq!(b.len(), 3);
    assert!(!b.is_empty());
    assert_eq!(b.batch_id, 4);
    assert_eq!(b.estimated_total_size, 0);
    assert!(DataBatch::<u8>::new(Vec::new(), 0).is_empty());
}

#[test]
fn batch_config_values() {
    let cfg = BatchProcessConfig::for_cpu_count(6);
    assert_eq!(cfg.decompress_batch_size, 32);
    assert_eq!(cfg.parse_batch_size, 64);
    assert_eq!(cfg.frame_batch_size, 128);
    assert_eq!(cfg.worker_threads, 6);
    assert_eq!(cfg.small_block_threshold, 8192);
    let p = batch_parser(cfg);
    assert_eq!(p.get_config().worker_threads, 6);
}

#[test]
fn batch_chunk_frames_custom_size() {
    let mut d = frame_record(1, 2, &[3, 4, 5, 6, 7, 8]);
    d.extend(frame_record(9, 10, &[11, 12, 13, 14, 15, 16]));
    let frames = BatchConcurrentParser::parse_chunk_to_frames_fast(&d, 18);
    assert_eq!(frames.len(), 2);
    assert_eq!(frames[1].timestamp, 9);
    assert_eq!(frames[1].data, vec![11, 12, 13, 14, 15, 16]);
}

#[test]
fn pipeline_chunk_stamps() {
    let mut chunk = Vec::new();
    for i in 0..3u8 {
        let mut w = vec![i, 0, 0, 0];
        w.extend_from_slice(&[i + 10; 8]);
        w.extend_from_slice(&[0xFF; 4]);
        chunk.extend(w);
    }
    let frames = parse_chunk(&chunk, 2);
    assert_eq!(frames.len(), 3);
    assert_eq!(frames[0].timestamp, 2000);
    assert_eq!(frames[1].timestamp, 2016);
    assert_eq!(frames[2].timestamp, 2032);
    assert_eq!(frames[2].can_id, 2);
    assert_eq!(frames[2].data, vec![12; 8]);
}

#[test]
fn pipeline_data_in_64k_chunks() {
    let data = vec![1u8; 65536 + 40];
    let frames = parse_data_parallel(&data);
    assert_eq!(frames.len(), 4096 + 2);
    assert_eq!(frames[4095].timestamp, 65520);
    assert_eq!(frames[4096].timestamp, 1000);
    assert_eq!(frames[4097].timestamp, 1016);
    assert_eq!(frames[4097].can_id, 0x01010101);
}

#[test]
fn pipeline_config_values() {
    let cfg = PipelineConfig::for_cpu_count(5);
    assert_eq!(cfg.io_workers, 10);
    assert_eq!(cfg.cpu_workers, 5);
    assert_eq!(cfg.write_workers, 2);
    assert_eq!(cfg.channel_buffer, 500);
    let d = PipelineConfig::default();
    assert!(d.cpu_workers >= 1);
    assert_eq!(d.channel_buffer, 500);
}

#[test]
fn ultra_chunk_stamps_offsets() {
    let data = vec![2u8; 40];
    let frames = parse_chunk_to_frames(&data);
    assert_eq!(frames.len(), 2);
    assert_eq!(frames[0].timestamp, 0);
    assert_eq!(frames[1].timestamp, 16);
}

#[test]
fn ultra_4k_chunks_restart_stamps() {
    let data = vec![0u8; 4096 + 32];
    let frames = parse_frames_optimized(&data);
    assert_eq!(frames.len(), 256 + 2);
    assert_eq!(frames[255].timestamp, 4080);
    assert_eq!(frames[256].timestamp, 0);
    assert_eq!(frames[257].timestamp, 16);
}

#[test]
fn ultra_transformed_before_parsing() {
    let mut data = vec![0xFFu8, 0, 0, 0];
    data.extend_from_slice(&[1, 2, 3, 4, 5, 6, 7, 8]);
    data.extend_from_slice(&[0; 4]);
    let frames = process_data_ultra_fast(&data);
    assert_eq!(frames.len(), 1);
    assert_eq!(frames[0].can_id, 0x01010100);
    assert_eq!(frames[0].data, vec![2, 3, 4, 5, 6, 7, 8, 9]);
}

#[test]
fn ultra_batch_size() {
    assert_eq!(optimal_batch_size(100, 4), 32);
    assert_eq!(optimal_batch_size(1600, 4), 100);
    assert_eq!(optimal_batch_size(0, 1), 32);
}

#[test]
fn batch_file_level_gives_blocks_back() {
    let mut data = file_block(&[1, 2, 3]);
    data.extend(file_block(&[4, 5]));
    data.extend_from_slice(&[0u8; 34]);
    let blocks = BatchConcurrentParser::parse_file_level_fast(&data);
    assert_eq!(blocks.len(), 2);
    assert_eq!(blocks[0].compressed_data, vec![1, 2, 3]);
    assert_eq!(blocks[0].data_length, 3);
    assert_eq!(blocks[1].compressed_data, vec![4, 5]);
    assert_eq!(&blocks[1].header[31..35], &[0, 0, 0, 2]);
}

#[test]
fn concurrent_sequences_give_records_back() {
    let mut data = record24(&[7, 8]);
    data.extend(record24(&[]));
    data.extend(record24(&[9]));
    data.extend_from_slice(&[0u8; 23]);
    let seqs = ConcurrentFrameParser::parse_frame_sequences_concurrent(&data);
    assert_eq!(seqs, vec![vec![7, 8], vec![], vec![9]]);
}
