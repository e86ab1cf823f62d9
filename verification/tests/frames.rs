use std::io::Write;
use std::sync::Arc;

use can_parser::compression::decompress_gzip;
use can_parser::dbc_parser::DbcParser;
use can_parser::frame_parser::{FrameError, FrameParser};

fn gzip(data: &[u8]) -> Vec<u8> {
    let mut enc = flate2::write::GzEncoder::new(Vec::new(), flate2::Compression::default());
    enc.write_all(data).unwrap();
    enc.finish().unwrap()
}

/// A record whose bytes start with their own length, as every record's bytes do.
fn self_sized(body: &[u8]) -> Vec<u8> {
    let mut out = ((body.len() + 4) as u32).to_be_bytes().to_vec();
    out.extend_from_slice(body);
    out
}

/// A frame record holding a CAN frame with `payload`; its id is its content length.
fn can_frame_record(payload: &[u8]) -> Vec<u8> {
    let content = self_sized(payload);
    self_sized(&content)
}

/// A frame sequence holding `frames`.
fn sequence(frames: &[Vec<u8>]) -> Vec<u8> {
    let mut body = vec![0u8; 16];
    for (i, f) in frames.iter().enumerate() {
        if i > 0 {
            body.extend_from_slice(&[0u8; 20]);
        }
        body.extend_from_slice(f);
    }
    self_sized(&body)
}

/// A decompressed block holding `sequences`.
fn block(sequences: &[Vec<u8>]) -> Vec<u8> {
    let mut out = Vec::new();
    for s in sequences {
        out.extend_from_slice(&[0u8; 20]);
        out.extend_from_slice(s);
    }
    out
}

/// A layer-0 block: a 35-byte header, then the block's data, which starts with its own
/// big-endian length (counted from the end of the header) followed by `body`.
fn file_block(body: &[u8]) -> Vec<u8> {
    let mut out: Vec<u8> = (0..35u8).collect();
    out.extend_from_slice(&((body.len() + 4) as u32).to_be_bytes());
    out.extend_from_slice(body);
    out
}

fn empty_parser() -> FrameParser {
    FrameParser::new(Arc::new(DbcParser::new()))
}

#[test]
fn frames_decoded_in_file_order() {
    let p1: Vec<u8> = (1..=12).collect();
    let p2: Vec<u8> = vec![9; 4];
    let p3: Vec<u8> = vec![7; 6];
    let d1 = block(&[sequence(&[can_frame_record(&p1), can_frame_record(&p2)]), sequence(&[can_frame_record(&p3)])]);
    let frames = empty_parser().frames_of_block(&gzip(&d1)).unwrap();
    assert_eq!(frames.len(), 3);
    assert_eq!(frames[0].can_id, 16);
    assert_eq!(frames[0].data, p1);
    assert_eq!(frames[1].can_id, 8);
    assert_eq!(frames[1].data, p2);
    assert_eq!(frames[2].can_id, 10);
    assert_eq!(frames[2].data, p3);
    assert!(frames.iter().all(|f| f.signals.is_empty()));
}

#[test]
fn frames_short_can_frame_is_passed_over() {
    let short = can_frame_record(&[1, 2]);
    let d = block(&[sequence(&[short, can_frame_record(&[5; 4])])]);
    let frames = empty_parser().frames_of_block(&gzip(&d)).unwrap();
    assert_eq!(frames.len(), 1);
    assert_eq!(frames[0].data, vec![5; 4]);
}

#[test]
fn frames_signals_decoded_with_dbc() {
    let mut db = DbcParser::new();
    db.parse_dbc_content("BO_ 12 M: 8 X\n SG_ Low : 0|8@0+ (2,1)\n SG_ Word : 8|16@1+\n").unwrap();
    let parser = FrameParser::new(Arc::new(db));
    let d = block(&[sequence(&[can_frame_record(&[3, 0x12, 0x34, 0, 0, 0, 0, 0])])]);
    let frames = parser.frames_of_block(&gzip(&d)).unwrap();
    assert_eq!(frames.len(), 1);
    assert_eq!(frames[0].can_id, 12);
    let s = &frames[0].signals;
    assert_eq!(s.len(), 2);
    assert_eq!(s[0].name, "Low");
    assert_eq!(s[0].raw, 3);
    assert_eq!(s[0].factor_text.as_deref(), Some("2"));
    assert_eq!(s[0].offset_text.as_deref(), Some("1"));
    assert_eq!(s[1].name, "Word");
    assert_eq!(s[1].raw, 0x1234);
}

#[test]
fn frames_empty_file_has_no_frames() {
    assert!(empty_parser().parse_file_data(&[]).unwrap().is_empty());
}

#[test]
fn frames_header_too_short() {
    assert_eq!(empty_parser().parse_file_data(&[0u8; 10]).err(), Some(FrameError::FileHeaderTooShort));
}

#[test]
fn frames_block_length_field_cut_off() {
    assert_eq!(empty_parser().parse_file_data(&[0u8; 37]).err(), Some(FrameError::LengthFieldTruncated));
    assert_eq!(FrameParser::parse_file_level(&[0u8; 38]).err(), Some(FrameError::LengthFieldTruncated));
    assert_eq!(FrameParser::parse_file_level(&[0u8; 34]).err(), Some(FrameError::FileHeaderTooShort));
}

#[test]
fn frames_compressed_data_truncated() {
    let mut file = vec![0u8; 35];
    file.extend_from_slice(&100u32.to_be_bytes());
    file.extend_from_slice(&[0u8; 10]);
    assert_eq!(empty_parser().parse_file_data(&file).err(), Some(FrameError::CompressedDataTruncated));
}

#[test]
fn frames_bare_gzip_after_header_is_read_as_length() {
    // The gzip magic bytes land in the length field, which then runs far past the data.
    let d = block(&[sequence(&[can_frame_record(&[5; 4])])]);
    let mut file = vec![0u8; 35];
    file.extend(gzip(&d));
    assert_eq!(empty_parser().parse_file_data(&file).err(), Some(FrameError::CompressedDataTruncated));
}

#[test]
fn frames_corrupt_gzip() {
    let file = file_block(&[1, 2, 3, 4, 5]);
    assert_eq!(empty_parser().parse_file_data(&file).err(), Some(FrameError::Decompress));
    assert_eq!(empty_parser().frames_of_block(&[1, 2, 3, 4, 5]).err(), Some(FrameError::Decompress));
}

#[test]
fn frames_length_field_cut_off() {
    let d = vec![0u8; 22];
    assert_eq!(empty_parser().frames_of_block(&gzip(&d)).err(), Some(FrameError::LengthFieldTruncated));
}

#[test]
fn frames_signal_not_decodable() {
    let mut db = DbcParser::new();
    db.parse_dbc_content("BO_ 12 M: 8 X\n SG_ Wide : 0|64@0+\n").unwrap();
    let parser = FrameParser::new(Arc::new(db));
    let d = block(&[sequence(&[can_frame_record(&[0; 8])])]);
    assert_eq!(parser.frames_of_block(&gzip(&d)).err(), Some(FrameError::SignalNotDecodable));
}

#[test]
fn frames_file_level_block() {
    let mut file = file_block(&[9, 8, 7]);
    file.extend_from_slice(&[5, 5]);
    let f = FrameParser::parse_file_level(&file).unwrap();
    assert_eq!(f.data_length, 7);
    assert_eq!(f.compressed_data, vec![0, 0, 0, 7, 9, 8, 7]);
    let header: Vec<u8> = (0..35u8).collect();
    assert_eq!(f.header.to_vec(), header);
}

#[test]
fn frames_frame_data_fields() {
    let record = [0xAAu8, 0xBB, 0xCC, 0xDD, 0, 0, 0, 2, 0xEE];
    let fd = FrameParser::parse_frame_data(&record).unwrap();
    assert_eq!(fd.header, [0xAA, 0xBB, 0xCC, 0xDD]);
    assert_eq!(fd.data_length, 2);
    assert_eq!(fd.frame_content, vec![0, 0]);
}

#[test]
fn frames_frame_header_too_short() {
    assert_eq!(FrameParser::parse_frame_data(&[1, 2, 3]).err(), Some(FrameError::FrameHeaderTooShort));
}

#[test]
fn frames_frame_length_field_cut_off() {
    assert_eq!(FrameParser::parse_frame_data(&[1, 2, 3, 4, 5]).err(), Some(FrameError::LengthFieldTruncated));
}

#[test]
fn frames_frame_content_truncated() {
    assert_eq!(
        FrameParser::parse_frame_data(&[0, 0, 0, 0, 0, 0, 0, 9, 1]).err(),
        Some(FrameError::FrameContentTruncated)
    );
}

#[test]
fn frames_can_frame_too_short() {
    let fd = FrameParser::parse_frame_data(&[0, 0, 0, 0, 0, 0, 0, 6, 1, 2]).unwrap();
    assert_eq!(empty_parser().parse_can_frame(&fd).err(), Some(FrameError::CanFrameTooShort));
}

#[test]
fn frames_can_frame_at_timestamp() {
    let record = can_frame_record(&[1, 2, 3, 4]);
    let fd = FrameParser::parse_frame_data(&record).unwrap();
    let f = empty_parser().parse_can_frame_at(&fd, 42).unwrap();
    assert_eq!(f.timestamp, 42);
    assert_eq!(f.can_id, 8);
    assert_eq!(f.data, vec![1, 2, 3, 4]);
}

#[test]
fn frames_records_stop_at_short_tail() {
    let seq = sequence(&[can_frame_record(&[1; 4])]);
    let mut data = block(&[seq.clone()]);
    data.extend_from_slice(&[0u8; 19]);
    let seqs = FrameParser::parse_frame_sequences(&data).unwrap();
    assert_eq!(seqs, vec![seq]);
}

#[test]
fn gzip_round_trip() {
    let plain: Vec<u8> = (0..200u32).map(|i| (i * 7) as u8).collect();
    assert_eq!(decompress_gzip(&gzip(&plain)), Some(plain));
}

#[test]
fn gzip_rejects_garbage() {
    assert_eq!(decompress_gzip(&[0x1f, 0x8b, 0, 1, 2]), None);
}
