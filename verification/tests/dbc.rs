use can_parser::dbc_parser::{DbcError, DbcParser};
use can_parser::signal_decode::{extract_raw_value, ByteOrder, ValueType};

const ENGINE_DBC: &str = "VERSION \"\"\n\
\n\
BO_ 100 EngineData: 8 Vector__XXX\n\
 SG_ EngineSpeed : 0|16@0+ (0.125,0) [0|8031.875] \"rpm\" Vector__XXX\n\
 SG_ EngineTemp : 16|8@0- (1,-40) [-40|215] \"degC\" Vector__XXX\n\
\n\
BO_ 200 Brake: 4 Vector__XXX\n\
 SG_ Pressure : 0|12@1+ (0.5,0) [0|2000] \"bar\" Vector__XXX\n";

fn chars(s: &str) -> Vec<char> {
    s.chars().collect()
}

fn sorted_ids(db: &DbcParser) -> Vec<u32> {
    let mut ids = db.get_message_ids();
    ids.sort();
    ids
}

fn engine_db() -> DbcParser {
    let mut db = DbcParser::new();
    db.parse_dbc_content(ENGINE_DBC).unwrap();
    db
}

#[test]
fn dbc_reads_every_message_id_once() {
    let db = engine_db();
    assert_eq!(sorted_ids(&db), vec![100, 200]);
}

#[test]
fn dbc_reads_message_fields() {
    let db = engine_db();
    let m = db.get_message(100).unwrap();
    assert_eq!(m.id, 100);
    assert_eq!(m.name, "EngineData");
    assert_eq!(m.length, 8);
    assert_eq!(m.signals.len(), 2);
    assert_eq!(m.signals[0].name, "EngineSpeed");
    assert_eq!(m.signals[1].name, "EngineTemp");
    assert!(db.get_message(300).is_none());
}

#[test]
fn dbc_reads_signal_fields() {
    let db = engine_db();
    let m = db.get_message(100).unwrap();
    let speed = &m.signals[0];
    assert_eq!(speed.start_bit, 0);
    assert_eq!(speed.length, 16);
    assert_eq!(speed.byte_order, ByteOrder::LittleEndian);
    assert_eq!(speed.value_type, ValueType::Unsigned);
    assert_eq!(speed.factor_text.as_deref(), Some("0.125"));
    assert_eq!(speed.offset_text.as_deref(), Some("0"));
    assert_eq!(speed.min_text.as_deref(), Some("0"));
    assert_eq!(speed.max_text.as_deref(), Some("8031.875"));
    assert_eq!(speed.unit, "rpm");
    let temp = &m.signals[1];
    assert_eq!(temp.value_type, ValueType::Signed);
    assert_eq!(temp.offset_text.as_deref(), Some("-40"));
    let brake = db.get_message(200).unwrap();
    assert_eq!(brake.signals[0].byte_order, ByteOrder::BigEndian);
}

#[test]
fn dbc_signal_without_scale_or_range() {
    let mut db = DbcParser::new();
    db.parse_dbc_content("BO_ 7 Plain: 2 X\n SG_ Raw : 3|4@0+\n").unwrap();
    let m = db.get_message(7).unwrap();
    let s = &m.signals[0];
    assert_eq!(s.start_bit, 3);
    assert_eq!(s.length, 4);
    assert_eq!(s.factor_text, None);
    assert_eq!(s.offset_text, None);
    assert_eq!(s.min_text, None);
    assert_eq!(s.max_text, None);
    assert_eq!(s.unit, "");
}

#[test]
fn dbc_later_message_replaces_same_id() {
    let mut db = DbcParser::new();
    db.parse_dbc_content("BO_ 5 First: 8 X\n SG_ A : 0|8@0+\n\nBO_ 5 Second: 4 X\n SG_ B : 0|8@0+\n")
        .unwrap();
    assert_eq!(sorted_ids(&db), vec![5]);
    let m = db.get_message(5).unwrap();
    assert_eq!(m.name, "Second");
    assert_eq!(m.length, 4);
    assert_eq!(m.signals.len(), 1);
    assert_eq!(m.signals[0].name, "B");
}

#[test]
fn dbc_later_signal_replaces_same_name() {
    let mut db = DbcParser::new();
    db.parse_dbc_content("BO_ 5 M: 8 X\n SG_ A : 0|8@0+\n SG_ A : 8|4@0+\n SG_ C : 0|1@0+\n").unwrap();
    let m = db.get_message(5).unwrap();
    assert_eq!(m.signals.len(), 2);
    assert_eq!(m.signals[0].name, "A");
    assert_eq!(m.signals[0].start_bit, 8);
    assert_eq!(m.signals[0].length, 4);
    assert_eq!(m.signals[1].name, "C");
}

#[test]
fn dbc_blank_line_ends_signal_block() {
    let mut db = DbcParser::new();
    db.parse_dbc_content("BO_ 5 M: 8 X\n SG_ A : 0|8@0+\n\n SG_ B : 0|8@0+\n").unwrap();
    let m = db.get_message(5).unwrap();
    assert_eq!(m.signals.len(), 1);
}

#[test]
fn dbc_other_lines_inside_block_are_skipped() {
    let mut db = DbcParser::new();
    db.parse_dbc_content("BO_ 5 M: 8 X\n CM_ note\n SG_ A : 0|8@0+\n").unwrap();
    let m = db.get_message(5).unwrap();
    assert_eq!(m.signals.len(), 1);
    assert_eq!(m.signals[0].name, "A");
}

#[test]
fn dbc_empty_content_reads_nothing() {
    let mut db = DbcParser::new();
    db.parse_dbc_content("").unwrap();
    assert!(db.get_message_ids().is_empty());
}

#[test]
fn dbc_error_keeps_messages_read_before() {
    let mut db = DbcParser::new();
    let r = db.parse_dbc_content("BO_ 1 Good: 8 X\n\nBO_ 2 Bad:\n");
    assert_eq!(r, Err(DbcError::MessageLineTooShort));
    assert_eq!(sorted_ids(&db), vec![1]);
}

#[test]
fn dbc_message_line_too_short() {
    assert_eq!(
        DbcParser::parse_message_definition(&chars("BO_ 100 EngineData:")).err(),
        Some(DbcError::MessageLineTooShort)
    );
}

#[test]
fn dbc_message_id_not_a_number() {
    assert_eq!(
        DbcParser::parse_message_definition(&chars("BO_ x100 EngineData: 8 X")).err(),
        Some(DbcError::InvalidNumber)
    );
}

#[test]
fn dbc_message_definition_fields() {
    let m = DbcParser::parse_message_definition(&chars("BO_ 100 EngineData: 8 Vector__XXX")).unwrap();
    assert_eq!(m.id, 100);
    assert_eq!(m.name, "EngineData");
    assert_eq!(m.length, 8);
    assert!(m.signals.is_empty());
}

#[test]
fn dbc_signal_line_too_short() {
    assert_eq!(
        DbcParser::parse_signal_definition(&chars("SG_ Speed :")).err(),
        Some(DbcError::SignalLineTooShort)
    );
}

#[test]
fn dbc_signal_bit_definition_without_bar() {
    assert_eq!(
        DbcParser::parse_signal_definition(&chars("SG_ Speed : 0-16@1+")).err(),
        Some(DbcError::InvalidBitDefinition)
    );
}

#[test]
fn dbc_signal_without_byte_order() {
    assert_eq!(
        DbcParser::parse_signal_definition(&chars("SG_ Speed : 0|16")).err(),
        Some(DbcError::MissingByteOrder)
    );
}

#[test]
fn dbc_signal_start_not_a_number() {
    assert_eq!(
        DbcParser::parse_signal_definition(&chars("SG_ Speed : a|16@1+")).err(),
        Some(DbcError::InvalidNumber)
    );
}

#[test]
fn dbc_signal_error_stops_reading() {
    let mut db = DbcParser::new();
    let r = db.parse_dbc_content("BO_ 1 M: 8 X\n SG_ A : 0|8\n");
    assert_eq!(r, Err(DbcError::MissingByteOrder));
}

#[test]
fn dbc_extract_little_endian_unsigned() {
    let db = engine_db();
    let m = db.get_message(100).unwrap();
    let data = [0x10u8, 0x27, 0xD8, 0, 0, 0, 0, 0];
    assert_eq!(DbcParser::extract_signal_value(&data, &m.signals[0]), Some(10000));
}

#[test]
fn dbc_extract_signed_negative() {
    let db = engine_db();
    let m = db.get_message(100).unwrap();
    let data = [0x10u8, 0x27, 0xD8, 0, 0, 0, 0, 0];
    assert_eq!(DbcParser::extract_signal_value(&data, &m.signals[1]), Some(-40));
}

#[test]
fn dbc_extract_big_endian() {
    let db = engine_db();
    let m = db.get_message(200).unwrap();
    assert_eq!(DbcParser::extract_signal_value(&[0x12, 0x34, 0, 0], &m.signals[0]), Some(0x234));
}

#[test]
fn dbc_extract_out_of_range_is_none() {
    let db = engine_db();
    let m = db.get_message(100).unwrap();
    assert_eq!(DbcParser::extract_signal_value(&[0x10], &m.signals[0]), None);
}

#[test]
fn dbc_parse_signals_in_message_order() {
    let db = engine_db();
    let data = [0x10u8, 0x27, 0xD8, 0, 0, 0, 0, 0];
    let readings = db.parse_signals(100, &data);
    assert_eq!(readings.len(), 2);
    assert_eq!(readings[0].name, "EngineSpeed");
    assert_eq!(readings[0].raw, 10000);
    assert_eq!(readings[0].factor_text.as_deref(), Some("0.125"));
    assert_eq!(readings[1].name, "EngineTemp");
    assert_eq!(readings[1].raw, -40);
    assert_eq!(readings[1].offset_text.as_deref(), Some("-40"));
}

#[test]
fn dbc_parse_signals_skips_signals_past_payload() {
    let db = engine_db();
    let readings = db.parse_signals(100, &[0x10, 0x27]);
    assert_eq!(readings.len(), 1);
    assert_eq!(readings[0].name, "EngineSpeed");
}

#[test]
fn dbc_parse_signals_unknown_id() {
    let db = engine_db();
    assert!(db.parse_signals(999, &[1, 2, 3]).is_empty());
}

#[test]
fn signal_bit_offset_inside_byte() {
    // bits 3..7 of 0b1011_0000 are 0b10110
    assert_eq!(extract_raw_value(&[0b1011_0000], 3, 5, ByteOrder::LittleEndian, ValueType::Unsigned), Some(0b10110));
}

#[test]
fn signal_signed_positive_and_negative() {
    assert_eq!(extract_raw_value(&[0x7F], 0, 8, ByteOrder::LittleEndian, ValueType::Signed), Some(127));
    assert_eq!(extract_raw_value(&[0x80], 0, 8, ByteOrder::LittleEndian, ValueType::Signed), Some(-128));
    assert_eq!(extract_raw_value(&[0x0F], 0, 4, ByteOrder::LittleEndian, ValueType::Signed), Some(-1));
}

#[test]
fn signal_float_reads_raw_bits() {
    assert_eq!(extract_raw_value(&[0xFF, 0x01], 0, 16, ByteOrder::LittleEndian, ValueType::Float), Some(0x01FF));
}

#[test]
fn signal_big_endian_three_bytes() {
    assert_eq!(
        extract_raw_value(&[0x01, 0x02, 0x03], 0, 24, ByteOrder::BigEndian, ValueType::Unsigned),
        Some(0x010203)
    );
}

#[test]
fn signal_wide_unsigned() {
    let data = [0xFFu8; 8];
    assert_eq!(
        extract_raw_value(&data, 0, 63, ByteOrder::LittleEndian, ValueType::Unsigned),
        Some(i64::MAX)
    );
}

#[test]
fn dbc_reading_twice_changes_nothing() {
    let mut db = engine_db();
    db.parse_dbc_content(ENGINE_DBC).unwrap();
    assert_eq!(sorted_ids(&db), vec![100, 200]);
    let m = db.get_message(100).unwrap();
    assert_eq!(m.signals.len(), 2);
    assert_eq!(m.signals[0].name, "EngineSpeed");
    assert_eq!(m.signals[1].name, "EngineTemp");
}
