use buddy_cast::db::{byte_stats, hex_lower, parse_db_bytes, DbValue, HEADER_FIELDS};
use buddy_cast::error::BuddyCastError;

fn header(data_length: i64) -> Vec<u8> {
    let mut h = Vec::new();
    h.extend_from_slice(&16000i32.to_le_bytes());
    for v in [16i16, 160, 400, 13, 1, 12, 512] {
        h.extend_from_slice(&v.to_le_bytes());
    }
    for v in [0.5f32, 2.0, 1.25] {
        h.extend_from_slice(&v.to_bits().to_le_bytes());
    }
    h.extend_from_slice(&(-3i16).to_le_bytes());
    h.push(0xff);
    h.extend_from_slice(&data_length.to_le_bytes());
    h.extend_from_slice(&123456789i64.to_le_bytes());
    assert_eq!(h.len(), 49);
    h
}

#[test]
fn db_parse_rejects_truncated_input() {
    let error = parse_db_bytes(&[0_u8; 10], "tiny.db").expect_err("small db should fail");
    assert!(error.message().contains("too small"));
    assert!(matches!(error, BuddyCastError::DbTooSmall { .. }));
}

#[test]
fn db_parse_reads_headers_and_payloads() {
    let mut data = Vec::new();
    data.extend_from_slice(&3.0f32.to_bits().to_le_bytes());
    data.extend_from_slice(&header(3));
    data.extend_from_slice(&header(2));
    data.extend_from_slice(&[1, 2, 0xff, 0x10, 0x20]);
    let report = parse_db_bytes(&data, "sample.db").expect("db should parse");
    assert_eq!(report.path, "sample.db");
    assert_eq!(report.file_size, 107);
    assert_eq!(report.db_version_bits, 3.0f32.to_bits());
    assert_eq!(report.header_offset_after_two_headers, 102);
    assert_eq!(report.main_header.len(), 15);
    for (field, (name, _)) in report.main_header.iter().zip(HEADER_FIELDS.iter()) {
        assert_eq!(field.name, *name);
    }
    assert_eq!(report.main_header[0].value, DbValue::I32(16000));
    assert_eq!(report.main_header[8].value, DbValue::F32Bits(0.5f32.to_bits()));
    assert_eq!(report.main_header[11].value, DbValue::I16(-3));
    assert_eq!(report.main_header[12].value, DbValue::I8(-1));
    assert_eq!(report.main_header[13].value, DbValue::I64(3));
    assert_eq!(report.sub_header[13].value, DbValue::I64(2));
    assert_eq!(report.sub_header[14].value, DbValue::I64(123456789));
    assert_eq!(report.payload_length_expected_from_headers, 5);
    assert_eq!(report.payload_length_actual, 5);
    assert!(report.size_matches_header);
    assert_eq!(report.main_data.length, 3);
    let main = report.main_data.preview.expect("main payload is not empty");
    assert_eq!(main.first_16_hex, "0102ff");
    assert_eq!(main.first_32_signed_byte_values, vec![1, 2, -1]);
    assert_eq!(report.sub_data.length, 2);
}

#[test]
fn db_parse_reports_mismatched_sizes() {
    let mut data = Vec::new();
    data.extend_from_slice(&1.5f32.to_bits().to_le_bytes());
    data.extend_from_slice(&header(10));
    data.extend_from_slice(&header(0));
    data.extend_from_slice(&[7, 8]);
    let report = parse_db_bytes(&data, "odd.db").expect("db should parse");
    assert!(!report.size_matches_header);
    assert_eq!(report.payload_length_expected_from_headers, 10);
    assert_eq!(report.payload_length_actual, 2);
    assert_eq!(report.main_data.length, 0);
    assert!(report.main_data.preview.is_none());
}

#[test]
fn hex_and_byte_stats() {
    assert_eq!(hex_lower(&[0x00, 0xab, 0x7f]), "00ab7f");
    let blob: Vec<u8> = (0..40u8).map(|b| b.wrapping_mul(9)).collect();
    let stats = byte_stats(&blob);
    assert_eq!(stats.length, 40);
    let preview = stats.preview.unwrap();
    assert_eq!(preview.first_16_hex.len(), 32);
    assert_eq!(preview.first_32_signed_byte_values.len(), 32);
    assert_eq!(preview.first_32_signed_byte_values[15], (135u8 as i8) as i16);
    assert!(byte_stats(&[]).preview.is_none());
}
