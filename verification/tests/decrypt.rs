use buddy_cast::decrypt::{decrypt_bytes, decrypt_chunk_into, is_zip_bytes, DECRYPTION_MAP};

#[test]
fn decrypt_maps_every_byte_through_the_table() {
    let data = [0u8, 1, 2, 255, 128];
    assert_eq!(decrypt_bytes(&data), vec![28, 42, 12, 169, 138]);
    assert_eq!(decrypt_bytes(&[]), Vec::<u8>::new());
    let all: Vec<u8> = (0..=255u8).collect();
    assert_eq!(decrypt_bytes(&all), DECRYPTION_MAP.to_vec());
}

#[test]
fn decrypting_in_chunks_matches_whole() {
    let data: Vec<u8> = (0..1000u32).map(|i| (i * 7 % 256) as u8).collect();
    let mut chunked = Vec::new();
    for chunk in data.chunks(64) {
        decrypt_chunk_into(&mut chunked, chunk);
    }
    assert_eq!(chunked, decrypt_bytes(&data));
}

#[test]
fn zip_signatures_are_recognized() {
    assert!(is_zip_bytes(b"PK\x03\x04rest"));
    assert!(is_zip_bytes(b"PK\x05\x06"));
    assert!(is_zip_bytes(b"PK\x07\x08"));
    assert!(!is_zip_bytes(b"PK\x01\x02"));
    assert!(!is_zip_bytes(b"PK\x03"));
    assert!(!is_zip_bytes(b""));
}

#[test]
fn decrypted_zip_header_is_recognized() {
    // Bytes that the table maps onto "PK\x03\x04".
    let encrypted: Vec<u8> = [b'P', b'K', 3u8, 4u8]
        .iter()
        .map(|target| DECRYPTION_MAP.iter().position(|v| v == target).unwrap() as u8)
        .collect();
    assert!(is_zip_bytes(&decrypt_bytes(&encrypted)));
}
