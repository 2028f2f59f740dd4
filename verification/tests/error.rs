use buddy_cast::error::BuddyCastError;

#[test]
fn error_messages() {
    assert_eq!(
        BuddyCastError::DbTruncated { field: "DataLength".to_string(), offset: 37 }.message(),
        "database file ended while reading DataLength at offset 37"
    );
    assert_eq!(
        BuddyCastError::ItemNotFound("x".to_string()).message(),
        "item id not found: x"
    );
    assert_eq!(
        BuddyCastError::InvalidDecryptedZip.message(),
        "decrypted bytes are not a zip archive"
    );
    assert_eq!(
        BuddyCastError::OfflineListMissing("downloads/contents.json".to_string()).message(),
        "offline fetch failed: contents json not found: downloads/contents.json"
    );
}
