use buddy_cast::workflow::{
    classify_embedded_asset, db_report_name, decrypted_package_name, embedded_asset_kind,
    encrypted_copy_name, encrypted_name_stem, encrypted_package_name, is_subtitle_source_name,
    is_valid_decrypted_candidate, looks_like_supported_image_header, looks_like_text,
    looks_like_xml, sanitize_work_name, should_try_embedded_decrypt, subtitle_output_name,
    process_embedded_asset, EmbeddedAssetKind, EmbeddedAssetState, EmbeddedOutcome,
};
use buddy_cast::decrypt::decrypt_bytes;

fn comps(parts: &[&str]) -> Vec<String> {
    parts.iter().map(|p| p.to_string()).collect()
}

#[test]
fn asset_kinds_by_extension_then_directory() {
    assert_eq!(embedded_asset_kind("OXK", &[]), Some(EmbeddedAssetKind::Oxk));
    assert_eq!(embedded_asset_kind("jpeg", &[]), Some(EmbeddedAssetKind::Image));
    assert_eq!(embedded_asset_kind("db", &[]), Some(EmbeddedAssetKind::Db));
    assert_eq!(
        embedded_asset_kind("bin", &comps(&["Pict", "x.bin"])),
        Some(EmbeddedAssetKind::Image)
    );
    assert_eq!(
        embedded_asset_kind("", &comps(&["other", "CSV", "db", "x"])),
        Some(EmbeddedAssetKind::Csv)
    );
    assert_eq!(embedded_asset_kind("txt", &comps(&["a", "b.txt"])), None);
    assert!(should_try_embedded_decrypt("csv", &[]));
    assert!(!should_try_embedded_decrypt("txt", &[]));
}

#[test]
fn plaintext_recognition() {
    assert!(looks_like_xml(b"<?xml version=\"1.0\"?>"));
    assert!(looks_like_xml(b"\xef\xbb\xbf  \n<root/>"));
    assert!(looks_like_xml("\u{3000}<a/>".as_bytes()));
    assert!(!looks_like_xml(b"  \xef\xbb\xbf<root/>"));
    assert!(!looks_like_xml(b"text <root/>"));
    assert!(!looks_like_xml(b""));
    let mut late = vec![b' '; 128];
    late.push(b'<');
    assert!(!looks_like_xml(&late));

    assert!(looks_like_text("日本語,csv".as_bytes()));
    assert!(!looks_like_text(&[0xff, 0x00]));
    assert!(!looks_like_text(&[0xed, 0xa0, 0x80]));
    assert!(!looks_like_text(&[0xc0, 0x80]));
    assert!(looks_like_text(&[0xf0, 0x9f, 0x98, 0x80]));

    assert!(looks_like_supported_image_header(b"\x89PNG\r\n\x1a\nrest"));
    assert!(looks_like_supported_image_header(b"GIF89a"));
    assert!(looks_like_supported_image_header(&[0xff, 0xd8, 0xff, 0xe0]));
    assert!(looks_like_supported_image_header(b"RIFF\0\0\0\0WEBPVP8 "));
    assert!(!looks_like_supported_image_header(b"RIFF\0\0\0\0WAVE"));
    assert!(!looks_like_supported_image_header(b"GIF88a"));
}

#[test]
fn classification_of_extracted_files() {
    assert_eq!(
        classify_embedded_asset(Some(EmbeddedAssetKind::Oxk), b"<x/>"),
        EmbeddedAssetState::AlreadyPlaintext
    );
    assert_eq!(
        classify_embedded_asset(Some(EmbeddedAssetKind::Oxk), &[0x01, 0x02]),
        EmbeddedAssetState::NeedsDecrypt
    );
    assert_eq!(classify_embedded_asset(None, b"<x/>"), EmbeddedAssetState::SkipUnknown);
    assert_eq!(
        classify_embedded_asset(Some(EmbeddedAssetKind::Db), &[0u8; 10]),
        EmbeddedAssetState::NeedsDecrypt
    );
    assert_eq!(
        classify_embedded_asset(Some(EmbeddedAssetKind::Db), &[0u8; 102]),
        EmbeddedAssetState::AlreadyPlaintext
    );
    assert!(!is_valid_decrypted_candidate(None, b"<x/>"));
    assert!(is_valid_decrypted_candidate(Some(EmbeddedAssetKind::Csv), b"a,b"));
}

#[test]
fn workflow_file_names() {
    assert_eq!(encrypted_name_stem(Some("abc.encrypted.zip")), "abc");
    assert_eq!(encrypted_name_stem(Some("abc.zip")), "abc");
    assert_eq!(encrypted_name_stem(Some(".hidden")), ".hidden");
    assert_eq!(encrypted_name_stem(Some("noext")), "noext");
    assert_eq!(encrypted_name_stem(None), "archive");
    assert_eq!(encrypted_package_name("a1"), "a1.encrypted.zip");
    assert_eq!(decrypted_package_name("a1"), "a1.zip");
    assert_eq!(encrypted_copy_name(Some("a1.encrypted.zip"), "a1"), "a1.encrypted.zip");
    assert_eq!(encrypted_copy_name(Some("a1.zip"), "a1"), "a1.encrypted.zip");
    assert_eq!(encrypted_copy_name(None, "a1"), "a1.encrypted.zip");
    assert!(is_subtitle_source_name("subtitles_ja.oxk.decrypted"));
    assert!(is_subtitle_source_name("x.oxk"));
    assert!(!is_subtitle_source_name("x.OXK"));
    assert!(!is_subtitle_source_name("x.decrypted"));
    assert_eq!(subtitle_output_name("subtitles_ja.oxk.decrypted", "ass"), "subtitles_ja.ass");
    assert_eq!(subtitle_output_name("x.oxk", "srt"), "x.srt");
    assert_eq!(db_report_name("sample.db"), "sample.db.json");
    assert_eq!(db_report_name("SAMPLE.DB"), "SAMPLE.DB.json");
}

#[test]
fn work_names_are_safe_directory_names() {
    assert_eq!(sanitize_work_name("Sample Title", "a1"), "Sample Title");
    assert_eq!(sanitize_work_name("  a<br/>b:c\t d  ", "a1"), "a b_c d");
    assert_eq!(sanitize_work_name("<>", "a1"), "__");
    assert_eq!(sanitize_work_name(" \n\t ", "a1"), "a1");
    assert_eq!(sanitize_work_name("", "a1"), "a1");
}

#[test]
fn embedded_assets_are_kept_decrypted_or_reported() {
    let mut db = vec![0u8; 102];
    db[44] = 0x80;
    db[93] = 0x15;
    assert!(matches!(
        process_embedded_asset(Some(EmbeddedAssetKind::Db), &db),
        EmbeddedOutcome::Unchanged
    ));
    assert!(matches!(process_embedded_asset(None, &[1, 2, 3]), EmbeddedOutcome::Unchanged));
    assert!(matches!(
        process_embedded_asset(Some(EmbeddedAssetKind::Db), &[0u8; 10]),
        EmbeddedOutcome::Invalid
    ));
    let plain = b"<x/>".to_vec();
    let encrypted: Vec<u8> = plain
        .iter()
        .map(|wanted| (0..=255u8).find(|byte| decrypt_bytes(&[*byte])[0] == *wanted).unwrap())
        .collect();
    assert_eq!(decrypt_bytes(&encrypted), plain);
    if !looks_like_xml(&encrypted) {
        match process_embedded_asset(Some(EmbeddedAssetKind::Oxk), &encrypted) {
            EmbeddedOutcome::Rewrite(bytes) => assert_eq!(bytes, plain),
            other => panic!("expected a rewrite, got {other:?}"),
        }
    }
}
