use buddy_cast::archive::{
    path_matches_suffixes, plan_zip_extraction, read_zip_entries, sanitize_zip_path, ArchiveError,
    ExtractEntry, ExtractError,
};
use std::io::{Cursor, Write};
use zip::write::SimpleFileOptions;
use zip::ZipWriter;

fn build_zip(entries: &[(&str, Option<&[u8]>)]) -> Vec<u8> {
    let mut writer = ZipWriter::new(Cursor::new(Vec::new()));
    for (name, contents) in entries {
        match contents {
            Some(bytes) => {
                writer.start_file(*name, SimpleFileOptions::default()).unwrap();
                writer.write_all(bytes).unwrap();
            }
            None => writer.add_directory(*name, SimpleFileOptions::default()).unwrap(),
        }
    }
    writer.finish().unwrap().into_inner()
}

#[test]
fn zip_paths_are_made_relative_and_safe() {
    assert_eq!(sanitize_zip_path("a/b.txt"), Ok("a/b.txt".to_string()));
    assert_eq!(sanitize_zip_path("./a//b/./c"), Ok("a/b/c".to_string()));
    assert_eq!(sanitize_zip_path("dir/"), Ok("dir".to_string()));
    assert_eq!(sanitize_zip_path(""), Ok(String::new()));
    assert_eq!(sanitize_zip_path("a/.../b"), Ok("a/.../b".to_string()));
    assert_eq!(
        sanitize_zip_path("../etc/passwd"),
        Err("zip entry contains unsafe path component: ../etc/passwd".to_string())
    );
    assert!(sanitize_zip_path("a/../b").is_err());
    assert!(sanitize_zip_path("/abs").is_err());
}

#[test]
fn suffix_filter_ignores_case() {
    assert!(path_matches_suffixes("x/Y.OXK", Some(&[".decrypted", ".oxk"])));
    assert!(path_matches_suffixes("x/sample.DB", Some(&[".db"])));
    assert!(!path_matches_suffixes("x/sample.db.json", Some(&[".db"])));
    assert!(path_matches_suffixes("anything", None));
    assert!(!path_matches_suffixes("anything", Some(&[])));
}

#[test]
fn zip_entries_are_listed_from_memory() {
    // A stored zip archive with one file "a.txt" holding "hi".
    let data: Vec<u8> = vec![
        0x50, 0x4b, 0x03, 0x04, 0x0a, 0x00, 0x00, 0x00, 0x00, 0x00, 0x00, 0x00, 0x00, 0x00, 0xac,
        0x2a, 0x93, 0xd8, 0x02, 0x00, 0x00, 0x00, 0x02, 0x00, 0x00, 0x00, 0x05, 0x00, 0x00, 0x00,
        0x61, 0x2e, 0x74, 0x78, 0x74, 0x68, 0x69, 0x50, 0x4b, 0x01, 0x02, 0x14, 0x00, 0x0a, 0x00,
        0x00, 0x00, 0x00, 0x00, 0x00, 0x00, 0x00, 0x00, 0xac, 0x2a, 0x93, 0xd8, 0x02, 0x00, 0x00,
        0x00, 0x02, 0x00, 0x00, 0x00, 0x05, 0x00, 0x00, 0x00, 0x00, 0x00, 0x00, 0x00, 0x00, 0x00,
        0x00, 0x00, 0x00, 0x00, 0x00, 0x00, 0x00, 0x00, 0x61, 0x2e, 0x74, 0x78, 0x74, 0x50, 0x4b,
        0x05, 0x06, 0x00, 0x00, 0x00, 0x00, 0x01, 0x00, 0x01, 0x00, 0x33, 0x00, 0x00, 0x00, 0x25,
        0x00, 0x00, 0x00, 0x00, 0x00,
    ];
    let entries = read_zip_entries(&data).expect("archive should open");
    assert_eq!(entries.len(), 1);
    assert_eq!(entries[0].path, "a.txt");
    assert_eq!(entries[0].size, 2);
    assert_eq!(read_zip_entries(b"not a zip").unwrap_err(), ArchiveError::OpenFailed);
}

#[test]
fn sanitized_paths_are_themselves_safe() {
    for name in ["a/b.txt", "./a//b/./c", "dir/", "", "a/.../b", "x/..y/z.", "./.hidden/f"] {
        let clean = sanitize_zip_path(name).expect("name is safe");
        assert!(!clean.starts_with('/'));
        assert!(clean.split('/').all(|segment| segment != ".."));
        assert_eq!(sanitize_zip_path(&clean), Ok(clean.clone()));
    }
}

#[test]
fn extraction_plan_lists_paths_kinds_and_contents() {
    let data = build_zip(&[
        ("dir/", None),
        ("./dir//a.txt", Some(b"hello")),
        ("b.bin", Some(&[0, 1, 2, 255])),
    ]);
    let planned = plan_zip_extraction(&data).expect("archive should extract");
    assert_eq!(planned.len(), 3);
    assert_eq!(
        planned[0],
        ExtractEntry { relative_path: "dir".to_string(), is_dir: true, contents: Vec::new() }
    );
    assert_eq!(planned[1].relative_path, "dir/a.txt");
    assert!(!planned[1].is_dir);
    assert_eq!(planned[1].contents, b"hello".to_vec());
    assert_eq!(planned[2].contents, vec![0, 1, 2, 255]);
}

#[test]
fn extraction_plan_errors() {
    assert_eq!(plan_zip_extraction(b"not a zip"), Err(ExtractError::OpenFailed));
    let data = build_zip(&[("ok.txt", Some(b"x")), ("../evil.txt", Some(b"y"))]);
    assert_eq!(
        plan_zip_extraction(&data),
        Err(ExtractError::UnsafePath(
            1,
            "zip entry contains unsafe path component: ../evil.txt".to_string()
        ))
    );
}
