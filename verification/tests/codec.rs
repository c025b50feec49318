use crust::crust_file::{BuildError, CrustFile, EntryError};
use crust::crust_packed::{ArchiveError, CrustPacked};

fn entry(path: &str, data: &[u8]) -> CrustFile {
    CrustFile::from_path_and_data(path, data.to_vec()).unwrap()
}

fn assert_entry_eq(a: &CrustFile, b: &CrustFile) {
    assert_eq!(a.extension_len, b.extension_len);
    assert_eq!(a.name_len, b.name_len);
    assert_eq!(a.data_len, b.data_len);
    assert_eq!(a.filename, b.filename);
    assert_eq!(a.extension, b.extension);
    assert_eq!(a.file_data, b.file_data);
}

#[test]
fn entry_fields_from_path() {
    let e = entry("a.txt", b"hello");
    assert_eq!(e.extension_len, 3);
    assert_eq!(e.name_len, 5);
    assert_eq!(e.data_len, 5);
    assert_eq!(e.filename, "a.txt");
    assert_eq!(e.extension, "txt");
    assert_eq!(e.file_data, b"hello".to_vec());
}

#[test]
fn entry_layout_exact() {
    let e = entry("a.txt", b"hello");
    let bytes = e.as_bytes();
    let mut expected: Vec<u8> = vec![3, 5, 0, 5, 0, 0, 0];
    expected.extend_from_slice(b"a.txt");
    expected.extend_from_slice(b"txt");
    expected.extend_from_slice(b"hello");
    assert_eq!(bytes, expected);
    assert_eq!(bytes.len(), 7 + 3 + 5 + 5);
}

#[test]
fn entry_round_trip() {
    let e = entry("a.txt", b"hello");
    let bytes = e.as_bytes();
    let (decoded, used) = CrustFile::from_bytes(&bytes).unwrap();
    assert_eq!(used, bytes.len());
    assert_entry_eq(&decoded, &e);
}

#[test]
fn entry_round_trip_ignores_trailing_bytes() {
    let e = entry("a.txt", b"hello");
    let mut bytes = e.as_bytes();
    let plain_len = bytes.len();
    bytes.extend_from_slice(&[9, 9, 9, 9]);
    let (decoded, used) = CrustFile::from_bytes(&bytes).unwrap();
    assert_eq!(used, plain_len);
    assert_entry_eq(&decoded, &e);
}

#[test]
fn base_name_takes_last_segment() {
    let e = entry("some/dir\\name.txt", b"x");
    assert_eq!(e.filename, "name.txt");
    assert_eq!(e.extension, "txt");
}

#[test]
fn base_name_of_bare_name() {
    let e = entry("plain.bin", b"x");
    assert_eq!(e.filename, "plain.bin");
}

#[test]
fn extension_is_first_dot_segment() {
    let e = entry("archive.tar.gz", b"x");
    assert_eq!(e.filename, "archive.tar.gz");
    assert_eq!(e.name_len, 14);
    assert_eq!(e.extension, "tar");
    assert_eq!(e.extension_len, 3);
}

#[test]
fn extension_of_hidden_file() {
    let e = entry(".gitignore", b"x");
    assert_eq!(e.filename, ".gitignore");
    assert_eq!(e.extension, "gitignore");
}

#[test]
fn extension_may_be_empty() {
    let e = entry("file.", b"x");
    assert_eq!(e.extension, "");
    assert_eq!(e.extension_len, 0);
    let bytes = e.as_bytes();
    let (decoded, used) = CrustFile::from_bytes(&bytes).unwrap();
    assert_eq!(used, bytes.len());
    assert_entry_eq(&decoded, &e);
}

#[test]
fn no_extension_is_rejected() {
    let r = CrustFile::from_path_and_data("noext", vec![1, 2]);
    assert_eq!(r.unwrap_err(), BuildError::NoExtension);
    // a dot in a directory segment does not count
    let r = CrustFile::from_path_and_data("dir.d/noext", vec![1, 2]);
    assert_eq!(r.unwrap_err(), BuildError::NoExtension);
}

#[test]
fn empty_base_name_is_rejected() {
    // a path that ends in a separator has an empty base name
    assert_eq!(
        CrustFile::from_path_and_data("dir/", vec![1]).unwrap_err(),
        BuildError::NoExtension
    );
    assert_eq!(
        CrustFile::from_path_and_data("", vec![1]).unwrap_err(),
        BuildError::NoExtension
    );
}

#[test]
fn overlong_name_is_rejected() {
    let mut path = "a".repeat(65532);
    path.push_str(".txt");
    assert_eq!(path.len(), 65536);
    let r = CrustFile::from_path_and_data(&path, vec![]);
    assert_eq!(r.unwrap_err(), BuildError::NameTooLong);
}

#[test]
fn overlong_extension_is_rejected() {
    let mut path = "f.".to_string();
    path.push_str(&"x".repeat(256));
    let r = CrustFile::from_path_and_data(&path, vec![]);
    assert_eq!(r.unwrap_err(), BuildError::ExtensionTooLong);
}

#[test]
fn name_length_boundary_round_trips() {
    // base name of exactly 65535 bytes
    let mut path = "a".repeat(65531);
    path.push_str(".txt");
    assert_eq!(path.len(), 65535);
    let e = entry(&path, b"data");
    assert_eq!(e.name_len, 65535);
    let bytes = e.as_bytes();
    let (decoded, used) = CrustFile::from_bytes(&bytes).unwrap();
    assert_eq!(used, bytes.len());
    assert_entry_eq(&decoded, &e);
}

#[test]
fn extension_length_boundary_round_trips() {
    // extension of exactly 255 bytes
    let mut path = "f.".to_string();
    path.push_str(&"x".repeat(255));
    let e = entry(&path, b"");
    assert_eq!(e.extension_len, 255);
    assert_eq!(e.name_len, 257);
    let bytes = e.as_bytes();
    let (decoded, used) = CrustFile::from_bytes(&bytes).unwrap();
    assert_eq!(used, bytes.len());
    assert_entry_eq(&decoded, &e);
}

#[test]
fn non_ascii_name_round_trips() {
    let e = entry("caf\u{e9}.txt", b"x");
    assert_eq!(e.filename, "caf\u{e9}.txt");
    assert_eq!(e.name_len, 9); // the accented character takes two bytes
    let bytes = e.as_bytes();
    let (decoded, used) = CrustFile::from_bytes(&bytes).unwrap();
    assert_eq!(used, bytes.len());
    assert_eq!(decoded.filename, "caf\u{e9}.txt");
    assert_entry_eq(&decoded, &e);
}

#[test]
fn entry_truncated_header() {
    assert_eq!(CrustFile::from_bytes(&[]).unwrap_err(), EntryError::TruncatedHeader);
    assert_eq!(CrustFile::from_bytes(&[1, 2, 3, 4, 5, 6]).unwrap_err(), EntryError::TruncatedHeader);
}

#[test]
fn entry_truncated_body() {
    // header declares a 1-byte extension but none follows
    let bytes = [1u8, 0, 0, 0, 0, 0, 0];
    assert_eq!(CrustFile::from_bytes(&bytes).unwrap_err(), EntryError::TruncatedBody);
}

#[test]
fn entry_invalid_utf8_name() {
    // name_len = 1, the single name byte is not valid UTF-8
    let bytes = [0u8, 1, 0, 0, 0, 0, 0, 0xFF];
    assert_eq!(CrustFile::from_bytes(&bytes).unwrap_err(), EntryError::InvalidUtf8);
}

#[test]
fn entry_invalid_utf8_extension() {
    // extension_len = 1, name "a", the extension byte is not valid UTF-8
    let bytes = [1u8, 1, 0, 0, 0, 0, 0, b'a', 0xFF];
    assert_eq!(CrustFile::from_bytes(&bytes).unwrap_err(), EntryError::InvalidUtf8);
}

#[test]
fn empty_archive_is_nine_bytes() {
    let a = CrustPacked::from_files(vec![]);
    assert_eq!(a.file_count, 0);
    let bytes = a.as_bytes();
    assert_eq!(bytes, b"CRuST\x00\x00\x00\x00".to_vec());
    let decoded = CrustPacked::from_bytes(&bytes).unwrap();
    assert_eq!(decoded.file_count, 0);
    assert_eq!(decoded.files.len(), 0);
}

#[test]
fn archive_of_two_files_is_47_bytes() {
    let a = CrustPacked::from_files(vec![entry("a.txt", b"hello"), entry("b.bin", &[0, 1, 2])]);
    assert_eq!(a.file_count, 2);
    let bytes = a.as_bytes();
    assert_eq!(bytes.len(), 9 + (7 + 3 + 5 + 5) + (7 + 3 + 5 + 3));
    assert_eq!(bytes.len(), 47);
    assert_eq!(&bytes[0..5], b"CRuST");
    assert_eq!(&bytes[5..9], &[2, 0, 0, 0]);
}

#[test]
fn archive_round_trip_both_orders() {
    let orders: [[&str; 2]; 2] = [["a.txt", "b.bin"], ["b.bin", "a.txt"]];
    for order in orders.iter() {
        let files: Vec<CrustFile> = order
            .iter()
            .map(|name| {
                if *name == "a.txt" {
                    entry("a.txt", b"hello")
                } else {
                    entry("b.bin", &[0, 1, 2])
                }
            })
            .collect();
        let a = CrustPacked::from_files(files);
        let bytes = a.as_bytes();
        assert_eq!(bytes.len(), 47);
        let decoded = CrustPacked::from_bytes(&bytes).unwrap();
        assert_eq!(decoded.file_count, 2);
        assert_eq!(decoded.files.len(), 2);
        for (d, o) in decoded.files.iter().zip(a.files.iter()) {
            assert_entry_eq(d, o);
        }
    }
}

#[test]
fn archive_decode_keeps_flat_names_and_content() {
    // entries collected from nested directories still decode to exactly
    // file_count flat entries with matching names and byte-identical content
    let a = CrustPacked::from_files(vec![
        entry("root/sub/inner.txt", b"one"),
        entry("root/other.bin", &[4, 5]),
    ]);
    let bytes = a.as_bytes();
    let decoded = CrustPacked::from_bytes(&bytes).unwrap();
    assert_eq!(decoded.file_count, 2);
    assert_eq!(decoded.files.len(), 2);
    assert_eq!(decoded.files[0].filename, "inner.txt");
    assert_eq!(decoded.files[0].file_data, b"one".to_vec());
    assert_eq!(decoded.files[1].filename, "other.bin");
    assert_eq!(decoded.files[1].file_data, vec![4, 5]);
}

#[test]
fn archive_ignores_trailing_garbage() {
    let a = CrustPacked::from_files(vec![entry("a.txt", b"hello")]);
    let mut bytes = a.as_bytes();
    bytes.extend_from_slice(&[0xDE, 0xAD, 0xBE, 0xEF]);
    let decoded = CrustPacked::from_bytes(&bytes).unwrap();
    assert_eq!(decoded.file_count, 1);
    assert_entry_eq(&decoded.files[0], &a.files[0]);
}

#[test]
fn truncation_at_every_boundary_fails() {
    let a = CrustPacked::from_files(vec![entry("a.txt", b"hello"), entry("b.bin", &[0, 1, 2])]);
    let bytes = a.as_bytes();
    assert_eq!(bytes.len(), 47);
    for cut in 0..bytes.len() {
        let r = CrustPacked::from_bytes(&bytes[..cut]);
        assert!(r.is_err(), "decode of {}-byte prefix unexpectedly succeeded", cut);
    }
}

#[test]
fn short_input_is_too_short() {
    assert_eq!(CrustPacked::from_bytes(b"CRuST").unwrap_err(), ArchiveError::TooShort);
    assert_eq!(CrustPacked::from_bytes(&[]).unwrap_err(), ArchiveError::TooShort);
}

#[test]
fn altering_any_magic_byte_fails() {
    let a = CrustPacked::from_files(vec![entry("a.txt", b"hello")]);
    let bytes = a.as_bytes();
    for i in 0..5 {
        let mut bad = bytes.clone();
        bad[i] ^= 0xFF;
        assert_eq!(CrustPacked::from_bytes(&bad).unwrap_err(), ArchiveError::BadMagic);
    }
}

#[test]
fn corrupt_entry_reports_offset() {
    let a = CrustPacked::from_files(vec![entry("a.txt", b"hello"), entry("b.bin", &[0, 1, 2])]);
    let bytes = a.as_bytes();
    // the first record is 20 bytes, so the second starts at offset 29;
    // cutting inside its fixed header leaves fewer than 7 bytes there
    let r = CrustPacked::from_bytes(&bytes[..31]);
    assert_eq!(r.unwrap_err(), ArchiveError::CorruptEntry(29, EntryError::TruncatedHeader));
    // cutting inside the second record's body
    let r = CrustPacked::from_bytes(&bytes[..40]);
    assert_eq!(r.unwrap_err(), ArchiveError::CorruptEntry(29, EntryError::TruncatedBody));
    // cutting inside the first record
    let r = CrustPacked::from_bytes(&bytes[..12]);
    assert_eq!(r.unwrap_err(), ArchiveError::CorruptEntry(9, EntryError::TruncatedHeader));
}

#[test]
fn corrupt_entry_wraps_invalid_utf8() {
    // file_count = 1, then a record whose single name byte is not UTF-8
    let mut bytes = b"CRuST\x01\x00\x00\x00".to_vec();
    bytes.extend_from_slice(&[0u8, 1, 0, 0, 0, 0, 0, 0xFF]);
    let r = CrustPacked::from_bytes(&bytes);
    assert_eq!(r.unwrap_err(), ArchiveError::CorruptEntry(9, EntryError::InvalidUtf8));
}

#[test]
fn stored_count_governs_decoding() {
    // header claims one entry but none follows
    let bytes = b"CRuST\x01\x00\x00\x00".to_vec();
    let r = CrustPacked::from_bytes(&bytes);
    assert_eq!(r.unwrap_err(), ArchiveError::CorruptEntry(9, EntryError::TruncatedHeader));
}
