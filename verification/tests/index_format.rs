use sha1::{Digest, Sha1};
use it::index::{index_format_warning, index_is_readable, read_index, write_index, IndexEntry};

fn entry(fill: u8, flags: u16, path: &str) -> IndexEntry {
    IndexEntry { sha: [fill; 20], flags, path: path.to_string() }
}

#[test]
fn empty_file_has_no_entries() {
    let r = read_index(&[]);
    assert!(r.entries.is_empty());
    assert!(!r.bad_signature);
}

#[test]
fn write_index_layout() {
    let entries = vec![entry(0xab, 0x0007, "a.txt")];
    let bytes = write_index(&entries);
    // header
    assert_eq!(&bytes[0..4], b"DIRC");
    assert_eq!(&bytes[4..8], &[0, 0, 0, 2]);
    assert_eq!(&bytes[8..12], &[0, 0, 0, 1]);
    // fixed part: 24 zero bytes, mode 0o100644, 12 zero bytes
    assert_eq!(&bytes[12..36], &[0u8; 24]);
    assert_eq!(&bytes[36..40], &0o100644u32.to_be_bytes());
    assert_eq!(&bytes[40..52], &[0u8; 12]);
    assert_eq!(&bytes[52..72], &[0xab; 20]);
    assert_eq!(&bytes[72..74], &[0x00, 0x07]);
    assert_eq!(&bytes[74..79], b"a.txt");
    assert_eq!(bytes[79], 0);
    // 62 + 5 + 1 = 68 bytes, padded to 72
    assert_eq!(&bytes[80..84], &[0u8; 4]);
    assert_eq!(bytes.len(), 12 + 72 + 20);
}

#[test]
fn write_index_checksum_is_sha1_of_body() {
    let entries = vec![entry(1, 2, "x")];
    let bytes = write_index(&entries);
    let body = &bytes[..bytes.len() - 20];
    let digest = Sha1::digest(body);
    assert_eq!(&bytes[bytes.len() - 20..], digest.as_slice());
}

#[test]
fn write_index_of_no_entries() {
    let bytes = write_index(&[]);
    assert_eq!(&bytes[..12], b"DIRC\x00\x00\x00\x02\x00\x00\x00\x00");
    assert_eq!(bytes.len(), 32);
    assert_eq!(&bytes[12..], Sha1::digest(&bytes[..12]).as_slice());
}

#[test]
fn read_index_after_write_index() {
    let entries = vec![
        entry(0x11, 0x0001, "README.md"),
        entry(0x22, 0xfffe, "src/main.rs"),
        entry(0x33, 0, "docs/\u{00e9}t\u{00e9}.txt"),
        entry(0x44, 0x8000, ""),
    ];
    let bytes = write_index(&entries);
    assert!(index_is_readable(&bytes));
    let r = read_index(&bytes);
    assert!(!r.bad_signature);
    assert_eq!(r.entries.len(), entries.len());
    for (a, b) in r.entries.iter().zip(entries.iter()) {
        assert_eq!(a.sha, b.sha);
        assert_eq!(a.flags, b.flags);
        assert_eq!(a.path, b.path);
    }
}

#[test]
fn padding_for_every_path_length() {
    for n in 0..17usize {
        let path: String = std::iter::repeat('p').take(n).collect();
        let bytes = write_index(&[entry(9, 9, &path)]);
        let entry_len = bytes.len() - 12 - 20;
        assert_eq!(entry_len % 8, 0);
        assert!(entry_len >= 62 + n + 1 && entry_len < 62 + n + 1 + 8);
        let r = read_index(&bytes);
        assert_eq!(r.entries[0].path, path);
    }
}

#[test]
fn wrong_signature_is_read_with_a_warning() {
    let mut bytes = write_index(&[entry(5, 5, "f")]);
    bytes[0] = b'X';
    assert!(index_is_readable(&bytes));
    let r = read_index(&bytes);
    assert!(r.bad_signature);
    assert_eq!(r.entries.len(), 1);
    assert_eq!(r.entries[0].path, "f");
}

#[test]
fn short_file_is_unreadable() {
    assert!(!index_is_readable(b"DIRC\x00\x00"));
    assert!(!index_is_readable(b"DIRC\x00\x00\x00\x02\x00\x00\x00"));
}

#[test]
fn announced_entries_must_be_present() {
    let mut bytes = b"DIRC\x00\x00\x00\x02\x00\x00\x00\x01".to_vec();
    assert!(!index_is_readable(&bytes));
    bytes.extend_from_slice(&[0u8; 62]);
    // no NUL after the path start: the path runs to the end
    bytes.extend_from_slice(b"abc");
    assert!(!index_is_readable(&bytes));
    bytes.push(0);
    assert!(index_is_readable(&bytes));
    assert_eq!(read_index(&bytes).entries[0].path, "abc");
}

#[test]
fn path_must_be_utf8() {
    let mut bytes = b"DIRC\x00\x00\x00\x02\x00\x00\x00\x01".to_vec();
    bytes.extend_from_slice(&[0u8; 62]);
    bytes.extend_from_slice(&[0xff, 0xfe, 0]);
    assert!(!index_is_readable(&bytes));
}

#[test]
fn zero_entries_with_trailing_bytes() {
    let bytes = b"DIRC\x00\x00\x00\x02\x00\x00\x00\x00trailing".to_vec();
    let r = read_index(&bytes);
    assert!(r.entries.is_empty());
    assert!(!r.bad_signature);
}

#[test]
fn written_index_is_header_entries_and_checksum() {
    for n in 0..5usize {
        let entries: Vec<IndexEntry> =
            (0..n).map(|i| entry(i as u8, i as u16, &"p".repeat(i * 3 + 1))).collect();
        let bytes = write_index(&entries);
        assert!(bytes.len() >= 32);
        assert_eq!((bytes.len() - 32) % 8, 0);
        let body = &bytes[..bytes.len() - 20];
        assert_eq!(&bytes[bytes.len() - 20..], Sha1::digest(body).as_slice());
    }
}

#[test]
fn format_warning_on_short_or_unsigned_files() {
    assert!(!index_format_warning(&[]));
    assert!(index_format_warning(b"DIRC"));
    assert!(index_format_warning(b"XIRC\x00\x00\x00\x02\x00\x00\x00\x00"));
    assert!(!index_format_warning(&write_index(&[])));
}

#[test]
fn length_warning_on_truncated_entries() {
    let full = write_index(&[entry(1, 0, "abc")]);
    // the header announces one entry, but its fixed part is cut short
    assert!(it::index::index_len_warning(&full[..40]));
    assert!(!index_is_readable(&full[..40]));
    // a path without its NUL is unreadable without that warning
    assert!(!it::index::index_len_warning(&full[..75]));
    assert!(!index_is_readable(&full[..75]));
    assert!(!it::index::index_len_warning(&full));
    assert!(!it::index::index_len_warning(&[]));
}
