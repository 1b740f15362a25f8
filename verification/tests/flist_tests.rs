//! The wire file-list codec, sent and read back.

use rsync_core::file_info::{FileInfo, FileType};
use rsync_core::rsync_flist::{
    find_common_prefix, recv_file_entry, recv_file_list, send_file_entry, send_file_list,
    write_end_of_flist, FileEntry, FileListState,
};
use rsync_core::stream::ByteBuffer;

fn plain_entry(path: &str, len: u64, modtime: i64) -> FileEntry {
    FileEntry {
        path: path.to_string(),
        mode: 0o644,
        len,
        modtime,
        uid: 0,
        gid: 0,
        is_dir: false,
        is_symlink: false,
        symlink_target: None,
    }
}

fn roundtrip_entries(entries: &[FileEntry], use_varint_flags: bool) -> Vec<FileEntry> {
    let mut writer = ByteBuffer::new();
    let mut send_state = FileListState::new();
    for e in entries {
        send_file_entry(&mut writer, e, &mut send_state, use_varint_flags).unwrap();
    }
    write_end_of_flist(&mut writer, use_varint_flags).unwrap();

    let mut reader = ByteBuffer::from_vec(writer.data);
    let mut recv_state = FileListState::new();
    let mut out = Vec::new();
    loop {
        match recv_file_entry(&mut reader, &mut recv_state, use_varint_flags).unwrap() {
            Some(e) => out.push(e),
            None => break,
        }
    }
    out
}

#[test]
fn entry_roundtrip_byte_flags() {
    let entries = vec![
        plain_entry("foo/bar.txt", 1234, 99),
        plain_entry("foo/baz.txt", 77, 99),
    ];
    let got = roundtrip_entries(&entries, false);
    assert_eq!(got.len(), 2);
    assert_eq!(got[0].path, "foo/bar.txt");
    assert_eq!(got[0].len, 1234);
    assert_eq!(got[0].modtime, 99);
    assert_eq!(got[0].mode, 0o644);
    assert!(!got[0].is_dir);
    assert_eq!(got[1].path, "foo/baz.txt");
    assert_eq!(got[1].len, 77);
    assert_eq!(got[1].modtime, 99);
}

#[test]
fn entry_roundtrip_varint_flags() {
    let entries = vec![
        plain_entry("a", 0, 5),
        plain_entry("ab", u64::MAX, -3),
    ];
    let got = roundtrip_entries(&entries, true);
    assert_eq!(got.len(), 2);
    assert_eq!(got[0].path, "a");
    assert_eq!(got[0].len, 0);
    assert_eq!(got[1].path, "ab");
    assert_eq!(got[1].len, u64::MAX);
    assert_eq!(got[1].modtime, -3);
}

#[test]
fn entry_roundtrip_directory() {
    let mut dir = plain_entry("subdir", 0, 42);
    dir.is_dir = true;
    let got = roundtrip_entries(&[dir], false);
    assert_eq!(got.len(), 1);
    assert!(got[0].is_dir);
    assert_eq!(got[0].path, "subdir");
}

#[test]
fn long_name_roundtrip() {
    let long = "d/".to_string() + &"x".repeat(400);
    let got = roundtrip_entries(&[plain_entry(&long, 9, 1)], false);
    assert_eq!(got.len(), 1);
    assert_eq!(got[0].path, long);
}

#[test]
fn end_marker_alone() {
    let mut writer = ByteBuffer::new();
    write_end_of_flist(&mut writer, false).unwrap();
    assert_eq!(writer.data, vec![0u8]);
    let mut reader = ByteBuffer::from_vec(writer.data);
    let mut state = FileListState::new();
    assert!(recv_file_entry(&mut reader, &mut state, false)
        .unwrap()
        .is_none());
}

#[test]
fn truncated_entry_is_error() {
    let entries = vec![plain_entry("foo/bar.txt", 1234, 99)];
    let mut writer = ByteBuffer::new();
    let mut state = FileListState::new();
    send_file_entry(&mut writer, &entries[0], &mut state, false).unwrap();
    let mut cut = writer.data.clone();
    cut.truncate(cut.len() - 1);
    let mut reader = ByteBuffer::from_vec(cut);
    let mut recv_state = FileListState::new();
    assert!(recv_file_entry(&mut reader, &mut recv_state, false).is_err());
}

#[test]
fn file_list_roundtrip() {
    let infos = vec![
        FileInfo {
            path: "root/notes.txt".to_string(),
            size: 10,
            mtime: 7,
            is_symlink: false,
            symlink_target: None,
            file_type: FileType::File,
        },
        FileInfo {
            path: "root/sub".to_string(),
            size: 0,
            mtime: 8,
            is_symlink: false,
            symlink_target: None,
            file_type: FileType::Directory,
        },
    ];
    let mut writer = ByteBuffer::new();
    send_file_list(&mut writer, &infos, "root/", true).unwrap();
    let mut reader = ByteBuffer::from_vec(writer.data);
    let got = recv_file_list(&mut reader, true).unwrap();
    assert_eq!(got.len(), 2);
    assert_eq!(got[0].path, "notes.txt");
    assert_eq!(got[0].len, 10);
    assert!(!got[0].is_dir);
    assert_eq!(got[1].path, "sub");
    assert!(got[1].is_dir);
}

#[test]
fn common_prefix_lengths() {
    assert_eq!(find_common_prefix(b"foo/bar", b"foo/baz"), 6);
    assert_eq!(find_common_prefix(b"", b"anything"), 0);
    assert_eq!(find_common_prefix(b"same", b"same"), 4);
    assert_eq!(find_common_prefix(b"abc", b"xbc"), 0);
}
