use rsync_core::file_info::{FileInfo, FileType};
use rsync_core::file_list::FileList;
use rsync_core::stream::{ByteBuffer, ProtocolStream};
use rsync_core::version::{ProtocolVersion, PROTOCOL_VERSION_MAX};
use rsync_core::error::RsyncError;

#[test]
fn test_read_write_i32() {
    let mut stream = ProtocolStream::new(ByteBuffer::new(), 31);

    stream.write_i32(123456).unwrap();
    stream.get_mut().set_position(0);
    let val = stream.read_i32().unwrap();

    assert_eq!(val, 123456);
}

#[test]
fn test_read_string() {
    let data = b"hello\0world".to_vec();
    let mut stream = ProtocolStream::new(ByteBuffer::from_vec(data), 31);

    let s = stream.read_string(100).unwrap();
    assert_eq!(s, "hello");

    assert_eq!(stream.get_ref().position(), 6);
}

#[test]
fn test_write_string() {
    let mut stream = ProtocolStream::new(ByteBuffer::new(), 31);

    stream.write_string("test").unwrap();
    stream.get_mut().set_position(0);

    let s = stream.read_string(100).unwrap();
    assert_eq!(s, "test");
}

#[test]
fn test_varint_round_trip() {
    let test_values: Vec<i64> = vec![
        0, 1, 100, 250,
        -1, -50, -128,
        251, 1000, 32767,
        -129, -1000, -32768,
        32768, 1000000,
        -32769, -1000000,
        2147483648,
        -2147483649,
    ];

    for &val in &test_values {
        let mut stream = ProtocolStream::new(ByteBuffer::new(), 31);

        stream.write_varint(val).unwrap();
        stream.get_mut().set_position(0);
        let read_val = stream.read_varint().unwrap();

        assert_eq!(val, read_val, "Failed for value: {}", val);
    }
}

#[test]
fn test_varint_encoding_size() {
    let mut stream = ProtocolStream::new(ByteBuffer::new(), 31);

    stream.write_varint(100).unwrap();
    assert_eq!(stream.get_ref().get_ref().len(), 1);

    stream.get_mut().get_mut().clear();
    stream.get_mut().set_position(0);
    stream.write_varint(1000).unwrap();
    assert_eq!(stream.get_ref().get_ref().len(), 3);
}

#[test]
fn test_varint_extreme_values() {
    for &val in &[i64::MIN, i64::MAX, i64::MIN + 1, i64::MAX - 1] {
        let mut stream = ProtocolStream::new(ByteBuffer::new(), 31);
        stream.write_varint(val).unwrap();
        stream.get_mut().set_position(0);
        assert_eq!(stream.read_varint().unwrap(), val);
    }
}

#[test]
fn test_read_write_i64() {
    for &val in &[0i64, -1, 42, i64::MIN, i64::MAX] {
        let mut stream = ProtocolStream::new(ByteBuffer::new(), 31);
        stream.write_i64(val).unwrap();
        stream.get_mut().set_position(0);
        assert_eq!(stream.read_i64().unwrap(), val);
    }
}

#[test]
fn test_read_write_i8() {
    for &val in &[0i8, 1, -1, i8::MIN, i8::MAX] {
        let mut stream = ProtocolStream::new(ByteBuffer::new(), 31);
        stream.write_i8(val).unwrap();
        stream.get_mut().set_position(0);
        assert_eq!(stream.read_i8().unwrap(), val);
    }
}

#[test]
fn test_read_string_invalid_utf8() {
    let data = vec![0xFFu8, 0xFE, 0x00];
    let mut stream = ProtocolStream::new(ByteBuffer::from_vec(data), 31);
    match stream.read_string(100) {
        Err(RsyncError::Utf8(_)) => {}
        other => panic!("expected a UTF-8 error, got {:?}", other.is_ok()),
    }
}

#[test]
fn test_read_string_limit() {
    let data = b"toolong\0".to_vec();
    let mut stream = ProtocolStream::new(ByteBuffer::from_vec(data), 31);
    assert!(stream.read_string(3).is_err());
}

#[test]
fn test_encode_decode() {
    let mtime: i64 = 1000000;
    let files = vec![
        FileInfo {
            path: "file1.txt".to_string(),
            size: 100,
            mtime,
            file_type: FileType::File,
            is_symlink: false,
            symlink_target: None,
        },
        FileInfo {
            path: "dir1".to_string(),
            size: 0,
            mtime,
            file_type: FileType::Directory,
            is_symlink: false,
            symlink_target: None,
        },
    ];

    let mut stream = ProtocolStream::new(ByteBuffer::new(), 31);

    FileList::encode(&mut stream, &files).unwrap();

    stream.get_mut().set_position(0);
    let decoded_files = FileList::decode(&mut stream).unwrap();

    assert_eq!(decoded_files.len(), files.len());

    for (original, decoded) in files.iter().zip(decoded_files.iter()) {
        assert_eq!(original.path, decoded.path);
        assert_eq!(original.size, decoded.size);
        assert_eq!(original.file_type, decoded.file_type);
        assert_eq!(original.is_symlink, decoded.is_symlink);
        assert_eq!(original.mtime, decoded.mtime);
    }
}

#[test]
fn test_encode_decode_with_symlink() {
    let mtime: i64 = 2000000;
    let files = vec![
        FileInfo {
            path: "link1".to_string(),
            size: 0,
            mtime,
            file_type: FileType::Symlink,
            is_symlink: true,
            symlink_target: Some("/target/path".to_string()),
        },
    ];

    let mut stream = ProtocolStream::new(ByteBuffer::new(), 31);

    FileList::encode(&mut stream, &files).unwrap();

    stream.get_mut().set_position(0);
    let decoded_files = FileList::decode(&mut stream).unwrap();

    assert_eq!(decoded_files.len(), 1);
    assert_eq!(decoded_files[0].path, files[0].path);
    assert_eq!(decoded_files[0].is_symlink, true);
    assert_eq!(decoded_files[0].symlink_target, files[0].symlink_target);
}

#[test]
fn test_decode_truncated_list_fails() {
    let mut stream = ProtocolStream::new(ByteBuffer::new(), 31);
    stream.write_varint(3).unwrap();
    stream.write_string("only-a-name").unwrap();
    stream.get_mut().set_position(0);
    assert!(FileList::decode(&mut stream).is_err());
}

#[test]
fn test_negotiate_success() {
    assert_eq!(ProtocolVersion::negotiate(31, 27).unwrap(), 27);

    assert_eq!(ProtocolVersion::negotiate(28, 30).unwrap(), 28);

    assert_eq!(ProtocolVersion::negotiate(29, 29).unwrap(), 29);

    assert_eq!(
        ProtocolVersion::negotiate(PROTOCOL_VERSION_MAX, PROTOCOL_VERSION_MAX).unwrap(),
        PROTOCOL_VERSION_MAX,
    );
}

#[test]
fn test_negotiate_failure_remote_too_old() {
    let result = ProtocolVersion::negotiate(31, 26);
    assert!(result.is_err());
    match result.unwrap_err() {
        RsyncError::IncompatibleProtocol { local, remote } => {
            assert_eq!(local, 31);
            assert_eq!(remote, 26);
        }
        _ => panic!("Expected IncompatibleProtocol error"),
    }
}

#[test]
fn test_negotiate_failure_local_too_old() {
    let result = ProtocolVersion::negotiate(25, 28);
    assert!(result.is_err());
}
