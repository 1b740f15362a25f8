use rsync_core::multiplex::{MultiplexIO, MultiplexReader, MultiplexWriter};
use rsync_core::rsync_exclude::ExcludeList;
use rsync_core::rsync_protocol::{
    read_ndx, read_varint30, read_varlong30, write_ndx, write_varint30, write_varlong30,
    NdxState, NDX_DONE, NDX_FLIST_EOF,
};
use rsync_core::rsync_protocol::{
    read_shortint, read_varint, read_vstring, write_shortint, write_varint, write_vstring,
    CompatFlags, CF_CHKSUM_SEED_FIX, CF_INC_RECURSE, CF_SAFE_FLIST, CF_VARINT_FLIST_FLAGS,
};
use rsync_core::stream::ByteBuffer;

#[test]
fn test_compat_flags_protocol_31() {
    let flags = CompatFlags::new_for_protocol_31();
    assert!(flags.has_flag(CF_SAFE_FLIST));
    assert!(flags.has_flag(CF_CHKSUM_SEED_FIX));
    assert!(flags.has_flag(CF_VARINT_FLIST_FLAGS));
    assert!(!flags.has_flag(CF_INC_RECURSE));
}

#[test]
fn test_compat_flags_round_trip() {
    let flags = CompatFlags::new_for_protocol_31();
    let mut buffer = ByteBuffer::new();
    flags.write(&mut buffer).unwrap();
    buffer.set_position(0);
    let back = CompatFlags::read(&mut buffer).unwrap();
    assert_eq!(back.flags, flags.flags);
}

#[test]
fn test_shortint_round_trip() {
    for &val in &[0u16, 1, 255, 256, 0x1234, u16::MAX] {
        let mut buffer = ByteBuffer::new();
        write_shortint(&mut buffer, val).unwrap();
        assert_eq!(buffer.get_ref().len(), 2);
        buffer.set_position(0);
        assert_eq!(read_shortint(&mut buffer).unwrap(), val);
    }
}

#[test]
fn test_vstring_round_trip() {
    for s in ["", "short", &"x".repeat(0x80), &"y".repeat(0x7FFF)] {
        let mut buffer = ByteBuffer::new();
        write_vstring(&mut buffer, s).unwrap();
        buffer.set_position(0);
        assert_eq!(read_vstring(&mut buffer).unwrap(), s);
    }
}

#[test]
fn test_vstring_too_long() {
    let mut buffer = ByteBuffer::new();
    let long = "z".repeat(0x8000);
    assert!(write_vstring(&mut buffer, &long).is_err());
    assert_eq!(buffer.get_ref().len(), 0);
}

#[test]
fn test_protocol_varint_round_trip() {
    let values: Vec<i64> = vec![
        0, 1, 0x7F, 0x80, 0x3FFF, 0x4000, 0x1F_FFFF, 0x20_0000,
        0xFFF_FFFF, 0x1000_0000, i32::MAX as i64, -1, -2, i32::MIN as i64,
    ];
    for &val in &values {
        let mut buffer = ByteBuffer::new();
        write_varint(&mut buffer, val).unwrap();
        buffer.set_position(0);
        assert_eq!(read_varint(&mut buffer).unwrap(), val, "value {}", val);
    }
}

#[test]
fn test_protocol_varint_width() {
    // a small value costs one byte, a large one five
    let mut buffer = ByteBuffer::new();
    write_varint(&mut buffer, 5).unwrap();
    assert_eq!(buffer.get_ref().len(), 1);

    let mut buffer2 = ByteBuffer::new();
    write_varint(&mut buffer2, i32::MAX as i64).unwrap();
    assert_eq!(buffer2.get_ref().len(), 5);
}

#[test]
fn test_multiplex_data_round_trip() {
    let payload = b"framed data bytes".to_vec();
    let mut writer = MultiplexWriter::new(ByteBuffer::new());
    assert_eq!(writer.write(&payload).unwrap(), payload.len());

    let mut transported = writer.inner;
    transported.set_position(0);
    let mut reader = MultiplexReader::new(transported);
    let out = reader.read(payload.len()).unwrap();
    assert_eq!(out, payload);
}

#[test]
fn test_multiplex_header_layout() {
    // tag 7 in the top byte, the length in the lower 24 bits, little-endian
    let mut writer = MultiplexWriter::new(ByteBuffer::new());
    writer.write(b"ab").unwrap();
    let bytes = writer.inner.get_ref();
    assert_eq!(&bytes[0..4], &[0x02, 0x00, 0x00, 0x07]);
    assert_eq!(&bytes[4..6], b"ab");
}

#[test]
fn test_multiplex_error_frame_surfaces() {
    // tag base+1 carries an error message and fails the read
    let mut raw = vec![0x05, 0x00, 0x00, 0x08];
    raw.extend_from_slice(b"oops!");
    let mut reader = MultiplexReader::new(ByteBuffer::from_vec(raw));
    assert!(reader.read(10).is_err());
}

#[test]
fn test_multiplex_io_write() {
    let mut mux = MultiplexIO::new(ByteBuffer::new());
    mux.write(b"xyz").unwrap();
    let inner = mux.into_inner();
    assert_eq!(inner.get_ref().len(), 7);
}

#[test]
fn test_exclude_list_round_trip() {
    let mut list = ExcludeList::new();
    list.rules.push("*.tmp".to_string());
    list.rules.push("cache/".to_string());

    let mut buffer = ByteBuffer::new();
    list.send(&mut buffer).unwrap();
    // two frames and the terminator
    assert_eq!(buffer.get_ref().len(), 4 + 5 + 4 + 6 + 4);
    buffer.set_position(0);
    let back = ExcludeList::recv(&mut buffer).unwrap();
    assert_eq!(back.rules, vec!["*.tmp".to_string(), "cache/".to_string()]);
}

#[test]
fn test_exclude_list_empty() {
    let list = ExcludeList::new();
    let mut buffer = ByteBuffer::new();
    list.send(&mut buffer).unwrap();
    assert_eq!(buffer.get_ref().as_slice(), &[0, 0, 0, 0]);
    buffer.set_position(0);
    let back = ExcludeList::recv(&mut buffer).unwrap();
    assert!(back.rules.is_empty());
}

#[test]
fn test_varint30_round_trip() {
    for &val in &[0i64, 1, 0xFD, 0xFE, 0xFFFF, 0x10000, 0x3FFF_FFFF, 0x4000_0000, -1,
        i64::MAX, i64::MIN] {
        let mut buffer = ByteBuffer::new();
        write_varint30(&mut buffer, val).unwrap();
        buffer.set_position(0);
        assert_eq!(read_varint30(&mut buffer).unwrap(), val, "value {}", val);
    }
}

#[test]
fn test_varlong30_round_trip() {
    for &val in &[0i64, 1, 0xFD, 0xFE, 0xFF_FFFF, 0x100_0000, 0x7FFF_FFFF, 0x8000_0000,
        -1, i64::MAX, i64::MIN] {
        let mut buffer = ByteBuffer::new();
        write_varlong30(&mut buffer, val).unwrap();
        buffer.set_position(0);
        assert_eq!(read_varlong30(&mut buffer).unwrap(), val, "value {}", val);
    }
}

#[test]
fn test_varint30_widths() {
    let mut short = ByteBuffer::new();
    write_varint30(&mut short, 0x1234).unwrap();
    assert_eq!(short.get_ref().len(), 2);
    let mut standard = ByteBuffer::new();
    write_varint30(&mut standard, 0x12345).unwrap();
    assert_eq!(standard.get_ref().len(), 5);
    let mut extended = ByteBuffer::new();
    write_varint30(&mut extended, -5).unwrap();
    assert_eq!(extended.get_ref().len(), 9);
}

#[test]
fn test_ndx_round_trip() {
    let sequence: Vec<i32> = vec![0, 1, 2, 500, 3, NDX_FLIST_EOF, -5, NDX_DONE, 1000000];
    let mut buffer = ByteBuffer::new();
    let mut write_state = NdxState::new();
    for &ndx in &sequence {
        write_ndx(&mut buffer, ndx, &mut write_state, 31).unwrap();
    }
    buffer.set_position(0);
    let mut read_state = NdxState::new();
    for &ndx in &sequence {
        assert_eq!(read_ndx(&mut buffer, &mut read_state, 31).unwrap(), ndx);
    }
}

#[test]
fn test_ndx_old_protocol_raw() {
    let mut buffer = ByteBuffer::new();
    let mut state = NdxState::new();
    write_ndx(&mut buffer, -7, &mut state, 29).unwrap();
    assert_eq!(buffer.get_ref().len(), 4);
    buffer.set_position(0);
    assert_eq!(read_ndx(&mut buffer, &mut state, 29).unwrap(), -7);
}
