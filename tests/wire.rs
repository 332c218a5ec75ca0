use rstz::{xdelta, Delta, Op, RstzError};

#[test]
fn encode_copy_is_sparse() {
    let d = Delta::new(47, 16, vec![Op::Copy(32, 16)]);
    assert_eq!(d.encode().unwrap(), vec![47, 16, 0x91, 32, 16]);
}

#[test]
fn encode_zero_copy_is_bare_tag() {
    let d = Delta::new(0, 0, vec![Op::Copy(0, 0)]);
    assert_eq!(d.encode().unwrap(), vec![0, 0, 0x80]);
}

#[test]
fn encode_insert_and_multi_byte_varint() {
    let d = Delta::new(300, 2, vec![Op::Insert(vec![7, 9])]);
    assert_eq!(d.encode().unwrap(), vec![172, 2, 2, 2, 7, 9]);
}

#[test]
fn encode_full_copy_value() {
    let d = Delta::new(1, 1, vec![Op::Copy(0x0403_0201, 0x07_0605)]);
    assert_eq!(d.encode().unwrap(), vec![1, 1, 0xff, 1, 2, 3, 4, 5, 6, 7]);
}

#[test]
fn encode_rejects_long_insert() {
    let d = Delta::new(0, 128, vec![Op::Insert(vec![1; 128])]);
    assert!(matches!(d.encode(), Err(RstzError::Message(_))));
}

#[test]
fn encode_rejects_wide_copy() {
    let d = Delta::new(0, 0, vec![Op::Copy(0, 0x100_0000)]);
    assert!(matches!(d.encode(), Err(RstzError::Message(_))));
    let d = Delta::new(0, 0, vec![Op::Copy(0x1_0000_0000, 1)]);
    assert!(matches!(d.encode(), Err(RstzError::Message(_))));
}

#[test]
fn round_trip_of_compressed_delta() {
    let d = xdelta(
        "the quick brown fox jumps over the slow lazy dog",
        "a swift auburn fox jumps over three dormant hounds",
    );
    let bytes = d.encode().unwrap();
    let back = Delta::decode(&bytes).unwrap();
    assert_eq!(back.source_size, d.source_size);
    assert_eq!(back.target_size, d.target_size);
    assert_eq!(back.ops, d.ops);
}

#[test]
fn round_trip_of_edge_values() {
    let d = Delta::new(
        usize::MAX,
        0,
        vec![
            Op::Copy(0xffff_ffff, 0xff_ffff),
            Op::Insert(vec![]),
            Op::Insert(vec![0x80; 127]),
            Op::Copy(0x100, 0x1_0000),
        ],
    );
    let back = Delta::decode(&d.encode().unwrap()).unwrap();
    assert_eq!(back.source_size, usize::MAX);
    assert_eq!(back.ops, d.ops);
}

#[test]
fn decode_known_bytes() {
    let d = Delta::decode(&[47, 16, 0x91, 32, 16, 1, b'!']).unwrap();
    assert_eq!(d.source_size, 47);
    assert_eq!(d.target_size, 16);
    assert_eq!(d.ops, vec![Op::Copy(32, 16), Op::Insert(vec![b'!'])]);
}

#[test]
fn decode_truncated_header() {
    assert_eq!(Delta::decode(&[]).unwrap_err(), RstzError::Eof);
    assert_eq!(Delta::decode(&[0x85]).unwrap_err(), RstzError::Eof);
    assert_eq!(Delta::decode(&[3]).unwrap_err(), RstzError::Eof);
}

#[test]
fn decode_truncated_ops() {
    assert_eq!(Delta::decode(&[0, 0, 3, 1, 2]).unwrap_err(), RstzError::Eof);
    assert_eq!(Delta::decode(&[0, 0, 0x83, 1]).unwrap_err(), RstzError::Eof);
}

#[test]
fn decode_rejects_overlong_varint() {
    let bytes = [0x80, 0x80, 0x80, 0x80, 0x80, 0x80, 0x80, 0x80, 0x80, 0x80, 0x00, 0];
    assert!(matches!(Delta::decode(&bytes), Err(RstzError::Message(_))));
}

#[test]
fn decode_rejects_varint_past_usize() {
    let bytes = [0xff, 0xff, 0xff, 0xff, 0xff, 0xff, 0xff, 0xff, 0xff, 0x02, 0];
    assert!(matches!(Delta::decode(&bytes), Err(RstzError::Message(_))));
}

#[test]
fn fits_wire_limits() {
    assert!(Op::Insert(vec![0; 127]).fits_wire());
    assert!(!Op::Insert(vec![0; 128]).fits_wire());
    assert!(Op::Copy(0xffff_ffff, 0xff_ffff).fits_wire());
    assert!(!Op::Copy(0, 0x100_0000).fits_wire());
}
