use zygos_db::varint::{push_vint_u64, push_zigzag_i64, read_vint_u64, read_zigzag_at, skip_vint_at};
use zygos_db::deserialize::{
    push_u64_be, read_f64_bits, read_i64, read_string_u8, read_u64, read_u8, skip_f64,
    skip_string_u8,
};

fn zigzag_bytes(v: i64) -> Vec<u8> {
    let mut out = Vec::new();
    push_zigzag_i64(&mut out, v);
    out
}

#[test]
fn zigzag_round_trip_extremes() {
    for v in [0i64, 1, -1, 2, -2, 63, 64, -64, -65, 300, -300, i64::MAX, i64::MIN] {
        let enc = zigzag_bytes(v);
        let (back, len) = read_zigzag_at(&enc, 0).unwrap();
        assert_eq!(back, v);
        assert_eq!(len, enc.len());
        let skipped = skip_vint_at(&enc, 0).unwrap();
        assert_eq!(skipped, enc.len());
    }
}

#[test]
fn zigzag_round_trip_with_surrounding_bytes() {
    let mut buf = vec![0xaa, 0xbb];
    push_zigzag_i64(&mut buf, -123456789);
    buf.push(0xcc);
    let (v, len) = read_zigzag_at(&buf, 2).unwrap();
    assert_eq!(v, -123456789);
    assert_eq!(2 + len + 1, buf.len());
}

#[test]
fn varint_matches_reference_encoder() {
    for v in [
        0u64,
        1,
        42,
        0x7f,
        0x80,
        0x3fff,
        0x4000,
        0x0f0f,
        0x0f0f_f0f0,
        0x0f0f_f0f0_0f0f,
        0x0f0f_f0f0_0f0f_f0f0,
        u64::MAX,
    ] {
        let mut ours = Vec::new();
        push_vint_u64(&mut ours, v);
        let reference = vint64::encode(v);
        assert_eq!(ours.as_slice(), reference.as_ref());
        let (back, len) = read_vint_u64(&ours, 0).unwrap();
        assert_eq!(back, v);
        assert_eq!(len, ours.len());
    }
}

#[test]
fn signed_varint_matches_reference_encoder() {
    for v in [0i64, 1, -1, 0x0f0f_f0f0, -0x0f0f_f0f0, i64::MAX, i64::MIN] {
        let ours = zigzag_bytes(v);
        let reference = vint64::signed::encode(v);
        assert_eq!(ours.as_slice(), reference.as_ref());
    }
}

#[test]
fn varint_rejects_non_minimal_encodings() {
    // a three-byte encoding of zero: decoded_len says 3, value is 0
    let bad = vec![0x08u8, 0x00, 0x00, 0x00];
    assert!(read_vint_u64(&bad, 0).is_err());
    // the reference decoder agrees
    assert!(vint64::decode(&mut &bad[..]).is_err());
}

#[test]
fn varint_rejects_truncation() {
    let mut enc = Vec::new();
    push_vint_u64(&mut enc, 0x4000);
    enc.pop();
    assert!(read_vint_u64(&enc, 0).is_err());
    assert!(skip_vint_at(&enc, 0).is_err());
}

#[test]
fn big_endian_primitives_round_trip() {
    let mut buf = Vec::new();
    push_u64_be(&mut buf, 0x0102_0304_0506_0708);
    assert_eq!(buf, vec![1, 2, 3, 4, 5, 6, 7, 8]);
    let (v, next) = read_u64(&buf, 0).unwrap();
    assert_eq!(v, 0x0102_0304_0506_0708);
    assert_eq!(next, 8);
    let (b, _) = read_u8(&buf, 3).unwrap();
    assert_eq!(b, 4);
    assert!(read_u64(&buf, 1).is_err());
}

#[test]
fn signed_and_float_bits_read_the_same_bytes() {
    let mut buf = Vec::new();
    push_u64_be(&mut buf, u64::MAX);
    let (i, _) = read_i64(&buf, 0).unwrap();
    assert_eq!(i, -1);
    let (bits, _) = read_f64_bits(&buf, 0).unwrap();
    assert_eq!(bits, u64::MAX);
    assert_eq!(skip_f64(&buf, 0).unwrap(), 8);
}

#[test]
fn string_cells_round_trip_and_validate_utf8() {
    let mut buf = vec![3u8];
    buf.extend_from_slice("abc".as_bytes());
    let (s, n) = read_string_u8(&buf, 0).unwrap();
    assert_eq!(s, "abc");
    assert_eq!(n, 4);
    assert_eq!(skip_string_u8(&buf, 0).unwrap(), 4);

    let bad = vec![2u8, 0xff, 0xfe];
    assert!(read_string_u8(&bad, 0).is_err());
    // skipping does not look at the body
    assert_eq!(skip_string_u8(&bad, 0).unwrap(), 3);

    let truncated = vec![5u8, b'a'];
    assert!(read_string_u8(&truncated, 0).is_err());
    assert!(skip_string_u8(&truncated, 0).is_err());
}
