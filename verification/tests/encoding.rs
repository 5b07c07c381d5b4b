use leb128::read;

fn unsigned_bytes(val: u64) -> Vec<u8> {
    let mut buf = Vec::new();
    let written = leb128::write::unsigned(&mut buf, val);
    assert_eq!(written, buf.len());
    buf
}

fn signed_bytes(val: i64) -> Vec<u8> {
    let mut buf = Vec::new();
    let written = leb128::write::signed(&mut buf, val);
    assert_eq!(written, buf.len());
    buf
}

#[test]
fn unsigned_small_values_take_one_byte() {
    assert_eq!(unsigned_bytes(0), vec![0x00]);
    assert_eq!(unsigned_bytes(2), vec![0x02]);
    assert_eq!(unsigned_bytes(127), vec![0x7f]);
}

#[test]
fn unsigned_128_takes_two_bytes() {
    assert_eq!(unsigned_bytes(128), vec![0x80, 0x01]);
    assert_eq!(unsigned_bytes(129), vec![0x81, 0x01]);
    assert_eq!(unsigned_bytes(130), vec![0x82, 0x01]);
    assert_eq!(unsigned_bytes(12857), vec![0xb9, 0x64]);
}

#[test]
fn unsigned_largest_takes_ten_bytes() {
    assert_eq!(
        unsigned_bytes(u64::MAX),
        vec![0xff, 0xff, 0xff, 0xff, 0xff, 0xff, 0xff, 0xff, 0xff, 0x01]
    );
    assert_eq!(
        unsigned_bytes(1 << 63),
        vec![0x80, 0x80, 0x80, 0x80, 0x80, 0x80, 0x80, 0x80, 0x80, 0x01]
    );
    assert_eq!(
        unsigned_bytes((1 << 63) - 1),
        vec![0xff, 0xff, 0xff, 0xff, 0xff, 0xff, 0xff, 0xff, 0x7f]
    );
}

#[test]
fn unsigned_length_follows_the_binary_digits() {
    for bits in 1..=64u32 {
        let val = u64::MAX >> (64 - bits);
        let expected = ((bits + 6) / 7) as usize;
        assert_eq!(unsigned_bytes(val).len(), expected, "{} bits", bits);
        let lowest = 1u64 << (bits - 1);
        assert_eq!(unsigned_bytes(lowest).len(), expected, "{} bits", bits);
    }
}

#[test]
fn signed_boundary_bytes() {
    assert_eq!(signed_bytes(2), vec![0x02]);
    assert_eq!(signed_bytes(-2), vec![0x7e]);
    assert_eq!(signed_bytes(127), vec![0xff, 0x00]);
    assert_eq!(signed_bytes(-127), vec![0x81, 0x7f]);
    assert_eq!(signed_bytes(128), vec![0x80, 0x01]);
    assert_eq!(signed_bytes(-128), vec![0x80, 0x7f]);
    assert_eq!(signed_bytes(129), vec![0x81, 0x01]);
    assert_eq!(signed_bytes(-129), vec![0xff, 0x7e]);
}

#[test]
fn signed_one_byte_range() {
    assert_eq!(signed_bytes(0), vec![0x00]);
    assert_eq!(signed_bytes(-1), vec![0x7f]);
    assert_eq!(signed_bytes(63), vec![0x3f]);
    assert_eq!(signed_bytes(64), vec![0xc0, 0x00]);
    assert_eq!(signed_bytes(-64), vec![0x40]);
    assert_eq!(signed_bytes(-65), vec![0xbf, 0x7f]);
}

#[test]
fn signed_extremes_take_ten_bytes() {
    assert_eq!(
        signed_bytes(i64::MAX),
        vec![0xff, 0xff, 0xff, 0xff, 0xff, 0xff, 0xff, 0xff, 0xff, 0x00]
    );
    assert_eq!(
        signed_bytes(i64::MIN),
        vec![0x80, 0x80, 0x80, 0x80, 0x80, 0x80, 0x80, 0x80, 0x80, 0x7f]
    );
}

#[test]
fn signed_length_follows_the_binary_digits() {
    for bits in 0..=63u32 {
        let top: i64 = if bits == 0 { 0 } else { i64::MAX >> (63 - bits) };
        let expected = (bits / 7 + 1) as usize;
        assert_eq!(signed_bytes(top).len(), expected, "{} bits", bits);
        assert_eq!(signed_bytes(-top - 1).len(), expected, "{} bits", bits);
    }
}

#[test]
fn writing_appends_behind_what_is_there() {
    let mut buf = vec![0xaa, 0xbb];
    assert_eq!(leb128::write::unsigned(&mut buf, 300), 2);
    assert_eq!(buf, vec![0xaa, 0xbb, 0xac, 0x02]);
    assert_eq!(leb128::write::signed(&mut buf, -300), 2);
    assert_eq!(buf, vec![0xaa, 0xbb, 0xac, 0x02, 0xd4, 0x7d]);
}

#[test]
fn unsigned_round_trip_at_the_boundaries() {
    for &val in &[0u64, 1, 127, 128, 16383, 16384, (1 << 63) - 1, 1 << 63, u64::MAX] {
        let buf = unsigned_bytes(val);
        let mut readable = &buf[..];
        assert_eq!(read::unsigned(&mut readable).expect("reads back"), val);
        assert!(readable.is_empty());
    }
}

#[test]
fn signed_round_trip_at_the_boundaries() {
    let floor = leb128::laws::SIGNED_FLOOR;
    assert_eq!(floor, -(1i64 << 62));
    for &val in &[0i64, -1, 1, 63, 64, -64, -65, 8191, -8192, i64::MAX, floor, floor + 1] {
        let buf = signed_bytes(val);
        let mut readable = &buf[..];
        assert_eq!(read::signed(&mut readable).expect("reads back"), val);
        assert!(readable.is_empty());
    }
}

#[test]
fn signed_below_the_floor_does_not_read_back() {
    let floor = leb128::laws::SIGNED_FLOOR;
    for &val in &[i64::MIN, i64::MIN + 1, floor - 1] {
        let mut buf = signed_bytes(val);
        assert_eq!(buf.len(), 10);
        buf.push(0x05);
        let mut readable = &buf[..];
        assert!(matches!(
            read::signed(&mut readable),
            Err(read::Error::Overflow)
        ));
        assert_eq!(readable, &[0x05][..]);
    }
}

#[test]
fn round_trip_leaves_what_follows() {
    let mut buf = unsigned_bytes(624485);
    buf.extend_from_slice(&[0xde, 0xad]);
    let mut readable = &buf[..];
    assert_eq!(read::unsigned(&mut readable).expect("reads back"), 624485);
    assert_eq!(readable, &[0xde, 0xad][..]);

    let mut buf = signed_bytes(-123456);
    assert_eq!(buf, vec![0xc0, 0xbb, 0x78]);
    buf.extend_from_slice(&[0xbe, 0xef]);
    let mut readable = &buf[..];
    assert_eq!(read::signed(&mut readable).expect("reads back"), -123456);
    assert_eq!(readable, &[0xbe, 0xef][..]);
}

#[test]
fn two_numbers_in_a_row_read_back_in_turn() {
    let mut buf = Vec::new();
    leb128::write::unsigned(&mut buf, 130);
    leb128::write::unsigned(&mut buf, u64::MAX);
    leb128::write::signed(&mut buf, -129);
    leb128::write::signed(&mut buf, 0);
    let mut readable = &buf[..];
    assert_eq!(read::unsigned(&mut readable).expect("first"), 130);
    assert_eq!(read::unsigned(&mut readable).expect("second"), u64::MAX);
    assert_eq!(read::signed(&mut readable).expect("third"), -129);
    assert_eq!(read::signed(&mut readable).expect("fourth"), 0);
    assert!(readable.is_empty());
}
