use leb128::read;
use leb128::{low_bits_of_byte, low_bits_of_u64, CONTINUATION_BIT};

#[test]
fn test_low_bits_of_byte() {
    for i in 0..127 {
        assert_eq!(i, low_bits_of_byte(i));
        assert_eq!(i, low_bits_of_byte(i | CONTINUATION_BIT));
    }
}

#[test]
fn test_low_bits_of_u64() {
    for i in 0u64..127 {
        assert_eq!(i as u8, low_bits_of_u64(1 << 16 | i));
        assert_eq!(
            i as u8,
            low_bits_of_u64(i << 16 | i | (CONTINUATION_BIT as u64))
        );
    }
}

// Examples from the DWARF 4 standard, section 7.6, figure 22.
#[test]
fn test_read_unsigned() {
    let buf = [2u8];
    let mut readable = &buf[..];
    assert_eq!(
        2,
        read::unsigned(&mut readable).expect("Should read number")
    );

    let buf = [127u8];
    let mut readable = &buf[..];
    assert_eq!(
        127,
        read::unsigned(&mut readable).expect("Should read number")
    );

    let buf = [CONTINUATION_BIT, 1];
    let mut readable = &buf[..];
    assert_eq!(
        128,
        read::unsigned(&mut readable).expect("Should read number")
    );

    let buf = [1u8 | CONTINUATION_BIT, 1];
    let mut readable = &buf[..];
    assert_eq!(
        129,
        read::unsigned(&mut readable).expect("Should read number")
    );

    let buf = [2u8 | CONTINUATION_BIT, 1];
    let mut readable = &buf[..];
    assert_eq!(
        130,
        read::unsigned(&mut readable).expect("Should read number")
    );

    let buf = [57u8 | CONTINUATION_BIT, 100];
    let mut readable = &buf[..];
    assert_eq!(
        12857,
        read::unsigned(&mut readable).expect("Should read number")
    );
}

// Examples from the DWARF 4 standard, section 7.6, figure 23.
#[test]
fn test_read_signed() {
    let buf = [2u8];
    let mut readable = &buf[..];
    assert_eq!(2, read::signed(&mut readable).expect("Should read number"));

    let buf = [0x7eu8];
    let mut readable = &buf[..];
    assert_eq!(-2, read::signed(&mut readable).expect("Should read number"));

    let buf = [127u8 | CONTINUATION_BIT, 0];
    let mut readable = &buf[..];
    assert_eq!(
        127,
        read::signed(&mut readable).expect("Should read number")
    );

    let buf = [1u8 | CONTINUATION_BIT, 0x7f];
    let mut readable = &buf[..];
    assert_eq!(
        -127,
        read::signed(&mut readable).expect("Should read number")
    );

    let buf = [CONTINUATION_BIT, 1];
    let mut readable = &buf[..];
    assert_eq!(
        128,
        read::signed(&mut readable).expect("Should read number")
    );

    let buf = [CONTINUATION_BIT, 0x7f];
    let mut readable = &buf[..];
    assert_eq!(
        -128,
        read::signed(&mut readable).expect("Should read number")
    );

    let buf = [1u8 | CONTINUATION_BIT, 1];
    let mut readable = &buf[..];
    assert_eq!(
        129,
        read::signed(&mut readable).expect("Should read number")
    );

    let buf = [0x7fu8 | CONTINUATION_BIT, 0x7e];
    let mut readable = &buf[..];
    assert_eq!(
        -129,
        read::signed(&mut readable).expect("Should read number")
    );
}

#[test]
fn test_read_unsigned_not_enough_data() {
    let buf = [CONTINUATION_BIT];
    let mut readable = &buf[..];
    assert!(match read::unsigned(&mut readable) {
        Err(read::Error::UnexpectedEndOfData) => true,
        otherwise => {
            println!("Unexpected: {:?}", otherwise);
            false
        }
    });
}

#[test]
fn test_read_signed_not_enough_data() {
    let buf = [CONTINUATION_BIT];
    let mut readable = &buf[..];
    assert!(match read::signed(&mut readable) {
        Err(read::Error::UnexpectedEndOfData) => true,
        otherwise => {
            println!("Unexpected: {:?}", otherwise);
            false
        }
    });
}

#[test]
fn dogfood_signed() {
    for i in -513..513 {
        let mut buf = Vec::with_capacity(1024);

        let written = leb128::write::signed(&mut buf, i);
        assert!(written == buf.len() && written > 0, "Should write signed number");

        let mut readable = &buf[..];
        let result = read::signed(&mut readable).expect("Should be able to read it back again");
        assert_eq!(i, result);
    }
}

#[test]
fn dogfood_unsigned() {
    for i in 0..1025 {
        let mut buf = Vec::with_capacity(1024);

        let written = leb128::write::unsigned(&mut buf, i);
        assert!(written == buf.len() && written > 0, "Should write signed number");

        let mut readable = &buf[..];
        let result = read::unsigned(&mut readable).expect("Should be able to read it back again");
        assert_eq!(i, result);
    }
}

#[test]
fn test_read_unsigned_overflow() {
    let buf = [
        2u8 | CONTINUATION_BIT,
        2 | CONTINUATION_BIT,
        2 | CONTINUATION_BIT,
        2 | CONTINUATION_BIT,
        2 | CONTINUATION_BIT,
        2 | CONTINUATION_BIT,
        2 | CONTINUATION_BIT,
        2 | CONTINUATION_BIT,
        2 | CONTINUATION_BIT,
        2 | CONTINUATION_BIT,
        2 | CONTINUATION_BIT,
        2 | CONTINUATION_BIT,
        2 | CONTINUATION_BIT,
        2 | CONTINUATION_BIT,
        2 | CONTINUATION_BIT,
        2 | CONTINUATION_BIT,
        2 | CONTINUATION_BIT,
        2 | CONTINUATION_BIT,
        2 | CONTINUATION_BIT,
        2 | CONTINUATION_BIT,
        2 | CONTINUATION_BIT,
        2 | CONTINUATION_BIT,
        2 | CONTINUATION_BIT,
        2 | CONTINUATION_BIT,
        2 | CONTINUATION_BIT,
        2 | CONTINUATION_BIT,
        2 | CONTINUATION_BIT,
        2 | CONTINUATION_BIT,
        2 | CONTINUATION_BIT,
        2 | CONTINUATION_BIT,
        1,
    ];
    let mut readable = &buf[..];
    assert!(read::unsigned(&mut readable).is_err());
}

#[test]
fn test_read_signed_overflow() {
    let buf = [
        2u8 | CONTINUATION_BIT,
        2 | CONTINUATION_BIT,
        2 | CONTINUATION_BIT,
        2 | CONTINUATION_BIT,
        2 | CONTINUATION_BIT,
        2 | CONTINUATION_BIT,
        2 | CONTINUATION_BIT,
        2 | CONTINUATION_BIT,
        2 | CONTINUATION_BIT,
        2 | CONTINUATION_BIT,
        2 | CONTINUATION_BIT,
        2 | CONTINUATION_BIT,
        2 | CONTINUATION_BIT,
        2 | CONTINUATION_BIT,
        2 | CONTINUATION_BIT,
        2 | CONTINUATION_BIT,
        2 | CONTINUATION_BIT,
        2 | CONTINUATION_BIT,
        2 | CONTINUATION_BIT,
        2 | CONTINUATION_BIT,
        2 | CONTINUATION_BIT,
        2 | CONTINUATION_BIT,
        2 | CONTINUATION_BIT,
        2 | CONTINUATION_BIT,
        2 | CONTINUATION_BIT,
        2 | CONTINUATION_BIT,
        2 | CONTINUATION_BIT,
        2 | CONTINUATION_BIT,
        2 | CONTINUATION_BIT,
        2 | CONTINUATION_BIT,
        1,
    ];
    let mut readable = &buf[..];
    assert!(read::signed(&mut readable).is_err());
}

#[test]
fn test_read_multiple() {
    let buf = [2u8 | CONTINUATION_BIT, 1u8, 1u8];

    let mut readable = &buf[..];
    assert_eq!(
        read::unsigned(&mut readable).expect("Should read first number"),
        130u64
    );
    assert_eq!(
        read::unsigned(&mut readable).expect("Should read first number"),
        1u64
    );
}
