use hfo2::types::ByteRange;
use hfo2::util::{bytes_equal, copy_bytes, ensure, format_hex, hex_digit, parse_hex, CopyError};

#[test]
fn hex_digit_values() {
    assert_eq!(hex_digit(b'0'), Some(0));
    assert_eq!(hex_digit(b'9'), Some(9));
    assert_eq!(hex_digit(b'A'), Some(10));
    assert_eq!(hex_digit(b'F'), Some(15));
    assert_eq!(hex_digit(b'a'), Some(10));
    assert_eq!(hex_digit(b'f'), Some(15));
    assert_eq!(hex_digit(b'G'), None);
    assert_eq!(hex_digit(b'g'), None);
    assert_eq!(hex_digit(b'/'), None);
    assert_eq!(hex_digit(b':'), None);
    assert_eq!(hex_digit(b'@'), None);
    assert_eq!(hex_digit(b'`'), None);
    assert_eq!(hex_digit(b' '), None);
    assert_eq!(hex_digit(0), None);
    assert_eq!(hex_digit(0xFF), None);
}

#[test]
fn every_byte_is_a_digit_or_is_not() {
    let mut digits = 0;
    for b in 0..=255u8 {
        if let Some(d) = hex_digit(b) {
            assert!(d < 16);
            assert!((b as char).is_ascii_hexdigit());
            digits += 1;
        } else {
            assert!(!(b as char).is_ascii_hexdigit());
        }
    }
    assert_eq!(digits, 22);
}

#[test]
fn parse_hex_exact_values() {
    assert_eq!(parse_hex(&ByteRange::new(b"00000000")), Some(0));
    assert_eq!(parse_hex(&ByteRange::new(b"0000000B")), Some(11));
    assert_eq!(parse_hex(&ByteRange::new(b"000081A4")), Some(0x81A4));
    assert_eq!(parse_hex(&ByteRange::new(b"DEADBEEF")), Some(0xDEAD_BEEF));
    assert_eq!(parse_hex(&ByteRange::new(b"deadbeef")), Some(0xDEAD_BEEF));
    assert_eq!(parse_hex(&ByteRange::new(b"FFFFFFFF")), Some(u32::MAX));
    assert_eq!(parse_hex(&ByteRange::new(b"12345678")), Some(0x1234_5678));
    assert_eq!(parse_hex(&ByteRange::new(b"7f")), Some(127));
}

#[test]
fn parse_hex_refuses_other_bytes() {
    assert_eq!(parse_hex(&ByteRange::new(b"0000000G")), None);
    assert_eq!(parse_hex(&ByteRange::new(b"x0000000")), None);
    assert_eq!(parse_hex(&ByteRange::new(b"0000 000")), None);
    assert_eq!(parse_hex(&ByteRange::new(b"0x000010")), None);
    assert_eq!(parse_hex(&ByteRange::new(b"-0000001")), None);
    assert_eq!(parse_hex(&ByteRange::new(b"0000000\0")), None);
}

#[test]
fn parse_hex_of_other_widths() {
    assert_eq!(parse_hex(&ByteRange::new(b"")), Some(0));
    assert_eq!(parse_hex(&ByteRange::new(b"0000000FFFFFFFF")), Some(u32::MAX));
    assert_eq!(parse_hex(&ByteRange::new(b"100000000")), None);
    assert_eq!(parse_hex(&ByteRange::new(b"FFFFFFFFF")), None);
    assert_eq!(parse_hex(&ByteRange::new(b"100000000000000000000000000000000")), None);
}

#[test]
fn format_hex_exact_values() {
    assert_eq!(&format_hex(0), b"00000000");
    assert_eq!(&format_hex(11), b"0000000B");
    assert_eq!(&format_hex(0x81A4), b"000081A4");
    assert_eq!(&format_hex(0xDEAD_BEEF), b"DEADBEEF");
    assert_eq!(&format_hex(u32::MAX), b"FFFFFFFF");
    assert_eq!(&format_hex(0x1234_5678), b"12345678");
}

#[test]
fn parsing_inverts_formatting() {
    let mut v: u32 = 0;
    for _ in 0..10_000 {
        let text = format_hex(v);
        assert_eq!(parse_hex(&ByteRange::new(&text)), Some(v));
        v = v.wrapping_mul(1_664_525).wrapping_add(1_013_904_223);
    }
    for v in [0u32, 1, 15, 16, 255, 256, 0x7FFF_FFFF, 0x8000_0000, u32::MAX - 1, u32::MAX] {
        let text = format_hex(v);
        assert_eq!(parse_hex(&ByteRange::new(&text)), Some(v));
    }
}

#[test]
fn bytes_equal_compares_contents() {
    let a = b"same bytes";
    let b = b"same bytes".to_vec();
    assert!(bytes_equal(&ByteRange::new(a), &ByteRange::new(&b)));
    assert!(!bytes_equal(&ByteRange::new(b"same bytes"), &ByteRange::new(b"same bytez")));
    assert!(!bytes_equal(&ByteRange::new(b"same"), &ByteRange::new(b"same bytes")));
    assert!(!bytes_equal(&ByteRange::new(b"xame"), &ByteRange::new(b"same")));
    assert!(bytes_equal(&ByteRange::new(b""), &ByteRange::new(b"")));
    assert!(!bytes_equal(&ByteRange::new(b""), &ByteRange::new(b"a")));
}

#[test]
fn bytes_equal_of_ranges_at_different_offsets() {
    let data = b"abcXabc";
    let whole = ByteRange::new(data);
    let first = whole.sub(0, 3).unwrap();
    let second = whole.sub(4, 3).unwrap();
    let other = whole.sub(1, 3).unwrap();
    assert!(bytes_equal(&first, &second));
    assert!(!bytes_equal(&first, &other));
}

#[test]
fn copy_bytes_fills_the_front() {
    let mut dst = [b'.'; 8];
    assert_eq!(copy_bytes(&mut dst, &ByteRange::new(b"hello")), Ok(()));
    assert_eq!(&dst, b"hello...");
}

#[test]
fn copy_bytes_of_equal_length() {
    let mut dst = [0u8; 5];
    assert_eq!(copy_bytes(&mut dst, &ByteRange::new(b"world")), Ok(()));
    assert_eq!(&dst, b"world");
}

#[test]
fn copy_bytes_to_short_destination_fails_and_writes_nothing() {
    let mut dst = [b'.'; 4];
    assert_eq!(
        copy_bytes(&mut dst, &ByteRange::new(b"hello")),
        Err(CopyError::DestinationTooShort)
    );
    assert_eq!(&dst, b"....");
}

#[test]
fn copy_bytes_of_nothing() {
    let mut dst = [b'.'; 2];
    assert_eq!(copy_bytes(&mut dst, &ByteRange::new(b"")), Ok(()));
    assert_eq!(&dst, b"..");
    let mut none: [u8; 0] = [];
    assert_eq!(copy_bytes(&mut none, &ByteRange::new(b"")), Ok(()));
}

#[test]
fn ensure_passes_on_true() {
    ensure(1 + 1 == 2);
}
