use maskmatch::Error;
use maskmatch::MaskedByte;
use maskmatch::masked_byte;

#[test]
fn matches() {
    let byte = MaskedByte::new(0b10101010, 0b00001111);
    assert!(byte.matches(0b10011010));
}

#[test]
fn sets() {
    let byte = MaskedByte::new(0b10101010, 0b00001111);
    assert_eq!(byte.set(0b10011101), 0b10011010);
}

#[test]
fn string_conversion_from_binary() {
    let b = MaskedByte::from_str("0b?01?");
    assert!(b.is_ok());
    assert_eq!(b.unwrap(), MaskedByte::new(0b00000010, 0b11110110));
}

#[test]
fn string_conversion_from_hex() {
    let h = MaskedByte::from_str("0x?a");
    assert!(h.is_ok());
    assert_eq!(h.unwrap(), MaskedByte::new(0x0a, 0x0f));
}

#[test]
fn string_conversion_from_octal() {
    let h = MaskedByte::from_str("0o3?7");
    assert!(h.is_ok());
    assert_eq!(h.unwrap(), MaskedByte::new(0o307, 0o307));
}

#[test]
fn leading_zeroes() {
    let h = MaskedByte::from_str("0x0000ff");
    assert!(h.is_ok());
    assert_eq!(h.unwrap(), MaskedByte::new(0xff, 0xff));
}

#[test]
fn too_big() {
    let h = MaskedByte::from_str("0o777");
    assert!(h.is_err());
}

#[test]
fn too_big_reports_number_too_big() {
    match MaskedByte::from_str("0o777") {
        Err(Error::ParseError { string, source }) => {
            assert_eq!(string, "0o777");
            assert!(matches!(source, masked_byte::Error::NumberTooBig));
        }
        other => panic!("expected a parse error, got {:?}", other),
    }
}

#[test]
fn octal_full_byte_parses() {
    let h = MaskedByte::from_str("0o377").unwrap();
    assert_eq!(h, MaskedByte::new(0xff, 0xff));
    assert_eq!(h.defined(), Some(0xff));
}

#[test]
fn unknown_prefix_is_reported() {
    match MaskedByte::from_str("123") {
        Err(Error::ParseError { string, source }) => {
            assert_eq!(string, "123");
            assert!(matches!(source, masked_byte::Error::UnknownPrefix));
        }
        other => panic!("expected a parse error, got {:?}", other),
    }
    assert!(MaskedByte::from_str("").is_err());
    assert!(MaskedByte::from_str("x").is_err());
}

#[test]
fn invalid_char_is_reported() {
    match MaskedByte::from_str("0b012") {
        Err(Error::ParseError { string, source }) => {
            assert_eq!(string, "0b012");
            assert!(matches!(source, masked_byte::Error::InvalidChar { char: '2' }));
        }
        other => panic!("expected a parse error, got {:?}", other),
    }
    match MaskedByte::from_str("0xg") {
        Err(Error::ParseError { source, .. }) => {
            assert!(matches!(source, masked_byte::Error::InvalidChar { char: 'g' }));
        }
        other => panic!("expected a parse error, got {:?}", other),
    }
}

#[test]
fn defined_iff_literal_has_no_wildcard() {
    assert_eq!(MaskedByte::from_str("0xff").unwrap().defined(), Some(0xff));
    assert_eq!(MaskedByte::from_str("0x00").unwrap().defined(), Some(0x00));
    assert_eq!(MaskedByte::from_str("0b1111????").unwrap().defined(), None);
    assert_eq!(MaskedByte::from_str("0x?f").unwrap().defined(), None);
    assert_eq!(MaskedByte::from_str("0o3?7").unwrap().defined(), None);
    // leading zeroes are implied, so a short literal is still fully defined
    assert_eq!(MaskedByte::from_str("0x5").unwrap().defined(), Some(0x05));
}

#[test]
fn bitcount() {
    assert_eq!(masked_byte::bits::<i8>(), 8);
    assert_eq!(masked_byte::bits::<u32>(), 32);
}

#[test]
fn bit_string_shows_wildcards() {
    let b = MaskedByte::from_str("0b?01?").unwrap();
    assert_eq!(b.to_bit_string(), "0000?01?");
    assert_eq!(MaskedByte::new(0xff, 0xff).to_bit_string(), "11111111");
    assert_eq!(MaskedByte::new(0x00, 0x00).to_bit_string(), "????????");
}
