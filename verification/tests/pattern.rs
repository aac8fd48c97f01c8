use maskmatch::Pattern;

#[test]
fn string_conversion() {
    let p = Pattern::from_str("0b?01? 0x?f");
    assert!(p.is_ok());
    let p = p.unwrap();
    assert_eq!(p.len(), 2);
}

#[test]
fn replace_smaller() {
    let p = Pattern::from_str("0x?a").unwrap();
    let source = vec![0x12, 0x1b];
    let result = p.replace(source);
    assert!(result.is_ok());
    assert_eq!(result.unwrap(), [0x1a, 0x1b]);
}

#[test]
fn replace_bigger() {
    let p = Pattern::from_str("0x?a 0x2? 0x3c 0x4d").unwrap();
    let source = vec![0x12, 0x1b];
    let result = p.replace(source);
    assert!(result.is_ok());
    assert_eq!(result.unwrap(), [0x1a, 0x2b, 0x3c, 0x4d]);
}

#[test]
fn replace_undefined() {
    let p = Pattern::from_str("0x?a 0x2? 0x3?").unwrap();
    let source = vec![0x12, 0x1b];
    let result = p.replace(source);
    assert!(result.is_err());
}

#[test]
fn replace_undefined_reports_replace_not_defined() {
    let p = Pattern::from_str("0x?a 0x2? 0x3?").unwrap();
    let result = p.replace(vec![0x12, 0x1b]);
    assert!(matches!(result, Err(maskmatch::Error::ReplaceNotDefined)));
}

#[test]
fn parse_failure_names_the_literal() {
    let p = Pattern::from_str("0x12 0o777 0b1");
    match p {
        Err(maskmatch::Error::ParseError { string, source }) => {
            assert_eq!(string, "0o777");
            assert!(matches!(source, maskmatch::masked_byte::Error::NumberTooBig));
        }
        other => panic!("expected a parse error, got {:?}", other),
    }
}

#[test]
fn empty_and_spaced_literals() {
    assert_eq!(Pattern::from_str("").unwrap().len(), 0);
    assert!(Pattern::from_str("   ").unwrap().is_empty());
    assert_eq!(Pattern::from_str("  0x12\t0x34\n0x56  ").unwrap().len(), 3);
}

#[test]
fn get_hands_out_units_in_order() {
    let p = Pattern::from_str("0x12 0x?4").unwrap();
    let first = p.get(0).unwrap();
    assert!(first.matches(0x12));
    assert!(!first.matches(0x13));
    let second = p.get(1).unwrap();
    assert!(second.matches(0xf4));
    assert!(p.get(2).is_none());
}

#[test]
fn display_string_lists_units() {
    let p = Pattern::from_str("0x12 0x?4").unwrap();
    assert_eq!(p.to_display_string(), "[ 00010010 ????0100 ]");
    assert_eq!(Pattern::new().to_display_string(), "[ ]");
}
