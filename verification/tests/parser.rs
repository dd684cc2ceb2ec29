use lane_agg::records::{parse_line, parse_value, AggError};

fn fnv1a(bytes: &[u8]) -> u32 {
    let mut h: u32 = 2166136261;
    for &b in bytes {
        h ^= b as u32;
        h = h.wrapping_mul(16777619);
    }
    h
}

#[test]
fn value_two_digit() {
    let (v, end) = parse_value(b"3.4", 0).unwrap();
    assert_eq!(v, 34);
    assert_eq!(end, 3);
}

#[test]
fn value_two_digit_negative() {
    let (v, end) = parse_value(b"-3.4", 0).unwrap();
    assert_eq!(v, -34);
    assert_eq!(end, 4);
}

#[test]
fn value_three_digit() {
    let (v, end) = parse_value(b"25.0", 0).unwrap();
    assert_eq!(v, 250);
    assert_eq!(end, 4);
}

#[test]
fn value_small_negative() {
    let (v, end) = parse_value(b"-0.1", 0).unwrap();
    assert_eq!(v, -1);
    assert_eq!(end, 4);
}

#[test]
fn value_at_offset() {
    let (v, end) = parse_value(b"xx;99.9\n", 3).unwrap();
    assert_eq!(v, 999);
    assert_eq!(end, 7);
}

#[test]
fn value_rejects_bad_bytes() {
    assert!(matches!(
        parse_value(b"x.1", 0),
        Err(AggError::MalformedNumber { offset: 0 })
    ));
    assert!(matches!(
        parse_value(b"3x1", 0),
        Err(AggError::MalformedNumber { offset: 0 })
    ));
    assert!(matches!(
        parse_value(b"3", 0),
        Err(AggError::MalformedNumber { offset: 0 })
    ));
    assert!(matches!(
        parse_value(b"12", 0),
        Err(AggError::MalformedNumber { offset: 0 })
    ));
    assert!(matches!(
        parse_value(b"", 0),
        Err(AggError::MalformedNumber { offset: 0 })
    ));
    assert!(matches!(
        parse_value(b"123.4", 0),
        Err(AggError::MalformedNumber { offset: 0 })
    ));
}

#[test]
fn line_whole_record() {
    let data = b"abc;1.2\nrest;3.4\n";
    let pr = parse_line(data, 0).unwrap().unwrap();
    assert_eq!(pr.place_start, 0);
    assert_eq!(pr.place_end, 3);
    assert_eq!(pr.val, 12);
    assert_eq!(pr.next, 8);
    assert_eq!(pr.place_hash, fnv1a(b"abc"));
}

#[test]
fn line_hash_known_value() {
    // FNV-1a 32-bit of "abc".
    let pr = parse_line(b"abc;1.2\n", 0).unwrap().unwrap();
    assert_eq!(pr.place_hash, 0x1a47e90b);
}

#[test]
fn line_second_record() {
    let data = b"abc;1.2\nrest;3.4\n";
    let pr = parse_line(data, 8).unwrap().unwrap();
    assert_eq!(pr.place_start, 8);
    assert_eq!(pr.place_end, 12);
    assert_eq!(pr.val, 34);
    assert_eq!(pr.next, 17);
    assert_eq!(pr.place_hash, fnv1a(b"rest"));
}

#[test]
fn line_without_trailing_separator() {
    let pr = parse_line(b"a;1.2", 0).unwrap().unwrap();
    assert_eq!(pr.val, 12);
    assert_eq!(pr.next, 6);
}

#[test]
fn line_empty_key() {
    let pr = parse_line(b";1.2\n", 0).unwrap().unwrap();
    assert_eq!(pr.place_start, 0);
    assert_eq!(pr.place_end, 0);
    assert_eq!(pr.val, 12);
    assert_eq!(pr.place_hash, fnv1a(b""));
}

#[test]
fn line_end_of_input() {
    assert!(matches!(parse_line(b"a;1.2\n", 6), Ok(None)));
    assert!(matches!(parse_line(b"", 0), Ok(None)));
    assert!(matches!(parse_line(b"a;1.2\n", 100), Ok(None)));
}

#[test]
fn line_missing_delimiter() {
    assert!(matches!(
        parse_line(b"abc\n", 0),
        Err(AggError::MalformedRecord { offset: 0 })
    ));
    assert!(matches!(
        parse_line(b"abc", 0),
        Err(AggError::MalformedRecord { offset: 0 })
    ));
}

#[test]
fn line_value_overruns_separator() {
    // Three integer digits: the grammar stops after "1.2" and then
    // demands a separator, which "3" is not.
    assert!(matches!(
        parse_line(b"a;1.23\n", 0),
        Err(AggError::MalformedRecord { offset: 0 })
    ));
}

#[test]
fn line_bad_value() {
    assert!(matches!(
        parse_line(b"a;x\n", 0),
        Err(AggError::MalformedNumber { offset: 2 })
    ));
}
