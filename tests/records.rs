use brc_stats::record::{first_occur, parse_num, parse_record, NameKey, NAME_WIDTH};
use brc_stats::scan::last_occur;

fn padded(name: &[u8]) -> Vec<u8> {
    let mut v = name.to_vec();
    v.resize(NAME_WIDTH, 0);
    v
}

#[test]
fn parse_num_two_integer_digits() {
    assert_eq!(parse_num(b"12.3"), Some(123));
    assert_eq!(parse_num(b"99.9"), Some(999));
    assert_eq!(parse_num(b"-99.9"), Some(-999));
}

#[test]
fn parse_num_one_integer_digit() {
    assert_eq!(parse_num(b"5.5"), Some(55));
    assert_eq!(parse_num(b"-5.1"), Some(-51));
    assert_eq!(parse_num(b"0.0"), Some(0));
    assert_eq!(parse_num(b"-0.0"), Some(0));
}

#[test]
fn parse_num_rejects_other_shapes() {
    assert_eq!(parse_num(b""), None);
    assert_eq!(parse_num(b"-"), None);
    assert_eq!(parse_num(b"5"), None);
    assert_eq!(parse_num(b"123.4"), None);
    assert_eq!(parse_num(b"1.23"), None);
    assert_eq!(parse_num(b"1,2"), None);
    assert_eq!(parse_num(b"a.1"), None);
    assert_eq!(parse_num(b"1.a"), None);
    assert_eq!(parse_num(b"--1.0"), None);
    assert_eq!(parse_num(b"+1.0"), None);
    assert_eq!(parse_num(b"12.3\n"), None);
}

#[test]
fn parse_record_splits_at_first_separator() {
    let (key, v) = parse_record(b"Foo;23.4", b';').unwrap();
    assert_eq!(key.as_bytes(), padded(b"Foo").as_slice());
    assert_eq!(v, 234);
    let (key, v) = parse_record(b";-1.0", b';').unwrap();
    assert_eq!(key.as_bytes(), padded(b"").as_slice());
    assert_eq!(v, -10);
    assert!(parse_record(b"a;b;1.0", b';').is_none());
}

#[test]
fn parse_record_rejects_missing_separator_or_bad_value() {
    assert!(parse_record(b"Foo 23.4", b';').is_none());
    assert!(parse_record(b"Foo;", b';').is_none());
    assert!(parse_record(b"Foo;2x.4", b';').is_none());
    assert!(parse_record(b"", b';').is_none());
}

#[test]
fn long_name_is_truncated_to_its_first_bytes() {
    let long: Vec<u8> = (0..50u8).map(|i| b'a' + (i % 26)).collect();
    let mut rec = long.clone();
    rec.extend_from_slice(b";1.0");
    let (key, v) = parse_record(&rec, b';').unwrap();
    assert_eq!(key.as_bytes(), &long[..NAME_WIDTH]);
    assert_eq!(v, 10);
    let again = parse_record(&rec, b';').unwrap().0;
    assert!(key.same_as(&again));
    let mut other = long[..NAME_WIDTH].to_vec();
    other.extend_from_slice(b"zzz;2.0");
    let (collide, _) = parse_record(&other, b';').unwrap();
    assert!(key.same_as(&collide));
}

#[test]
fn name_of_exact_width_is_kept_whole() {
    let name = vec![b'x'; NAME_WIDTH];
    let key = NameKey::from_name(&name);
    assert_eq!(key.as_bytes(), name.as_slice());
    let shorter = NameKey::from_name(&name[..NAME_WIDTH - 1]);
    assert!(!key.same_as(&shorter));
}

#[test]
fn parsing_twice_gives_the_same_result() {
    let rec = b"Hamburg;-12.3";
    let (k1, v1) = parse_record(rec, b';').unwrap();
    let (k2, v2) = parse_record(rec, b';').unwrap();
    assert!(k1.same_as(&k2));
    assert_eq!(v1, v2);
    assert_eq!(v1, -123);
}

#[test]
fn keys_differ_by_padding_only_when_bytes_differ() {
    let a = NameKey::from_name(b"ab");
    let b = NameKey::from_name(b"ab\0");
    let c = NameKey::from_name(b"abc");
    assert!(a.same_as(&b));
    assert!(!a.same_as(&c));
}

#[test]
fn first_and_last_occurrence() {
    assert_eq!(first_occur(b"ab\ncd\nef", b'\n'), Some(2));
    assert_eq!(last_occur(b"ab\ncd\nef", b'\n'), Some(5));
    assert_eq!(first_occur(b"abc", b'\n'), None);
    assert_eq!(last_occur(b"abc", b'\n'), None);
    assert_eq!(first_occur(b"", b'\n'), None);
    assert_eq!(last_occur(b"", b'\n'), None);
    assert_eq!(first_occur(b"\n", b'\n'), Some(0));
    assert_eq!(last_occur(b"x\n", b'\n'), Some(1));
}
