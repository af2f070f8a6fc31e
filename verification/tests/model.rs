use resp_codec::resp::bytes::{bytes_equal, push_range};
use resp_codec::resp::decode::{DecodeError, ProtocolError};
use resp_codec::resp::double::check_double;
use resp_codec::resp::equal::frames_equal;
use resp_codec::resp::line::find_line;
use resp_codec::resp::number::{magnitude, parse_integer, push_decimal, push_signed_decimal};
use resp_codec::resp::valid::{
    fits_count, holds_line_break, is_double, is_one_line, is_well_formed, nests_no_deeper,
};
use resp_codec::resp::{
    BulkString, RespArray, RespDouble, RespFrame, RespMap, RespNull, RespNullArray,
    RespNullBulkString, RespSet, SimpleError, SimpleString,
};

fn integer(v: i64) -> RespFrame {
    RespFrame::Integer(v)
}

fn simple(text: &str) -> RespFrame {
    RespFrame::SimpleString(SimpleString::new(text))
}

fn set_of(frames: Vec<RespFrame>) -> RespSet {
    let mut set = RespSet::new();
    for frame in frames {
        set.insert(frame);
    }
    set
}

fn array_of(frames: Vec<RespFrame>) -> RespFrame {
    RespFrame::Array(RespArray::new(frames))
}

#[test]
fn simple_string_derefs_to_its_text() {
    let s = SimpleString::new("OK");
    assert_eq!(s.as_str(), "OK");
    assert_eq!(s.len(), 2);
    let e = SimpleError::new("bad");
    assert_eq!(e.as_str(), "bad");
}

#[test]
fn bulk_string_derefs_to_its_bytes() {
    let b = BulkString::new(vec![1, 2, 3]);
    assert_eq!(b.len(), 3);
    assert_eq!(b[1], 2);
}

#[test]
fn array_derefs_to_its_frames() {
    let a = RespArray::new(vec![integer(1), simple("x")]);
    assert_eq!(a.len(), 2);
    assert_eq!(a[1], simple("x"));
}

#[test]
fn double_keeps_its_text_with_a_sign() {
    assert_eq!(
        RespDouble::from_text(b"1.5").unwrap().as_slice(),
        b"+1.5"
    );
    assert_eq!(
        RespDouble::from_text(b"+1.5").unwrap().as_slice(),
        b"+1.5"
    );
    assert_eq!(
        RespDouble::from_text(b"-2e-3").unwrap().as_slice(),
        b"-2e-3"
    );
    assert!(RespDouble::from_text(b"").is_none());
    assert!(RespDouble::from_text(b"1,5").is_none());
    assert!(RespDouble::from_text(b"+-1").is_none());
    assert!(RespDouble::from_text(b"1.5\r\n").is_none());
}

#[test]
fn double_grammar() {
    for text in [
        &b"0"[..],
        b"12",
        b"1.5",
        b"0.000001",
        b"1e9",
        b"1E9",
        b"1.25e-7",
        b"3e+20",
        b"-1",
        b"+1",
        b"inf",
        b"-inf",
        b"nan",
        b"NaN",
        b"+NaN",
    ] {
        assert!(check_double(text, 0, text.len()));
    }
    for text in [
        &b""[..],
        b"+",
        b"-",
        b".",
        b"1.",
        b".1",
        b"e5",
        b"1e",
        b"1e-",
        b"1..2",
        b"1e2e3",
        b"0x10",
        b"INF",
        b"nane",
        b"in",
        b"1 ",
    ] {
        assert!(!check_double(text, 0, text.len()));
    }
}

#[test]
fn double_grammar_on_a_part_of_the_buffer() {
    let buf = b"xx1.5yy";
    assert!(check_double(buf, 2, 5));
    assert!(!check_double(buf, 1, 5));
    assert!(!check_double(buf, 2, 6));
    assert!(!check_double(buf, 3, 3));
}

#[test]
fn map_insert_and_get() {
    let mut map = RespMap::new();
    assert_eq!(map.insert("a".to_string(), integer(1)), None);
    assert_eq!(map.insert("b".to_string(), integer(2)), None);
    assert_eq!(map.insert("a".to_string(), integer(3)), Some(integer(1)));
    assert_eq!(map.len(), 2);
    assert_eq!(map.position(&"a".to_string()), 0);
    assert_eq!(map.position(&"b".to_string()), 1);
    assert_eq!(map.position(&"c".to_string()), 2);
    assert_eq!(map.get(&"a".to_string()), Some(&integer(3)));
    assert_eq!(map.get(&"b".to_string()), Some(&integer(2)));
    assert_eq!(map.get(&"c".to_string()), None);
    assert_eq!(map[0].0, "a");
    assert_eq!(map[1].0, "b");
}

#[test]
fn set_insert_and_contains() {
    let mut set = RespSet::new();
    assert!(!set.contains(&integer(1)));
    assert!(set.insert(integer(1)));
    assert!(set.insert(simple("1")));
    assert!(!set.insert(integer(1)));
    assert!(set.insert(RespFrame::Null(RespNull)));
    assert!(!set.insert(RespFrame::Null(RespNull)));
    assert!(set.contains(&integer(1)));
    assert!(set.contains(&simple("1")));
    assert!(!set.contains(&integer(2)));
    assert_eq!(set.len(), 3);
    assert_eq!(set[0], integer(1));
    assert_eq!(set[2], RespFrame::Null(RespNull));
}

#[test]
fn set_holds_nested_sets_once_whatever_their_order() {
    let mut set = RespSet::new();
    assert!(set.insert(RespFrame::Distinct(set_of(vec![integer(1), integer(2)]))));
    assert!(!set.insert(RespFrame::Distinct(set_of(vec![integer(2), integer(1)]))));
    assert!(set.insert(RespFrame::Distinct(set_of(vec![integer(2)]))));
    assert!(set.insert(array_of(vec![integer(1), integer(2)])));
    assert!(set.insert(array_of(vec![integer(2), integer(1)])));
    assert_eq!(set.len(), 4);
}

#[test]
fn frames_of_different_kinds_are_not_equal() {
    let frames = vec![
        simple("1"),
        RespFrame::Error(SimpleError::new("1")),
        integer(1),
        RespFrame::BulkString(BulkString::new(b"1".to_vec())),
        RespFrame::NullBulkString(RespNullBulkString),
        array_of(vec![integer(1)]),
        RespFrame::NullArray(RespNullArray),
        RespFrame::Null(RespNull),
        RespFrame::Boolean(true),
        RespFrame::Double(RespDouble::from_text(b"1").unwrap()),
        RespFrame::Mapping(RespMap::new()),
        RespFrame::Distinct(set_of(vec![integer(1)])),
    ];
    for (i, a) in frames.iter().enumerate() {
        for (j, b) in frames.iter().enumerate() {
            assert_eq!(frames_equal(a, b), i == j);
            assert_eq!(a == b, i == j);
        }
    }
}

#[test]
fn arrays_are_equal_in_order_only() {
    assert_eq!(array_of(vec![integer(1), integer(2)]), array_of(vec![integer(1), integer(2)]));
    assert_ne!(array_of(vec![integer(1), integer(2)]), array_of(vec![integer(2), integer(1)]));
    assert_ne!(array_of(vec![integer(1)]), array_of(vec![integer(1), integer(1)]));
    assert_ne!(array_of(vec![]), array_of(vec![integer(1)]));
}

#[test]
fn sets_are_equal_in_any_order() {
    let a = set_of(vec![integer(1), simple("x"), integer(3)]);
    let b = set_of(vec![integer(3), integer(1), simple("x")]);
    let c = set_of(vec![integer(3), integer(1)]);
    assert_eq!(a, b);
    assert_eq!(b, a);
    assert_ne!(a, c);
    assert_ne!(c, a);
    assert_eq!(RespSet::new(), RespSet::new());
}

#[test]
fn maps_are_equal_with_the_same_entries_in_the_same_order() {
    let build = |pairs: &[(&str, i64)]| {
        let mut map = RespMap::new();
        for (k, v) in pairs {
            map.insert(k.to_string(), integer(*v));
        }
        map
    };
    assert_eq!(build(&[("a", 1), ("b", 2)]), build(&[("a", 1), ("b", 2)]));
    assert_ne!(build(&[("a", 1), ("b", 2)]), build(&[("b", 2), ("a", 1)]));
    assert_ne!(build(&[("a", 1), ("b", 2)]), build(&[("a", 1), ("b", 3)]));
    assert_ne!(build(&[("a", 1)]), build(&[("a", 1), ("b", 2)]));
}

#[test]
fn doubles_are_equal_by_their_text() {
    let d = |t: &[u8]| RespDouble::from_text(t).unwrap();
    assert_eq!(d(b"1.5"), d(b"+1.5"));
    assert_ne!(d(b"1.5"), d(b"1.50"));
    assert_ne!(d(b"0"), d(b"-0"));
    assert_eq!(d(b"NaN"), d(b"NaN"));
}

#[test]
fn leaf_types_compare_by_what_they_hold() {
    assert_eq!(SimpleString::new("a"), SimpleString::new("a"));
    assert_ne!(SimpleString::new("a"), SimpleString::new("b"));
    assert_eq!(SimpleError::new("a"), SimpleError::new("a"));
    assert_ne!(SimpleError::new("a"), SimpleError::new(""));
    assert_eq!(BulkString::new(vec![0]), BulkString::new(vec![0]));
    assert_ne!(BulkString::new(vec![0]), BulkString::new(vec![0, 0]));
    assert_eq!(RespArray::new(vec![integer(1)]), RespArray::new(vec![integer(1)]));
    assert_ne!(RespArray::new(vec![integer(1)]), RespArray::new(vec![integer(2)]));
}

#[test]
fn text_with_a_line_break_is_not_well_formed() {
    assert!(is_well_formed(&simple("OK")));
    assert!(is_well_formed(&simple("")));
    assert!(!is_well_formed(&simple("a\rb")));
    assert!(!is_well_formed(&simple("a\nb")));
    assert!(!is_well_formed(&RespFrame::Error(SimpleError::new("a\r\n"))));
    assert!(is_well_formed(&RespFrame::Error(SimpleError::new("a b"))));
    assert!(!is_well_formed(&array_of(vec![integer(1), simple("\n")])));
    assert!(is_well_formed(&RespFrame::BulkString(BulkString::new(
        b"\r\n".to_vec()
    ))));
}

#[test]
fn map_with_a_bad_key_or_value_is_not_well_formed() {
    let mut map = RespMap::new();
    map.insert("good".to_string(), integer(1));
    assert!(is_well_formed(&RespFrame::Mapping(map)));
    let mut map = RespMap::new();
    map.insert("bad\r".to_string(), integer(1));
    assert!(!is_well_formed(&RespFrame::Mapping(map)));
    let mut map = RespMap::new();
    map.insert("good".to_string(), simple("\n"));
    assert!(!is_well_formed(&RespFrame::Mapping(map)));
}

#[test]
fn set_built_by_insert_is_well_formed() {
    let set = set_of(vec![integer(1), integer(1), simple("x"), integer(2), simple("x")]);
    assert_eq!(set.len(), 3);
    assert!(is_well_formed(&RespFrame::Distinct(set)));
    assert!(!is_well_formed(&RespFrame::Distinct(set_of(vec![simple("\r")]))));
}

#[test]
fn line_breaks_are_found() {
    assert!(!holds_line_break(b""));
    assert!(!holds_line_break(b"abc"));
    assert!(holds_line_break(b"ab\r"));
    assert!(holds_line_break(b"\nab"));
    assert!(is_one_line("abc"));
    assert!(!is_one_line("a\r\nb"));
}

#[test]
fn counts_fit_up_to_the_largest_integer() {
    assert!(fits_count(0));
    assert!(fits_count(1 << 20));
    assert_eq!(fits_count(usize::MAX), usize::MAX as u128 <= i64::MAX as u128);
}

#[test]
fn double_text_needs_its_sign() {
    assert!(is_double(b"+1.5"));
    assert!(is_double(b"-inf"));
    assert!(!is_double(b"1.5"));
    assert!(!is_double(b"+"));
    assert!(!is_double(b""));
}

#[test]
fn find_line_tells_the_three_outcomes_apart() {
    assert_eq!(find_line(b"abc\r\nrest", 0), Ok(3));
    assert_eq!(find_line(b"abc\r\nrest", 2), Ok(1));
    assert_eq!(find_line(b"abc\r\nrest", 3), Ok(0));
    assert_eq!(find_line(b"abc", 0), Err(DecodeError::NeedMoreData));
    assert_eq!(find_line(b"abc\r", 0), Err(DecodeError::NeedMoreData));
    assert_eq!(find_line(b"abc", 3), Err(DecodeError::NeedMoreData));
    assert_eq!(
        find_line(b"abc\n", 0),
        Err(DecodeError::ProtocolError(ProtocolError::BrokenLine))
    );
    assert_eq!(
        find_line(b"abc\rx\r\n", 0),
        Err(DecodeError::ProtocolError(ProtocolError::BrokenLine))
    );
    assert_eq!(
        find_line(b"abc\r\r\n", 0),
        Err(DecodeError::ProtocolError(ProtocolError::BrokenLine))
    );
}

#[test]
fn decimal_numerals() {
    let mut buf = Vec::new();
    push_decimal(&mut buf, 0);
    buf.push(b' ');
    push_decimal(&mut buf, 7);
    buf.push(b' ');
    push_decimal(&mut buf, 10);
    buf.push(b' ');
    push_decimal(&mut buf, 1234567890);
    buf.push(b' ');
    push_decimal(&mut buf, u64::MAX);
    assert_eq!(buf, b"0 7 10 1234567890 18446744073709551615");
}

#[test]
fn signed_decimal_numerals() {
    let mut buf = Vec::new();
    push_signed_decimal(&mut buf, 0);
    push_signed_decimal(&mut buf, -1);
    push_signed_decimal(&mut buf, 99);
    push_signed_decimal(&mut buf, i64::MIN);
    assert_eq!(buf, b"+0-1+99-9223372036854775808");
}

#[test]
fn magnitudes() {
    assert_eq!(magnitude(0), 0);
    assert_eq!(magnitude(5), 5);
    assert_eq!(magnitude(-5), 5);
    assert_eq!(magnitude(i64::MAX), 9223372036854775807);
    assert_eq!(magnitude(i64::MIN), 9223372036854775808);
}

#[test]
fn integers_are_read_from_a_part_of_the_buffer() {
    let buf = b"ab-120cd";
    assert_eq!(parse_integer(buf, 2, 6), Some(-120));
    assert_eq!(parse_integer(buf, 3, 6), Some(120));
    assert_eq!(parse_integer(buf, 2, 3), None);
    assert_eq!(parse_integer(buf, 2, 7), None);
    assert_eq!(parse_integer(buf, 4, 4), None);
    assert_eq!(parse_integer(b"+5", 0, 2), Some(5));
    assert_eq!(parse_integer(b"18446744073709551616", 0, 20), None);
}

#[test]
fn byte_strings() {
    let mut buf = b"ab".to_vec();
    push_range(&mut buf, b"0123456", 2, 5);
    push_range(&mut buf, b"0123456", 3, 3);
    assert_eq!(buf, b"ab234");
    assert!(bytes_equal(b"", b""));
    assert!(bytes_equal(b"abc", b"abc"));
    assert!(!bytes_equal(b"abc", b"abd"));
    assert!(!bytes_equal(b"abc", b"ab"));
}

#[test]
fn a_clone_is_equal_to_what_it_was_made_from() {
    let mut map = RespMap::new();
    map.insert("k".to_string(), integer(1));
    let frame = array_of(vec![
        simple("x"),
        RespFrame::Error(SimpleError::new("e")),
        RespFrame::BulkString(BulkString::new(vec![0, 13, 10])),
        RespFrame::Double(RespDouble::from_text(b"1e9").unwrap()),
        RespFrame::Mapping(map),
        RespFrame::Distinct(set_of(vec![integer(2), integer(1)])),
        RespFrame::Null(RespNull),
    ]);
    let copy = frame.clone();
    assert_eq!(copy, frame);
    let mut first = Vec::new();
    resp_codec::resp::encode::encode_into(&frame, &mut first);
    let mut second = Vec::new();
    resp_codec::resp::encode::encode_into(&copy, &mut second);
    assert_eq!(first, second);
    assert_eq!(SimpleString::new("a").clone(), SimpleString::new("a"));
    assert_eq!(set_of(vec![integer(1)]).clone(), set_of(vec![integer(1)]));
}

#[test]
fn nesting_is_counted_in_levels() {
    assert!(nests_no_deeper(&integer(1), 0));
    assert!(nests_no_deeper(&simple("x"), 0));
    assert!(!nests_no_deeper(&array_of(vec![]), 0));
    assert!(nests_no_deeper(&array_of(vec![]), 1));
    assert!(!nests_no_deeper(&RespFrame::Mapping(RespMap::new()), 0));
    assert!(!nests_no_deeper(&RespFrame::Distinct(RespSet::new()), 0));
    let mut map = RespMap::new();
    map.insert("k".to_string(), array_of(vec![integer(1)]));
    let frame = array_of(vec![
        integer(1),
        RespFrame::Distinct(set_of(vec![RespFrame::Mapping(map)])),
    ]);
    assert!(!nests_no_deeper(&frame, 3));
    assert!(nests_no_deeper(&frame, 4));
    assert!(nests_no_deeper(&frame, 5));
}
