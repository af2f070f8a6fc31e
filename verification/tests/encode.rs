use resp_codec::resp::encode::{encode_into, RespEncode};
use resp_codec::resp::{
    BulkString, RespArray, RespDouble, RespFrame, RespMap, RespNull, RespNullArray,
    RespNullBulkString, RespSet, SimpleError, SimpleString,
};

/// The text that stands for a floating-point number: scientific notation
/// above 1e8 in magnitude, plain decimal notation below.
fn double(value: f64) -> RespDouble {
    let text = if value.abs() > 1e+8 {
        format!("{:e}", value)
    } else {
        format!("{}", value)
    };
    RespDouble::from_text(text.as_bytes()).unwrap()
}

#[test]
fn test_simple_string_encode() {
    let frame = SimpleString::new("OK");
    assert_eq!(frame.encode(), b"+OK\r\n");
}

#[test]
fn test_simple_error_encode() {
    let frame = SimpleError::new("Error message");
    assert_eq!(frame.encode(), b"-Error Error message\r\n");
}

#[test]
fn test_integer_encode() {
    let frame: RespFrame = 123.into();
    assert_eq!(frame.encode(), b":+123\r\n");

    let frame = -123;
    assert_eq!(frame.encode(), b":-123\r\n");
}

#[test]
fn test_bulk_string_encode() {
    let frame = BulkString::new(b"Hello, World!".to_vec());
    assert_eq!(frame.encode(), b"$13\r\nHello, World!\r\n");
}

#[test]
fn test_null_bulk_string_encode() {
    let frame = RespNullBulkString;
    assert_eq!(frame.encode(), b"$-1\r\n");
}

#[test]
fn test_array_encode() {
    let frame = RespArray::new(vec![
        RespFrame::SimpleString(SimpleString::new("OK")),
        RespFrame::Integer(123),
    ]);
    assert_eq!(frame.encode(), b"*2\r\n+OK\r\n:+123\r\n");
}

#[test]
fn test_null_array_encode() {
    let frame = RespNullArray;
    assert_eq!(frame.encode(), b"*-1\r\n");
}

#[test]
fn test_null_encode() {
    let frame = RespNull;
    assert_eq!(frame.encode(), b"_\r\n");
}

#[test]
fn test_boolean_encode() {
    let frame = true;
    assert_eq!(frame.encode(), b"#t\r\n");
}

#[test]
fn test_double_encode() {
    let frame = double(123.456);
    assert_eq!(frame.encode(), b",+123.456\r\n");
}

#[test]
fn false_encodes_as_f() {
    assert_eq!(false.encode(), b"#f\r\n");
}

#[test]
fn empty_bulk_string_encodes_with_length_zero() {
    assert_eq!(BulkString::new(Vec::new()).encode(), b"$0\r\n\r\n");
}

#[test]
fn bulk_string_keeps_line_breaks_and_nul() {
    let frame = BulkString::new(b"a\r\nb\0c".to_vec());
    assert_eq!(frame.encode(), b"$6\r\na\r\nb\0c\r\n");
}

#[test]
fn zero_carries_a_plus() {
    assert_eq!(0i64.encode(), b":+0\r\n");
}

#[test]
fn minus_one_carries_a_minus() {
    assert_eq!((-1i64).encode(), b":-1\r\n");
}

#[test]
fn largest_and_smallest_integers_are_written_in_full() {
    assert_eq!(i64::MAX.encode(), b":+9223372036854775807\r\n");
    assert_eq!(i64::MIN.encode(), b":-9223372036854775808\r\n");
}

#[test]
fn empty_array_encodes_with_count_zero() {
    assert_eq!(RespArray::new(Vec::new()).encode(), b"*0\r\n");
}

#[test]
fn nested_arrays_are_written_inside_out() {
    let inner = RespArray::new(vec![RespFrame::Boolean(true), RespFrame::Null(RespNull)]);
    let outer = RespArray::new(vec![RespFrame::Array(inner), RespFrame::Integer(-7)]);
    assert_eq!(outer.encode(), b"*2\r\n*2\r\n#t\r\n_\r\n:-7\r\n");
}

#[test]
fn large_double_is_written_in_scientific_notation() {
    assert_eq!(double(1e9).encode(), b",+1e9\r\n");
    assert_eq!(double(-1.5e10).encode(), b",-1.5e10\r\n");
}

#[test]
fn small_double_is_written_in_decimal_notation() {
    assert_eq!(double(1.5).encode(), b",+1.5\r\n");
    assert_eq!(double(-0.25).encode(), b",-0.25\r\n");
    assert_eq!(double(1e8).encode(), b",+100000000\r\n");
}

#[test]
fn special_doubles_are_written_by_name() {
    assert_eq!(double(f64::INFINITY).encode(), b",+inf\r\n");
    assert_eq!(double(f64::NEG_INFINITY).encode(), b",-inf\r\n");
    assert_eq!(double(f64::NAN).encode(), b",+NaN\r\n");
}

#[test]
fn map_is_written_in_insertion_order() {
    let mut map = RespMap::new();
    map.insert("zeta".to_string(), RespFrame::Integer(1));
    map.insert("alpha".to_string(), RespFrame::Boolean(false));
    map.insert("mid".to_string(), RespFrame::Null(RespNull));
    assert_eq!(
        map.encode(),
        b"%3\r\n+zeta\r\n:+1\r\n+alpha\r\n#f\r\n+mid\r\n_\r\n"
    );
}

#[test]
fn empty_map_and_empty_set() {
    assert_eq!(RespMap::new().encode(), b"%0\r\n");
    assert_eq!(RespSet::new().encode(), b"~0\r\n");
}

#[test]
fn set_is_written_in_insertion_order_without_repetition() {
    let mut set = RespSet::new();
    assert!(set.insert(RespFrame::Integer(2)));
    assert!(set.insert(RespFrame::Integer(1)));
    assert!(!set.insert(RespFrame::Integer(2)));
    assert_eq!(set.encode(), b"~2\r\n:+2\r\n:+1\r\n");
}

#[test]
fn frame_encodes_as_what_it_holds() {
    let frames = vec![
        (RespFrame::from(SimpleString::new("PONG")), b"+PONG\r\n".to_vec()),
        (RespFrame::from(SimpleError::new("oops")), b"-Error oops\r\n".to_vec()),
        (RespFrame::from(42i64), b":+42\r\n".to_vec()),
        (RespFrame::from(BulkString::new(b"xy".to_vec())), b"$2\r\nxy\r\n".to_vec()),
        (RespFrame::from(RespNullBulkString), b"$-1\r\n".to_vec()),
        (RespFrame::from(RespArray::new(Vec::new())), b"*0\r\n".to_vec()),
        (RespFrame::from(RespNullArray), b"*-1\r\n".to_vec()),
        (RespFrame::from(RespNull), b"_\r\n".to_vec()),
        (RespFrame::from(true), b"#t\r\n".to_vec()),
        (RespFrame::from(double(2.5)), b",+2.5\r\n".to_vec()),
        (RespFrame::from(RespMap::new()), b"%0\r\n".to_vec()),
        (RespFrame::from(RespSet::new()), b"~0\r\n".to_vec()),
    ];
    for (frame, bytes) in frames {
        assert_eq!(frame.encode(), bytes);
    }
}

#[test]
fn encode_into_appends() {
    let mut buf = b"+a\r\n".to_vec();
    encode_into(&RespFrame::Integer(5), &mut buf);
    encode_into(&RespFrame::Boolean(true), &mut buf);
    assert_eq!(buf, b"+a\r\n:+5\r\n#t\r\n");
}

#[test]
fn encoding_twice_gives_the_same_bytes() {
    let build = || {
        let mut set = RespSet::new();
        set.insert(RespFrame::Integer(3));
        set.insert(RespFrame::SimpleString(SimpleString::new("x")));
        let mut map = RespMap::new();
        map.insert("k".to_string(), RespFrame::Distinct(set));
        RespFrame::Array(RespArray::new(vec![
            RespFrame::Mapping(map),
            RespFrame::BulkString(BulkString::new(b"\r\n".to_vec())),
        ]))
    };
    let mut first = Vec::new();
    let frame = build();
    encode_into(&frame, &mut first);
    assert_eq!(frame.encode(), first);
    assert_eq!(build().encode(), first);
}

#[test]
fn text_outside_ascii_is_written_as_utf8() {
    assert_eq!(
        SimpleString::new("h\u{e9}llo \u{4e16}").encode(),
        b"+h\xc3\xa9llo \xe4\xb8\x96\r\n"
    );
}
