use resp_codec::resp::decode::{DecodeError, ProtocolError, RespDecode, MAX_DEPTH};
use resp_codec::resp::encode::RespEncode;
use resp_codec::resp::valid::is_well_formed;
use resp_codec::resp::{
    BulkString, RespArray, RespDouble, RespFrame, RespMap, RespNull, RespNullArray,
    RespNullBulkString, RespSet, SimpleError, SimpleString,
};

fn decode(bytes: &[u8]) -> Result<(RespFrame, usize), DecodeError> {
    RespDecode::decode(bytes)
}

fn protocol(e: ProtocolError) -> Result<(RespFrame, usize), DecodeError> {
    Err(DecodeError::ProtocolError(e))
}

fn simple(text: &str) -> RespFrame {
    RespFrame::SimpleString(SimpleString::new(text))
}

fn double(text: &str) -> RespFrame {
    RespFrame::Double(RespDouble::from_text(text.as_bytes()).unwrap())
}

#[test]
fn decode_simple_string() {
    assert_eq!(decode(b"+OK\r\n"), Ok((simple("OK"), 5)));
    assert_eq!(decode(b"+\r\n"), Ok((simple(""), 3)));
}

#[test]
fn decode_takes_only_the_first_frame() {
    assert_eq!(decode(b"+OK\r\n:+1\r\n"), Ok((simple("OK"), 5)));
    assert_eq!(decode(b":+1\r\n+OK"), Ok((RespFrame::Integer(1), 5)));
}

#[test]
fn decode_simple_string_outside_ascii() {
    assert_eq!(
        decode(b"+h\xc3\xa9llo \xe4\xb8\x96\r\n"),
        Ok((simple("h\u{e9}llo \u{4e16}"), 13))
    );
}

#[test]
fn decode_text_that_is_not_utf8_is_protocol_error() {
    assert_eq!(decode(b"+\xff\xfe\r\n"), protocol(ProtocolError::InvalidText));
    assert_eq!(decode(b"+\xc3\r\n"), protocol(ProtocolError::InvalidText));
    assert_eq!(
        decode(b"-Error \xe4\xb8\r\n"),
        protocol(ProtocolError::InvalidText)
    );
}

#[test]
fn decode_error() {
    assert_eq!(
        decode(b"-Error unknown command\r\n"),
        Ok((RespFrame::Error(SimpleError::new("unknown command")), 24))
    );
    assert_eq!(
        decode(b"-Error \r\n"),
        Ok((RespFrame::Error(SimpleError::new("")), 9))
    );
}

#[test]
fn decode_error_without_label_is_protocol_error() {
    assert_eq!(decode(b"-ERR no\r\n"), protocol(ProtocolError::MalformedError));
    assert_eq!(decode(b"-Error\r\n"), protocol(ProtocolError::MalformedError));
    assert_eq!(decode(b"-\r\n"), protocol(ProtocolError::MalformedError));
}

#[test]
fn decode_integer() {
    assert_eq!(decode(b":+123\r\n"), Ok((RespFrame::Integer(123), 7)));
    assert_eq!(decode(b":-123\r\n"), Ok((RespFrame::Integer(-123), 7)));
    assert_eq!(decode(b":123\r\n"), Ok((RespFrame::Integer(123), 6)));
    assert_eq!(decode(b":+0\r\n"), Ok((RespFrame::Integer(0), 5)));
    assert_eq!(decode(b":-0\r\n"), Ok((RespFrame::Integer(0), 5)));
    assert_eq!(decode(b":007\r\n"), Ok((RespFrame::Integer(7), 6)));
}

#[test]
fn decode_integer_at_the_limits() {
    assert_eq!(
        decode(b":+9223372036854775807\r\n"),
        Ok((RespFrame::Integer(i64::MAX), 23))
    );
    assert_eq!(
        decode(b":-9223372036854775808\r\n"),
        Ok((RespFrame::Integer(i64::MIN), 23))
    );
    assert_eq!(
        decode(b":+9223372036854775808\r\n"),
        protocol(ProtocolError::MalformedInteger)
    );
    assert_eq!(
        decode(b":-9223372036854775809\r\n"),
        protocol(ProtocolError::MalformedInteger)
    );
    assert_eq!(
        decode(b":99999999999999999999999999999999\r\n"),
        protocol(ProtocolError::MalformedInteger)
    );
    assert_eq!(
        decode(b":000000000000000000000000000000012\r\n"),
        Ok((RespFrame::Integer(12), 36))
    );
}

#[test]
fn decode_malformed_integer_is_protocol_error() {
    for bytes in [
        &b":\r\n"[..],
        b":+\r\n",
        b":-\r\n",
        b":12a\r\n",
        b":+-1\r\n",
        b":1 \r\n",
        b": 1\r\n",
        b":1.0\r\n",
    ] {
        assert_eq!(decode(bytes), protocol(ProtocolError::MalformedInteger));
    }
}

#[test]
fn decode_bulk_string() {
    assert_eq!(
        decode(b"$13\r\nHello, World!\r\n"),
        Ok((
            RespFrame::BulkString(BulkString::new(b"Hello, World!".to_vec())),
            20
        ))
    );
    assert_eq!(
        decode(b"$6\r\na\r\nb\0c\r\n"),
        Ok((RespFrame::BulkString(BulkString::new(b"a\r\nb\0c".to_vec())), 12))
    );
    assert_eq!(
        decode(b"$0\r\n\r\n"),
        Ok((RespFrame::BulkString(BulkString::new(Vec::new())), 6))
    );
}

#[test]
fn decode_bulk_string_needs_payload_and_terminator() {
    assert_eq!(decode(b"$5\r\n"), Err(DecodeError::NeedMoreData));
    assert_eq!(decode(b"$5\r\nhel"), Err(DecodeError::NeedMoreData));
    assert_eq!(decode(b"$5\r\nhello"), Err(DecodeError::NeedMoreData));
    assert_eq!(decode(b"$5\r\nhello\r"), Err(DecodeError::NeedMoreData));
    assert_eq!(
        decode(b"$5\r\nhello\r\n"),
        Ok((RespFrame::BulkString(BulkString::new(b"hello".to_vec())), 11))
    );
    assert_eq!(
        decode(b"$9223372036854775807\r\nabc"),
        Err(DecodeError::NeedMoreData)
    );
}

#[test]
fn decode_bulk_string_without_terminator_is_protocol_error() {
    assert_eq!(
        decode(b"$5\r\nhelloXY"),
        protocol(ProtocolError::MissingTerminator)
    );
    assert_eq!(
        decode(b"$5\r\nhello\rX"),
        protocol(ProtocolError::MissingTerminator)
    );
    assert_eq!(
        decode(b"$2\r\nhello\r\n"),
        protocol(ProtocolError::MissingTerminator)
    );
}

#[test]
fn decode_unknown_prefix_is_protocol_error() {
    assert_eq!(decode(b"!abc\r\n"), protocol(ProtocolError::UnknownPrefix));
    assert_eq!(decode(b"x"), protocol(ProtocolError::UnknownPrefix));
    assert_eq!(decode(b"\r\n"), protocol(ProtocolError::UnknownPrefix));
}

#[test]
fn decode_bulk_length_not_a_number_is_protocol_error() {
    assert_eq!(decode(b"$abc\r\n"), protocol(ProtocolError::MalformedInteger));
}

#[test]
fn decode_bulk_length_minus_two_is_protocol_error() {
    assert_eq!(decode(b"$-2\r\n"), protocol(ProtocolError::NegativeLength));
    assert_eq!(decode(b"*-2\r\n"), protocol(ProtocolError::NegativeLength));
    assert_eq!(decode(b"%-1\r\n"), protocol(ProtocolError::NegativeLength));
    assert_eq!(decode(b"~-1\r\n"), protocol(ProtocolError::NegativeLength));
    assert_eq!(decode(b"~-5\r\n"), protocol(ProtocolError::NegativeLength));
}

#[test]
fn null_bulk_string_is_not_the_empty_bulk_string() {
    let null = RespNullBulkString.encode();
    let empty = BulkString::new(Vec::new()).encode();
    assert_eq!(null, b"$-1\r\n");
    assert_eq!(empty, b"$0\r\n\r\n");
    assert_eq!(
        decode(&null),
        Ok((RespFrame::NullBulkString(RespNullBulkString), 5))
    );
    assert_eq!(
        decode(&empty),
        Ok((RespFrame::BulkString(BulkString::new(Vec::new())), 6))
    );
    assert_ne!(decode(&null), decode(&empty));
}

#[test]
fn decode_nulls() {
    assert_eq!(decode(b"_\r\n"), Ok((RespFrame::Null(RespNull), 3)));
    assert_eq!(
        decode(b"*-1\r\n"),
        Ok((RespFrame::NullArray(RespNullArray), 5))
    );
    assert_eq!(decode(b"_x\r\n"), protocol(ProtocolError::MalformedNull));
}

#[test]
fn decode_boolean() {
    assert_eq!(decode(b"#t\r\n"), Ok((RespFrame::Boolean(true), 4)));
    assert_eq!(decode(b"#f\r\n"), Ok((RespFrame::Boolean(false), 4)));
    assert_eq!(decode(b"#\r\n"), protocol(ProtocolError::MalformedBoolean));
    assert_eq!(decode(b"#T\r\n"), protocol(ProtocolError::MalformedBoolean));
    assert_eq!(decode(b"#tf\r\n"), protocol(ProtocolError::MalformedBoolean));
}

#[test]
fn decode_double() {
    assert_eq!(decode(b",+123.456\r\n"), Ok((double("+123.456"), 11)));
    assert_eq!(decode(b",123.456\r\n"), Ok((double("+123.456"), 10)));
    assert_eq!(decode(b",-1e9\r\n"), Ok((double("-1e9"), 7)));
    assert_eq!(decode(b",+1.5E-7\r\n"), Ok((double("1.5E-7"), 10)));
    assert_eq!(decode(b",2e+10\r\n"), Ok((double("+2e+10"), 8)));
    assert_eq!(decode(b",inf\r\n"), Ok((double("+inf"), 6)));
    assert_eq!(decode(b",-inf\r\n"), Ok((double("-inf"), 7)));
    assert_eq!(decode(b",nan\r\n"), Ok((double("+nan"), 6)));
    assert_eq!(decode(b",+NaN\r\n"), Ok((double("NaN"), 7)));
    assert_eq!(decode(b",0\r\n"), Ok((double("+0"), 4)));
}

#[test]
fn decode_malformed_double_is_protocol_error() {
    for bytes in [
        &b",\r\n"[..],
        b",+\r\n",
        b",abc\r\n",
        b",1.\r\n",
        b",.5\r\n",
        b",1e\r\n",
        b",1e+\r\n",
        b",1.5.2\r\n",
        b",1e5e5\r\n",
        b",++1\r\n",
        b",1 \r\n",
        b",infinity\r\n",
        b",Inf\r\n",
        b",1.e5\r\n",
        b",1e1.5\r\n",
    ] {
        assert_eq!(decode(bytes), protocol(ProtocolError::MalformedDouble));
    }
}

#[test]
fn decode_array() {
    assert_eq!(
        decode(b"*2\r\n+OK\r\n:+123\r\n"),
        Ok((
            RespFrame::Array(RespArray::new(vec![simple("OK"), RespFrame::Integer(123)])),
            16
        ))
    );
    assert_eq!(
        decode(b"*0\r\n"),
        Ok((RespFrame::Array(RespArray::new(Vec::new())), 4))
    );
    assert_eq!(
        decode(b"*2\r\n*1\r\n$1\r\nx\r\n*0\r\nrest"),
        Ok((
            RespFrame::Array(RespArray::new(vec![
                RespFrame::Array(RespArray::new(vec![RespFrame::BulkString(
                    BulkString::new(b"x".to_vec())
                )])),
                RespFrame::Array(RespArray::new(Vec::new())),
            ])),
            19
        ))
    );
}

#[test]
fn decode_array_passes_on_what_stops_an_element() {
    assert_eq!(decode(b"*2\r\n+OK\r\n"), Err(DecodeError::NeedMoreData));
    assert_eq!(decode(b"*2\r\n+OK\r\n:+1"), Err(DecodeError::NeedMoreData));
    assert_eq!(
        decode(b"*2\r\n+OK\r\n?\r\n"),
        protocol(ProtocolError::UnknownPrefix)
    );
    assert_eq!(
        decode(b"*2\r\n:x\r\n+OK\r\n"),
        protocol(ProtocolError::MalformedInteger)
    );
    assert_eq!(
        decode(b"*9223372036854775807\r\n+OK\r\n"),
        Err(DecodeError::NeedMoreData)
    );
}

#[test]
fn decode_map() {
    let mut map = RespMap::new();
    map.insert("b".to_string(), RespFrame::Integer(1));
    map.insert("a".to_string(), RespFrame::Boolean(true));
    assert_eq!(
        decode(b"%2\r\n+b\r\n:+1\r\n+a\r\n#t\r\n"),
        Ok((RespFrame::Mapping(map), 21))
    );
    assert_eq!(decode(b"%0\r\n"), Ok((RespFrame::Mapping(RespMap::new()), 4)));
}

#[test]
fn decode_map_keeps_the_last_value_of_a_key_in_its_first_place() {
    let mut map = RespMap::new();
    map.insert("k".to_string(), RespFrame::Integer(3));
    map.insert("j".to_string(), RespFrame::Integer(2));
    assert_eq!(
        decode(b"%3\r\n+k\r\n:+1\r\n+j\r\n:+2\r\n+k\r\n:+3\r\n"),
        Ok((RespFrame::Mapping(map), 31))
    );
}

#[test]
fn decode_map_key_that_is_no_simple_string_is_protocol_error() {
    assert_eq!(
        decode(b"%1\r\n:+1\r\n:+2\r\n"),
        protocol(ProtocolError::InvalidMapKey)
    );
    assert_eq!(
        decode(b"%1\r\n$1\r\nk\r\n:+2\r\n"),
        protocol(ProtocolError::InvalidMapKey)
    );
    assert_eq!(decode(b"%1\r\n:"), protocol(ProtocolError::InvalidMapKey));
}

#[test]
fn decode_map_needs_every_key_and_value() {
    assert_eq!(decode(b"%1\r\n"), Err(DecodeError::NeedMoreData));
    assert_eq!(decode(b"%1\r\n+k"), Err(DecodeError::NeedMoreData));
    assert_eq!(decode(b"%1\r\n+k\r\n"), Err(DecodeError::NeedMoreData));
    assert_eq!(decode(b"%2\r\n+k\r\n:+1\r\n"), Err(DecodeError::NeedMoreData));
}

#[test]
fn decode_set() {
    let mut set = RespSet::new();
    set.insert(RespFrame::Integer(2));
    set.insert(RespFrame::Integer(1));
    assert_eq!(
        decode(b"~2\r\n:+2\r\n:+1\r\n"),
        Ok((RespFrame::Distinct(set), 14))
    );
}

#[test]
fn decode_set_keeps_the_first_of_equal_members() {
    let decoded = decode(b"~4\r\n:+2\r\n:2\r\n+x\r\n:+2\r\n").unwrap();
    assert_eq!(decoded.1, 22);
    assert_eq!(decoded.0.encode(), b"~2\r\n:+2\r\n+x\r\n");
}

#[test]
fn decode_broken_line_is_protocol_error() {
    assert_eq!(decode(b"+a\rb\r\n"), protocol(ProtocolError::BrokenLine));
    assert_eq!(decode(b"+a\nb\r\n"), protocol(ProtocolError::BrokenLine));
    assert_eq!(decode(b"+OK\n"), protocol(ProtocolError::BrokenLine));
    assert_eq!(decode(b":1\rx"), protocol(ProtocolError::BrokenLine));
    assert_eq!(decode(b"$3\n"), protocol(ProtocolError::BrokenLine));
}

#[test]
fn decode_incomplete_line_needs_more_data() {
    assert_eq!(decode(b""), Err(DecodeError::NeedMoreData));
    assert_eq!(decode(b"+"), Err(DecodeError::NeedMoreData));
    assert_eq!(decode(b"+OK"), Err(DecodeError::NeedMoreData));
    assert_eq!(decode(b"+OK\r"), Err(DecodeError::NeedMoreData));
    assert_eq!(decode(b":12a"), Err(DecodeError::NeedMoreData));
    assert_eq!(decode(b"$"), Err(DecodeError::NeedMoreData));
}

fn nested(depth: usize) -> Vec<u8> {
    let mut bytes = Vec::new();
    for _ in 0..depth {
        bytes.extend_from_slice(b"*1\r\n");
    }
    bytes.extend_from_slice(b":+1\r\n");
    bytes
}

#[test]
fn decode_nests_as_deep_as_the_bound() {
    let bytes = nested(MAX_DEPTH);
    let (frame, taken) = decode(&bytes).unwrap();
    assert_eq!(taken, bytes.len());
    assert_eq!(frame.encode(), bytes);
}

#[test]
fn decode_deeper_than_the_bound_is_protocol_error() {
    assert_eq!(
        decode(&nested(MAX_DEPTH + 1)),
        protocol(ProtocolError::DepthExceeded)
    );
    assert_eq!(
        decode(&nested(MAX_DEPTH + 50)),
        protocol(ProtocolError::DepthExceeded)
    );
}

#[test]
fn decode_counts_maps_and_sets_as_levels() {
    let mut bytes = Vec::new();
    for _ in 0..MAX_DEPTH {
        bytes.extend_from_slice(b"~1\r\n");
    }
    let mut too_deep = bytes.clone();
    bytes.extend_from_slice(b"_\r\n");
    too_deep.extend_from_slice(b"%0\r\n");
    assert_eq!(decode(&bytes).unwrap().1, bytes.len());
    assert_eq!(decode(&too_deep), protocol(ProtocolError::DepthExceeded));
}

#[test]
fn what_is_decoded_is_well_formed() {
    for bytes in [
        &b"+OK\r\n"[..],
        b"-Error x\r\n",
        b":5\r\n",
        b"$3\r\na\r\n\r\n",
        b",1.5\r\n",
        b"*2\r\n~3\r\n:1\r\n:+1\r\n:2\r\n%2\r\n+k\r\n_\r\n+k\r\n#t\r\n",
    ] {
        let (frame, taken) = decode(bytes).unwrap();
        assert_eq!(taken, bytes.len());
        assert!(is_well_formed(&frame));
    }
}
