use resp_codec::resp::decode::{DecodeError, RespDecode, MAX_DEPTH};
use resp_codec::resp::encode::{encode_into, RespEncode};
use resp_codec::resp::valid::{is_well_formed, nests_no_deeper};
use resp_codec::resp::{
    BulkString, RespArray, RespDouble, RespFrame, RespMap, RespNull, RespNullArray,
    RespNullBulkString, RespSet, SimpleError, SimpleString,
};

fn decode(bytes: &[u8]) -> Result<(RespFrame, usize), DecodeError> {
    RespDecode::decode(bytes)
}

fn bytes_of(frame: &RespFrame) -> Vec<u8> {
    let mut buf = Vec::new();
    encode_into(frame, &mut buf);
    buf
}

fn double(value: f64) -> RespFrame {
    let text = if value.abs() > 1e+8 {
        format!("{:e}", value)
    } else {
        format!("{}", value)
    };
    RespFrame::Double(RespDouble::from_text(text.as_bytes()).unwrap())
}

fn set_of(frames: Vec<RespFrame>) -> RespFrame {
    let mut set = RespSet::new();
    for frame in frames {
        set.insert(frame);
    }
    RespFrame::Distinct(set)
}

fn map_of(pairs: Vec<(&str, RespFrame)>) -> RespFrame {
    let mut map = RespMap::new();
    for (key, value) in pairs {
        map.insert(key.to_string(), value);
    }
    RespFrame::Mapping(map)
}

fn array_of(frames: Vec<RespFrame>) -> RespFrame {
    RespFrame::Array(RespArray::new(frames))
}

fn samples() -> Vec<RespFrame> {
    vec![
        RespFrame::SimpleString(SimpleString::new("OK")),
        RespFrame::SimpleString(SimpleString::new("")),
        RespFrame::SimpleString(SimpleString::new("gr\u{fc}\u{df}e \u{1f600}")),
        RespFrame::Error(SimpleError::new("wrong kind of value")),
        RespFrame::Error(SimpleError::new("")),
        RespFrame::Integer(0),
        RespFrame::Integer(-1),
        RespFrame::Integer(i64::MAX),
        RespFrame::Integer(i64::MIN),
        RespFrame::BulkString(BulkString::new(Vec::new())),
        RespFrame::BulkString(BulkString::new(b"\r\n$5\r\n\0\xff".to_vec())),
        RespFrame::NullBulkString(RespNullBulkString),
        RespFrame::NullArray(RespNullArray),
        RespFrame::Null(RespNull),
        RespFrame::Boolean(true),
        RespFrame::Boolean(false),
        double(0.0),
        double(-0.0),
        double(1.5),
        double(-123.456),
        double(1e9),
        double(-2.5e-9),
        double(1e8),
        double(f64::MAX),
        double(f64::MIN_POSITIVE),
        double(f64::INFINITY),
        double(f64::NEG_INFINITY),
        double(f64::NAN),
        array_of(vec![]),
        array_of(vec![RespFrame::Integer(1), RespFrame::Null(RespNull)]),
        array_of(vec![
            array_of(vec![array_of(vec![])]),
            RespFrame::BulkString(BulkString::new(b"*1\r\n".to_vec())),
            array_of(vec![RespFrame::Boolean(true)]),
        ]),
        map_of(vec![]),
        map_of(vec![
            ("zeta", RespFrame::Integer(1)),
            ("alpha", array_of(vec![double(2.5)])),
            ("", map_of(vec![("inner", RespFrame::Null(RespNull))])),
        ]),
        set_of(vec![]),
        set_of(vec![
            RespFrame::Integer(2),
            RespFrame::Integer(1),
            set_of(vec![RespFrame::Integer(1)]),
            array_of(vec![RespFrame::Integer(1)]),
            RespFrame::SimpleString(SimpleString::new("1")),
        ]),
    ]
}

#[test]
fn decoding_what_was_encoded_gives_the_frame_back() {
    for frame in samples() {
        assert!(is_well_formed(&frame));
        assert!(nests_no_deeper(&frame, MAX_DEPTH));
        let bytes = bytes_of(&frame);
        let (decoded, taken) = decode(&bytes).unwrap();
        assert_eq!(taken, bytes.len());
        assert_eq!(decoded, frame);
        assert_eq!(bytes_of(&decoded), bytes);
    }
}

#[test]
fn decoding_ignores_what_follows_the_frame() {
    for frame in samples() {
        let mut bytes = bytes_of(&frame);
        let len = bytes.len();
        bytes.extend_from_slice(b"+next\r\n\r\n??");
        let (decoded, taken) = decode(&bytes).unwrap();
        assert_eq!(taken, len);
        assert_eq!(decoded, frame);
    }
}

#[test]
fn decoding_a_part_asks_for_more_until_the_whole_is_there() {
    for frame in samples() {
        let bytes = bytes_of(&frame);
        for cut in 0..bytes.len() {
            assert_eq!(decode(&bytes[..cut]), Err(DecodeError::NeedMoreData));
        }
        let mut buffer = Vec::new();
        let (head, tail) = bytes.split_at(bytes.len() / 2);
        buffer.extend_from_slice(head);
        if !tail.is_empty() {
            assert_eq!(decode(&buffer), Err(DecodeError::NeedMoreData));
        }
        buffer.extend_from_slice(tail);
        assert_eq!(decode(&buffer), Ok((frame, bytes.len())));
    }
}

#[test]
fn equal_sets_in_another_order_decode_back_equal() {
    let a = set_of(vec![
        RespFrame::Integer(1),
        RespFrame::Integer(2),
        RespFrame::Boolean(true),
    ]);
    let b = set_of(vec![
        RespFrame::Boolean(true),
        RespFrame::Integer(2),
        RespFrame::Integer(1),
    ]);
    assert_eq!(a, b);
    let bytes_a = bytes_of(&a);
    let bytes_b = bytes_of(&b);
    assert_ne!(bytes_a, bytes_b);
    assert_eq!(decode(&bytes_a).unwrap().0, b);
    assert_eq!(decode(&bytes_b).unwrap().0, a);
}

#[test]
fn equal_frames_without_sets_encode_alike() {
    let build = || {
        array_of(vec![
            map_of(vec![("k", RespFrame::Integer(1)), ("l", double(0.5))]),
            RespFrame::SimpleString(SimpleString::new("s")),
        ])
    };
    assert_eq!(build(), build());
    assert_eq!(build().encode(), build().encode());
}

#[test]
fn equality_is_an_equivalence_on_the_samples() {
    let frames = samples();
    for a in &frames {
        assert_eq!(a, a);
    }
    let x = set_of(vec![RespFrame::Integer(1), RespFrame::Integer(2)]);
    let y = set_of(vec![RespFrame::Integer(2), RespFrame::Integer(1)]);
    let z = set_of(vec![
        RespFrame::Integer(2),
        RespFrame::Integer(1),
        RespFrame::Integer(2),
    ]);
    assert!(x == y && y == x);
    assert!(y == z && x == z);
}

#[test]
fn a_frame_that_is_not_well_formed_does_not_come_back() {
    let frame = RespFrame::SimpleString(SimpleString::new("two\r\nlines"));
    assert!(!is_well_formed(&frame));
    let bytes = bytes_of(&frame);
    assert_eq!(bytes, b"+two\r\nlines\r\n");
    let (decoded, taken) = decode(&bytes).unwrap();
    assert_eq!(taken, 6);
    assert_ne!(decoded, frame);
}

#[test]
fn a_frame_nested_too_deep_does_not_come_back() {
    let mut frame = RespFrame::Integer(1);
    for _ in 0..MAX_DEPTH + 1 {
        frame = array_of(vec![frame]);
    }
    assert!(is_well_formed(&frame));
    assert!(!nests_no_deeper(&frame, MAX_DEPTH));
    assert!(decode(&bytes_of(&frame)).is_err());
}

#[test]
fn a_protocol_error_stays_when_more_bytes_arrive() {
    for bytes in [
        &b"?"[..],
        b"+a\rb",
        b":12a\r\n",
        b"$-2\r\n",
        b"$3\r\nabcde",
        b"*2\r\n+OK\r\n#x\r\n",
        b"%1\r\n:1\r\n",
        b",1.\r\n",
        b"-oops\r\n",
        b"_ \r\n",
    ] {
        let verdict = decode(bytes);
        assert!(matches!(verdict, Err(DecodeError::ProtocolError(_))));
        let mut longer = bytes.to_vec();
        for more in [&b"\r\n"[..], b"+OK\r\n", b"\n", b"0123456789"] {
            longer.extend_from_slice(more);
            assert_eq!(decode(&longer), verdict);
        }
    }
}
