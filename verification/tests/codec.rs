use stdio_rpc::model::DecodeError;
use stdio_rpc::stdio_protocol::map_insert;
use stdio_rpc::stdio_protocol::read_length_prefixed;
use stdio_rpc::stdio_protocol::Packet;
use stdio_rpc::stdio_protocol::Value;

const LONG: &str = "longlonglonglonglonglonglonglonglonglonglonglonglonglonglonglonglonglonglonglonglonglonglonglonglonglonglonglonglonglonglonglonglonglonglonglonglonglonglonglong";

fn map_of(pairs: Vec<(&str, Value)>) -> Value {
    let mut entries: Vec<(String, Value)> = Vec::new();
    for (k, v) in pairs {
        map_insert(&mut entries, k.to_string(), v);
    }
    Value::Dict(entries)
}

fn sample_inner_array() -> Value {
    Value::Array(vec![
        Value::Null,
        Value::Number(0),
        Value::Number(-1),
        Value::Boolean(false),
        Value::Boolean(true),
        Value::String("?".to_string()),
        Value::String("zzz".to_string()),
        Value::Uint8Array(vec![0, 1, 2, 3, 4, 5, 6, 7, 8, 9]),
    ])
}

fn sample_value() -> Value {
    map_of(vec![
        ("short", Value::Null),
        (LONG, Value::Null),
        ("a", Value::Number(0)),
        ("b", Value::Number(-1)),
        ("c", Value::Number(1)),
        ("d", Value::Boolean(false)),
        ("e", Value::Boolean(true)),
        ("f", Value::String("?".to_string())),
        ("g", Value::String(LONG.to_string())),
        ("h", Value::Uint8Array(vec![0, 1, 2, 3, 4, 5, 6, 7, 8, 9])),
        ("i", sample_inner_array()),
        (
            "j",
            map_of(vec![
                ("k", Value::Null),
                ("l", Value::Number(0)),
                ("m", Value::Number(-1)),
                ("n", Value::Number(1)),
                ("o", Value::Boolean(false)),
                ("p", Value::Boolean(true)),
                ("q", Value::String("?".to_string())),
                ("r", Value::String(LONG.to_string())),
                ("s", Value::Uint8Array(vec![0, 1, 2, 3, 4, 5, 6, 7, 8, 9])),
                ("t", sample_inner_array()),
            ]),
        ),
    ])
}

#[test]
fn test_encode_decode() {
    let p1 = Packet {
        id: 1,
        is_request: true,
        value: sample_value(),
    };
    let buf = p1.encode();
    let (buf, _) = read_length_prefixed(&buf);
    let p2 = Packet::decode(buf.to_vec()).unwrap();
    let p1 = Packet {
        id: 1,
        is_request: true,
        value: sample_value(),
    };
    assert_eq!(p1, p2);
}

#[test]
fn frame_prefix_counts_exactly_the_body() {
    let p = Packet {
        id: 7,
        is_request: false,
        value: sample_value(),
    };
    let buf = p.encode();
    let len = u32::from_le_bytes([buf[0], buf[1], buf[2], buf[3]]) as usize;
    assert_eq!(len, buf.len() - 4);
}

#[test]
fn concrete_map_packet_bytes() {
    // Keys inserted out of order; the wire must carry "a" before "b".
    let mut entries: Vec<(String, Value)> = Vec::new();
    map_insert(&mut entries, "b".to_string(), Value::Boolean(true));
    map_insert(&mut entries, "a".to_string(), Value::Number(0));
    let p = Packet {
        id: 1,
        is_request: true,
        value: Value::Dict(entries),
    };
    let buf = p.encode();
    let (body, rest) = read_length_prefixed(&buf);
    assert!(rest.is_empty());
    let cell = u32::from_le_bytes([body[0], body[1], body[2], body[3]]);
    assert_eq!(cell >> 1, 1);
    assert_eq!(cell & 1, 0);
    let expected: Vec<u8> = vec![
        6, // map tag
        2, 0, 0, 0, // two entries
        1, 0, 0, 0, b'a', // key "a"
        2, 0, 0, 0, 0, // Number(0)
        1, 0, 0, 0, b'b', // key "b"
        1, 1, // Boolean(true)
    ];
    assert_eq!(&body[4..], &expected[..]);
}

#[test]
fn insertion_order_does_not_change_the_bytes() {
    let forward = map_of(vec![
        ("alpha", Value::Number(1)),
        ("beta", Value::Number(2)),
        ("gamma", Value::Number(3)),
    ]);
    let backward = map_of(vec![
        ("gamma", Value::Number(3)),
        ("alpha", Value::Number(1)),
        ("beta", Value::Number(2)),
    ]);
    let b1 = Packet {
        id: 5,
        is_request: true,
        value: forward,
    }
    .encode();
    let b2 = Packet {
        id: 5,
        is_request: true,
        value: backward,
    }
    .encode();
    assert_eq!(b1, b2);
}

#[test]
fn later_insert_replaces_an_equal_key() {
    let v = map_of(vec![("k", Value::Number(1)), ("k", Value::Number(2))]);
    let once = map_of(vec![("k", Value::Number(2))]);
    assert_eq!(v, once);
}

#[test]
fn empty_byte_buffer_encodes_as_tag_and_zero_length() {
    let p = Packet {
        id: 0,
        is_request: true,
        value: Value::Uint8Array(vec![]),
    };
    let buf = p.encode();
    let (body, _) = read_length_prefixed(&buf);
    assert_eq!(&body[4..], &[4u8, 0, 0, 0, 0][..]);
    let p2 = Packet::decode(body.to_vec()).unwrap();
    assert_eq!(p2.value, Value::Uint8Array(vec![]));
}

#[test]
fn id_and_direction_pack_losslessly() {
    for &id in &[0u32, 1, 2, 12345, 0x7fff_fffe, 0x7fff_ffff] {
        for &is_request in &[true, false] {
            let p = Packet {
                id,
                is_request,
                value: Value::Null,
            };
            let buf = p.encode();
            let (body, _) = read_length_prefixed(&buf);
            let q = Packet::decode(body.to_vec()).unwrap();
            assert_eq!(q.id, id);
            assert_eq!(q.is_request, is_request);
        }
    }
}

#[test]
fn every_proper_prefix_of_a_body_is_rejected() {
    let p = Packet {
        id: 3,
        is_request: false,
        value: sample_value(),
    };
    let buf = p.encode();
    let (body, _) = read_length_prefixed(&buf);
    for n in 1..body.len() {
        let r = Packet::decode(body[..n].to_vec());
        assert_eq!(r, Err(DecodeError::TruncatedInput));
    }
}

#[test]
fn trailing_bytes_are_a_malformed_frame() {
    let p = Packet {
        id: 2,
        is_request: true,
        value: Value::Boolean(false),
    };
    let buf = p.encode();
    let (body, _) = read_length_prefixed(&buf);
    let mut extended = body.to_vec();
    extended.push(0);
    assert_eq!(
        Packet::decode(extended),
        Err(DecodeError::MalformedFrame)
    );
}

#[test]
fn an_unknown_tag_is_rejected() {
    let body = vec![0u8, 0, 0, 0, 7];
    assert_eq!(Packet::decode(body), Err(DecodeError::InvalidTag));
}

#[test]
fn invalid_utf8_in_a_string_is_rejected() {
    // tag 3, length 2, bytes that are not valid UTF-8
    let body = vec![0u8, 0, 0, 0, 3, 2, 0, 0, 0, 0xff, 0xfe];
    assert_eq!(Packet::decode(body), Err(DecodeError::InvalidUtf8));
}

#[test]
fn non_ascii_strings_round_trip() {
    let text = "héllo — ünïcode ❤";
    let p = Packet {
        id: 9,
        is_request: false,
        value: Value::String(text.to_string()),
    };
    let buf = p.encode();
    let (body, _) = read_length_prefixed(&buf);
    let q = Packet::decode(body.to_vec()).unwrap();
    assert_eq!(q.value, Value::String(text.to_string()));
}

#[test]
fn negative_numbers_use_the_two_complement_cell() {
    let p = Packet {
        id: 0,
        is_request: true,
        value: Value::Number(-1),
    };
    let buf = p.encode();
    let (body, _) = read_length_prefixed(&buf);
    assert_eq!(&body[4..], &[2u8, 0xff, 0xff, 0xff, 0xff][..]);
    let q = Packet::decode(body.to_vec()).unwrap();
    assert_eq!(q.value, Value::Number(-1));
}

#[test]
fn empty_containers_round_trip() {
    for value in [
        Value::String(String::new()),
        Value::Array(vec![]),
        Value::Dict(vec![]),
    ] {
        let p = Packet {
            id: 4,
            is_request: true,
            value,
        };
        let buf = p.encode();
        let (body, _) = read_length_prefixed(&buf);
        let p2 = Packet::decode(body.to_vec()).unwrap();
        assert_eq!(p2.id, 4);
    }
}
