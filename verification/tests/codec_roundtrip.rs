use qbus::codec::{decode_value, encode_value, Value};
use qbus::error::Error;
use qbus::error::CallError as WireCallError;
use qbus::protocol::{
    decode_request, decode_response, encode_request, encode_response, ObjectID, Output, Request,
    Response, Tuple,
};

fn roundtrip(v: Value) {
    let bytes = encode_value(&v).expect("encodable value");
    let back = decode_value(&bytes).expect("decodes");
    assert_eq!(back, v);
}

#[test]
fn value_roundtrip_scalars() {
    roundtrip(Value::Nil);
    roundtrip(Value::Bool(true));
    roundtrip(Value::Bool(false));
    roundtrip(Value::U64(0));
    roundtrip(Value::U64(u64::MAX));
    roundtrip(Value::U64(0xDEAD_BEEF_1234_5678));
    roundtrip(Value::I64(0));
    roundtrip(Value::I64(-1));
    roundtrip(Value::I64(i64::MIN));
    roundtrip(Value::I64(i64::MAX));
}

#[test]
fn value_roundtrip_floats_by_bits() {
    for x in [0.0f64, 1.0, -1.5, 3.0, f64::MAX, f64::MIN_POSITIVE, f64::NEG_INFINITY] {
        let v = Value::F64(x.to_bits());
        let bytes = encode_value(&v).expect("encodable value");
        let back = decode_value(&bytes).expect("decodes");
        match back {
            Value::F64(bits) => assert_eq!(f64::from_bits(bits), x),
            other => panic!("wrong kind decoded: {:?}", other),
        }
    }
}

#[test]
fn value_roundtrip_strings_and_blobs() {
    roundtrip(Value::Str(String::new()));
    roundtrip(Value::Str(String::from("hello world")));
    roundtrip(Value::Str(String::from("naïve — ünïcode ✓")));
    roundtrip(Value::Bin(Vec::new()));
    roundtrip(Value::Bin(vec![0u8, 1, 2, 3, 255]));
    let big: Vec<u8> = (0..10_000u32).map(|i| (i % 251) as u8).collect();
    roundtrip(Value::Bin(big));
}

#[test]
fn value_decode_rejects_garbage() {
    assert!(matches!(decode_value(&vec![]), Err(Error::Encoding(_))));
    assert!(matches!(decode_value(&vec![0x77u8]), Err(Error::Encoding(_))));
    // a valid value followed by trailing bytes is refused whole
    let mut bytes = encode_value(&Value::U64(7)).unwrap();
    bytes.push(0);
    assert!(matches!(decode_value(&bytes), Err(Error::Encoding(_))));
    // a truncated value is refused
    let bytes = encode_value(&Value::U64(7)).unwrap();
    let cut = bytes[..bytes.len() - 1].to_vec();
    assert!(matches!(decode_value(&cut), Err(Error::Encoding(_))));
    // a length field pointing past the end is refused
    assert!(matches!(
        decode_value(&vec![0xdbu8, 0xff, 0xff, 0xff, 0xff, b'a']),
        Err(Error::Encoding(_))
    ));
    // invalid UTF-8 under a string tag is refused
    assert!(matches!(
        decode_value(&vec![0xdbu8, 0, 0, 0, 2, 0xff, 0xfe]),
        Err(Error::Encoding(_))
    ));
}

#[test]
fn request_roundtrip() {
    let object = ObjectID::new(String::from("calculator"), String::from("1.0"));
    let req = Request::new(object.clone(), String::from("Add"));
    let req = req.arg(&Value::F64(1.0f64.to_bits())).unwrap();
    let req = req.arg(&Value::F64(2.0f64.to_bits())).unwrap();
    let bytes = encode_request(&req).expect("encodable request");
    let back = decode_request(&bytes).expect("decodes");
    assert_eq!(back, req);
    assert_eq!(back.id, back.reply_to);
    assert_eq!(back.object, object);
    assert_eq!(back.method, String::from("Add"));
    assert_eq!(back.inputs.len(), 2);
}

#[test]
fn response_roundtrip_optional_fields_absent() {
    // both optional fields absent: no handler failure, no framework failure
    let resp = Response {
        id: String::from("some-correlation-id"),
        output: Output {
            data: encode_value(&Value::U64(9)).unwrap(),
            error: None,
        },
        error: None,
    };
    let bytes = encode_response(&resp).expect("encodable response");
    let back = decode_response(&bytes).expect("decodes");
    assert_eq!(back, resp);
}

#[test]
fn response_roundtrip_optional_fields_present() {
    let resp = Response {
        id: String::from("id-1"),
        output: Output {
            data: Vec::new(),
            error: Some(WireCallError::from(String::from("division by zero"))),
        },
        error: Some(String::from("unknown object 'calc'")),
    };
    let bytes = encode_response(&resp).expect("encodable response");
    let back = decode_response(&bytes).expect("decodes");
    assert_eq!(back, resp);
}

#[test]
fn request_decode_rejects_garbage() {
    assert!(decode_request(&vec![]).is_err());
    assert!(decode_request(&vec![0x85u8]).is_err());
    let v = encode_value(&Value::U64(3)).unwrap();
    assert!(decode_request(&v).is_err());
}

#[test]
fn tuple_entries_decode_independently() {
    // a Tuple of `a, b` gives exactly two entries; reading entry 0 does not
    // depend on what entry 1 holds
    let mut t = Tuple::new();
    t.add(&Value::Str(String::from("first"))).unwrap();
    t.add(&Value::Bin(vec![9u8, 9, 9])).unwrap();
    assert_eq!(t.len(), 2);
    assert_eq!(t.at(0).unwrap(), Value::Str(String::from("first")));
    assert_eq!(t.at(1).unwrap(), Value::Bin(vec![9u8, 9, 9]));
}

#[test]
fn tuple_index_past_length_is_out_of_range() {
    let mut t = Tuple::new();
    t.add(&Value::U64(1)).unwrap();
    match t.at(1) {
        Err(Error::ArgumentOutOfRange(i)) => assert_eq!(i, 1),
        other => panic!("expected ArgumentOutOfRange, got {:?}", other),
    }
    match t.at(17) {
        Err(Error::ArgumentOutOfRange(i)) => assert_eq!(i, 17),
        other => panic!("expected ArgumentOutOfRange, got {:?}", other),
    }
    let empty = Tuple::new();
    assert!(matches!(empty.at(0), Err(Error::ArgumentOutOfRange(0))));
}

#[test]
fn error_messages_are_exact() {
    assert_eq!(
        Error::UnknownObject(String::from("calc")).message(),
        String::from("unknown object 'calc'")
    );
    assert_eq!(
        Error::UnknownMethod(String::from("Mul")).message(),
        String::from("unknown method 'Mul'")
    );
    assert_eq!(
        Error::ArgumentOutOfRange(0).message(),
        String::from("no argument found at index 0")
    );
    assert_eq!(
        Error::ArgumentOutOfRange(1234).message(),
        String::from("no argument found at index 1234")
    );
    assert_eq!(
        Error::Protocol(String::from("bad envelope")).message(),
        String::from("protocol error: bad envelope")
    );
    assert_eq!(
        Error::Encoding(String::from("mismatch")).message(),
        String::from("encoding error: mismatch")
    );
    assert_eq!(
        Error::Call(qbus::error::CallError::from(String::from("boom"))).message(),
        String::from("remote call failed with error 'boom'")
    );
}

#[test]
fn object_key_forms() {
    let with_version = ObjectID::new(String::from("calculator"), String::from("1.0"));
    assert_eq!(with_version.key(), String::from("calculator@1.0"));
    let bare = ObjectID::new(String::from("tester"), String::new());
    assert_eq!(bare.key(), String::from("tester"));
}

#[test]
fn fresh_request_ids_are_collision_resistant_tokens() {
    let o = ObjectID::new(String::from("a"), String::new());
    let r1 = Request::new(o.clone(), String::from("m"));
    let r2 = Request::new(o, String::from("m"));
    assert_eq!(r1.id.len(), 36);
    assert_eq!(r1.id, r1.reply_to);
    assert_ne!(r1.id, r2.id);
    assert_eq!(r1.inputs.len(), 0);
}
