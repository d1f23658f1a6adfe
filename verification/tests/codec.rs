//! Round trips and error cases of the wire codec.

use livemod::{DeserializeError, Fields, Namespaced, Parameter, Repr, Value};

fn roundtrip(p: Parameter<Value>) -> Parameter<Value> {
    let bytes = p.serialize();
    let (q, consumed) = Parameter::<Value>::deserialize(&bytes).expect("parse failed");
    assert_eq!(consumed, bytes.len());
    q
}

#[test]
fn roundtrip_signed() {
    for v in [0i64, 1, -1, 42, -9000, i64::MIN, i64::MAX] {
        match roundtrip(Parameter::SignedInt(v)) {
            Parameter::SignedInt(w) => assert_eq!(v, w),
            other => panic!("wrong kind: {:?}", other),
        }
    }
}

#[test]
fn roundtrip_unsigned() {
    for v in [0u64, 1, 10, 4294967295, u64::MAX] {
        match roundtrip(Parameter::UnsignedInt(v)) {
            Parameter::UnsignedInt(w) => assert_eq!(v, w),
            other => panic!("wrong kind: {:?}", other),
        }
    }
}

#[test]
fn roundtrip_float_text() {
    let x: f64 = 6.4;
    let text = x.to_string();
    match roundtrip(Parameter::Float(text.clone())) {
        Parameter::Float(t) => {
            assert_eq!(t, text);
            let back: f64 = t.parse().unwrap();
            assert_eq!(back, x);
        },
        other => panic!("wrong kind: {:?}", other),
    }
}

#[test]
fn roundtrip_bool() {
    assert!(matches!(roundtrip(Parameter::Bool(true)), Parameter::Bool(true)));
    assert!(matches!(roundtrip(Parameter::Bool(false)), Parameter::Bool(false)));
}

#[test]
fn roundtrip_string() {
    for s in ["", "hello", "with;delims={}:", "unicode \u{30c6} text", "sp ace"] {
        match roundtrip(Parameter::String(s.to_owned())) {
            Parameter::String(t) => assert_eq!(t, s),
            other => panic!("wrong kind: {:?}", other),
        }
    }
}

#[test]
fn roundtrip_namespaced() {
    let mut inner = Fields::<Value>::new();
    inner.insert("flag".to_owned(), Parameter::Bool(true));
    let nested = Namespaced::new(
        vec!["livemod".to_owned(), "struct".to_owned()],
        inner,
    );
    let mut outer = Fields::<Value>::new();
    outer.insert("count".to_owned(), Parameter::UnsignedInt(5));
    outer.insert("label".to_owned(), Parameter::String("hi".to_owned()));
    outer.insert("sub".to_owned(), Parameter::Namespaced(nested));
    let tree = Namespaced::new(vec!["livemod".to_owned(), "struct".to_owned()], outer);
    let bytes = tree.serialize();
    let (back, consumed) = Namespaced::<Value>::deserialize(&bytes).expect("parse failed");
    assert_eq!(consumed, bytes.len());
    // order-preserving structural equality, checked through re-serialization
    assert_eq!(back.serialize(), bytes);
    assert_eq!(back.name, vec!["livemod".to_owned(), "struct".to_owned()]);
    assert_eq!(back.parameters.len(), 3);
    match back.parameters.get(&"count".to_owned()) {
        Some(Parameter::UnsignedInt(5)) => {},
        other => panic!("wrong count entry: {:?}", other),
    }
}

#[test]
fn serialize_exact_bytes() {
    assert_eq!(Parameter::<Value>::UnsignedInt(5).serialize(), b"u5".to_vec());
    assert_eq!(Parameter::<Value>::SignedInt(-17).serialize(), b"i-17".to_vec());
    assert_eq!(Parameter::<Value>::Bool(true).serialize(), b"t".to_vec());
    assert_eq!(Parameter::<Value>::Bool(false).serialize(), b"f".to_vec());
    assert_eq!(
        Parameter::<Value>::String("ab".to_owned()).serialize(),
        b"s2-ab".to_vec()
    );
    assert_eq!(
        Parameter::<Value>::Float("6.4".to_owned()).serialize(),
        b"d6.4".to_vec()
    );
    let empty = Namespaced::<Value>::new(
        vec!["livemod".to_owned(), "trigger".to_owned()],
        Fields::new(),
    );
    assert_eq!(
        Parameter::Namespaced(empty).serialize(),
        b"nlivemod:trigger{}".to_vec()
    );
}

#[test]
fn error_unexpected_eof() {
    let r = Namespaced::<Value>::deserialize(&b"livemod".to_vec());
    assert!(matches!(r, Err(DeserializeError::UnexpectedEOF)));
    let r2 = Parameter::<Value>::deserialize(&Vec::new());
    assert!(matches!(r2, Err(DeserializeError::UnexpectedEOF)));
}

#[test]
fn error_invalid_parameter() {
    let r = Parameter::<Value>::deserialize(&b"x1".to_vec());
    assert!(matches!(r, Err(DeserializeError::InvalidParameter(b'x'))));
}

#[test]
fn error_unexpected_terminator() {
    // a `}` inside a field key: the error carries the partial key
    let r = Namespaced::<Value>::deserialize(&b"a{key}".to_vec());
    match r {
        Err(DeserializeError::UnexpectedTerminator { previous }) => {
            assert_eq!(previous, "key");
        },
        other => panic!("wrong result: {:?}", other),
    }
    // a non-UTF-8 partial key is decoded lossily
    let r2 = Namespaced::<Value>::deserialize(&vec![b'a', b'{', b'k', 0xff, b'}']);
    match r2 {
        Err(DeserializeError::UnexpectedTerminator { previous }) => {
            assert_eq!(previous, "k\u{fffd}");
        },
        other => panic!("wrong result: {:?}", other),
    }
}

#[test]
fn error_non_utf8() {
    let r = Parameter::<Value>::deserialize(&vec![b's', b'2', b'-', 0xff, 0xfe]);
    assert!(matches!(r, Err(DeserializeError::NonUTF8)));
}

#[test]
fn error_invalid_number() {
    let r = Parameter::<Value>::deserialize(&b"i;".to_vec());
    assert!(matches!(r, Err(DeserializeError::InvalidNumber)));
    // overflowing unsigned numeral
    let r2 = Parameter::<Value>::deserialize(&b"u99999999999999999999".to_vec());
    assert!(matches!(r2, Err(DeserializeError::InvalidNumber)));
    // a sign inside an unsigned numeral
    let r3 = Parameter::<Value>::deserialize(&b"u1-2".to_vec());
    assert!(matches!(r3, Err(DeserializeError::InvalidNumber)));
}

#[test]
fn fields_insert_replaces_in_place() {
    let mut f = Fields::<Repr>::new();
    f.insert("a".to_owned(), Parameter::UnsignedInt(1));
    f.insert("b".to_owned(), Parameter::UnsignedInt(2));
    f.insert("a".to_owned(), Parameter::UnsignedInt(9));
    assert_eq!(f.len(), 2);
    let first = f.entry_at(0);
    assert_eq!(first.0, "a");
    assert!(matches!(first.1, Parameter::UnsignedInt(9)));
    let second = f.entry_at(1);
    assert_eq!(second.0, "b");
}

#[test]
fn accessors() {
    let p = Parameter::<Value>::UnsignedInt(7);
    assert_eq!(p.as_unsigned_int(), Some(&7));
    assert_eq!(p.as_signed_int(), None);
    assert_eq!(p.try_into_unsigned_int().unwrap(), 7);
    let q = Parameter::<Value>::String("x".to_owned());
    assert!(q.as_string().is_some());
    let back = q.try_into_signed_int().unwrap_err();
    assert!(matches!(back, Parameter::String(_)));
}
