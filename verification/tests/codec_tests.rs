use kvs::codec::{decode_value, encode_value};
use kvs::error::KvError;
use kvs::framing::{decode_frame, encode_frame};
use kvs::pb::{value_eq, Value};

fn round_trip(v: Value) {
    let bytes = encode_value(&v);
    let back = decode_value(&bytes).unwrap();
    assert!(value_eq(&v, &back));
}

#[test]
fn value_codec_round_trips_every_variant() {
    round_trip(Value::Nil);
    round_trip(Value::of_str(""));
    round_trip(Value::of_str("hello world"));
    round_trip(Value::of_str("clé:été"));
    round_trip(Value::of_int(0));
    round_trip(Value::of_int(42));
    round_trip(Value::of_int(-1));
    round_trip(Value::of_int(i64::MAX));
    round_trip(Value::of_int(i64::MIN));
    round_trip(Value::of_bytes(vec![]));
    round_trip(Value::of_bytes(vec![0, 255, 1, 2, 3]));
    round_trip(Value::of_bool(true));
    round_trip(Value::of_bool(false));
}

#[test]
fn value_codec_rejects_garbage() {
    assert!(matches!(
        decode_value(&vec![]),
        Err(KvError::DecodeError)
    ));
    // unknown tag
    assert!(matches!(
        decode_value(&vec![9, 1, 2]),
        Err(KvError::DecodeError)
    ));
    // an empty value followed by trailing bytes
    assert!(matches!(
        decode_value(&vec![0, 0]),
        Err(KvError::DecodeError)
    ));
    // an integer record cut short
    assert!(matches!(
        decode_value(&vec![2, 0, 1]),
        Err(KvError::DecodeError)
    ));
    // text that is not valid UTF-8
    assert!(matches!(
        decode_value(&vec![1, 0xff, 0xfe]),
        Err(KvError::DecodeError)
    ));
    // a boolean with an out-of-range payload
    assert!(matches!(
        decode_value(&vec![4, 7]),
        Err(KvError::DecodeError)
    ));
}

#[test]
fn integer_encoding_is_not_the_identity() {
    let bytes = encode_value(&Value::of_int(-5));
    assert_eq!(bytes.len(), 10);
    assert_eq!(bytes[0], 2);
    assert_eq!(bytes[1], 1);
}

#[test]
fn frame_round_trip() {
    let payload = vec![10u8, 20, 30];
    let framed = encode_frame(&payload).unwrap();
    assert_eq!(framed.len(), 7);
    let (back, used) = decode_frame(&framed).unwrap();
    assert_eq!(used, 7);
    assert_eq!(back, payload);
}

#[test]
fn frame_decode_waits_for_full_payload() {
    let payload = vec![1u8, 2, 3, 4, 5];
    let mut framed = encode_frame(&payload).unwrap();
    // an incomplete buffer yields nothing
    assert!(decode_frame(&vec![5u8, 0, 0]).is_none());
    framed.pop();
    assert!(decode_frame(&framed).is_none());
}

#[test]
fn frame_decode_reads_only_one_frame() {
    let mut buf = encode_frame(&vec![7u8]).unwrap();
    let mut second = encode_frame(&vec![8u8, 9]).unwrap();
    buf.append(&mut second);
    let (payload, used) = decode_frame(&buf).unwrap();
    assert_eq!(payload, vec![7u8]);
    assert_eq!(used, 5);
}
