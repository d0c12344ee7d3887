//! The record and message codec: exact encodings, round trips, and
//! rejection of malformed text.

use kvs::codec::decode_record;
use kvs::codec::decode_request;
use kvs::codec::decode_response;
use kvs::codec::encode_record;
use kvs::codec::encode_request;
use kvs::codec::encode_response;
use kvs::decimal::usize_to_decimal;
use kvs::Record;
use kvs::Request;
use kvs::Response;

#[test]
fn decimal_of_zero() {
    assert_eq!(usize_to_decimal(0), "0");
}

#[test]
fn decimal_of_large_number() {
    assert_eq!(usize_to_decimal(1234567890), "1234567890");
}

#[test]
fn put_record_encodes_exactly() {
    let s = encode_record(&Record::Put("a".to_string(), "1".to_string()));
    assert_eq!(s, "S1 1 a1");
}

#[test]
fn remove_record_encodes_exactly() {
    let s = encode_record(&Record::Remove("key".to_string()));
    assert_eq!(s, "R3 key");
}

#[test]
fn empty_key_and_value_round_trip() {
    let s = encode_record(&Record::Put(String::new(), String::new()));
    assert_eq!(s, "S0 0 ");
    match decode_record(&s) {
        Some(Record::Put(k, v)) => {
            assert_eq!(k, "");
            assert_eq!(v, "");
        }
        other => panic!("wrong decode: {:?}", decoded_name(&other)),
    }
}

fn decoded_name(r: &Option<Record>) -> &'static str {
    match r {
        Some(Record::Put(_, _)) => "put",
        Some(Record::Remove(_)) => "remove",
        None => "none",
    }
}

#[test]
fn record_round_trip() {
    let cases = vec![
        Record::Put("a".to_string(), "1".to_string()),
        Record::Put("key with spaces".to_string(), "value 9 9".to_string()),
        Record::Put("12 34".to_string(), "56".to_string()),
        Record::Put("日本語".to_string(), "ちず".to_string()),
        Record::Remove("a".to_string()),
        Record::Remove(String::new()),
    ];
    for r in cases {
        let text = encode_record(&r);
        let back = decode_record(&text).expect("must decode");
        match (&r, &back) {
            (Record::Put(k1, v1), Record::Put(k2, v2)) => {
                assert_eq!(k1, k2);
                assert_eq!(v1, v2);
            }
            (Record::Remove(k1), Record::Remove(k2)) => assert_eq!(k1, k2),
            _ => panic!("variant changed by round trip"),
        }
    }
}

#[test]
fn malformed_records_are_rejected() {
    for bad in [
        "",
        "X",
        "S",
        "S1",
        "S1 ",
        "S1 1",
        "S1 1 ",
        "S1 1 a12",
        "S01 1 a1",
        "Sx 1 a1",
        "S1 1a1",
        "R3 ab",
        "R3 abcd",
        "R 3 ab",
        "s1 1 a1",
    ] {
        assert!(decode_record(bad).is_none(), "accepted: {:?}", bad);
    }
}

#[test]
fn unicode_lengths_count_characters() {
    // three characters, not nine bytes
    let s = encode_record(&Record::Remove("日本語".to_string()));
    assert_eq!(s, "R3 日本語");
}

#[test]
fn request_encodings() {
    assert_eq!(encode_request(&Request::Get("foo".to_string())), "G3 foo");
    assert_eq!(
        encode_request(&Request::Put("foo".to_string(), "bar".to_string())),
        "S3 3 foobar"
    );
    assert_eq!(encode_request(&Request::Remove("foo".to_string())), "R3 foo");
}

#[test]
fn request_round_trip() {
    let text = encode_request(&Request::Put("k".to_string(), "v".to_string()));
    match decode_request(&text) {
        Some(Request::Put(k, v)) => {
            assert_eq!(k, "k");
            assert_eq!(v, "v");
        }
        _ => panic!("wrong request decode"),
    }
    assert!(decode_request("Q3 foo").is_none());
    assert!(decode_request("").is_none());
}

#[test]
fn response_encodings() {
    assert_eq!(encode_response(&Response::Done(None)), "N");
    assert_eq!(
        encode_response(&Response::Done(Some("bar".to_string()))),
        "V3 bar"
    );
    assert_eq!(
        encode_response(&Response::Failed("oops".to_string())),
        "F4 oops"
    );
}

#[test]
fn response_round_trip() {
    match decode_response("V3 bar") {
        Some(Response::Done(Some(v))) => assert_eq!(v, "bar"),
        _ => panic!("wrong response decode"),
    }
    match decode_response("N") {
        Some(Response::Done(None)) => {}
        _ => panic!("wrong response decode"),
    }
    match decode_response("F2 xy") {
        Some(Response::Failed(m)) => assert_eq!(m, "xy"),
        _ => panic!("wrong response decode"),
    }
    assert!(decode_response("NN").is_none());
    assert!(decode_response("V3 barr").is_none());
}
