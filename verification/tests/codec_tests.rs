use order_pipeline::codec::QueryReply;
use order_pipeline::codec::encode_normalized;
use order_pipeline::codec::encode_order;
use order_pipeline::codec::encode_query;
use order_pipeline::codec::encode_reply;
use order_pipeline::codec::parse_normalized;
use order_pipeline::codec::parse_order;
use order_pipeline::codec::parse_query;
use order_pipeline::codec::parse_reply;
use order_pipeline::types::Data;
use order_pipeline::types::OrderDetailPayload;
use order_pipeline::types::OrderPayload;
use order_pipeline::types::OrderQuery;
use order_pipeline::types::OrderRecord;

fn sample_payload() -> OrderPayload {
    OrderPayload {
        location: String::from("taipei-101"),
        timestamp: String::from("2023-01-01T00:00:00Z"),
        data: Data { a: 1, b: 2, c: 3, d: 4 },
    }
}

#[test]
fn order_round_trip_plain() {
    let p = sample_payload();
    let bytes = encode_order(&p);
    let back = parse_order(&bytes).expect("canonical document must parse");
    assert_eq!(back.location, "taipei-101");
    assert_eq!(back.timestamp, "2023-01-01T00:00:00Z");
    assert_eq!(back.data, Data { a: 1, b: 2, c: 3, d: 4 });
}

#[test]
fn order_wire_format_is_canonical_json() {
    let p = sample_payload();
    let bytes = encode_order(&p);
    assert_eq!(
        String::from_utf8(bytes).unwrap(),
        "{\"location\":\"taipei-101\",\"timestamp\":\"2023-01-01T00:00:00Z\",\
         \"data\":{\"a\":1,\"b\":2,\"c\":3,\"d\":4}}"
    );
}

#[test]
fn order_wire_format_agrees_with_a_json_reader() {
    let p = OrderPayload {
        location: String::from("line\nbreak \"quoted\" back\\slash"),
        timestamp: String::from("2023-01-01T00:00:00Z"),
        data: Data { a: -5, b: 0, c: 2147483647, d: -2147483648 },
    };
    let bytes = encode_order(&p);
    let v: serde_json::Value = serde_json::from_slice(&bytes).expect("valid JSON");
    assert_eq!(v["location"], "line\nbreak \"quoted\" back\\slash");
    assert_eq!(v["data"]["a"], -5);
    assert_eq!(v["data"]["c"], 2147483647i64);
    assert_eq!(v["data"]["d"], -2147483648i64);
}

#[test]
fn order_round_trip_with_escapes_and_unicode() {
    let p = OrderPayload {
        location: String::from("store \"A\" \\ tab\there\nnew 店"),
        timestamp: String::from("2023-06-30T12:34:56+08:00"),
        data: Data { a: -1, b: -2147483648, c: 2147483647, d: 0 },
    };
    let bytes = encode_order(&p);
    let back = parse_order(&bytes).expect("round trip");
    assert_eq!(back.location, p.location);
    assert_eq!(back.timestamp, p.timestamp);
    assert_eq!(back.data, p.data);
}

#[test]
fn order_parser_accepts_standard_escapes() {
    let doc = b"{\"location\":\"\\u0041\\t\\\"x\\\"\",\"timestamp\":\"t\",\"data\":{\"a\":1,\"b\":2,\"c\":3,\"d\":4}}";
    let back = parse_order(doc).expect("escapes");
    assert_eq!(back.location, "A\t\"x\"");
}

#[test]
fn malformed_orders_are_rejected() {
    assert!(parse_order(b"").is_none());
    assert!(parse_order(b"{").is_none());
    assert!(parse_order(b"not json at all").is_none());
    assert!(parse_order(b"{\"location\":\"x\"}").is_none());
    // trailing garbage after a well-formed document
    let mut bytes = encode_order(&sample_payload());
    bytes.push(b' ');
    assert!(parse_order(&bytes).is_none());
    // an integer out of the i32 range
    let doc = b"{\"location\":\"x\",\"timestamp\":\"t\",\"data\":{\"a\":2147483648,\"b\":0,\"c\":0,\"d\":0}}";
    assert!(parse_order(doc).is_none());
    // invalid UTF-8 inside the location content
    let mut doc2: Vec<u8> = Vec::new();
    doc2.extend_from_slice(b"{\"location\":\"");
    doc2.push(0xff);
    doc2.extend_from_slice(b"\",\"timestamp\":\"t\",\"data\":{\"a\":1,\"b\":2,\"c\":3,\"d\":4}}");
    assert!(parse_order(&doc2).is_none());
}

#[test]
fn normalized_round_trip() {
    let n = OrderDetailPayload {
        location: String::from("kaohsiung"),
        timestamp: 1672531200,
        signature: String::from("sig=="),
        material: -17,
        a: 10,
        b: 20,
        c: 30,
        d: 40,
    };
    let bytes = encode_normalized(&n);
    assert_eq!(
        String::from_utf8(bytes.clone()).unwrap(),
        "{\"location\":\"kaohsiung\",\"timestamp\":1672531200,\"signature\":\"sig==\",\
         \"material\":-17,\"a\":10,\"b\":20,\"c\":30,\"d\":40}"
    );
    let back = parse_normalized(&bytes).expect("round trip");
    assert_eq!(back.location, n.location);
    assert_eq!(back.timestamp, 1672531200);
    assert_eq!(back.signature, "sig==");
    assert_eq!(back.material, -17);
    assert_eq!((back.a, back.b, back.c, back.d), (10, 20, 30, 40));
}

#[test]
fn normalized_extreme_timestamps_round_trip() {
    for ts in [i64::MIN, -1, 0, 1, i64::MAX] {
        let n = OrderDetailPayload {
            location: String::from("x"),
            timestamp: ts,
            signature: String::new(),
            material: 0,
            a: 0,
            b: 0,
            c: 0,
            d: 0,
        };
        let back = parse_normalized(&encode_normalized(&n)).expect("round trip");
        assert_eq!(back.timestamp, ts);
    }
}

#[test]
fn malformed_normalized_is_rejected() {
    assert!(parse_normalized(b"").is_none());
    assert!(parse_normalized(b"{\"location\":\"x\",\"timestamp\":\"notanumber\"}").is_none());
    // leading zeros are not canonical
    let doc = b"{\"location\":\"x\",\"timestamp\":007,\"signature\":\"s\",\"material\":1,\"a\":1,\"b\":1,\"c\":1,\"d\":1}";
    assert!(parse_normalized(doc).is_none());
}

#[test]
fn query_round_trip() {
    let q = OrderQuery { location: String::from("taipei-101"), date: String::from("2023-01-01") };
    let bytes = encode_query(&q);
    assert_eq!(
        String::from_utf8(bytes.clone()).unwrap(),
        "{\"location\":\"taipei-101\",\"date\":\"2023-01-01\"}"
    );
    let back = parse_query(&bytes).expect("round trip");
    assert_eq!(back.location, q.location);
    assert_eq!(back.date, q.date);
    assert!(parse_query(b"{\"location\":\"x\"}").is_none());
}

fn sample_record(suffix: &str, a: i32) -> OrderRecord {
    OrderRecord {
        location: format!("loc-{suffix}"),
        timestamp: String::from("2023-01-01T08:00:00+08:00"),
        signature: format!("sig-{suffix}"),
        material: 7,
        a,
        b: 2,
        c: 3,
        d: 4,
    }
}

#[test]
fn reply_round_trip_records() {
    let records = vec![sample_record("one", 1), sample_record("two", 2)];
    let bytes = encode_reply(&QueryReply::Records(records));
    let v: serde_json::Value = serde_json::from_slice(&bytes).expect("valid JSON array");
    assert_eq!(v.as_array().unwrap().len(), 2);
    assert_eq!(v[0]["location"], "loc-one");
    assert_eq!(v[1]["a"], 2);
    match parse_reply(&bytes) {
        Some(QueryReply::Records(rs)) => {
            assert_eq!(rs.len(), 2);
            assert_eq!(rs[0].location, "loc-one");
            assert_eq!(rs[0].a, 1);
            assert_eq!(rs[1].signature, "sig-two");
        }
        other => panic!("expected records, got {other:?}"),
    }
}

#[test]
fn reply_round_trip_empty_and_failed() {
    let bytes = encode_reply(&QueryReply::Records(Vec::new()));
    assert_eq!(bytes, b"[]");
    match parse_reply(&bytes) {
        Some(QueryReply::Records(rs)) => assert!(rs.is_empty()),
        other => panic!("expected empty records, got {other:?}"),
    }
    let failed = encode_reply(&QueryReply::Failed);
    assert_eq!(String::from_utf8(failed.clone()).unwrap(), "{\"error\":\"query\"}");
    match parse_reply(&failed) {
        Some(QueryReply::Failed) => {}
        other => panic!("expected the error sentinel, got {other:?}"),
    }
    assert!(parse_reply(b"").is_none());
    assert!(parse_reply(b"[oops]").is_none());
    assert!(parse_reply(b"{\"error\":\"other\"}").is_none());
}
