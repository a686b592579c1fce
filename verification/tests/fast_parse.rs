use chrono::DateTime;
use fraud::fast_parse::{parse_and_vectorize, scan_unknown};
use fraud::json::Parser;
use fraud::payload::{
    Customer, FraudRequest, LastTransaction, Merchant, Terminal, Timestamp, Transaction,
};
use fraud::single::Single;
use fraud::vector::vectorize;
use serde_json::Value;

fn number(value: &Value) -> Single {
    Single { bits: (value.as_f64().unwrap() as f32).to_bits() }
}

fn moment(value: &Value) -> Timestamp {
    let at = DateTime::parse_from_rfc3339(value.as_str().unwrap()).unwrap().to_utc();
    Timestamp::new(at.timestamp(), at.timestamp_subsec_nanos()).unwrap()
}

fn text(value: &Value) -> String {
    value.as_str().unwrap().to_string()
}

fn request(payload: &[u8]) -> FraudRequest {
    let v: Value = serde_json::from_slice(payload).unwrap();
    let known = v["customer"]["known_merchants"].as_array().unwrap();
    FraudRequest {
        id: text(&v["id"]),
        transaction: Transaction {
            amount: number(&v["transaction"]["amount"]),
            installments: v["transaction"]["installments"].as_u64().unwrap() as u32,
            requested_at: moment(&v["transaction"]["requested_at"]),
        },
        customer: Customer {
            avg_amount: number(&v["customer"]["avg_amount"]),
            tx_count_24h: v["customer"]["tx_count_24h"].as_u64().unwrap() as u32,
            known_merchants: known.iter().map(text).collect(),
        },
        merchant: Merchant {
            id: text(&v["merchant"]["id"]),
            mcc: text(&v["merchant"]["mcc"]),
            avg_amount: number(&v["merchant"]["avg_amount"]),
        },
        terminal: Terminal {
            is_online: v["terminal"]["is_online"].as_bool().unwrap(),
            card_present: v["terminal"]["card_present"].as_bool().unwrap(),
            km_from_home: number(&v["terminal"]["km_from_home"]),
        },
        last_transaction: match &v["last_transaction"] {
            Value::Null => None,
            last => Some(LastTransaction {
                timestamp: moment(&last["timestamp"]),
                km_from_current: number(&last["km_from_current"]),
            }),
        },
    }
}

fn floats(vector: [Single; 14]) -> [f32; 14] {
    vector.map(|x| f32::from_bits(x.bits))
}

fn assert_close(a: [f32; 14], b: [f32; 14], eps: f32) {
    for (i, (x, y)) in a.iter().zip(b.iter()).enumerate() {
        assert!((x - y).abs() <= eps, "dim {i}: fast={x} ref={y}");
    }
}

const LEGIT: &[u8] = br#"{
      "id": "tx-1329056812",
      "transaction": { "amount": 41.12, "installments": 2, "requested_at": "2026-03-11T18:45:53Z" },
      "customer": { "avg_amount": 82.24, "tx_count_24h": 3, "known_merchants": ["MERC-003", "MERC-016"] },
      "merchant": { "id": "MERC-016", "mcc": "5411", "avg_amount": 60.25 },
      "terminal": { "is_online": false, "card_present": true, "km_from_home": 29.23 },
      "last_transaction": null
    }"#;

#[test]
fn matches_vectorize_for_official_legit() {
    let payload = LEGIT;
    let fast = floats(parse_and_vectorize(payload).expect("fast parser"));
    let req: FraudRequest = request(payload);
    let reference = floats(vectorize(&req));
    assert_close(fast, reference, 1e-5);
    assert_eq!(fast, reference);
}

#[test]
fn matches_vectorize_with_last_transaction() {
    let payload = br#"{
      "id": "tx-99",
      "transaction": { "amount": 1500.50, "installments": 6, "requested_at": "2026-04-20T03:15:00Z" },
      "customer": { "avg_amount": 200.00, "tx_count_24h": 12, "known_merchants": ["MERC-A"] },
      "merchant": { "id": "MERC-Z", "mcc": "7995", "avg_amount": 5000.0 },
      "terminal": { "is_online": true, "card_present": false, "km_from_home": 250.5 },
      "last_transaction": { "timestamp": "2026-04-20T02:45:30Z", "km_from_current": 12.7 }
    }"#;
    let fast = floats(parse_and_vectorize(payload).expect("fast parser"));
    let req: FraudRequest = request(payload);
    let reference = floats(vectorize(&req));
    assert_close(fast, reference, 1e-5);
    assert_eq!(fast, reference);
}

#[test]
fn matches_vectorize_for_known_merchant() {
    let payload = br#"{
      "id": "tx-1",
      "transaction": { "amount": 50.0, "installments": 1, "requested_at": "2025-01-01T00:00:00Z" },
      "customer": { "avg_amount": 75.0, "tx_count_24h": 1, "known_merchants": ["A","B","TARGET","C"] },
      "merchant": { "id": "TARGET", "mcc": "5411", "avg_amount": 50.0 },
      "terminal": { "is_online": true, "card_present": true, "km_from_home": 0.0 },
      "last_transaction": null
    }"#;
    let fast = floats(parse_and_vectorize(payload).expect("fast parser"));
    let req: FraudRequest = request(payload);
    let reference = floats(vectorize(&req));
    assert_close(fast, reference, 1e-5);
    assert_eq!(fast[11], 0.0);
}

#[test]
fn rejects_truncated() {
    assert!(parse_and_vectorize(b"{").is_none());
    assert!(parse_and_vectorize(b"{\"id\":").is_none());
}

#[test]
fn every_truncation_is_rejected_and_trailing_bytes_are_not_looked_at() {
    for n in 0..LEGIT.len() {
        assert!(parse_and_vectorize(&LEGIT[..n]).is_none(), "{n}");
    }
    let whole = parse_and_vectorize(LEGIT);
    let mut longer = LEGIT.to_vec();
    longer.extend_from_slice(b" } trailing");
    assert!(whole.is_some());
    assert_eq!(parse_and_vectorize(&longer), whole);
}

#[test]
fn blanks_before_a_request_change_nothing() {
    let payload = br#"{"transaction":{"amount":5000,"requested_at":"2026-03-11T18:45:53Z"}}"#;
    let expected = parse_and_vectorize(payload).unwrap();
    for blanks in ["", " ", "\t\r\n  ", "\n"] {
        let mut text = blanks.as_bytes().to_vec();
        text.extend_from_slice(payload);
        assert_eq!(floats(parse_and_vectorize(&text).unwrap()), floats(expected));
        text.extend_from_slice(b" and more");
        assert_eq!(floats(parse_and_vectorize(&text).unwrap()), floats(expected));
    }
    assert!(parse_and_vectorize(b"x{}").is_none());
}

#[test]
fn what_is_read_is_in_range() {
    for payload in [
        r#"{}"#,
        r#"{"transaction":{"amount":1e39,"installments":18446744073709551615},"last_transaction":null}"#,
        r#"{"customer":{"avg_amount":-1e39},"transaction":{"amount":-5},"last_transaction":{}}"#,
        r#"{"transaction":{"requested_at":"2026-03-11T23:59:59-11:59"},"terminal":{"km_from_home":1e-60}}"#,
    ] {
        let v = floats(parse_and_vectorize(payload.as_bytes()).unwrap());
        let has_last = payload.contains("\"last_transaction\":{");
        for (d, x) in v.iter().enumerate() {
            if (d == 5 || d == 6) && !has_last {
                assert_eq!(*x, -1.0, "{payload}");
            } else {
                assert!((0.0..=1.0).contains(x), "{payload} {d} {x}");
            }
        }
        assert!(v[9..12].iter().all(|x| *x == 0.0 || *x == 1.0));
    }
}

#[test]
fn offsets_agree_with_vectorize() {
    let payload = br#" {
      "id": "tx-1",
      "transaction": { "amount": 41.12, "installments": 2, "requested_at": "2026-03-11T18:45:53+03:00" },
      "customer": { "avg_amount": 82.24, "tx_count_24h": 3, "known_merchants": ["MERC-003" , "MERC-016"] },
      "merchant": { "id": "MERC-016", "mcc": "5411", "avg_amount": 60.25 },
      "terminal": { "is_online": false, "card_present": true, "km_from_home": 29.23 },
      "last_transaction": { "timestamp": "2026-03-11T17:30:21-02:30", "km_from_current": 12.5 }
    }"#;
    let fast = parse_and_vectorize(payload).unwrap();
    assert_eq!(floats(fast), floats(vectorize(&request(payload))));
}

#[test]
fn members_come_in_any_order_and_the_last_of_a_name_counts() {
    let a = parse_and_vectorize(
        br#" {"last_transaction":null,"extra":[1,{"x":"]"},[2]],"note":{"a":"}"},"t":true,"f":false,
            "n":null,"num":-1.5e3,"merchant":{"mcc":"7995","mcc":"5411","id":"m","avg_amount":5e2},
            "transaction":{"installments":3,"amount":1e2,"requested_at":"2026-04-20T03:15:00Z","z":{}}}"#,
    )
    .map(floats)
    .unwrap();
    assert_eq!(a[0], 0.01);
    assert_eq!(a[1], 0.25);
    assert_eq!(a[2], 1.0);
    assert_eq!(a[3], 3.0 / 23.0);
    assert_eq!(a[12], 0.15);
    assert_eq!(a[13], 0.05);
    assert_eq!(a[11], 1.0);
    assert_eq!(
        parse_and_vectorize(b"{}").map(floats).unwrap(),
        [0.0, 0.0, 0.0, 0.0, 0.0, -1.0, -1.0, 0.0, 0.0, 0.0, 0.0, 1.0, 0.5, 0.0]
    );
}

#[test]
fn malformed_requests_are_rejected() {
    for body in [
        "",
        "[]",
        "{\"id\":1}",
        "{\"id\":\"x\"",
        "{\"id\":\"x\",}",
        "{\"id\":\"x\" \"y\":1}",
        "{,\"id\":\"x\"}",
        "{\"id\" \"x\"}",
        "{\"a\":x}",
        "{\"a\":tru}",
        "{\"last_transaction\":nul}",
        "{\"last_transaction\":1}",
        "{\"transaction\":1}",
        "{\"transaction\":{\"amount\":\"1\"}}",
        "{\"transaction\":{\"amount\":1.2.3}}",
        "{\"transaction\":{\"installments\":-1}}",
        "{\"transaction\":{\"installments\":99999999999999999999}}",
        "{\"transaction\":{\"requested_at\":\"2026-04-20\"}}",
        "{\"customer\":{\"known_merchants\":[\"a\"}}",
        "{\"customer\":{\"known_merchants\":[\"a\\\"]}}",
        "{\"terminal\":{\"is_online\":1}}",
    ] {
        assert!(parse_and_vectorize(body.as_bytes()).is_none(), "{body}");
    }
    let whole = "{\"transaction\":{\"installments\":18446744073709551615}}";
    assert_eq!(parse_and_vectorize(whole.as_bytes()).map(floats).unwrap()[1], 1.0);
}

#[test]
fn merchants_are_found_among_quoted_texts() {
    assert!(!scan_unknown(b"\"A\", \"B\"", b"B"));
    assert!(!scan_unknown(b"\"A\", \"B", b"B"));
    assert!(scan_unknown(b"\"A\", \"BC\"", b"B"));
    assert!(scan_unknown(b"", b"B"));
    assert!(scan_unknown(b"\"\"", b""));
    assert!(scan_unknown(b"A", b"A"));
    assert!(!scan_unknown(b"\"A\"x\"B\"", b"B"));
    assert!(scan_unknown(b"\"A\",\"B\"", b","));
}

#[test]
fn scanner_stops_where_it_should() {
    let mut p = Parser::new(b"  \"a\\\"b\" [1,[2],\"]\"] {\"k\":\"}\"} -1.5e+3, true");
    p.skip_ws();
    assert_eq!(p.peek(), Some(b'"'));
    assert_eq!(p.skip_string(), Some(()));
    p.skip_ws();
    assert_eq!(p.parse_array_slice(), Some(&b"1,[2],\"]\""[..]));
    p.skip_ws();
    assert_eq!(p.skip_object(), Some(()));
    p.skip_ws();
    assert_eq!(p.parse_f32(), Some(Single { bits: (-1.5e3f32).to_bits() }));
    assert_eq!(p.expect(b';'), None);
    assert_eq!(p.expect(b','), Some(()));
    assert_eq!(p.skip_value(), Some(()));
    assert_eq!(p.peek(), None);
    assert_eq!(p.skip_value(), None);
    let mut p = Parser::new(b"12,\"x\\");
    assert_eq!(p.parse_uint(), Some(12));
    p.advance();
    assert_eq!(p.skip_string(), None);
    assert_eq!(Parser::new(b"x").parse_uint(), None);
    assert_eq!(Parser::new(b"null").parse_null(), Some(()));
    assert_eq!(Parser::new(b"false").parse_bool(), Some(false));
    assert_eq!(Parser::new(b"\"ab\"c").parse_string(), Some(&b"ab"[..]));
    assert_eq!(Parser::new(b"\"ab").parse_key(), None);
    assert_eq!(Parser::new(b"[{\"]\":1}]").skip_array_value(), Some(()));
    assert_eq!(Parser::new(b"[{]}").skip_array_value(), None);
    assert_eq!(Parser::new(b"-").skip_number(), Some(()));
}

/// The request with another text for `"id": "tx-1329056812",`.
fn with_first_member(member: &str) -> Vec<u8> {
    let text = std::str::from_utf8(LEGIT).unwrap();
    text.replace("\"id\": \"tx-1329056812\",", member).into_bytes()
}

#[test]
fn unknown_members_of_every_kind_are_passed_over() {
    let whole = parse_and_vectorize(LEGIT);
    assert!(whole.is_some());
    for value in [
        "\"tx\"",
        "\"\"",
        "\"a \\\"quoted\\\" } ] , \\\\\"",
        "\"\\u00e9\\n\\/\"",
        "0",
        "-12.5e+3",
        "true",
        "false",
        "null",
        "[]",
        "[ \n ]",
        "[1, [2, [\"]\"]], {\"a\": \"}\"}]",
        "{}",
        "{ \t }",
        "{\"amount\": 7, \"customer\": {\"avg_amount\": [1, {}]}, \"merchant\": \"{[\\\"\"}",
    ] {
        let member = format!("\"id\": \"x\", \"extra\" : {value} ,");
        let body = with_first_member(&member);
        assert_eq!(parse_and_vectorize(&body), whole, "{value}");
        assert_eq!(Some(vectorize(&request(&body))), whole, "{value}");
    }
}

#[test]
fn an_empty_list_of_merchants_may_hold_blanks() {
    for list in ["[]", "[ ]", "[ \r\n\t ]"] {
        let text = std::str::from_utf8(LEGIT).unwrap();
        let body = text.replace("[\"MERC-003\", \"MERC-016\"]", list).into_bytes();
        let fast = parse_and_vectorize(&body).expect("an empty list");
        assert_eq!(fast, vectorize(&request(&body)), "{list:?}");
        assert_eq!(floats(fast)[11], 1.0);
    }
}

#[test]
fn numbers_read_in_two_steps_give_close_vectors() {
    // Just above the middle of two numbers of single precision, and too close to it for one
    // of double precision to tell.
    let numeral = "1.000000059604644775390625000000001";
    let direct: f32 = numeral.parse().unwrap();
    let text = std::str::from_utf8(LEGIT).unwrap();
    let body = text
        .replace("41.12", numeral)
        .replace("82.24", numeral)
        .replace("60.25", numeral)
        .replace("29.23", numeral)
        .into_bytes();
    let mut req = request(&body);
    assert_eq!(req.transaction.amount.bits, 1f32.to_bits());
    assert_eq!(direct.to_bits(), 1f32.to_bits() + 1);
    let fast = parse_and_vectorize(&body).expect("fast parser");
    assert_close(floats(fast), floats(vectorize(&req)), 1e-5);

    let exact = Single { bits: direct.to_bits() };
    req.transaction.amount = exact;
    req.customer.avg_amount = exact;
    req.merchant.avg_amount = exact;
    req.terminal.km_from_home = exact;
    assert_eq!(fast, vectorize(&req));
}

#[test]
fn numbers_beyond_single_precision_are_read_alike() {
    let text = std::str::from_utf8(LEGIT).unwrap();
    for (amount, average, expected) in [
        ("1e39", "82.24", 1.0),
        ("41.12", "1e39", 0.0),
        ("-1e39", "82.24", 0.0),
    ] {
        let body = text.replace("41.12", amount).replace("82.24", average).into_bytes();
        let fast = parse_and_vectorize(&body).expect("fast parser");
        assert_eq!(fast, vectorize(&request(&body)));
        assert_eq!(floats(fast)[2], expected, "{amount} against {average}");
    }
}
