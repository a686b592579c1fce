use chrono::{DateTime, Datelike, Timelike};
use fraud::payload::{
    Customer, FraudRequest, LastTransaction, Merchant, Terminal, Timestamp, Transaction,
};
use fraud::single::Single;
use fraud::vector::{
    assemble, mcc_risk, mcc_risk_bytes, quantize, quantize_dim, quantize_i16, quantize_i16_dim,
    vectorize, Features,
};
use serde_json::Value;

fn single(value: f32) -> Single {
    Single { bits: value.to_bits() }
}

fn number(value: &Value) -> Single {
    single(value.as_f64().unwrap() as f32)
}

fn moment(value: &Value) -> Timestamp {
    let at = DateTime::parse_from_rfc3339(value.as_str().unwrap()).unwrap().to_utc();
    Timestamp::new(at.timestamp(), at.timestamp_subsec_nanos()).unwrap()
}

fn text(value: &Value) -> String {
    value.as_str().unwrap().to_string()
}

fn request(payload: &str) -> FraudRequest {
    let v: Value = serde_json::from_str(payload).unwrap();
    let known = v["customer"]["known_merchants"].as_array().unwrap();
    FraudRequest {
        id: text(&v["id"]),
        transaction: Transaction {
            amount: number(&v["transaction"]["amount"]),
            installments: v["transaction"]["installments"].as_u64().unwrap() as u32,
            requested_at: moment(&v["transaction"]["requested_at"]),
        },
        customer: Customer {
            avg_amount: number(&v["customer"]["avg_amount"]),
            tx_count_24h: v["customer"]["tx_count_24h"].as_u64().unwrap() as u32,
            known_merchants: known.iter().map(text).collect(),
        },
        merchant: Merchant {
            id: text(&v["merchant"]["id"]),
            mcc: text(&v["merchant"]["mcc"]),
            avg_amount: number(&v["merchant"]["avg_amount"]),
        },
        terminal: Terminal {
            is_online: v["terminal"]["is_online"].as_bool().unwrap(),
            card_present: v["terminal"]["card_present"].as_bool().unwrap(),
            km_from_home: number(&v["terminal"]["km_from_home"]),
        },
        last_transaction: match &v["last_transaction"] {
            Value::Null => None,
            last => Some(LastTransaction {
                timestamp: moment(&last["timestamp"]),
                km_from_current: number(&last["km_from_current"]),
            }),
        },
    }
}

fn floats(vector: [Single; 14]) -> [f32; 14] {
    vector.map(|x| f32::from_bits(x.bits))
}

#[test]
fn vectorizes_official_legit_example() {
    let payload = r#"{
      "id": "tx-1329056812",
      "transaction": { "amount": 41.12, "installments": 2, "requested_at": "2026-03-11T18:45:53Z" },
      "customer": { "avg_amount": 82.24, "tx_count_24h": 3, "known_merchants": ["MERC-003", "MERC-016"] },
      "merchant": { "id": "MERC-016", "mcc": "5411", "avg_amount": 60.25 },
      "terminal": { "is_online": false, "card_present": true, "km_from_home": 29.23 },
      "last_transaction": null
    }"#;
    let request: FraudRequest = request(payload);
    let vector = floats(vectorize(&request));

    assert!((vector[0] - 0.0041).abs() < 0.0001);
    assert!((vector[1] - 0.1667).abs() < 0.0001);
    assert!((vector[2] - 0.05).abs() < 0.0001);
    assert!((vector[3] - 0.7826).abs() < 0.0001);
    assert!((vector[4] - 0.3333).abs() < 0.0001);
    assert_eq!(vector[5], -1.0);
    assert_eq!(vector[6], -1.0);
    assert!((vector[7] - 0.0292).abs() < 0.0001);
    assert!((vector[8] - 0.15).abs() < 0.0001);
    assert_eq!(vector[9], 0.0);
    assert_eq!(vector[10], 1.0);
    assert_eq!(vector[11], 0.0);
    assert_eq!(vector[12], 0.15);
    assert!((vector[13] - 0.006).abs() < 0.0001);
}

#[test]
fn vectors_are_those_of_hardware_arithmetic() {
    let payload = r#"{
      "id": "tx-7",
      "transaction": { "amount": 1500.5, "installments": 6, "requested_at": "2026-04-20T03:15:00.5Z" },
      "customer": { "avg_amount": 213.7, "tx_count_24h": 12, "known_merchants": ["MERC-A"] },
      "merchant": { "id": "MERC-Z", "mcc": "7995", "avg_amount": 5017.3 },
      "terminal": { "is_online": true, "card_present": false, "km_from_home": 250.7 },
      "last_transaction": { "timestamp": "2026-04-20T02:45:30.25Z", "km_from_current": 12.7 }
    }"#;
    let vector = floats(vectorize(&request(payload)));
    let expected = [
        1500.5f32 / 10_000.0,
        6.0 / 12.0,
        (1500.5f32 / 213.7) / 10.0,
        3.0 / 23.0,
        0.0 / 6.0,
        (1770.0f32 / 60.0) / 1_440.0,
        12.7f32 / 1_000.0,
        250.7f32 / 1_000.0,
        12.0 / 20.0,
        1.0,
        0.0,
        1.0,
        0.85,
        5017.3f32 / 10_000.0,
    ];
    assert_eq!(vector, expected);
}

#[test]
fn components_are_held_between_zero_and_one() {
    let mut features = Features {
        amount: single(1e9),
        installments: 1_000,
        avg_amount: single(0.0),
        hour: 23,
        weekday: 6,
        last: Some((-5, single(-3.0))),
        km_from_home: single(f32::NAN),
        tx_count_24h: u64::MAX,
        is_online: true,
        card_present: true,
        unknown_merchant: false,
        risk: single(0.5),
        merchant_avg_amount: single(f32::INFINITY),
    };
    assert_eq!(
        floats(assemble(&features)),
        [1.0, 1.0, 1.0, 1.0, 1.0, 0.0, 0.0, 0.0, 1.0, 1.0, 1.0, 0.0, 0.5, 1.0]
    );
    features.amount = single(0.001);
    features.avg_amount = single(f32::NAN);
    features.last = None;
    let vector = floats(assemble(&features));
    assert_eq!(vector[2], (0.001f32 / 0.01) / 10.0);
    assert_eq!((vector[5], vector[6]), (-1.0, -1.0));
}

#[test]
fn categories_have_their_risk() {
    for (code, risk) in [
        ("5411", 0.15f32),
        ("5812", 0.30),
        ("5912", 0.20),
        ("5944", 0.45),
        ("7801", 0.80),
        ("7802", 0.75),
        ("7995", 0.85),
        ("4511", 0.35),
        ("5311", 0.25),
        ("5999", 0.50),
        ("0000", 0.50),
        ("54110", 0.50),
        ("", 0.50),
    ] {
        assert_eq!(mcc_risk(code), single(risk), "{code}");
        assert_eq!(mcc_risk_bytes(code.as_bytes()), single(risk), "{code}");
    }
}

#[test]
fn quantization_is_that_of_hardware_arithmetic() {
    let mut bits: u32 = 1;
    for step in 0..200_000u32 {
        bits = bits.wrapping_mul(1_664_525).wrapping_add(1_013_904_223);
        let value = if step % 2 == 0 {
            f32::from_bits(bits)
        } else {
            (bits >> 8) as f32 / (1u32 << 24) as f32
        };
        let clamped = if value.is_nan() { 0.0 } else { value.clamp(0.0, 1.0) };
        let byte = if value < 0.0 { 0 } else { (128.0 + clamped * 127.0).round() as u8 };
        let wide = if value < 0.0 { -10_000 } else { (clamped * 10_000.0).round() as i16 };
        assert_eq!(quantize_dim(single(value)), byte, "{value}");
        assert_eq!(quantize_i16_dim(single(value)), wide, "{value}");
    }
    for value in [0.0f32, -0.0, 1.0, 0.5, -1.0, f32::NAN, f32::INFINITY, f32::NEG_INFINITY] {
        let clamped = if value.is_nan() { 0.0 } else { value.clamp(0.0, 1.0) };
        let byte = if value < 0.0 { 0 } else { (128.0 + clamped * 127.0).round() as u8 };
        assert_eq!(quantize_dim(single(value)), byte, "{value}");
    }
    let vector = [single(0.25); 14];
    assert_eq!(quantize(&vector), [160; 14]);
    assert_eq!(quantize_i16(&vector), [2_500; 14]);
}

#[test]
fn quantization_keeps_the_order() {
    let values = [-1.0f32, -0.5, 0.0, 0.001, 0.0039, 0.004, 0.25, 0.5, 0.99996, 1.0, 2.0];
    for pair in values.windows(2) {
        assert!(quantize_dim(single(pair[0])) <= quantize_dim(single(pair[1])), "{pair:?}");
        assert!(quantize_i16_dim(single(pair[0])) <= quantize_i16_dim(single(pair[1])), "{pair:?}");
    }
    assert_eq!(quantize_dim(single(-0.5)), 0);
    assert_eq!(quantize_dim(single(0.0)), 128);
    assert_eq!(quantize_i16_dim(single(-0.5)), -10_000);
    assert_eq!(quantize_i16_dim(single(1.0)), 10_000);
    let mut bits: u32 = 7;
    for _ in 0..20_000 {
        bits = bits.wrapping_mul(1_664_525).wrapping_add(1_013_904_223);
        let value = (bits >> 8) as f32 / (1u32 << 24) as f32;
        let off = quantize_i16_dim(single(value)) as f64 - value as f64 * 10_000.0;
        assert!(off.abs() <= 0.501, "{value}");
    }
    assert_eq!(quantize_i16_dim(single(f32::NAN)), 0);
    assert_eq!(quantize_i16_dim(single(7.5)), 10_000);
}

#[test]
fn moments_are_those_of_chrono() {
    for text in [
        "1969-12-31T23:59:59.999Z",
        "1970-01-01T00:00:00Z",
        "2016-12-31T23:59:60Z",
        "2016-12-31T23:59:60.5Z",
        "2026-03-11T18:45:53Z",
        "2026-03-11T18:45:53.250Z",
        "2026-03-11T20:45:53+05:30",
        "0001-01-01T00:00:00Z",
    ] {
        let a = DateTime::parse_from_rfc3339(text).unwrap().to_utc();
        let x = Timestamp::new(a.timestamp(), a.timestamp_subsec_nanos()).unwrap();
        assert_eq!(x.hour(), a.hour(), "{text}");
        assert_eq!(x.weekday(), a.weekday().num_days_from_monday(), "{text}");
        for other in [
            "2016-12-31T23:59:60.75Z",
            "2016-12-31T23:59:59.75Z",
            "2017-01-01T00:00:00.25Z",
            "2026-03-11T18:45:54Z",
        ] {
            let b = DateTime::parse_from_rfc3339(other).unwrap().to_utc();
            let y = Timestamp::new(b.timestamp(), b.timestamp_subsec_nanos()).unwrap();
            let sod = |t: i64| t.rem_euclid(86_400);
            let leap = if sod(a.timestamp()) > sod(b.timestamp())
                && b.timestamp_subsec_nanos() >= 1_000_000_000
            {
                1
            } else if sod(a.timestamp()) < sod(b.timestamp())
                && a.timestamp_subsec_nanos() >= 1_000_000_000
            {
                -1
            } else {
                0
            };
            let nanos = (a.timestamp() - b.timestamp() + leap) as i128 * 1_000_000_000
                + a.timestamp_subsec_nanos() as i128
                - b.timestamp_subsec_nanos() as i128;
            assert_eq!(x.seconds_from(&y), (nanos / 1_000_000_000) as i64, "{text} {other}");
            assert_eq!(x.seconds_from(&y), (a - b).num_seconds(), "{text} {other}");
        }
    }
    assert!(Timestamp::new(-8_334_601_228_800, 0).is_some());
    assert!(DateTime::from_timestamp(-8_334_601_228_800, 0).is_some());
    assert!(Timestamp::new(-8_334_601_228_801, 0).is_none());
    assert!(DateTime::from_timestamp(-8_334_601_228_801, 0).is_none());
    assert!(Timestamp::new(8_210_266_876_799, 1_999_999_999).is_some());
    assert!(DateTime::from_timestamp(8_210_266_876_799, 1_999_999_999).is_some());
    assert!(Timestamp::new(8_210_266_876_800, 0).is_none());
    assert!(DateTime::from_timestamp(8_210_266_876_800, 0).is_none());
    assert!(Timestamp::new(58, 1_000_000_000).is_none());
    assert!(Timestamp::new(59, 1_000_000_000).is_some());
    assert!(Timestamp::new(-1, 1_000_000_000).is_some());
    assert!(Timestamp::new(59, 2_000_000_000).is_none());
}
