use fraud::budget::Budget;
use fraud::config::{configured_timeout, env_bool, env_usize};
use fraud::http::{
    check_length_in_range, find_content_length, find_headers_end, memchr_end, parse_request_head,
    Connection, Method, Step,
};
use fraud::index::{Index, SearchResult, Settings};
use fraud::report::{percentile, Comparison};
use fraud::scoring::{
    fraud_fifths, fraud_response, is_approved, ready_response, respond, score_body, score_within,
};
use fraud::single::Single;
use fraud::writer::IndexWriter;

fn single(value: f32) -> Single {
    Single { bits: value.to_bits() }
}

#[test]
fn headers_end_at_an_empty_line() {
    assert_eq!(find_headers_end(b"GET / HTTP/1.1\r\nHost: x\r\n\r\nbody"), Some(23));
    assert_eq!(find_headers_end(b"\r\n\r\n"), Some(0));
    assert_eq!(find_headers_end(b"\r\n\r"), None);
    assert_eq!(memchr_end(b"a\r\n\r\r\n\r\n\r\n"), Some(4));
    assert_eq!(memchr_end(b""), None);
}

#[test]
fn lengths_are_found_in_headers() {
    for (headers, length) in [
        ("POST /x HTTP/1.1\r\nContent-Length: 12\r\nHost: y", Some(12)),
        ("POST /x HTTP/1.1\r\ncontent-length:\t 7", Some(7)),
        ("CONTENT-LENGTH:5x", Some(5)),
        ("X-Content-Length: 3", Some(3)),
        ("Content-Length: \r\nContent-Length: 4", None),
        ("Content-Length 4", None),
        ("Content-Lengt", None),
        ("", None),
    ] {
        assert_eq!(find_content_length(headers.as_bytes()), length, "{headers}");
        assert!(check_length_in_range(headers.as_bytes()));
    }
    assert!(check_length_in_range(format!("Content-Length: {}", usize::MAX).as_bytes()));
    assert!(!check_length_in_range(b"Content-Length: 99999999999999999999999"));
    assert_eq!(parse_request_head(b"POST /s HTTP/1.1\r\nContent-Length: 9"), (Method::Post, 9));
    assert_eq!(parse_request_head(b"post /s"), (Method::Other, 0));
    assert_eq!(parse_request_head(b"GET /ready HTTP/1.1"), (Method::Other, 0));
}

#[test]
fn requests_are_framed_however_the_bytes_come() {
    let stream = b"POST /fraud-score HTTP/1.1\r\nContent-Length: 3\r\n\r\nabcGET /ready HTTP/1.1\r\n\r\nPOST / HTTP/1.1\r\n\r\n";
    for chunk in 1..stream.len() {
        let mut connection = Connection::new();
        let mut sent = 0;
        let mut seen: Vec<String> = Vec::new();
        loop {
            match connection.step() {
                Step::Read { room } => {
                    let n = chunk.min(room).min(stream.len() - sent);
                    if n == 0 {
                        break;
                    }
                    connection.received(&stream[sent..sent + n]);
                    sent += n;
                }
                Step::Score { from, to } => {
                    let body = connection.body(from, to).to_vec();
                    seen.push(format!("post {}", String::from_utf8(body).unwrap()));
                    connection.finish(to);
                }
                Step::Ready { to } => {
                    seen.push("ready".to_string());
                    connection.finish(to);
                }
                Step::Close => panic!("closed"),
            }
        }
        assert_eq!(seen, ["post abc", "ready", "post "], "{chunk}");
    }
}

#[test]
fn buffers_grow_as_needed() {
    let mut connection = Connection::new();
    assert!(matches!(connection.step(), Step::Read { room: 8192 }));
    connection.received(&[b'x'; 8192]);
    assert!(matches!(connection.step(), Step::Read { room: 8192 }));
    assert_eq!(connection.buf.len(), 16_384);

    let mut connection = Connection::new();
    let mut head = b"GET / HTTP/1.1\r\n\r\n".to_vec();
    head.extend_from_slice(&[b'y'; 8192 - 18]);
    connection.received(&head);
    let Step::Ready { to } = connection.step() else { panic!("not ready") };
    connection.finish(to);
    assert_eq!((connection.start, connection.filled), (18, 8192));
    assert!(matches!(connection.step(), Step::Read { room: 18 }));
    assert_eq!((connection.start, connection.filled), (0, 8192 - 18));
    assert!(connection.buf[..8192 - 18].iter().all(|b| *b == b'y'));

    let mut connection = Connection::new();
    let head = b"POST / HTTP/1.1\r\nContent-Length: 10000\r\n\r\n";
    connection.received(head);
    let room = head.len() + 10_000 - head.len();
    assert!(matches!(connection.step(), Step::Read { room: r } if r == room));
    connection.received(&[b'z'; 10_000]);
    let Step::Score { from, to } = connection.step() else { panic!("no body") };
    assert_eq!(connection.body(from, to), [b'z'; 10_000]);
    connection.finish(to);
    assert_eq!((connection.start, connection.filled), (0, 0));

    for length in ["18446744073709551615", "99999999999999999999999"] {
        let mut connection = Connection::new();
        connection.received(format!("POST / HTTP/1.1\r\nContent-Length: {length}\r\n\r\n").as_bytes());
        assert!(matches!(connection.step(), Step::Close));
    }
}

#[test]
fn answers_count_frauds() {
    for (n, approved, score) in [
        (0usize, true, "0.0"),
        (1, true, "0.2"),
        (2, true, "0.4"),
        (3, false, "0.6"),
        (4, false, "0.8"),
        (5, false, "1.0"),
        (9, false, "1.0"),
    ] {
        let body = format!("{{\"approved\":{approved},\"fraud_score\":{score}}}");
        let whole = format!(
            "HTTP/1.1 200 OK\r\nContent-Type: application/json\r\nContent-Length: {}\r\n\r\n{body}",
            body.len()
        );
        assert_eq!(fraud_response(n), whole);
        let fifths = n.min(5) as f32 / 5.0;
        assert_eq!(respond(SearchResult::Score(single(fifths))), whole);
        assert_eq!(fraud_fifths(single(fifths)), n.min(5));
        assert_eq!(is_approved(single(fifths)), approved);
        assert_eq!(is_approved(single(fifths)), fifths < 0.6);
    }
    assert_eq!(respond(SearchResult::TimedOut), fraud_response(0));
    assert_eq!(ready_response(), "HTTP/1.1 204 No Content\r\nContent-Length: 0\r\n\r\n");
    for value in [-1.0f32, -0.0, 0.09, 0.1, 0.3, 0.5, 0.7, 7.5, 1e30, f32::INFINITY, f32::NAN] {
        let expected = ((value * 5.0).round() as usize).min(5);
        assert_eq!(fraud_fifths(single(value)), expected, "{value}");
    }
}

#[test]
fn bodies_are_scored() {
    let (mut writer, mut image) = IndexWriter::start();
    let blank = fraud::fast_parse::parse_and_vectorize(b"{}").unwrap();
    for label in ["fraud", "fraud", "legit", "fraud", "fraud"] {
        image.extend_from_slice(&writer.add_record(&blank, label).unwrap());
    }
    image[..24].copy_from_slice(&writer.finish());
    let settings = Settings { ivf_nprobe: None, ivf_full_nprobe: None, ivf_repair: None, wide: true };
    let index = Index::open(&image, settings).ok().unwrap();
    let hour = 3_600_000_000_000;
    assert_eq!(score_body(&index, hour, b"{}"), fraud_response(4));
    assert_eq!(score_body(&index, hour, b"{"), fraud_response(0));
    assert_eq!(score_body(&index, 0, b"{}"), fraud_response(0));

    // Five records take one question.
    let mut budget = Budget::questions(1);
    assert_eq!(score_within(&index, b"{}", &mut budget), fraud_response(4));
    assert_eq!(score_within(&index, b"{}", &mut Budget::questions(0)), fraud_response(0));
    assert_eq!(score_within(&index, b"{", &mut Budget::unlimited()), fraud_response(0));
}

#[test]
fn settings_are_read_from_text() {
    assert_eq!(env_usize(None, 3), 3);
    assert_eq!(env_usize(Some("64"), 3), 64);
    for text in ["8", "+8", "008", "", "+", "-1", "8 ", "1x", "18446744073709551616", "\u{661}", "999999999999999999999"] {
        assert_eq!(env_usize(Some(text), 3), text.parse::<usize>().unwrap_or(3), "{text}");
    }
    for text in ["1", "true", "TRUE", "yes", "YES"] {
        assert!(env_bool(Some(text), false));
    }
    for text in ["0", "false", "FALSE", "no", "NO"] {
        assert!(!env_bool(Some(text), true));
    }
    for text in ["", "True", "on", "2"] {
        assert!(env_bool(Some(text), true));
        assert!(!env_bool(Some(text), false));
    }
    assert!(env_bool(None, true));
    assert_eq!(configured_timeout(None), 1_000_000);
    assert_eq!(configured_timeout(Some("3000")), 3_000_000);
    assert_eq!(configured_timeout(Some("0")), 1_000_000);
    assert_eq!(configured_timeout(Some("soon")), 1_000_000);
    assert_eq!(configured_timeout(Some("18446744073709551615")), u64::MAX as u128 * 1_000);
}

#[test]
fn figures_are_reported() {
    let values: Vec<u64> = (0..=200).map(|i| 10 * i).collect();
    assert_eq!(percentile(&values, 50), 1_000);
    assert_eq!(percentile(&values, 99), 1_980);
    assert_eq!(percentile(&[7], 95), 7);
    assert_eq!(percentile(&[7, 8], 99), 7);

    let mut comparison = Comparison::new();
    comparison.record(single(0.4), single(0.4));
    assert_eq!((comparison.score_mismatches, comparison.decision_mismatches), (0, 0));
    comparison.record(single(0.4), single(0.6));
    comparison.record(single(0.8), single(0.6));
    assert_eq!((comparison.score_mismatches, comparison.decision_mismatches), (2, 1));
    assert_eq!(comparison.max_delta, single((0.4f32 - 0.6).abs().max((0.8f32 - 0.6).abs())));
    comparison.record(single(f32::NAN), single(0.6));
    assert_eq!((comparison.score_mismatches, comparison.decision_mismatches), (2, 1));
}
