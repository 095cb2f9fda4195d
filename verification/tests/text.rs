use shapez::batch::{BatchError, JsonlDecoder};
use shapez::double::Double;
use shapez::json::text::{
    decode_json, is_shallow, parse_json, parse_records, read_json, DEEPEST_LINE,
};
use shapez::json::{Json, Number};

#[test]
fn a_document_is_read_part_by_part() {
    let text = r#" {"z": [null, true, "é\n"], "a": {"m": 1}, "z2": {}} "#;
    for j in [parse_json(text.as_bytes()).unwrap(), read_json(text).unwrap()] {
        let Json::Object(members) = j else { panic!("{j:?}") };
        let names: Vec<&str> = members.iter().map(|m| m.0.as_str()).collect();
        assert_eq!(names, ["a", "z", "z2"], "in the order of the names");
        let Json::Array(items) = &members[1].1 else { panic!("{members:?}") };
        assert!(matches!(items[0], Json::Null));
        assert!(matches!(items[1], Json::Bool(true)));
        assert!(matches!(&items[2], Json::Text(s) if s == "\u{e9}\n"));
        assert!(matches!(&members[2].1, Json::Object(m) if m.is_empty()));
    }
}

#[test]
fn numbers_are_of_three_kinds() {
    let number = |s: &str| match read_json(s) {
        Ok(Json::Number(n)) => n,
        other => panic!("{s}: {other:?}"),
    };
    assert!(matches!(number("0"), Number::Positive(0)));
    assert!(matches!(number("18446744073709551615"), Number::Positive(u64::MAX)));
    assert!(matches!(number("-1"), Number::Negative(-1)));
    assert!(matches!(number("-9223372036854775808"), Number::Negative(i64::MIN)));
    for (s, v) in [
        ("1.5", 1.5f64),
        ("-0.0", -0.0),
        ("1e3", 1000.0),
        ("18446744073709551616", 1.8446744073709552e19),
    ] {
        assert!(matches!(number(s), Number::Float(Double { bits }) if bits == v.to_bits()), "{s}");
    }
}

#[test]
fn the_last_of_equal_names_is_kept() {
    match parse_json(br#"{"a":1,"b":2,"a":3}"#) {
        Some(Json::Object(m)) => {
            assert_eq!(m.len(), 2);
            assert!(matches!(m[0].1, Json::Number(Number::Positive(3))));
        }
        other => panic!("{other:?}"),
    }
}

#[test]
fn what_is_no_document_is_told() {
    for s in ["", "{", "not valid", "[1,]", "1 2", "{\"a\":}", "nul"] {
        assert!(parse_json(s.as_bytes()).is_none(), "{s}");
        let want = serde_json::from_str::<serde_json::Value>(s).unwrap_err().to_string();
        assert_eq!(read_json(s).unwrap_err(), want, "{s}");
    }
    assert!(parse_json(b"\"\xff\"").is_none());
}

#[test]
fn records_that_are_no_document_are_left_out() {
    let lines = vec![b"1".to_vec(), b"{".to_vec(), b"\"x\"".to_vec(), b"".to_vec()];
    let docs = parse_records(&lines);
    assert_eq!(docs.len(), 2);
    assert!(matches!(docs[0], Json::Number(Number::Positive(1))));
    assert!(matches!(&docs[1], Json::Text(s) if s == "x"));
}

#[test]
fn a_decoded_line_may_go_on_behind_its_document() {
    assert!(matches!(decode_json("1 2"), Ok(Json::Number(Number::Positive(1)))));
    assert!(matches!(decode_json("[true]]"), Ok(Json::Array(v)) if v.len() == 1));
    assert!(decode_json("{\"a\"").is_err());
}

#[test]
fn a_decoder_reads_a_line() {
    assert!(matches!(JsonlDecoder.record(" \t\u{2003}"), Ok(None)));
    match JsonlDecoder.record(" {\"a\":[1]} ") {
        Ok(Some(Json::Object(m))) => assert_eq!(m[0].0, "a"),
        other => panic!("{other:?}"),
    }
    match JsonlDecoder.record("{not json}") {
        Err(BatchError::Source(e)) => {
            let want = serde_json::from_str::<serde_json::Value>("{not json}").unwrap_err();
            assert_eq!(e, want.to_string());
        }
        other => panic!("{other:?}"),
    }
}

fn spine(open: &str, inner: &str, close: &str, n: u64) -> String {
    let mut s = open.repeat(n as usize);
    s.push_str(inner);
    s.push_str(&close.repeat(n as usize));
    s
}

fn depth(j: &Json) -> u64 {
    let mut n = 0;
    let mut at = j;
    loop {
        at = match at {
            Json::Array(v) if v.len() == 1 => &v[0],
            Json::Object(m) if m.len() == 1 => &m[0].1,
            _ => return n,
        };
        n += 1;
    }
}

#[test]
fn a_line_is_decoded_down_to_the_deepest_one() {
    for (open, close) in [("[", "]"), ("{\"k\":", "}")] {
        let line = spine(open, "1", close, DEEPEST_LINE);
        assert!(is_shallow(&line));
        assert_eq!(depth(&JsonlDecoder.record(&line).unwrap().unwrap()), DEEPEST_LINE);
        assert!(!is_shallow(&spine(open, "1", close, DEEPEST_LINE + 1)));
        assert!(read_json(&line).is_err(), "a text is read to a limit");
        assert!(read_json(&spine(open, "1", close, 127)).is_ok());
        assert!(read_json(&spine(open, "1", close, 128)).is_err());
    }
    let quoted = format!("\"{}\\\"{}\"", "[".repeat(5000), "{".repeat(5000));
    assert!(is_shallow(&quoted));
    assert!(matches!(decode_json(&quoted), Ok(Json::Text(_))));
}
