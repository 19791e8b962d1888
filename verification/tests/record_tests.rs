//! Records, their lines, and JSON values.

use serde_json::Value;
use wintermute_lucid::fields::{values_of, Outer};
use wintermute_lucid::index::{BadIndexEntry, IndexEntry};
use wintermute_lucid::record::{default_schema_version, RecordError};
use wintermute_lucid::{Payload, Record};

fn text(t: &str) -> Payload {
    Payload::Text(t.to_string())
}

fn object(members: &[(&str, Payload)]) -> Payload {
    Payload::Object(members.iter().map(|(k, v)| (k.to_string(), v.clone())).collect())
}

/// The payload that a `serde_json` value stands for.
fn payload(value: &Value) -> Payload {
    match value {
        Value::Null => Payload::Null,
        Value::Bool(b) => Payload::Bool(*b),
        Value::Number(n) => {
            if let Some(u) = n.as_u64() {
                Payload::UInt(u)
            } else if let Some(i) = n.as_i64() {
                Payload::Int(i)
            } else {
                Payload::Float(n.to_string())
            }
        }
        Value::String(t) => Payload::Text(t.clone()),
        Value::Array(v) => Payload::Array(v.iter().map(payload).collect()),
        Value::Object(m) => {
            Payload::Object(m.iter().map(|(k, v)| (k.clone(), payload(v))).collect())
        }
    }
}

fn line_with(raw_payload: &str) -> String {
    format!("{{\"v\":1,\"ts_received\":5,\"topic\":\"t\",\"from\":\"f\",\"raw_payload\":{raw_payload}}}")
}

#[test]
fn a_record_is_written_field_by_field() {
    let tagged = Record::new(
        7,
        "wm.a".to_string(),
        "peer".to_string(),
        object(&[("n", Payload::Int(-3)), ("turn_id", text("t\n1"))]),
    );
    assert_eq!(tagged.correlation_key(), "t\n1");
    assert_eq!(
        tagged.to_ndjson().expect("line"),
        "{\"v\":1,\"ts_received\":7,\"topic\":\"wm.a\",\"turn_id\":\"t\\n1\",\"from\":\"peer\",\"raw_payload\":{\"n\":-3,\"turn_id\":\"t\\n1\"}}"
    );
    let bare = Record::new(u64::MAX, String::new(), String::new(), Payload::Null);
    assert_eq!(bare.correlation_key(), "untagged-18446744073709551615");
    assert_eq!(
        bare.to_ndjson().expect("line"),
        "{\"v\":1,\"ts_received\":18446744073709551615,\"topic\":\"\",\"from\":\"\",\"raw_payload\":null}"
    );
    assert_eq!(default_schema_version(), 1);
}

#[test]
fn a_line_is_what_serde_json_reads_too() {
    let rec = Record::new(
        9,
        "wm.\"x\"".to_string(),
        "p\u{7f}\u{0}".to_string(),
        object(&[("a", Payload::Array(vec![Payload::Bool(true), Payload::UInt(2)]))]),
    );
    let line = rec.to_ndjson().expect("line");
    let value: Value = serde_json::from_str(&line).expect("json");
    assert_eq!(value.get("topic").and_then(Value::as_str), Some("wm.\"x\""));
    assert_eq!(value.get("from").and_then(Value::as_str), Some("p\u{7f}\u{0}"));
    assert_eq!(value.get("raw_payload").map(payload), Some(rec.raw_payload.clone()));
    assert_eq!(Record::from_ndjson(&line), Ok(rec));
}

#[test]
fn payloads_are_written_as_serde_json_writes_them() {
    let samples = [
        "null",
        "true",
        "false",
        "0",
        "18446744073709551615",
        "-1",
        "-9223372036854775808",
        "0.5",
        "-0.0",
        "1e300",
        "1.5e-7",
        "\"\"",
        "\"a\\\"b\\\\c\\/\\b\\f\\n\\r\\t\\u0001\\u001f\\u00e9\\ud83d\\ude00\"",
        "[]",
        "{}",
        "[1,[2,[3]],{\"a\":{}}]",
        "{\"b\":1,\"a\":[true,null],\"\\n\":\"x\"}",
    ];
    for sample in samples {
        let value: Value = serde_json::from_str(sample).expect("json");
        assert_eq!(payload(&value).to_json(), value.to_string(), "{sample}");
    }
}

#[test]
fn every_character_is_quoted_as_serde_json_quotes_it() {
    for c in (0..0x3000u32).chain(0xfff0..0x10010).filter_map(char::from_u32) {
        let t = format!("x{c}y");
        assert_eq!(text(&t).to_json(), Value::String(t).to_string());
    }
}

#[test]
fn payloads_are_read_as_serde_json_reads_them() {
    for raw in [
        "null",
        "[1,-1,1.5,\"\\u00e9\",true]",
        "{\"z\":1,\"a\":{\"y\":[],\"b\":{}}}",
        "{\"a\":1,\"a\":2}",
        "1e2",
        "-0",
        "18446744073709551616",
        "0.1",
    ] {
        let value: Value = serde_json::from_str(raw).expect("json");
        let rec = Record::from_ndjson(&line_with(raw)).expect("record");
        assert_eq!(rec.raw_payload, payload(&value), "{raw}");
    }
}

#[test]
fn a_written_record_reads_back() {
    let mut nested = Payload::UInt(1);
    for i in 0..126 {
        nested = if i % 2 == 0 {
            Payload::Array(vec![nested])
        } else {
            object(&[("k", nested)])
        };
    }
    for raw_payload in [
        nested,
        Payload::Null,
        text("\u{0}\u{1f}\"\\\u{2028}é😀"),
        object(&[("", Payload::Int(i64::MIN)), ("a\"b", Payload::UInt(u64::MAX))]),
        object(&[("score", Payload::Float("0.99".to_string())), ("turn_id", text("t"))]),
    ] {
        let rec = Record::new(3, "wm.a".to_string(), "p".to_string(), raw_payload);
        let line = rec.to_ndjson().expect("line");
        assert!(!line.contains('\n') && !line.contains('\r'));
        assert_eq!(Record::from_ndjson(&line), Ok(rec));
    }
    let mut deep = Payload::UInt(1);
    for _ in 0..127 {
        deep = Payload::Array(vec![deep]);
    }
    let rec = Record::new(3, "wm.a".to_string(), "p".to_string(), deep);
    let line = rec.to_ndjson().expect("line");
    assert_eq!(Record::from_ndjson(&line), Err(RecordError::NotARecord));
}

#[test]
fn members_that_a_record_has_no_field_for_are_skipped() {
    let deep = format!("{}1{}", "[".repeat(300), "]".repeat(300));
    let plain = Record::from_ndjson(&line_with("{\"a\":[1,2]}")).expect("record");
    for extra in [
        "1e999",
        "\"\\ud800\"",
        "-0.5",
        "{\"topic\":5,\"v\":[{\"from\":null}]}",
        "\"a,b:c}d]e\\\"f\"",
        "[ ]",
        deep.as_str(),
    ] {
        let line = line_with(&format!("{{\"a\":[1,2]}},\"later\":{extra},\"later\": 2 "));
        assert_eq!(Record::from_ndjson(&line).as_ref(), Ok(&plain), "{extra}");
        let first = line_with("{\"a\":[1,2]}").replacen('{', &format!("{{\"later\":{extra},"), 1);
        assert_eq!(Record::from_ndjson(&first).as_ref(), Ok(&plain), "{extra}");
    }
    for refused in ["01", "1.", "\"\u{1}\"", "[1,]", "{\"k\" 1}", "tru", "\"\\x\""] {
        let line = line_with(&format!("0,\"later\":{refused}"));
        assert_eq!(Record::from_ndjson(&line), Err(RecordError::NotJson), "{refused}");
    }
    let line = line_with("0,\"\\ud800\":1");
    assert_eq!(Record::from_ndjson(&line), Err(RecordError::NotARecord));
}

#[test]
fn the_payload_of_a_record_is_read_whole() {
    for refused in ["1e999", "\"\\ud800\"", "{\"k\":[\"\\udc00\"]}"] {
        assert_eq!(
            Record::from_ndjson(&line_with(refused)),
            Err(RecordError::NotARecord),
            "{refused}"
        );
    }
    let listed = |raw: &str| format!("[1,5,\"t\",\"id\" , \"f\",{raw}]");
    assert!(Record::from_ndjson(&listed("[[],{\"a\":\",\"}]")).is_ok());
    assert_eq!(Record::from_ndjson(&listed("1e999")), Err(RecordError::NotARecord));
    assert_eq!(Record::from_ndjson(" [ \t ] "), Err(RecordError::NotARecord));
}

#[test]
fn a_line_that_is_no_json_is_refused() {
    for line in ["", "{", "{\"v\":1,}", "nul", "{} x", "{\"a\":\"\u{1}\"}", "\"\\ud8\""] {
        assert_eq!(Record::from_ndjson(line), Err(RecordError::NotJson), "{line}");
    }
}

#[test]
fn a_line_that_is_no_record_is_refused() {
    for line in [
        "null",
        "{}",
        "[]",
        "{\"ts_received\":1,\"topic\":\"t\",\"from\":\"f\"}",
        "{\"ts_received\":-1,\"topic\":\"t\",\"from\":\"f\",\"raw_payload\":0}",
        "{\"ts_received\":1.0,\"topic\":\"t\",\"from\":\"f\",\"raw_payload\":0}",
        "{\"ts_received\":1,\"topic\":null,\"from\":\"f\",\"raw_payload\":0}",
        "{\"ts_received\":1,\"topic\":\"t\",\"turn_id\":5,\"from\":\"f\",\"raw_payload\":0}",
        "{\"v\":null,\"ts_received\":1,\"topic\":\"t\",\"from\":\"f\",\"raw_payload\":0}",
        "{\"v\":4294967296,\"ts_received\":1,\"topic\":\"t\",\"from\":\"f\",\"raw_payload\":0}",
        "[1,1,\"t\",null,\"f\"]",
        "[1,1,\"t\",null,\"f\",0,0]",
    ] {
        assert_eq!(Record::from_ndjson(line), Err(RecordError::NotARecord), "{line}");
    }
}

#[test]
fn a_record_may_lack_what_has_a_default() {
    let rec = Record::from_ndjson(
        " { \"raw_payload\" : {\"turn_id\":\"x\"}, \"extra\": [1], \"from\": \"f\", \"topic\": \"t\", \"ts_received\": 4, \"turn_id\": null } ",
    )
    .expect("record");
    assert_eq!((rec.v, rec.ts_received), (1, 4));
    assert_eq!(rec.turn_id, None);
    assert_eq!(rec.raw_payload.get_text("turn_id").as_deref(), Some("x"));
    let listed = Record::from_ndjson("[2,5,\"t\",\"id\",\"f\",true]").expect("record");
    assert_eq!((listed.v, listed.turn_id.as_deref()), (2, Some("id")));
    assert_eq!(listed.raw_payload, Payload::Bool(true));
}

#[test]
fn a_field_that_is_given_twice_is_refused() {
    let line = |extra: &str| {
        format!("{{\"ts_received\":1,\"topic\":\"t\",\"from\":\"f\",\"raw_payload\":{{\"topic\":1,\"topic\":2}}{extra}}}")
    };
    assert!(Record::from_ndjson(&line("")).is_ok());
    assert!(Record::from_ndjson(&line(",\"other\":1,\"other\":2")).is_ok());
    assert!(Record::from_ndjson(&line(",\"x\":{\"from\":1,\"from\":[\",\"]}")).is_ok());
    assert!(Record::from_ndjson(&line(",\"x\":\"}\\\",\\\"topic\\\":\"")).is_ok());
    for twice in [
        ",\"topic\":\"t\"",
        ", \"from\" : \"f\"",
        ",\"\\u0074opic\":\"t\"",
        ",\"raw_payload\":0",
        ",\"v\":1,\"v\":1",
        ",\"turn_id\":null,\"turn_id\":null",
    ] {
        assert_eq!(Record::from_ndjson(&line(twice)), Err(RecordError::NotARecord), "{twice}");
    }
}

#[test]
fn members_are_found_by_their_first_name() {
    let p = object(&[
        ("a", Payload::UInt(1)),
        ("t", text("x")),
        ("f", Payload::Bool(true)),
        ("a", Payload::UInt(2)),
    ]);
    assert_eq!(p.get("a"), Some(&Payload::UInt(1)));
    assert_eq!(p.get("b"), None);
    assert_eq!(text("a").get("a"), None);
    assert_eq!(p.get_text("t").as_deref(), Some("x"));
    assert_eq!(p.get_text("a"), None);
    assert_eq!(p.get_text_or("zz", "t").as_deref(), Some("x"));
    assert_eq!(p.get_text_or("a", "t"), None);
    assert!(p.get_flag("f") && !p.get_flag("a") && !p.get_flag("zz"));
    assert_eq!(p.get_or_null("zz"), Payload::Null);
    assert_eq!(p.get_or_null("t"), text("x"));
    assert_eq!(text("y").as_str(), Some("y"));
    assert_eq!(Payload::Null.as_str(), None);
    assert_eq!(p.clone(), p);
}

#[test]
fn index_entries_read_back() {
    for (key, segment, line) in [("t", 0, 0), ("a\"\n\u{1}é", u64::MAX, 7), ("", 3, u64::MAX)] {
        let entry = IndexEntry { key: key.to_string(), segment, line };
        let written = entry.to_ndjson();
        let back = IndexEntry::from_ndjson(&written).expect("entry");
        assert_eq!((back.key.as_str(), back.segment, back.line), (key, segment, line));
    }
    let entry = IndexEntry { key: "k".to_string(), segment: 2, line: 10 };
    assert_eq!(entry.to_ndjson(), "{\"key\":\"k\",\"segment\":2,\"line\":10}");
    for bad in [
        "",
        "{}",
        "{\"key\":\"k\",\"segment\":2}",
        "{\"key\":1,\"segment\":2,\"line\":1}",
        "{\"key\":\"k\",\"segment\":-2,\"line\":1}",
        "{\"key\":\"k\",\"segment\":2,\"line\":1,\"line\":1}",
        "[\"k\",1]",
        "[\"k\",1,2,3]",
    ] {
        assert_eq!(IndexEntry::from_ndjson(bad).err(), Some(BadIndexEntry), "{bad}");
    }
    assert!(IndexEntry::from_ndjson("[\"k\",1,2]").is_ok());
}

#[test]
fn the_outer_values_of_a_text_are_found() {
    let found = |text: &str| values_of(text);
    let texts = |v: &[&str]| v.iter().map(|t| t.to_string()).collect::<Vec<String>>();
    assert_eq!(
        found("{\"a\":1, \"b,\" : [2,{\"c\":3}],\"\\\"d\":\"}:\"}"),
        (
            Outer::Object,
            texts(&["\"a\"", "\"b,\"", "\"\\\"d\""]),
            texts(&["1", " [2,{\"c\":3}]", "\"}:\""])
        )
    );
    assert_eq!(found(" [1,[2,3], {} ]"), (Outer::Array, vec![], texts(&["1", "[2,3]", " {} "])));
    assert_eq!(found("{}"), (Outer::Object, vec![], vec![]));
    assert_eq!(found("[]"), (Outer::Array, vec![], texts(&[""])));
    assert_eq!(found("\"[1]\""), (Outer::Plain, vec![], vec![]));
}
