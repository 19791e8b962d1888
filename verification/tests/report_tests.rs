//! What the commands print.

use wintermute_lucid::report::{
    build_full_json, exit_code, group_by_key, last_exit_code, last_turns, recent_turns,
    render_full_timeline, LastReport,
};
use wintermute_lucid::{render_timeline, trace_turn, Payload, Record, TurnStatus};

fn text(t: &str) -> Payload {
    Payload::Text(t.to_string())
}

fn rec(ts: u64, topic: &str, turn: &str) -> Record {
    let payload = Payload::Object(vec![("turn_id".to_string(), text(turn))]);
    Record::new(ts, topic.to_string(), "p".to_string(), payload)
}

fn untagged(ts: u64) -> Record {
    Record::new(ts, "wm.x".to_string(), "p".to_string(), Payload::Null)
}

fn keys(turns: &[(String, Vec<Record>)]) -> Vec<&str> {
    turns.iter().map(|t| t.0.as_str()).collect()
}

fn sample() -> Vec<Record> {
    vec![
        rec(5, "wm.a", "b"),
        rec(9, "wm.a", "a"),
        untagged(7),
        rec(2, "wm.b", "b"),
        rec(9, "wm.b", "c"),
        rec(1, "wm.b", "a"),
    ]
}

#[test]
fn records_are_grouped_by_key() {
    let groups = group_by_key(&sample());
    assert_eq!(keys(&groups), vec!["a", "b", "c", "untagged-7"]);
    assert_eq!(groups[0].1, vec![rec(9, "wm.a", "a"), rec(1, "wm.b", "a")]);
    assert_eq!(groups[1].1, vec![rec(5, "wm.a", "b"), rec(2, "wm.b", "b")]);
    assert_eq!(groups[3].1, vec![untagged(7)]);
    assert!(group_by_key(&[]).is_empty());
}

#[test]
fn the_latest_turns_come_first() {
    let recs = sample();
    assert_eq!(keys(&recent_turns(&recs, 9)), vec!["a", "c", "untagged-7", "b"]);
    assert_eq!(keys(&recent_turns(&recs, 2)), vec!["a", "c"]);
    assert!(recent_turns(&recs, 0).is_empty());
    assert!(recent_turns(&[], 3).is_empty());
}

#[test]
fn one_turn_is_traced_and_more_are_summed_up() {
    let recs = sample();
    match last_turns(&recs, 1) {
        LastReport::Timeline(tl) => {
            assert_eq!(tl.turn_id, "a");
            assert_eq!(tl.rows[0].topic, "wm.b");
            assert_eq!(tl.rows[1].offset_ms, 8);
        }
        other => panic!("unexpected {other:?}"),
    }
    match last_turns(&recs, 3) {
        LastReport::Summaries(s) => {
            let ids: Vec<&str> = s.iter().map(|s| s.turn_id.as_str()).collect();
            assert_eq!(ids, vec!["a", "c", "untagged-7"]);
        }
        other => panic!("unexpected {other:?}"),
    }
    match last_turns(&recs, 0) {
        LastReport::Summaries(s) => assert!(s.is_empty()),
        other => panic!("unexpected {other:?}"),
    }
    assert!(matches!(last_turns(&[], 1), LastReport::NoRecords));
    assert!(matches!(last_turns(&[], 5), LastReport::NoRecords));
}

#[test]
fn a_turn_that_is_not_completed_fails_the_command() {
    assert_eq!(exit_code(&TurnStatus::Completed { total_ms: 0 }), 0);
    let stalled = TurnStatus::Stalled { last_topic: String::new(), expected_next: None };
    assert_eq!(exit_code(&stalled), 2);
    let failed = TurnStatus::Failed { failure_topic: String::new(), last_good_topic: None };
    assert_eq!(exit_code(&failed), 2);
}

#[test]
fn one_turn_that_is_not_completed_fails_a_report() {
    let done = vec![rec(1, "wm.tts.end", "a"), rec(2, "wm.tts.end", "b")];
    let mut mixed = done.clone();
    mixed.insert(0, rec(3, "wm.audio.wake", "c"));
    mixed.push(rec(4, "wm.tts.end", "d"));
    assert_eq!(last_exit_code(&last_turns(&[], 1)), 0);
    assert_eq!(last_exit_code(&last_turns(&done, 1)), 0);
    assert_eq!(last_exit_code(&last_turns(&done, 2)), 0);
    assert_eq!(last_exit_code(&last_turns(&mixed, 1)), 0);
    assert_eq!(last_exit_code(&last_turns(&mixed, 2)), 2);
    assert_eq!(last_exit_code(&last_turns(&mixed, 9)), 2);
    assert_eq!(last_exit_code(&last_turns(&mixed[..1], 1)), 2);
}

#[test]
fn payloads_are_shown_below_their_rows() {
    let recs = vec![rec(30, "wm.other", "t"), rec(10, "wm.audio.wake", "t")];
    let tl = trace_turn("t", &recs).expect("timeline");
    assert_eq!(
        render_full_timeline("t", &recs, &tl),
        "turn t   \"(unknown)\"\n\
         \x20 +0ms        wm.audio.wake                      \n\
         \x20            payload: {\"turn_id\":\"t\"}\n\
         \x20 +20ms       wm.other                           \n\
         \x20            payload: {\"turn_id\":\"t\"}\n\
         \x20 ✗ stalled after wm.other — no (unknown)\n"
    );
    let done = vec![rec(10, "wm.tts.start", "t"), rec(1_010, "wm.tts.end", "t")];
    let tl = trace_turn("t", &done).expect("timeline");
    let full = render_full_timeline("t", &done, &tl);
    let plain = render_timeline(&tl);
    let kept: String =
        full.lines().filter(|l| !l.contains("payload:")).map(|l| format!("{l}\n")).collect();
    assert_eq!(kept, plain);
    let without = render_full_timeline("t", &[], &tl);
    assert_eq!(without, plain);
}

#[test]
fn a_timeline_with_payloads_is_one_json_value() {
    let recs = vec![rec(20, "wm.tts.end", "t"), rec(10, "wm.tts.start", "t")];
    let tl = trace_turn("t", &recs).expect("timeline");
    assert_eq!(
        build_full_json("t", &recs, &tl).to_json(),
        "{\"rows\":[{\"offset_ms\":0,\"raw_payload\":{\"turn_id\":\"t\"},\"topic\":\"wm.tts.start\"},\
         {\"offset_ms\":10,\"raw_payload\":{\"turn_id\":\"t\"},\"stage_duration_ms\":10,\"topic\":\"wm.tts.end\"}],\
         \"status\":{\"Completed\":{\"total_ms\":10}},\"t0_ms\":10,\"turn_id\":\"t\",\"utterance\":null}"
    );
    let said = vec![Record::new(
        5,
        "wm.stt.final".to_string(),
        "p".to_string(),
        Payload::Object(vec![("text".to_string(), text("hi"))]),
    )];
    let tl = trace_turn("untagged-5", &said).expect("timeline");
    assert_eq!(
        build_full_json("untagged-5", &said, &tl).to_json(),
        "{\"rows\":[{\"annotation\":\"\\\"hi\\\"\",\"offset_ms\":0,\"raw_payload\":{\"text\":\"hi\"},\"topic\":\"wm.stt.final\"}],\
         \"status\":{\"Stalled\":{\"expected_next\":\"wm.dialog.turn.user\",\"last_topic\":\"wm.stt.final\"}},\
         \"t0_ms\":5,\"turn_id\":\"untagged-5\",\"utterance\":\"hi\"}"
    );
    let failed = vec![rec(1, "wm.brain.error", "f")];
    let tl = trace_turn("f", &failed).expect("timeline");
    assert!(build_full_json("f", &failed, &tl).to_json().contains(
        "\"status\":{\"Failed\":{\"failure_topic\":\"wm.brain.error\",\"last_good_topic\":null}}"
    ));
    assert!(build_full_json("f", &[], &tl).to_json().contains("\"t0_ms\":0"));
}
