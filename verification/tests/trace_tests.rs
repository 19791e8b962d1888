//! Timelines and their display.

use std::collections::BTreeMap;

use wintermute_lucid::trace::{
    annotate, compute_status, extract_annotation, is_failure_topic, next_stage,
    stage_start_topic, TurnSummary, FAILURE_TOPICS, STAGE_SEQUENCE,
};
use wintermute_lucid::{
    render_summary, render_timeline, summarise_turns, trace_turn, Payload, Record, TurnStatus,
};

fn text(t: &str) -> Payload {
    Payload::Text(t.to_string())
}

fn float(t: &str) -> Payload {
    Payload::Float(t.to_string())
}

fn object(members: &[(&str, Payload)]) -> Payload {
    Payload::Object(members.iter().map(|(k, v)| (k.to_string(), v.clone())).collect())
}

fn make_record(ts: u64, topic: &str, turn: &str, extra: &[(&str, Payload)]) -> Record {
    let mut members = vec![("turn_id", text(turn))];
    members.extend(extra.iter().cloned());
    Record::new(ts, topic.to_string(), "peer".to_string(), object(&members))
}

fn happy_path_records(turn: &str) -> Vec<Record> {
    vec![
        make_record(1000, "wm.audio.wake", turn, &[("score", float("0.99"))]),
        make_record(1018, "wm.audio.speech.start", turn, &[]),
        make_record(2258, "wm.audio.speech.end", turn, &[]),
        make_record(4968, "wm.stt.final", turn, &[("text", text("what time is it"))]),
        make_record(4980, "wm.dialog.turn.user", turn, &[]),
        make_record(4988, "wm.brain.route", turn, &[("tier", text("sonnet"))]),
        make_record(7133, "wm.brain.reply", turn, &[("text", text("It's about 3:45"))]),
        make_record(7158, "wm.tts.start", turn, &[]),
        make_record(9418, "wm.tts.end", turn, &[]),
    ]
}

#[test]
fn ac1_rows_ordered_oldest_first() {
    let recs = happy_path_records("turn-1");
    let tl = trace_turn("turn-1", &recs).expect("some");
    for i in 1..tl.rows.len() {
        assert!(
            tl.rows[i].offset_ms >= tl.rows[i - 1].offset_ms,
            "row {i} out of order"
        );
    }
}

#[test]
fn ac2_stage_durations_computed() {
    let recs = happy_path_records("turn-2");
    let tl = trace_turn("turn-2", &recs).expect("some");
    let dur_map: BTreeMap<String, u64> = tl
        .rows
        .iter()
        .filter_map(|r| r.stage_duration_ms.map(|d| (r.topic.clone(), d)))
        .collect();
    assert_eq!(dur_map.get("wm.audio.speech.end"), Some(&(2258 - 1018)));
    assert_eq!(dur_map.get("wm.stt.final"), Some(&(4968 - 2258)));
    assert_eq!(dur_map.get("wm.brain.reply"), Some(&(7133 - 4980)));
    assert_eq!(dur_map.get("wm.tts.end"), Some(&(9418 - 7158)));
}

#[test]
fn ac3_stall_after_stt_final_names_missing_stage() {
    let turn = "turn-stall";
    let recs = vec![
        make_record(1000, "wm.audio.wake", turn, &[("score", float("0.95"))]),
        make_record(1018, "wm.audio.speech.start", turn, &[]),
        make_record(2258, "wm.audio.speech.end", turn, &[]),
        make_record(4968, "wm.stt.final", turn, &[("text", text("hello"))]),
    ];
    let tl = trace_turn(turn, &recs).expect("some");
    match &tl.status {
        TurnStatus::Stalled { last_topic, expected_next } => {
            assert_eq!(last_topic, "wm.stt.final");
            assert_eq!(
                expected_next.as_deref(),
                Some("wm.dialog.turn.user"),
                "must name the missing next stage"
            );
        }
        other => panic!("expected Stalled, got {other:?}"),
    }
}

#[test]
fn ac4_completed_reports_total_latency() {
    let recs = happy_path_records("turn-ok");
    let tl = trace_turn("turn-ok", &recs).expect("some");
    assert!(
        matches!(tl.status, TurnStatus::Completed { total_ms } if total_ms == 9418 - 1000),
        "expected Completed with total 8418ms, got {:?}",
        tl.status
    );
}

#[test]
fn ac5_summarise_turns_one_entry_per_turn() {
    let a = happy_path_records("turn-a");
    let b = happy_path_records("turn-b");
    let pairs = vec![("turn-a".to_string(), a), ("turn-b".to_string(), b)];
    let summaries = summarise_turns(&pairs);
    assert_eq!(summaries.len(), 2);
    assert_eq!(summaries[0].turn_id, "turn-a");
    assert_eq!(summaries[1].turn_id, "turn-b");
}

#[test]
fn ac7_unknown_turn_id_returns_none() {
    let result = trace_turn("no-such-id", &[]);
    assert!(result.is_none());
}

#[test]
fn failure_topic_marks_turn_as_failed() {
    let turn = "turn-fail";
    let recs = vec![
        make_record(1000, "wm.audio.wake", turn, &[("score", float("0.9"))]),
        make_record(1018, "wm.audio.speech.start", turn, &[]),
        make_record(2258, "wm.audio.speech.end", turn, &[]),
        make_record(4000, "wm.stt.error", turn, &[("msg", text("decode fail"))]),
    ];
    let tl = trace_turn(turn, &recs).expect("some");
    assert!(
        matches!(tl.status, TurnStatus::Failed { .. }),
        "expected Failed, got {:?}",
        tl.status
    );
}

#[test]
fn render_timeline_completed_footer() {
    let recs = happy_path_records("turn-render");
    let tl = trace_turn("turn-render", &recs).expect("some");
    let rendered = render_timeline(&tl);
    assert!(rendered.contains("✓ completed"), "must show ✓ completed");
    assert!(rendered.contains("turn-render"), "must show turn id");
}

#[test]
fn render_timeline_stalled_footer() {
    let turn = "turn-stall2";
    let recs = vec![
        make_record(1000, "wm.audio.wake", turn, &[]),
        make_record(1018, "wm.audio.speech.start", turn, &[]),
        make_record(2258, "wm.stt.final", turn, &[("text", text("hi"))]),
    ];
    let tl = trace_turn(turn, &recs).expect("some");
    let rendered = render_timeline(&tl);
    assert!(rendered.contains("✗ stalled"), "must show ✗ stalled");
}

#[test]
fn a_timeline_is_shown_line_by_line() {
    let tl = trace_turn("t-9", &happy_path_records("t-9")).expect("some");
    let expected = "turn t-9   \"what time is it\"\n\
        \x20 +0ms        wm.audio.wake                        score=0.99\n\
        \x20 +18ms       wm.audio.speech.start              \n\
        \x20 +1258ms     wm.audio.speech.end                  (1.24s stage)\n\
        \x20 +3968ms     wm.stt.final                         (2.71s stage)  \"what time is it\"\n\
        \x20 +3980ms     wm.dialog.turn.user                \n\
        \x20 +3988ms     wm.brain.route                       tier=sonnet\n\
        \x20 +6133ms     wm.brain.reply                       (2.15s stage)  \"It's about 3:45\"\n\
        \x20 +6158ms     wm.tts.start                       \n\
        \x20 +8418ms     wm.tts.end                           (2.26s stage)\n\
        \x20 ✓ completed  (end-to-end 8.42s)\n";
    assert_eq!(render_timeline(&tl), expected);
}

#[test]
fn records_are_sorted_by_time_and_keep_their_order() {
    let recs = vec![
        make_record(50, "wm.c", "t", &[]),
        make_record(10, "wm.a", "t", &[]),
        make_record(50, "wm.d", "t", &[]),
        make_record(20, "wm.b", "t", &[]),
    ];
    let tl = trace_turn("t", &recs).expect("some");
    let shown: Vec<(u64, &str)> = tl.rows.iter().map(|r| (r.offset_ms, r.topic.as_str())).collect();
    assert_eq!(shown, vec![(0, "wm.a"), (10, "wm.b"), (40, "wm.c"), (40, "wm.d")]);
}

#[test]
fn a_stage_is_timed_from_its_latest_start() {
    let recs = vec![
        make_record(10, "wm.tts.start", "t", &[]),
        make_record(30, "wm.tts.start", "t", &[]),
        make_record(35, "wm.tts.end", "t", &[]),
        make_record(36, "wm.tts.end", "t", &[]),
        make_record(40, "wm.brain.reply", "t", &[]),
    ];
    let tl = trace_turn("t", &recs).expect("some");
    let durations: Vec<Option<u64>> = tl.rows.iter().map(|r| r.stage_duration_ms).collect();
    assert_eq!(durations, vec![None, None, Some(5), Some(6), None]);
}

#[test]
fn the_latest_failure_decides() {
    let recs = vec![
        make_record(1, "wm.audio.wake", "t", &[]),
        make_record(2, "wm.brain.error", "t", &[]),
        make_record(3, "wm.tts.start", "t", &[]),
        make_record(4, "wm.tts.error", "t", &[]),
        make_record(5, "wm.tts.error", "t", &[]),
    ];
    let tl = trace_turn("t", &recs).expect("some");
    assert_eq!(
        tl.status,
        TurnStatus::Failed {
            failure_topic: "wm.tts.error".to_string(),
            last_good_topic: Some("wm.tts.start".to_string()),
        }
    );
    assert!(render_timeline(&tl).ends_with("  ✗ failed at wm.tts.error (after wm.tts.start)\n"));

    let alone = trace_turn("t", &recs[1..2]).expect("some");
    assert_eq!(
        alone.status,
        TurnStatus::Failed { failure_topic: "wm.brain.error".to_string(), last_good_topic: None }
    );
    assert!(render_timeline(&alone).ends_with("  ✗ failed at wm.brain.error (after (start))\n"));

    let recovered = vec![
        make_record(1, "wm.brain.error", "t", &[]),
        make_record(2, "wm.tts.end", "t", &[]),
    ];
    assert_eq!(
        trace_turn("t", &recovered).expect("some").status,
        TurnStatus::Failed { failure_topic: "wm.brain.error".to_string(), last_good_topic: None }
    );

    let later = vec![
        make_record(1000, "wm.audio.wake", "t", &[]),
        make_record(2000, "wm.stt.error", "t", &[]),
        make_record(3000, "wm.tts.start", "t", &[]),
    ];
    let failed = TurnStatus::Failed {
        failure_topic: "wm.stt.error".to_string(),
        last_good_topic: Some("wm.audio.wake".to_string()),
    };
    assert_eq!(compute_status(&later, 2000), failed);
    assert_eq!(trace_turn("t", &later).expect("some").status, failed);
}

#[test]
fn a_turn_that_stops_at_no_stage_expects_none() {
    let tl = trace_turn("t", &[make_record(1, "wm.other", "t", &[])]).expect("some");
    assert_eq!(
        tl.status,
        TurnStatus::Stalled { last_topic: "wm.other".to_string(), expected_next: None }
    );
    let shown = "turn t   \"(unknown)\"\n  +0ms        wm.other                           \n  ✗ stalled after wm.other — no (unknown — last in sequence)\n";
    assert_eq!(render_timeline(&tl), shown);
}

#[test]
fn the_last_words_count_even_if_there_are_none() {
    let mut recs = vec![
        make_record(1, "wm.stt.final", "t", &[("text", text("first"))]),
        make_record(2, "wm.stt.final", "t", &[("transcript", text("second"))]),
    ];
    assert_eq!(trace_turn("t", &recs).expect("some").utterance.as_deref(), Some("second"));
    recs.push(make_record(3, "wm.stt.final", "t", &[]));
    assert_eq!(trace_turn("t", &recs).expect("some").utterance, None);
    recs.push(make_record(
        4,
        "wm.stt.final",
        "t",
        &[("text", Payload::UInt(7)), ("transcript", text("third"))],
    ));
    assert_eq!(trace_turn("t", &recs).expect("some").utterance, None);
}

#[test]
fn annotations_come_from_the_payload() {
    let note = |topic: &str, p: Payload| extract_annotation(topic, &p);
    for score in ["0.99", "0.995", "0.985", "1.005", "0.0", "1e300", "-0.125"] {
        let f: f64 = score.parse().expect("number");
        let expected = format!("score={f:.2}");
        assert_eq!(note("wm.audio.wake", object(&[("score", float(score))])), Some(expected));
    }
    assert_eq!(
        note("wm.audio.wake", object(&[("score", Payload::UInt(3))])).as_deref(),
        Some("score=3.00")
    );
    assert_eq!(
        note("wm.audio.wake", object(&[("score", Payload::Int(-2))])).as_deref(),
        Some("score=-2.00")
    );
    assert_eq!(note("wm.audio.wake", object(&[("score", text("0.9"))])), None);
    assert_eq!(note("wm.audio.wake", Payload::Null), None);
    assert_eq!(
        note("wm.brain.route", object(&[("model", text("m"))])).as_deref(),
        Some("tier=m")
    );
    let long = "é".repeat(50);
    assert_eq!(
        note("wm.brain.reply", object(&[("reply", text(&long))])),
        Some(format!("\"{}\"", "é".repeat(40)))
    );
    assert_eq!(note("wm.tts.end", object(&[("text", text("x"))])), None);
    let wake = object(&[]);
    assert_eq!(
        annotate("wm.audio.wake", &wake, Some("7.50".to_string())).as_deref(),
        Some("score=7.50")
    );
}

#[test]
fn summaries_are_one_line() {
    let done = TurnSummary {
        turn_id: "a".to_string(),
        status: TurnStatus::Completed { total_ms: 8418 },
        utterance: Some("hi".to_string()),
        total_ms: Some(8418),
    };
    assert_eq!(render_summary(&done), "a  ✓ 8.42s  \"hi\"");
    let stalled = TurnSummary {
        turn_id: "b".to_string(),
        status: TurnStatus::Stalled { last_topic: "wm.x".to_string(), expected_next: None },
        utterance: None,
        total_ms: None,
    };
    assert_eq!(render_summary(&stalled), "b  ✗ stalled@wm.x  \"(unknown)\"");
    let failed = TurnSummary {
        turn_id: "c".to_string(),
        status: TurnStatus::Failed { failure_topic: "wm.y".to_string(), last_good_topic: None },
        utterance: None,
        total_ms: None,
    };
    assert_eq!(render_summary(&failed), "c  ✗ failed:wm.y  \"(unknown)\"");
}

#[test]
fn a_turn_that_reached_the_end_is_completed() {
    let recs = vec![
        make_record(1000, "wm.audio.wake", "t", &[]),
        make_record(3000, "wm.tts.end", "t", &[]),
        make_record(3500, "wm.dialog.state", "t", &[]),
    ];
    assert_eq!(compute_status(&recs, 2500), TurnStatus::Completed { total_ms: 2500 });
    assert_eq!(
        trace_turn("t", &recs).expect("some").status,
        TurnStatus::Completed { total_ms: 2500 }
    );
    assert_eq!(
        compute_status(&vec![recs[0].clone(), recs[2].clone()], 2500),
        TurnStatus::Stalled { last_topic: "wm.dialog.state".to_string(), expected_next: None }
    );
    assert_eq!(
        compute_status(&Vec::new(), 1),
        TurnStatus::Stalled { last_topic: String::new(), expected_next: None }
    );
}

#[test]
fn a_turn_that_no_record_carries_has_no_timeline() {
    let recs = happy_path_records("some");
    assert!(trace_turn("other", &recs).is_none());
    let untagged = vec![Record::new(7, "wm.a".to_string(), "p".to_string(), Payload::Null)];
    assert!(trace_turn("t", &untagged).is_none());
    assert_eq!(trace_turn("untagged-7", &untagged).expect("some").rows.len(), 1);
    let mixed = vec![untagged[0].clone(), recs[0].clone()];
    assert_eq!(trace_turn("some", &mixed).expect("some").rows.len(), 2);
    let pairs = vec![("other".to_string(), recs), ("untagged-7".to_string(), untagged)];
    let summaries = summarise_turns(&pairs);
    assert_eq!(summaries.len(), 1);
    assert_eq!(summaries[0].turn_id, "untagged-7");
}

#[test]
fn turns_without_records_have_no_summary() {
    let pairs = vec![
        ("none".to_string(), Vec::new()),
        ("some".to_string(), happy_path_records("some")),
    ];
    let summaries = summarise_turns(&pairs);
    assert_eq!(summaries.len(), 1);
    assert_eq!(summaries[0].turn_id, "some");
    assert_eq!(summaries[0].total_ms, Some(8418));
}

#[test]
fn the_stages_follow_one_another() {
    for i in 0..8 {
        assert_eq!(next_stage(STAGE_SEQUENCE[i]).as_deref(), Some(STAGE_SEQUENCE[i + 1]));
    }
    assert_eq!(next_stage("wm.tts.end"), None);
    assert_eq!(next_stage("wm.audio"), None);
    for topic in FAILURE_TOPICS {
        assert!(is_failure_topic(topic));
        assert_eq!(next_stage(topic), None);
    }
    assert!(!is_failure_topic("wm.tts.end"));
    assert_eq!(stage_start_topic("wm.brain.reply"), Some("wm.dialog.turn.user"));
    assert_eq!(stage_start_topic("wm.audio.wake"), None);
}
