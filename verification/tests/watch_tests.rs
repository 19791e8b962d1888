//! The live monitor.

use wintermute_lucid::watch::{
    classify_topic, quits, Hue, Look, PipelineState, Stage, StageState, TopicKind, TurnEntry,
    HELP_LINE, MAX_SCROLLBACK,
};
use wintermute_lucid::Payload;

const STALL_MS: u64 = 8_000;

fn object(members: &[(&str, &str)]) -> Payload {
    Payload::Object(
        members.iter().map(|(k, v)| (k.to_string(), Payload::Text(v.to_string()))).collect(),
    )
}

fn apply(state: &mut PipelineState, topic: &str, members: &[(&str, &str)], now_ms: u64) -> bool {
    state.apply(topic, &object(members), now_ms, STALL_MS)
}

#[test]
fn ac1_pipeline_stages_light_up_in_order() {
    let mut state = PipelineState::default();

    for st in state.stages {
        assert_eq!(st, StageState::Idle);
    }

    let mut t = 1_000u64;

    apply(&mut state, "wm.audio.wake", &[("turn_id", "t1")], t);
    assert_eq!(state.stages[0], StageState::Active, "wake should be Active");

    t += 100;
    apply(&mut state, "wm.audio.speech.start", &[], t);
    assert_eq!(state.stages[1], StageState::Active, "capture should be Active");

    t += 200;
    apply(&mut state, "wm.stt.partial", &[("text", "hello")], t);
    assert_eq!(state.stages[2], StageState::Active, "stt should be Active");
    assert_eq!(state.stages[1], StageState::Done, "capture should be Done");
    assert_eq!(state.partial_transcript, "hello");

    t += 300;
    apply(&mut state, "wm.stt.final", &[("text", "hello world"), ("turn_id", "t1")], t);
    assert_eq!(state.stages[2], StageState::Done, "stt should be Done after final");

    t += 500;
    apply(&mut state, "wm.brain.reply", &[("turn_id", "t1")], t);
    assert_eq!(state.stages[4], StageState::Done, "brain should be Done");

    t += 300;
    apply(&mut state, "wm.tts.end", &[("turn_id", "t1")], t);
    assert_eq!(state.stages[5], StageState::Done, "tts should be Done");
    assert_eq!(state.scrollback.len(), 1);
    assert!(state.scrollback[0].success);
}

#[test]
fn ac2_dialog_state_updates() {
    let mut state = PipelineState::default();
    let t = 1_000u64;

    apply(&mut state, "wm.audio.wake", &[], t);
    apply(&mut state, "wm.dialog.state", &[("state", "Listening")], t + 10);
    assert_eq!(state.dialog_state, "Listening");

    apply(&mut state, "wm.dialog.state", &[("state", "Transcribing")], t + 200);
    assert_eq!(state.dialog_state, "Transcribing");

    apply(&mut state, "wm.dialog.state", &[("state", "Idle")], t + 800);
    assert_eq!(state.dialog_state, "Idle");
}

#[test]
fn ac3_partial_transcript_streams() {
    let mut state = PipelineState::default();
    let t = 1_000u64;

    apply(&mut state, "wm.audio.wake", &[], t);
    apply(&mut state, "wm.stt.partial", &[("text", "wint")], t + 100);
    assert_eq!(state.partial_transcript, "wint");

    apply(&mut state, "wm.stt.partial", &[("text", "wintermute")], t + 200);
    assert_eq!(state.partial_transcript, "wintermute");
}

#[test]
fn ac4_stall_detection() {
    let mut state = PipelineState::default();

    apply(&mut state, "wm.audio.wake", &[], 1_000);
    apply(&mut state, "wm.audio.speech.start", &[], 1_100);
    apply(&mut state, "wm.stt.partial", &[("text", "hey")], 1_500);

    let future_ms = 1_500 + STALL_MS + 500;
    state.check_stalls(future_ms, STALL_MS);

    assert_eq!(state.stages[2], StageState::Stalled, "stt should be Stalled");
    assert_eq!(state.stall_stage, Some(Stage::Stt));
}

#[test]
fn ac4_failure_topic_marks_stage_failed() {
    let mut state = PipelineState::default();
    let t = 1_000u64;

    apply(&mut state, "wm.audio.wake", &[], t);
    apply(&mut state, "wm.audio.speech.start", &[], t + 100);
    apply(&mut state, "wm.stt.partial", &[("text", "hey")], t + 200);
    apply(&mut state, "wm.brain.error", &[], t + 400);
    assert_eq!(state.stages[4], StageState::Failed, "brain should be Failed");
}

#[test]
fn ac5_scrollback_accumulates() {
    let mut state = PipelineState::default();
    let mut t = 0u64;

    for i in 0..3 {
        let tid = format!("t{i}");
        t += 1_000;
        apply(&mut state, "wm.audio.wake", &[("turn_id", &tid)], t);
        t += 200;
        apply(&mut state, "wm.stt.partial", &[("text", "hello")], t);
        t += 300;
        apply(&mut state, "wm.tts.end", &[("turn_id", &tid)], t);
    }

    assert_eq!(state.scrollback.len(), 3);
    assert!(state.scrollback.iter().all(|e| e.success));
}

#[test]
fn ac6_plain_topic_classification() {
    assert_eq!(classify_topic("wm.audio.wake"), TopicKind::StageStart(Stage::Wake));
    assert_eq!(classify_topic("wm.stt.partial"), TopicKind::SttPartial);
    assert_eq!(classify_topic("wm.stt.final"), TopicKind::StageEnd(Stage::Stt));
    assert_eq!(classify_topic("wm.brain.reply"), TopicKind::StageEnd(Stage::Brain));
    assert_eq!(classify_topic("wm.tts.end"), TopicKind::TtsEnd);
    assert_eq!(classify_topic("wm.dialog.state"), TopicKind::DialogState);
    assert_eq!(classify_topic("wm.brain.error"), TopicKind::StageError(Stage::Brain));
    assert_eq!(classify_topic("wm.other.random"), TopicKind::Unrelated);
}

#[test]
fn ac7_new_wake_resets_pipeline() {
    let mut state = PipelineState::default();
    let t = 1_000u64;

    apply(&mut state, "wm.audio.wake", &[("turn_id", "t1")], t);
    apply(&mut state, "wm.stt.partial", &[("text", "hello")], t + 100);

    apply(&mut state, "wm.audio.wake", &[("turn_id", "t2")], t + 500);

    assert_eq!(state.scrollback.len(), 1, "stalled turn should be archived");
    assert!(!state.scrollback[0].success);
    assert_eq!(state.partial_transcript, "");
    assert_eq!(state.turn_id, Some("t2".to_string()));
}

#[test]
fn every_topic_has_its_kind() {
    let cases = [
        ("wm.audio.capture.start", TopicKind::StageStart(Stage::Capture)),
        ("wm.audio.speech.start", TopicKind::StageStart(Stage::Capture)),
        ("wm.audio.capture.end", TopicKind::StageEnd(Stage::Capture)),
        ("wm.audio.speech.end", TopicKind::StageEnd(Stage::Capture)),
        ("wm.audio.error", TopicKind::StageError(Stage::Capture)),
        ("wm.audio.other", TopicKind::Unrelated),
        ("wm.stt.uncertain", TopicKind::StageEnd(Stage::Stt)),
        ("wm.stt.error", TopicKind::StageError(Stage::Stt)),
        ("wm.stt.begin", TopicKind::StageStart(Stage::Stt)),
        ("wm.dialog.confirm.denied", TopicKind::StageEnd(Stage::Dialog)),
        ("wm.dialog.confirm.granted", TopicKind::StageEnd(Stage::Dialog)),
        ("wm.dialog.turn.user", TopicKind::StageStart(Stage::Dialog)),
        ("wm.brain.reply.destructive", TopicKind::StageEnd(Stage::Brain)),
        ("wm.brain.route", TopicKind::StageStart(Stage::Brain)),
        ("wm.tts.error", TopicKind::StageError(Stage::Tts)),
        ("wm.tts.start", TopicKind::StageStart(Stage::Tts)),
        ("wm.tts", TopicKind::Unrelated),
        ("", TopicKind::Unrelated),
    ];
    for (topic, kind) in cases {
        assert_eq!(classify_topic(topic), kind, "{topic}");
    }
}

#[test]
fn the_stages_have_names() {
    let labels: Vec<&str> = Stage::ALL.iter().map(|s| s.label()).collect();
    assert_eq!(labels, vec!["wake", "capture", "stt", "dialog", "brain", "tts"]);
    assert_eq!(StageState::default(), StageState::Idle);
    assert_eq!(PipelineState::STALL_THRESHOLD_MS, 8_000);
}

#[test]
fn without_a_turn_only_the_dialog_is_heard() {
    let mut state = PipelineState::default();
    assert!(!apply(&mut state, "wm.stt.partial", &[("text", "x")], 5));
    assert!(!apply(&mut state, "wm.tts.end", &[], 6));
    assert!(!apply(&mut state, "wm.dialog.state", &[], 7));
    assert!(apply(&mut state, "wm.dialog.state", &[("state", "Idle"), ("turn_id", "t")], 8));
    assert_eq!(state.dialog_state, "Idle");
    assert_eq!(state.turn_id, None);
    assert_eq!(state.partial_transcript, "");
    assert!(state.scrollback.is_empty());
    assert_eq!(state.elapsed_ms, 0);
}

#[test]
fn a_stage_that_is_done_does_not_start_again() {
    let mut state = PipelineState::default();
    apply(&mut state, "wm.audio.wake", &[], 0);
    assert!(apply(&mut state, "wm.brain.route", &[("turn_id", "late")], 10));
    assert_eq!(state.turn_id.as_deref(), Some("late"));
    assert_eq!(state.elapsed_ms, 10);
    assert!(!apply(&mut state, "wm.brain.think", &[("turn_id", "other")], 20));
    assert_eq!(state.turn_id.as_deref(), Some("late"));
    assert_eq!(state.elapsed_ms, 10);
    assert!(apply(&mut state, "wm.brain.reply", &[], 30));
    assert!(!apply(&mut state, "wm.brain.think", &[], 40));
    assert_eq!(state.stages[4], StageState::Done);
    assert_eq!(state.stage_active_since[4], None);
    assert!(!apply(&mut state, "wm.elsewhere", &[], 50));
}

#[test]
fn starting_a_stage_closes_the_one_before() {
    let mut state = PipelineState::default();
    apply(&mut state, "wm.audio.wake", &[], 0);
    apply(&mut state, "wm.audio.speech.start", &[], 10);
    assert_eq!(state.stages[0], StageState::Done);
    apply(&mut state, "wm.dialog.turn.user", &[], 20);
    assert_eq!(state.stages[1], StageState::Active);
    apply(&mut state, "wm.brain.route", &[], 30);
    assert_eq!(state.stages[3], StageState::Done);
}

#[test]
fn a_stalled_stage_may_go_on() {
    let mut state = PipelineState::default();
    apply(&mut state, "wm.audio.wake", &[], 0);
    apply(&mut state, "wm.brain.route", &[], 0);
    state.check_stalls(STALL_MS, STALL_MS);
    assert_eq!(state.stall_stage, None);
    state.check_stalls(STALL_MS + 1, STALL_MS);
    assert_eq!(state.stages[0], StageState::Stalled);
    assert_eq!(state.stages[4], StageState::Stalled);
    assert_eq!(state.stall_stage, Some(Stage::Brain));
    state.check_stalls(STALL_MS + 1, STALL_MS);
    assert_eq!(state.stall_stage, Some(Stage::Brain));
    state.check_stalls(STALL_MS + 2, STALL_MS);
    assert_eq!(state.stall_stage, Some(Stage::Brain));
    assert!(apply(&mut state, "wm.brain.think", &[], 9_000));
    assert_eq!(state.stages[4], StageState::Active);
    assert_eq!(state.stall_stage, None);
    assert_eq!(state.stage_active_since[4], Some(9_000));
}

#[test]
fn an_interrupted_turn_names_its_stage() {
    let mut state = PipelineState::default();
    apply(&mut state, "wm.audio.wake", &[("turn_id", "a")], 100);
    apply(&mut state, "wm.audio.speech.start", &[], 200);
    apply(&mut state, "wm.stt.partial", &[("text", "hi")], 300);
    apply(&mut state, "wm.audio.wake", &[], 1_700);
    let entry = &state.scrollback[0];
    assert_eq!(entry.turn_id.as_deref(), Some("a"));
    assert_eq!(entry.transcript, "hi");
    assert_eq!(entry.elapsed_ms, 1_600);
    assert_eq!(entry.stall_stage, Some(Stage::Stt));
    assert_eq!(entry.format_line(), "✗ stalled @ stt");
}

#[test]
fn the_scrollback_is_bounded() {
    let mut state = PipelineState::default();
    for i in 0..30u64 {
        apply(&mut state, "wm.audio.wake", &[], i * 1_000);
        apply(&mut state, "wm.tts.end", &[], i * 1_000 + i);
    }
    assert_eq!(state.scrollback.len(), MAX_SCROLLBACK);
    assert_eq!(state.scrollback[0].elapsed_ms, 10);
    assert_eq!(state.scrollback[19].elapsed_ms, 29);
    let lines = state.scrollback_lines();
    assert_eq!(lines.len(), 20);
    assert_eq!(lines[0], ("✓ (no transcript) 0.0s".to_string(), true));
}

#[test]
fn turns_are_shown_in_a_line() {
    let entry = |transcript: &str, elapsed_ms: u64, success: bool| TurnEntry {
        turn_id: None,
        transcript: transcript.to_string(),
        elapsed_ms,
        success,
        stall_stage: None,
    };
    assert_eq!(entry("hello", 1_250, true).format_line(), "✓ \"hello\" 1.2s");
    assert_eq!(entry("", 8_450, true).format_line(), format!("✓ (no transcript) {:.1}s", 8.45));
    assert_eq!(entry("x", 1, false).format_line(), "✗ stalled @ unknown");
}

#[test]
fn the_clock_runs_while_a_turn_is_on() {
    let mut state = PipelineState::default();
    state.tick(99);
    assert_eq!((state.elapsed_ms, state.clock().as_str()), (0, ""));
    apply(&mut state, "wm.audio.wake", &[], 1_000);
    state.tick(3_345);
    assert_eq!((state.elapsed_ms, state.clock().as_str()), (2_345, "  2.3s"));
    state.tick(500);
    assert_eq!(state.elapsed_ms, 0);
    apply(&mut state, "wm.tts.end", &[], 4_000);
    assert_eq!((state.elapsed_ms, state.clock().as_str()), (0, ""));
}

#[test]
fn a_plain_line_is_one_json_object() {
    let mut state = PipelineState::default();
    apply(&mut state, "wm.audio.wake", &[], 0);
    apply(&mut state, "wm.dialog.state", &[("state", "Lis\"tening\n")], 1);
    assert_eq!(
        state.plain_line("wm.dialog.state"),
        "{\"topic\":\"wm.dialog.state\",\"dialog_state\":\"Lis\\\"tening\\n\",\"partial\":\"\",\"stall\":null}\n"
    );
    state.check_stalls(9_000, STALL_MS);
    let line = state.plain_line("a\u{1}b");
    let value: serde_json::Value = serde_json::from_str(&line).expect("json");
    assert_eq!(value.get("topic").and_then(|v| v.as_str()), Some("a\u{1}b"));
    assert_eq!(value.get("stall").and_then(|v| v.as_str()), Some("wake"));
}

#[test]
fn the_state_line_says_what_is_known() {
    let mut state = PipelineState::default();
    assert_eq!(state.state_line(STALL_MS), "state: —");
    apply(&mut state, "wm.audio.wake", &[("turn_id", "0123456789")], 0);
    apply(&mut state, "wm.dialog.state", &[("state", "Listening")], 1);
    apply(&mut state, "wm.stt.partial", &[("text", "hi")], 2);
    assert_eq!(state.state_line(STALL_MS), "state: Listening  turn:01234567  \"hi\"");
    state.check_stalls(20_000, STALL_MS);
    assert_eq!(
        state.state_line(12_500),
        format!(
            "state: Listening  turn:01234567  \"hi\"  ⚠ stt active {:.0}s — no successor",
            12.5
        )
    );
}

#[test]
fn a_turn_is_cut_between_characters_only() {
    let mut state = PipelineState::default();
    for (turn, shown) in [
        ("short", "short"),
        ("éééééé", "éééé"),
        ("aéééééé", "aééé"),
        ("1234567é", "1234567"),
        ("123456é", "123456é"),
        ("12345😀6", "12345"),
        ("", ""),
    ] {
        apply(&mut state, "wm.audio.wake", &[("turn_id", turn)], 0);
        assert_eq!(state.state_line(1), format!("state: —  turn:{shown}"));
    }
}

#[test]
fn every_event_has_a_line_in_the_stream() {
    let mut state = PipelineState::default();
    let quiet = "{\"topic\":\"wm.other\",\"dialog_state\":\"\",\"partial\":\"\",\"stall\":null}\n";
    assert_eq!(state.stream_line("wm.other", &Payload::Null, 0, STALL_MS), quiet);
    state.stream_line("wm.audio.wake", &Payload::Null, 0, STALL_MS);
    assert_eq!(state.turn_start_ms, Some(0));
    let said = Payload::Object(vec![("state".to_string(), Payload::Text("Busy".to_string()))]);
    assert_eq!(
        state.stream_line("wm.dialog.state", &said, STALL_MS + 1, STALL_MS),
        "{\"topic\":\"wm.dialog.state\",\"dialog_state\":\"Busy\",\"partial\":\"\",\"stall\":\"wake\"}\n"
    );
    assert_eq!(
        state.stream_line("wm.other", &Payload::Null, STALL_MS + 2, STALL_MS),
        "{\"topic\":\"wm.other\",\"dialog_state\":\"Busy\",\"partial\":\"\",\"stall\":\"wake\"}\n"
    );
}

#[test]
fn the_oldest_turn_goes_first() {
    let mut state = PipelineState::default();
    for i in 0..25u64 {
        state.push_scrollback(TurnEntry {
            turn_id: None,
            transcript: String::new(),
            elapsed_ms: i,
            success: true,
            stall_stage: None,
        });
        assert_eq!(state.scrollback.len() as u64, (i + 1).min(20));
        assert_eq!(state.scrollback.last().map(|t| t.elapsed_ms), Some(i));
        assert_eq!(state.scrollback[0].elapsed_ms, i.saturating_sub(19));
    }
}

#[test]
fn two_keys_end_the_monitor() {
    assert!(quits('q', false) && quits('q', true) && quits('c', true));
    assert!(!quits('c', false) && !quits('x', true));
    assert_eq!(HELP_LINE, " q/Ctrl-C: quit   stall-threshold: 8s");
}

#[test]
fn the_stages_are_drawn_in_a_row() {
    let mut state = PipelineState::default();
    let look = |hue: Hue, bold: bool, blink: bool| Look { hue, bold, blink };
    let gray = look(Hue::Gray, false, false);
    let pieces = state.pipeline_pieces();
    let row: String = pieces.iter().map(|(t, _)| t.as_str()).collect();
    assert_eq!(row, "[wake] → [capture] → [stt] → [dialog] → [brain] → [tts]");
    assert!(pieces[..23].iter().all(|(_, l)| *l == gray));
    assert_eq!(pieces[23], (String::new(), look(Hue::White, false, false)));

    apply(&mut state, "wm.audio.wake", &[], 0);
    apply(&mut state, "wm.stt.final", &[], 1_000);
    apply(&mut state, "wm.brain.error", &[], 1_500);
    apply(&mut state, "wm.tts.start", &[], 2_000);
    state.check_stalls(9_500, STALL_MS);
    let pieces = state.pipeline_pieces();
    let label = |i: usize| pieces[i * 4 + 1].1;
    let bracket = |i: usize| pieces[i * 4].1;
    assert_eq!((label(0), bracket(0)), (look(Hue::Yellow, true, false), look(Hue::Yellow, false, false)));
    assert_eq!((label(2), bracket(2)), (look(Hue::Cyan, false, false), gray));
    assert_eq!((label(4), bracket(4)), (look(Hue::Red, true, true), look(Hue::Red, false, false)));
    assert_eq!((label(5), bracket(5)), (look(Hue::Green, true, false), look(Hue::Green, false, false)));
    assert_eq!(pieces[23].0, "  2.0s");
}
