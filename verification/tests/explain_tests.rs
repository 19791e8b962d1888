//! Turns in plain words.

use wintermute_lucid::explain::{
    explain, failure_cause, stall_cause, truncate, unknown_persona, Persona,
};
use wintermute_lucid::mind::assemble_records;
use wintermute_lucid::trace::FAILURE_TOPICS;
use wintermute_lucid::{trace_turn, Payload, Record};

fn text(t: &str) -> Payload {
    Payload::Text(t.to_string())
}

fn float(t: &str) -> Payload {
    Payload::Float(t.to_string())
}

fn rec(ts: u64, topic: &str, turn: &str, extra: &[(&str, Payload)]) -> Record {
    let mut members = vec![("turn_id".to_string(), text(turn))];
    members.extend(extra.iter().map(|(k, v)| (k.to_string(), v.clone())));
    Record::new(ts, topic.to_string(), "peer".to_string(), Payload::Object(members))
}

fn happy_records(turn: &str) -> Vec<Record> {
    vec![
        rec(1000, "wm.audio.wake", turn, &[("score", float("0.99"))]),
        rec(1018, "wm.audio.speech.start", turn, &[]),
        rec(2258, "wm.audio.speech.end", turn, &[]),
        rec(4968, "wm.stt.final", turn, &[("text", text("what time is it"))]),
        rec(4980, "wm.dialog.turn.user", turn, &[]),
        rec(
            4988,
            "wm.brain.route",
            turn,
            &[("tier", text("sonnet")), ("model", text("sonnet-4-6"))],
        ),
        rec(7133, "wm.brain.reply", turn, &[("text", text("It's about 3:45"))]),
        rec(7158, "wm.tts.start", turn, &[]),
        rec(9418, "wm.tts.end", turn, &[]),
    ]
}

fn failure_records(turn: &str, fail_topic: &str) -> Vec<Record> {
    let mut base = vec![
        rec(1000, "wm.audio.wake", turn, &[("score", float("0.9"))]),
        rec(1018, "wm.audio.speech.start", turn, &[]),
        rec(2258, "wm.audio.speech.end", turn, &[]),
        rec(4968, "wm.stt.final", turn, &[("text", text("hello"))]),
    ];
    base.push(rec(5000, fail_topic, turn, &[]));
    base
}

#[test]
fn ac1_success_hearth_names_utterance_reply_latency() {
    let recs = happy_records("t1");
    let tl = trace_turn("t1", &recs).unwrap();
    let ex = explain(&tl, None, Persona::Hearth);
    assert!(ex.success);
    assert!(ex.text.contains("what time is it"), "must name utterance");
    assert!(
        ex.text.contains("3:45") || ex.text.contains("answered"),
        "must include reply or answered"
    );
}

#[test]
fn ac1_success_flat_contains_completed() {
    let recs = happy_records("t1f");
    let tl = trace_turn("t1f", &recs).unwrap();
    let ex = explain(&tl, None, Persona::Flat);
    assert!(ex.success);
    assert!(ex.text.contains("completed"), "flat must say completed");
    assert!(ex.text.contains("what time is it"), "flat must name utterance");
}

#[test]
fn ac2_stt_uncertain_distinct_sentence() {
    let recs = failure_records("t-unc", "wm.stt.uncertain");
    let tl = trace_turn("t-unc", &recs).unwrap();
    let ex = explain(&tl, None, Persona::Hearth);
    assert!(!ex.success);
    assert!(ex.text.contains("couldn't make out any words"), "got: {}", ex.text);
}

#[test]
fn ac2_dialog_timeout_distinct_sentence() {
    let recs = failure_records("t-to", "wm.dialog.timeout");
    let tl = trace_turn("t-to", &recs).unwrap();
    let ex = explain(&tl, None, Persona::Hearth);
    assert!(!ex.success);
    assert!(
        ex.text.contains("went quiet") || ex.text.contains("confirm"),
        "got: {}",
        ex.text
    );
}

#[test]
fn ac2_brain_error_distinct_sentence() {
    let recs = failure_records("t-be", "wm.brain.error");
    let tl = trace_turn("t-be", &recs).unwrap();
    let ex = explain(&tl, None, Persona::Hearth);
    assert!(!ex.success);
    assert!(ex.text.contains("thinking step failed"), "got: {}", ex.text);
}

#[test]
fn ac2_tts_error_distinct_sentence() {
    let recs = failure_records("t-tts", "wm.tts.error");
    let tl = trace_turn("t-tts", &recs).unwrap();
    let ex = explain(&tl, None, Persona::Hearth);
    assert!(!ex.success);
    assert!(ex.text.contains("couldn't speak it"), "got: {}", ex.text);
}

#[test]
fn ac2_stt_error_distinct_sentence() {
    let recs = failure_records("t-se", "wm.stt.error");
    let tl = trace_turn("t-se", &recs).unwrap();
    let ex = explain(&tl, None, Persona::Hearth);
    assert!(!ex.success);
    assert!(ex.text.contains("speech recognition failed"), "got: {}", ex.text);
}

#[test]
fn ac2_dialog_unheard_distinct_sentence() {
    let recs = failure_records("t-du", "wm.dialog.unheard");
    let tl = trace_turn("t-du", &recs).unwrap();
    let ex = explain(&tl, None, Persona::Hearth);
    assert!(!ex.success);
    assert!(ex.text.contains("lost track"), "got: {}", ex.text);
}

#[test]
fn ac3_deterministic_same_input_same_output() {
    let recs = happy_records("t-det");
    let tl = trace_turn("t-det", &recs).unwrap();
    let a = explain(&tl, None, Persona::Hearth);
    let b = explain(&tl, None, Persona::Hearth);
    assert_eq!(a.text, b.text, "explain must be deterministic");
}

#[test]
fn ac3_golden_failure_brain_error() {
    let recs = failure_records("t-gold", "wm.brain.error");
    let tl = trace_turn("t-gold", &recs).unwrap();
    let ex = explain(&tl, None, Persona::Hearth);
    assert_eq!(
        ex.text,
        "I understood you but my thinking step failed.",
        "golden hearth brain-error sentence changed"
    );
}

#[test]
fn ac3_golden_failure_stt_uncertain() {
    let recs = failure_records("t-g2", "wm.stt.uncertain");
    let tl = trace_turn("t-g2", &recs).unwrap();
    let ex = explain(&tl, None, Persona::Hearth);
    assert_eq!(
        ex.text,
        "I started listening but couldn't make out any words.",
        "golden hearth stt-uncertain sentence changed"
    );
}

#[test]
fn ac5_hearth_vs_flat_differ_for_success() {
    let recs = happy_records("t-p");
    let tl = trace_turn("t-p", &recs).unwrap();
    let hearth = explain(&tl, None, Persona::Hearth);
    let flat = explain(&tl, None, Persona::Flat);
    assert_ne!(hearth.text, flat.text, "personas must produce different text");
    assert!(hearth.text.contains("You said"), "hearth must use 'You said'");
    assert!(flat.text.contains("status=completed"), "flat must use key=value");
}

#[test]
fn ac5_hearth_vs_flat_differ_for_failure() {
    let recs = failure_records("t-pf", "wm.brain.error");
    let tl = trace_turn("t-pf", &recs).unwrap();
    let hearth = explain(&tl, None, Persona::Hearth);
    let flat = explain(&tl, None, Persona::Flat);
    assert_ne!(hearth.text, flat.text, "personas must produce different text for failure");
    assert!(flat.text.contains("status=failed"), "flat must say status=failed");
}

#[test]
fn ac7_explain_is_sync_and_pure() {
    let recs = happy_records("t-pure");
    let tl = trace_turn("t-pure", &recs).unwrap();
    let ex = explain(&tl, None, Persona::Flat);
    assert!(ex.success);
}

#[test]
fn a_completed_turn_is_told_in_full() {
    let recs = happy_records("t-full");
    let tl = trace_turn("t-full", &recs).unwrap();
    let mind = assemble_records("t-full", &recs).unwrap();
    assert_eq!(
        explain(&tl, Some(&mind), Persona::Hearth).text,
        "You said \"what time is it\" and I replied \"It's about 3:45\". I routed it through \
         sonnet (sonnet-4-6) and the whole turn took 8.4 seconds."
    );
    assert_eq!(
        explain(&tl, Some(&mind), Persona::Flat).text,
        "turn=t-full status=completed utterance=\"what time is it\" via sonnet \
         (sonnet-4-6) reply=\"It's about 3:45\" latency=8.4s"
    );
    assert_eq!(
        explain(&tl, None, Persona::Hearth).text,
        "You said \"what time is it\" and I answered. The whole turn took 8.4 seconds."
    );
    assert_eq!(
        explain(&tl, None, Persona::Flat).text,
        "turn=t-full status=completed utterance=\"what time is it\" latency=8.4s"
    );
}

#[test]
fn what_is_not_known_is_said_to_be_so() {
    let recs = vec![rec(10, "wm.tts.end", "t", &[])];
    let tl = trace_turn("t", &recs).unwrap();
    let mind = assemble_records("t", &recs).unwrap();
    assert_eq!(
        explain(&tl, Some(&mind), Persona::Hearth).text,
        "You said \"something\" and I answered. I routed it through an unknown tier and the \
         whole turn took 0.0 seconds."
    );
}

#[test]
fn a_stalled_turn_is_told_with_its_cause() {
    let recs = vec![rec(10, "wm.brain.route", "t", &[])];
    let tl = trace_turn("t", &recs).unwrap();
    let hearth = explain(&tl, None, Persona::Hearth);
    assert!(!hearth.success);
    assert_eq!(hearth.text, "I understood you but my thinking step didn't produce a reply.");
    assert_eq!(
        explain(&tl, None, Persona::Flat).text,
        "status=stalled last=wm.brain.route cause=\"I understood you but my thinking step \
         didn't produce a reply\""
    );
    let failed = trace_turn("t", &failure_records("t", "wm.tts.error")).unwrap();
    assert_eq!(
        explain(&failed, None, Persona::Flat).text,
        "status=failed failure=wm.tts.error cause=\"I had the answer but couldn't speak it\""
    );
}

#[test]
fn every_stall_has_its_cause() {
    let never = "I never heard my name, so I didn't start listening";
    let unclear = "I started listening but couldn't make out any words";
    let dialog = "I understood what you said but my dialog system didn't pick it up";
    let router = "I received your message but my brain router never started";
    let thinking = "I understood you but my thinking step didn't produce a reply";
    let silent = "I had the answer but my text-to-speech system never started";
    let speaking = "I started speaking but my text-to-speech stream didn't finish";
    assert_eq!(stall_cause("", None), never);
    assert_eq!(stall_cause("audio.wake", Some("wm.stt.final")), never);
    assert_eq!(
        stall_cause("wm.audio.wake", Some("wm.stt.final")),
        "I heard my name but speech capture never started"
    );
    assert_eq!(
        stall_cause("wm.audio.speech.start", None),
        "I started listening but you stopped speaking before I could capture anything"
    );
    assert_eq!(stall_cause("wm.audio.speech.end", None), unclear);
    assert_eq!(stall_cause("wm.x", Some("wm.stt.final")), unclear);
    assert_eq!(stall_cause("wm.stt.final", None), dialog);
    assert_eq!(stall_cause("wm.x", Some("wm.dialog.turn.user")), dialog);
    assert_eq!(stall_cause("wm.dialog.turn.user", None), router);
    assert_eq!(stall_cause("wm.x", Some("wm.brain.route")), router);
    assert_eq!(stall_cause("wm.brain.route", None), thinking);
    assert_eq!(stall_cause("wm.x", Some("wm.brain.reply")), thinking);
    assert_eq!(stall_cause("wm.brain.reply", None), silent);
    assert_eq!(stall_cause("wm.x", Some("wm.tts.start")), silent);
    assert_eq!(stall_cause("wm.tts.start", None), speaking);
    assert_eq!(stall_cause("wm.x", Some("wm.tts.end")), speaking);
    assert_eq!(stall_cause("wm.x", None), "the turn stopped unexpectedly before completing");
    assert_eq!(
        stall_cause("wm.x", Some("wm.y")),
        "the turn stopped unexpectedly before completing"
    );
}

#[test]
fn failures_have_sentences_of_their_own() {
    for a in FAILURE_TOPICS {
        for b in FAILURE_TOPICS {
            assert_eq!(a == b, failure_cause(a) == failure_cause(b));
        }
    }
    assert_eq!(failure_cause("wm.other"), "an unexpected error ended the turn");
}

#[test]
fn a_long_reply_is_cut() {
    assert_eq!(truncate("abc", 3), "abc");
    assert_eq!(truncate("äöüß", 3), "äöü…");
    let mut recs = happy_records("t");
    let long = "x".repeat(61);
    recs.push(rec(7140, "wm.brain.reply", "t", &[("text", text(&long))]));
    let tl = trace_turn("t", &recs).unwrap();
    let mind = assemble_records("t", &recs).unwrap();
    let cut = format!("I replied \"{}…\".", "x".repeat(60));
    assert!(explain(&tl, Some(&mind), Persona::Hearth).text.contains(&cut));
}

#[test]
fn personas_are_named_in_any_case() {
    assert_eq!(Persona::default(), Persona::Flat);
    assert_eq!("HEARTH".parse::<Persona>(), Ok(Persona::Hearth));
    assert_eq!("flat".parse::<Persona>(), Ok(Persona::Flat));
    assert_eq!(Persona::parse("Flat"), Ok(Persona::Flat));
    for word in ["Loud", "", "a\"b\\c", "\u{7}\t\n", "ÉTÉ \u{301}\u{200b}", "flat "] {
        let other = word.to_ascii_lowercase();
        assert_eq!(
            word.parse::<Persona>(),
            Err(format!("unknown persona {other:?}; expected hearth or flat"))
        );
    }
    assert_eq!(unknown_persona("<x>"), "unknown persona <x>; expected hearth or flat");
}
