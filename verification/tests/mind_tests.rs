//! What the brain did in a turn.

use wintermute_lucid::mind::{
    assemble_records, decode_reason, latest_turn, render, ContextPayload, RoutePayload, TurnMind,
};
use wintermute_lucid::{Payload, Record};

fn text(t: &str) -> Payload {
    Payload::Text(t.to_string())
}

fn object(members: &[(&str, Payload)]) -> Payload {
    Payload::Object(members.iter().map(|(k, v)| (k.to_string(), v.clone())).collect())
}

fn rec(ts: u64, topic: &str, members: &[(&str, Payload)]) -> Record {
    Record::new(ts, topic.to_string(), "peer".to_string(), object(members))
}

fn assembled(records: &[Record]) -> TurnMind {
    assemble_records("t", records).expect("a mind")
}

#[test]
fn decode_reason_known_variants() {
    assert!(decode_reason("command").contains("command/control"));
    assert!(decode_reason("conversational").contains("cloud for quality"));
    assert!(decode_reason("no_key").contains("API key"));
    assert!(decode_reason("offline").contains("offline"));
    assert!(decode_reason("cloud_timeout_fallback").contains("latency budget"));
    assert!(decode_reason("total_failure").contains("canned degrade"));
    assert!(decode_reason("prefer_local_only").contains("local-only"));
    assert!(decode_reason("prefer_cloud_only").contains("cloud-only"));
    assert!(decode_reason("override").contains("swap-model"));
}

#[test]
fn decode_reason_unknown_passthrough() {
    let s = decode_reason("some_future_reason_code");
    assert!(s.contains("some_future_reason_code"));
}

#[test]
fn a_turn_without_records_has_no_mind() {
    assert!(assemble_records("t", &[]).is_none());
}

#[test]
fn the_latest_readable_route_counts() {
    let mind = assembled(&[
        rec(1, "wm.brain.route", &[("tier", text("a")), ("reason", text("offline"))]),
        rec(2, "wm.brain.route", &[("tier", text("b")), ("latency_ms", Payload::UInt(7))]),
        rec(3, "wm.brain.route", &[("tier", Payload::UInt(1))]),
        rec(4, "wm.brain.route", &[("latency_ms", Payload::Float("1.5".to_string()))]),
    ]);
    assert_eq!(mind.tier.as_deref(), Some("b"));
    assert_eq!(mind.latency_ms, Some(7));
    assert_eq!(mind.reason_raw, None);
    assert_eq!(mind.reason_human, None);
    assert!(!mind.context_available);
}

#[test]
fn payloads_are_read_by_name_or_by_place() {
    let route = RoutePayload::from_payload(&Payload::Array(vec![
        text("tier"),
        Payload::Null,
        Payload::UInt(3),
    ]))
    .expect("route");
    assert_eq!(route.tier.as_deref(), Some("tier"));
    assert_eq!((route.reason, route.latency_ms, route.model), (None, Some(3), None));
    let five = Payload::Array(vec![Payload::Null; 5]);
    assert!(RoutePayload::from_payload(&five).is_none());
    assert!(RoutePayload::from_payload(&Payload::Null).is_none());
    assert!(RoutePayload::from_payload(&object(&[("extra", Payload::Bool(true))])).is_some());

    let context = ContextPayload::from_payload(&object(&[
        ("recall_hit_subjects", Payload::Array(vec![text("a"), text("b")])),
        ("recall_hit_count", Payload::UInt(4_294_967_295)),
    ]))
    .expect("context");
    assert_eq!(context.recall_hit_subjects, Some(vec!["a".to_string(), "b".to_string()]));
    assert_eq!(context.recall_hit_count, Some(u32::MAX));
    for bad in [
        object(&[("recall_hit_count", Payload::UInt(4_294_967_296))]),
        object(&[("recall_hit_count", Payload::Int(-1))]),
        object(&[("recall_hit_subjects", Payload::Array(vec![Payload::Null]))]),
        object(&[("persona_tier", Payload::Bool(false))]),
        text("x"),
    ] {
        assert!(ContextPayload::from_payload(&bad).is_none());
    }
}

#[test]
fn each_result_goes_to_one_call() {
    let call = |ts: u64, tool: &str, n: u64| {
        rec(ts, "wm.brain.tool.call", &[("tool", text(tool)), ("args", Payload::UInt(n))])
    };
    let result = |ts: u64, tool: &str, n: u64| {
        rec(
            ts,
            "wm.brain.tool.result",
            &[("tool", text(tool)), ("ok", Payload::Bool(n % 2 == 0)), ("body", Payload::UInt(n))],
        )
    };
    let mind = assembled(&[
        call(30, "a", 3),
        result(5, "a", 10),
        call(10, "a", 1),
        call(20, "b", 2),
        result(6, "a", 11),
        call(10, "a", 4),
        call(9, "", 9),
        result(7, "c", 12),
        rec(8, "wm.brain.tool.call", &[("tool", text("c"))]),
        rec(9, "wm.brain.tool.result", &[("tool", Payload::UInt(1))]),
    ]);
    let shown: Vec<(&str, u64, Option<(bool, u64)>)> = mind
        .tools
        .iter()
        .map(|p| {
            let result = p.result.as_ref().map(|(ok, body)| match body {
                Payload::UInt(n) => (*ok, *n),
                other => panic!("unexpected {other:?}"),
            });
            (p.tool.as_str(), p.call_ts, result)
        })
        .collect();
    assert_eq!(
        shown,
        vec![
            ("c", 8, Some((true, 12))),
            ("a", 10, Some((true, 10))),
            ("a", 10, Some((false, 11))),
            ("b", 20, None),
            ("a", 30, None),
        ]
    );
    assert_eq!(mind.tools[0].args, Payload::Null);
    assert_eq!(mind.tools[1].args, Payload::UInt(1));
    assert_eq!(mind.tools[2].args, Payload::UInt(4));
}

#[test]
fn the_latest_reply_with_a_text_counts() {
    let reply = |topic: &str, t: &str| rec(1, topic, &[("text", text(t))]);
    let mut recs = vec![reply("wm.brain.reply", "one")];
    assert!(!assembled(&recs).reply_destructive);
    recs.push(reply("wm.brain.reply.destructive", "two"));
    recs.push(rec(2, "wm.brain.reply", &[("reply", text("three"))]));
    let mind = assembled(&recs);
    assert_eq!(mind.reply_text.as_deref(), Some("two"));
    assert!(mind.reply_destructive);
    recs.push(reply("wm.brain.reply", "four"));
    assert!(!assembled(&recs).reply_destructive);
}

#[test]
fn the_latest_turn_is_that_of_the_last_tagged_record() {
    let mut recs = vec![
        rec(9, "wm.a", &[("turn_id", text("first"))]),
        rec(1, "wm.a", &[("turn_id", text("second"))]),
        rec(5, "wm.a", &[]),
    ];
    assert_eq!(latest_turn(&recs).as_deref(), Some("second"));
    recs.truncate(1);
    assert_eq!(latest_turn(&recs).as_deref(), Some("first"));
    assert_eq!(latest_turn(&[rec(1, "wm.a", &[])]), None);
}

#[test]
fn a_bare_turn_is_shown_as_such() {
    let mind = assembled(&[rec(1, "wm.audio.wake", &[])]);
    assert_eq!(
        render(&mind),
        "╔══ turn: t ══\n\
         ║\n║  ROUTE\n\
         ║    tier:       (not recorded)\n\
         ║    reason:     (not recorded)\n\
         ║\n║  CONTEXT\n\
         ║    (context digest unavailable — turn recorded before wm.brain.context adoption)\n\
         ║\n║  TOOLS\n\
         ║    (no tool calls)\n\
         ║\n║  REPLY\n\
         ║    (no reply recorded)\n\
         ╚══\n"
    );
}

#[test]
fn a_full_turn_is_shown_in_full() {
    let mind = assembled(&[
        rec(
            1,
            "wm.brain.route",
            &[
                ("tier", text("local")),
                ("model", text("m1")),
                ("latency_ms", Payload::UInt(120)),
                ("reason", text("no_key")),
            ],
        ),
        rec(
            2,
            "wm.brain.context",
            &[
                ("recall_hit_count", Payload::UInt(2)),
                ("recall_hit_subjects", Payload::Array(vec![text("tea"), text("cats")])),
                ("persona_tier", text("hearth")),
                ("history_turn_count", Payload::UInt(5)),
            ],
        ),
        rec(
            3,
            "wm.brain.tool.call",
            &[("tool", text("clock")), ("args", object(&[("tz", text("a\"b"))]))],
        ),
        rec(
            4,
            "wm.brain.tool.result",
            &[
                ("tool", text("clock")),
                ("ok", Payload::Bool(true)),
                ("body", Payload::Array(vec![Payload::Int(-1), Payload::Float("0.5".to_string())])),
            ],
        ),
        rec(5, "wm.brain.tool.call", &[("tool", text("web"))]),
        rec(6, "wm.brain.tool.call", &[("tool", text("mail"))]),
        rec(7, "wm.brain.tool.result", &[("tool", text("mail"))]),
        rec(8, "wm.brain.reply.destructive", &[("text", text("done"))]),
    ]);
    assert_eq!(
        render(&mind),
        "╔══ turn: t ══\n\
         ║\n║  ROUTE\n\
         ║    tier:       local\n\
         ║    model:      m1\n\
         ║    latency:    120 ms\n\
         ║    reason:     no_key\n\
         ║                → conversational turn but no Anthropic API key → forced local\n\
         ║\n║  CONTEXT\n\
         ║    recall hits: 2\n\
         ║    recall:\n\
         ║      - tea\n\
         ║      - cats\n\
         ║    persona:     hearth\n\
         ║    history:     5 turns in context\n\
         ║\n║  TOOLS\n\
         ║    clock({\"tz\":\"a\\\"b\"}) → [ok] [-1,0.5]\n\
         ║    web(null) → (pending/no result recorded)\n\
         ║    mail(null) → [err] null\n\
         ║\n║  REPLY\n\
         ║    [destructive] done\n\
         ╚══\n"
    );
    let empty = assembled(&[rec(1, "wm.brain.context", &[])]);
    assert!(empty.context_available);
    assert!(render(&empty).contains("║    recall:      (no memories injected)\n"));
}

#[test]
fn results_follow_the_order_of_calls() {
    let call = |ts: u64, tool: &str| rec(ts, "wm.brain.tool.call", &[("tool", text(tool))]);
    let result = |ts: u64, tool: &str, n: u64| {
        rec(ts, "wm.brain.tool.result", &[("body", Payload::UInt(n)), ("tool", text(tool))])
    };
    let mind = assembled(&[
        result(1, "a", 1),
        call(9, "a"),
        result(2, "b", 10),
        call(5, "b"),
        call(5, "a"),
        result(3, "a", 2),
        call(7, "b"),
        call(8, "a"),
        result(4, "c", 20),
        result(5, "b", 11),
        result(6, "b", 12),
    ]);
    let pairs: Vec<(u64, &str, Option<Payload>)> = mind
        .tools
        .iter()
        .map(|p| (p.call_ts, p.tool.as_str(), p.result.as_ref().map(|r| r.1.clone())))
        .collect();
    assert_eq!(
        pairs,
        vec![
            (5, "b", Some(Payload::UInt(10))),
            (5, "a", Some(Payload::UInt(1))),
            (7, "b", Some(Payload::UInt(11))),
            (8, "a", Some(Payload::UInt(2))),
            (9, "a", None),
        ]
    );
}
