//! What the brain did in a turn, and how it is shown.

use crate::laws::ends;
use crate::mind::{
    calls_in, context_of, context_text, last_context, last_reply, last_route, last_turn, mind_of,
    mind_text, pair_text, pairs_text, reason_text, reply_display, results_in, route_of, route_text,
    subjects_text, tools_text, CallView, MindView, PairView, ResultView,
};
use crate::payload::{
    field, json_text, member_or_null, optional_number, optional_text, optional_texts, text_member,
    Json,
};
use crate::record::RecordView;
use crate::text::decimal;
use vstd::prelude::*;

verus! {

/// A route is read from an object by the names of its four fields, or from an
/// array of at most four items by their places. Each may be left out or null;
/// where one is of another type, there is no route.
pub proof fn routes_are_read_by_name_or_place(j: Json)
    ensures
        ({
            let tier = optional_text(field(j, "tier"@, 0));
            let reason = optional_text(field(j, "reason"@, 1));
            let latency = optional_number(field(j, "latency_ms"@, 2), u64::MAX);
            let model = optional_text(field(j, "model"@, 3));
            let known = tier is Some && reason is Some && latency is Some && model is Some;
            &&& j is Object || (j is Array && j->Array_0.len() <= 4) ==> (route_of(j) is Some
                <==> known)
            &&& j is Array && j->Array_0.len() > 4 ==> route_of(j) is None
            &&& !(j is Object) && !(j is Array) ==> route_of(j) is None
            &&& route_of(j) matches Some(r) ==> tier == Some(r.tier) && reason == Some(r.reason)
                && latency == Some(r.latency_ms) && model == Some(r.model)
        }),
{
}

/// A context is read from an object by the names of its four fields, or from an
/// array of at most four items by their places. Each may be left out or null;
/// where one is of another type, there is no context.
pub proof fn contexts_are_read_by_name_or_place(j: Json)
    ensures
        ({
            let subjects = optional_texts(field(j, "recall_hit_subjects"@, 0));
            let hits = optional_number(field(j, "recall_hit_count"@, 1), 0xffff_ffff);
            let persona = optional_text(field(j, "persona_tier"@, 2));
            let turns = optional_number(field(j, "history_turn_count"@, 3), 0xffff_ffff);
            let known = subjects is Some && hits is Some && persona is Some && turns is Some;
            &&& j is Object || (j is Array && j->Array_0.len() <= 4) ==> (context_of(j) is Some
                <==> known)
            &&& j is Array && j->Array_0.len() > 4 ==> context_of(j) is None
            &&& !(j is Object) && !(j is Array) ==> context_of(j) is None
            &&& context_of(j) matches Some(c) ==> {
                &&& subjects == Some(c.recall_hit_subjects)
                &&& persona == Some(c.persona_tier)
                &&& hits->0 is Some <==> c.recall_hit_count is Some
                &&& hits->0 is Some ==> hits->0->0 == c.recall_hit_count->0
                &&& turns->0 is Some <==> c.history_turn_count is Some
                &&& turns->0 is Some ==> turns->0->0 == c.history_turn_count->0
            }
        }),
{
}

/// Whether record `k` is the last that tells a route; -1 where none does.
pub open spec fn is_last_route(recs: Seq<RecordView>, k: int) -> bool {
    &&& -1 <= k < recs.len()
    &&& k >= 0 ==> recs[k].topic == "wm.brain.route"@ && route_of(recs[k].raw_payload) is Some
    &&& forall|j: int|
        k < j < recs.len() ==> (#[trigger] recs[j]).topic != "wm.brain.route"@ || route_of(
            recs[j].raw_payload,
        ) is None
}

proof fn lemma_last_route(recs: Seq<RecordView>, n: int, k: int)
    requires
        is_last_route(recs, k),
        k < n <= recs.len(),
        0 <= n,
    ensures
        last_route(recs, n) == (if k >= 0 {
            route_of(recs[k].raw_payload)
        } else {
            None
        }),
    decreases n,
{
    if n > 0 && k < n - 1 {
        assert(recs[n - 1].topic != "wm.brain.route"@ || route_of(recs[n - 1].raw_payload) is None);
        lemma_last_route(recs, n - 1, k);
    }
}

/// The route of a turn is that of the last record that tells one: its tier, its
/// model, its latency and its reason, with the reason in plain words. A turn
/// without one has none of these.
pub proof fn the_last_route_counts(turn_id: Seq<char>, recs: Seq<RecordView>, k: int)
    requires
        is_last_route(recs, k),
    ensures
        ({
            let m = mind_of(turn_id, recs);
            &&& m.turn_id == turn_id
            &&& k >= 0 ==> {
                let r = route_of(recs[k].raw_payload)->0;
                &&& m.tier == r.tier
                &&& m.model == r.model
                &&& m.latency_ms == r.latency_ms
                &&& m.reason_raw == r.reason
                &&& r.reason is Some ==> m.reason_human == Some(reason_text(r.reason->0))
                &&& r.reason is None ==> m.reason_human is None
            }
            &&& k < 0 ==> m.tier is None && m.model is None && m.latency_ms is None
                && m.reason_raw is None && m.reason_human is None
        }),
{
    lemma_last_route(recs, recs.len() as int, k);
}

/// Whether record `k` is the last that tells a context; -1 where none does.
pub open spec fn is_last_context(recs: Seq<RecordView>, k: int) -> bool {
    &&& -1 <= k < recs.len()
    &&& k >= 0 ==> recs[k].topic == "wm.brain.context"@ && context_of(recs[k].raw_payload) is Some
    &&& forall|j: int|
        k < j < recs.len() ==> (#[trigger] recs[j]).topic != "wm.brain.context"@ || context_of(
            recs[j].raw_payload,
        ) is None
}

proof fn lemma_last_context(recs: Seq<RecordView>, n: int, k: int)
    requires
        is_last_context(recs, k),
        k < n <= recs.len(),
        0 <= n,
    ensures
        last_context(recs, n) == (if k >= 0 {
            context_of(recs[k].raw_payload)
        } else {
            None
        }),
    decreases n,
{
    if n > 0 && k < n - 1 {
        assert(recs[n - 1].topic != "wm.brain.context"@ || context_of(recs[n - 1].raw_payload)
            is None);
        lemma_last_context(recs, n - 1, k);
    }
}

/// The context of a turn is that of the last record that tells one. A turn
/// without one has no context, and nothing is recalled.
pub proof fn the_last_context_counts(turn_id: Seq<char>, recs: Seq<RecordView>, k: int)
    requires
        is_last_context(recs, k),
    ensures
        ({
            let m = mind_of(turn_id, recs);
            &&& m.context_available <==> k >= 0
            &&& k >= 0 ==> {
                let c = context_of(recs[k].raw_payload)->0;
                &&& c.recall_hit_subjects is Some ==> m.recall_subjects == c.recall_hit_subjects->0
                &&& c.recall_hit_subjects is None ==> m.recall_subjects.len() == 0
                &&& m.recall_hit_count == c.recall_hit_count
                &&& m.persona_tier == c.persona_tier
                &&& m.history_turn_count == c.history_turn_count
            }
            &&& k < 0 ==> m.recall_subjects.len() == 0 && m.recall_hit_count is None
                && m.persona_tier is None && m.history_turn_count is None
        }),
{
    lemma_last_context(recs, recs.len() as int, k);
}

/// Whether a record tells a reply: its topic is that of a reply, and its payload
/// has a text.
pub open spec fn tells_a_reply(rec: RecordView) -> bool {
    &&& rec.topic == "wm.brain.reply"@ || rec.topic == "wm.brain.reply.destructive"@
    &&& text_member(rec.raw_payload, "text"@) is Some
}

proof fn lemma_last_reply(recs: Seq<RecordView>, n: int, k: int)
    requires
        -1 <= k < n <= recs.len() || (k == -1 && n == 0),
        k >= 0 ==> tells_a_reply(recs[k]),
        forall|j: int| k < j < n ==> !tells_a_reply(#[trigger] recs[j]),
    ensures
        last_reply(recs, n) == (if k >= 0 {
            Some(
                (
                    text_member(recs[k].raw_payload, "text"@)->0,
                    recs[k].topic == "wm.brain.reply.destructive"@,
                ),
            )
        } else {
            None
        }),
    decreases n,
{
    lemma_reply_topics();
    if n > 0 && k < n - 1 {
        assert(!tells_a_reply(recs[n - 1]));
        lemma_last_reply(recs, n - 1, k);
    }
}

/// The reply of a turn is the text of the last record that tells one, and the
/// display ends with it: labelled as destructive where that record is a
/// destructive reply, as normal where it is not. Only where no record tells a
/// reply, the display says so.
pub proof fn the_last_reply_is_shown(turn_id: Seq<char>, recs: Seq<RecordView>, k: int)
    requires
        -1 <= k < recs.len(),
        k >= 0 ==> tells_a_reply(recs[k]),
        forall|j: int| k < j < recs.len() ==> !tells_a_reply(#[trigger] recs[j]),
    ensures
        ({
            let m = mind_of(turn_id, recs);
            &&& k >= 0 ==> m.reply_text == text_member(recs[k].raw_payload, "text"@)
            &&& k < 0 ==> m.reply_text is None
            &&& m.reply_destructive <==> k >= 0 && recs[k].topic == "wm.brain.reply.destructive"@
            &&& k >= 0 && recs[k].topic == "wm.brain.reply"@ ==> ends(
                mind_text(m),
                "║\n║  REPLY\n"@ + "║    [normal] "@ + text_member(recs[k].raw_payload, "text"@)->0
                    + "\n"@ + "╚══\n"@,
            )
            &&& k >= 0 && recs[k].topic == "wm.brain.reply.destructive"@ ==> ends(
                mind_text(m),
                "║\n║  REPLY\n"@ + "║    [destructive] "@ + text_member(
                    recs[k].raw_payload,
                    "text"@,
                )->0 + "\n"@ + "╚══\n"@,
            )
            &&& k < 0 ==> ends(
                mind_text(m),
                "║\n║  REPLY\n"@ + "║    (no reply recorded)\n"@ + "╚══\n"@,
            )
        }),
{
    lemma_reply_topics();
    lemma_last_reply(recs, recs.len() as int, k);
    replies_are_shown_with_their_label(mind_of(turn_id, recs));
}

/// The display of what the brain did ends with the reply, if there is one.
pub proof fn replies_are_shown_with_their_label(m: MindView)
    ensures
        m.reply_text is Some && !m.reply_destructive ==> ends(
            mind_text(m),
            "║\n║  REPLY\n"@ + "║    [normal] "@ + m.reply_text->0 + "\n"@ + "╚══\n"@,
        ),
        m.reply_text is Some && m.reply_destructive ==> ends(
            mind_text(m),
            "║\n║  REPLY\n"@ + "║    [destructive] "@ + m.reply_text->0 + "\n"@ + "╚══\n"@,
        ),
        m.reply_text is None ==> ends(
            mind_text(m),
            "║\n║  REPLY\n"@ + "║    (no reply recorded)\n"@ + "╚══\n"@,
        ),
{
    let head = "╔══ turn: "@ + m.turn_id + " ══\n"@ + route_text(m) + context_text(m) + tools_text(
        m,
    );
    let r = reply_display(m);
    let end = "╚══\n"@;
    assert(mind_text(m) =~= head + (r + end));
    match m.reply_text {
        Some(t) => {
            let label = if m.reply_destructive {
                "║    [destructive] "@
            } else {
                "║    [normal] "@
            };
            assert(r + end =~= "║\n║  REPLY\n"@ + label + t + "\n"@ + end);
        },
        None => {},
    }
}

/// The display names the turn, and shows the route, the context, the tools and
/// the reply, in this order.
pub proof fn a_mind_is_shown_in_four_parts(m: MindView)
    ensures
        mind_text(m) == "╔══ turn: "@ + m.turn_id + " ══\n"@ + route_text(m) + context_text(m)
            + tools_text(m) + reply_display(m) + "╚══\n"@,
{
}

/// The route is shown with the tier, the model, the latency and the reason with
/// what it means: the tier and the reason in any case, the others where they are
/// recorded.
pub proof fn a_route_is_shown_with_what_it_has(m: MindView)
    ensures
        route_text(m) == "║\n║  ROUTE\n"@ + (match m.tier {
            Some(tier) => "║    tier:       "@ + tier + "\n"@,
            None => "║    tier:       (not recorded)\n"@,
        }) + (match m.model {
            Some(model) => "║    model:      "@ + model + "\n"@,
            None => ""@,
        }) + (match m.latency_ms {
            Some(ms) => "║    latency:    "@ + decimal(ms as nat) + " ms\n"@,
            None => ""@,
        }) + (match (m.reason_raw, m.reason_human) {
            (Some(raw), Some(human)) => "║    reason:     "@ + raw + "\n"@
                + "║                → "@ + human + "\n"@,
            (Some(raw), None) => "║    reason:     "@ + raw + "\n"@,
            (None, _) => "║    reason:     (not recorded)\n"@,
        }),
{
    reveal_strlit("");
    match (m.reason_raw, m.reason_human) {
        (Some(raw), Some(human)) => {
            assert(crate::mind::reason_lines(m) =~= "║    reason:     "@ + raw + "\n"@
                + "║                → "@ + human + "\n"@);
        },
        (Some(raw), None) => {
            assert(crate::mind::reason_lines(m) =~= "║    reason:     "@ + raw + "\n"@);
        },
        (None, _) => {},
    }
}

/// The context is shown with how much was recalled, each subject on a line, the
/// persona and the number of earlier turns; or with why there is none.
pub proof fn a_context_is_shown_with_what_it_has(m: MindView)
    ensures
        !m.context_available ==> context_text(m) == "║\n║  CONTEXT\n"@
            + "║    (context digest unavailable — turn recorded before wm.brain.context adoption)\n"@,
        m.context_available ==> context_text(m) == "║\n║  CONTEXT\n"@ + (
        match m.recall_hit_count {
            Some(n) => "║    recall hits: "@ + decimal(n as nat) + "\n"@,
            None => ""@,
        }) + (if m.recall_subjects.len() == 0 {
            "║    recall:      (no memories injected)\n"@
        } else {
            "║    recall:\n"@ + subjects_text(m.recall_subjects)
        }) + (match m.persona_tier {
            Some(tier) => "║    persona:     "@ + tier + "\n"@,
            None => ""@,
        }) + (match m.history_turn_count {
            Some(n) => "║    history:     "@ + decimal(n as nat) + " turns in context\n"@,
            None => ""@,
        }),
{
    let hits = match m.recall_hit_count {
        Some(n) => "║    recall hits: "@ + decimal(n as nat) + "\n"@,
        None => ""@,
    };
    let recall = if m.recall_subjects.len() == 0 {
        "║    recall:      (no memories injected)\n"@
    } else {
        "║    recall:\n"@ + subjects_text(m.recall_subjects)
    };
    if m.context_available {
        assert(crate::mind::recall_text(m) == hits + recall);
        lemma_assoc("║\n║  CONTEXT\n"@, hits, recall);
    }
}

proof fn lemma_assoc(a: Seq<char>, b: Seq<char>, c: Seq<char>)
    ensures
        a + (b + c) == a + b + c,
{
    assert(a + (b + c) =~= a + b + c);
}

/// Each subject that was recalled has a line of its own.
pub proof fn subjects_are_shown_line_by_line(subjects: Seq<Seq<char>>, subject: Seq<char>)
    ensures
        subjects_text(Seq::empty()).len() == 0,
        subjects_text(subjects.push(subject)) == subjects_text(subjects) + ("║      - "@ + subject
            + "\n"@),
{
    assert(subjects.push(subject).drop_last() =~= subjects);
}

/// Each tool call has a line of its own, with its arguments and with what came
/// back: whether it succeeded and what it gave, or that nothing came.
pub proof fn tools_are_shown_line_by_line(pairs: Seq<PairView>, p: PairView, m: MindView)
    ensures
        m.tools.len() == 0 ==> tools_text(m) == "║\n║  TOOLS\n"@ + "║    (no tool calls)\n"@,
        m.tools.len() > 0 ==> tools_text(m) == "║\n║  TOOLS\n"@ + pairs_text(m.tools),
        pairs_text(Seq::empty()).len() == 0,
        pairs_text(pairs.push(p)) == pairs_text(pairs) + pair_text(p),
        p.result is None ==> pair_text(p) == "║    "@ + p.tool + "("@ + json_text(p.args)
            + ") → (pending/no result recorded)\n"@,
        forall|body: Json|
            p.result == Some((true, body)) ==> pair_text(p) == "║    "@ + p.tool + "("@
                + json_text(p.args) + ") → [ok] "@ + #[trigger] json_text(body) + "\n"@,
        forall|body: Json|
            p.result == Some((false, body)) ==> pair_text(p) == "║    "@ + p.tool + "("@
                + json_text(p.args) + ") → [err] "@ + #[trigger] json_text(body) + "\n"@,
{
    assert(pairs.push(p).drop_last() =~= pairs);
    reveal_strlit(") → [");
    reveal_strlit("ok");
    reveal_strlit("err");
    reveal_strlit("] ");
    reveal_strlit(") → [ok] ");
    reveal_strlit(") → [err] ");
    assert(") → ["@ + "ok"@ + "] "@ =~= ") → [ok] "@);
    assert(") → ["@ + "err"@ + "] "@ =~= ") → [err] "@);
    let head = "║    "@ + p.tool + "("@ + json_text(p.args);
    match p.result {
        Some((ok, body)) => {
            if ok {
                assert(pair_text(p) =~= head + (") → ["@ + "ok"@ + "] "@) + json_text(body)
                    + "\n"@);
            } else {
                assert(pair_text(p) =~= head + (") → ["@ + "err"@ + "] "@) + json_text(body)
                    + "\n"@);
            }
        },
        None => {},
    }
}

/// A record is a tool call where its topic says so and its payload names the tool
/// by a text that is not empty: the call of that tool, with what stands under
/// `args`, at the time of the record. Any other record adds no call.
pub proof fn calls_are_taken_from_their_records(recs: Seq<RecordView>, rec: RecordView, tool: Seq<char>)
    ensures
        calls_in(recs, 0).len() == 0,
        rec.topic == "wm.brain.tool.call"@ && text_member(rec.raw_payload, "tool"@) == Some(tool)
            && tool.len() > 0 ==> calls_in(recs.push(rec), recs.len() as int + 1) == calls_in(
            recs,
            recs.len() as int,
        ).push(
            CallView {
                ts: rec.ts_received,
                tool,
                args: member_or_null(rec.raw_payload, "args"@),
            },
        ),
        rec.topic != "wm.brain.tool.call"@ || text_member(rec.raw_payload, "tool"@) is None
            || text_member(rec.raw_payload, "tool"@)->0.len() == 0 ==> calls_in(
            recs.push(rec),
            recs.len() as int + 1,
        ) == calls_in(recs, recs.len() as int),
{
    lemma_earlier_records(recs, rec, recs.len() as int);
}

/// A record is a tool's result where its topic says so and its payload names the
/// tool by a text that is not empty: the result of that tool, a success where
/// `ok` is true, with what stands under `body`. Any other record adds no result.
pub proof fn results_are_taken_from_their_records(
    recs: Seq<RecordView>,
    rec: RecordView,
    tool: Seq<char>,
)
    ensures
        results_in(recs, 0).len() == 0,
        rec.topic == "wm.brain.tool.result"@ && text_member(rec.raw_payload, "tool"@) == Some(tool)
            && tool.len() > 0 ==> results_in(recs.push(rec), recs.len() as int + 1) == results_in(
            recs,
            recs.len() as int,
        ).push(
            ResultView {
                tool,
                ok: crate::payload::member(rec.raw_payload, "ok"@) == Some(Json::Bool(true)),
                body: member_or_null(rec.raw_payload, "body"@),
            },
        ),
        rec.topic != "wm.brain.tool.result"@ || text_member(rec.raw_payload, "tool"@) is None
            || text_member(rec.raw_payload, "tool"@)->0.len() == 0 ==> results_in(
            recs.push(rec),
            recs.len() as int + 1,
        ) == results_in(recs, recs.len() as int),
{
    lemma_earlier_records(recs, rec, recs.len() as int);
}

proof fn lemma_earlier_records(recs: Seq<RecordView>, rec: RecordView, n: int)
    requires
        0 <= n <= recs.len(),
    ensures
        calls_in(recs.push(rec), n) == calls_in(recs, n),
        results_in(recs.push(rec), n) == results_in(recs, n),
    decreases n,
{
    if n > 0 {
        lemma_earlier_records(recs, rec, n - 1);
        assert(recs.push(rec)[n - 1] == recs[n - 1]);
    }
}

/// The turn that was recorded last is that of the last record that has one.
pub proof fn the_last_tagged_record_names_the_turn(recs: Seq<RecordView>, n: int, k: int)
    requires
        0 <= n <= recs.len(),
        -1 <= k < n || k == -1,
        k >= 0 ==> recs[k].turn_id is Some,
        forall|j: int| k < j < n ==> (#[trigger] recs[j]).turn_id is None,
    ensures
        last_turn(recs, n) == (if k >= 0 {
            recs[k].turn_id
        } else {
            None
        }),
    decreases n,
{
    if n > 0 && k < n - 1 {
        assert(recs[n - 1].turn_id is None);
        the_last_tagged_record_names_the_turn(recs, n - 1, k);
    }
}

/// What a reason means.
pub open spec fn reason_means(reason: Seq<char>, words: Seq<char>) -> bool {
    ||| reason == "command"@ && words
        == "turn classified as command/control → low-latency local path"@
    ||| reason == "conversational"@ && words
        == "turn classified as conversational, API key present, online → cloud for quality"@
    ||| reason == "no_key"@ && words
        == "conversational turn but no Anthropic API key → forced local"@
    ||| reason == "offline"@ && words == "conversational turn but network offline → forced local"@
    ||| reason == "cloud_timeout_fallback"@ && words
        == "cloud exceeded latency budget → fell back to local tier"@
    ||| reason == "total_failure"@ && words
        == "both local and cloud unavailable → canned degrade phrase used"@
    ||| reason == "prefer_local_only"@ && words
        == "deployment-wide prefer=local-only override in force"@
    ||| reason == "prefer_cloud_only"@ && words
        == "deployment-wide prefer=cloud-only override in force"@
    ||| reason == "override"@ && words == "per-turn model override set via `wmd swap-model`"@
}

/// A reason that is known is told by what it means, any other by itself.
pub proof fn reasons_are_told_by_what_they_mean(reason: Seq<char>)
    ensures
        reason_means(reason, reason_text(reason)) || reason_text(reason)
            == "unknown reason code: "@ + reason,
        forall|words: Seq<char>| #[trigger]
            reason_means(reason, words) ==> reason_text(reason) == words,
{
    lemma_reasons();
}

/// The topics of replies differ.
proof fn lemma_reply_topics()
    ensures
        "wm.brain.reply"@.len() == 14,
        "wm.brain.reply.destructive"@.len() == 26,
{
    reveal_strlit("wm.brain.reply");
    reveal_strlit("wm.brain.reply.destructive");
}

/// The reasons differ.
proof fn lemma_reasons()
    ensures
        "command"@.len() == 7,
        "command"@[0] == 'c',
        "conversational"@.len() == 14,
        "no_key"@.len() == 6,
        "offline"@.len() == 7,
        "offline"@[0] == 'o',
        "cloud_timeout_fallback"@.len() == 22,
        "total_failure"@.len() == 13,
        "prefer_local_only"@.len() == 17,
        "prefer_local_only"@[7] == 'l',
        "prefer_cloud_only"@.len() == 17,
        "prefer_cloud_only"@[7] == 'c',
        "override"@.len() == 8,
{
    reveal_strlit("command");
    reveal_strlit("conversational");
    reveal_strlit("no_key");
    reveal_strlit("offline");
    reveal_strlit("cloud_timeout_fallback");
    reveal_strlit("total_failure");
    reveal_strlit("prefer_local_only");
    reveal_strlit("prefer_cloud_only");
    reveal_strlit("override");
}

} // verus!
