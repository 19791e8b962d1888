//! What the brain did in a turn: how it routed it, what it was reminded of,
//! which tools it called, and what it replied.

use crate::order::{
    comes_first, pick, positions, sort_order, sort_order_is_sorted, sorted_order,
};
use crate::payload::{
    field, fits, flag_member, json_text, member_or_null, optional_number, optional_text,
    optional_texts, text_member, Json, Payload,
};
use crate::record::{Record, RecordError, RecordView};
use crate::segment::segments_in;
use crate::store::{all_records, located, locations, LucidStore};
use crate::text::{decimal, decimal_text, push_decimal, same};
use vstd::prelude::*;

verus! {

// ── Payloads ───────────────────────────────────────────────────────────────

/// The payload of a route event. Older recordings may lack any of the fields.
#[derive(Debug, Clone)]
pub struct RoutePayload {
    pub tier: Option<String>,
    pub reason: Option<String>,
    pub latency_ms: Option<u64>,
    pub model: Option<String>,
}

/// The mathematical route.
pub struct RouteView {
    pub tier: Option<Seq<char>>,
    pub reason: Option<Seq<char>>,
    pub latency_ms: Option<u64>,
    pub model: Option<Seq<char>>,
}

impl View for RoutePayload {
    type V = RouteView;

    open spec fn view(&self) -> RouteView {
        RouteView {
            tier: self.tier.deep_view(),
            reason: self.reason.deep_view(),
            latency_ms: self.latency_ms,
            model: self.model.deep_view(),
        }
    }
}

impl DeepView for RoutePayload {
    type V = RouteView;

    open spec fn deep_view(&self) -> RouteView {
        self@
    }
}

/// The route that a payload gives: none where a field is of another type.
pub open spec fn route_of(j: Json) -> Option<RouteView> {
    if !fits(j, 4) {
        None
    } else {
        match (
            optional_text(field(j, "tier"@, 0)),
            optional_text(field(j, "reason"@, 1)),
            optional_number(field(j, "latency_ms"@, 2), u64::MAX),
            optional_text(field(j, "model"@, 3)),
        ) {
            (Some(tier), Some(reason), Some(latency_ms), Some(model)) => Some(
                RouteView { tier, reason, latency_ms, model },
            ),
            _ => None,
        }
    }
}

impl RoutePayload {
    /// The route that a payload gives: none where a field is of another type.
    pub fn from_payload(p: &Payload) -> (r: Option<RoutePayload>)
        ensures
            r.deep_view() == route_of(p@),
    {
        if !p.fits(4) {
            return None;
        }
        let tier = p.text_field("tier", 0);
        let reason = p.text_field("reason", 1);
        let latency_ms = p.number_field("latency_ms", 2, u64::MAX);
        let model = p.text_field("model", 3);
        match (tier, reason, latency_ms, model) {
            (Some(tier), Some(reason), Some(latency_ms), Some(model)) => Some(
                RoutePayload { tier, reason, latency_ms, model },
            ),
            _ => None,
        }
    }
}

/// The payload of a context event: what the brain was reminded of. Turns that
/// were recorded before there were such events have none.
#[derive(Debug, Clone)]
pub struct ContextPayload {
    pub recall_hit_subjects: Option<Vec<String>>,
    pub recall_hit_count: Option<u32>,
    pub persona_tier: Option<String>,
    pub history_turn_count: Option<u32>,
}

/// The mathematical context.
pub struct ContextView {
    pub recall_hit_subjects: Option<Seq<Seq<char>>>,
    pub recall_hit_count: Option<u32>,
    pub persona_tier: Option<Seq<char>>,
    pub history_turn_count: Option<u32>,
}

impl View for ContextPayload {
    type V = ContextView;

    open spec fn view(&self) -> ContextView {
        ContextView {
            recall_hit_subjects: self.recall_hit_subjects.deep_view(),
            recall_hit_count: self.recall_hit_count,
            persona_tier: self.persona_tier.deep_view(),
            history_turn_count: self.history_turn_count,
        }
    }
}

impl DeepView for ContextPayload {
    type V = ContextView;

    open spec fn deep_view(&self) -> ContextView {
        self@
    }
}

/// A number that fits in 32 bits.
pub open spec fn narrowed(n: Option<u64>) -> Option<u32> {
    match n {
        Some(n) => Some(n as u32),
        None => None,
    }
}

/// The context that a payload gives: none where a field is of another type.
pub open spec fn context_of(j: Json) -> Option<ContextView> {
    if !fits(j, 4) {
        None
    } else {
        match (
            optional_texts(field(j, "recall_hit_subjects"@, 0)),
            optional_number(field(j, "recall_hit_count"@, 1), u32::MAX as u64),
            optional_text(field(j, "persona_tier"@, 2)),
            optional_number(field(j, "history_turn_count"@, 3), u32::MAX as u64),
        ) {
            (Some(subjects), Some(hits), Some(persona), Some(turns)) => Some(
                ContextView {
                    recall_hit_subjects: subjects,
                    recall_hit_count: narrowed(hits),
                    persona_tier: persona,
                    history_turn_count: narrowed(turns),
                },
            ),
            _ => None,
        }
    }
}

fn narrow(n: Option<u64>) -> (r: Option<u32>)
    requires
        n matches Some(n) ==> n <= u32::MAX,
    ensures
        r == narrowed(n),
{
    match n {
        Some(n) => Some(n as u32),
        None => None,
    }
}

impl ContextPayload {
    /// The context that a payload gives: none where a field is of another type.
    pub fn from_payload(p: &Payload) -> (r: Option<ContextPayload>)
        ensures
            r.deep_view() == context_of(p@),
    {
        if !p.fits(4) {
            return None;
        }
        let subjects = p.texts_field("recall_hit_subjects", 0);
        let hits = p.number_field("recall_hit_count", 1, u32::MAX as u64);
        let persona_tier = p.text_field("persona_tier", 2);
        let turns = p.number_field("history_turn_count", 3, u32::MAX as u64);
        match (subjects, hits, persona_tier, turns) {
            (Some(recall_hit_subjects), Some(hits), Some(persona_tier), Some(turns)) => Some(
                ContextPayload {
                    recall_hit_subjects,
                    recall_hit_count: narrow(hits),
                    persona_tier,
                    history_turn_count: narrow(turns),
                },
            ),
            _ => None,
        }
    }
}

// ── Reasons ────────────────────────────────────────────────────────────────

/// A route reason in plain words.
pub open spec fn reason_text(reason: Seq<char>) -> Seq<char> {
    if reason == "command"@ {
        "turn classified as command/control → low-latency local path"@
    } else if reason == "conversational"@ {
        "turn classified as conversational, API key present, online → cloud for quality"@
    } else if reason == "no_key"@ {
        "conversational turn but no Anthropic API key → forced local"@
    } else if reason == "offline"@ {
        "conversational turn but network offline → forced local"@
    } else if reason == "cloud_timeout_fallback"@ {
        "cloud exceeded latency budget → fell back to local tier"@
    } else if reason == "total_failure"@ {
        "both local and cloud unavailable → canned degrade phrase used"@
    } else if reason == "prefer_local_only"@ {
        "deployment-wide prefer=local-only override in force"@
    } else if reason == "prefer_cloud_only"@ {
        "deployment-wide prefer=cloud-only override in force"@
    } else if reason == "override"@ {
        "per-turn model override set via `wmd swap-model`"@
    } else {
        "unknown reason code: "@ + reason
    }
}

/// A route reason in plain words.
#[must_use]
pub fn decode_reason(reason: &str) -> (r: String)
    ensures
        r@ == reason_text(reason@),
{
    if same(reason, "command") {
        "turn classified as command/control → low-latency local path".to_string()
    } else if same(reason, "conversational") {
        "turn classified as conversational, API key present, online → cloud for quality".to_string()
    } else if same(reason, "no_key") {
        "conversational turn but no Anthropic API key → forced local".to_string()
    } else if same(reason, "offline") {
        "conversational turn but network offline → forced local".to_string()
    } else if same(reason, "cloud_timeout_fallback") {
        "cloud exceeded latency budget → fell back to local tier".to_string()
    } else if same(reason, "total_failure") {
        "both local and cloud unavailable → canned degrade phrase used".to_string()
    } else if same(reason, "prefer_local_only") {
        "deployment-wide prefer=local-only override in force".to_string()
    } else if same(reason, "prefer_cloud_only") {
        "deployment-wide prefer=cloud-only override in force".to_string()
    } else if same(reason, "override") {
        "per-turn model override set via `wmd swap-model`".to_string()
    } else {
        let mut out: String = "unknown reason code: ".to_string();
        out.append(reason);
        out
    }
}

// ── The view of a turn ─────────────────────────────────────────────────────

/// A tool call, with its result.
#[derive(Debug, Clone)]
pub struct ToolPair {
    /// The tool.
    pub tool: String,
    /// The arguments of the call.
    pub args: Payload,
    /// Whether the call succeeded and what it gave, where a result was found.
    pub result: Option<(bool, Payload)>,
    /// When the call was recorded.
    pub call_ts: u64,
}

/// The mathematical pair.
pub struct PairView {
    pub tool: Seq<char>,
    pub args: Json,
    pub result: Option<(bool, Json)>,
    pub call_ts: u64,
}

impl View for ToolPair {
    type V = PairView;

    open spec fn view(&self) -> PairView {
        PairView {
            tool: self.tool@,
            args: self.args@,
            result: self.result.deep_view(),
            call_ts: self.call_ts,
        }
    }
}

impl DeepView for ToolPair {
    type V = PairView;

    open spec fn deep_view(&self) -> PairView {
        self@
    }
}

/// What the brain did in a turn.
#[derive(Debug, Clone)]
pub struct TurnMind {
    pub turn_id: String,
    pub tier: Option<String>,
    pub model: Option<String>,
    pub reason_raw: Option<String>,
    pub reason_human: Option<String>,
    pub latency_ms: Option<u64>,
    pub context_available: bool,
    pub recall_subjects: Vec<String>,
    pub recall_hit_count: Option<u32>,
    pub persona_tier: Option<String>,
    pub history_turn_count: Option<u32>,
    pub tools: Vec<ToolPair>,
    pub reply_text: Option<String>,
    pub reply_destructive: bool,
}

/// The mathematical view.
pub struct MindView {
    pub turn_id: Seq<char>,
    pub tier: Option<Seq<char>>,
    pub model: Option<Seq<char>>,
    pub reason_raw: Option<Seq<char>>,
    pub reason_human: Option<Seq<char>>,
    pub latency_ms: Option<u64>,
    pub context_available: bool,
    pub recall_subjects: Seq<Seq<char>>,
    pub recall_hit_count: Option<u32>,
    pub persona_tier: Option<Seq<char>>,
    pub history_turn_count: Option<u32>,
    pub tools: Seq<PairView>,
    pub reply_text: Option<Seq<char>>,
    pub reply_destructive: bool,
}

impl View for TurnMind {
    type V = MindView;

    open spec fn view(&self) -> MindView {
        MindView {
            turn_id: self.turn_id@,
            tier: self.tier.deep_view(),
            model: self.model.deep_view(),
            reason_raw: self.reason_raw.deep_view(),
            reason_human: self.reason_human.deep_view(),
            latency_ms: self.latency_ms,
            context_available: self.context_available,
            recall_subjects: self.recall_subjects.deep_view(),
            recall_hit_count: self.recall_hit_count,
            persona_tier: self.persona_tier.deep_view(),
            history_turn_count: self.history_turn_count,
            tools: self.tools.deep_view(),
            reply_text: self.reply_text.deep_view(),
            reply_destructive: self.reply_destructive,
        }
    }
}

impl DeepView for TurnMind {
    type V = MindView;

    open spec fn deep_view(&self) -> MindView {
        self@
    }
}

/// A tool call.
pub struct CallView {
    pub ts: u64,
    pub tool: Seq<char>,
    pub args: Json,
}

/// The result of a tool call.
pub struct ResultView {
    pub tool: Seq<char>,
    pub ok: bool,
    pub body: Json,
}

/// The latest route among the first `n` records that can be read.
pub open spec fn last_route(recs: Seq<RecordView>, n: int) -> Option<RouteView>
    decreases n,
{
    if n <= 0 {
        None
    } else if recs[n - 1].topic == "wm.brain.route"@ && route_of(recs[n - 1].raw_payload) is Some {
        route_of(recs[n - 1].raw_payload)
    } else {
        last_route(recs, n - 1)
    }
}

/// The latest context among the first `n` records that can be read.
pub open spec fn last_context(recs: Seq<RecordView>, n: int) -> Option<ContextView>
    decreases n,
{
    if n <= 0 {
        None
    } else if recs[n - 1].topic == "wm.brain.context"@ && context_of(
        recs[n - 1].raw_payload,
    ) is Some {
        context_of(recs[n - 1].raw_payload)
    } else {
        last_context(recs, n - 1)
    }
}

/// The text of the latest reply among the first `n` records, and whether that
/// was a destructive one.
pub open spec fn last_reply(recs: Seq<RecordView>, n: int) -> Option<(Seq<char>, bool)>
    decreases n,
{
    if n <= 0 {
        None
    } else {
        let rec = recs[n - 1];
        match text_member(rec.raw_payload, "text"@) {
            Some(t) => if rec.topic == "wm.brain.reply"@ {
                Some((t, false))
            } else if rec.topic == "wm.brain.reply.destructive"@ {
                Some((t, true))
            } else {
                last_reply(recs, n - 1)
            },
            None => last_reply(recs, n - 1),
        }
    }
}

/// The tool that a payload names, if it names one by a text that is not empty.
pub open spec fn tool_of(j: Json) -> Option<Seq<char>> {
    match text_member(j, "tool"@) {
        Some(t) => if t.len() > 0 {
            Some(t)
        } else {
            None
        },
        None => None,
    }
}

/// The tool calls among the first `n` records, in their order.
pub open spec fn calls_in(recs: Seq<RecordView>, n: int) -> Seq<CallView>
    decreases n,
{
    if n <= 0 {
        Seq::empty()
    } else {
        let rest = calls_in(recs, n - 1);
        let rec = recs[n - 1];
        match tool_of(rec.raw_payload) {
            Some(tool) => if rec.topic == "wm.brain.tool.call"@ {
                rest.push(
                    CallView {
                        ts: rec.ts_received,
                        tool,
                        args: member_or_null(rec.raw_payload, "args"@),
                    },
                )
            } else {
                rest
            },
            None => rest,
        }
    }
}

/// The results of tool calls among the first `n` records, in their order.
pub open spec fn results_in(recs: Seq<RecordView>, n: int) -> Seq<ResultView>
    decreases n,
{
    if n <= 0 {
        Seq::empty()
    } else {
        let rest = results_in(recs, n - 1);
        let rec = recs[n - 1];
        match tool_of(rec.raw_payload) {
            Some(tool) => if rec.topic == "wm.brain.tool.result"@ {
                rest.push(
                    ResultView {
                        tool,
                        ok: flag_member(rec.raw_payload, "ok"@),
                        body: member_or_null(rec.raw_payload, "body"@),
                    },
                )
            } else {
                rest
            },
            None => rest,
        }
    }
}

/// The calls by time, those of one time in the order in which they came.
pub open spec fn calls_by_time(calls: Seq<CallView>) -> Seq<CallView> {
    pick(calls, sort_order(Seq::new(calls.len(), |i: int| calls[i].ts)))
}

/// The first result, from `k` on, of the tool that has not been taken.
pub open spec fn first_free(
    results: Seq<ResultView>,
    taken: Seq<Option<int>>,
    tool: Seq<char>,
    k: int,
) -> Option<int>
    decreases results.len() - k,
{
    if k < 0 || k >= results.len() {
        None
    } else if results[k].tool == tool && !taken.contains(Some(k)) {
        Some(k)
    } else {
        first_free(results, taken, tool, k + 1)
    }
}

/// Which result each of the first `n` calls takes: the first of its tool that no
/// call before it has taken.
pub open spec fn matches_of(calls: Seq<CallView>, results: Seq<ResultView>, n: int) -> Seq<
    Option<int>,
>
    decreases n,
{
    if n <= 0 {
        Seq::empty()
    } else {
        let taken = matches_of(calls, results, n - 1);
        taken.push(first_free(results, taken, calls[n - 1].tool, 0))
    }
}

/// A call with the result that it takes.
pub open spec fn pair_of(c: CallView, results: Seq<ResultView>, k: Option<int>) -> PairView {
    PairView {
        tool: c.tool,
        args: c.args,
        result: match k {
            Some(k) => Some((results[k].ok, results[k].body)),
            None => None,
        },
        call_ts: c.ts,
    }
}

/// The first `n` calls, each with the result that it takes.
pub open spec fn pairs_of(calls: Seq<CallView>, results: Seq<ResultView>, n: int) -> Seq<PairView> {
    let taken = matches_of(calls, results, n);
    Seq::new(n as nat, |i: int| pair_of(calls[i], results, taken[i]))
}

/// What the brain did in a turn with the given records, at least one.
pub open spec fn mind_of(turn_id: Seq<char>, recs: Seq<RecordView>) -> MindView {
    let n = recs.len() as int;
    let route = last_route(recs, n);
    let context = last_context(recs, n);
    let reply = last_reply(recs, n);
    let calls = calls_by_time(calls_in(recs, n));
    MindView {
        turn_id,
        tier: match route {
            Some(r) => r.tier,
            None => None,
        },
        model: match route {
            Some(r) => r.model,
            None => None,
        },
        reason_raw: match route {
            Some(r) => r.reason,
            None => None,
        },
        reason_human: match route {
            Some(r) => match r.reason {
                Some(reason) => Some(reason_text(reason)),
                None => None,
            },
            None => None,
        },
        latency_ms: match route {
            Some(r) => r.latency_ms,
            None => None,
        },
        context_available: context is Some,
        recall_subjects: match context {
            Some(c) => match c.recall_hit_subjects {
                Some(subjects) => subjects,
                None => Seq::empty(),
            },
            None => Seq::empty(),
        },
        recall_hit_count: match context {
            Some(c) => c.recall_hit_count,
            None => None,
        },
        persona_tier: match context {
            Some(c) => c.persona_tier,
            None => None,
        },
        history_turn_count: match context {
            Some(c) => c.history_turn_count,
            None => None,
        },
        tools: pairs_of(calls, results_in(recs, n), calls.len() as int),
        reply_text: match reply {
            Some(r) => Some(r.0),
            None => None,
        },
        reply_destructive: reply matches Some(r) && r.1,
    }
}

struct Call {
    ts: u64,
    tool: String,
    args: Payload,
}

impl DeepView for Call {
    type V = CallView;

    closed spec fn deep_view(&self) -> CallView {
        CallView { ts: self.ts, tool: self.tool@, args: self.args@ }
    }
}

struct Outcome {
    tool: String,
    ok: bool,
    body: Payload,
}

impl DeepView for Outcome {
    type V = ResultView;

    closed spec fn deep_view(&self) -> ResultView {
        ResultView { tool: self.tool@, ok: self.ok, body: self.body@ }
    }
}

fn named_tool(p: &Payload) -> (r: Option<String>)
    ensures
        r.deep_view() == tool_of(p@),
{
    match p.get_text("tool") {
        Some(t) => if t.as_str().unicode_len() > 0 {
            Some(t)
        } else {
            None
        },
        None => None,
    }
}

fn find_route(records: &[Record]) -> (r: Option<RoutePayload>)
    ensures
        r.deep_view() == last_route(records.deep_view(), records@.len() as int),
{
    let ghost recs = records.deep_view();
    let mut n: usize = records.len();
    while n > 0
        invariant
            n <= records@.len(),
            recs == records.deep_view(),
            last_route(recs, records@.len() as int) == last_route(recs, n as int),
        decreases n,
    {
        let rec = &records[n - 1];
        assert(recs[n - 1] == rec@);
        if same(rec.topic.as_str(), "wm.brain.route") {
            let route = RoutePayload::from_payload(&rec.raw_payload);
            if route.is_some() {
                return route;
            }
        }
        n -= 1;
    }
    None
}

fn find_context(records: &[Record]) -> (r: Option<ContextPayload>)
    ensures
        r.deep_view() == last_context(records.deep_view(), records@.len() as int),
{
    let ghost recs = records.deep_view();
    let mut n: usize = records.len();
    while n > 0
        invariant
            n <= records@.len(),
            recs == records.deep_view(),
            last_context(recs, records@.len() as int) == last_context(recs, n as int),
        decreases n,
    {
        let rec = &records[n - 1];
        assert(recs[n - 1] == rec@);
        if same(rec.topic.as_str(), "wm.brain.context") {
            let context = ContextPayload::from_payload(&rec.raw_payload);
            if context.is_some() {
                return context;
            }
        }
        n -= 1;
    }
    None
}

fn find_reply(records: &[Record]) -> (r: Option<(String, bool)>)
    ensures
        r.deep_view() == last_reply(records.deep_view(), records@.len() as int),
{
    let ghost recs = records.deep_view();
    let mut n: usize = records.len();
    while n > 0
        invariant
            n <= records@.len(),
            recs == records.deep_view(),
            last_reply(recs, records@.len() as int) == last_reply(recs, n as int),
        decreases n,
    {
        let rec = &records[n - 1];
        assert(recs[n - 1] == rec@);
        if let Some(t) = rec.raw_payload.get_text("text") {
            if same(rec.topic.as_str(), "wm.brain.reply") {
                return Some((t, false));
            }
            if same(rec.topic.as_str(), "wm.brain.reply.destructive") {
                return Some((t, true));
            }
        }
        n -= 1;
    }
    None
}

fn find_calls(records: &[Record]) -> (r: Vec<Call>)
    ensures
        r.deep_view() == calls_in(records.deep_view(), records@.len() as int),
{
    let ghost recs = records.deep_view();
    let mut out: Vec<Call> = Vec::new();
    let mut i: usize = 0;
    assert(out.deep_view() =~= Seq::empty());
    while i < records.len()
        invariant
            i <= records@.len(),
            recs == records.deep_view(),
            out.deep_view() == calls_in(recs, i as int),
        decreases records@.len() - i,
    {
        let rec = &records[i];
        assert(recs[i as int] == rec@);
        if let Some(tool) = named_tool(&rec.raw_payload) {
            if same(rec.topic.as_str(), "wm.brain.tool.call") {
                let ghost was = out.deep_view();
                let call = Call {
                    ts: rec.ts_received,
                    tool,
                    args: rec.raw_payload.get_or_null("args"),
                };
                let ghost c = call.deep_view();
                out.push(call);
                assert(out.deep_view() =~= was.push(c));
            }
        }
        i += 1;
    }
    out
}

fn find_results(records: &[Record]) -> (r: Vec<Outcome>)
    ensures
        r.deep_view() == results_in(records.deep_view(), records@.len() as int),
{
    let ghost recs = records.deep_view();
    let mut out: Vec<Outcome> = Vec::new();
    let mut i: usize = 0;
    assert(out.deep_view() =~= Seq::empty());
    while i < records.len()
        invariant
            i <= records@.len(),
            recs == records.deep_view(),
            out.deep_view() == results_in(recs, i as int),
        decreases records@.len() - i,
    {
        let rec = &records[i];
        assert(recs[i as int] == rec@);
        if let Some(tool) = named_tool(&rec.raw_payload) {
            if same(rec.topic.as_str(), "wm.brain.tool.result") {
                let ghost was = out.deep_view();
                let result = Outcome {
                    tool,
                    ok: rec.raw_payload.get_flag("ok"),
                    body: rec.raw_payload.get_or_null("body"),
                };
                let ghost c = result.deep_view();
                out.push(result);
                assert(out.deep_view() =~= was.push(c));
            }
        }
        i += 1;
    }
    out
}

fn times_of(calls: &Vec<Call>) -> (r: Vec<u64>)
    ensures
        r@ == Seq::new(calls.deep_view().len(), |i: int| calls.deep_view()[i].ts),
{
    let ghost all = calls.deep_view();
    let mut out: Vec<u64> = Vec::new();
    let mut i: usize = 0;
    while i < calls.len()
        invariant
            i <= calls@.len(),
            all == calls.deep_view(),
            out@ == Seq::new(i as nat, |k: int| all[k].ts),
        decreases calls@.len() - i,
    {
        assert(all[i as int] == calls@[i as int].deep_view());
        out.push(calls[i].ts);
        i += 1;
        assert(out@ =~= Seq::new(i as nat, |k: int| all[k].ts));
    }
    out
}

/// The first result of the tool that has not been taken.
fn find_free(results: &Vec<Outcome>, used: &Vec<bool>, tool: &str, Ghost(taken): Ghost<
    Seq<Option<int>>,
>) -> (r: Option<usize>)
    requires
        used@.len() == results@.len(),
        forall|k: int| 0 <= k < used@.len() ==> #[trigger] used@[k] == taken.contains(Some(k)),
    ensures
        match r {
            Some(k) => first_free(results.deep_view(), taken, tool@, 0) == Some(k as int) && k
                < results@.len(),
            None => first_free(results.deep_view(), taken, tool@, 0) is None,
        },
{
    let ghost all = results.deep_view();
    let mut k: usize = 0;
    while k < results.len()
        invariant
            k <= results@.len(),
            all == results.deep_view(),
            used@.len() == results@.len(),
            forall|k: int| 0 <= k < used@.len() ==> #[trigger] used@[k] == taken.contains(Some(k)),
            first_free(all, taken, tool@, 0) == first_free(all, taken, tool@, k as int),
        decreases results@.len() - k,
    {
        assert(all[k as int] == results@[k as int].deep_view());
        if !used[k] && same(results[k].tool.as_str(), tool) {
            return Some(k);
        }
        k += 1;
    }
    None
}

/// The calls by time, each with the result that it takes.
fn pair_up(calls: &Vec<Call>, results: &Vec<Outcome>) -> (r: Vec<ToolPair>)
    ensures
        r.deep_view() == pairs_of(
            calls_by_time(calls.deep_view()),
            results.deep_view(),
            calls_by_time(calls.deep_view()).len() as int,
        ),
{
    let keys = times_of(calls);
    let order = sorted_order(&keys);
    let ghost all = calls.deep_view();
    let ghost sorted = calls_by_time(all);
    let ghost res = results.deep_view();
    let mut used: Vec<bool> = Vec::new();
    let mut k: usize = 0;
    while k < results.len()
        invariant
            k <= results@.len(),
            used@.len() == k,
            forall|j: int| 0 <= j < used@.len() ==> #[trigger] used@[j] == false,
        decreases results@.len() - k,
    {
        used.push(false);
        k += 1;
    }
    assert(sorted.len() == positions(order@).len());
    let ghost mut taken: Seq<Option<int>> = Seq::empty();
    let mut out: Vec<ToolPair> = Vec::new();
    let mut i: usize = 0;
    assert(out.deep_view() =~= pairs_of(sorted, res, 0));
    while i < order.len()
        invariant
            i <= order@.len() == calls@.len(),
            all == calls.deep_view(),
            res == results.deep_view(),
            sorted == calls_by_time(all),
            sorted.len() == calls@.len(),
            keys@ == Seq::new(all.len(), |i: int| all[i].ts),
            positions(order@) == sort_order(keys@),
            forall|i: int| 0 <= i < order@.len() ==> #[trigger] order@[i] < calls@.len(),
            taken == matches_of(sorted, res, i as int),
            taken.len() == i,
            used@.len() == results@.len(),
            forall|k: int| 0 <= k < used@.len() ==> #[trigger] used@[k] == taken.contains(Some(k)),
            out.deep_view() == pairs_of(sorted, res, i as int),
        decreases order@.len() - i,
    {
        let at: usize = order[i];
        let call = &calls[at];
        proof {
            assert(positions(order@)[i as int] == at as int);
            assert(all[at as int] == call.deep_view());
            assert(sorted[i as int] == call.deep_view());
        }
        let found = find_free(results, &used, call.tool.as_str(), Ghost(taken));
        let ghost was_taken = taken;
        let ghost was = out.deep_view();
        let ghost pick: Option<int> = match found {
            Some(k) => Some(k as int),
            None => None,
        };
        proof {
            taken = taken.push(pick);
            assert forall|k: int| taken.contains(Some(k)) <==> (was_taken.contains(Some(k)) || pick
                == Some(k)) by {
                if was_taken.contains(Some(k)) {
                    let m = was_taken.index_of(Some(k));
                    assert(taken[m] == Some(k));
                }
                if pick == Some(k) {
                    assert(taken[was_taken.len() as int] == Some(k));
                }
            }
        }
        let result = match found {
            Some(k) => {
                assert(res[k as int] == results@[k as int].deep_view());
                used.set(k, true);
                Some((results[k].ok, results[k].body.copy()))
            },
            None => None,
        };
        let pair = ToolPair {
            tool: call.tool.clone(),
            args: call.args.copy(),
            result,
            call_ts: call.ts,
        };
        let ghost p = pair@;
        out.push(pair);
        i += 1;
        assert(p == pair_of(sorted[i - 1], res, pick));
        assert(out.deep_view() =~= was.push(p));
        assert(out.deep_view() =~= pairs_of(sorted, res, i as int));
    }
    out
}

/// What the brain did in a turn with the given records; nothing, where there is
/// no record.
pub fn assemble_records(turn_id: &str, records: &[Record]) -> (r: Option<TurnMind>)
    ensures
        r.deep_view() == (if records@.len() == 0 {
            None
        } else {
            Some(mind_of(turn_id@, records.deep_view()))
        }),
{
    if records.len() == 0 {
        return None;
    }
    let (tier, model, reason_raw, reason_human, latency_ms) = match find_route(records) {
        Some(r) => {
            let human = match &r.reason {
                Some(reason) => Some(decode_reason(reason.as_str())),
                None => None,
            };
            (r.tier, r.model, r.reason, human, r.latency_ms)
        },
        None => (None, None, None, None, None),
    };
    let (context_available, recall_subjects, recall_hit_count, persona_tier, history_turn_count) =
        match find_context(records) {
        Some(c) => {
            let subjects = match c.recall_hit_subjects {
                Some(subjects) => subjects,
                None => Vec::new(),
            };
            (true, subjects, c.recall_hit_count, c.persona_tier, c.history_turn_count)
        },
        None => (false, Vec::new(), None, None, None),
    };
    assert(context_available == (last_context(records.deep_view(), records@.len() as int) is Some));
    let calls = find_calls(records);
    let results = find_results(records);
    let tools = pair_up(&calls, &results);
    let (reply_text, reply_destructive) = match find_reply(records) {
        Some((t, destructive)) => (Some(t), destructive),
        None => (None, false),
    };
    let mind = TurnMind {
        turn_id: turn_id.to_string(),
        tier,
        model,
        reason_raw,
        reason_human,
        latency_ms,
        context_available,
        recall_subjects,
        recall_hit_count,
        persona_tier,
        history_turn_count,
        tools,
        reply_text,
        reply_destructive,
    };
    assert(mind@.recall_subjects =~= mind_of(turn_id@, records.deep_view()).recall_subjects);
    Some(mind)
}

/// What the brain did in a turn, given the store and the texts of the segments
/// that hold the turn's records; nothing, where the store has none.
pub fn assemble(store: &LucidStore, turn_id: &str, texts: &[(u64, String)]) -> (r: Result<
    Option<TurnMind>,
    RecordError,
>)
    ensures
        match located(locations(store@.index, turn_id@), texts.deep_view()) {
            Ok(recs) => r is Ok && r->Ok_0.deep_view() == (if recs.len() == 0 {
                None
            } else {
                Some(mind_of(turn_id@, recs))
            }),
            Err(e) => r == Err::<Option<TurnMind>, RecordError>(e),
        },
{
    match store.records_for(turn_id, texts) {
        Ok(records) => Ok(assemble_records(turn_id, records.as_slice())),
        Err(e) => Err(e),
    }
}

/// The turn that the latest of the first `n` records with a turn names.
pub open spec fn last_turn(recs: Seq<RecordView>, n: int) -> Option<Seq<char>>
    decreases n,
{
    if n <= 0 {
        None
    } else if recs[n - 1].turn_id is Some {
        recs[n - 1].turn_id
    } else {
        last_turn(recs, n - 1)
    }
}

/// The turn that was recorded last.
pub fn latest_turn(records: &[Record]) -> (r: Option<String>)
    ensures
        r.deep_view() == last_turn(records.deep_view(), records@.len() as int),
{
    let ghost recs = records.deep_view();
    let mut n: usize = records.len();
    while n > 0
        invariant
            n <= records@.len(),
            recs == records.deep_view(),
            last_turn(recs, records@.len() as int) == last_turn(recs, n as int),
        decreases n,
    {
        assert(recs[n - 1] == records@[n - 1]@);
        if let Some(id) = &records[n - 1].turn_id {
            return Some(id.clone());
        }
        n -= 1;
    }
    None
}

/// The turn that was recorded last, given the store, the names in the data
/// directory and the texts of the segments.
pub fn most_recent_turn_id(store: &LucidStore, names: &[String], texts: &[(u64, String)]) -> (r:
    Result<Option<String>, RecordError>)
    ensures
        match all_records(segments_in(names.deep_view()), texts.deep_view()) {
            Ok(recs) => r is Ok && r->Ok_0.deep_view() == last_turn(recs, recs.len() as int),
            Err(e) => r == Err::<Option<String>, RecordError>(e),
        },
{
    match store.read_all(names, texts) {
        Ok(records) => Ok(latest_turn(records.as_slice())),
        Err(e) => Err(e),
    }
}

// ── Display ────────────────────────────────────────────────────────────────

/// A line of the display.
pub open spec fn line_of(label: Seq<char>, value: Seq<char>) -> Seq<char> {
    label + value + "\n"@
}

/// A line of the display, where there is something to show.
pub open spec fn line_if(label: Seq<char>, value: Option<Seq<char>>) -> Seq<char> {
    match value {
        Some(v) => line_of(label, v),
        None => ""@,
    }
}

fn push_line(out: &mut String, label: &str, value: &str)
    ensures
        final(out)@ == old(out)@ + line_of(label@, value@),
{
    let ghost start = out@;
    out.append(label);
    out.append(value);
    out.append("\n");
    assert(out@ =~= start + line_of(label@, value@));
}

fn push_line_if(out: &mut String, label: &str, value: &Option<String>)
    ensures
        final(out)@ == old(out)@ + line_if(label@, value.deep_view()),
{
    match value {
        Some(v) => push_line(out, label, v.as_str()),
        None => out.append(""),
    }
}

/// How long the brain took, where that is recorded.
pub open spec fn latency_text(latency_ms: Option<u64>) -> Seq<char> {
    match latency_ms {
        Some(ms) => "║    latency:    "@ + decimal(ms as nat) + " ms\n"@,
        None => ""@,
    }
}

/// Why the turn was routed as it was: the code, and what it means.
pub open spec fn reason_lines(m: MindView) -> Seq<char> {
    match m.reason_raw {
        Some(raw) => line_of("║    reason:     "@, raw) + line_if(
            "║                → "@,
            m.reason_human,
        ),
        None => "║    reason:     (not recorded)\n"@,
    }
}

/// How the turn was routed.
pub open spec fn route_text(m: MindView) -> Seq<char> {
    "║\n║  ROUTE\n"@ + (match m.tier {
        Some(t) => line_of("║    tier:       "@, t),
        None => "║    tier:       (not recorded)\n"@,
    }) + line_if("║    model:      "@, m.model) + latency_text(m.latency_ms) + reason_lines(m)
}

fn push_latency(out: &mut String, latency_ms: Option<u64>)
    ensures
        final(out)@ == old(out)@ + latency_text(latency_ms),
{
    let ghost start = out@;
    match latency_ms {
        Some(ms) => {
            out.append("║    latency:    ");
            push_decimal(out, ms);
            out.append(" ms\n");
        },
        None => out.append(""),
    }
    assert(out@ =~= start + latency_text(latency_ms));
}

fn push_reason(out: &mut String, m: &TurnMind)
    ensures
        final(out)@ == old(out)@ + reason_lines(m@),
{
    let ghost start = out@;
    match &m.reason_raw {
        Some(raw) => {
            push_line(out, "║    reason:     ", raw.as_str());
            push_line_if(out, "║                → ", &m.reason_human);
        },
        None => out.append("║    reason:     (not recorded)\n"),
    }
    assert(out@ =~= start + reason_lines(m@));
}

fn push_route(out: &mut String, m: &TurnMind)
    ensures
        final(out)@ == old(out)@ + route_text(m@),
{
    let ghost start = out@;
    out.append("║\n║  ROUTE\n");
    match &m.tier {
        Some(t) => push_line(out, "║    tier:       ", t.as_str()),
        None => out.append("║    tier:       (not recorded)\n"),
    }
    push_line_if(out, "║    model:      ", &m.model);
    push_latency(out, m.latency_ms);
    push_reason(out, m);
    assert(out@ =~= start + route_text(m@));
}

/// The subjects that the brain was reminded of, one to a line.
pub open spec fn subjects_text(subjects: Seq<Seq<char>>) -> Seq<char>
    decreases subjects.len(),
{
    if subjects.len() == 0 {
        Seq::empty()
    } else {
        subjects_text(subjects.drop_last()) + line_of("║      - "@, subjects.last())
    }
}

/// The memories that were put before the brain.
pub open spec fn recall_text(m: MindView) -> Seq<char> {
    (match m.recall_hit_count {
        Some(n) => line_of("║    recall hits: "@, decimal(n as nat)),
        None => ""@,
    }) + (if m.recall_subjects.len() == 0 {
        "║    recall:      (no memories injected)\n"@
    } else {
        "║    recall:\n"@ + subjects_text(m.recall_subjects)
    })
}

/// How many earlier turns were put before the brain, where that is recorded.
pub open spec fn history_text(turns: Option<u32>) -> Seq<char> {
    match turns {
        Some(n) => "║    history:     "@ + decimal(n as nat) + " turns in context\n"@,
        None => ""@,
    }
}

/// What the brain was reminded of.
pub open spec fn context_text(m: MindView) -> Seq<char> {
    if !m.context_available {
        "║\n║  CONTEXT\n"@
            + "║    (context digest unavailable — turn recorded before wm.brain.context adoption)\n"@
    } else {
        "║\n║  CONTEXT\n"@ + recall_text(m) + line_if("║    persona:     "@, m.persona_tier)
            + history_text(m.history_turn_count)
    }
}

fn push_subjects(out: &mut String, subjects: &Vec<String>)
    ensures
        final(out)@ == old(out)@ + subjects_text(subjects.deep_view()),
{
    let ghost start = out@;
    let ghost all = subjects.deep_view();
    let mut i: usize = 0;
    assert(all.subrange(0, 0) =~= Seq::empty());
    assert(out@ =~= start + subjects_text(all.subrange(0, 0)));
    while i < subjects.len()
        invariant
            i <= subjects@.len(),
            all == subjects.deep_view(),
            out@ == start + subjects_text(all.subrange(0, i as int)),
        decreases subjects@.len() - i,
    {
        proof {
            assert(all.subrange(0, i + 1).drop_last() =~= all.subrange(0, i as int));
            assert(all[i as int] == subjects@[i as int]@);
        }
        push_line(out, "║      - ", subjects[i].as_str());
        i += 1;
        assert(out@ =~= start + subjects_text(all.subrange(0, i as int)));
    }
    assert(all.subrange(0, i as int) =~= all);
}

fn push_recall(out: &mut String, m: &TurnMind)
    ensures
        final(out)@ == old(out)@ + recall_text(m@),
{
    let ghost start = out@;
    match m.recall_hit_count {
        Some(n) => push_line(out, "║    recall hits: ", decimal_text(n as u64).as_str()),
        None => out.append(""),
    }
    let ghost mid = out@;
    if m.recall_subjects.len() == 0 {
        out.append("║    recall:      (no memories injected)\n");
    } else {
        out.append("║    recall:\n");
        push_subjects(out, &m.recall_subjects);
        assert(out@ =~= mid + ("║    recall:\n"@ + subjects_text(m@.recall_subjects)));
    }
    assert(out@ =~= start + recall_text(m@));
}

fn push_history(out: &mut String, turns: Option<u32>)
    ensures
        final(out)@ == old(out)@ + history_text(turns),
{
    let ghost start = out@;
    match turns {
        Some(n) => {
            out.append("║    history:     ");
            push_decimal(out, n as u64);
            out.append(" turns in context\n");
        },
        None => out.append(""),
    }
    assert(out@ =~= start + history_text(turns));
}

fn push_context(out: &mut String, m: &TurnMind)
    ensures
        final(out)@ == old(out)@ + context_text(m@),
{
    let ghost start = out@;
    out.append("║\n║  CONTEXT\n");
    if !m.context_available {
        out.append(
            "║    (context digest unavailable — turn recorded before wm.brain.context adoption)\n",
        );
    } else {
        push_recall(out, m);
        push_line_if(out, "║    persona:     ", &m.persona_tier);
        push_history(out, m.history_turn_count);
    }
    assert(out@ =~= start + context_text(m@));
}

/// The line of a tool call.
pub open spec fn pair_text(p: PairView) -> Seq<char> {
    "║    "@ + p.tool + "("@ + json_text(p.args) + (match p.result {
        Some((ok, body)) => ") → ["@ + (if ok {
            "ok"@
        } else {
            "err"@
        }) + "] "@ + json_text(body) + "\n"@,
        None => ") → (pending/no result recorded)\n"@,
    })
}

/// The lines of tool calls.
pub open spec fn pairs_text(pairs: Seq<PairView>) -> Seq<char>
    decreases pairs.len(),
{
    if pairs.len() == 0 {
        Seq::empty()
    } else {
        pairs_text(pairs.drop_last()) + pair_text(pairs.last())
    }
}

/// Which tools were called.
pub open spec fn tools_text(m: MindView) -> Seq<char> {
    "║\n║  TOOLS\n"@ + (if m.tools.len() == 0 {
        "║    (no tool calls)\n"@
    } else {
        pairs_text(m.tools)
    })
}

fn push_pair(out: &mut String, p: &ToolPair)
    ensures
        final(out)@ == old(out)@ + pair_text(p@),
{
    let ghost start = out@;
    out.append("║    ");
    out.append(p.tool.as_str());
    out.append("(");
    p.args.push_json(out);
    let ghost mid = out@;
    match &p.result {
        Some((ok, body)) => {
            out.append(") → [");
            if *ok {
                out.append("ok");
            } else {
                out.append("err");
            }
            out.append("] ");
            body.push_json(out);
            out.append("\n");
            assert(out@ =~= mid + (") → ["@ + (if *ok {
                "ok"@
            } else {
                "err"@
            }) + "] "@ + json_text(body@) + "\n"@));
        },
        None => out.append(") → (pending/no result recorded)\n"),
    }
    assert(out@ =~= start + pair_text(p@));
}

fn push_tools(out: &mut String, m: &TurnMind)
    ensures
        final(out)@ == old(out)@ + tools_text(m@),
{
    let ghost start = out@;
    out.append("║\n║  TOOLS\n");
    if m.tools.len() == 0 {
        out.append("║    (no tool calls)\n");
        assert(out@ =~= start + tools_text(m@));
        return;
    }
    let ghost mid = out@;
    let ghost all = m.tools.deep_view();
    let mut i: usize = 0;
    assert(all.subrange(0, 0) =~= Seq::empty());
    assert(out@ =~= mid + pairs_text(all.subrange(0, 0)));
    while i < m.tools.len()
        invariant
            i <= m.tools@.len(),
            all == m.tools.deep_view(),
            out@ == mid + pairs_text(all.subrange(0, i as int)),
        decreases m.tools@.len() - i,
    {
        proof {
            assert(all.subrange(0, i + 1).drop_last() =~= all.subrange(0, i as int));
            assert(all[i as int] == m.tools@[i as int]@);
        }
        push_pair(out, &m.tools[i]);
        i += 1;
        assert(out@ =~= mid + pairs_text(all.subrange(0, i as int)));
    }
    assert(all.subrange(0, i as int) =~= all);
    assert(out@ =~= start + tools_text(m@));
}

/// What was replied.
pub open spec fn reply_display(m: MindView) -> Seq<char> {
    "║\n║  REPLY\n"@ + (match m.reply_text {
        Some(t) => line_of(
            if m.reply_destructive {
                "║    [destructive] "@
            } else {
                "║    [normal] "@
            },
            t,
        ),
        None => "║    (no reply recorded)\n"@,
    })
}

fn push_reply(out: &mut String, m: &TurnMind)
    ensures
        final(out)@ == old(out)@ + reply_display(m@),
{
    let ghost start = out@;
    out.append("║\n║  REPLY\n");
    match &m.reply_text {
        Some(t) => {
            let label = if m.reply_destructive {
                "║    [destructive] "
            } else {
                "║    [normal] "
            };
            push_line(out, label, t.as_str());
        },
        None => out.append("║    (no reply recorded)\n"),
    }
    assert(out@ =~= start + reply_display(m@));
}

/// The display of what the brain did in a turn.
pub open spec fn mind_text(m: MindView) -> Seq<char> {
    "╔══ turn: "@ + m.turn_id + " ══\n"@ + route_text(m) + context_text(m) + tools_text(m)
        + reply_display(m) + "╚══\n"@
}

/// The display of what the brain did in a turn.
#[must_use]
pub fn render(mind: &TurnMind) -> (r: String)
    ensures
        r@ == mind_text(mind@),
{
    let mut out: String = "╔══ turn: ".to_string();
    out.append(mind.turn_id.as_str());
    out.append(" ══\n");
    push_route(&mut out, mind);
    push_context(&mut out, mind);
    push_tools(&mut out, mind);
    push_reply(&mut out, mind);
    out.append("╚══\n");
    out
}

// ── Laws ───────────────────────────────────────────────────────────────────

/// Whether a call takes a result of its own tool, or finds them all taken.
pub open spec fn takes_fairly(
    calls: Seq<CallView>,
    results: Seq<ResultView>,
    i: int,
    k: Option<int>,
) -> bool {
    match k {
        Some(k) => 0 <= k < results.len() && results[k].tool == calls[i].tool,
        None => forall|m: int|
            0 <= m < results.len() && (#[trigger] results[m]).tool == calls[i].tool ==> matches_of(
                calls,
                results,
                i,
            ).contains(Some(m)),
    }
}

/// A result goes to one call at most, and to one of its own tool. A call that
/// is left without a result finds every result of its tool taken by a call
/// before it.
pub proof fn results_are_taken_once(calls: Seq<CallView>, results: Seq<ResultView>, n: int)
    requires
        0 <= n <= calls.len(),
    ensures
        matches_of(calls, results, n).len() == n,
        forall|i: int|
            #![trigger matches_of(calls, results, n)[i]]
            0 <= i < n ==> takes_fairly(calls, results, i, matches_of(calls, results, n)[i]),
        forall|i: int, j: int|
            #![trigger matches_of(calls, results, n)[i], matches_of(calls, results, n)[j]]
            0 <= i < j < n && matches_of(calls, results, n)[i] is Some ==> matches_of(
                calls,
                results,
                n,
            )[i] != matches_of(calls, results, n)[j],
    decreases n,
{
    if n > 0 {
        results_are_taken_once(calls, results, n - 1);
        let taken = matches_of(calls, results, n - 1);
        let all = matches_of(calls, results, n);
        lemma_first_free(results, taken, calls[n - 1].tool, 0);
        assert forall|i: int|
            #![trigger all[i]]
            0 <= i < n implies takes_fairly(calls, results, i, all[i]) by {
            if i < n - 1 {
                assert(all[i] == taken[i]);
            }
        }
        assert forall|i: int, j: int|
            #![trigger all[i], all[j]]
            0 <= i < j < n && all[i] is Some implies all[i] != all[j] by {
            assert(all[i] == taken[i]);
            if j < n - 1 {
                assert(all[j] == taken[j]);
            } else if all[j] is Some {
                assert(taken.contains(taken[i]));
            }
        }
    }
}

proof fn lemma_first_free(results: Seq<ResultView>, taken: Seq<Option<int>>, tool: Seq<char>, k: int)
    requires
        0 <= k <= results.len(),
    ensures
        match first_free(results, taken, tool, k) {
            Some(m) => k <= m < results.len() && results[m].tool == tool && !taken.contains(Some(m)),
            None => forall|m: int|
                k <= m < results.len() && (#[trigger] results[m]).tool == tool ==> taken.contains(
                    Some(m),
                ),
        },
    decreases results.len() - k,
{
    if k < results.len() {
        lemma_first_free(results, taken, tool, k + 1);
    }
}

/// The results of a tool among the first `n`, in their order.
pub open spec fn results_of(results: Seq<ResultView>, tool: Seq<char>, n: int) -> Seq<ResultView>
    decreases n,
{
    if n <= 0 {
        Seq::empty()
    } else if results[n - 1].tool == tool {
        results_of(results, tool, n - 1).push(results[n - 1])
    } else {
        results_of(results, tool, n - 1)
    }
}

/// How many of the first `n` calls are calls of the tool.
pub open spec fn calls_before(calls: Seq<CallView>, tool: Seq<char>, n: int) -> nat
    decreases n,
{
    if n <= 0 {
        0
    } else {
        calls_before(calls, tool, n - 1) + if calls[n - 1].tool == tool {
            1nat
        } else {
            0nat
        }
    }
}

/// Whether a call takes the result that is its own by the order of calls: as
/// many results of its tool stand before that as calls of it before the call.
/// Without a result, the tool has no more results than calls before the call.
pub open spec fn takes_its_own(
    calls: Seq<CallView>,
    results: Seq<ResultView>,
    i: int,
    k: Option<int>,
) -> bool {
    let tool = calls[i].tool;
    match k {
        Some(k) => {
            &&& 0 <= k < results.len()
            &&& results[k].tool == tool
            &&& results_of(results, tool, k).len() == calls_before(calls, tool, i)
        },
        None => results_of(results, tool, results.len() as int).len() <= calls_before(
            calls,
            tool,
            i,
        ),
    }
}

/// Results are taken in the order of calls: the first call of a tool takes the
/// first result of that tool, the second the second, and so on, and the calls
/// behind the last result of their tool take none.
pub proof fn results_are_taken_in_order(calls: Seq<CallView>, results: Seq<ResultView>, n: int)
    requires
        0 <= n <= calls.len(),
    ensures
        matches_of(calls, results, n).len() == n,
        forall|i: int|
            #![trigger matches_of(calls, results, n)[i]]
            0 <= i < n ==> takes_its_own(calls, results, i, matches_of(calls, results, n)[i]),
    decreases n,
{
    if n > 0 {
        results_are_taken_in_order(calls, results, n - 1);
        lemma_taken(calls, results, n - 1);
        let taken = matches_of(calls, results, n - 1);
        let all = matches_of(calls, results, n);
        let tool = calls[n - 1].tool;
        lemma_next_free(results, taken, tool, calls_before(calls, tool, n - 1), 0);
        assert forall|i: int|
            #![trigger all[i]]
            0 <= i < n implies takes_its_own(calls, results, i, all[i]) by {
            if i < n - 1 {
                assert(all[i] == taken[i]);
            }
        }
    }
}

/// A result of a tool stands behind those before it.
proof fn lemma_results_grow(results: Seq<ResultView>, tool: Seq<char>, a: int, b: int)
    requires
        0 <= a < b <= results.len(),
        results[a].tool == tool,
    ensures
        results_of(results, tool, a).len() < results_of(results, tool, b).len(),
        results_of(results, tool, b)[results_of(results, tool, a).len() as int] == results[a],
    decreases b,
{
    if b > a + 1 {
        lemma_results_grow(results, tool, a, b - 1);
    }
}

/// Where exactly the first `c` results of a tool are taken, the next is free.
proof fn lemma_next_free(
    results: Seq<ResultView>,
    taken: Seq<Option<int>>,
    tool: Seq<char>,
    c: nat,
    k: int,
)
    requires
        0 <= k <= results.len(),
        forall|m: int|
            0 <= m < results.len() && (#[trigger] results[m]).tool == tool ==> (taken.contains(
                Some(m),
            ) <==> results_of(results, tool, m).len() < c),
        results_of(results, tool, k).len() <= c,
    ensures
        match first_free(results, taken, tool, k) {
            Some(m) => {
                &&& k <= m < results.len()
                &&& results[m].tool == tool
                &&& results_of(results, tool, m).len() == c
            },
            None => results_of(results, tool, results.len() as int).len() <= c,
        },
    decreases results.len() - k,
{
    if k < results.len() {
        if !(results[k].tool == tool && !taken.contains(Some(k))) {
            lemma_next_free(results, taken, tool, c, k + 1);
        }
    }
}

/// Of each tool, as many results are taken as there were calls, and the first
/// ones.
proof fn lemma_taken(calls: Seq<CallView>, results: Seq<ResultView>, n: int)
    requires
        0 <= n <= calls.len(),
    ensures
        forall|k: int|
            0 <= k < results.len() ==> (matches_of(calls, results, n).contains(Some(k))
                <==> results_of(results, (#[trigger] results[k]).tool, k).len() < calls_before(
                calls,
                results[k].tool,
                n,
            )),
    decreases n,
{
    let all = matches_of(calls, results, n);
    if n > 0 {
        lemma_taken(calls, results, n - 1);
        let taken = matches_of(calls, results, n - 1);
        let tool = calls[n - 1].tool;
        let c = calls_before(calls, tool, n - 1);
        let free = first_free(results, taken, tool, 0);
        lemma_next_free(results, taken, tool, c, 0);
        assert forall|k: int| 0 <= k < results.len() implies (all.contains(Some(k)) <==> results_of(
            results,
            (#[trigger] results[k]).tool,
            k,
        ).len() < calls_before(calls, results[k].tool, n)) by {
            assert(all.contains(Some(k)) <==> taken.contains(Some(k)) || free == Some(k)) by {
                if taken.contains(Some(k)) {
                    assert(all[taken.index_of(Some(k))] == Some(k));
                }
                if free == Some(k) {
                    assert(all[taken.len() as int] == Some(k));
                }
                if all.contains(Some(k)) {
                    let i = all.index_of(Some(k));
                    if i < taken.len() {
                        assert(taken[i] == Some(k));
                    }
                }
            }
            if results[k].tool == tool {
                match free {
                    Some(m) => {
                        if k < m {
                            lemma_results_grow(results, tool, k, m);
                        }
                        if m < k {
                            lemma_results_grow(results, tool, m, k);
                        }
                    },
                    None => lemma_results_grow(results, tool, k, results.len() as int),
                }
            }
        }
    }
}

/// How many of the first `n` pairs are calls of the tool.
pub open spec fn pairs_before(tools: Seq<PairView>, tool: Seq<char>, n: int) -> nat
    decreases n,
{
    if n <= 0 {
        0
    } else {
        pairs_before(tools, tool, n - 1) + if tools[n - 1].tool == tool {
            1nat
        } else {
            0nat
        }
    }
}

/// How many of the first `n` pairs are calls of the tool with a result.
pub open spec fn answered_before(tools: Seq<PairView>, tool: Seq<char>, n: int) -> nat
    decreases n,
{
    if n <= 0 {
        0
    } else {
        answered_before(tools, tool, n - 1) + if tools[n - 1].tool == tool
            && tools[n - 1].result is Some {
            1nat
        } else {
            0nat
        }
    }
}

/// What the result at a place says, where there is one.
pub open spec fn outcome_at(results: Seq<ResultView>, k: int) -> Option<(bool, Json)> {
    if 0 <= k < results.len() {
        Some((results[k].ok, results[k].body))
    } else {
        None
    }
}

/// What the brain did has one pair for each tool call, by the time of the call.
/// The pair of a tool that stands behind `j` pairs of the same tool has the
/// result of that tool that stands behind `j` of them, if there is one. So of
/// each tool as many pairs have a result as there are pairs, or as there are
/// results where those are fewer.
pub proof fn tools_are_paired_in_order(turn_id: Seq<char>, recs: Seq<RecordView>, tool: Seq<char>)
    ensures
        ({
            let n = recs.len() as int;
            let tools = mind_of(turn_id, recs).tools;
            let calls = calls_by_time(calls_in(recs, n));
            let results = results_in(recs, n);
            let own = results_of(results, tool, results.len() as int);
            &&& tools.len() == calls.len() == calls_in(recs, n).len()
            &&& forall|i: int|
                0 <= i < tools.len() ==> (#[trigger] tools[i]).tool == calls[i].tool
                    && tools[i].args == calls[i].args && tools[i].call_ts == calls[i].ts
            &&& forall|i: int, j: int|
                0 <= i < j < tools.len() ==> (#[trigger] tools[i]).call_ts <= (
                #[trigger] tools[j]).call_ts
            &&& forall|i: int|
                0 <= i < tools.len() && (#[trigger] tools[i]).tool == tool ==> tools[i].result
                    == outcome_at(own, pairs_before(tools, tool, i) as int)
            &&& answered_before(tools, tool, tools.len() as int) == (if pairs_before(
                tools,
                tool,
                tools.len() as int,
            ) <= own.len() {
                pairs_before(tools, tool, tools.len() as int)
            } else {
                own.len()
            })
        }),
{
    let n = recs.len() as int;
    let made = calls_in(recs, n);
    let keys = Seq::new(made.len(), |i: int| made[i].ts);
    let order = sort_order(keys);
    sort_order_is_sorted(keys);
    let calls = calls_by_time(made);
    let results = results_in(recs, n);
    let own = results_of(results, tool, results.len() as int);
    let tools = mind_of(turn_id, recs).tools;
    let taken = matches_of(calls, results, calls.len() as int);
    results_are_taken_in_order(calls, results, calls.len() as int);
    assert forall|i: int, j: int| 0 <= i < j < tools.len() implies (#[trigger] tools[i]).call_ts
        <= (#[trigger] tools[j]).call_ts by {
        assert(0 <= order[i] < keys.len() && 0 <= order[j] < keys.len());
        assert(comes_first(keys, order[i], order[j]));
    }
    assert forall|i: int| 0 <= i < tools.len() && (#[trigger] tools[i]).tool
        == tool implies tools[i].result == outcome_at(own, pairs_before(tools, tool, i) as int) by {
        lemma_pairs_before(tools, calls, tool, i);
        assert(takes_its_own(calls, results, i, taken[i]));
        match taken[i] {
            Some(k) => lemma_results_grow(results, tool, k, results.len() as int),
            None => {},
        }
    }
    lemma_answered(tools, own, tool, tools.len() as int);
}

proof fn lemma_pairs_before(
    tools: Seq<PairView>,
    calls: Seq<CallView>,
    tool: Seq<char>,
    n: int,
)
    requires
        0 <= n <= tools.len() == calls.len(),
        forall|i: int| 0 <= i < tools.len() ==> (#[trigger] tools[i]).tool == calls[i].tool,
    ensures
        pairs_before(tools, tool, n) == calls_before(calls, tool, n),
    decreases n,
{
    if n > 0 {
        lemma_pairs_before(tools, calls, tool, n - 1);
        assert(tools[n - 1].tool == calls[n - 1].tool);
    }
}

proof fn lemma_answered(tools: Seq<PairView>, own: Seq<ResultView>, tool: Seq<char>, n: int)
    requires
        0 <= n <= tools.len(),
        forall|i: int|
            0 <= i < tools.len() && (#[trigger] tools[i]).tool == tool ==> tools[i].result
                == outcome_at(own, pairs_before(tools, tool, i) as int),
    ensures
        answered_before(tools, tool, n) == (if pairs_before(tools, tool, n) <= own.len() {
            pairs_before(tools, tool, n)
        } else {
            own.len()
        }),
    decreases n,
{
    if n > 0 {
        lemma_answered(tools, own, tool, n - 1);
        assert(tools[n - 1].tool == tool ==> tools[n - 1].result == outcome_at(
            own,
            pairs_before(tools, tool, n - 1) as int,
        ));
    }
}

/// A turn without a context event is shown all the same: no context, and
/// nothing recalled.
pub proof fn a_turn_without_context_has_none(turn_id: Seq<char>, recs: Seq<RecordView>)
    requires
        forall|i: int| 0 <= i < recs.len() ==> (#[trigger] recs[i]).topic != "wm.brain.context"@,
    ensures
        !mind_of(turn_id, recs).context_available,
        mind_of(turn_id, recs).recall_subjects.len() == 0,
        mind_of(turn_id, recs).recall_hit_count is None,
        mind_of(turn_id, recs).persona_tier is None,
        mind_of(turn_id, recs).history_turn_count is None,
{
    lemma_no_context(recs, recs.len() as int);
}

proof fn lemma_no_context(recs: Seq<RecordView>, n: int)
    requires
        0 <= n <= recs.len(),
        forall|i: int| 0 <= i < recs.len() ==> (#[trigger] recs[i]).topic != "wm.brain.context"@,
    ensures
        last_context(recs, n) is None,
    decreases n,
{
    if n > 0 {
        assert(recs[n - 1].topic != "wm.brain.context"@);
        lemma_no_context(recs, n - 1);
    }
}

} // verus!
