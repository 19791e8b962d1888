//! The live monitor: what the pipeline is doing now, told by the bus events as
//! they come in.

use crate::payload::{quote, quoted, text_member, Json, Payload};
use crate::seconds::{push_tenths, push_whole, tenths_text, whole_text};
use crate::text::{begins_with, has_prefix, same};
use crate::trace::minus;
use vstd::prelude::*;
use vstd::utf8::{
    decode_utf8, encode_utf8, encode_utf8_decode_utf8, encode_utf8_valid_utf8, is_char_boundary,
    is_char_boundary_start_end_of_seq,
};

verus! {

// ── Stages ─────────────────────────────────────────────────────────────────

/// The stages of the pipeline.
#[derive(Debug, Clone, Copy, PartialEq, Eq, Structural)]
pub enum Stage {
    Wake,
    Capture,
    Stt,
    Dialog,
    Brain,
    Tts,
}

/// The stages in the order in which they become active.
pub open spec fn stage_at(i: int) -> Stage {
    if i == 0 {
        Stage::Wake
    } else if i == 1 {
        Stage::Capture
    } else if i == 2 {
        Stage::Stt
    } else if i == 3 {
        Stage::Dialog
    } else if i == 4 {
        Stage::Brain
    } else {
        Stage::Tts
    }
}

/// The place of a stage in that order.
pub open spec fn place_of(s: Stage) -> int {
    match s {
        Stage::Wake => 0,
        Stage::Capture => 1,
        Stage::Stt => 2,
        Stage::Dialog => 3,
        Stage::Brain => 4,
        Stage::Tts => 5,
    }
}

/// The name that is shown for a stage.
pub open spec fn label_of(s: Stage) -> Seq<char> {
    match s {
        Stage::Wake => "wake"@,
        Stage::Capture => "capture"@,
        Stage::Stt => "stt"@,
        Stage::Dialog => "dialog"@,
        Stage::Brain => "brain"@,
        Stage::Tts => "tts"@,
    }
}

impl Stage {
    /// The stages in the order in which they become active.
    pub const ALL: [Stage; 6] = [
        Stage::Wake,
        Stage::Capture,
        Stage::Stt,
        Stage::Dialog,
        Stage::Brain,
        Stage::Tts,
    ];

    /// The name that is shown for the stage.
    pub fn label(self) -> (r: &'static str)
        ensures
            r@ == label_of(self),
    {
        match self {
            Stage::Wake => "wake",
            Stage::Capture => "capture",
            Stage::Stt => "stt",
            Stage::Dialog => "dialog",
            Stage::Brain => "brain",
            Stage::Tts => "tts",
        }
    }
}

/// The stages stand in the order in which they become active, each at its place.
pub proof fn stages_stand_in_order(s: Stage)
    ensures
        0 <= place_of(s) < 6,
        stage_at(place_of(s)) == s,
        Stage::ALL@[place_of(s)] == s,
        Stage::ALL@.len() == 6,
        forall|i: int| 0 <= i < 6 ==> place_of(#[trigger] stage_at(i)) == i,
        forall|i: int| 0 <= i < 6 ==> #[trigger] Stage::ALL@[i] == stage_at(i),
{
}

/// How a stage is shown.
#[derive(Debug, Clone, Copy, PartialEq, Eq, Structural)]
pub enum StageState {
    /// Not reached in this turn.
    Idle,
    /// At work.
    Active,
    /// Done.
    Done,
    /// Failed: an error topic came in.
    Failed,
    /// At work for longer than the threshold, with no successor.
    Stalled,
}

impl Default for StageState {
    fn default() -> (r: StageState)
        ensures
            r == StageState::Idle,
    {
        StageState::Idle
    }
}

/// What a topic says of the pipeline.
#[derive(Debug, Clone, Copy, PartialEq, Eq, Structural)]
pub enum TopicKind {
    StageStart(Stage),
    StageEnd(Stage),
    StageError(Stage),
    DialogState,
    SttPartial,
    TtsEnd,
    Unrelated,
}

/// What a topic says of the pipeline. A topic that is not known starts the
/// stage that its prefix names.
pub open spec fn kind_of(topic: Seq<char>) -> TopicKind {
    if topic == "wm.audio.wake"@ {
        TopicKind::StageStart(Stage::Wake)
    } else if topic == "wm.audio.capture.start"@ || topic == "wm.audio.speech.start"@ {
        TopicKind::StageStart(Stage::Capture)
    } else if topic == "wm.audio.capture.end"@ || topic == "wm.audio.speech.end"@ {
        TopicKind::StageEnd(Stage::Capture)
    } else if topic == "wm.audio.error"@ {
        TopicKind::StageError(Stage::Capture)
    } else if topic == "wm.stt.partial"@ {
        TopicKind::SttPartial
    } else if topic == "wm.stt.final"@ || topic == "wm.stt.uncertain"@ {
        TopicKind::StageEnd(Stage::Stt)
    } else if topic == "wm.stt.error"@ {
        TopicKind::StageError(Stage::Stt)
    } else if topic == "wm.dialog.state"@ {
        TopicKind::DialogState
    } else if topic == "wm.dialog.confirm.denied"@ || topic == "wm.dialog.confirm.granted"@ {
        TopicKind::StageEnd(Stage::Dialog)
    } else if topic == "wm.brain.reply"@ || topic == "wm.brain.reply.destructive"@ {
        TopicKind::StageEnd(Stage::Brain)
    } else if topic == "wm.brain.error"@ {
        TopicKind::StageError(Stage::Brain)
    } else if topic == "wm.tts.end"@ {
        TopicKind::TtsEnd
    } else if topic == "wm.tts.error"@ {
        TopicKind::StageError(Stage::Tts)
    } else if begins_with(topic, "wm.stt."@) {
        TopicKind::StageStart(Stage::Stt)
    } else if begins_with(topic, "wm.dialog."@) {
        TopicKind::StageStart(Stage::Dialog)
    } else if begins_with(topic, "wm.brain."@) {
        TopicKind::StageStart(Stage::Brain)
    } else if begins_with(topic, "wm.tts."@) {
        TopicKind::StageStart(Stage::Tts)
    } else {
        TopicKind::Unrelated
    }
}

/// What a topic says of the pipeline.
pub fn classify_topic(topic: &str) -> (r: TopicKind)
    ensures
        r == kind_of(topic@),
{
    if same(topic, "wm.audio.wake") {
        TopicKind::StageStart(Stage::Wake)
    } else if same(topic, "wm.audio.capture.start") || same(topic, "wm.audio.speech.start") {
        TopicKind::StageStart(Stage::Capture)
    } else if same(topic, "wm.audio.capture.end") || same(topic, "wm.audio.speech.end") {
        TopicKind::StageEnd(Stage::Capture)
    } else if same(topic, "wm.audio.error") {
        TopicKind::StageError(Stage::Capture)
    } else if same(topic, "wm.stt.partial") {
        TopicKind::SttPartial
    } else if same(topic, "wm.stt.final") || same(topic, "wm.stt.uncertain") {
        TopicKind::StageEnd(Stage::Stt)
    } else if same(topic, "wm.stt.error") {
        TopicKind::StageError(Stage::Stt)
    } else if same(topic, "wm.dialog.state") {
        TopicKind::DialogState
    } else if same(topic, "wm.dialog.confirm.denied") || same(topic, "wm.dialog.confirm.granted") {
        TopicKind::StageEnd(Stage::Dialog)
    } else if same(topic, "wm.brain.reply") || same(topic, "wm.brain.reply.destructive") {
        TopicKind::StageEnd(Stage::Brain)
    } else if same(topic, "wm.brain.error") {
        TopicKind::StageError(Stage::Brain)
    } else if same(topic, "wm.tts.end") {
        TopicKind::TtsEnd
    } else if same(topic, "wm.tts.error") {
        TopicKind::StageError(Stage::Tts)
    } else if has_prefix(topic, "wm.stt.") {
        TopicKind::StageStart(Stage::Stt)
    } else if has_prefix(topic, "wm.dialog.") {
        TopicKind::StageStart(Stage::Dialog)
    } else if has_prefix(topic, "wm.brain.") {
        TopicKind::StageStart(Stage::Brain)
    } else if has_prefix(topic, "wm.tts.") {
        TopicKind::StageStart(Stage::Tts)
    } else {
        TopicKind::Unrelated
    }
}

// ── Turns that are over ────────────────────────────────────────────────────

/// A turn that is over.
#[derive(Debug, Clone)]
pub struct TurnEntry {
    pub turn_id: Option<String>,
    pub transcript: String,
    pub elapsed_ms: u64,
    pub success: bool,
    pub stall_stage: Option<Stage>,
}

/// The mathematical turn.
pub struct TurnView {
    pub turn_id: Option<Seq<char>>,
    pub transcript: Seq<char>,
    pub elapsed_ms: u64,
    pub success: bool,
    pub stall_stage: Option<Stage>,
}

impl View for TurnEntry {
    type V = TurnView;

    open spec fn view(&self) -> TurnView {
        TurnView {
            turn_id: self.turn_id.deep_view(),
            transcript: self.transcript@,
            elapsed_ms: self.elapsed_ms,
            success: self.success,
            stall_stage: self.stall_stage,
        }
    }
}

impl DeepView for TurnEntry {
    type V = TurnView;

    open spec fn deep_view(&self) -> TurnView {
        self@
    }
}

/// The line of a turn that is over.
pub open spec fn turn_line(t: TurnView) -> Seq<char> {
    if t.success {
        let said = if t.transcript.len() == 0 {
            "(no transcript)"@
        } else {
            seq!['"'] + t.transcript + seq!['"']
        };
        "✓ "@ + said + " "@ + tenths_text(t.elapsed_ms as nat) + "s"@
    } else {
        "✗ stalled @ "@ + match t.stall_stage {
            Some(s) => label_of(s),
            None => "unknown"@,
        }
    }
}

impl TurnEntry {
    /// The line of the turn.
    pub fn format_line(&self) -> (r: String)
        ensures
            r@ == turn_line(self@),
    {
        if self.success {
            let mut out: String = "✓ ".to_string();
            if self.transcript.as_str().unicode_len() == 0 {
                out.append("(no transcript)");
            } else {
                out.push('"');
                out.append(self.transcript.as_str());
                out.push('"');
            }
            out.append(" ");
            push_tenths(&mut out, self.elapsed_ms);
            out.append("s");
            assert(out@ =~= turn_line(self@));
            out
        } else {
            let mut out: String = "✗ stalled @ ".to_string();
            match self.stall_stage {
                Some(s) => out.append(s.label()),
                None => out.append("unknown"),
            }
            out
        }
    }
}

// ── The live state ─────────────────────────────────────────────────────────

/// What the pipeline is doing.
#[derive(Debug)]
pub struct PipelineState {
    /// How each stage is shown.
    pub stages: [StageState; 6],
    /// Milliseconds since the turn began.
    pub elapsed_ms: u64,
    /// When the turn began, in milliseconds since the Unix epoch; nothing where
    /// none is on.
    pub turn_start_ms: Option<u64>,
    /// The turn, where an event has named it.
    pub turn_id: Option<String>,
    /// What the dialog says it is doing.
    pub dialog_state: String,
    /// What the user has said, as far as it is recognised.
    pub partial_transcript: String,
    /// The turns that are over, the latest last.
    pub scrollback: Vec<TurnEntry>,
    /// The stage that is stalled, if any.
    pub stall_stage: Option<Stage>,
    /// When each stage became active.
    pub stage_active_since: [Option<u64>; 6],
}

/// The mathematical state.
pub struct PipelineView {
    pub stages: Seq<StageState>,
    pub elapsed_ms: u64,
    pub turn_start_ms: Option<u64>,
    pub turn_id: Option<Seq<char>>,
    pub dialog_state: Seq<char>,
    pub partial_transcript: Seq<char>,
    pub scrollback: Seq<TurnView>,
    pub stall_stage: Option<Stage>,
    pub stage_active_since: Seq<Option<u64>>,
}

impl View for PipelineState {
    type V = PipelineView;

    open spec fn view(&self) -> PipelineView {
        PipelineView {
            stages: self.stages@,
            elapsed_ms: self.elapsed_ms,
            turn_start_ms: self.turn_start_ms,
            turn_id: self.turn_id.deep_view(),
            dialog_state: self.dialog_state@,
            partial_transcript: self.partial_transcript@,
            scrollback: self.scrollback.deep_view(),
            stall_stage: self.stall_stage,
            stage_active_since: self.stage_active_since@,
        }
    }
}

/// How many turns that are over are kept.
pub const MAX_SCROLLBACK: usize = 20;

/// The state of six stages, none of which has been reached.
pub open spec fn all_idle() -> Seq<StageState> {
    Seq::new(6, |i: int| StageState::Idle)
}

/// The state before any event.
pub open spec fn quiet() -> PipelineView {
    PipelineView {
        stages: all_idle(),
        elapsed_ms: 0,
        turn_start_ms: None,
        turn_id: None,
        dialog_state: Seq::empty(),
        partial_transcript: Seq::empty(),
        scrollback: Seq::empty(),
        stall_stage: None,
        stage_active_since: Seq::new(6, |i: int| None),
    }
}

/// The time since the turn began, or 0 where none is on.
pub open spec fn since_start(p: PipelineView, now: u64) -> u64 {
    match p.turn_start_ms {
        Some(t) => minus(now, t),
        None => 0,
    }
}

/// The turns that are over, with one more: of more than can be kept the oldest
/// goes.
pub open spec fn with_turn(scrollback: Seq<TurnView>, t: TurnView) -> Seq<TurnView> {
    if scrollback.len() >= MAX_SCROLLBACK {
        scrollback.subrange(1, scrollback.len() as int).push(t)
    } else {
        scrollback.push(t)
    }
}

/// The first stage, from place `i` on, that is at work or stalled.
pub open spec fn first_unfinished(stages: Seq<StageState>, i: int) -> Option<Stage>
    decreases 6 - i,
{
    if i < 0 || i >= 6 {
        None
    } else if stages[i] == StageState::Active || stages[i] == StageState::Stalled {
        Some(stage_at(i))
    } else {
        first_unfinished(stages, i + 1)
    }
}

/// The state with the turn that is on, if one is, put among those that are over
/// as one that was not completed.
pub open spec fn flushed(p: PipelineView, now: u64) -> PipelineView {
    if p.turn_start_ms is None {
        p
    } else {
        PipelineView {
            scrollback: with_turn(
                p.scrollback,
                TurnView {
                    turn_id: p.turn_id,
                    transcript: p.partial_transcript,
                    elapsed_ms: since_start(p, now),
                    success: false,
                    stall_stage: first_unfinished(p.stages, 0),
                },
            ),
            ..p
        }
    }
}

/// The state at the start of a turn.
pub open spec fn renewed(p: PipelineView, now: u64, turn: Option<Seq<char>>) -> PipelineView {
    PipelineView {
        stages: all_idle(),
        stage_active_since: Seq::new(6, |i: int| None),
        turn_start_ms: Some(now),
        elapsed_ms: 0,
        turn_id: turn,
        stall_stage: None,
        partial_transcript: Seq::empty(),
        ..p
    }
}

/// The state with a stage in another state, active since the given time.
pub open spec fn with_stage(p: PipelineView, i: int, state: StageState, since: Option<u64>) -> PipelineView {
    PipelineView {
        stages: p.stages.update(i, state),
        stage_active_since: p.stage_active_since.update(i, since),
        ..p
    }
}

/// The stages with the one at place `i` done, if it was at work.
pub open spec fn closed_off(p: PipelineView, i: int) -> PipelineView {
    if 0 <= i && p.stages[i] == StageState::Active {
        PipelineView { stages: p.stages.update(i, StageState::Done), ..p }
    } else {
        p
    }
}

/// Whether a stage has been at work for longer than the threshold.
pub open spec fn is_late(p: PipelineView, i: int, now: u64, threshold: u64) -> bool {
    &&& p.stages[i] == StageState::Active
    &&& p.stage_active_since[i] matches Some(since) && minus(now, since) > threshold
}

/// The last of the first `n` stages that has been at work for longer than the
/// threshold.
pub open spec fn last_late(p: PipelineView, n: int, now: u64, threshold: u64) -> Option<Stage>
    decreases n,
{
    if n <= 0 {
        None
    } else if is_late(p, n - 1, now, threshold) {
        Some(stage_at(n - 1))
    } else {
        last_late(p, n - 1, now, threshold)
    }
}

/// The stage that a check names: the last one that it finds late or, where it
/// finds none, the one that was named before, as long as that is stalled.
pub open spec fn named_stall(p: PipelineView, now: u64, threshold: u64) -> Option<Stage> {
    match last_late(p, 6, now, threshold) {
        Some(s) => Some(s),
        None => match p.stall_stage {
            Some(s) => if p.stages[place_of(s)] == StageState::Stalled {
                Some(s)
            } else {
                None
            },
            None => None,
        },
    }
}

/// The state with every stage stalled that has been at work for longer than the
/// threshold.
pub open spec fn checked(p: PipelineView, now: u64, threshold: u64) -> PipelineView {
    PipelineView {
        stages: Seq::new(
            6,
            |i: int|
                if is_late(p, i, now, threshold) {
                    StageState::Stalled
                } else {
                    p.stages[i]
                },
        ),
        stall_stage: named_stall(p, now, threshold),
        ..p
    }
}

/// The state with the time counted on, while a turn is on.
pub open spec fn ticked(p: PipelineView, now: u64) -> PipelineView {
    if p.turn_start_ms is Some {
        PipelineView { elapsed_ms: since_start(p, now), ..p }
    } else {
        p
    }
}

/// What an event does to the turn that is on, and whether it does anything.
pub open spec fn moved(p: PipelineView, kind: TopicKind, payload: Json, now: u64) -> (
    PipelineView,
    bool,
) {
    match kind {
        TopicKind::StageStart(s) => {
            let i = place_of(s);
            if p.stages[i] == StageState::Idle || p.stages[i] == StageState::Stalled {
                (closed_off(with_stage(p, i, StageState::Active, Some(now)), i - 1), true)
            } else {
                (p, false)
            }
        },
        TopicKind::StageEnd(s) => (with_stage(p, place_of(s), StageState::Done, None), true),
        TopicKind::StageError(s) => (with_stage(p, place_of(s), StageState::Failed, None), true),
        TopicKind::TtsEnd => (
            PipelineView {
                stages: p.stages.update(5, StageState::Done),
                scrollback: with_turn(
                    p.scrollback,
                    TurnView {
                        turn_id: p.turn_id,
                        transcript: p.partial_transcript,
                        elapsed_ms: since_start(p, now),
                        success: true,
                        stall_stage: None,
                    },
                ),
                turn_start_ms: None,
                partial_transcript: Seq::empty(),
                ..p
            },
            true,
        ),
        TopicKind::DialogState => match text_member(payload, "state"@) {
            Some(state) => (PipelineView { dialog_state: state, ..p }, true),
            None => (p, false),
        },
        TopicKind::SttPartial => {
            let heard = if p.stages[2] == StageState::Idle {
                closed_off(with_stage(p, 2, StageState::Active, Some(now)), 1)
            } else {
                p
            };
            (
                match text_member(payload, "text"@) {
                    Some(t) => PipelineView { partial_transcript: t, ..heard },
                    None => heard,
                },
                true,
            )
        },
        TopicKind::Unrelated => (p, false),
    }
}

/// The state after an event, and whether it has changed. A wake starts a turn,
/// and gives up the one that is on. Without a turn only what the dialog says is
/// taken up.
pub open spec fn applied(
    p: PipelineView,
    topic: Seq<char>,
    payload: Json,
    now: u64,
    threshold: u64,
) -> (PipelineView, bool) {
    let kind = kind_of(topic);
    let turn = text_member(payload, "turn_id"@);
    if kind == TopicKind::StageStart(Stage::Wake) {
        (with_stage(renewed(flushed(p, now), now, turn), 0, StageState::Active, Some(now)), true)
    } else if p.turn_start_ms is None {
        if kind == TopicKind::DialogState {
            moved(p, kind, payload, now)
        } else {
            (p, false)
        }
    } else {
        let (q, changed) = moved(p, kind, payload, now);
        if changed {
            let named = PipelineView {
                turn_id: if q.turn_id is None {
                    turn
                } else {
                    q.turn_id
                },
                elapsed_ms: since_start(q, now),
                ..q
            };
            (checked(named, now, threshold), true)
        } else {
            (q, false)
        }
    }
}

impl Default for PipelineState {
    /// The state before any event.
    fn default() -> (r: PipelineState)
        ensures
            r@ == quiet(),
    {
        let r = PipelineState {
            stages: [StageState::Idle; 6],
            elapsed_ms: 0,
            turn_start_ms: None,
            turn_id: None,
            dialog_state: String::new(),
            partial_transcript: String::new(),
            scrollback: Vec::new(),
            stall_stage: None,
            stage_active_since: [None; 6],
        };
        assert(r@.stages =~= quiet().stages);
        assert(r@.stage_active_since =~= quiet().stage_active_since);
        assert(r@.scrollback =~= quiet().scrollback);
        assert(r@.dialog_state =~= quiet().dialog_state);
        r
    }
}

impl PipelineState {
    /// A stage is stalled when it has been at work for longer than this, in
    /// milliseconds.
    pub const STALL_THRESHOLD_MS: u64 = 8_000;

    fn stage_idx(s: Stage) -> (r: usize)
        ensures
            r == place_of(s),
            r < 6,
    {
        match s {
            Stage::Wake => 0,
            Stage::Capture => 1,
            Stage::Stt => 2,
            Stage::Dialog => 3,
            Stage::Brain => 4,
            Stage::Tts => 5,
        }
    }

    fn set_stage(&mut self, i: usize, state: StageState, since: Option<u64>)
        requires
            i < 6,
        ensures
            final(self)@ == with_stage(old(self)@, i as int, state, since),
    {
        self.stages[i] = state;
        self.stage_active_since[i] = since;
    }

    fn close_off(&mut self, i: usize)
        requires
            i < 6,
        ensures
            final(self)@ == closed_off(old(self)@, i as int),
    {
        if self.stages[i] == StageState::Active {
            self.stages[i] = StageState::Done;
        }
    }

    /// Keeps a turn that is over, behind the others. Where as many are kept as
    /// may be, the oldest goes.
    pub fn push_scrollback(&mut self, entry: TurnEntry)
        ensures
            final(self)@ == (PipelineView {
                scrollback: with_turn(old(self)@.scrollback, entry@),
                ..old(self)@
            }),
    {
        let ghost was = self.scrollback.deep_view();
        if self.scrollback.len() >= MAX_SCROLLBACK {
            let _ = self.scrollback.remove(0);
            assert(self.scrollback.deep_view() =~= was.subrange(1, was.len() as int));
        }
        let ghost mid = self.scrollback.deep_view();
        let ghost e = entry@;
        self.scrollback.push(entry);
        assert(self.scrollback.deep_view() =~= mid.push(e));
    }

    fn elapsed(&self, now_ms: u64) -> (r: u64)
        ensures
            r == since_start(self@, now_ms),
    {
        match self.turn_start_ms {
            Some(t) => now_ms.saturating_sub(t),
            None => 0,
        }
    }

    fn copied_turn(&self) -> (r: Option<String>)
        ensures
            r.deep_view() == self@.turn_id,
    {
        match &self.turn_id {
            Some(t) => Some(t.clone()),
            None => None,
        }
    }

    fn unfinished_stage(&self) -> (r: Option<Stage>)
        ensures
            r == first_unfinished(self@.stages, 0),
    {
        let mut i: usize = 0;
        while i < 6
            invariant
                i <= 6,
                first_unfinished(self@.stages, 0) == first_unfinished(self@.stages, i as int),
            decreases 6 - i,
        {
            if self.stages[i] == StageState::Active || self.stages[i] == StageState::Stalled {
                assert(Stage::ALL@[i as int] == stage_at(i as int));
                return Some(Stage::ALL[i]);
            }
            i += 1;
        }
        None
    }

    fn flush_stalled_turn(&mut self, now_ms: u64)
        ensures
            final(self)@ == flushed(old(self)@, now_ms),
    {
        if self.turn_start_ms.is_none() {
            return;
        }
        let stall_stage = self.unfinished_stage();
        let entry = TurnEntry {
            turn_id: self.copied_turn(),
            transcript: self.partial_transcript.clone(),
            elapsed_ms: self.elapsed(now_ms),
            success: false,
            stall_stage,
        };
        self.push_scrollback(entry);
    }

    fn reset_for_new_turn(&mut self, now_ms: u64, turn_id: Option<String>)
        ensures
            final(self)@ == renewed(old(self)@, now_ms, turn_id.deep_view()),
    {
        self.stages = [StageState::Idle; 6];
        self.stage_active_since = [None; 6];
        self.turn_start_ms = Some(now_ms);
        self.elapsed_ms = 0;
        self.turn_id = turn_id;
        self.stall_stage = None;
        self.partial_transcript = String::new();
        assert(self.stages@ =~= all_idle());
        assert(self.stage_active_since@ =~= Seq::new(6, |i: int| None));
        assert(self.partial_transcript@ =~= Seq::empty());
    }

    /// Takes in an event, and says whether the state has changed.
    pub fn apply(
        &mut self,
        topic: &str,
        payload: &Payload,
        now_ms: u64,
        stall_threshold_ms: u64,
    ) -> (r: bool)
        ensures
            (final(self)@, r) == applied(
                old(self)@,
                topic@,
                payload@,
                now_ms,
                stall_threshold_ms,
            ),
    {
        let kind = classify_topic(topic);
        let ev_turn = payload.get_text("turn_id");
        if kind == TopicKind::StageStart(Stage::Wake) {
            self.flush_stalled_turn(now_ms);
            self.reset_for_new_turn(now_ms, ev_turn);
            self.set_stage(Self::stage_idx(Stage::Wake), StageState::Active, Some(now_ms));
            return true;
        }
        if self.turn_start_ms.is_none() {
            if kind == TopicKind::DialogState {
                return self.advance(kind, payload, now_ms);
            }
            return false;
        }
        let changed = self.advance(kind, payload, now_ms);
        if changed {
            if self.turn_id.is_none() {
                self.turn_id = ev_turn;
            }
            self.elapsed_ms = self.elapsed(now_ms);
            self.check_stalls(now_ms, stall_threshold_ms);
        }
        changed
    }

    /// Takes in an event of the turn that is on.
    fn advance(&mut self, kind: TopicKind, payload: &Payload, now_ms: u64) -> (r: bool)
        ensures
            (final(self)@, r) == moved(old(self)@, kind, payload@, now_ms),
    {
        match kind {
            TopicKind::StageStart(s) => {
                let i = Self::stage_idx(s);
                if self.stages[i] == StageState::Idle || self.stages[i] == StageState::Stalled {
                    self.set_stage(i, StageState::Active, Some(now_ms));
                    if i > 0 {
                        self.close_off(i - 1);
                    }
                    true
                } else {
                    false
                }
            },
            TopicKind::StageEnd(s) => {
                self.set_stage(Self::stage_idx(s), StageState::Done, None);
                true
            },
            TopicKind::StageError(s) => {
                self.set_stage(Self::stage_idx(s), StageState::Failed, None);
                true
            },
            TopicKind::TtsEnd => {
                self.stages[Self::stage_idx(Stage::Tts)] = StageState::Done;
                let entry = TurnEntry {
                    turn_id: self.copied_turn(),
                    transcript: self.partial_transcript.clone(),
                    elapsed_ms: self.elapsed(now_ms),
                    success: true,
                    stall_stage: None,
                };
                self.push_scrollback(entry);
                self.turn_start_ms = None;
                self.partial_transcript = String::new();
                assert(self.partial_transcript@ =~= Seq::empty());
                true
            },
            TopicKind::DialogState => match payload.get_text("state") {
                Some(state) => {
                    self.dialog_state = state;
                    true
                },
                None => false,
            },
            TopicKind::SttPartial => {
                let i = Self::stage_idx(Stage::Stt);
                if self.stages[i] == StageState::Idle {
                    self.set_stage(i, StageState::Active, Some(now_ms));
                    self.close_off(Self::stage_idx(Stage::Capture));
                }
                if let Some(t) = payload.get_text("text") {
                    self.partial_transcript = t;
                }
                true
            },
            TopicKind::Unrelated => false,
        }
    }

    /// Finds every stage stalled that has been at work for longer than the
    /// threshold. A stage that was found stalled before stays named while it is.
    pub fn check_stalls(&mut self, now_ms: u64, threshold_ms: u64)
        ensures
            final(self)@ == checked(old(self)@, now_ms, threshold_ms),
    {
        let ghost p = self@;
        let named = self.stall_stage;
        self.stall_stage = None;
        let mut i: usize = 0;
        assert(self@.stages =~= Seq::new(
            6,
            |j: int|
                if j < 0 && is_late(p, j, now_ms, threshold_ms) {
                    StageState::Stalled
                } else {
                    p.stages[j]
                },
        ));
        while i < 6
            invariant
                i <= 6,
                p == old(self)@,
                self@ == (PipelineView {
                    stages: Seq::new(
                        6,
                        |j: int|
                            if j < i && is_late(p, j, now_ms, threshold_ms) {
                                StageState::Stalled
                            } else {
                                p.stages[j]
                            },
                    ),
                    stall_stage: last_late(p, i as int, now_ms, threshold_ms),
                    ..p
                }),
            decreases 6 - i,
        {
            if self.stages[i] == StageState::Active {
                if let Some(since) = self.stage_active_since[i] {
                    if now_ms.saturating_sub(since) > threshold_ms {
                        self.stages[i] = StageState::Stalled;
                        self.stall_stage = Some(Stage::ALL[i]);
                        assert(Stage::ALL@[i as int] == stage_at(i as int));
                    }
                }
            }
            assert(self@.stages =~= Seq::new(
                6,
                |j: int|
                    if j < i + 1 && is_late(p, j, now_ms, threshold_ms) {
                        StageState::Stalled
                    } else {
                        p.stages[j]
                    },
            ));
            i += 1;
        }
        assert(self@.stages =~= checked(p, now_ms, threshold_ms).stages);
        if self.stall_stage.is_none() {
            if let Some(s) = named {
                proof {
                    lemma_last_late(p, 6, now_ms, threshold_ms);
                    assert(!is_late(p, place_of(s), now_ms, threshold_ms));
                }
                if self.stages[Self::stage_idx(s)] == StageState::Stalled {
                    self.stall_stage = named;
                }
            }
        }
    }

    /// Counts the time on.
    pub fn tick(&mut self, now_ms: u64)
        ensures
            final(self)@ == ticked(old(self)@, now_ms),
    {
        if self.turn_start_ms.is_some() {
            self.elapsed_ms = self.elapsed(now_ms);
        }
    }
}

// ── Display ────────────────────────────────────────────────────────────────

/// The line of an event in the plain stream: the topic, what the dialog says,
/// what has been recognised, and the stage that is stalled, as one JSON object.
pub open spec fn plain_text(topic: Seq<char>, p: PipelineView) -> Seq<char> {
    "{\"topic\":"@ + quoted(topic) + ",\"dialog_state\":"@ + quoted(p.dialog_state)
        + ",\"partial\":"@ + quoted(p.partial_transcript) + ",\"stall\":"@ + (match p.stall_stage {
        Some(s) => seq!['"'] + label_of(s) + seq!['"'],
        None => "null"@,
    }) + "}\n"@
}

/// The time that is shown behind the stages, while a turn is on.
pub open spec fn clock_text(p: PipelineView) -> Seq<char> {
    if p.turn_start_ms is Some {
        "  "@ + tenths_text(p.elapsed_ms as nat) + "s"@
    } else {
        ""@
    }
}

/// The last place among the first `n` bytes at which a character ends.
pub open spec fn last_boundary(bytes: Seq<u8>, n: int) -> int
    decreases n,
{
    if n <= 0 {
        0
    } else if is_char_boundary(bytes, n) {
        n
    } else {
        last_boundary(bytes, n - 1)
    }
}

/// The characters that stand whole in the first eight bytes of a text.
pub open spec fn first_bytes(t: Seq<char>) -> Seq<char> {
    let bytes = encode_utf8(t);
    if bytes.len() <= 8 {
        t
    } else {
        decode_utf8(bytes.subrange(0, last_boundary(bytes, 8)))
    }
}

/// The turn, by its first eight bytes.
pub open spec fn turn_text(turn: Option<Seq<char>>) -> Seq<char> {
    match turn {
        Some(t) => "  turn:"@ + first_bytes(t),
        None => ""@,
    }
}

/// What has been recognised, between quotes.
pub open spec fn heard_text(transcript: Seq<char>) -> Seq<char> {
    if transcript.len() == 0 {
        ""@
    } else {
        "  \""@ + transcript + "\""@
    }
}

/// The warning that a stage is stalled.
pub open spec fn stall_text(stage: Option<Stage>, threshold: u64) -> Seq<char> {
    match stage {
        Some(s) => "  ⚠ "@ + label_of(s) + " active "@ + whole_text(threshold as nat)
            + "s — no successor"@,
        None => ""@,
    }
}

/// The line that says what the dialog is doing: its state, the turn, what has
/// been recognised, and a warning where a stage is stalled.
pub open spec fn state_text(p: PipelineView, threshold: u64) -> Seq<char> {
    "state: "@ + (if p.dialog_state.len() == 0 {
        "—"@
    } else {
        p.dialog_state
    }) + turn_text(p.turn_id) + heard_text(p.partial_transcript) + stall_text(
        p.stall_stage,
        threshold,
    )
}

fn push_head(out: &mut String, t: &str)
    ensures
        final(out)@ == old(out)@ + first_bytes(t@),
{
    if t.as_bytes().len() <= 8 {
        out.append(t);
    } else {
        let ghost bytes = encode_utf8(t@);
        let mut n: usize = 8;
        while n > 0 && !t.is_char_boundary(n)
            invariant
                n <= 8 < bytes.len(),
                bytes == encode_utf8(t@),
                last_boundary(bytes, 8) == last_boundary(bytes, n as int),
            decreases n,
        {
            n -= 1;
        }
        proof {
            encode_utf8_valid_utf8(t@);
            is_char_boundary_start_end_of_seq(bytes);
        }
        let (head, _rest) = t.split_at(n);
        proof {
            encode_utf8_decode_utf8(head@);
        }
        out.append(head);
    }
}

impl PipelineState {
    /// The line of an event in the plain stream, with its end, given the state
    /// that the event has led to.
    pub fn plain_line(&self, topic: &str) -> (r: String)
        ensures
            r@ == plain_text(topic@, self@),
    {
        let mut out: String = "{\"topic\":".to_string();
        out.append(quote(topic).as_str());
        out.append(",\"dialog_state\":");
        out.append(quote(self.dialog_state.as_str()).as_str());
        out.append(",\"partial\":");
        out.append(quote(self.partial_transcript.as_str()).as_str());
        out.append(",\"stall\":");
        let ghost mid = out@;
        match self.stall_stage {
            Some(s) => {
                out.push('"');
                out.append(s.label());
                out.push('"');
                assert(out@ =~= mid + (seq!['"'] + label_of(s) + seq!['"']));
            },
            None => out.append("null"),
        }
        out.append("}\n");
        out
    }

    /// Takes in an event, and gives its line in the plain stream: every event has
    /// one, whether it changes the state or not.
    pub fn stream_line(
        &mut self,
        topic: &str,
        payload: &Payload,
        now_ms: u64,
        stall_threshold_ms: u64,
    ) -> (r: String)
        ensures
            final(self)@ == applied(old(self)@, topic@, payload@, now_ms, stall_threshold_ms).0,
            r@ == plain_text(topic@, final(self)@),
    {
        let _ = self.apply(topic, payload, now_ms, stall_threshold_ms);
        self.plain_line(topic)
    }

    /// The time that is shown behind the stages, while a turn is on.
    pub fn clock(&self) -> (r: String)
        ensures
            r@ == clock_text(self@),
    {
        if self.turn_start_ms.is_some() {
            let mut out: String = "  ".to_string();
            push_tenths(&mut out, self.elapsed_ms);
            out.append("s");
            out
        } else {
            "".to_string()
        }
    }

    /// The line that says what the dialog is doing.
    pub fn state_line(&self, stall_threshold_ms: u64) -> (r: String)
        ensures
            r@ == state_text(self@, stall_threshold_ms),
    {
        let mut out: String = "state: ".to_string();
        if self.dialog_state.as_str().unicode_len() == 0 {
            out.append("—");
        } else {
            out.append(self.dialog_state.as_str());
        }
        self.push_turn(&mut out);
        self.push_heard(&mut out);
        self.push_stall(&mut out, stall_threshold_ms);
        out
    }

    fn push_turn(&self, out: &mut String)
        ensures
            final(out)@ == old(out)@ + turn_text(self@.turn_id),
    {
        let ghost start = out@;
        match &self.turn_id {
            Some(t) => {
                out.append("  turn:");
                push_head(out, t.as_str());
            },
            None => out.append(""),
        }
        assert(out@ =~= start + turn_text(self@.turn_id));
    }

    fn push_heard(&self, out: &mut String)
        ensures
            final(out)@ == old(out)@ + heard_text(self@.partial_transcript),
    {
        let ghost start = out@;
        if self.partial_transcript.as_str().unicode_len() > 0 {
            out.append("  \"");
            out.append(self.partial_transcript.as_str());
            out.append("\"");
        } else {
            out.append("");
        }
        assert(out@ =~= start + heard_text(self@.partial_transcript));
    }

    fn push_stall(&self, out: &mut String, stall_threshold_ms: u64)
        ensures
            final(out)@ == old(out)@ + stall_text(self@.stall_stage, stall_threshold_ms),
    {
        let ghost start = out@;
        match self.stall_stage {
            Some(s) => {
                out.append("  ⚠ ");
                out.append(s.label());
                out.append(" active ");
                push_whole(out, stall_threshold_ms);
                out.append("s — no successor");
            },
            None => out.append(""),
        }
        assert(out@ =~= start + stall_text(self@.stall_stage, stall_threshold_ms));
    }

    /// The turns that are over, the latest first: the line of each, and whether
    /// it was completed.
    pub fn scrollback_lines(&self) -> (r: Vec<(String, bool)>)
        ensures
            r.deep_view() == Seq::new(
                self@.scrollback.len(),
                |i: int|
                    {
                        let t = self@.scrollback[self@.scrollback.len() - 1 - i];
                        (turn_line(t), t.success)
                    },
            ),
    {
        let ghost all = self@.scrollback;
        let mut out: Vec<(String, bool)> = Vec::new();
        let mut n: usize = self.scrollback.len();
        assert(out.deep_view() =~= Seq::empty());
        while n > 0
            invariant
                n <= self.scrollback@.len(),
                all == self@.scrollback,
                out.deep_view() == Seq::new(
                    (all.len() - n) as nat,
                    |i: int|
                        {
                            let t = all[all.len() - 1 - i];
                            (turn_line(t), t.success)
                        },
                ),
            decreases n,
        {
            n -= 1;
            let entry = &self.scrollback[n];
            assert(all[n as int] == entry@);
            let ghost was = out.deep_view();
            let line = entry.format_line();
            let ghost l = line@;
            out.push((line, entry.success));
            assert(out.deep_view() =~= was.push((l, entry.success)));
            assert(out.deep_view() =~= Seq::new(
                (all.len() - n) as nat,
                |i: int|
                    {
                        let t = all[all.len() - 1 - i];
                        (turn_line(t), t.success)
                    },
            ));
        }
        out
    }
}

/// The colours of the monitor.
#[derive(Debug, Clone, Copy, PartialEq, Eq, Structural)]
pub enum Hue {
    Gray,
    Green,
    Cyan,
    Red,
    Yellow,
    White,
}

/// How a piece of text is drawn.
#[derive(Debug, Clone, Copy, PartialEq, Eq, Structural)]
pub struct Look {
    pub hue: Hue,
    pub bold: bool,
    pub blink: bool,
}

/// Plain text of a colour.
pub open spec fn plain_look(hue: Hue) -> Look {
    Look { hue, bold: false, blink: false }
}

/// How the name of a stage is drawn.
pub open spec fn label_look(state: StageState) -> Look {
    match state {
        StageState::Idle => plain_look(Hue::Gray),
        StageState::Active => Look { hue: Hue::Green, bold: true, blink: false },
        StageState::Done => plain_look(Hue::Cyan),
        StageState::Failed => Look { hue: Hue::Red, bold: true, blink: true },
        StageState::Stalled => Look { hue: Hue::Yellow, bold: true, blink: false },
    }
}

/// How the brackets around the name of a stage are drawn.
pub open spec fn bracket_look(state: StageState) -> Look {
    match state {
        StageState::Idle => plain_look(Hue::Gray),
        StageState::Active => plain_look(Hue::Green),
        StageState::Done => plain_look(Hue::Gray),
        StageState::Failed => plain_look(Hue::Red),
        StageState::Stalled => plain_look(Hue::Yellow),
    }
}

impl StageState {
    /// How the name of a stage in this state is drawn, and the brackets around
    /// it.
    pub fn looks(self) -> (r: (Look, Look))
        ensures
            r == (label_look(self), bracket_look(self)),
    {
        let plain = Look { hue: Hue::Gray, bold: false, blink: false };
        match self {
            StageState::Idle => (plain, plain),
            StageState::Active => (
                Look { hue: Hue::Green, bold: true, blink: false },
                Look { hue: Hue::Green, bold: false, blink: false },
            ),
            StageState::Done => (Look { hue: Hue::Cyan, bold: false, blink: false }, plain),
            StageState::Failed => (
                Look { hue: Hue::Red, bold: true, blink: true },
                Look { hue: Hue::Red, bold: false, blink: false },
            ),
            StageState::Stalled => (
                Look { hue: Hue::Yellow, bold: true, blink: false },
                Look { hue: Hue::Yellow, bold: false, blink: false },
            ),
        }
    }
}

/// The row of the first `n` stages: each name in brackets, with arrows between
/// them.
pub open spec fn stages_row(stages: Seq<StageState>, n: int) -> Seq<(Seq<char>, Look)>
    decreases n,
{
    if n <= 0 {
        Seq::empty()
    } else {
        let i = n - 1;
        let before = stages_row(stages, i);
        let linked = if i > 0 {
            before.push((" → "@, plain_look(Hue::Gray)))
        } else {
            before
        };
        linked.push(("["@, bracket_look(stages[i]))).push(
            (label_of(stage_at(i)), label_look(stages[i])),
        ).push(("]"@, bracket_look(stages[i])))
    }
}

/// The row of the stages, with the time behind.
pub open spec fn pipeline_row(p: PipelineView) -> Seq<(Seq<char>, Look)> {
    stages_row(p.stages, 6).push((clock_text(p), plain_look(Hue::White)))
}

impl DeepView for Look {
    type V = Look;

    open spec fn deep_view(&self) -> Look {
        *self
    }
}

fn push_piece(row: &mut Vec<(String, Look)>, text: &str, look: Look)
    ensures
        final(row).deep_view() == old(row).deep_view().push((text@, look)),
{
    let ghost was = row.deep_view();
    row.push((text.to_string(), look));
    assert(row.deep_view() =~= was.push((text@, look)));
}

impl PipelineState {
    /// The row of the stages, with the time behind, piece by piece.
    pub fn pipeline_pieces(&self) -> (r: Vec<(String, Look)>)
        ensures
            r.deep_view() == pipeline_row(self@),
    {
        let mut row: Vec<(String, Look)> = Vec::new();
        assert(row.deep_view() =~= stages_row(self@.stages, 0));
        let mut i: usize = 0;
        while i < 6
            invariant
                i <= 6,
                row.deep_view() == stages_row(self@.stages, i as int),
            decreases 6 - i,
        {
            let (label, bracket) = self.stages[i].looks();
            if i > 0 {
                push_piece(&mut row, " → ", Look { hue: Hue::Gray, bold: false, blink: false });
            }
            push_piece(&mut row, "[", bracket);
            assert(Stage::ALL@[i as int] == stage_at(i as int));
            push_piece(&mut row, Stage::ALL[i].label(), label);
            push_piece(&mut row, "]", bracket);
            i += 1;
        }
        push_piece(
            &mut row,
            self.clock().as_str(),
            Look { hue: Hue::White, bold: false, blink: false },
        );
        row
    }
}

/// The line of keys below the monitor.
pub const HELP_LINE: &'static str = " q/Ctrl-C: quit   stall-threshold: 8s";

/// Whether a key ends the monitor: `q`, or `c` with Control.
pub fn quits(key: char, control: bool) -> (r: bool)
    ensures
        r == (key == 'q' || (key == 'c' && control)),
{
    key == 'q' || (key == 'c' && control)
}

// ── Laws ───────────────────────────────────────────────────────────────────

/// Whether a state has six stages and keeps no more turns than it may.
pub open spec fn is_bounded(p: PipelineView) -> bool {
    &&& p.stages.len() == 6
    &&& p.stage_active_since.len() == 6
    &&& p.scrollback.len() <= MAX_SCROLLBACK
}

/// No event makes the state keep more turns than it may.
pub proof fn scrollback_stays_bounded(
    p: PipelineView,
    topic: Seq<char>,
    payload: Json,
    now: u64,
    threshold: u64,
)
    requires
        is_bounded(p),
    ensures
        is_bounded(applied(p, topic, payload, now, threshold).0),
        is_bounded(quiet()),
{
}

/// An event that is said to change nothing leaves the state as it was.
pub proof fn no_change_means_no_change(
    p: PipelineView,
    topic: Seq<char>,
    payload: Json,
    now: u64,
    threshold: u64,
)
    requires
        !applied(p, topic, payload, now, threshold).1,
    ensures
        applied(p, topic, payload, now, threshold).0 == p,
{
}

/// While no turn is on, an event other than a wake changes nothing but what the
/// dialog says.
pub proof fn without_a_turn_only_the_dialog_moves(
    p: PipelineView,
    topic: Seq<char>,
    payload: Json,
    now: u64,
    threshold: u64,
)
    requires
        p.turn_start_ms is None,
        kind_of(topic) != TopicKind::StageStart(Stage::Wake),
    ensures
        applied(p, topic, payload, now, threshold).0 == (PipelineView {
            dialog_state: applied(p, topic, payload, now, threshold).0.dialog_state,
            ..p
        }),
{
}

/// A wake starts a fresh turn: its own stage is at work, no other has been
/// reached, nothing has been recognised and no time has passed. A turn that was
/// on is kept as one that was not completed.
pub proof fn a_wake_starts_a_fresh_turn(
    p: PipelineView,
    payload: Json,
    now: u64,
    threshold: u64,
)
    requires
        is_bounded(p),
    ensures
        ({
            let (q, changed) = applied(p, "wm.audio.wake"@, payload, now, threshold);
            &&& changed
            &&& q.turn_start_ms == Some(now)
            &&& q.elapsed_ms == 0
            &&& q.turn_id == text_member(payload, "turn_id"@)
            &&& q.partial_transcript.len() == 0
            &&& q.stall_stage is None
            &&& q.stages[0] == StageState::Active
            &&& forall|i: int| 1 <= i < 6 ==> #[trigger] q.stages[i] == StageState::Idle
            &&& p.turn_start_ms is None ==> q.scrollback == p.scrollback
            &&& p.turn_start_ms is Some ==> q.scrollback.len() > 0 && !q.scrollback.last().success
                && q.scrollback.last().turn_id == p.turn_id
        }),
{
}

/// The end of speech output completes the turn that is on: it is kept as
/// completed, with the time it took, and no turn is on.
pub proof fn the_end_of_speech_completes_a_turn(
    p: PipelineView,
    payload: Json,
    now: u64,
    threshold: u64,
)
    requires
        is_bounded(p),
        p.turn_start_ms is Some,
    ensures
        ({
            let (q, changed) = applied(p, "wm.tts.end"@, payload, now, threshold);
            &&& changed
            &&& q.turn_start_ms is None
            &&& q.stages[5] == StageState::Done
            &&& q.scrollback.len() > 0
            &&& q.scrollback.last() == (TurnView {
                turn_id: p.turn_id,
                transcript: p.partial_transcript,
                elapsed_ms: minus(now, p.turn_start_ms->Some_0),
                success: true,
                stall_stage: None,
            })
        }),
{
    lemma_topics_differ();
}

proof fn lemma_topics_differ()
    ensures
        kind_of("wm.tts.end"@) == TopicKind::TtsEnd,
{
    reveal_strlit("wm.tts.end");
    reveal_strlit("wm.audio.wake");
    reveal_strlit("wm.audio.capture.start");
    reveal_strlit("wm.audio.speech.start");
    reveal_strlit("wm.audio.capture.end");
    reveal_strlit("wm.audio.speech.end");
    reveal_strlit("wm.audio.error");
    reveal_strlit("wm.stt.partial");
    reveal_strlit("wm.stt.final");
    reveal_strlit("wm.stt.uncertain");
    reveal_strlit("wm.stt.error");
    reveal_strlit("wm.dialog.state");
    reveal_strlit("wm.dialog.confirm.denied");
    reveal_strlit("wm.dialog.confirm.granted");
    reveal_strlit("wm.brain.reply");
    reveal_strlit("wm.brain.reply.destructive");
    reveal_strlit("wm.brain.error");
    assert("wm.tts.end"@.len() == 10);
}

/// A check finds exactly those stages stalled that were at work for longer than
/// the threshold, and leaves every other stage as it was. It names a stage that
/// it finds; where it finds none, the one that was named stays named as long as
/// it is stalled.
pub proof fn only_late_stages_stall(p: PipelineView, now: u64, threshold: u64)
    requires
        is_bounded(p),
    ensures
        forall|i: int|
            0 <= i < 6 ==> #[trigger] checked(p, now, threshold).stages[i] == (if is_late(
                p,
                i,
                now,
                threshold,
            ) {
                StageState::Stalled
            } else {
                p.stages[i]
            }),
        (exists|i: int| 0 <= i < 6 && #[trigger] is_late(p, i, now, threshold)) ==> {
            &&& checked(p, now, threshold).stall_stage matches Some(s)
            &&& is_late(p, place_of(s), now, threshold)
        },
        (forall|i: int| 0 <= i < 6 ==> !(#[trigger] is_late(p, i, now, threshold))) ==> checked(
            p,
            now,
            threshold,
        ).stall_stage == (match p.stall_stage {
            Some(s) => if p.stages[place_of(s)] == StageState::Stalled {
                Some(s)
            } else {
                None
            },
            None => None,
        }),
        names_a_stalled_stage(checked(p, now, threshold)),
{
    lemma_last_late(p, 6, now, threshold);
}

/// Whether the stage that is named as stalled is stalled.
pub open spec fn names_a_stalled_stage(p: PipelineView) -> bool {
    p.stall_stage matches Some(s) ==> p.stages[place_of(s)] == StageState::Stalled
}

/// A second check at the same time leaves the state as the first one left it: a
/// stage that was found stalled stays named.
pub proof fn a_second_check_changes_nothing(p: PipelineView, now: u64, threshold: u64)
    requires
        is_bounded(p),
    ensures
        checked(checked(p, now, threshold), now, threshold) == checked(p, now, threshold),
{
    let q = checked(p, now, threshold);
    only_late_stages_stall(p, now, threshold);
    lemma_last_late(q, 6, now, threshold);
    assert forall|i: int| 0 <= i < 6 implies !(#[trigger] is_late(q, i, now, threshold)) by {
        assert(q.stages[i] == (if is_late(p, i, now, threshold) {
            StageState::Stalled
        } else {
            p.stages[i]
        }));
    }
    assert(checked(q, now, threshold).stages =~= q.stages);
}

/// What is done with a state: an event is taken in, its stages are checked, or
/// its time is counted on.
pub enum Step {
    Event { topic: Seq<char>, payload: Json, now: u64, threshold: u64 },
    Check { now: u64, threshold: u64 },
    Tick { now: u64 },
}

/// The state after a step.
pub open spec fn stepped(p: PipelineView, step: Step) -> PipelineView {
    match step {
        Step::Event { topic, payload, now, threshold } => applied(
            p,
            topic,
            payload,
            now,
            threshold,
        ).0,
        Step::Check { now, threshold } => checked(p, now, threshold),
        Step::Tick { now } => ticked(p, now),
    }
}

/// The state to which steps lead from the state before any event.
pub open spec fn reached(steps: Seq<Step>) -> PipelineView
    decreases steps.len(),
{
    if steps.len() == 0 {
        quiet()
    } else {
        stepped(reached(steps.drop_last()), steps.last())
    }
}

/// Every state that can be reached has six stages, keeps no more turns than it
/// may, and names no stage as stalled that is not.
pub proof fn every_state_is_bounded(steps: Seq<Step>)
    ensures
        is_bounded(reached(steps)),
        reached(steps).scrollback.len() <= 20,
        names_a_stalled_stage(reached(steps)),
    decreases steps.len(),
{
    if steps.len() > 0 {
        let p = reached(steps.drop_last());
        every_state_is_bounded(steps.drop_last());
        match steps.last() {
            Step::Event { topic, payload, now, threshold } => {
                lemma_event_names_a_stalled_stage(p, topic, payload, now, threshold);
            },
            Step::Check { now, threshold } => only_late_stages_stall(p, now, threshold),
            Step::Tick { now } => {},
        }
    }
}

proof fn lemma_event_names_a_stalled_stage(
    p: PipelineView,
    topic: Seq<char>,
    payload: Json,
    now: u64,
    threshold: u64,
)
    requires
        is_bounded(p),
        names_a_stalled_stage(p),
    ensures
        is_bounded(applied(p, topic, payload, now, threshold).0),
        names_a_stalled_stage(applied(p, topic, payload, now, threshold).0),
{
    let kind = kind_of(topic);
    if kind != TopicKind::StageStart(Stage::Wake) && p.turn_start_ms is Some {
        let turn = text_member(payload, "turn_id"@);
        let (q, changed) = moved(p, kind, payload, now);
        if changed {
            let named = PipelineView {
                turn_id: if q.turn_id is None {
                    turn
                } else {
                    q.turn_id
                },
                elapsed_ms: since_start(q, now),
                ..q
            };
            only_late_stages_stall(named, now, threshold);
        }
    }
}

/// A turn that is over is kept as the last one: behind all the others, or
/// behind all but the oldest where as many were kept as may be.
pub proof fn the_latest_turn_is_kept_last(scrollback: Seq<TurnView>, t: TurnView)
    requires
        scrollback.len() <= MAX_SCROLLBACK,
    ensures
        scrollback.len() < 20 ==> with_turn(scrollback, t) == scrollback.push(t),
        scrollback.len() == 20 ==> with_turn(scrollback, t) == scrollback.subrange(1, 20).push(t),
        with_turn(scrollback, t).len() <= 20,
        with_turn(scrollback, t).last() == t,
{
}

proof fn lemma_last_late(p: PipelineView, n: int, now: u64, threshold: u64)
    requires
        0 <= n <= 6,
    ensures
        last_late(p, n, now, threshold) is Some <==> exists|i: int|
            0 <= i < n && #[trigger] is_late(p, i, now, threshold),
        last_late(p, n, now, threshold) matches Some(s) ==> is_late(
            p,
            place_of(s),
            now,
            threshold,
        ),
    decreases n,
{
    if n > 0 {
        lemma_last_late(p, n - 1, now, threshold);
        if last_late(p, n, now, threshold) is Some && !is_late(p, n - 1, now, threshold) {
            let i = choose|i: int| 0 <= i < n - 1 && #[trigger] is_late(p, i, now, threshold);
            assert(0 <= i < n && is_late(p, i, now, threshold));
        }
    }
}

} // verus!
