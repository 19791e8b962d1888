//! What the live monitor shows of the events that come in.

use crate::payload::{quoted, text_member, Json};
use crate::seconds::{tenths_text, whole_text};
use crate::text::{begins_with, byte_len, byte_len_of_both};
use crate::watch::{
    applied, bracket_look, checked, clock_text, first_bytes, first_unfinished, is_bounded, is_late,
    kind_of, label_look, label_of, last_boundary, last_late, pipeline_row, place_of, plain_text,
    quiet, stage_at, stages_row, state_text, ticked, turn_line, with_turn, Hue, Look, PipelineState,
    PipelineView, Stage, StageState, TopicKind, TurnView, HELP_LINE, MAX_SCROLLBACK,
};
use vstd::prelude::*;
use vstd::utf8::{
    decode_utf8, decode_utf8_encode_utf8, decode_utf8_split, encode_scalar, encode_utf8,
    encode_utf8_decode_utf8, encode_utf8_first_scalar, encode_utf8_valid_utf8, is_char_boundary,
    is_char_boundary_start_end_of_seq, pop_first_scalar, valid_utf8_split,
};

verus! {

// ── Stages and topics ──────────────────────────────────────────────────────

/// The six stages stand in the order in which a turn goes through them, and each
/// is shown by its name.
pub proof fn stages_are_shown_in_order()
    ensures
        place_of(Stage::Wake) == 0 && stage_at(0) == Stage::Wake && label_of(Stage::Wake)
            == "wake"@,
        place_of(Stage::Capture) == 1 && stage_at(1) == Stage::Capture && label_of(Stage::Capture)
            == "capture"@,
        place_of(Stage::Stt) == 2 && stage_at(2) == Stage::Stt && label_of(Stage::Stt) == "stt"@,
        place_of(Stage::Dialog) == 3 && stage_at(3) == Stage::Dialog && label_of(Stage::Dialog)
            == "dialog"@,
        place_of(Stage::Brain) == 4 && stage_at(4) == Stage::Brain && label_of(Stage::Brain)
            == "brain"@,
        place_of(Stage::Tts) == 5 && stage_at(5) == Stage::Tts && label_of(Stage::Tts) == "tts"@,
        Stage::ALL@ == seq![
            Stage::Wake,
            Stage::Capture,
            Stage::Stt,
            Stage::Dialog,
            Stage::Brain,
            Stage::Tts,
        ],
{
    assert(Stage::ALL@ =~= seq![
        Stage::Wake,
        Stage::Capture,
        Stage::Stt,
        Stage::Dialog,
        Stage::Brain,
        Stage::Tts,
    ]);
}

/// A stage is stalled after eight seconds, and twenty turns are kept.
pub proof fn the_limits_are_fixed()
    ensures
        PipelineState::STALL_THRESHOLD_MS == 8000,
        MAX_SCROLLBACK == 20,
        HELP_LINE@ == " q/Ctrl-C: quit   stall-threshold: 8s"@,
{
}

/// Whether a topic has a meaning of its own.
pub open spec fn is_known(topic: Seq<char>) -> bool {
    ||| topic == "wm.audio.wake"@
    ||| topic == "wm.audio.capture.start"@
    ||| topic == "wm.audio.speech.start"@
    ||| topic == "wm.audio.capture.end"@
    ||| topic == "wm.audio.speech.end"@
    ||| topic == "wm.audio.error"@
    ||| topic == "wm.stt.partial"@
    ||| topic == "wm.stt.final"@
    ||| topic == "wm.stt.uncertain"@
    ||| topic == "wm.stt.error"@
    ||| topic == "wm.dialog.state"@
    ||| topic == "wm.dialog.confirm.denied"@
    ||| topic == "wm.dialog.confirm.granted"@
    ||| topic == "wm.brain.reply"@
    ||| topic == "wm.brain.reply.destructive"@
    ||| topic == "wm.brain.error"@
    ||| topic == "wm.tts.end"@
    ||| topic == "wm.tts.error"@
}

/// The topics that begin and end stages, and those that say that one failed.
pub proof fn known_topics_have_their_meaning()
    ensures
        kind_of("wm.audio.wake"@) == TopicKind::StageStart(Stage::Wake),
        kind_of("wm.audio.capture.start"@) == TopicKind::StageStart(Stage::Capture),
        kind_of("wm.audio.speech.start"@) == TopicKind::StageStart(Stage::Capture),
        kind_of("wm.audio.capture.end"@) == TopicKind::StageEnd(Stage::Capture),
        kind_of("wm.audio.speech.end"@) == TopicKind::StageEnd(Stage::Capture),
        kind_of("wm.audio.error"@) == TopicKind::StageError(Stage::Capture),
        kind_of("wm.stt.partial"@) == TopicKind::SttPartial,
        kind_of("wm.stt.final"@) == TopicKind::StageEnd(Stage::Stt),
        kind_of("wm.stt.uncertain"@) == TopicKind::StageEnd(Stage::Stt),
        kind_of("wm.stt.error"@) == TopicKind::StageError(Stage::Stt),
        kind_of("wm.dialog.state"@) == TopicKind::DialogState,
        kind_of("wm.dialog.confirm.denied"@) == TopicKind::StageEnd(Stage::Dialog),
        kind_of("wm.dialog.confirm.granted"@) == TopicKind::StageEnd(Stage::Dialog),
        kind_of("wm.brain.reply"@) == TopicKind::StageEnd(Stage::Brain),
        kind_of("wm.brain.reply.destructive"@) == TopicKind::StageEnd(Stage::Brain),
        kind_of("wm.brain.error"@) == TopicKind::StageError(Stage::Brain),
        kind_of("wm.tts.end"@) == TopicKind::TtsEnd,
        kind_of("wm.tts.error"@) == TopicKind::StageError(Stage::Tts),
{
    lemma_topics();
}

/// Any other topic begins the stage that its prefix names; one with no such
/// prefix is not of the pipeline.
pub proof fn other_topics_begin_the_stage_of_their_prefix(topic: Seq<char>)
    requires
        !is_known(topic),
    ensures
        begins_with(topic, "wm.stt."@) ==> kind_of(topic) == TopicKind::StageStart(Stage::Stt),
        begins_with(topic, "wm.dialog."@) ==> kind_of(topic) == TopicKind::StageStart(
            Stage::Dialog,
        ),
        begins_with(topic, "wm.brain."@) ==> kind_of(topic) == TopicKind::StageStart(Stage::Brain),
        begins_with(topic, "wm.tts."@) ==> kind_of(topic) == TopicKind::StageStart(Stage::Tts),
        !begins_with(topic, "wm.stt."@) && !begins_with(topic, "wm.dialog."@) && !begins_with(
            topic,
            "wm.brain."@,
        ) && !begins_with(topic, "wm.tts."@) ==> kind_of(topic) == TopicKind::Unrelated,
{
    lemma_prefixes();
    if begins_with(topic, "wm.dialog."@) {
        assert(topic[3] == topic.subrange(0, "wm.dialog."@.len() as int)[3]);
    }
    if begins_with(topic, "wm.brain."@) {
        assert(topic[3] == topic.subrange(0, "wm.brain."@.len() as int)[3]);
    }
    if begins_with(topic, "wm.tts."@) {
        assert(topic[3] == topic.subrange(0, "wm.tts."@.len() as int)[3]);
    }
    if begins_with(topic, "wm.stt."@) {
        assert(topic[3] == topic.subrange(0, "wm.stt."@.len() as int)[3]);
    }
}

proof fn lemma_prefixes()
    ensures
        "wm.stt."@.len() == 7 && "wm.stt."@[3] == 's',
        "wm.dialog."@.len() == 10 && "wm.dialog."@[3] == 'd',
        "wm.brain."@.len() == 9 && "wm.brain."@[3] == 'b',
        "wm.tts."@.len() == 7 && "wm.tts."@[3] == 't',
{
    reveal_strlit("wm.stt.");
    reveal_strlit("wm.dialog.");
    reveal_strlit("wm.brain.");
    reveal_strlit("wm.tts.");
}

// ── Stalls ─────────────────────────────────────────────────────────────────

/// Whether the stage at a place is at work for longer than the threshold.
pub open spec fn is_overdue(p: PipelineView, i: int, now: u64, threshold: u64) -> bool {
    &&& p.stages[i] == StageState::Active
    &&& p.stage_active_since[i] is Some
    &&& now - p.stage_active_since[i]->0 > threshold
}

/// A check finds a stage stalled where it was at work, since a time that is
/// known, and has been so for longer than the threshold: each of the six stages,
/// whichever it is. It leaves every other stage, and everything but the stages
/// and the name of the one that is stalled, as it was.
pub proof fn stages_stall_past_the_threshold(p: PipelineView, i: int, now: u64, threshold: u64)
    requires
        is_bounded(p),
        0 <= i < 6,
    ensures
        p.stages[i] == StageState::Active && p.stage_active_since[i] is Some && now
            - p.stage_active_since[i]->0 > threshold ==> checked(p, now, threshold).stages[i]
            == StageState::Stalled,
        p.stages[i] != StageState::Active || p.stage_active_since[i] is None || now
            - p.stage_active_since[i]->0 <= threshold ==> checked(p, now, threshold).stages[i]
            == p.stages[i],
        checked(p, now, threshold).stages.len() == 6,
        checked(p, now, threshold).stage_active_since == p.stage_active_since,
        checked(p, now, threshold).elapsed_ms == p.elapsed_ms,
        checked(p, now, threshold).turn_start_ms == p.turn_start_ms,
        checked(p, now, threshold).turn_id == p.turn_id,
        checked(p, now, threshold).dialog_state == p.dialog_state,
        checked(p, now, threshold).partial_transcript == p.partial_transcript,
        checked(p, now, threshold).scrollback == p.scrollback,
{
}

proof fn lemma_last_overdue(p: PipelineView, n: int, i: int, now: u64, threshold: u64)
    requires
        -1 <= i < n <= 6 || (i == -1 && n == 0),
        i >= 0 ==> is_overdue(p, i, now, threshold),
        forall|j: int| i < j < n ==> !(#[trigger] is_overdue(p, j, now, threshold)),
    ensures
        last_late(p, n, now, threshold) == (if i >= 0 {
            Some(stage_at(i))
        } else {
            None
        }),
    decreases n,
{
    if n > 0 {
        assert(is_late(p, n - 1, now, threshold) <==> is_overdue(p, n - 1, now, threshold));
        if i < n - 1 {
            assert(!is_overdue(p, n - 1, now, threshold));
            lemma_last_overdue(p, n - 1, i, now, threshold);
        }
    }
}

/// A check names the last stage that it finds stalled. Where it finds none, the
/// one that was named stays named as long as it is stalled.
pub proof fn the_last_stalled_stage_is_named(p: PipelineView, i: int, now: u64, threshold: u64)
    requires
        is_bounded(p),
        -1 <= i < 6,
        i >= 0 ==> is_overdue(p, i, now, threshold),
        forall|j: int| i < j < 6 ==> !(#[trigger] is_overdue(p, j, now, threshold)),
    ensures
        i >= 0 ==> checked(p, now, threshold).stall_stage == Some(stage_at(i)),
        i < 0 && p.stall_stage is Some && p.stages[place_of(p.stall_stage->0)]
            == StageState::Stalled ==> checked(p, now, threshold).stall_stage == p.stall_stage,
        i < 0 && (p.stall_stage is None || p.stages[place_of(p.stall_stage->0)]
            != StageState::Stalled) ==> checked(p, now, threshold).stall_stage is None,
{
    lemma_last_overdue(p, 6, i, now, threshold);
}

// ── Events ─────────────────────────────────────────────────────────────────

/// Before any event nothing is on and nothing is known.
pub proof fn the_monitor_begins_quiet(i: int)
    ensures
        quiet().stages.len() == 6,
        quiet().stage_active_since.len() == 6,
        0 <= i < 6 ==> quiet().stages[i] == StageState::Idle && quiet().stage_active_since[i]
            is None,
        quiet().elapsed_ms == 0,
        quiet().turn_start_ms is None,
        quiet().turn_id is None,
        quiet().dialog_state.len() == 0,
        quiet().partial_transcript.len() == 0,
        quiet().scrollback.len() == 0,
        quiet().stall_stage is None,
{
}

/// The time from one moment to another, or 0 where the clock went back.
pub open spec fn time_between(start: u64, now: u64) -> int {
    if start <= now {
        now - start
    } else {
        0
    }
}

/// Whether a state follows on one of the same turn: the turn goes on, its time is
/// that since it began, and it is named by the event where it had no name.
pub open spec fn goes_on(p: PipelineView, q: PipelineView, payload: Json, now: u64) -> bool {
    &&& q.turn_start_ms == p.turn_start_ms
    &&& p.turn_start_ms is Some
    &&& q.elapsed_ms == time_between(p.turn_start_ms->0, now)
    &&& p.turn_id is Some ==> q.turn_id == p.turn_id
    &&& p.turn_id is None ==> q.turn_id == text_member(payload, "turn_id"@)
    &&& q.scrollback == p.scrollback
    &&& q.stages.len() == 6
    &&& q.stage_active_since.len() == 6
}

/// Whether the stage at a place is as it was, or stalled now.
pub open spec fn is_left(p: PipelineView, q: PipelineView, j: int, now: u64, threshold: u64) -> bool {
    &&& is_overdue(p, j, now, threshold) ==> q.stages[j] == StageState::Stalled
    &&& !is_overdue(p, j, now, threshold) ==> q.stages[j] == p.stages[j]
    &&& q.stage_active_since[j] == p.stage_active_since[j]
}

/// The start of a stage that has not been reached, or that is stalled, sets it to
/// work from now on. The stage before it is then done, if it was at work. A stage
/// that is at work, done or failed is left alone.
pub proof fn a_start_sets_a_stage_to_work(
    p: PipelineView,
    topic: Seq<char>,
    s: Stage,
    payload: Json,
    now: u64,
    threshold: u64,
)
    requires
        is_bounded(p),
        p.turn_start_ms is Some,
        s != Stage::Wake,
        kind_of(topic) == TopicKind::StageStart(s),
    ensures
        ({
            let (q, changed) = applied(p, topic, payload, now, threshold);
            let i = place_of(s);
            let was = p.stages[i];
            &&& was == StageState::Idle || was == StageState::Stalled ==> {
                &&& changed
                &&& q.stages[i] == StageState::Active
                &&& q.stage_active_since[i] == Some(now)
                &&& p.stages[i - 1] == StageState::Active ==> q.stages[i - 1] == StageState::Done
                &&& p.stages[i - 1] != StageState::Active ==> q.stages[i - 1] == p.stages[i - 1]
                &&& q.stage_active_since[i - 1] == p.stage_active_since[i - 1]
                &&& forall|j: int|
                    0 <= j < 6 && j != i && j != i - 1 ==> #[trigger] is_left(
                        p,
                        q,
                        j,
                        now,
                        threshold,
                    )
                &&& goes_on(p, q, payload, now)
                &&& q.dialog_state == p.dialog_state
                &&& q.partial_transcript == p.partial_transcript
            }
            &&& was == StageState::Active || was == StageState::Done || was == StageState::Failed
                ==> !changed && q == p
        }),
{
}

/// The end of a stage makes it done.
pub proof fn an_end_makes_a_stage_done(
    p: PipelineView,
    topic: Seq<char>,
    s: Stage,
    payload: Json,
    now: u64,
    threshold: u64,
)
    requires
        is_bounded(p),
        p.turn_start_ms is Some,
        kind_of(topic) == TopicKind::StageEnd(s),
    ensures
        ({
            let (q, changed) = applied(p, topic, payload, now, threshold);
            let i = place_of(s);
            &&& changed
            &&& q.stages[i] == StageState::Done
            &&& q.stage_active_since[i] is None
            &&& forall|j: int|
                0 <= j < 6 && j != i ==> #[trigger] is_left(p, q, j, now, threshold)
            &&& goes_on(p, q, payload, now)
            &&& q.dialog_state == p.dialog_state
            &&& q.partial_transcript == p.partial_transcript
        }),
{
}

/// An error of a stage makes it failed.
pub proof fn an_error_makes_a_stage_failed(
    p: PipelineView,
    topic: Seq<char>,
    s: Stage,
    payload: Json,
    now: u64,
    threshold: u64,
)
    requires
        is_bounded(p),
        p.turn_start_ms is Some,
        kind_of(topic) == TopicKind::StageError(s),
    ensures
        ({
            let (q, changed) = applied(p, topic, payload, now, threshold);
            let i = place_of(s);
            &&& changed
            &&& q.stages[i] == StageState::Failed
            &&& q.stage_active_since[i] is None
            &&& forall|j: int|
                0 <= j < 6 && j != i ==> #[trigger] is_left(p, q, j, now, threshold)
            &&& goes_on(p, q, payload, now)
            &&& q.dialog_state == p.dialog_state
            &&& q.partial_transcript == p.partial_transcript
        }),
{
}

/// What the dialog says is taken up from the text under `state`, whether a turn is
/// on or not. Without such a text nothing changes.
pub proof fn the_dialog_says_its_state(p: PipelineView, payload: Json, now: u64, threshold: u64)
    requires
        is_bounded(p),
    ensures
        ({
            let (q, changed) = applied(p, "wm.dialog.state"@, payload, now, threshold);
            let said = text_member(payload, "state"@);
            &&& said is None ==> !changed && q == p
            &&& said is Some ==> changed && q.dialog_state == said->0
            &&& said is Some && p.turn_start_ms is None ==> q == (PipelineView {
                dialog_state: said->0,
                ..p
            })
            &&& said is Some && p.turn_start_ms is Some ==> {
                &&& goes_on(p, q, payload, now)
                &&& q.partial_transcript == p.partial_transcript
                &&& forall|j: int| 0 <= j < 6 ==> #[trigger] is_left(p, q, j, now, threshold)
            }
        }),
{
    lemma_topics();
}

/// What has been recognised so far is taken up from the text under `text`. The
/// recognition is at work from then on, if it was not reached before, and the
/// capture before it is done, if it was at work.
pub proof fn partial_words_are_taken_up(p: PipelineView, payload: Json, now: u64, threshold: u64)
    requires
        is_bounded(p),
        p.turn_start_ms is Some,
    ensures
        ({
            let (q, changed) = applied(p, "wm.stt.partial"@, payload, now, threshold);
            let said = text_member(payload, "text"@);
            &&& changed
            &&& said is Some ==> q.partial_transcript == said->0
            &&& said is None ==> q.partial_transcript == p.partial_transcript
            &&& goes_on(p, q, payload, now)
            &&& q.dialog_state == p.dialog_state
            &&& p.stages[2] == StageState::Idle ==> {
                &&& q.stages[2] == StageState::Active
                &&& q.stage_active_since[2] == Some(now)
                &&& p.stages[1] == StageState::Active ==> q.stages[1] == StageState::Done
                &&& p.stages[1] != StageState::Active ==> q.stages[1] == p.stages[1]
                &&& q.stage_active_since[1] == p.stage_active_since[1]
                &&& forall|j: int|
                    0 <= j < 6 && j != 1 && j != 2 ==> #[trigger] is_left(p, q, j, now, threshold)
            }
            &&& p.stages[2] != StageState::Idle ==> forall|j: int|
                0 <= j < 6 ==> #[trigger] is_left(p, q, j, now, threshold)
        }),
{
    lemma_topics();
}

/// The end of speech output ends the turn: it is kept with its name, its words and
/// its time as completed, nothing is on and nothing is recognised.
pub proof fn the_end_of_speech_ends_the_turn(
    p: PipelineView,
    payload: Json,
    now: u64,
    threshold: u64,
)
    requires
        is_bounded(p),
        p.turn_start_ms is Some,
    ensures
        ({
            let (q, changed) = applied(p, "wm.tts.end"@, payload, now, threshold);
            &&& changed
            &&& q.stages[5] == StageState::Done
            &&& q.stage_active_since[5] == p.stage_active_since[5]
            &&& forall|j: int| 0 <= j < 5 ==> #[trigger] is_left(p, q, j, now, threshold)
            &&& q.turn_start_ms is None
            &&& q.elapsed_ms == 0
            &&& p.turn_id is Some ==> q.turn_id == p.turn_id
            &&& p.turn_id is None ==> q.turn_id == text_member(payload, "turn_id"@)
            &&& q.partial_transcript.len() == 0
            &&& q.dialog_state == p.dialog_state
            &&& q.scrollback.len() > 0
            &&& q.scrollback.last().turn_id == p.turn_id
            &&& q.scrollback.last().transcript == p.partial_transcript
            &&& q.scrollback.last().elapsed_ms == time_between(p.turn_start_ms->0, now)
            &&& q.scrollback.last().success
            &&& q.scrollback.last().stall_stage is None
            &&& p.scrollback.len() < 20 ==> q.scrollback.drop_last() == p.scrollback
            &&& p.scrollback.len() == 20 ==> q.scrollback.drop_last() == p.scrollback.subrange(
                1,
                20,
            )
        }),
{
    lemma_topics();
    let q = applied(p, "wm.tts.end"@, payload, now, threshold).0;
    if p.scrollback.len() < 20 {
        assert(q.scrollback.drop_last() =~= p.scrollback);
    } else {
        assert(q.scrollback.drop_last() =~= p.scrollback.subrange(1, 20));
    }
}

/// A stage at a place is unfinished where it is at work or stalled.
pub open spec fn is_unfinished(p: PipelineView, i: int) -> bool {
    p.stages[i] == StageState::Active || p.stages[i] == StageState::Stalled
}

proof fn lemma_first_unfinished(p: PipelineView, from: int, k: int)
    requires
        0 <= from <= k <= 6,
        forall|j: int| from <= j < k ==> !(#[trigger] is_unfinished(p, j)),
        k < 6 ==> is_unfinished(p, k),
    ensures
        first_unfinished(p.stages, from) == (if k < 6 {
            Some(stage_at(k))
        } else {
            None
        }),
    decreases 6 - from,
{
    if from < k {
        assert(!is_unfinished(p, from));
        lemma_first_unfinished(p, from + 1, k);
    } else if from < 6 {
        assert(is_unfinished(p, from));
    }
}

/// A wake begins a turn: the first stage is at work, no other is reached, and the
/// turn is named by the event. A turn that was on is kept as one that was not
/// completed, with its name, its words, its time, and the first stage that was
/// not finished (`k`; 6 where all were).
pub proof fn a_wake_gives_the_turn_up_that_is_on(
    p: PipelineView,
    payload: Json,
    now: u64,
    threshold: u64,
    k: int,
)
    requires
        is_bounded(p),
        0 <= k <= 6,
        forall|j: int| 0 <= j < k ==> !(#[trigger] is_unfinished(p, j)),
        k < 6 ==> is_unfinished(p, k),
    ensures
        ({
            let (q, changed) = applied(p, "wm.audio.wake"@, payload, now, threshold);
            &&& changed
            &&& q.stages.len() == 6
            &&& q.stage_active_since.len() == 6
            &&& q.stages[0] == StageState::Active
            &&& q.stage_active_since[0] == Some(now)
            &&& forall|j: int|
                1 <= j < 6 ==> #[trigger] q.stages[j] == StageState::Idle
                    && q.stage_active_since[j] is None
            &&& q.turn_start_ms == Some(now)
            &&& q.elapsed_ms == 0
            &&& q.turn_id == text_member(payload, "turn_id"@)
            &&& q.partial_transcript.len() == 0
            &&& q.dialog_state == p.dialog_state
            &&& q.stall_stage is None
            &&& p.turn_start_ms is None ==> q.scrollback == p.scrollback
            &&& p.turn_start_ms is Some ==> {
                &&& q.scrollback.len() > 0
                &&& q.scrollback.last().turn_id == p.turn_id
                &&& q.scrollback.last().transcript == p.partial_transcript
                &&& q.scrollback.last().elapsed_ms == time_between(p.turn_start_ms->0, now)
                &&& !q.scrollback.last().success
                &&& k < 6 ==> q.scrollback.last().stall_stage == Some(stage_at(k))
                &&& k == 6 ==> q.scrollback.last().stall_stage is None
                &&& p.scrollback.len() < 20 ==> q.scrollback.drop_last() == p.scrollback
                &&& p.scrollback.len() == 20 ==> q.scrollback.drop_last() == p.scrollback.subrange(
                    1,
                    20,
                )
            }
        }),
{
    lemma_topics();
    lemma_first_unfinished(p, 0, k);
    let q = applied(p, "wm.audio.wake"@, payload, now, threshold).0;
    if p.turn_start_ms is Some {
        if p.scrollback.len() < 20 {
            assert(q.scrollback.drop_last() =~= p.scrollback);
        } else {
            assert(q.scrollback.drop_last() =~= p.scrollback.subrange(1, 20));
        }
    }
}

/// Whether an event has found the stage at a place stalled.
pub open spec fn is_found_stalled(p: PipelineView, q: PipelineView, i: int) -> bool {
    p.stages[i] != StageState::Stalled && q.stages[i] == StageState::Stalled
}

/// An event of the turn that is on names the last stage that it finds stalled
/// (`i`). Where it finds none, the one that was named stays named as long as it is
/// stalled.
pub proof fn an_event_names_the_stage_that_it_finds_stalled(
    p: PipelineView,
    topic: Seq<char>,
    payload: Json,
    now: u64,
    threshold: u64,
    i: int,
)
    requires
        is_bounded(p),
        p.turn_start_ms is Some,
        topic != "wm.audio.wake"@,
        ({
            let (q, changed) = applied(p, topic, payload, now, threshold);
            &&& changed
            &&& -1 <= i < 6
            &&& i >= 0 ==> is_found_stalled(p, q, i)
            &&& forall|j: int| i < j < 6 ==> !(#[trigger] is_found_stalled(p, q, j))
        }),
    ensures
        ({
            let q = applied(p, topic, payload, now, threshold).0;
            &&& i >= 0 ==> q.stall_stage == Some(stage_at(i))
            &&& i < 0 && p.stall_stage is Some && q.stages[place_of(p.stall_stage->0)]
                == StageState::Stalled ==> q.stall_stage == p.stall_stage
            &&& i < 0 && (p.stall_stage is None || q.stages[place_of(p.stall_stage->0)]
                != StageState::Stalled) ==> q.stall_stage is None
        }),
{
    lemma_topics();
    let q = applied(p, topic, payload, now, threshold).0;
    let (m, changed) = crate::watch::moved(p, kind_of(topic), payload, now);
    let named = PipelineView {
        turn_id: if m.turn_id is None {
            text_member(payload, "turn_id"@)
        } else {
            m.turn_id
        },
        elapsed_ms: crate::watch::since_start(m, now),
        ..m
    };
    assert(changed);
    assert(is_bounded(named));
    assert(q == checked(named, now, threshold));
    assert(named.stall_stage == p.stall_stage);
    assert forall|j: int| 0 <= j < 6 implies (#[trigger] is_overdue(named, j, now, threshold)
        <==> is_found_stalled(p, q, j)) by {
        stages_stall_past_the_threshold(named, j, now, threshold);
    }
    if i >= 0 {
        assert(is_found_stalled(p, q, i));
        assert(is_overdue(named, i, now, threshold));
    }
    assert forall|j: int| i < j < 6 implies !(#[trigger] is_overdue(named, j, now, threshold)) by {
        if j >= 0 {
            assert(!is_found_stalled(p, q, j));
        }
    }
    the_last_stalled_stage_is_named(named, i, now, threshold);
    if i < 0 && p.stall_stage is Some {
        let at = place_of(p.stall_stage->0);
        assert(!is_overdue(named, at, now, threshold));
        stages_stall_past_the_threshold(named, at, now, threshold);
    }
}

/// A topic that is not of the pipeline changes nothing, and neither does any but a
/// wake or the dialog's while no turn is on.
pub proof fn other_events_change_nothing(
    p: PipelineView,
    topic: Seq<char>,
    payload: Json,
    now: u64,
    threshold: u64,
)
    ensures
        kind_of(topic) == TopicKind::Unrelated ==> applied(p, topic, payload, now, threshold) == (
            p,
            false,
        ),
        p.turn_start_ms is None && topic != "wm.audio.wake"@ && topic != "wm.dialog.state"@
            ==> applied(p, topic, payload, now, threshold) == (p, false),
{
    lemma_topics();
}

/// While a turn is on, its time is counted on; nothing else changes.
pub proof fn the_time_is_counted_on(p: PipelineView, now: u64)
    ensures
        p.turn_start_ms is None ==> ticked(p, now) == p,
        p.turn_start_ms is Some ==> ticked(p, now).elapsed_ms == time_between(
            p.turn_start_ms->0,
            now,
        ),
        ticked(p, now) == (PipelineView { elapsed_ms: ticked(p, now).elapsed_ms, ..p }),
{
}

/// A turn that is over is kept behind the others; of twenty the oldest goes.
pub proof fn turns_are_kept_in_order(kept: Seq<TurnView>, t: TurnView)
    requires
        kept.len() <= 20,
    ensures
        with_turn(kept, t).last() == t,
        kept.len() < 20 ==> with_turn(kept, t).len() == kept.len() + 1,
        kept.len() == 20 ==> with_turn(kept, t).len() == 20,
        forall|i: int|
            kept.len() < 20 && 0 <= i < kept.len() ==> #[trigger] with_turn(kept, t)[i] == kept[i],
        forall|i: int|
            kept.len() == 20 && 0 <= i < 19 ==> #[trigger] with_turn(kept, t)[i] == kept[i + 1],
{
}

// ── Display ────────────────────────────────────────────────────────────────

/// A completed turn is shown with what was said and the time that it took, any
/// other with the stage where it stalled.
pub proof fn a_turn_is_shown_on_a_line(t: TurnView)
    ensures
        t.success && t.transcript.len() > 0 ==> turn_line(t) == "✓ "@ + (seq!['"'] + t.transcript
            + seq!['"']) + " "@ + tenths_text(t.elapsed_ms as nat) + "s"@,
        t.success && t.transcript.len() == 0 ==> turn_line(t) == "✓ "@ + "(no transcript)"@ + " "@
            + tenths_text(t.elapsed_ms as nat) + "s"@,
        !t.success && t.stall_stage is Some ==> turn_line(t) == "✗ stalled @ "@ + label_of(
            t.stall_stage->0,
        ),
        !t.success && t.stall_stage is None ==> turn_line(t) == "✗ stalled @ "@ + "unknown"@,
{
}

/// The line of an event in the plain stream has the topic, what the dialog says,
/// what has been recognised and the stage that is stalled.
pub proof fn an_event_is_streamed_as_json(topic: Seq<char>, p: PipelineView)
    ensures
        p.stall_stage is Some ==> plain_text(topic, p) == "{\"topic\":"@ + quoted(topic)
            + ",\"dialog_state\":"@ + quoted(p.dialog_state) + ",\"partial\":"@ + quoted(
            p.partial_transcript,
        ) + ",\"stall\":"@ + (seq!['"'] + label_of(p.stall_stage->0) + seq!['"']) + "}\n"@,
        p.stall_stage is None ==> plain_text(topic, p) == "{\"topic\":"@ + quoted(topic)
            + ",\"dialog_state\":"@ + quoted(p.dialog_state) + ",\"partial\":"@ + quoted(
            p.partial_transcript,
        ) + ",\"stall\":"@ + "null"@ + "}\n"@,
{
}

/// The line of the state has what the dialog says, the turn, what has been
/// recognised and a warning of the stage that is stalled, as far as there are
/// such.
pub proof fn the_state_is_shown_on_a_line(p: PipelineView, threshold: u64)
    ensures
        state_text(p, threshold) == "state: "@ + (if p.dialog_state.len() > 0 {
            p.dialog_state
        } else {
            "—"@
        }) + (match p.turn_id {
            Some(t) => "  turn:"@ + first_bytes(t),
            None => ""@,
        }) + (if p.partial_transcript.len() > 0 {
            "  \""@ + p.partial_transcript + "\""@
        } else {
            ""@
        }) + (match p.stall_stage {
            Some(s) => "  ⚠ "@ + label_of(s) + " active "@ + whole_text(threshold as nat)
                + "s — no successor"@,
            None => ""@,
        }),
{
}

/// The time is shown in tenths of a second while a turn is on.
pub proof fn the_clock_shows_while_a_turn_is_on(p: PipelineView)
    ensures
        p.turn_start_ms is Some ==> clock_text(p) == "  "@ + tenths_text(p.elapsed_ms as nat)
            + "s"@,
        p.turn_start_ms is None ==> clock_text(p).len() == 0,
{
    reveal_strlit("");
}

/// A stage is drawn by its state: grey where it was not reached, green and bold at
/// work, cyan when done, red, bold and blinking where it failed, yellow and bold
/// where it is stalled. Its brackets have the colour too, but those of a stage
/// that is done are grey, and none of them is bold.
pub proof fn stages_are_drawn_by_their_state()
    ensures
        label_look(StageState::Idle) == (Look { hue: Hue::Gray, bold: false, blink: false }),
        label_look(StageState::Active) == (Look { hue: Hue::Green, bold: true, blink: false }),
        label_look(StageState::Done) == (Look { hue: Hue::Cyan, bold: false, blink: false }),
        label_look(StageState::Failed) == (Look { hue: Hue::Red, bold: true, blink: true }),
        label_look(StageState::Stalled) == (Look { hue: Hue::Yellow, bold: true, blink: false }),
        bracket_look(StageState::Idle) == (Look { hue: Hue::Gray, bold: false, blink: false }),
        bracket_look(StageState::Active) == (Look { hue: Hue::Green, bold: false, blink: false }),
        bracket_look(StageState::Done) == (Look { hue: Hue::Gray, bold: false, blink: false }),
        bracket_look(StageState::Failed) == (Look { hue: Hue::Red, bold: false, blink: false }),
        bracket_look(StageState::Stalled) == (Look { hue: Hue::Yellow, bold: false, blink: false }),
{
}

proof fn lemma_stages_row(stages: Seq<StageState>, n: int, i: int)
    requires
        1 <= n <= 6,
        0 <= i < n,
    ensures
        stages_row(stages, n).len() == 4 * n - 1,
        stages_row(stages, n)[4 * i] == ("["@, bracket_look(stages[i])),
        stages_row(stages, n)[4 * i + 1] == (label_of(stage_at(i)), label_look(stages[i])),
        stages_row(stages, n)[4 * i + 2] == ("]"@, bracket_look(stages[i])),
        i < n - 1 ==> stages_row(stages, n)[4 * i + 3] == (
            " → "@,
            Look { hue: Hue::Gray, bold: false, blink: false },
        ),
    decreases n,
{
    reveal_with_fuel(stages_row, 2);
    if n > 1 {
        lemma_stages_row(stages, n - 1, if i < n - 1 {
            i
        } else {
            0
        });
    }
}

/// The row of the monitor has the six stages, each in brackets, with arrows
/// between them, and the time behind.
pub proof fn the_row_shows_all_stages(p: PipelineView, i: int)
    requires
        0 <= i < 6,
    ensures
        pipeline_row(p).len() == 24,
        pipeline_row(p)[4 * i] == ("["@, bracket_look(p.stages[i])),
        pipeline_row(p)[4 * i + 1] == (label_of(stage_at(i)), label_look(p.stages[i])),
        pipeline_row(p)[4 * i + 2] == ("]"@, bracket_look(p.stages[i])),
        i < 5 ==> pipeline_row(p)[4 * i + 3] == (
            " → "@,
            Look { hue: Hue::Gray, bold: false, blink: false },
        ),
        pipeline_row(p)[23] == (
            clock_text(p),
            Look { hue: Hue::White, bold: false, blink: false },
        ),
{
    lemma_stages_row(p.stages, 6, i);
}

proof fn lemma_bytes_behind_bytes(a: Seq<char>, b: Seq<char>)
    ensures
        encode_utf8(a + b) == encode_utf8(a) + encode_utf8(b),
        is_char_boundary(encode_utf8(a + b), byte_len(a) as int),
    decreases a.len(),
{
    let whole = a + b;
    encode_utf8_valid_utf8(whole);
    if a.len() == 0 {
        assert(whole =~= b);
        assert(encode_utf8(a) + encode_utf8(b) =~= encode_utf8(b));
        is_char_boundary_start_end_of_seq(encode_utf8(whole));
    } else {
        let rest = a.drop_first();
        assert(whole.drop_first() =~= rest + b);
        lemma_bytes_behind_bytes(rest, b);
        encode_utf8_first_scalar(whole);
        let first = encode_scalar(whole[0] as u32);
        assert(encode_utf8(a) == first + encode_utf8(rest));
        assert(encode_utf8(whole) == first + encode_utf8(rest + b));
        assert(encode_utf8(whole) =~= encode_utf8(a) + encode_utf8(b));
        assert(pop_first_scalar(encode_utf8(whole)) =~= encode_utf8(rest + b));
        assert(byte_len(a) == first.len() + byte_len(rest));
    }
}

proof fn lemma_last_boundary(bytes: Seq<u8>, n: int, m: int)
    requires
        0 <= m <= n,
        is_char_boundary(bytes, m),
    ensures
        m <= last_boundary(bytes, n) <= n,
        is_char_boundary(bytes, last_boundary(bytes, n)),
    decreases n,
{
    if n > 0 && !is_char_boundary(bytes, n) {
        lemma_last_boundary(bytes, n - 1, m);
    }
}

proof fn lemma_some_bytes(s: Seq<char>)
    ensures
        s.len() > 0 ==> byte_len(s) > 0,
{
    if s.len() > 0 {
        encode_utf8_first_scalar(s);
        assert(encode_scalar(s[0] as u32).len() > 0);
    }
}

/// A turn is shown by the first characters of its name: as many as there are in
/// eight bytes, and no more.
pub proof fn a_turn_is_shown_by_eight_bytes(t: Seq<char>, j: int)
    ensures
        ({
            let k = first_bytes(t).len() as int;
            &&& k <= t.len()
            &&& first_bytes(t) == t.subrange(0, k)
            &&& byte_len(t.subrange(0, k)) <= 8
            &&& k < j <= t.len() ==> byte_len(t.subrange(0, j)) > 8
        }),
{
    let bytes = encode_utf8(t);
    if bytes.len() <= 8 {
        assert(t.subrange(0, t.len() as int) =~= t);
    } else {
        encode_utf8_valid_utf8(t);
        encode_utf8_decode_utf8(t);
        is_char_boundary_start_end_of_seq(bytes);
        lemma_last_boundary(bytes, 8, 0);
        let n = last_boundary(bytes, 8);
        valid_utf8_split(bytes, n);
        decode_utf8_split(bytes, n);
        decode_utf8_encode_utf8(bytes.subrange(0, n));
        let head = decode_utf8(bytes.subrange(0, n));
        let k = head.len() as int;
        assert(head =~= t.subrange(0, k));
        assert(byte_len(head) == n);
        if k < j <= t.len() && byte_len(t.subrange(0, j)) <= 8 {
            let a = t.subrange(0, j);
            assert(t =~= a + t.subrange(j, t.len() as int));
            lemma_bytes_behind_bytes(a, t.subrange(j, t.len() as int));
            lemma_last_boundary(bytes, 8, byte_len(a) as int);
            assert(a =~= head + t.subrange(k, j));
            byte_len_of_both(head, t.subrange(k, j));
            lemma_some_bytes(t.subrange(k, j));
        }
    }
}

/// The topics differ.
proof fn lemma_topics()
    ensures
        "wm.audio.wake"@.len() == 13,
        "wm.audio.capture.start"@.len() == 22,
        "wm.audio.speech.start"@.len() == 21,
        "wm.audio.capture.end"@.len() == 20,
        "wm.audio.speech.end"@.len() == 19,
        "wm.audio.error"@.len() == 14,
        "wm.audio.error"@[3] == 'a',
        "wm.stt.partial"@.len() == 14,
        "wm.stt.partial"@[3] == 's',
        "wm.stt.final"@.len() == 12,
        "wm.stt.final"@[3] == 's',
        "wm.stt.final"@[7] == 'f',
        "wm.stt.uncertain"@.len() == 16,
        "wm.stt.error"@.len() == 12,
        "wm.stt.error"@[3] == 's',
        "wm.stt.error"@[7] == 'e',
        "wm.dialog.state"@.len() == 15,
        "wm.dialog.confirm.denied"@.len() == 24,
        "wm.dialog.confirm.granted"@.len() == 25,
        "wm.brain.reply"@.len() == 14,
        "wm.brain.reply"@[3] == 'b',
        "wm.brain.reply"@[9] == 'r',
        "wm.brain.reply.destructive"@.len() == 26,
        "wm.brain.error"@.len() == 14,
        "wm.brain.error"@[3] == 'b',
        "wm.brain.error"@[9] == 'e',
        "wm.tts.end"@.len() == 10,
        "wm.tts.error"@.len() == 12,
        "wm.tts.error"@[3] == 't',
{
    reveal_strlit("wm.audio.wake");
    reveal_strlit("wm.audio.capture.start");
    reveal_strlit("wm.audio.speech.start");
    reveal_strlit("wm.audio.capture.end");
    reveal_strlit("wm.audio.speech.end");
    reveal_strlit("wm.audio.error");
    reveal_strlit("wm.stt.partial");
    reveal_strlit("wm.stt.final");
    reveal_strlit("wm.stt.uncertain");
    reveal_strlit("wm.stt.error");
    reveal_strlit("wm.dialog.state");
    reveal_strlit("wm.dialog.confirm.denied");
    reveal_strlit("wm.dialog.confirm.granted");
    reveal_strlit("wm.brain.reply");
    reveal_strlit("wm.brain.reply.destructive");
    reveal_strlit("wm.brain.error");
    reveal_strlit("wm.tts.end");
    reveal_strlit("wm.tts.error");
}

} // verus!
