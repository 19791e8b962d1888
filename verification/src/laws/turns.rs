//! Timelines: what a turn's records become.

use crate::laws::ends;
use crate::laws::texts::sorting_is_by_key_and_stable;
use crate::order::sort_order;
use crate::payload::{text_member_or, two_places, Json};
use crate::record::{key_of, RecordView};
use crate::seconds::hundredths_text;
use crate::text::{decimal, padded};
use crate::trace::{
    by_time, carries, footer_text, is_failure, last_failure, last_time, last_topic_with,
    reached_the_end, row_text, rows_text, score_of, stage_after, stages_follow_their_sequence,
    summaries_of, summary_of, summary_text, timeline_of, timeline_text, times, utterance_of_first,
    RowView, StatusView, TimelineView, FAILURE_TOPICS, STAGE_SEQUENCE,
};
use vstd::prelude::*;

verus! {

/// Whether `order` lists the records of a turn by time: each once, by the time at
/// which it was received, and those of one time in the order in which they came.
pub open spec fn lists_by_time(order: Seq<int>, records: Seq<RecordView>) -> bool {
    &&& order.len() == records.len()
    &&& forall|i: int| 0 <= i < order.len() ==> 0 <= #[trigger] order[i] < records.len()
    &&& forall|x: int| 0 <= x < records.len() ==> #[trigger] order.contains(x)
    &&& forall|i: int, j: int|
        0 <= i < j < order.len() ==> {
            let a = records[#[trigger] order[i]].ts_received;
            let b = records[#[trigger] order[j]].ts_received;
            a < b || (a == b && order[i] < order[j])
        }
}

/// The records of a turn are taken by time.
pub proof fn records_are_taken_by_time(records: Seq<RecordView>) -> (order: Seq<int>)
    ensures
        lists_by_time(order, records),
        by_time(records).len() == records.len(),
        forall|i: int|
            0 <= i < records.len() ==> #[trigger] by_time(records)[i] == records[order[i]],
{
    let order = sort_order(times(records));
    sorting_is_by_key_and_stable(times(records));
    order
}

/// A row of a timeline has the topic of its record and the time since the first
/// one.
pub proof fn rows_tell_when_it_happened(turn_id: Seq<char>, records: Seq<RecordView>, i: int)
    requires
        0 <= i < records.len(),
    ensures
        timeline_of(turn_id, records).turn_id == turn_id,
        timeline_of(turn_id, records).rows.len() == records.len(),
        timeline_of(turn_id, records).rows[i].topic == by_time(records)[i].topic,
        timeline_of(turn_id, records).rows[i].offset_ms == by_time(records)[i].ts_received
            - by_time(records)[0].ts_received,
{
    let order = records_are_taken_by_time(records);
    let s = by_time(records);
    if i > 0 {
        assert(s[0] == records[order[0]] && s[i] == records[order[i]]);
    }
}

/// Whether a topic ends a stage that another starts.
pub open spec fn ends_the_stage_of(end: Seq<char>, start: Seq<char>) -> bool {
    ||| end == "wm.audio.speech.end"@ && start == "wm.audio.speech.start"@
    ||| end == "wm.stt.final"@ && start == "wm.audio.speech.end"@
    ||| end == "wm.brain.reply"@ && start == "wm.dialog.turn.user"@
    ||| end == "wm.tts.end"@ && start == "wm.tts.start"@
}

proof fn lemma_last_time(s: Seq<RecordView>, n: int, topic: Seq<char>, k: int)
    requires
        0 <= n <= s.len(),
    ensures
        0 <= k < n && s[k].topic == topic && (forall|j: int|
            k < j < n ==> (#[trigger] s[j]).topic != topic) ==> last_time(s, n, topic) == Some(
            s[k].ts_received,
        ),
        (forall|j: int| 0 <= j < n ==> (#[trigger] s[j]).topic != topic) ==> last_time(s, n, topic)
            is None,
    decreases n,
{
    if n > 0 {
        lemma_last_time(s, n - 1, topic, k);
        assert(n - 1 > k >= 0 && (forall|j: int| k < j < n ==> (#[trigger] s[j]).topic != topic)
            ==> s[n - 1].topic != topic);
    }
}

/// The row that ends a stage says how long the stage took: the time since the
/// latest record before it that started the stage.
pub proof fn rows_tell_how_long_a_stage_took(
    turn_id: Seq<char>,
    records: Seq<RecordView>,
    i: int,
    k: int,
    start: Seq<char>,
)
    requires
        0 <= k < i < records.len(),
        ends_the_stage_of(by_time(records)[i].topic, start),
        by_time(records)[k].topic == start,
        forall|j: int| k < j < i ==> (#[trigger] by_time(records)[j]).topic != start,
    ensures
        timeline_of(turn_id, records).rows[i].stage_duration_ms matches Some(ms) && ms == by_time(
            records,
        )[i].ts_received - by_time(records)[k].ts_received,
{
    let order = records_are_taken_by_time(records);
    let s = by_time(records);
    lemma_topics();
    lemma_last_time(s, i, start, k);
    assert(s[k] == records[order[k]] && s[i] == records[order[i]]);
}

/// A row says nothing of a stage where its topic ends none, or where nothing
/// before it started the stage.
pub proof fn other_rows_tell_no_stage(turn_id: Seq<char>, records: Seq<RecordView>, i: int)
    requires
        0 <= i < records.len(),
        forall|start: Seq<char>, k: int|
            #![trigger ends_the_stage_of(by_time(records)[i].topic, start), by_time(records)[k]]
            0 <= k < i && ends_the_stage_of(by_time(records)[i].topic, start) ==> by_time(
                records,
            )[k].topic != start,
    ensures
        timeline_of(turn_id, records).rows[i].stage_duration_ms is None,
{
    let order = records_are_taken_by_time(records);
    let s = by_time(records);
    match crate::trace::stage_start(s[i].topic) {
        Some(start) => {
            assert(ends_the_stage_of(s[i].topic, start));
            lemma_last_time(s, i, start, -1);
        },
        None => {},
    }
}

/// What a row notes of its record: the score of a wake with two places, what was
/// recognised in quotes, the tier or else the model of a route, the first forty
/// characters of a reply in quotes; of other topics nothing.
pub proof fn rows_note_what_the_payload_says(turn_id: Seq<char>, records: Seq<RecordView>, i: int)
    requires
        0 <= i < records.len(),
    ensures
        ({
            let rec = by_time(records)[i];
            let p = rec.raw_payload;
            let note = timeline_of(turn_id, records).rows[i].annotation;
            &&& rec.topic == "wm.audio.wake"@ ==> match score_of(p) {
                Some(t) => note == Some("score="@ + t),
                None => note is None,
            }
            &&& rec.topic == "wm.stt.final"@ ==> match text_member_or(p, "text"@, "transcript"@) {
                Some(t) => note == Some("\""@ + t + "\""@),
                None => note is None,
            }
            &&& rec.topic == "wm.brain.route"@ ==> match text_member_or(p, "tier"@, "model"@) {
                Some(t) => note == Some("tier="@ + t),
                None => note is None,
            }
            &&& rec.topic == "wm.brain.reply"@ ==> match text_member_or(p, "text"@, "reply"@) {
                Some(t) => note == Some(
                    "\""@ + (if t.len() <= 40 {
                        t
                    } else {
                        t.subrange(0, 40)
                    }) + "\""@,
                ),
                None => note is None,
            }
            &&& rec.topic != "wm.audio.wake"@ && rec.topic != "wm.stt.final"@ && rec.topic
                != "wm.brain.route"@ && rec.topic != "wm.brain.reply"@ ==> note is None
        }),
{
    let order = records_are_taken_by_time(records);
    lemma_topics();
    reveal_strlit("\"");
    assert("\""@ =~= seq!['"']);
}

/// The score of a wake is what its payload has under `score`, if that is a
/// number.
pub proof fn scores_are_numbers(p: Json, n: u64, t: Seq<char>, j: Json)
    ensures
        crate::payload::member(p, "score"@) == Some(Json::UInt(n)) ==> score_of(p) == two_places(
            decimal(n as nat),
        ),
        crate::payload::member(p, "score"@) == Some(Json::Float(t)) ==> score_of(p) == two_places(t),
        crate::payload::member(p, "score"@) is None ==> score_of(p) is None,
        crate::payload::member(p, "score"@) == Some(j) && !(j is UInt) && !(j is Int) && !(
        j is Float) ==> score_of(p) is None,
{
}

/// What the user said is what the latest record with recognised speech gives,
/// and nothing where there is none.
pub proof fn the_last_recognised_words_count(turn_id: Seq<char>, records: Seq<RecordView>, k: int)
    requires
        -1 <= k < records.len(),
        k >= 0 ==> by_time(records)[k].topic == "wm.stt.final"@,
        forall|j: int|
            k < j < records.len() ==> (#[trigger] by_time(records)[j]).topic != "wm.stt.final"@,
    ensures
        timeline_of(turn_id, records).utterance == (if k >= 0 {
            text_member_or(by_time(records)[k].raw_payload, "text"@, "transcript"@)
        } else {
            None
        }),
{
    let order = records_are_taken_by_time(records);
    lemma_utterance(by_time(records), records.len() as int, k);
}

proof fn lemma_utterance(s: Seq<RecordView>, n: int, k: int)
    requires
        -1 <= k < n <= s.len() || (k == -1 && n == 0),
        k >= 0 ==> s[k].topic == "wm.stt.final"@,
        forall|j: int| k < j < n ==> (#[trigger] s[j]).topic != "wm.stt.final"@,
    ensures
        utterance_of_first(s, n) == (if k >= 0 {
            text_member_or(s[k].raw_payload, "text"@, "transcript"@)
        } else {
            None
        }),
    decreases n,
{
    if n > 0 && k < n - 1 {
        assert(s[n - 1].topic != "wm.stt.final"@);
        lemma_utterance(s, n - 1, k);
    }
}

/// The topics that mark a failure.
pub open spec fn marks_a_failure(topic: Seq<char>) -> bool {
    ||| topic == "wm.stt.uncertain"@
    ||| topic == "wm.stt.error"@
    ||| topic == "wm.dialog.timeout"@
    ||| topic == "wm.dialog.unheard"@
    ||| topic == "wm.brain.error"@
    ||| topic == "wm.tts.error"@
}

/// Whether a stage is followed by another in a healthy turn.
pub open spec fn is_followed_by(stage: Seq<char>, next: Seq<char>) -> bool {
    ||| stage == "wm.audio.wake"@ && next == "wm.audio.speech.start"@
    ||| stage == "wm.audio.speech.start"@ && next == "wm.audio.speech.end"@
    ||| stage == "wm.audio.speech.end"@ && next == "wm.stt.final"@
    ||| stage == "wm.stt.final"@ && next == "wm.dialog.turn.user"@
    ||| stage == "wm.dialog.turn.user"@ && next == "wm.brain.route"@
    ||| stage == "wm.brain.route"@ && next == "wm.brain.reply"@
    ||| stage == "wm.brain.reply"@ && next == "wm.tts.start"@
    ||| stage == "wm.tts.start"@ && next == "wm.tts.end"@
}

/// Six topics mark a failure, and no other does.
pub proof fn six_topics_mark_a_failure(topic: Seq<char>)
    ensures
        is_failure(topic) <==> marks_a_failure(topic),
{
    assert(FAILURE_TOPICS@[0]@ == "wm.stt.uncertain"@);
    assert(FAILURE_TOPICS@[1]@ == "wm.stt.error"@);
    assert(FAILURE_TOPICS@[2]@ == "wm.dialog.timeout"@);
    assert(FAILURE_TOPICS@[3]@ == "wm.dialog.unheard"@);
    assert(FAILURE_TOPICS@[4]@ == "wm.brain.error"@);
    assert(FAILURE_TOPICS@[5]@ == "wm.tts.error"@);
}

/// The stage that is due behind a topic is the one that follows it in a healthy
/// turn.
pub proof fn the_next_stage_is_due(topic: Seq<char>, next: Seq<char>)
    ensures
        stage_after(topic) == Some(next) <==> is_followed_by(topic, next),
{
    stages_follow_their_sequence(topic);
    lemma_topics();
    assert(STAGE_SEQUENCE@[0]@ == "wm.audio.wake"@);
    assert(STAGE_SEQUENCE@[1]@ == "wm.audio.speech.start"@);
    assert(STAGE_SEQUENCE@[2]@ == "wm.audio.speech.end"@);
    assert(STAGE_SEQUENCE@[3]@ == "wm.stt.final"@);
    assert(STAGE_SEQUENCE@[4]@ == "wm.dialog.turn.user"@);
    assert(STAGE_SEQUENCE@[5]@ == "wm.brain.route"@);
    assert(STAGE_SEQUENCE@[6]@ == "wm.brain.reply"@);
    assert(STAGE_SEQUENCE@[7]@ == "wm.tts.start"@);
    assert(STAGE_SEQUENCE@[8]@ == "wm.tts.end"@);
    if stage_after(topic) is Some {
        let i = choose|i: int|
            0 <= i < STAGE_SEQUENCE@.len() && (#[trigger] STAGE_SEQUENCE@[i])@ == topic;
        assert(i < 8);
    }
}

proof fn lemma_last_of(s: Seq<RecordView>, n: int, failure: bool, k: int)
    requires
        -1 <= k < n <= s.len() || (k == -1 && n == 0),
        k >= 0 ==> marks_a_failure(s[k].topic) == failure,
        forall|j: int| k < j < n ==> marks_a_failure((#[trigger] s[j]).topic) != failure,
    ensures
        last_topic_with(s, n, failure) == (if k >= 0 {
            Some(s[k].topic)
        } else {
            None
        }),
        k >= 0 && failure ==> last_failure(s, n) == k,
    decreases n,
{
    if n > 0 {
        six_topics_mark_a_failure(s[n - 1].topic);
        if k < n - 1 {
            assert(marks_a_failure(s[n - 1].topic) != failure);
            lemma_last_of(s, n - 1, failure, k);
        }
    }
}

/// A turn with a record that marks a failure has failed, at the last such
/// record, and behind the last record before that which marks none.
pub proof fn a_failed_turn_says_where_it_failed(
    turn_id: Seq<char>,
    records: Seq<RecordView>,
    k: int,
    g: int,
)
    requires
        0 <= k < records.len(),
        marks_a_failure(by_time(records)[k].topic),
        forall|j: int|
            k < j < records.len() ==> !marks_a_failure((#[trigger] by_time(records)[j]).topic),
        -1 <= g < k,
        g >= 0 ==> !marks_a_failure(by_time(records)[g].topic),
        forall|j: int| g < j < k ==> marks_a_failure((#[trigger] by_time(records)[j]).topic),
    ensures
        timeline_of(turn_id, records).status == (StatusView::Failed {
            failure_topic: by_time(records)[k].topic,
            last_good_topic: if g >= 0 {
                Some(by_time(records)[g].topic)
            } else {
                None
            },
        }),
        ends(
            timeline_text(timeline_of(turn_id, records)),
            "  ✗ failed at "@ + by_time(records)[k].topic + " (after "@ + (if g >= 0 {
                by_time(records)[g].topic
            } else {
                "(start)"@
            }) + ")\n"@,
        ),
{
    let order = records_are_taken_by_time(records);
    let s = by_time(records);
    lemma_last_of(s, s.len() as int, true, k);
    lemma_last_of(s, k, false, g);
    lemma_ends_with_its_footer(timeline_of(turn_id, records));
}

proof fn lemma_ends_with_its_footer(t: TimelineView)
    ensures
        ends(timeline_text(t), footer_text(t.status)),
{
    let head = crate::trace::header_text(t.turn_id, t.utterance) + rows_text(t.rows);
    assert(timeline_text(t) == head + footer_text(t.status));
}

/// A turn without a failure that reached `wm.tts.end` is completed, in the time
/// from its first record to its last.
pub proof fn a_completed_turn_says_how_long_it_took(
    turn_id: Seq<char>,
    records: Seq<RecordView>,
    i: int,
)
    requires
        0 <= i < records.len(),
        by_time(records)[i].topic == "wm.tts.end"@,
        forall|j: int|
            0 <= j < records.len() ==> !marks_a_failure((#[trigger] by_time(records)[j]).topic),
    ensures
        timeline_of(turn_id, records).status matches StatusView::Completed { total_ms }
            && total_ms == by_time(records).last().ts_received - by_time(records)[0].ts_received,
        ends(
            timeline_text(timeline_of(turn_id, records)),
            "  ✓ completed  (end-to-end "@ + hundredths_text(
                (by_time(records).last().ts_received - by_time(records)[0].ts_received) as nat,
            ) + "s)\n"@,
        ),
{
    let order = records_are_taken_by_time(records);
    let s = by_time(records);
    let n = records.len() as int;
    lemma_last_of(s, n, true, -1);
    assert(s[i].topic == "wm.tts.end"@);
    assert(reached_the_end(s));
    assert(s[0] == records[order[0]] && s[n - 1] == records[order[n - 1]]);
    lemma_ends_with_its_footer(timeline_of(turn_id, records));
}

/// Any other turn is stalled behind its last record, and the stage that never
/// came is the one that follows that in a healthy turn.
pub proof fn a_stalled_turn_says_what_never_came(
    turn_id: Seq<char>,
    records: Seq<RecordView>,
    next: Seq<char>,
)
    requires
        records.len() > 0,
        forall|j: int|
            0 <= j < records.len() ==> !marks_a_failure((#[trigger] by_time(records)[j]).topic)
                && by_time(records)[j].topic != "wm.tts.end"@,
    ensures
        timeline_of(turn_id, records).status matches StatusView::Stalled {
            last_topic,
            expected_next,
        } && last_topic == by_time(records).last().topic && (expected_next == Some(next)
            <==> is_followed_by(by_time(records).last().topic, next)),
        is_followed_by(by_time(records).last().topic, next) ==> ends(
            timeline_text(timeline_of(turn_id, records)),
            "  ✗ stalled after "@ + by_time(records).last().topic + " — no "@ + next + "\n"@,
        ),
        (forall|stage: Seq<char>| !(#[trigger] is_followed_by(by_time(records).last().topic, stage)))
            ==> ends(
            timeline_text(timeline_of(turn_id, records)),
            "  ✗ stalled after "@ + by_time(records).last().topic
                + " — no (unknown — last in sequence)\n"@,
        ),
{
    let order = records_are_taken_by_time(records);
    let s = by_time(records);
    let n = records.len() as int;
    lemma_last_of(s, n, true, -1);
    assert(!reached_the_end(s)) by {
        if reached_the_end(s) {
            let i = choose|i: int| 0 <= i < s.len() && (#[trigger] s[i]).topic == "wm.tts.end"@;
            assert(s[i].topic != "wm.tts.end"@);
        }
    }
    the_next_stage_is_due(s.last().topic, next);
    lemma_ends_with_its_footer(timeline_of(turn_id, records));
    if forall|stage: Seq<char>| !(#[trigger] is_followed_by(s.last().topic, stage)) {
        if stage_after(s.last().topic) is Some {
            let stage = stage_after(s.last().topic)->0;
            the_next_stage_is_due(s.last().topic, stage);
            assert(!is_followed_by(s.last().topic, stage));
        }
        reveal_strlit(" — no ");
        reveal_strlit("(unknown — last in sequence)");
        reveal_strlit("\n");
        reveal_strlit(" — no (unknown — last in sequence)\n");
        assert(" — no "@ + "(unknown — last in sequence)"@ + "\n"@
            =~= " — no (unknown — last in sequence)\n"@);
        assert(footer_text(timeline_of(turn_id, records).status) =~= "  ✗ stalled after "@
            + s.last().topic + " — no (unknown — last in sequence)\n"@);
    }
}

/// A timeline is shown as the turn with what the user said, a line for each row,
/// and a line that says how it ended.
pub proof fn a_timeline_is_shown_row_by_row(t: TimelineView, row: RowView, rows: Seq<RowView>)
    ensures
        timeline_text(t) == "turn "@ + t.turn_id + "   \""@ + (match t.utterance {
            Some(said) => said,
            None => "(unknown)"@,
        }) + "\"\n"@ + rows_text(t.rows) + footer_text(t.status),
        rows_text(Seq::empty()).len() == 0,
        rows_text(rows.push(row)) == rows_text(rows) + row_text(row),
{
    assert(rows.push(row).drop_last() =~= rows);
}

/// A row is shown as its offset and its topic in columns, with the time that a
/// stage took in seconds and what is of note behind, where there is such.
pub proof fn a_row_is_shown_with_what_it_has(row: RowView)
    ensures
        ({
            let start = "  "@ + padded("+"@ + decimal(row.offset_ms as nat) + "ms"@, 10) + "  "@
                + padded(row.topic, 35);
            &&& row.stage_duration_ms is None && row.annotation is None ==> row_text(row) == start
                + "\n"@
            &&& row.stage_duration_ms is Some && row.annotation is None ==> row_text(row) == start
                + "  ("@ + hundredths_text(row.stage_duration_ms->0 as nat) + "s stage)\n"@
            &&& row.stage_duration_ms is None && row.annotation is Some && row.annotation->0.len()
                > 0 ==> row_text(row) == start + "  "@ + row.annotation->0 + "\n"@
            &&& row.stage_duration_ms is Some && row.annotation is Some && row.annotation->0.len()
                > 0 ==> row_text(row) == start + "  ("@ + hundredths_text(
                row.stage_duration_ms->0 as nat,
            ) + "s stage)  "@ + row.annotation->0 + "\n"@
        }),
{
    reveal_strlit("");
    reveal_strlit("\n");
    reveal_strlit("  ");
    reveal_strlit("s stage)");
    reveal_strlit("s stage)\n");
    reveal_strlit("s stage)  ");
    assert("s stage)"@ + "\n"@ =~= "s stage)\n"@);
    assert("s stage)"@ + "  "@ =~= "s stage)  "@);
    let start = "  "@ + padded("+"@ + decimal(row.offset_ms as nat) + "ms"@, 10) + "  "@ + padded(
        row.topic,
        35,
    );
    let d = "  ("@ + hundredths_text(row.stage_duration_ms->0 as nat);
    if row.annotation is None && row.stage_duration_ms is None {
        assert(row_text(row) =~= start + "\n"@);
    } else if row.annotation is None {
        assert(row_text(row) =~= start + "  ("@ + hundredths_text(row.stage_duration_ms->0 as nat)
            + ("s stage)"@ + "\n"@));
    } else if row.stage_duration_ms is None {
        assert(row.annotation->0.len() > 0 ==> row_text(row) =~= start + "  "@ + row.annotation->0
            + "\n"@);
    } else {
        assert(row.annotation->0.len() > 0 ==> row_text(row) =~= start + "  ("@ + hundredths_text(
            row.stage_duration_ms->0 as nat,
        ) + ("s stage)"@ + "  "@) + row.annotation->0 + "\n"@);
    }
}

/// A turn in one line is its name, how it ended and what the user said: the time
/// of a completed turn, the topic behind which one stalled or at which one
/// failed.
pub proof fn a_turn_is_summed_up_in_one_line(t: TimelineView)
    ensures
        ({
            let said = match t.utterance {
                Some(said) => said,
                None => "(unknown)"@,
            };
            summary_text(summary_of(t)) == t.turn_id + (match t.status {
                StatusView::Completed { total_ms } => "  ✓ "@ + hundredths_text(total_ms as nat)
                    + "s  \""@,
                StatusView::Stalled { last_topic, .. } => "  ✗ stalled@"@ + last_topic + "  \""@,
                StatusView::Failed { failure_topic, .. } => "  ✗ failed:"@ + failure_topic
                    + "  \""@,
            }) + said + "\""@
        }),
        summary_of(t).turn_id == t.turn_id,
        t.status matches StatusView::Completed { total_ms } ==> summary_of(t).total_ms == Some(
            total_ms,
        ),
        !(t.status is Completed) ==> summary_of(t).total_ms is None,
{
    reveal_strlit("  ");
    reveal_strlit("✓ ");
    reveal_strlit("  ✓ ");
    reveal_strlit("✗ stalled@");
    reveal_strlit("  ✗ stalled@");
    reveal_strlit("✗ failed:");
    reveal_strlit("  ✗ failed:");
    reveal_strlit("s");
    reveal_strlit("  \"");
    reveal_strlit("s  \"");
    assert("  "@ + "✓ "@ =~= "  ✓ "@);
    assert("  "@ + "✗ stalled@"@ =~= "  ✗ stalled@"@);
    assert("  "@ + "✗ failed:"@ =~= "  ✗ failed:"@);
    assert("s"@ + "  \""@ =~= "s  \""@);
    let said = match t.utterance {
        Some(said) => said,
        None => "(unknown)"@,
    };
    match t.status {
        StatusView::Completed { total_ms } => {
            assert(summary_text(summary_of(t)) =~= t.turn_id + ("  "@ + "✓ "@ + hundredths_text(
                total_ms as nat,
            ) + ("s"@ + "  \""@)) + said + "\""@);
        },
        StatusView::Stalled { last_topic, .. } => {
            assert(summary_text(summary_of(t)) =~= t.turn_id + ("  "@ + "✗ stalled@"@ + last_topic
                + "  \""@) + said + "\""@);
        },
        StatusView::Failed { failure_topic, .. } => {
            assert(summary_text(summary_of(t)) =~= t.turn_id + ("  "@ + "✗ failed:"@
                + failure_topic + "  \""@) + said + "\""@);
        },
    }
}

/// The topics of a healthy turn differ.
proof fn lemma_topics()
    ensures
        "wm.audio.wake"@.len() == 13,
        "wm.audio.speech.start"@.len() == 21,
        "wm.audio.speech.end"@.len() == 19,
        "wm.audio.speech.end"@[3] == 'a',
        "wm.stt.final"@.len() == 12,
        "wm.stt.final"@[3] == 's',
        "wm.dialog.turn.user"@.len() == 19,
        "wm.dialog.turn.user"@[3] == 'd',
        "wm.brain.route"@.len() == 14,
        "wm.brain.route"@[10] == 'o',
        "wm.brain.reply"@.len() == 14,
        "wm.brain.reply"@[10] == 'e',
        "wm.tts.start"@.len() == 12,
        "wm.tts.start"@[3] == 't',
        "wm.tts.end"@.len() == 10,
{
    reveal_strlit("wm.audio.wake");
    reveal_strlit("wm.audio.speech.start");
    reveal_strlit("wm.audio.speech.end");
    reveal_strlit("wm.stt.final");
    reveal_strlit("wm.dialog.turn.user");
    reveal_strlit("wm.brain.route");
    reveal_strlit("wm.brain.reply");
    reveal_strlit("wm.tts.start");
    reveal_strlit("wm.tts.end");
}

/// Of the given turns those are summed up that a record carries: one that is filed
/// under the name of the turn. The summaries come in the order of the turns.
pub proof fn turns_with_a_record_are_summed_up(
    turns: Seq<(Seq<char>, Seq<RecordView>)>,
    id: Seq<char>,
    records: Seq<RecordView>,
)
    ensures
        summaries_of(Seq::empty()).len() == 0,
        (exists|i: int| 0 <= i < records.len() && key_of(#[trigger] records[i]) == id)
            ==> summaries_of(turns.push((id, records))) == summaries_of(turns).push(
            summary_of(timeline_of(id, records)),
        ),
        (forall|i: int| 0 <= i < records.len() ==> key_of(#[trigger] records[i]) != id)
            ==> summaries_of(turns.push((id, records))) == summaries_of(turns),
        carries(records, id) <==> exists|i: int|
            0 <= i < records.len() && key_of(#[trigger] records[i]) == id,
{
    assert(turns.push((id, records)).drop_last() =~= turns);
}

} // verus!
