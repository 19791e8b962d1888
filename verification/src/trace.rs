//! The timeline of a turn, made of its records: what happened when, how long
//! each stage took, and how the turn ended.

use crate::order::{
    comes_first, pick, positions, sort_order, sort_order_is_sorted, sorted_order,
};
use crate::payload::{
    format_two_places, member, text_member_or, two_places, Json, Payload,
};
use crate::record::{key_of, Record, RecordView};
use crate::seconds::{hundredths_text, push_hundredths};
use crate::text::{
    chars_of, decimal, padded, push_decimal, push_padded, push_signed, same, signed_decimal,
    text_of,
};
use vstd::prelude::*;

verus! {

// ── Stages ─────────────────────────────────────────────────────────────────

/// The topics of a healthy turn, in order.
pub const STAGE_SEQUENCE: [&'static str; 9] = [
    "wm.audio.wake",
    "wm.audio.speech.start",
    "wm.audio.speech.end",
    "wm.stt.final",
    "wm.dialog.turn.user",
    "wm.brain.route",
    "wm.brain.reply",
    "wm.tts.start",
    "wm.tts.end",
];

/// The topics that mark a failed turn.
pub const FAILURE_TOPICS: [&'static str; 6] = [
    "wm.stt.uncertain",
    "wm.stt.error",
    "wm.dialog.timeout",
    "wm.dialog.unheard",
    "wm.brain.error",
    "wm.tts.error",
];

/// Whether a topic marks a failed turn.
pub open spec fn is_failure(topic: Seq<char>) -> bool {
    exists|i: int| 0 <= i < FAILURE_TOPICS@.len() && (#[trigger] FAILURE_TOPICS@[i])@ == topic
}

/// Whether a topic marks a failed turn.
pub fn is_failure_topic(topic: &str) -> (r: bool)
    ensures
        r == is_failure(topic@),
{
    let mut i: usize = 0;
    while i < 6
        invariant
            i <= 6,
            forall|j: int| 0 <= j < i ==> (#[trigger] FAILURE_TOPICS@[j])@ != topic@,
        decreases 6 - i,
    {
        if same(FAILURE_TOPICS[i], topic) {
            return true;
        }
        i += 1;
    }
    false
}

/// The first place, from `i` on, at which the stages hold a topic.
pub open spec fn stage_from(topic: Seq<char>, i: int) -> Option<int>
    decreases STAGE_SEQUENCE@.len() - i,
{
    if i < 0 || i >= STAGE_SEQUENCE@.len() {
        None
    } else if STAGE_SEQUENCE@[i]@ == topic {
        Some(i)
    } else {
        stage_from(topic, i + 1)
    }
}

/// The stage that is due after the one of a topic.
pub open spec fn stage_after(topic: Seq<char>) -> Option<Seq<char>> {
    match stage_from(topic, 0) {
        Some(i) => if i + 1 < STAGE_SEQUENCE@.len() {
            Some(STAGE_SEQUENCE@[i + 1]@)
        } else {
            None
        },
        None => None,
    }
}

/// The stage that is due after the one of a topic.
pub fn next_stage(topic: &str) -> (r: Option<String>)
    ensures
        r.deep_view() == stage_after(topic@),
{
    let mut i: usize = 0;
    while i < 9
        invariant
            i <= 9,
            stage_from(topic@, 0) == stage_from(topic@, i as int),
        decreases 9 - i,
    {
        if same(STAGE_SEQUENCE[i], topic) {
            if i + 1 < 9 {
                return Some(STAGE_SEQUENCE[i + 1].to_string());
            } else {
                return None;
            }
        }
        i += 1;
    }
    None
}

/// The topic that starts the stage which a topic ends.
pub open spec fn stage_start(end_topic: Seq<char>) -> Option<Seq<char>> {
    if end_topic == "wm.audio.speech.end"@ {
        Some("wm.audio.speech.start"@)
    } else if end_topic == "wm.stt.final"@ {
        Some("wm.audio.speech.end"@)
    } else if end_topic == "wm.brain.reply"@ {
        Some("wm.dialog.turn.user"@)
    } else if end_topic == "wm.tts.end"@ {
        Some("wm.tts.start"@)
    } else {
        None
    }
}

/// The topic that starts the stage which a topic ends.
pub fn stage_start_topic(end_topic: &str) -> (r: Option<&'static str>)
    ensures
        r.deep_view() == stage_start(end_topic@),
{
    if same(end_topic, "wm.audio.speech.end") {
        Some("wm.audio.speech.start")
    } else if same(end_topic, "wm.stt.final") {
        Some("wm.audio.speech.end")
    } else if same(end_topic, "wm.brain.reply") {
        Some("wm.dialog.turn.user")
    } else if same(end_topic, "wm.tts.end") {
        Some("wm.tts.start")
    } else {
        None
    }
}

// ── Timelines ──────────────────────────────────────────────────────────────

/// One row of a timeline.
#[derive(Debug, Clone)]
pub struct TimelineRow {
    /// Milliseconds since the first event of the turn.
    pub offset_ms: u64,
    /// The topic of the event.
    pub topic: String,
    /// How long the stage took that this event ends.
    pub stage_duration_ms: Option<u64>,
    /// What the payload says of note.
    pub annotation: Option<String>,
}

/// The mathematical row.
pub struct RowView {
    pub offset_ms: u64,
    pub topic: Seq<char>,
    pub stage_duration_ms: Option<u64>,
    pub annotation: Option<Seq<char>>,
}

impl View for TimelineRow {
    type V = RowView;

    open spec fn view(&self) -> RowView {
        RowView {
            offset_ms: self.offset_ms,
            topic: self.topic@,
            stage_duration_ms: self.stage_duration_ms,
            annotation: self.annotation.deep_view(),
        }
    }
}

impl DeepView for TimelineRow {
    type V = RowView;

    open spec fn deep_view(&self) -> RowView {
        self@
    }
}

/// How a turn ended.
#[derive(Debug, Clone, PartialEq, Eq)]
pub enum TurnStatus {
    /// The turn reached `wm.tts.end`.
    Completed {
        /// Milliseconds from the first event to the last.
        total_ms: u64,
    },
    /// The turn stopped before `wm.tts.end`.
    Stalled {
        /// The topic that was reached last.
        last_topic: String,
        /// The stage that was due, where the last topic is a stage with one
        /// after it.
        expected_next: Option<String>,
    },
    /// The turn met a topic that marks a failure.
    Failed {
        /// That topic; the latest, where there are several.
        failure_topic: String,
        /// The last topic before that failure that marks none.
        last_good_topic: Option<String>,
    },
}

/// The mathematical status.
pub enum StatusView {
    Completed { total_ms: u64 },
    Stalled { last_topic: Seq<char>, expected_next: Option<Seq<char>> },
    Failed { failure_topic: Seq<char>, last_good_topic: Option<Seq<char>> },
}

impl View for TurnStatus {
    type V = StatusView;

    open spec fn view(&self) -> StatusView {
        match self {
            TurnStatus::Completed { total_ms } => StatusView::Completed { total_ms: *total_ms },
            TurnStatus::Stalled { last_topic, expected_next } => StatusView::Stalled {
                last_topic: last_topic@,
                expected_next: expected_next.deep_view(),
            },
            TurnStatus::Failed { failure_topic, last_good_topic } => StatusView::Failed {
                failure_topic: failure_topic@,
                last_good_topic: last_good_topic.deep_view(),
            },
        }
    }
}

/// The timeline of one turn.
#[derive(Debug, Clone)]
pub struct TurnTimeline {
    /// The turn.
    pub turn_id: String,
    /// Its events, oldest first.
    pub rows: Vec<TimelineRow>,
    /// How it ended.
    pub status: TurnStatus,
    /// What the user said, where speech recognition gave it.
    pub utterance: Option<String>,
}

/// The mathematical timeline.
pub struct TimelineView {
    pub turn_id: Seq<char>,
    pub rows: Seq<RowView>,
    pub status: StatusView,
    pub utterance: Option<Seq<char>>,
}

impl View for TurnTimeline {
    type V = TimelineView;

    open spec fn view(&self) -> TimelineView {
        TimelineView {
            turn_id: self.turn_id@,
            rows: self.rows.deep_view(),
            status: self.status@,
            utterance: self.utterance.deep_view(),
        }
    }
}

impl DeepView for TurnTimeline {
    type V = TimelineView;

    open spec fn deep_view(&self) -> TimelineView {
        self@
    }
}

/// A turn in one line.
#[derive(Debug, Clone)]
pub struct TurnSummary {
    pub turn_id: String,
    pub status: TurnStatus,
    pub utterance: Option<String>,
    pub total_ms: Option<u64>,
}

/// The mathematical summary.
pub struct SummaryView {
    pub turn_id: Seq<char>,
    pub status: StatusView,
    pub utterance: Option<Seq<char>>,
    pub total_ms: Option<u64>,
}

impl View for TurnSummary {
    type V = SummaryView;

    open spec fn view(&self) -> SummaryView {
        SummaryView {
            turn_id: self.turn_id@,
            status: self.status@,
            utterance: self.utterance.deep_view(),
            total_ms: self.total_ms,
        }
    }
}

impl DeepView for TurnSummary {
    type V = SummaryView;

    open spec fn deep_view(&self) -> SummaryView {
        self@
    }
}

/// The times at which records were received.
pub open spec fn times(records: Seq<RecordView>) -> Seq<u64> {
    Seq::new(records.len(), |i: int| records[i].ts_received)
}

/// The records by time, those of one time in the order in which they came.
pub open spec fn by_time(records: Seq<RecordView>) -> Seq<RecordView> {
    pick(records, sort_order(times(records)))
}

/// `a - b`, or 0 where that is negative.
pub open spec fn minus(a: u64, b: u64) -> u64 {
    if a >= b {
        (a - b) as u64
    } else {
        0
    }
}

/// The time of the latest of the first `n` records that has the topic.
pub open spec fn last_time(s: Seq<RecordView>, n: int, topic: Seq<char>) -> Option<u64>
    decreases n,
{
    if n <= 0 {
        None
    } else if s[n - 1].topic == topic {
        Some(s[n - 1].ts_received)
    } else {
        last_time(s, n - 1, topic)
    }
}

/// How long the stage took that record `i` ends: the time since the latest
/// record before it that starts the stage.
pub open spec fn stage_duration(s: Seq<RecordView>, i: int) -> Option<u64> {
    match stage_start(s[i].topic) {
        None => None,
        Some(start) => match last_time(s, i, start) {
            None => None,
            Some(t) => Some(minus(s[i].ts_received, t)),
        },
    }
}

/// The decimal text of a number.
pub open spec fn number_text(j: Json) -> Option<Seq<char>> {
    match j {
        Json::UInt(n) => Some(decimal(n as nat)),
        Json::Int(n) => Some(signed_decimal(n as int)),
        Json::Float(t) => Some(t),
        _ => None,
    }
}

/// The score of a payload with two decimal places.
pub open spec fn score_of(payload: Json) -> Option<Seq<char>> {
    match member(payload, "score"@) {
        None => None,
        Some(j) => match number_text(j) {
            None => None,
            Some(t) => two_places(t),
        },
    }
}

/// A text between double quotes.
pub open spec fn in_quotes(t: Seq<char>) -> Seq<char> {
    seq!['"'] + t + seq!['"']
}

/// The first `n` characters of a text.
pub open spec fn first_chars(t: Seq<char>, n: nat) -> Seq<char> {
    if t.len() <= n {
        t
    } else {
        t.subrange(0, n as int)
    }
}

/// What the payload of an event says of note, given its score.
pub open spec fn annotation_of(topic: Seq<char>, payload: Json, score: Option<Seq<char>>) -> Option<
    Seq<char>,
> {
    if topic == "wm.audio.wake"@ {
        match score {
            Some(t) => Some("score="@ + t),
            None => None,
        }
    } else if topic == "wm.stt.final"@ {
        match text_member_or(payload, "text"@, "transcript"@) {
            Some(t) => Some(in_quotes(t)),
            None => None,
        }
    } else if topic == "wm.brain.route"@ {
        match text_member_or(payload, "tier"@, "model"@) {
            Some(t) => Some("tier="@ + t),
            None => None,
        }
    } else if topic == "wm.brain.reply"@ {
        match text_member_or(payload, "text"@, "reply"@) {
            Some(t) => Some(in_quotes(first_chars(t, 40))),
            None => None,
        }
    } else {
        None
    }
}

/// The row of record `i`.
pub open spec fn row_of(s: Seq<RecordView>, i: int) -> RowView {
    RowView {
        offset_ms: minus(s[i].ts_received, s[0].ts_received),
        topic: s[i].topic,
        stage_duration_ms: stage_duration(s, i),
        annotation: annotation_of(s[i].topic, s[i].raw_payload, score_of(s[i].raw_payload)),
    }
}

/// What the latest of the first `n` records with recognised speech gives as
/// the user's words.
pub open spec fn utterance_of_first(s: Seq<RecordView>, n: int) -> Option<Seq<char>>
    decreases n,
{
    if n <= 0 {
        None
    } else if s[n - 1].topic == "wm.stt.final"@ {
        text_member_or(s[n - 1].raw_payload, "text"@, "transcript"@)
    } else {
        utterance_of_first(s, n - 1)
    }
}

/// The latest topic of the first `n` records that marks a failure, or that
/// marks none.
pub open spec fn last_topic_with(s: Seq<RecordView>, n: int, failure: bool) -> Option<Seq<char>>
    decreases n,
{
    if n <= 0 {
        None
    } else if is_failure(s[n - 1].topic) == failure {
        Some(s[n - 1].topic)
    } else {
        last_topic_with(s, n - 1, failure)
    }
}

/// Where the latest of the first `n` records stands that marks a failure, where
/// one does.
pub open spec fn last_failure(s: Seq<RecordView>, n: int) -> int
    decreases n,
{
    if n <= 0 {
        0
    } else if is_failure(s[n - 1].topic) {
        n - 1
    } else {
        last_failure(s, n - 1)
    }
}

/// Whether a turn reached the end of its speech output.
pub open spec fn reached_the_end(s: Seq<RecordView>) -> bool {
    exists|i: int| 0 <= i < s.len() && (#[trigger] s[i]).topic == "wm.tts.end"@
}

/// How a turn ended, given its records by time and the time it took.
pub open spec fn status_of(s: Seq<RecordView>, total_ms: u64) -> StatusView {
    if s.len() == 0 {
        StatusView::Stalled { last_topic: ""@, expected_next: None }
    } else {
        match last_topic_with(s, s.len() as int, true) {
            Some(topic) => StatusView::Failed {
                failure_topic: topic,
                last_good_topic: last_topic_with(s, last_failure(s, s.len() as int), false),
            },
            None => if reached_the_end(s) {
                StatusView::Completed { total_ms }
            } else {
                StatusView::Stalled {
                    last_topic: s.last().topic,
                    expected_next: stage_after(s.last().topic),
                }
            },
        }
    }
}

/// Whether one of the records is filed under the turn.
pub open spec fn carries(records: Seq<RecordView>, turn_id: Seq<char>) -> bool {
    exists|i: int| 0 <= i < records.len() && key_of(#[trigger] records[i]) == turn_id
}

/// The timeline of a turn with the given records, at least one.
pub open spec fn timeline_of(turn_id: Seq<char>, records: Seq<RecordView>) -> TimelineView {
    let s = by_time(records);
    TimelineView {
        turn_id,
        rows: Seq::new(s.len(), |i: int| row_of(s, i)),
        status: status_of(s, minus(s.last().ts_received, s[0].ts_received)),
        utterance: utterance_of_first(s, s.len() as int),
    }
}

/// What the payload of an event says of note, given its score with two decimal
/// places.
pub fn annotate(topic: &str, payload: &Payload, score: Option<String>) -> (r: Option<String>)
    ensures
        r.deep_view() == annotation_of(topic@, payload@, score.deep_view()),
{
    if same(topic, "wm.audio.wake") {
        match score {
            Some(t) => Some("score=".to_string().concat(t.as_str())),
            None => None,
        }
    } else if same(topic, "wm.stt.final") {
        match payload.get_text_or("text", "transcript") {
            Some(t) => Some(quoted_text(t.as_str())),
            None => None,
        }
    } else if same(topic, "wm.brain.route") {
        match payload.get_text_or("tier", "model") {
            Some(t) => Some("tier=".to_string().concat(t.as_str())),
            None => None,
        }
    } else if same(topic, "wm.brain.reply") {
        match payload.get_text_or("text", "reply") {
            Some(t) => Some(quoted_text(beginning(t.as_str(), 40).as_str())),
            None => None,
        }
    } else {
        None
    }
}

/// A text between double quotes.
pub(crate) fn quoted_text(t: &str) -> (r: String)
    ensures
        r@ == in_quotes(t@),
{
    let mut out = String::new();
    out.push('"');
    out.append(t);
    out.push('"');
    assert(out@ =~= in_quotes(t@));
    out
}

/// The first `n` characters of a text.
pub(crate) fn beginning(t: &str, n: usize) -> (r: String)
    ensures
        r@ == first_chars(t@, n as nat),
{
    let chars = chars_of(t);
    if chars.len() <= n {
        t.to_string()
    } else {
        text_of(&chars, 0, n)
    }
}

/// The score of a payload with two decimal places.
fn score_text(payload: &Payload) -> (r: Option<String>)
    ensures
        r.deep_view() == score_of(payload@),
{
    match payload.get("score") {
        Some(Payload::UInt(n)) => {
            let mut t = String::new();
            push_decimal(&mut t, *n);
            assert(t@ =~= decimal(*n as nat));
            format_two_places(t.as_str())
        },
        Some(Payload::Int(n)) => {
            let mut t = String::new();
            push_signed(&mut t, *n);
            assert(t@ =~= signed_decimal(*n as int));
            format_two_places(t.as_str())
        },
        Some(Payload::Float(t)) => format_two_places(t.as_str()),
        _ => None,
    }
}

/// What the payload of an event says of note.
pub fn extract_annotation(topic: &str, payload: &Payload) -> (r: Option<String>)
    ensures
        r.deep_view() == annotation_of(topic@, payload@, score_of(payload@)),
{
    annotate(topic, payload, score_text(payload))
}

/// Where the latest record of a turn stands that marks a failure.
fn latest_failure(sorted: &Vec<Record>) -> (r: Option<usize>)
    ensures
        match r {
            Some(k) => {
                &&& k < sorted@.len()
                &&& k == last_failure(sorted.deep_view(), sorted@.len() as int)
                &&& last_topic_with(sorted.deep_view(), sorted@.len() as int, true) == Some(
                    sorted@[k as int]@.topic,
                )
            },
            None => last_topic_with(sorted.deep_view(), sorted@.len() as int, true) is None,
        },
{
    let ghost s = sorted.deep_view();
    let mut n: usize = sorted.len();
    while n > 0
        invariant
            n <= sorted@.len(),
            s == sorted.deep_view(),
            last_failure(s, sorted@.len() as int) == last_failure(s, n as int),
            last_topic_with(s, sorted@.len() as int, true) == last_topic_with(s, n as int, true),
        decreases n,
    {
        assert(s[n - 1] == sorted@[n - 1]@);
        if is_failure_topic(sorted[n - 1].topic.as_str()) {
            return Some(n - 1);
        }
        n -= 1;
    }
    None
}

/// The latest topic of the first `to` records that marks no failure.
fn latest_good_topic(sorted: &Vec<Record>, to: usize) -> (r: Option<String>)
    requires
        to <= sorted@.len(),
    ensures
        r.deep_view() == last_topic_with(sorted.deep_view(), to as int, false),
{
    let ghost s = sorted.deep_view();
    let mut n: usize = to;
    while n > 0
        invariant
            n <= to <= sorted@.len(),
            s == sorted.deep_view(),
            last_topic_with(s, to as int, false) == last_topic_with(s, n as int, false),
        decreases n,
    {
        assert(s[n - 1] == sorted@[n - 1]@);
        if !is_failure_topic(sorted[n - 1].topic.as_str()) {
            return Some(sorted[n - 1].topic.clone());
        }
        n -= 1;
    }
    None
}

/// Whether a turn reached the end of its speech output.
fn reaches_the_end(sorted: &Vec<Record>) -> (r: bool)
    ensures
        r == reached_the_end(sorted.deep_view()),
{
    let ghost s = sorted.deep_view();
    let mut i: usize = 0;
    while i < sorted.len()
        invariant
            i <= sorted@.len(),
            s == sorted.deep_view(),
            forall|k: int| 0 <= k < i ==> (#[trigger] s[k]).topic != "wm.tts.end"@,
        decreases sorted@.len() - i,
    {
        assert(s[i as int] == sorted@[i as int]@);
        if same(sorted[i].topic.as_str(), "wm.tts.end") {
            return true;
        }
        i += 1;
    }
    false
}

/// How a turn ended, given its records by time and the time it took. It has
/// failed where a topic marks a failure; otherwise it is completed where it
/// reached `wm.tts.end`, and stalled where it did not.
pub fn compute_status(sorted: &Vec<Record>, total_ms: u64) -> (r: TurnStatus)
    ensures
        r@ == status_of(sorted.deep_view(), total_ms),
{
    if sorted.len() == 0 {
        return TurnStatus::Stalled { last_topic: "".to_string(), expected_next: None };
    }
    match latest_failure(sorted) {
        Some(k) => TurnStatus::Failed {
            failure_topic: sorted[k].topic.clone(),
            last_good_topic: latest_good_topic(sorted, k),
        },
        None => {
            if reaches_the_end(sorted) {
                TurnStatus::Completed { total_ms }
            } else {
                let last = &sorted[sorted.len() - 1];
                assert(sorted.deep_view().last() == last@);
                TurnStatus::Stalled {
                    last_topic: last.topic.clone(),
                    expected_next: next_stage(last.topic.as_str()),
                }
            }
        },
    }
}

/// How long the stage took that record `i` ends.
fn stage_duration_ms(sorted: &Vec<Record>, i: usize) -> (r: Option<u64>)
    requires
        i < sorted@.len(),
    ensures
        r == stage_duration(sorted.deep_view(), i as int),
{
    let ghost s = sorted.deep_view();
    assert(s[i as int] == sorted@[i as int]@);
    match stage_start_topic(sorted[i].topic.as_str()) {
        None => None,
        Some(start) => {
            let mut n: usize = i;
            while n > 0
                invariant
                    n <= i < sorted@.len(),
                    s == sorted.deep_view(),
                    s[i as int] == sorted@[i as int]@,
                    stage_start(s[i as int].topic) == Some(start@),
                    last_time(s, i as int, start@) == last_time(s, n as int, start@),
                decreases n,
            {
                assert(s[n - 1] == sorted@[n - 1]@);
                if same(sorted[n - 1].topic.as_str(), start) {
                    return Some(sorted[i].ts_received.saturating_sub(sorted[n - 1].ts_received));
                }
                n -= 1;
            }
            None
        },
    }
}

/// The records by time, those of one time in the order in which they came.
pub(crate) fn sorted_records(records: &[Record]) -> (r: Vec<Record>)
    ensures
        r.deep_view() == by_time(records.deep_view()),
        r@.len() == records@.len(),
{
    let mut keys: Vec<u64> = Vec::new();
    let mut i: usize = 0;
    while i < records.len()
        invariant
            i <= records@.len(),
            keys@ == times(records.deep_view()).subrange(0, i as int),
        decreases records@.len() - i,
    {
        assert(records.deep_view()[i as int] == records@[i as int]@);
        keys.push(records[i].ts_received);
        i += 1;
        assert(keys@ =~= times(records.deep_view()).subrange(0, i as int));
    }
    assert(keys@ =~= times(records.deep_view()));
    let order = sorted_order(&keys);
    let mut sorted: Vec<Record> = Vec::new();
    let mut i: usize = 0;
    while i < order.len()
        invariant
            i <= order@.len() == records@.len(),
            positions(order@) == sort_order(times(records.deep_view())),
            forall|i: int| 0 <= i < order@.len() ==> #[trigger] order@[i] < records@.len(),
            sorted.deep_view() == by_time(records.deep_view()).subrange(0, i as int),
        decreases order@.len() - i,
    {
        let at: usize = order[i];
        assert(positions(order@)[i as int] == at as int);
        assert(records.deep_view()[at as int] == records@[at as int]@);
        let ghost was = sorted.deep_view();
        sorted.push(records[at].clone());
        i += 1;
        assert(sorted.deep_view() =~= was.push(records@[at as int]@));
        assert(sorted.deep_view() =~= by_time(records.deep_view()).subrange(0, i as int));
    }
    assert(sorted.deep_view() =~= by_time(records.deep_view()));
    sorted
}

/// What the user said, where speech recognition gave it.
fn last_utterance(sorted: &Vec<Record>) -> (r: Option<String>)
    ensures
        r.deep_view() == utterance_of_first(sorted.deep_view(), sorted@.len() as int),
{
    let mut n: usize = sorted.len();
    while n > 0
        invariant
            n <= sorted@.len(),
            utterance_of_first(sorted.deep_view(), sorted@.len() as int) == utterance_of_first(
                sorted.deep_view(),
                n as int,
            ),
        decreases n,
    {
        assert(sorted.deep_view()[n - 1] == sorted@[n - 1]@);
        if same(sorted[n - 1].topic.as_str(), "wm.stt.final") {
            return sorted[n - 1].raw_payload.get_text_or("text", "transcript");
        }
        n -= 1;
    }
    None
}

/// Whether one of the records is filed under the turn.
fn any_carries(turn_id: &str, records: &[Record]) -> (r: bool)
    ensures
        r == carries(records.deep_view(), turn_id@),
{
    let ghost recs = records.deep_view();
    let mut i: usize = 0;
    while i < records.len()
        invariant
            i <= records@.len(),
            recs == records.deep_view(),
            forall|k: int| 0 <= k < i ==> key_of(#[trigger] recs[k]) != turn_id@,
        decreases records@.len() - i,
    {
        assert(recs[i as int] == records@[i as int]@);
        if same(records[i].correlation_key().as_str(), turn_id) {
            return true;
        }
        i += 1;
    }
    false
}

/// The timeline of a turn from its records, or `None` where no record carries
/// this turn.
#[must_use]
pub fn trace_turn(turn_id: &str, records: &[Record]) -> (r: Option<TurnTimeline>)
    ensures
        r.deep_view() == (if carries(records.deep_view(), turn_id@) {
            Some(timeline_of(turn_id@, records.deep_view()))
        } else {
            None
        }),
{
    if !any_carries(turn_id, records) {
        return None;
    }
    let sorted = sorted_records(records);
    let ghost s = sorted.deep_view();
    let t0: u64 = sorted[0].ts_received;
    assert(s[0] == sorted@[0]@);
    let mut rows: Vec<TimelineRow> = Vec::new();
    let mut i: usize = 0;
    while i < sorted.len()
        invariant
            i <= sorted@.len(),
            0 < sorted@.len(),
            s == sorted.deep_view(),
            t0 == s[0].ts_received,
            rows.deep_view() == Seq::new(i as nat, |k: int| row_of(s, k)),
        decreases sorted@.len() - i,
    {
        let rec = &sorted[i];
        assert(s[i as int] == rec@);
        let row = TimelineRow {
            offset_ms: rec.ts_received.saturating_sub(t0),
            topic: rec.topic.clone(),
            stage_duration_ms: stage_duration_ms(&sorted, i),
            annotation: extract_annotation(rec.topic.as_str(), &rec.raw_payload),
        };
        assert(row@ == row_of(s, i as int));
        let ghost was = rows.deep_view();
        rows.push(row);
        i += 1;
        assert(rows.deep_view() =~= was.push(row@));
        assert(rows.deep_view() =~= Seq::new(i as nat, |k: int| row_of(s, k)));
    }
    let last_ts: u64 = sorted[sorted.len() - 1].ts_received;
    assert(s.last() == sorted@.last()@);
    let total_ms: u64 = last_ts.saturating_sub(t0);
    let status = compute_status(&sorted, total_ms);
    let utterance = last_utterance(&sorted);
    Some(TurnTimeline { turn_id: turn_id.to_string(), rows, status, utterance })
}

// ── Summaries ──────────────────────────────────────────────────────────────

/// How long a turn took, where it was completed.
pub open spec fn total_of(status: StatusView) -> Option<u64> {
    match status {
        StatusView::Completed { total_ms } => Some(total_ms),
        _ => None,
    }
}

/// A timeline in one line.
pub open spec fn summary_of(t: TimelineView) -> SummaryView {
    SummaryView {
        turn_id: t.turn_id,
        status: t.status,
        utterance: t.utterance,
        total_ms: total_of(t.status),
    }
}

/// The summaries of the turns that a record carries, in their order.
pub open spec fn summaries_of(turns: Seq<(Seq<char>, Seq<RecordView>)>) -> Seq<SummaryView>
    decreases turns.len(),
{
    if turns.len() == 0 {
        Seq::empty()
    } else {
        let rest = summaries_of(turns.drop_last());
        let (id, records) = turns.last();
        if carries(records, id) {
            rest.push(summary_of(timeline_of(id, records)))
        } else {
            rest
        }
    }
}

/// The summaries of the turns that a record carries, in their order.
#[must_use]
pub fn summarise_turns(turns: &[(String, Vec<Record>)]) -> (r: Vec<TurnSummary>)
    ensures
        r.deep_view() == summaries_of(turns.deep_view()),
{
    let ghost all = turns.deep_view();
    let mut out: Vec<TurnSummary> = Vec::new();
    let mut i: usize = 0;
    while i < turns.len()
        invariant
            i <= turns@.len(),
            all == turns.deep_view(),
            out.deep_view() == summaries_of(all.subrange(0, i as int)),
        decreases turns@.len() - i,
    {
        let (id, records) = &turns[i];
        let ghost was = out.deep_view();
        proof {
            assert(all[i as int] == (id@, records.deep_view()));
            let upto = all.subrange(0, i + 1);
            assert(upto.drop_last() =~= all.subrange(0, i as int));
            assert(upto.last() == all[i as int]);
        }
        if let Some(tl) = trace_turn(id.as_str(), records.as_slice()) {
            let total_ms: Option<u64> = match &tl.status {
                TurnStatus::Completed { total_ms } => Some(*total_ms),
                _ => None,
            };
            let summary = TurnSummary {
                turn_id: tl.turn_id,
                status: tl.status,
                utterance: tl.utterance,
                total_ms,
            };
            out.push(summary);
            assert(out.deep_view() =~= was.push(summary@));
        }
        i += 1;
    }
    assert(all.subrange(0, i as int) =~= all);
    out
}

// ── Display ────────────────────────────────────────────────────────────────

/// A text, or another where there is none.
pub open spec fn text_or(t: Option<Seq<char>>, other: Seq<char>) -> Seq<char> {
    match t {
        Some(t) => t,
        None => other,
    }
}

/// A text, or another where there is none.
pub(crate) fn or_else<'a>(t: &'a Option<String>, other: &'a str) -> (r: &'a str)
    ensures
        r@ == text_or(t.deep_view(), other@),
{
    match t {
        Some(t) => t.as_str(),
        None => other,
    }
}

/// What a row shows behind its topic.
pub open spec fn extra_text(row: RowView) -> Seq<char> {
    let duration = match row.stage_duration_ms {
        Some(d) => "  ("@ + hundredths_text(d as nat) + "s stage)"@,
        None => ""@,
    };
    let annotation = match row.annotation {
        Some(a) => if a.len() == 0 {
            ""@
        } else {
            "  "@ + a
        },
        None => ""@,
    };
    duration + annotation
}

/// The line of a row.
pub open spec fn row_text(row: RowView) -> Seq<char> {
    "  "@ + padded("+"@ + decimal(row.offset_ms as nat) + "ms"@, 10) + "  "@ + padded(
        row.topic,
        35,
    ) + extra_text(row) + "\n"@
}

/// The lines of rows.
pub open spec fn rows_text(rows: Seq<RowView>) -> Seq<char>
    decreases rows.len(),
{
    if rows.len() == 0 {
        Seq::empty()
    } else {
        rows_text(rows.drop_last()) + row_text(rows.last())
    }
}

/// The line that says how a turn ended.
pub open spec fn footer_text(status: StatusView) -> Seq<char> {
    match status {
        StatusView::Completed { total_ms } => "  ✓ completed  (end-to-end "@ + hundredths_text(
            total_ms as nat,
        ) + "s)\n"@,
        StatusView::Stalled { last_topic, expected_next } => "  ✗ stalled after "@ + last_topic
            + " — no "@ + text_or(expected_next, "(unknown — last in sequence)"@) + "\n"@,
        StatusView::Failed { failure_topic, last_good_topic } => "  ✗ failed at "@
            + failure_topic + " (after "@ + text_or(last_good_topic, "(start)"@) + ")\n"@,
    }
}

/// The line above a timeline: the turn, and what the user said.
pub open spec fn header_text(turn_id: Seq<char>, utterance: Option<Seq<char>>) -> Seq<char> {
    "turn "@ + turn_id + "   \""@ + text_or(utterance, "(unknown)"@) + "\"\n"@
}

/// The display of a timeline.
pub open spec fn timeline_text(t: TimelineView) -> Seq<char> {
    header_text(t.turn_id, t.utterance) + rows_text(t.rows) + footer_text(t.status)
}

pub(crate) fn push_row(out: &mut String, row: &TimelineRow)
    ensures
        final(out)@ == old(out)@ + row_text(row@),
{
    let ghost start = out@;
    let mut offset: String = "+".to_string();
    push_decimal(&mut offset, row.offset_ms);
    offset.append("ms");
    out.append("  ");
    push_padded(out, offset.as_str(), 10);
    out.append("  ");
    push_padded(out, row.topic.as_str(), 35);
    let ghost mid = out@;
    proof {
        reveal_strlit("");
    }
    match row.stage_duration_ms {
        Some(d) => {
            out.append("  (");
            push_hundredths(out, d);
            out.append("s stage)");
        },
        None => {},
    }
    match &row.annotation {
        Some(a) => {
            if a.as_str().unicode_len() > 0 {
                out.append("  ");
                out.append(a.as_str());
            }
        },
        None => {},
    }
    assert(out@ =~= mid + extra_text(row@));
    out.append("\n");
    assert(out@ =~= start + row_text(row@));
}

pub(crate) fn push_footer(out: &mut String, status: &TurnStatus)
    ensures
        final(out)@ == old(out)@ + footer_text(status@),
{
    let ghost start = out@;
    match status {
        TurnStatus::Completed { total_ms } => {
            out.append("  ✓ completed  (end-to-end ");
            push_hundredths(out, *total_ms);
            out.append("s)\n");
        },
        TurnStatus::Stalled { last_topic, expected_next } => {
            out.append("  ✗ stalled after ");
            out.append(last_topic.as_str());
            out.append(" — no ");
            out.append(or_else(expected_next, "(unknown — last in sequence)"));
            out.append("\n");
        },
        TurnStatus::Failed { failure_topic, last_good_topic } => {
            out.append("  ✗ failed at ");
            out.append(failure_topic.as_str());
            out.append(" (after ");
            out.append(or_else(last_good_topic, "(start)"));
            out.append(")\n");
        },
    }
    assert(out@ =~= start + footer_text(status@));
}

pub(crate) fn push_header(out: &mut String, turn_id: &str, utterance: &Option<String>)
    ensures
        final(out)@ == old(out)@ + header_text(turn_id@, utterance.deep_view()),
{
    let ghost start = out@;
    out.append("turn ");
    out.append(turn_id);
    out.append("   \"");
    out.append(or_else(utterance, "(unknown)"));
    out.append("\"\n");
    assert(out@ =~= start + header_text(turn_id@, utterance.deep_view()));
}

/// The display of a timeline.
#[must_use]
pub fn render_timeline(tl: &TurnTimeline) -> (r: String)
    ensures
        r@ == timeline_text(tl@),
{
    let mut out: String = String::new();
    push_header(&mut out, tl.turn_id.as_str(), &tl.utterance);
    assert(out@ =~= header_text(tl@.turn_id, tl@.utterance));
    let ghost rows = tl.rows.deep_view();
    let mut i: usize = 0;
    assert(rows.subrange(0, 0) =~= Seq::empty());
    while i < tl.rows.len()
        invariant
            i <= tl.rows@.len(),
            rows == tl.rows.deep_view(),
            out@ == header_text(tl@.turn_id, tl@.utterance) + rows_text(rows.subrange(0, i as int)),
        decreases tl.rows@.len() - i,
    {
        push_row(&mut out, &tl.rows[i]);
        proof {
            let upto = rows.subrange(0, i + 1);
            assert(upto.drop_last() =~= rows.subrange(0, i as int));
            assert(upto.last() == tl.rows@[i as int]@);
        }
        i += 1;
        assert(out@ =~= header_text(tl@.turn_id, tl@.utterance) + rows_text(rows.subrange(0, i as int)));
    }
    assert(rows.subrange(0, i as int) =~= rows);
    push_footer(&mut out, &tl.status);
    out
}

/// How a turn ended, in short.
pub open spec fn status_text(status: StatusView) -> Seq<char> {
    match status {
        StatusView::Completed { total_ms } => "✓ "@ + hundredths_text(total_ms as nat) + "s"@,
        StatusView::Stalled { last_topic, .. } => "✗ stalled@"@ + last_topic,
        StatusView::Failed { failure_topic, .. } => "✗ failed:"@ + failure_topic,
    }
}

/// The line of a summary, without its end.
pub open spec fn summary_text(s: SummaryView) -> Seq<char> {
    s.turn_id + "  "@ + status_text(s.status) + "  \""@ + text_or(s.utterance, "(unknown)"@)
        + "\""@
}

fn push_status(out: &mut String, status: &TurnStatus)
    ensures
        final(out)@ == old(out)@ + status_text(status@),
{
    let ghost start = out@;
    match status {
        TurnStatus::Completed { total_ms } => {
            out.append("✓ ");
            push_hundredths(out, *total_ms);
            out.append("s");
        },
        TurnStatus::Stalled { last_topic, .. } => {
            out.append("✗ stalled@");
            out.append(last_topic.as_str());
        },
        TurnStatus::Failed { failure_topic, .. } => {
            out.append("✗ failed:");
            out.append(failure_topic.as_str());
        },
    }
    assert(out@ =~= start + status_text(status@));
}

/// The line of a summary, without its end.
#[must_use]
pub fn render_summary(s: &TurnSummary) -> (r: String)
    ensures
        r@ == summary_text(s@),
{
    let mut out: String = s.turn_id.clone();
    out.append("  ");
    push_status(&mut out, &s.status);
    out.append("  \"");
    out.append(or_else(&s.utterance, "(unknown)"));
    out.append("\"");
    out
}

// ── Laws ───────────────────────────────────────────────────────────────────

/// A timeline has a row for every record, oldest first: the first row is at
/// offset 0, no row is earlier than the one before it, and each offset is the
/// time of its record less that of the first.
pub proof fn timeline_runs_forward(turn_id: Seq<char>, records: Seq<RecordView>)
    requires
        records.len() > 0,
    ensures
        timeline_of(turn_id, records).rows.len() == records.len(),
        timeline_of(turn_id, records).rows[0].offset_ms == 0,
        forall|i: int, j: int|
            #![trigger timeline_of(turn_id, records).rows[i], timeline_of(turn_id, records).rows[j]]
            0 <= i <= j < records.len() ==> timeline_of(turn_id, records).rows[i].offset_ms
                <= timeline_of(turn_id, records).rows[j].offset_ms,
        forall|i: int| #![trigger timeline_of(turn_id, records).rows[i]]
            0 <= i < records.len() ==> {
                &&& timeline_of(turn_id, records).rows[i].topic == by_time(records)[i].topic
                &&& timeline_of(turn_id, records).rows[i].offset_ms == by_time(
                    records,
                )[i].ts_received - by_time(records)[0].ts_received
            },
{
    lemma_by_time(records);
}

proof fn lemma_by_time(records: Seq<RecordView>)
    ensures
        by_time(records).len() == records.len(),
        forall|i: int, j: int|
            #![trigger by_time(records)[i], by_time(records)[j]]
            0 <= i <= j < records.len() ==> by_time(records)[i].ts_received <= by_time(
                records,
            )[j].ts_received,
{
    let keys = times(records);
    let order = sort_order(keys);
    sort_order_is_sorted(keys);
    assert forall|i: int, j: int|
        #![trigger by_time(records)[i], by_time(records)[j]]
        0 <= i <= j < records.len() implies by_time(records)[i].ts_received <= by_time(
        records,
    )[j].ts_received by {
        assert(0 <= order[i] < keys.len() && 0 <= order[j] < keys.len());
        if i < j {
            assert(comes_first(keys, order[i], order[j]));
        }
    }
}

/// A completed turn took as long as its last row is late.
pub proof fn total_is_the_last_offset(turn_id: Seq<char>, records: Seq<RecordView>)
    requires
        records.len() > 0,
        timeline_of(turn_id, records).status is Completed,
    ensures
        timeline_of(turn_id, records).status->total_ms == timeline_of(
            turn_id,
            records,
        ).rows.last().offset_ms,
{
    lemma_by_time(records);
}

proof fn lemma_last_topic_with(s: Seq<RecordView>, n: int, failure: bool)
    requires
        0 <= n <= s.len(),
    ensures
        last_topic_with(s, n, failure) is Some <==> exists|i: int|
            0 <= i < n && is_failure((#[trigger] s[i]).topic) == failure,
        last_topic_with(s, n, failure) matches Some(t) ==> is_failure(t) == failure,
    decreases n,
{
    if n > 0 {
        lemma_last_topic_with(s, n - 1, failure);
        if is_failure(s[n - 1].topic) != failure && last_topic_with(s, n, failure) is Some {
            let i = choose|i: int|
                0 <= i < n - 1 && is_failure((#[trigger] s[i]).topic) == failure;
            assert(0 <= i < n && is_failure(s[i].topic) == failure);
        }
    }
}

proof fn lemma_last_failure(s: Seq<RecordView>, n: int)
    requires
        0 <= n <= s.len(),
        exists|i: int| 0 <= i < n && is_failure((#[trigger] s[i]).topic),
    ensures
        0 <= last_failure(s, n) < n,
        is_failure(s[last_failure(s, n)].topic),
        last_topic_with(s, n, true) == Some(s[last_failure(s, n)].topic),
        forall|i: int| last_failure(s, n) < i < n ==> !is_failure((#[trigger] s[i]).topic),
    decreases n,
{
    if !is_failure(s[n - 1].topic) {
        let i = choose|i: int| 0 <= i < n && is_failure((#[trigger] s[i]).topic);
        assert(0 <= i < n - 1);
        lemma_last_failure(s, n - 1);
    }
}

proof fn lemma_same_topics(records: Seq<RecordView>)
    ensures
        forall|i: int|
            0 <= i < records.len() ==> by_time(records).contains(#[trigger] records[i]),
        forall|i: int|
            0 <= i < records.len() ==> records.contains(#[trigger] by_time(records)[i]),
{
    let s = by_time(records);
    let keys = times(records);
    let order = sort_order(keys);
    sort_order_is_sorted(keys);
    lemma_by_time(records);
    assert forall|i: int| 0 <= i < records.len() implies s.contains(#[trigger] records[i]) by {
        assert(order.contains(i));
        let k = order.index_of(i);
        assert(s[k] == records[i]);
    }
    assert forall|i: int| 0 <= i < records.len() implies records.contains(#[trigger] s[i]) by {
        assert(0 <= order[i] < keys.len());
        assert(s[i] == records[order[i]]);
    }
}

/// A turn has failed where one of its records has a topic that marks a failure.
/// Of the others, those are completed that reached `wm.tts.end`, whatever came
/// behind it, and the rest are stalled. A failed turn names its latest failure,
/// and what went well before that: nothing behind the failure plays a part.
pub proof fn status_is_decided(turn_id: Seq<char>, records: Seq<RecordView>)
    requires
        records.len() > 0,
    ensures
        timeline_of(turn_id, records).status is Failed <==> exists|i: int|
            0 <= i < records.len() && is_failure((#[trigger] records[i]).topic),
        timeline_of(turn_id, records).status is Completed <==> {
            &&& forall|i: int|
                0 <= i < records.len() ==> !is_failure((#[trigger] records[i]).topic)
            &&& reached_the_end(records)
        },
        timeline_of(turn_id, records).status is Stalled ==> !reached_the_end(records),
        timeline_of(turn_id, records).status matches StatusView::Failed {
            failure_topic,
            last_good_topic,
        } ==> {
            let s = by_time(records);
            let k = last_failure(s, s.len() as int);
            &&& 0 <= k < s.len()
            &&& is_failure(failure_topic)
            &&& failure_topic == s[k].topic
            &&& forall|i: int| k < i < s.len() ==> !is_failure((#[trigger] s[i]).topic)
            &&& last_good_topic == last_topic_with(s, k, false)
            &&& last_good_topic matches Some(t) ==> !is_failure(t)
        },
{
    let s = by_time(records);
    lemma_by_time(records);
    lemma_same_topics(records);
    lemma_last_topic_with(s, s.len() as int, true);
    if exists|i: int| 0 <= i < records.len() && is_failure((#[trigger] records[i]).topic) {
        let i = choose|i: int| 0 <= i < records.len() && is_failure((#[trigger] records[i]).topic);
        let k = s.index_of(records[i]);
        assert(s[k] == records[i]);
        assert(is_failure(s[k].topic) == true);
    }
    if exists|i: int| 0 <= i < s.len() && is_failure((#[trigger] s[i]).topic) == true {
        let i = choose|i: int| 0 <= i < s.len() && is_failure((#[trigger] s[i]).topic) == true;
        let k = records.index_of(s[i]);
        assert(records[k] == s[i]);
        assert(is_failure(s[i].topic));
        lemma_last_failure(s, s.len() as int);
        lemma_last_topic_with(s, last_failure(s, s.len() as int), false);
    }
    if reached_the_end(records) {
        let i = choose|i: int|
            0 <= i < records.len() && (#[trigger] records[i]).topic == "wm.tts.end"@;
        let k = s.index_of(records[i]);
        assert(s[k] == records[i]);
    }
    if reached_the_end(s) {
        let i = choose|i: int| 0 <= i < s.len() && (#[trigger] s[i]).topic == "wm.tts.end"@;
        let k = records.index_of(s[i]);
        assert(records[k] == s[i]);
    }
}

/// Behind each stage but the last, the stage that stands next in the sequence
/// is due; behind the last, and behind a topic that is no stage, none is.
pub proof fn stages_follow_their_sequence(topic: Seq<char>)
    ensures
        forall|i: int|
            0 <= i < STAGE_SEQUENCE@.len() - 1 ==> stage_after(
                (#[trigger] STAGE_SEQUENCE@[i])@,
            ) == Some(STAGE_SEQUENCE@[i + 1]@),
        stage_after(STAGE_SEQUENCE@.last()@) is None,
        (forall|i: int|
            0 <= i < STAGE_SEQUENCE@.len() ==> (#[trigger] STAGE_SEQUENCE@[i])@ != topic)
            ==> stage_after(topic) is None,
{
    reveal_with_fuel(stage_from, 10);
    reveal_strlit("wm.audio.wake");
    reveal_strlit("wm.audio.speech.start");
    reveal_strlit("wm.audio.speech.end");
    reveal_strlit("wm.stt.final");
    reveal_strlit("wm.dialog.turn.user");
    reveal_strlit("wm.brain.route");
    reveal_strlit("wm.brain.reply");
    reveal_strlit("wm.tts.start");
    reveal_strlit("wm.tts.end");
    assert("wm.audio.wake"@.len() == 13 && "wm.audio.speech.start"@.len() == 21);
    assert("wm.audio.speech.end"@.len() == 19 && "wm.stt.final"@.len() == 12);
    assert("wm.dialog.turn.user"@.len() == 19 && "wm.brain.route"@.len() == 14);
    assert("wm.brain.reply"@.len() == 14 && "wm.tts.start"@.len() == 12);
    assert("wm.tts.end"@.len() == 10);
    assert("wm.audio.speech.end"@[3] == 'a' && "wm.dialog.turn.user"@[3] == 'd');
    assert("wm.stt.final"@[3] == 's' && "wm.tts.start"@[3] == 't');
    assert("wm.brain.route"@[10] == 'o' && "wm.brain.reply"@[10] == 'e');
}

/// Of turns that are all carried by a record of theirs, each has one summary,
/// under its own name and in its own place.
pub proof fn every_turn_is_summarised(turns: Seq<(Seq<char>, Seq<RecordView>)>)
    requires
        forall|i: int| 0 <= i < turns.len() ==> carries((#[trigger] turns[i]).1, turns[i].0),
    ensures
        summaries_of(turns).len() == turns.len(),
        forall|i: int|
            0 <= i < turns.len() ==> #[trigger] summaries_of(turns)[i] == summary_of(
                timeline_of(turns[i].0, turns[i].1),
            ),
    decreases turns.len(),
{
    if turns.len() > 0 {
        let rest = turns.drop_last();
        assert(carries(turns[turns.len() - 1].1, turns[turns.len() - 1].0));
        assert forall|i: int| 0 <= i < rest.len() implies carries(
            (#[trigger] rest[i]).1,
            rest[i].0,
        ) by {
            assert(rest[i] == turns[i]);
        }
        every_turn_is_summarised(rest);
        assert forall|i: int| 0 <= i < turns.len() implies #[trigger] summaries_of(turns)[i]
            == summary_of(timeline_of(turns[i].0, turns[i].1)) by {
            if i < rest.len() {
                assert(summaries_of(rest)[i] == summary_of(timeline_of(rest[i].0, rest[i].1)));
            }
        }
    }
}

} // verus!
