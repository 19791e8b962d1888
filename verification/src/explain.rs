//! A turn in one or two plain sentences, put together from its timeline and from
//! what the brain did. Nothing is made up: the same turn gives the same words.

use crate::mind::{MindView, TurnMind};
use crate::seconds::{push_tenths, tenths_text};
use crate::text::{begins_with, chars_of, has_prefix, lowered, same, text_of, to_lower};
use crate::trace::{
    or_else, text_or, StatusView, TimelineView, TurnStatus, TurnTimeline, FAILURE_TOPICS,
};
use vstd::prelude::*;

verus! {

// ── Personas ───────────────────────────────────────────────────────────────

/// The voice of a narration.
#[derive(Debug, Clone, Copy, PartialEq, Eq, Structural)]
pub enum Persona {
    /// Warm, in the first person.
    Hearth,
    /// Flat, like a log.
    Flat,
}

impl Default for Persona {
    fn default() -> (r: Persona)
        ensures
            r == Persona::Flat,
    {
        Persona::Flat
    }
}

/// The persona that a word names, whatever the case of its letters.
pub open spec fn persona_of(word: Seq<char>) -> Option<Persona> {
    if lowered(word) == "hearth"@ {
        Some(Persona::Hearth)
    } else if lowered(word) == "flat"@ {
        Some(Persona::Flat)
    } else {
        None
    }
}

/// A text as std's `Debug` writes it: between double quotes, with what cannot be
/// printed escaped.
pub uninterp spec fn debug_text(t: Seq<char>) -> Seq<char>;

/// `format!` with `{:?}` of a text. What it writes is a function of the text
/// alone.
#[verifier::external_body]
fn debug(t: &str) -> (r: String)
    ensures
        r@ == debug_text(t@),
{
    format!("{:?}", t)
}

/// Why a word names no persona, given the word between quotes.
pub open spec fn unknown_persona_text(quoted: Seq<char>) -> Seq<char> {
    "unknown persona "@ + quoted + "; expected hearth or flat"@
}

/// Why a word names no persona, given the word between quotes.
pub fn unknown_persona(quoted: &str) -> (r: String)
    ensures
        r@ == unknown_persona_text(quoted@),
{
    let mut out: String = "unknown persona ".to_string();
    out.append(quoted);
    out.append("; expected hearth or flat");
    out
}

impl Persona {
    /// The persona that a word names, or why it names none.
    pub fn parse(s: &str) -> (r: Result<Persona, String>)
        ensures
            match persona_of(s@) {
                Some(p) => r == Ok::<Persona, String>(p),
                None => r is Err && r->Err_0@ == unknown_persona_text(debug_text(lowered(s@))),
            },
    {
        let word = to_lower(s);
        if same(word.as_str(), "hearth") {
            Ok(Persona::Hearth)
        } else if same(word.as_str(), "flat") {
            Ok(Persona::Flat)
        } else {
            Err(unknown_persona(debug(word.as_str()).as_str()))
        }
    }
}

impl std::str::FromStr for Persona {
    type Err = String;

    /// The persona that a word names, or why it names none.
    fn from_str(s: &str) -> (r: Result<Persona, String>)
        ensures
            match persona_of(s@) {
                Some(p) => r == Ok::<Persona, String>(p),
                None => r is Err && r->Err_0@ == unknown_persona_text(debug_text(lowered(s@))),
            },
    {
        Persona::parse(s)
    }
}

// ── Explanations ───────────────────────────────────────────────────────────

/// A turn in plain words.
#[derive(Debug, Clone)]
pub struct TurnExplanation {
    /// The turn.
    pub turn_id: String,
    /// One or two sentences on what happened.
    pub text: String,
    /// The voice in which they are told.
    pub persona: Persona,
    /// Whether the turn was completed.
    pub success: bool,
}

/// The mathematical explanation.
pub struct ExplanationView {
    pub turn_id: Seq<char>,
    pub text: Seq<char>,
    pub persona: Persona,
    pub success: bool,
}

impl View for TurnExplanation {
    type V = ExplanationView;

    open spec fn view(&self) -> ExplanationView {
        ExplanationView {
            turn_id: self.turn_id@,
            text: self.text@,
            persona: self.persona,
            success: self.success,
        }
    }
}

/// A text of at most `max` characters, or its beginning with an ellipsis.
pub open spec fn truncated(t: Seq<char>, max: nat) -> Seq<char> {
    if t.len() <= max {
        t
    } else {
        t.subrange(0, max as int) + "…"@
    }
}

/// A text of at most `max_chars` characters, or its beginning with an ellipsis.
pub fn truncate(s: &str, max_chars: usize) -> (r: String)
    ensures
        r@ == truncated(s@, max_chars as nat),
{
    let chars = chars_of(s);
    if chars.len() <= max_chars {
        s.to_string()
    } else {
        let mut out = text_of(&chars, 0, max_chars);
        out.append("…");
        out
    }
}

/// How a turn was routed, where that is known.
pub open spec fn route_words(mind: Option<MindView>) -> Option<Seq<char>> {
    match mind {
        None => None,
        Some(m) => {
            let tier = text_or(m.tier, "an unknown tier"@);
            Some(
                match m.model {
                    Some(model) => tier + " ("@ + model + ")"@,
                    None => tier,
                },
            )
        },
    }
}

/// The beginning of the reply, where there is one.
pub open spec fn reply_words(mind: Option<MindView>) -> Option<Seq<char>> {
    match mind {
        None => None,
        Some(m) => match m.reply_text {
            Some(t) => Some(truncated(t, 60)),
            None => None,
        },
    }
}

/// A completed turn in plain words.
pub open spec fn success_text(
    t: TimelineView,
    mind: Option<MindView>,
    total_ms: u64,
    persona: Persona,
) -> Seq<char> {
    let said = text_or(t.utterance, "something"@);
    let seconds = tenths_text(total_ms as nat);
    match persona {
        Persona::Hearth => "You said \""@ + said + (match reply_words(mind) {
            Some(reply) => "\" and I replied \""@ + reply + "\"."@,
            None => "\" and I answered."@,
        }) + (match route_words(mind) {
            Some(route) => " I routed it through "@ + route + " and the whole turn took "@,
            None => " The whole turn took "@,
        }) + seconds + " seconds."@,
        Persona::Flat => "turn="@ + t.turn_id + " status=completed utterance=\""@ + said + "\""@
            + (match route_words(mind) {
            Some(route) => " via "@ + route,
            None => ""@,
        }) + (match reply_words(mind) {
            Some(reply) => " reply=\""@ + reply + "\""@,
            None => ""@,
        }) + " latency="@ + seconds + "s"@,
    }
}

fn route_part(mind: Option<&TurnMind>) -> (r: Option<String>)
    ensures
        r.deep_view() == route_words(mind.deep_view()),
{
    match mind {
        None => None,
        Some(m) => {
            let mut out: String = or_else(&m.tier, "an unknown tier").to_string();
            if let Some(model) = &m.model {
                out.append(" (");
                out.append(model.as_str());
                out.append(")");
            }
            Some(out)
        },
    }
}

fn reply_part(mind: Option<&TurnMind>) -> (r: Option<String>)
    ensures
        r.deep_view() == reply_words(mind.deep_view()),
{
    match mind {
        None => None,
        Some(m) => match &m.reply_text {
            Some(t) => Some(truncate(t.as_str(), 60)),
            None => None,
        },
    }
}

/// A completed turn in plain words.
pub fn explain_success(
    timeline: &TurnTimeline,
    mind: Option<&TurnMind>,
    total_ms: u64,
    persona: Persona,
) -> (r: String)
    ensures
        r@ == success_text(timeline@, mind.deep_view(), total_ms, persona),
{
    let said = or_else(&timeline.utterance, "something");
    let route = route_part(mind);
    let reply = reply_part(mind);
    match persona {
        Persona::Hearth => {
            let mut out: String = "You said \"".to_string();
            out.append(said);
            push_around(&mut out, "\" and I replied \"", &reply, "\".", "\" and I answered.");
            push_around(
                &mut out,
                " I routed it through ",
                &route,
                " and the whole turn took ",
                " The whole turn took ",
            );
            push_tenths(&mut out, total_ms);
            out.append(" seconds.");
            out
        },
        Persona::Flat => {
            let mut out: String = "turn=".to_string();
            out.append(timeline.turn_id.as_str());
            out.append(" status=completed utterance=\"");
            out.append(said);
            out.append("\"");
            let ghost mid = out@;
            push_around(&mut out, " via ", &route, "", "");
            proof {
                reveal_strlit("");
                assert(out@ =~= mid + match route_words(mind.deep_view()) {
                    Some(route) => " via "@ + route,
                    None => ""@,
                });
            }
            push_around(&mut out, " reply=\"", &reply, "\"", "");
            out.append(" latency=");
            push_tenths(&mut out, total_ms);
            out.append("s");
            out
        },
    }
}

/// Appends a text between two others, or `none` where there is none.
fn push_around(out: &mut String, before: &str, t: &Option<String>, behind: &str, none: &str)
    ensures
        final(out)@ == old(out)@ + (match t.deep_view() {
            Some(t) => before@ + t + behind@,
            None => none@,
        }),
{
    let ghost start = out@;
    match t {
        Some(t) => {
            out.append(before);
            out.append(t.as_str());
            out.append(behind);
            assert(out@ =~= start + (before@ + t@ + behind@));
        },
        None => out.append(none),
    }
}

// ── Causes ─────────────────────────────────────────────────────────────────

/// Why a turn stopped, given the topic it reached last and the stage that was
/// due.
pub open spec fn stall_words(last: Seq<char>, next: Option<Seq<char>>) -> Seq<char> {
    if last.len() == 0 || !begins_with(last, "wm."@) {
        "I never heard my name, so I didn't start listening"@
    } else if last == "wm.audio.wake"@ {
        "I heard my name but speech capture never started"@
    } else if last == "wm.audio.speech.start"@ {
        "I started listening but you stopped speaking before I could capture anything"@
    } else if last == "wm.audio.speech.end"@ || next == Some("wm.stt.final"@) {
        "I started listening but couldn't make out any words"@
    } else if last == "wm.stt.final"@ || next == Some("wm.dialog.turn.user"@) {
        "I understood what you said but my dialog system didn't pick it up"@
    } else if last == "wm.dialog.turn.user"@ || next == Some("wm.brain.route"@) {
        "I received your message but my brain router never started"@
    } else if last == "wm.brain.route"@ || next == Some("wm.brain.reply"@) {
        "I understood you but my thinking step didn't produce a reply"@
    } else if last == "wm.brain.reply"@ || next == Some("wm.tts.start"@) {
        "I had the answer but my text-to-speech system never started"@
    } else if last == "wm.tts.start"@ || next == Some("wm.tts.end"@) {
        "I started speaking but my text-to-speech stream didn't finish"@
    } else {
        "the turn stopped unexpectedly before completing"@
    }
}

fn is_due(next: Option<&str>, topic: &str) -> (r: bool)
    ensures
        r == (next.deep_view() == Some(topic@)),
{
    match next {
        Some(next) => same(next, topic),
        None => false,
    }
}

/// Why a turn stopped, given the topic it reached last and the stage that was
/// due.
pub fn stall_cause(last_topic: &str, expected_next: Option<&str>) -> (r: &'static str)
    ensures
        r@ == stall_words(last_topic@, expected_next.deep_view()),
{
    if last_topic.unicode_len() == 0 || !has_prefix(last_topic, "wm.") {
        "I never heard my name, so I didn't start listening"
    } else if same(last_topic, "wm.audio.wake") {
        "I heard my name but speech capture never started"
    } else if same(last_topic, "wm.audio.speech.start") {
        "I started listening but you stopped speaking before I could capture anything"
    } else if same(last_topic, "wm.audio.speech.end") || is_due(expected_next, "wm.stt.final") {
        "I started listening but couldn't make out any words"
    } else if same(last_topic, "wm.stt.final") || is_due(expected_next, "wm.dialog.turn.user") {
        "I understood what you said but my dialog system didn't pick it up"
    } else if same(last_topic, "wm.dialog.turn.user") || is_due(expected_next, "wm.brain.route") {
        "I received your message but my brain router never started"
    } else if same(last_topic, "wm.brain.route") || is_due(expected_next, "wm.brain.reply") {
        "I understood you but my thinking step didn't produce a reply"
    } else if same(last_topic, "wm.brain.reply") || is_due(expected_next, "wm.tts.start") {
        "I had the answer but my text-to-speech system never started"
    } else if same(last_topic, "wm.tts.start") || is_due(expected_next, "wm.tts.end") {
        "I started speaking but my text-to-speech stream didn't finish"
    } else {
        "the turn stopped unexpectedly before completing"
    }
}

/// A turn that stopped, in plain words.
pub open spec fn stall_sentence(last: Seq<char>, next: Option<Seq<char>>, persona: Persona) -> Seq<
    char,
> {
    match persona {
        Persona::Hearth => stall_words(last, next) + "."@,
        Persona::Flat => "status=stalled last="@ + last + " cause=\""@ + stall_words(last, next)
            + "\""@,
    }
}

/// A turn that stopped, in plain words.
pub fn explain_stall(last_topic: &str, expected_next: Option<&str>, persona: Persona) -> (r: String)
    ensures
        r@ == stall_sentence(last_topic@, expected_next.deep_view(), persona),
{
    let cause = stall_cause(last_topic, expected_next);
    match persona {
        Persona::Hearth => {
            let mut out: String = cause.to_string();
            out.append(".");
            out
        },
        Persona::Flat => {
            let mut out: String = "status=stalled last=".to_string();
            out.append(last_topic);
            out.append(" cause=\"");
            out.append(cause);
            out.append("\"");
            out
        },
    }
}

/// Why a turn failed, given the topic that says so.
pub open spec fn failure_words(topic: Seq<char>) -> Seq<char> {
    if topic == "wm.stt.uncertain"@ {
        "I started listening but couldn't make out any words"@
    } else if topic == "wm.stt.error"@ {
        "I started listening but my speech recognition failed"@
    } else if topic == "wm.dialog.timeout"@ {
        "I heard you but you went quiet before I could confirm"@
    } else if topic == "wm.dialog.unheard"@ {
        "My dialog system lost track of the turn"@
    } else if topic == "wm.brain.error"@ {
        "I understood you but my thinking step failed"@
    } else if topic == "wm.tts.error"@ {
        "I had the answer but couldn't speak it"@
    } else {
        "an unexpected error ended the turn"@
    }
}

/// Why a turn failed, given the topic that says so.
pub fn failure_cause(topic: &str) -> (r: &'static str)
    ensures
        r@ == failure_words(topic@),
{
    if same(topic, "wm.stt.uncertain") {
        "I started listening but couldn't make out any words"
    } else if same(topic, "wm.stt.error") {
        "I started listening but my speech recognition failed"
    } else if same(topic, "wm.dialog.timeout") {
        "I heard you but you went quiet before I could confirm"
    } else if same(topic, "wm.dialog.unheard") {
        "My dialog system lost track of the turn"
    } else if same(topic, "wm.brain.error") {
        "I understood you but my thinking step failed"
    } else if same(topic, "wm.tts.error") {
        "I had the answer but couldn't speak it"
    } else {
        "an unexpected error ended the turn"
    }
}

/// A turn that failed, in plain words.
pub open spec fn failure_sentence(topic: Seq<char>, persona: Persona) -> Seq<char> {
    match persona {
        Persona::Hearth => failure_words(topic) + "."@,
        Persona::Flat => "status=failed failure="@ + topic + " cause=\""@ + failure_words(topic)
            + "\""@,
    }
}

/// A turn that failed, in plain words.
pub fn explain_failure(failure_topic: &str, persona: Persona) -> (r: String)
    ensures
        r@ == failure_sentence(failure_topic@, persona),
{
    let cause = failure_cause(failure_topic);
    match persona {
        Persona::Hearth => {
            let mut out: String = cause.to_string();
            out.append(".");
            out
        },
        Persona::Flat => {
            let mut out: String = "status=failed failure=".to_string();
            out.append(failure_topic);
            out.append(" cause=\"");
            out.append(cause);
            out.append("\"");
            out
        },
    }
}

/// A turn in plain words.
pub open spec fn explained(
    t: TimelineView,
    mind: Option<MindView>,
    persona: Persona,
) -> ExplanationView {
    ExplanationView {
        turn_id: t.turn_id,
        text: match t.status {
            StatusView::Completed { total_ms } => success_text(t, mind, total_ms, persona),
            StatusView::Stalled { last_topic, expected_next } => stall_sentence(
                last_topic,
                expected_next,
                persona,
            ),
            StatusView::Failed { failure_topic, .. } => failure_sentence(failure_topic, persona),
        },
        persona,
        success: t.status is Completed,
    }
}

/// A turn in plain words, given its timeline and, where the brain ran, what it
/// did.
#[must_use]
pub fn explain(timeline: &TurnTimeline, mind: Option<&TurnMind>, persona: Persona) -> (r:
    TurnExplanation)
    ensures
        r@ == explained(timeline@, mind.deep_view(), persona),
{
    let (text, success) = match &timeline.status {
        TurnStatus::Completed { total_ms } => (
            explain_success(timeline, mind, *total_ms, persona),
            true,
        ),
        TurnStatus::Stalled { last_topic, expected_next } => {
            let next = match expected_next {
                Some(next) => Some(next.as_str()),
                None => None,
            };
            (explain_stall(last_topic.as_str(), next, persona), false)
        },
        TurnStatus::Failed { failure_topic, last_good_topic: _ } => (
            explain_failure(failure_topic.as_str(), persona),
            false,
        ),
    };
    TurnExplanation { turn_id: timeline.turn_id.clone(), text, persona, success }
}

// ── Laws ───────────────────────────────────────────────────────────────────

/// Each topic that marks a failure has a sentence of its own.
pub proof fn failures_are_told_apart(i: int, j: int)
    requires
        0 <= i < j < FAILURE_TOPICS@.len(),
    ensures
        failure_words(FAILURE_TOPICS@[i]@) != failure_words(FAILURE_TOPICS@[j]@),
{
    reveal_strlit("wm.stt.uncertain");
    reveal_strlit("wm.stt.error");
    reveal_strlit("wm.dialog.timeout");
    reveal_strlit("wm.dialog.unheard");
    reveal_strlit("wm.brain.error");
    reveal_strlit("wm.tts.error");
    assert("wm.stt.uncertain"@.len() == 16 && "wm.stt.error"@.len() == 12);
    assert("wm.dialog.timeout"@.len() == 17 && "wm.dialog.unheard"@.len() == 17);
    assert("wm.brain.error"@.len() == 14 && "wm.tts.error"@.len() == 12);
    assert("wm.dialog.timeout"@[10] == 't' && "wm.dialog.unheard"@[10] == 'u');
    assert("wm.stt.error"@[3] == 's' && "wm.tts.error"@[3] == 't');
    reveal_strlit("I started listening but couldn't make out any words");
    reveal_strlit("I started listening but my speech recognition failed");
    reveal_strlit("I heard you but you went quiet before I could confirm");
    reveal_strlit("My dialog system lost track of the turn");
    reveal_strlit("I understood you but my thinking step failed");
    reveal_strlit("I had the answer but couldn't speak it");
    assert("I started listening but couldn't make out any words"@.len() == 51);
    assert("I started listening but my speech recognition failed"@.len() == 52);
    assert("I heard you but you went quiet before I could confirm"@.len() == 53);
    assert("My dialog system lost track of the turn"@.len() == 39);
    assert("I understood you but my thinking step failed"@.len() == 44);
    assert("I had the answer but couldn't speak it"@.len() == 38);
}

/// The two personas tell every turn in different words.
pub proof fn personas_speak_differently(t: TimelineView, mind: Option<MindView>)
    ensures
        explained(t, mind, Persona::Hearth).text != explained(t, mind, Persona::Flat).text,
{
    let hearth = explained(t, mind, Persona::Hearth).text;
    let flat = explained(t, mind, Persona::Flat).text;
    match t.status {
        StatusView::Completed { total_ms } => {
            reveal_strlit("You said \"");
            reveal_strlit("turn=");
            assert(hearth[0] == 'Y');
            assert(flat[0] == 't');
        },
        StatusView::Stalled { last_topic, expected_next } => {
            lemma_stall_words(last_topic, expected_next);
            reveal_strlit("status=stalled last=");
            assert(flat[0] == 's');
        },
        StatusView::Failed { failure_topic, .. } => {
            lemma_failure_words(failure_topic);
            reveal_strlit("status=failed failure=");
            assert(flat[0] == 's');
        },
    }
}

proof fn lemma_stall_words(last: Seq<char>, next: Option<Seq<char>>)
    ensures
        stall_words(last, next).len() > 0,
        stall_words(last, next)[0] != 's',
{
    reveal_strlit("I never heard my name, so I didn't start listening");
    reveal_strlit("I heard my name but speech capture never started");
    reveal_strlit("I started listening but you stopped speaking before I could capture anything");
    reveal_strlit("I started listening but couldn't make out any words");
    reveal_strlit("I understood what you said but my dialog system didn't pick it up");
    reveal_strlit("I received your message but my brain router never started");
    reveal_strlit("I understood you but my thinking step didn't produce a reply");
    reveal_strlit("I had the answer but my text-to-speech system never started");
    reveal_strlit("I started speaking but my text-to-speech stream didn't finish");
    reveal_strlit("the turn stopped unexpectedly before completing");
}

proof fn lemma_failure_words(topic: Seq<char>)
    ensures
        failure_words(topic).len() > 0,
        failure_words(topic)[0] != 's',
{
    reveal_strlit("I started listening but couldn't make out any words");
    reveal_strlit("I started listening but my speech recognition failed");
    reveal_strlit("I heard you but you went quiet before I could confirm");
    reveal_strlit("My dialog system lost track of the turn");
    reveal_strlit("I understood you but my thinking step failed");
    reveal_strlit("I had the answer but couldn't speak it");
    reveal_strlit("an unexpected error ended the turn");
}

} // verus!
