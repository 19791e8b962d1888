//! Turns in plain words.

use crate::explain::{
    explained, failure_words, persona_of, stall_sentence, stall_words, success_text, truncated,
    unknown_persona_text, Persona,
};
use crate::laws::shows;
use crate::laws::turns::{is_followed_by, marks_a_failure};
use crate::mind::MindView;
use crate::seconds::tenths_text;
use crate::text::{begins_with, lowered};
use crate::trace::{StatusView, TimelineView};
use vstd::prelude::*;

verus! {

/// A text that is short enough is told whole; of a longer one its beginning, with
/// an ellipsis behind.
pub proof fn long_texts_are_cut(t: Seq<char>, max: nat)
    ensures
        t.len() <= max ==> truncated(t, max) == t,
        t.len() > max ==> {
            &&& truncated(t, max).len() == max + 1
            &&& truncated(t, max).last() == '…'
            &&& forall|i: int| 0 <= i < max ==> #[trigger] truncated(t, max)[i] == t[i]
        },
{
    reveal_strlit("…");
}

/// A persona is named by its word, in whatever case; another word is refused,
/// with the word and the two that are known.
pub proof fn personas_are_named_by_their_words(word: Seq<char>, quoted: Seq<char>)
    ensures
        persona_of(word) == Some(Persona::Hearth) <==> lowered(word) == "hearth"@,
        persona_of(word) == Some(Persona::Flat) <==> lowered(word) == "flat"@,
        unknown_persona_text(quoted) == "unknown persona "@ + quoted
            + "; expected hearth or flat"@,
{
    reveal_strlit("hearth");
    reveal_strlit("flat");
    assert("hearth"@.len() == 6 && "flat"@.len() == 4);
}

/// An explanation is of its turn, in the voice that was asked for, and a success
/// where the turn was completed.
pub proof fn an_explanation_is_of_its_turn(t: TimelineView, mind: Option<MindView>, persona: Persona)
    ensures
        explained(t, mind, persona).turn_id == t.turn_id,
        explained(t, mind, persona).persona == persona,
        explained(t, mind, persona).success <==> t.status is Completed,
{
}

/// What is told of the reply: the first sixty characters.
pub open spec fn told_reply(reply: Seq<char>) -> Seq<char> {
    if reply.len() <= 60 {
        reply
    } else {
        reply.subrange(0, 60) + "…"@
    }
}

/// A completed turn is told, like a log, with its name, what the user said, the
/// tier and the model that answered, the reply and the time it took, each as far
/// as it is known.
pub proof fn a_completed_turn_is_told_flat(t: TimelineView, total_ms: u64, m: MindView)
    requires
        t.status == (StatusView::Completed { total_ms }),
    ensures
        ({
            let said = match t.utterance {
                Some(said) => said,
                None => "something"@,
            };
            let start = "turn="@ + t.turn_id + " status=completed utterance=\""@ + said + "\""@;
            let end = " latency="@ + tenths_text(total_ms as nat) + "s"@;
            let via = match (m.tier, m.model) {
                (Some(tier), Some(model)) => " via "@ + tier + " ("@ + model + ")"@,
                (Some(tier), None) => " via "@ + tier,
                (None, Some(model)) => " via an unknown tier ("@ + model + ")"@,
                (None, None) => " via an unknown tier"@,
            };
            let reply = match m.reply_text {
                Some(reply) => " reply=\""@ + told_reply(reply) + "\""@,
                None => ""@,
            };
            &&& explained(t, None, Persona::Flat).text == start + end
            &&& explained(t, Some(m), Persona::Flat).text == start + via + reply + end
        }),
{
    reveal_strlit("");
    reveal_strlit(" via ");
    reveal_strlit("an unknown tier");
    reveal_strlit(" via an unknown tier");
    reveal_strlit(" (");
    reveal_strlit(" via an unknown tier (");
    assert(" via "@ + "an unknown tier"@ =~= " via an unknown tier"@);
    assert(" via an unknown tier"@ + " ("@ =~= " via an unknown tier ("@);
    let said = match t.utterance {
        Some(said) => said,
        None => "something"@,
    };
    let start = "turn="@ + t.turn_id + " status=completed utterance=\""@ + said + "\""@;
    let end = " latency="@ + tenths_text(total_ms as nat) + "s"@;
    let via = match (m.tier, m.model) {
        (Some(tier), Some(model)) => " via "@ + tier + " ("@ + model + ")"@,
        (Some(tier), None) => " via "@ + tier,
        (None, Some(model)) => " via an unknown tier ("@ + model + ")"@,
        (None, None) => " via an unknown tier"@,
    };
    let reply = match m.reply_text {
        Some(reply) => " reply=\""@ + told_reply(reply) + "\""@,
        None => ""@,
    };
    let route = crate::explain::route_words(Some(m))->0;
    assert(" via "@ + route =~= via);
    assert(success_text(t, None, total_ms, Persona::Flat) =~= start + end);
    assert(success_text(t, Some(m), total_ms, Persona::Flat) =~= start + via + reply + end);
}

/// A completed turn is told, in the first person, with what the user said, the
/// reply, the tier and the model that answered, and the time it took, each as
/// far as it is known.
pub proof fn a_completed_turn_is_told_warmly(t: TimelineView, total_ms: u64, m: MindView)
    requires
        t.status == (StatusView::Completed { total_ms }),
    ensures
        ({
            let said = match t.utterance {
                Some(said) => said,
                None => "something"@,
            };
            let end = tenths_text(total_ms as nat) + " seconds."@;
            let reply = match m.reply_text {
                Some(reply) => "\" and I replied \""@ + told_reply(reply) + "\"."@,
                None => "\" and I answered."@,
            };
            let route = match (m.tier, m.model) {
                (Some(tier), Some(model)) => " I routed it through "@ + tier + " ("@ + model
                    + ") and the whole turn took "@,
                (Some(tier), None) => " I routed it through "@ + tier + " and the whole turn took "@,
                (None, Some(model)) => " I routed it through an unknown tier ("@ + model
                    + ") and the whole turn took "@,
                (None, None) =>
                    " I routed it through an unknown tier and the whole turn took "@,
            };
            &&& explained(t, None, Persona::Hearth).text == "You said \""@ + said
                + "\" and I answered. The whole turn took "@ + end
            &&& explained(t, Some(m), Persona::Hearth).text == "You said \""@ + said + reply + route
                + end
        }),
{
    reveal_strlit("\" and I answered.");
    reveal_strlit(" The whole turn took ");
    reveal_strlit("\" and I answered. The whole turn took ");
    reveal_strlit(" I routed it through ");
    reveal_strlit("an unknown tier");
    reveal_strlit(" (");
    reveal_strlit(")");
    reveal_strlit(" and the whole turn took ");
    reveal_strlit(") and the whole turn took ");
    reveal_strlit(" I routed it through an unknown tier (");
    reveal_strlit(" I routed it through an unknown tier and the whole turn took ");
    assert("\" and I answered."@ + " The whole turn took "@
        =~= "\" and I answered. The whole turn took "@);
    assert(")"@ + " and the whole turn took "@ =~= ") and the whole turn took "@);
    assert(" I routed it through "@ + "an unknown tier"@ + " ("@
        =~= " I routed it through an unknown tier ("@);
    assert(" I routed it through "@ + "an unknown tier"@ + " and the whole turn took "@
        =~= " I routed it through an unknown tier and the whole turn took "@);
    let said = match t.utterance {
        Some(said) => said,
        None => "something"@,
    };
    let end = tenths_text(total_ms as nat) + " seconds."@;
    let reply = match m.reply_text {
        Some(reply) => "\" and I replied \""@ + told_reply(reply) + "\"."@,
        None => "\" and I answered."@,
    };
    let words = crate::explain::route_words(Some(m))->0;
    let route = " I routed it through "@ + words + " and the whole turn took "@;
    match (m.tier, m.model) {
        (Some(tier), Some(model)) => {
            assert(route =~= " I routed it through "@ + tier + " ("@ + model + (")"@
                + " and the whole turn took "@));
        },
        (Some(tier), None) => {},
        (None, Some(model)) => {
            assert(route =~= (" I routed it through "@ + "an unknown tier"@ + " ("@) + model + (
            ")"@ + " and the whole turn took "@));
        },
        (None, None) => {},
    }
    assert(success_text(t, None, total_ms, Persona::Hearth) =~= "You said \""@ + said + (
    "\" and I answered."@ + " The whole turn took "@) + end);
    assert(success_text(t, Some(m), total_ms, Persona::Hearth) =~= "You said \""@ + said + reply
        + route + end);
}

/// What stands before and behind the route in the narration of a completed turn.
spec fn around_the_route(t: TimelineView, total_ms: u64, m: MindView, persona: Persona) -> (
    Seq<char>,
    Seq<char>,
) {
    let said = match t.utterance {
        Some(said) => said,
        None => "something"@,
    };
    let seconds = tenths_text(total_ms as nat);
    match persona {
        Persona::Flat => (
            "turn="@ + t.turn_id + " status=completed utterance=\""@ + said + "\""@ + " via "@,
            (match m.reply_text {
                Some(reply) => " reply=\""@ + told_reply(reply) + "\""@,
                None => ""@,
            }) + " latency="@ + seconds + "s"@,
        ),
        Persona::Hearth => (
            "You said \""@ + said + (match m.reply_text {
                Some(reply) => "\" and I replied \""@ + told_reply(reply) + "\"."@,
                None => "\" and I answered."@,
            }) + " I routed it through "@,
            " and the whole turn took "@ + seconds + " seconds."@,
        ),
    }
}

proof fn lemma_around_the_route(t: TimelineView, total_ms: u64, m: MindView, persona: Persona)
    requires
        t.status == (StatusView::Completed { total_ms }),
    ensures
        ({
            let (a, b) = around_the_route(t, total_ms, m, persona);
            explained(t, Some(m), persona).text == a + crate::explain::route_words(Some(m))->0 + b
        }),
{
    let (a, b) = around_the_route(t, total_ms, m, persona);
    assert(explained(t, Some(m), persona).text =~= a + crate::explain::route_words(Some(m))->0 + b);
}

/// A tier that was recorded is told, in either voice, with the model that was
/// recorded behind it, if there is one. Only where no tier was recorded an
/// unknown one is told.
pub proof fn a_recorded_tier_is_told(
    t: TimelineView,
    total_ms: u64,
    m: MindView,
    persona: Persona,
    tier: Seq<char>,
    model: Seq<char>,
)
    requires
        t.status == (StatusView::Completed { total_ms }),
    ensures
        ({
            let text = explained(t, Some(m), persona).text;
            let before = match persona {
                Persona::Flat => " via "@,
                Persona::Hearth => " I routed it through "@,
            };
            &&& m.tier == Some(tier) ==> shows(text, before + tier)
            &&& m.tier == Some(tier) && m.model == Some(model) ==> shows(
                text,
                before + tier + " ("@ + model + ")"@,
            )
            &&& m.tier is None ==> shows(text, before + "an unknown tier"@)
            &&& m.tier is None && m.model == Some(model) ==> shows(
                text,
                before + "an unknown tier"@ + " ("@ + model + ")"@,
            )
        }),
{
    let (a, b) = around_the_route(t, total_ms, m, persona);
    lemma_around_the_route(t, total_ms, m, persona);
    let before = match persona {
        Persona::Flat => " via "@,
        Persona::Hearth => " I routed it through "@,
    };
    let front = a.subrange(0, a.len() - before.len());
    assert(a =~= front + before) by {
        assert(a.subrange(a.len() - before.len(), a.len() as int) =~= before);
    }
    let name = match m.tier {
        Some(tier) => tier,
        None => "an unknown tier"@,
    };
    match m.model {
        Some(model) => lemma_parts_are_shown(front, before, name, " ("@ + model + ")"@, b),
        None => {
            lemma_parts_are_shown(front, before, name, Seq::empty(), b);
            assert(name + Seq::<char>::empty() =~= name);
        },
    }
    let words = crate::explain::route_words(Some(m))->0;
    match m.model {
        Some(model) => {
            assert(words =~= name + (" ("@ + model + ")"@));
            assert(before + name + (" ("@ + model + ")"@) =~= before + name + " ("@ + model + ")"@);
        },
        None => {},
    }
}

proof fn lemma_parts_are_shown(
    front: Seq<char>,
    before: Seq<char>,
    name: Seq<char>,
    more: Seq<char>,
    b: Seq<char>,
)
    ensures
        shows(front + before + (name + more) + b, before + name),
        shows(front + before + (name + more) + b, before + name + more),
{
    let text = front + before + (name + more) + b;
    assert(text =~= front + (before + name) + (more + b));
    assert(text =~= front + (before + name + more) + b);
}

/// What the user said and the time that the turn took are told in either voice.
pub proof fn the_words_and_the_time_are_told(
    t: TimelineView,
    total_ms: u64,
    m: MindView,
    persona: Persona,
    said: Seq<char>,
)
    requires
        t.status == (StatusView::Completed { total_ms }),
        t.utterance == Some(said),
    ensures
        shows(explained(t, Some(m), persona).text, said),
        shows(explained(t, Some(m), persona).text, tenths_text(total_ms as nat)),
{
    let text = explained(t, Some(m), persona).text;
    let (a, b) = around_the_route(t, total_ms, m, persona);
    let words = crate::explain::route_words(Some(m))->0;
    lemma_around_the_route(t, total_ms, m, persona);
    let seconds = tenths_text(total_ms as nat);
    let start = match persona {
        Persona::Flat => "turn="@ + t.turn_id + " status=completed utterance=\""@,
        Persona::Hearth => "You said \""@,
    };
    let end = match persona {
        Persona::Flat => "s"@,
        Persona::Hearth => " seconds."@,
    };
    let mid = a.subrange((start.len() + said.len()) as int, a.len() as int);
    assert(a =~= start + said + mid);
    assert(text =~= start + said + (mid + words + b));
    let front = b.subrange(0, b.len() - seconds.len() - end.len());
    assert(b =~= front + seconds + end);
    assert(text =~= (a + words + front) + seconds + end);
}

/// The beginning of the reply is told, in either voice, in quotes.
pub proof fn the_reply_is_told(
    t: TimelineView,
    total_ms: u64,
    m: MindView,
    persona: Persona,
    reply: Seq<char>,
)
    requires
        t.status == (StatusView::Completed { total_ms }),
        m.reply_text == Some(reply),
    ensures
        shows(
            explained(t, Some(m), persona).text,
            (match persona {
                Persona::Flat => " reply=\""@,
                Persona::Hearth => " and I replied \""@,
            }) + told_reply(reply) + "\""@,
        ),
{
    let text = explained(t, Some(m), persona).text;
    let (a, b) = around_the_route(t, total_ms, m, persona);
    let words = crate::explain::route_words(Some(m))->0;
    lemma_around_the_route(t, total_ms, m, persona);
    let said = match t.utterance {
        Some(said) => said,
        None => "something"@,
    };
    let told = told_reply(reply);
    match persona {
        Persona::Flat => {
            let end = " latency="@ + tenths_text(total_ms as nat) + "s"@;
            assert(text =~= (a + words) + (" reply=\""@ + told + "\""@) + end);
        },
        Persona::Hearth => {
            reveal_strlit("\"");
            reveal_strlit("\".");
            reveal_strlit("\" and I replied \"");
            reveal_strlit(" and I replied \"");
            assert("\" and I replied \""@ =~= "\""@ + " and I replied \""@);
            assert("\"."@ =~= "\""@ + seq!['.']);
            let front = "You said \""@ + said + "\""@;
            let rest = seq!['.'] + " I routed it through "@ + words + b;
            assert(a + words + b =~= front + (" and I replied \""@ + told + "\""@) + rest);
        },
    }
}

/// What is told of a turn that stalled behind a stage.
pub open spec fn stall_is_told(last: Seq<char>, words: Seq<char>) -> bool {
    ||| last == "wm.audio.wake"@ && words == "I heard my name but speech capture never started"@
    ||| last == "wm.audio.speech.start"@ && words
        == "I started listening but you stopped speaking before I could capture anything"@
    ||| last == "wm.audio.speech.end"@ && words
        == "I started listening but couldn't make out any words"@
    ||| last == "wm.stt.final"@ && words
        == "I understood what you said but my dialog system didn't pick it up"@
    ||| last == "wm.dialog.turn.user"@ && words
        == "I received your message but my brain router never started"@
    ||| last == "wm.brain.route"@ && words
        == "I understood you but my thinking step didn't produce a reply"@
    ||| last == "wm.brain.reply"@ && words
        == "I had the answer but my text-to-speech system never started"@
    ||| last == "wm.tts.start"@ && words
        == "I started speaking but my text-to-speech stream didn't finish"@
}

/// A stalled turn is told by the stage behind which nothing came: each stage has
/// its own words, and the topic itself is told in the flat voice.
pub proof fn a_stall_is_told_by_its_stage(t: TimelineView, mind: Option<MindView>, last: Seq<char>, next: Seq<char>)
    requires
        is_followed_by(last, next),
        t.status == (StatusView::Stalled { last_topic: last, expected_next: Some(next) }),
    ensures
        stall_is_told(last, stall_words(last, Some(next))),
        explained(t, mind, Persona::Hearth).text == stall_words(last, Some(next)) + "."@,
        explained(t, mind, Persona::Flat).text == "status=stalled last="@ + last + " cause=\""@
            + stall_words(last, Some(next)) + "\""@,
{
    lemma_stage_topics();
    lemma_stages_are_ours();
}

/// Behind a stage the words are the same where it is not known what was due.
pub proof fn a_stall_is_told_without_what_was_due(last: Seq<char>, next: Seq<char>)
    requires
        is_followed_by(last, next),
    ensures
        stall_is_told(last, stall_words(last, None)),
{
    lemma_stage_topics();
    lemma_stages_are_ours();
}

/// A turn that stalled behind a topic of another program never got the name of
/// this one, whatever was due.
pub proof fn a_stall_elsewhere_is_told_as_such(last: Seq<char>, next: Option<Seq<char>>)
    requires
        !begins_with(last, "wm."@),
    ensures
        stall_words(last, next) == "I never heard my name, so I didn't start listening"@,
{
}

/// Whether a stage behind the capture of speech comes next.
pub open spec fn is_due_behind_speech(next: Seq<char>) -> bool {
    ||| next == "wm.stt.final"@
    ||| next == "wm.dialog.turn.user"@
    ||| next == "wm.brain.route"@
    ||| next == "wm.brain.reply"@
    ||| next == "wm.tts.start"@
    ||| next == "wm.tts.end"@
}

/// Behind a topic of ours that is no stage, nothing is known of the cause, unless
/// a stage behind the capture of speech was due.
pub proof fn a_stall_may_have_no_known_cause(last: Seq<char>, next: Option<Seq<char>>)
    requires
        begins_with(last, "wm."@),
        forall|stage: Seq<char>| !(#[trigger] is_followed_by(last, stage)),
        next is None || !is_due_behind_speech(next->0),
    ensures
        stall_words(last, next) == "the turn stopped unexpectedly before completing"@,
{
    assert(!is_followed_by(last, "wm.audio.speech.start"@));
    assert(!is_followed_by(last, "wm.audio.speech.end"@));
    assert(!is_followed_by(last, "wm.stt.final"@));
    assert(!is_followed_by(last, "wm.dialog.turn.user"@));
    assert(!is_followed_by(last, "wm.brain.route"@));
    assert(!is_followed_by(last, "wm.brain.reply"@));
    assert(!is_followed_by(last, "wm.tts.start"@));
    assert(!is_followed_by(last, "wm.tts.end"@));
    reveal_strlit("wm.");
}

/// Where a stage was due behind a topic of ours that is no stage, the stage that
/// was due is what is told: as if the one before it had been reached.
pub proof fn a_stall_may_be_told_by_what_was_due(last: Seq<char>, stage: Seq<char>, next: Seq<char>)
    requires
        begins_with(last, "wm."@),
        forall|s: Seq<char>| !(#[trigger] is_followed_by(last, s)),
        is_followed_by(stage, next),
        stage != "wm.audio.wake"@ && stage != "wm.audio.speech.start"@,
    ensures
        stall_is_told(stage, stall_words(last, Some(next))),
{
    lemma_stage_topics();
    assert(!is_followed_by(last, "wm.audio.speech.start"@));
    assert(!is_followed_by(last, "wm.audio.speech.end"@));
    assert(!is_followed_by(last, "wm.stt.final"@));
    assert(!is_followed_by(last, "wm.dialog.turn.user"@));
    assert(!is_followed_by(last, "wm.brain.route"@));
    assert(!is_followed_by(last, "wm.brain.reply"@));
    assert(!is_followed_by(last, "wm.tts.start"@));
    assert(!is_followed_by(last, "wm.tts.end"@));
    reveal_strlit("wm.");
}

/// What is told of a turn that failed at a topic.
pub open spec fn failure_is_told(topic: Seq<char>, words: Seq<char>) -> bool {
    ||| topic == "wm.stt.uncertain"@ && words
        == "I started listening but couldn't make out any words"@
    ||| topic == "wm.stt.error"@ && words == "I started listening but my speech recognition failed"@
    ||| topic == "wm.dialog.timeout"@ && words
        == "I heard you but you went quiet before I could confirm"@
    ||| topic == "wm.dialog.unheard"@ && words == "My dialog system lost track of the turn"@
    ||| topic == "wm.brain.error"@ && words == "I understood you but my thinking step failed"@
    ||| topic == "wm.tts.error"@ && words == "I had the answer but couldn't speak it"@
}

/// A failed turn is told by the topic at which it failed.
pub proof fn a_failure_is_told_by_its_topic(
    t: TimelineView,
    mind: Option<MindView>,
    topic: Seq<char>,
    good: Option<Seq<char>>,
)
    requires
        marks_a_failure(topic),
        t.status == (StatusView::Failed { failure_topic: topic, last_good_topic: good }),
    ensures
        failure_is_told(topic, failure_words(topic)),
        explained(t, mind, Persona::Hearth).text == failure_words(topic) + "."@,
        explained(t, mind, Persona::Flat).text == "status=failed failure="@ + topic + " cause=\""@
            + failure_words(topic) + "\""@,
{
    lemma_failure_topics();
}

/// At any other topic nothing is known of the failure.
pub proof fn a_failure_elsewhere_is_told_as_such(topic: Seq<char>)
    requires
        !marks_a_failure(topic),
    ensures
        failure_words(topic) == "an unexpected error ended the turn"@,
{
}

/// A stall without a cause is told in the same form.
pub proof fn every_stall_is_told_in_one_form(last: Seq<char>, next: Option<Seq<char>>)
    ensures
        stall_sentence(last, next, Persona::Hearth) == stall_words(last, next) + "."@,
        stall_sentence(last, next, Persona::Flat) == "status=stalled last="@ + last + " cause=\""@
            + stall_words(last, next) + "\""@,
{
}

/// The topics of a healthy turn differ.
proof fn lemma_stage_topics()
    ensures
        "wm.audio.wake"@.len() == 13,
        "wm.audio.speech.start"@.len() == 21,
        "wm.audio.speech.end"@.len() == 19,
        "wm.audio.speech.end"@[3] == 'a',
        "wm.stt.final"@.len() == 12,
        "wm.stt.final"@[3] == 's',
        "wm.dialog.turn.user"@.len() == 19,
        "wm.dialog.turn.user"@[3] == 'd',
        "wm.brain.route"@.len() == 14,
        "wm.brain.route"@[10] == 'o',
        "wm.brain.reply"@.len() == 14,
        "wm.brain.reply"@[10] == 'e',
        "wm.tts.start"@.len() == 12,
        "wm.tts.start"@[3] == 't',
        "wm.tts.end"@.len() == 10,
{
    reveal_strlit("wm.audio.wake");
    reveal_strlit("wm.audio.speech.start");
    reveal_strlit("wm.audio.speech.end");
    reveal_strlit("wm.stt.final");
    reveal_strlit("wm.dialog.turn.user");
    reveal_strlit("wm.brain.route");
    reveal_strlit("wm.brain.reply");
    reveal_strlit("wm.tts.start");
    reveal_strlit("wm.tts.end");
}

/// The topics that mark a failure differ.
proof fn lemma_failure_topics()
    ensures
        "wm.stt.uncertain"@.len() == 16,
        "wm.stt.error"@.len() == 12,
        "wm.stt.error"@[3] == 's',
        "wm.dialog.timeout"@.len() == 17,
        "wm.dialog.timeout"@[10] == 't',
        "wm.dialog.unheard"@.len() == 17,
        "wm.dialog.unheard"@[10] == 'u',
        "wm.brain.error"@.len() == 14,
        "wm.tts.error"@.len() == 12,
        "wm.tts.error"@[3] == 't',
{
    reveal_strlit("wm.stt.uncertain");
    reveal_strlit("wm.stt.error");
    reveal_strlit("wm.dialog.timeout");
    reveal_strlit("wm.dialog.unheard");
    reveal_strlit("wm.brain.error");
    reveal_strlit("wm.tts.error");
}

/// The topics of a healthy turn are ours.
proof fn lemma_stages_are_ours()
    ensures
        begins_with("wm.audio.wake"@, "wm."@),
        begins_with("wm.audio.speech.start"@, "wm."@),
        begins_with("wm.audio.speech.end"@, "wm."@),
        begins_with("wm.stt.final"@, "wm."@),
        begins_with("wm.dialog.turn.user"@, "wm."@),
        begins_with("wm.brain.route"@, "wm."@),
        begins_with("wm.brain.reply"@, "wm."@),
        begins_with("wm.tts.start"@, "wm."@),
{
    reveal_strlit("wm.");
    reveal_strlit("wm.audio.wake");
    reveal_strlit("wm.audio.speech.start");
    reveal_strlit("wm.audio.speech.end");
    reveal_strlit("wm.stt.final");
    reveal_strlit("wm.dialog.turn.user");
    reveal_strlit("wm.brain.route");
    reveal_strlit("wm.brain.reply");
    reveal_strlit("wm.tts.start");
    assert("wm.audio.wake"@.subrange(0, 3) =~= "wm."@);
    assert("wm.audio.speech.start"@.subrange(0, 3) =~= "wm."@);
    assert("wm.audio.speech.end"@.subrange(0, 3) =~= "wm."@);
    assert("wm.stt.final"@.subrange(0, 3) =~= "wm."@);
    assert("wm.dialog.turn.user"@.subrange(0, 3) =~= "wm."@);
    assert("wm.brain.route"@.subrange(0, 3) =~= "wm."@);
    assert("wm.brain.reply"@.subrange(0, 3) =~= "wm."@);
    assert("wm.tts.start"@.subrange(0, 3) =~= "wm."@);
}

} // verus!
