//! The record of one bus event, and the line that holds it.
//!
//! A record is written as one JSON object on a line of its own. Fields may be
//! added to it later, never renamed, so that an older reader still reads a
//! newer line.

use crate::fields::{fields_of, gives_back, named, names_of, read_fields, FieldsError};
use crate::payload::{
    field, fits, is_kept, is_written, lookup, members_text, members_text_is_one_line, no_control,
    object_text, optional_text, push_member, text_member, valid, Json, Members, Payload,
};
use crate::text::{decimal, push_decimal};
use vstd::prelude::*;

verus! {

/// The version of the record schema.
pub const SCHEMA_VERSION: u32 = 1;

/// A single recorded bus event.
#[derive(Debug, PartialEq, Eq)]
pub struct Record {
    /// The schema version of this record.
    pub v: u32,
    /// Milliseconds since the Unix epoch at which the recorder got the event.
    pub ts_received: u64,
    /// The bus topic of the event.
    pub topic: String,
    /// The turn that the payload names, if it names one.
    pub turn_id: Option<String>,
    /// The session that published the event.
    pub from: String,
    /// The payload as it was published.
    pub raw_payload: Payload,
}

/// The mathematical record.
pub struct RecordView {
    pub v: u32,
    pub ts_received: u64,
    pub topic: Seq<char>,
    pub turn_id: Option<Seq<char>>,
    pub from: Seq<char>,
    pub raw_payload: Json,
}

impl View for Record {
    type V = RecordView;

    open spec fn view(&self) -> RecordView {
        RecordView {
            v: self.v,
            ts_received: self.ts_received,
            topic: self.topic@,
            turn_id: self.turn_id.deep_view(),
            from: self.from@,
            raw_payload: self.raw_payload@,
        }
    }
}

impl DeepView for Record {
    type V = RecordView;

    open spec fn deep_view(&self) -> RecordView {
        self@
    }
}

impl Clone for Record {
    fn clone(&self) -> (r: Record)
        ensures
            r@ == self@,
    {
        let turn_id = match &self.turn_id {
            Some(t) => Some(t.clone()),
            None => None,
        };
        Record {
            v: self.v,
            ts_received: self.ts_received,
            topic: self.topic.clone(),
            turn_id,
            from: self.from.clone(),
            raw_payload: self.raw_payload.copy(),
        }
    }
}

/// Why a line is no record.
#[derive(Debug, Clone, Copy, PartialEq, Eq, Structural)]
pub enum RecordError {
    /// The line is no JSON text.
    NotJson,
    /// A field is missing, given twice, of another type or not to be read.
    NotARecord,
}

/// The turn that a payload names: the text under `turn_id` in an object.
pub open spec fn turn_of(payload: Json) -> Option<Seq<char>> {
    text_member(payload, "turn_id"@)
}

/// The key under which a record is filed: its turn, or a key made of its time
/// where it has none.
pub open spec fn key_of(r: RecordView) -> Seq<char> {
    match r.turn_id {
        Some(t) => t,
        None => "untagged-"@ + decimal(r.ts_received as nat),
    }
}

/// The members of the object that holds a record, in the order in which they
/// are written.
pub open spec fn record_members(r: RecordView) -> Members {
    let head = seq![
        ("v"@, Json::UInt(r.v as u64)),
        ("ts_received"@, Json::UInt(r.ts_received)),
        ("topic"@, Json::Text(r.topic)),
    ];
    let tagged = match r.turn_id {
        Some(t) => head.push(("turn_id"@, Json::Text(t))),
        None => head,
    };
    tagged.push(("from"@, Json::Text(r.from))).push(("raw_payload"@, r.raw_payload))
}

/// The line that holds a record, without its end.
pub open spec fn record_line(r: RecordView) -> Seq<char> {
    object_text(record_members(r))
}

/// The record that a JSON value holds, if it holds one. The version may be
/// left out, the turn may be left out or null.
pub open spec fn record_of(j: Json) -> Option<RecordView> {
    if !fits(j, 6) {
        None
    } else {
        match (
            schema_version_of(field(j, "v"@, 0)),
            field(j, "ts_received"@, 1),
            field(j, "topic"@, 2),
            optional_text(field(j, "turn_id"@, 3)),
            field(j, "from"@, 4),
            field(j, "raw_payload"@, 5),
        ) {
            (
                Some(v),
                Some(Json::UInt(ts_received)),
                Some(Json::Text(topic)),
                Some(turn_id),
                Some(Json::Text(from)),
                Some(raw_payload),
            ) => Some(RecordView { v, ts_received, topic, turn_id, from, raw_payload }),
            _ => None,
        }
    }
}

/// The schema version that a field holds; the current one where it is left
/// out.
pub open spec fn schema_version_of(f: Option<Json>) -> Option<u32> {
    match f {
        None => Some(SCHEMA_VERSION),
        Some(Json::UInt(n)) => if n <= u32::MAX {
            Some(n as u32)
        } else {
            None
        },
        _ => None,
    }
}

/// The fields of a record, in the order in which they are written.
pub const RECORD_FIELDS: [&'static str; 6] = [
    "v",
    "ts_received",
    "topic",
    "turn_id",
    "from",
    "raw_payload",
];

/// What a line holds: a record, unless it is no JSON, or lacks a field, gives
/// one twice or gives one of another type.
pub open spec fn line_record(line: Seq<char>) -> Result<RecordView, RecordError> {
    match fields_of(line, names_of(RECORD_FIELDS@)) {
        Err(FieldsError::NotJson) => Err(RecordError::NotJson),
        Err(FieldsError::NotFields) => Err(RecordError::NotARecord),
        Ok(j) => match record_of(j) {
            None => Err(RecordError::NotARecord),
            Some(rec) => Ok(rec),
        },
    }
}

/// The line of a record with further members behind its own, as a later version
/// may write it.
pub open spec fn extended_line(r: RecordView, more: Members) -> Seq<char> {
    object_text(record_members(r) + more)
}

/// Whether the further members leave the record's own alone: none has the name
/// of a field, and each is written as a JSON text.
pub open spec fn extends_a_record(more: Members) -> bool {
    forall|i: int|
        0 <= i < more.len() ==> is_written((#[trigger] more[i]).1) && !names_of(
            RECORD_FIELDS@,
        ).contains(more[i].0)
}

/// The schema version of a record that does not name one.
pub fn default_schema_version() -> (r: u32)
    ensures
        r == SCHEMA_VERSION,
{
    SCHEMA_VERSION
}

/// The turn that a payload names, if it names one by a text.
pub fn extract_turn_id(payload: &Payload) -> (r: Option<String>)
    ensures
        r.deep_view() == turn_of(payload@),
{
    payload.get_text("turn_id")
}

impl Record {
    /// The record of an event, with the turn that its payload names.
    pub fn new(ts_received: u64, topic: String, from: String, raw_payload: Payload) -> (r: Record)
        ensures
            r@ == (RecordView {
                v: SCHEMA_VERSION,
                ts_received,
                topic: topic@,
                turn_id: turn_of(raw_payload@),
                from: from@,
                raw_payload: raw_payload@,
            }),
    {
        let turn_id = extract_turn_id(&raw_payload);
        Record { v: SCHEMA_VERSION, ts_received, topic, turn_id, from, raw_payload }
    }

    /// The key under which the record is filed.
    pub fn correlation_key(&self) -> (r: String)
        ensures
            r@ == key_of(self@),
    {
        match &self.turn_id {
            Some(t) => t.clone(),
            None => {
                let mut key: String = "untagged-".to_string();
                push_decimal(&mut key, self.ts_received);
                key
            },
        }
    }

    /// The line that holds the record, without its end.
    pub fn to_ndjson(&self) -> (r: Result<String, RecordError>)
        ensures
            r is Ok,
            r->Ok_0@ == record_line(self@),
    {
        let mut out: String = "{".to_string();
        proof {
            reveal_strlit("{");
            assert(out@ =~= seq!['{'] + members_text(Seq::empty()));
        }
        let ghost m0: Members = Seq::empty();
        push_member(&mut out, Ghost(m0), "v", &Payload::UInt(self.v as u64));
        let ghost m1 = m0.push(("v"@, Json::UInt(self.v as u64)));
        push_member(&mut out, Ghost(m1), "ts_received", &Payload::UInt(self.ts_received));
        let ghost m2 = m1.push(("ts_received"@, Json::UInt(self.ts_received)));
        push_member(&mut out, Ghost(m2), "topic", &Payload::Text(self.topic.clone()));
        let ghost mut m3 = m2.push(("topic"@, Json::Text(self.topic@)));
        match &self.turn_id {
            Some(t) => {
                push_member(&mut out, Ghost(m3), "turn_id", &Payload::Text(t.clone()));
                proof {
                    m3 = m3.push(("turn_id"@, Json::Text(t@)));
                }
            },
            None => {},
        }
        push_member(&mut out, Ghost(m3), "from", &Payload::Text(self.from.clone()));
        let ghost m4 = m3.push(("from"@, Json::Text(self.from@)));
        push_member(&mut out, Ghost(m4), "raw_payload", &self.raw_payload);
        let ghost m5 = m4.push(("raw_payload"@, self.raw_payload@));
        assert(m5 =~= record_members(self@));
        out.push('}');
        Ok(out)
    }

    /// The record that a JSON value holds.
    pub fn from_payload(p: &Payload) -> (r: Result<Record, RecordError>)
        ensures
            r is Ok <==> record_of(p@) is Some,
            r matches Ok(rec) ==> record_of(p@) == Some(rec@),
            r matches Err(e) ==> e == RecordError::NotARecord,
    {
        if !p.fits(6) {
            return Err(RecordError::NotARecord);
        }
        let v: u32 = match p.field("v", 0) {
            None => default_schema_version(),
            Some(Payload::UInt(n)) if *n <= u32::MAX as u64 => *n as u32,
            Some(_) => {
                return Err(RecordError::NotARecord);
            },
        };
        let ts_received: u64 = match p.field("ts_received", 1) {
            Some(Payload::UInt(n)) => *n,
            _ => {
                return Err(RecordError::NotARecord);
            },
        };
        let topic = match p.field("topic", 2) {
            Some(Payload::Text(t)) => t.clone(),
            _ => {
                return Err(RecordError::NotARecord);
            },
        };
        let turn_id = match p.text_field("turn_id", 3) {
            Some(t) => t,
            None => {
                return Err(RecordError::NotARecord);
            },
        };
        let from = match p.field("from", 4) {
            Some(Payload::Text(t)) => t.clone(),
            _ => {
                return Err(RecordError::NotARecord);
            },
        };
        let raw_payload = match p.field("raw_payload", 5) {
            Some(v) => v.copy(),
            None => {
                return Err(RecordError::NotARecord);
            },
        };
        Ok(Record { v, ts_received, topic, turn_id, from, raw_payload })
    }

    /// The record that a line holds. A line that was written for a record whose
    /// payload is kept holds that record, and so does one with further members.
    pub fn from_ndjson(line: &str) -> (r: Result<Record, RecordError>)
        ensures
            match line_record(line@) {
                Ok(rec) => r is Ok && r->Ok_0@ == rec,
                Err(e) => r == Err::<Record, RecordError>(e),
            },
            forall|rec: RecordView|
                line@ == #[trigger] record_line(rec) && is_kept(rec.raw_payload) ==> r is Ok
                    && r->Ok_0@ == rec,
            forall|rec: RecordView, more: Members|
                line@ == #[trigger] extended_line(rec, more) && is_kept(rec.raw_payload)
                    && extends_a_record(more) ==> r is Ok && r->Ok_0@ == rec,
    {
        let ghost names = names_of(RECORD_FIELDS@);
        proof {
            assert forall|rec: RecordView|
                line@ == #[trigger] record_line(rec) && is_kept(rec.raw_payload) implies line@
                == extended_line(rec, Seq::empty()) && extends_a_record(Seq::empty()) by {
                assert(record_members(rec) + Seq::<(Seq<char>, Json)>::empty() =~= record_members(
                    rec,
                ));
            }
            assert forall|rec: RecordView, more: Members|
                line@ == #[trigger] extended_line(rec, more) && is_kept(rec.raw_payload)
                    && extends_a_record(more) implies line@ == object_text(
                record_members(rec) + more,
            ) && gives_back(record_members(rec) + more, names) && record_of(
                Json::Object(named(record_members(rec) + more, names)),
            ) == Some(rec) by {
                lemma_extended_record(rec, more);
            }
        }
        match read_fields(line, RECORD_FIELDS.as_slice()) {
            Ok(p) => Record::from_payload(&p),
            Err(FieldsError::NotJson) => Err(RecordError::NotJson),
            Err(FieldsError::NotFields) => Err(RecordError::NotARecord),
        }
    }
}

proof fn lemma_record_members(r: RecordView)
    requires
        is_kept(r.raw_payload),
    ensures
        gives_back(record_members(r), names_of(RECORD_FIELDS@)),
        forall|i: int|
            0 <= i < record_members(r).len() ==> names_of(RECORD_FIELDS@).contains(
                (#[trigger] record_members(r)[i]).0,
            ),
        record_of(Json::Object(record_members(r))) == Some(r),
{
    reveal_strlit("v");
    reveal_strlit("ts_received");
    reveal_strlit("topic");
    reveal_strlit("turn_id");
    reveal_strlit("from");
    reveal_strlit("raw_payload");
    assert("v"@.len() == 1 && "topic"@.len() == 5 && "turn_id"@.len() == 7 && "from"@.len() == 4);
    assert("ts_received"@[0] == 't' && "raw_payload"@[0] == 'r');
    let names = names_of(RECORD_FIELDS@);
    assert(names[0] == "v"@ && names[1] == "ts_received"@ && names[2] == "topic"@);
    assert(names[3] == "turn_id"@ && names[4] == "from"@ && names[5] == "raw_payload"@);
    reveal_with_fuel(lookup, 7);
}

/// Members with a name of a record stay, further ones do not.
proof fn lemma_named_extended(m: Members, more: Members, names: Seq<Seq<char>>)
    requires
        forall|i: int| 0 <= i < m.len() ==> names.contains((#[trigger] m[i]).0),
        forall|i: int| 0 <= i < more.len() ==> !names.contains((#[trigger] more[i]).0),
    ensures
        named(m + more, names) == m,
    decreases m.len() + more.len(),
{
    let all = m + more;
    if more.len() > 0 {
        let shorter = more.drop_last();
        assert(all.drop_last() =~= m + shorter);
        assert(all.last() == more[more.len() - 1]);
        assert forall|i: int| 0 <= i < shorter.len() implies !names.contains(
            (#[trigger] shorter[i]).0,
        ) by {
            assert(shorter[i] == more[i]);
        }
        lemma_named_extended(m, shorter, names);
    } else if m.len() > 0 {
        let shorter = m.drop_last();
        assert(all.drop_last() =~= shorter + more);
        assert(all.last() == m[m.len() - 1]);
        assert forall|i: int| 0 <= i < shorter.len() implies names.contains(
            (#[trigger] shorter[i]).0,
        ) by {
            assert(shorter[i] == m[i]);
        }
        lemma_named_extended(shorter, more, names);
        assert(shorter.push(m.last()) =~= m);
    } else {
        assert(all =~= m);
    }
}

proof fn lemma_extended_record(r: RecordView, more: Members)
    requires
        is_kept(r.raw_payload),
        extends_a_record(more),
    ensures
        gives_back(record_members(r) + more, names_of(RECORD_FIELDS@)),
        named(record_members(r) + more, names_of(RECORD_FIELDS@)) == record_members(r),
        record_of(Json::Object(record_members(r))) == Some(r),
{
    let names = names_of(RECORD_FIELDS@);
    let m = record_members(r);
    let all = m + more;
    lemma_record_members(r);
    lemma_named_extended(m, more, names);
    assert forall|i: int| 0 <= i < all.len() implies is_written((#[trigger] all[i]).1) && (
    names.contains(all[i].0) ==> is_kept(all[i].1)) by {
        if i < m.len() {
            assert(all[i] == m[i]);
        } else {
            assert(all[i] == more[i - m.len()]);
        }
    }
    assert forall|i: int, k: int| 0 <= i < k < all.len() && names.contains(all[k].0) implies (
    #[trigger] all[i]).0 != (#[trigger] all[k]).0 by {
        if k < m.len() {
            assert(all[i] == m[i] && all[k] == m[k]);
        } else {
            assert(all[k] == more[k - m.len()]);
        }
    }
}

/// The line of a record with a valid payload is one line: no control character
/// stands in it.
pub proof fn record_line_is_one_line(r: RecordView)
    requires
        valid(r.raw_payload),
    ensures
        no_control(record_line(r)),
{
    members_text_is_one_line(record_members(r));
}

} // verus!
