//! Records, the lines that hold them, and the entries of the sidecar.

use crate::fields::{fields_of, names_of};
use crate::index::{entry_line, entry_members, entry_of, line_entry, EntryView, INDEX_FIELDS};
use crate::laws::payloads::{given_at, members_are_given_by_key, not_given};
use crate::payload::{json_text, members_text, object_text, quoted, well_formed, Json, Members};
use crate::record::{
    key_of, line_record, record_line, record_members, record_of, turn_of, RecordError, RecordView,
    RECORD_FIELDS,
};
use crate::text::{decimal, unsigned_reads_decimal};
use vstd::prelude::*;

verus! {

/// A payload names its turn by a text under `turn_id`. One that has something
/// else there, or nothing, or is no object, names none.
pub proof fn payloads_name_their_turn(m: Members, i: int, j: Json)
    ensures
        given_at(m, "turn_id"@, i) ==> turn_of(Json::Object(m)) == (match m[i].1 {
            Json::Text(t) => Some(t),
            _ => None,
        }),
        not_given(m, "turn_id"@) ==> turn_of(Json::Object(m)) is None,
        !(j is Object) ==> turn_of(j) is None,
{
    members_are_given_by_key(m, "turn_id"@, i);
}

/// A record with a turn is filed under that turn. One without is filed under a
/// key of its own, made of the time at which it was received: it is not dropped,
/// and shares the key only with what was received at the same time.
pub proof fn records_are_filed_by_turn(r: RecordView, q: RecordView, t: Seq<char>)
    ensures
        r.turn_id == Some(t) ==> key_of(r) == t,
        r.turn_id is None ==> key_of(r) == "untagged-"@ + decimal(r.ts_received as nat),
        r.turn_id is None && q.turn_id is None ==> (key_of(r) == key_of(q) <==> r.ts_received
            == q.ts_received),
{
    if r.turn_id is None && q.turn_id is None && key_of(r) == key_of(q) {
        reveal_strlit("untagged-");
        let a = key_of(r);
        let b = key_of(q);
        assert(a.subrange(9, a.len() as int) =~= decimal(r.ts_received as nat));
        assert(b.subrange(9, b.len() as int) =~= decimal(q.ts_received as nat));
        unsigned_reads_decimal(r.ts_received);
        unsigned_reads_decimal(q.ts_received);
    }
}

/// A record is one JSON object with the fields `v`, `ts_received`, `topic`,
/// `turn_id` where it has one, `from` and `raw_payload`, in this order and each
/// with what the record holds.
pub proof fn a_record_is_written_with_its_fields(r: RecordView)
    ensures
        record_line(r) == "{"@ + quoted("v"@) + ":"@ + decimal(r.v as nat) + ","@ + quoted(
            "ts_received"@,
        ) + ":"@ + decimal(r.ts_received as nat) + ","@ + quoted("topic"@) + ":"@ + quoted(r.topic)
            + (match r.turn_id {
            Some(t) => ","@ + quoted("turn_id"@) + ":"@ + quoted(t),
            None => ""@,
        }) + ","@ + quoted("from"@) + ":"@ + quoted(r.from) + ","@ + quoted("raw_payload"@) + ":"@
            + json_text(r.raw_payload) + "}"@,
{
    reveal_strlit("");
    let m1: Members = seq![("v"@, Json::UInt(r.v as u64))];
    let m2 = m1.push(("ts_received"@, Json::UInt(r.ts_received)));
    let m3 = m2.push(("topic"@, Json::Text(r.topic)));
    let m4 = match r.turn_id {
        Some(t) => m3.push(("turn_id"@, Json::Text(t))),
        None => m3,
    };
    let m5 = m4.push(("from"@, Json::Text(r.from)));
    let m6 = m5.push(("raw_payload"@, r.raw_payload));
    assert(record_members(r) =~= m6);
    lemma_first_member("v"@, Json::UInt(r.v as u64));
    lemma_members_grow(m1, "ts_received"@, Json::UInt(r.ts_received));
    lemma_members_grow(m2, "topic"@, Json::Text(r.topic));
    let t3 = written(m3);
    match r.turn_id {
        Some(t) => {
            lemma_members_grow(m3, "turn_id"@, Json::Text(t));
            assert(written(m4) =~= t3 + (","@ + quoted("turn_id"@) + ":"@ + quoted(t)));
        },
        None => {
            assert(written(m4) =~= t3 + ""@);
        },
    }
    lemma_members_grow(m4, "from"@, Json::Text(r.from));
    lemma_members_grow(m5, "raw_payload"@, r.raw_payload);
    lemma_closed(m6);
}

/// The text of an object as far as its members go.
spec fn written(m: Members) -> Seq<char> {
    "{"@ + members_text(m)
}

proof fn lemma_first_member(key: Seq<char>, j: Json)
    ensures
        written(seq![(key, j)]) == "{"@ + quoted(key) + ":"@ + json_text(j),
{
    reveal_strlit(":");
    assert(":"@ =~= seq![':']);
    let m: Members = seq![(key, j)];
    assert(members_text(m) == quoted(m[0].0) + seq![':'] + json_text(m[0].1));
    assert(written(m) =~= "{"@ + quoted(key) + ":"@ + json_text(j));
}

proof fn lemma_closed(m: Members)
    ensures
        object_text(m) == written(m) + "}"@,
{
    reveal_strlit("{");
    reveal_strlit("}");
    assert(object_text(m) =~= written(m) + "}"@);
}

proof fn lemma_members_grow(m: Members, key: Seq<char>, j: Json)
    requires
        m.len() > 0,
    ensures
        written(m.push((key, j))) == written(m) + ","@ + quoted(key) + ":"@ + json_text(j),
{
    reveal_strlit(":");
    reveal_strlit(",");
    assert(","@ =~= seq![',']);
    assert(":"@ =~= seq![':']);
    let more = m.push((key, j));
    assert(more.drop_last() =~= m);
    assert(members_text(more) == members_text(m) + seq![','] + (quoted(key) + seq![':']
        + json_text(j)));
    assert(written(more) =~= written(m) + ","@ + quoted(key) + ":"@ + json_text(j));
}

/// An object gives a record where its fields have their types: `ts_received` a
/// number, `topic` and `from` texts and `raw_payload` anything. The version is 1
/// where it is left out, the turn none where it is left out or null.
pub proof fn a_record_is_read_from_its_fields(m: Members, a: int, b: int, c: int, d: int, e: int, f: int)
    requires
        given_at(m, "v"@, a) || not_given(m, "v"@),
        given_at(m, "turn_id"@, d) || not_given(m, "turn_id"@),
        given_at(m, "ts_received"@, b),
        given_at(m, "topic"@, c),
        given_at(m, "from"@, e),
        given_at(m, "raw_payload"@, f),
    ensures
        record_of(Json::Object(m)) is Some <==> {
            &&& given_at(m, "v"@, a) ==> (m[a].1 matches Json::UInt(n) && n <= 0xffff_ffff)
            &&& given_at(m, "turn_id"@, d) ==> m[d].1 is Text || m[d].1 is Null
            &&& m[b].1 is UInt
            &&& m[c].1 is Text
            &&& m[e].1 is Text
        },
        record_of(Json::Object(m)) matches Some(r) ==> {
            &&& r.v == (if given_at(m, "v"@, a) {
                m[a].1->UInt_0 as int
            } else {
                1
            })
            &&& m[b].1 == Json::UInt(r.ts_received)
            &&& m[c].1 == Json::Text(r.topic)
            &&& m[e].1 == Json::Text(r.from)
            &&& m[f].1 == r.raw_payload
            &&& r.turn_id == (if given_at(m, "turn_id"@, d) && m[d].1 is Text {
                Some(m[d].1->Text_0)
            } else {
                None
            })
        },
{
    members_are_given_by_key(m, "v"@, a);
    members_are_given_by_key(m, "ts_received"@, b);
    members_are_given_by_key(m, "topic"@, c);
    members_are_given_by_key(m, "turn_id"@, d);
    members_are_given_by_key(m, "from"@, e);
    members_are_given_by_key(m, "raw_payload"@, f);
}

/// A record lacks nothing but what has a default.
pub proof fn a_record_needs_its_fields(m: Members)
    requires
        not_given(m, "ts_received"@) || not_given(m, "topic"@) || not_given(m, "from"@)
            || not_given(m, "raw_payload"@),
    ensures
        record_of(Json::Object(m)) is None,
{
    members_are_given_by_key(m, "ts_received"@, -1);
    members_are_given_by_key(m, "topic"@, -1);
    members_are_given_by_key(m, "from"@, -1);
    members_are_given_by_key(m, "raw_payload"@, -1);
}

/// An entry of the sidecar is one JSON object with the key of a record, its
/// segment and its line.
pub proof fn an_entry_is_written_with_its_fields(e: EntryView)
    ensures
        entry_line(e) == "{"@ + quoted("key"@) + ":"@ + quoted(e.key) + ","@ + quoted("segment"@)
            + ":"@ + decimal(e.segment as nat) + ","@ + quoted("line"@) + ":"@ + decimal(
            e.line as nat,
        ) + "}"@,
{
    let m1: Members = seq![("key"@, Json::Text(e.key))];
    let m2 = m1.push(("segment"@, Json::UInt(e.segment)));
    let m3 = m2.push(("line"@, Json::UInt(e.line)));
    assert(entry_members(e) =~= m3);
    lemma_first_member("key"@, Json::Text(e.key));
    lemma_members_grow(m1, "segment"@, Json::UInt(e.segment));
    lemma_members_grow(m2, "line"@, Json::UInt(e.line));
    lemma_closed(m3);
}

/// An entry is read where the key is a text and the segment and the line are
/// numbers.
pub proof fn an_entry_is_read_from_its_fields(m: Members, a: int, b: int, c: int)
    requires
        given_at(m, "key"@, a),
        given_at(m, "segment"@, b),
        given_at(m, "line"@, c),
    ensures
        entry_of(Json::Object(m)) is Some <==> m[a].1 is Text && m[b].1 is UInt && m[c].1 is UInt,
        entry_of(Json::Object(m)) matches Some(e) ==> m[a].1 == Json::Text(e.key) && m[b].1
            == Json::UInt(e.segment) && m[c].1 == Json::UInt(e.line),
{
    members_are_given_by_key(m, "key"@, a);
    members_are_given_by_key(m, "segment"@, b);
    members_are_given_by_key(m, "line"@, c);
}

/// From an array a record is read by the places of its items, all six of them.
pub proof fn a_record_is_read_from_its_places(items: Seq<Json>)
    ensures
        items.len() != 6 ==> record_of(Json::Array(items)) is None,
        items.len() == 6 ==> (record_of(Json::Array(items)) is Some <==> {
            &&& items[0] is UInt && items[0]->UInt_0 <= 0xffff_ffff
            &&& items[1] is UInt
            &&& items[2] is Text
            &&& items[3] is Text || items[3] is Null
            &&& items[4] is Text
        }),
        record_of(Json::Array(items)) matches Some(r) ==> {
            &&& items[0]->UInt_0 == r.v
            &&& items[1] == Json::UInt(r.ts_received)
            &&& items[2] == Json::Text(r.topic)
            &&& items[3] is Text ==> r.turn_id == Some(items[3]->Text_0)
            &&& items[3] is Null ==> r.turn_id is None
            &&& items[4] == Json::Text(r.from)
            &&& items[5] == r.raw_payload
        },
{
}

/// No other value is a record, or an entry.
pub proof fn only_objects_and_arrays_are_read(j: Json, items: Seq<Json>)
    requires
        !(j is Object) && !(j is Array),
    ensures
        record_of(j) is None,
        entry_of(j) is None,
        items.len() != 3 ==> entry_of(Json::Array(items)) is None,
        items.len() == 3 ==> (entry_of(Json::Array(items)) is Some <==> items[0] is Text && items[1]
            is UInt && items[2] is UInt),
        entry_of(Json::Array(items)) matches Some(e) ==> items[0] == Json::Text(e.key) && items[1]
            == Json::UInt(e.segment) && items[2] == Json::UInt(e.line),
{
}

/// An entry lacks nothing.
pub proof fn an_entry_needs_its_fields(m: Members)
    requires
        not_given(m, "key"@) || not_given(m, "segment"@) || not_given(m, "line"@),
    ensures
        entry_of(Json::Object(m)) is None,
{
    members_are_given_by_key(m, "key"@, -1);
    members_are_given_by_key(m, "segment"@, -1);
    members_are_given_by_key(m, "line"@, -1);
}

/// A line is no record for one of two reasons: it is no JSON at all, or its fields
/// are not those of a record. Otherwise it holds what its fields give, those by
/// the six names of a record.
pub proof fn lines_are_read_by_their_fields(line: Seq<char>)
    ensures
        ({
            let names = seq!["v"@, "ts_received"@, "topic"@, "turn_id"@, "from"@, "raw_payload"@];
            &&& !well_formed(line) <==> line_record(line) == Err::<RecordView, RecordError>(
                RecordError::NotJson,
            )
            &&& well_formed(line) && line_record(line) is Err ==> line_record(line)->Err_0
                == RecordError::NotARecord
            &&& line_record(line) is Ok <==> fields_of(line, names) is Ok && record_of(
                fields_of(line, names)->Ok_0,
            ) is Some
            &&& line_record(line) is Ok ==> record_of(fields_of(line, names)->Ok_0) == Some(
                line_record(line)->Ok_0,
            )
        }),
        ({
            let names = seq!["key"@, "segment"@, "line"@];
            &&& line_entry(line) is Some <==> fields_of(line, names) is Ok && entry_of(
                fields_of(line, names)->Ok_0,
            ) is Some
            &&& line_entry(line) is Some ==> entry_of(fields_of(line, names)->Ok_0) == line_entry(
                line,
            )
        }),
{
    assert(names_of(RECORD_FIELDS@) =~= seq![
        "v"@,
        "ts_received"@,
        "topic"@,
        "turn_id"@,
        "from"@,
        "raw_payload"@,
    ]);
    assert(names_of(INDEX_FIELDS@) =~= seq!["key"@, "segment"@, "line"@]);
}

} // verus!
