//! The latest turns, and timelines with the payloads of their events.

use crate::laws::texts::sorting_is_by_key_and_stable;
use crate::order::sort_order;
use crate::payload::{json_text, Json};
use crate::record::{key_of, RecordView};
use crate::report::{
    age, all_completed, at_most, full_json, full_rows_text, full_text, has_group, is_grouping,
    last_of, newest, newest_first, row_members, status_json, the_latest_turns_are_summarised,
    with_key, LastView,
};
use crate::text::{before, before_is_total};
use crate::trace::{by_time, row_text, summary_of, timeline_of, RowView, StatusView, TimelineView};
use vstd::prelude::*;

verus! {

/// The time of the newest record is that of one of the records, and none has a
/// later one.
pub proof fn the_newest_time_is_the_latest(recs: Seq<RecordView>)
    ensures
        recs.len() == 0 ==> newest(recs) == 0,
        recs.len() > 0 ==> exists|k: int|
            0 <= k < recs.len() && (#[trigger] recs[k]).ts_received == newest(recs),
        forall|k: int| 0 <= k < recs.len() ==> (#[trigger] recs[k]).ts_received <= newest(recs),
    decreases recs.len(),
{
    if recs.len() > 0 {
        let rest = recs.drop_last();
        the_newest_time_is_the_latest(rest);
        assert forall|k: int| 0 <= k < recs.len() implies (#[trigger] recs[k]).ts_received
            <= newest(recs) by {
            if k < rest.len() {
                assert(rest[k] == recs[k]);
            }
        }
        if newest(recs) == recs.last().ts_received {
            assert(recs[recs.len() - 1].ts_received == newest(recs));
        } else {
            let k = choose|k: int|
                0 <= k < rest.len() && (#[trigger] rest[k]).ts_received == newest(rest);
            assert(recs[k].ts_received == newest(recs));
        }
    }
}

/// Whether no record of a turn is later than all of another turn's.
pub open spec fn is_as_late_as(a: Seq<RecordView>, b: Seq<RecordView>) -> bool {
    forall|j: int|
        0 <= j < b.len() ==> exists|i: int|
            0 <= i < a.len() && (#[trigger] a[i]).ts_received >= (#[trigger] b[j]).ts_received
}

proof fn lemma_as_late_as(a: Seq<RecordView>, b: Seq<RecordView>)
    requires
        a.len() > 0,
        b.len() > 0,
    ensures
        is_as_late_as(a, b) <==> newest(a) >= newest(b),
{
    the_newest_time_is_the_latest(a);
    the_newest_time_is_the_latest(b);
    let top = choose|k: int| 0 <= k < a.len() && (#[trigger] a[k]).ts_received == newest(a);
    let other = choose|k: int| 0 <= k < b.len() && (#[trigger] b[k]).ts_received == newest(b);
    if newest(a) >= newest(b) {
        assert forall|j: int| 0 <= j < b.len() implies exists|i: int|
            0 <= i < a.len() && (#[trigger] a[i]).ts_received >= (#[trigger] b[j]).ts_received by {
            assert(a[top].ts_received >= b[j].ts_received);
        }
    }
    if is_as_late_as(a, b) {
        assert(b[other].ts_received == newest(b));
        let i = choose|i: int|
            0 <= i < a.len() && (#[trigger] a[i]).ts_received >= b[other].ts_received;
        assert(a[i].ts_received <= newest(a));
    }
}

/// The records under a key are those whose key it is, in their order.
pub proof fn records_under_a_key_keep_their_order(recs: Seq<RecordView>, key: Seq<char>)
    ensures
        with_key(recs, key) == recs.filter(|rec: RecordView| key_of(rec) == key),
    decreases recs.len(),
{
    reveal(Seq::filter);
    if recs.len() > 0 {
        records_under_a_key_keep_their_order(recs.drop_last(), key);
    }
}

/// Whether a group stands under the key.
pub open spec fn is_a_key_of(groups: Seq<(Seq<char>, Seq<RecordView>)>, key: Seq<char>) -> bool {
    exists|i: int| 0 <= i < groups.len() && (#[trigger] groups[i]).0 == key
}

/// Grouped records stand under their keys: the keys ascend, the group of a key
/// has the records of that key in their order, and there is one for every
/// record and none without a record.
pub proof fn records_are_grouped_by_key(
    groups: Seq<(Seq<char>, Seq<RecordView>)>,
    recs: Seq<RecordView>,
)
    requires
        is_grouping(groups, recs),
    ensures
        forall|i: int, j: int|
            #![trigger groups[i], groups[j]]
            0 <= i < j < groups.len() ==> before(groups[i].0, groups[j].0),
        forall|i: int|
            0 <= i < groups.len() ==> (#[trigger] groups[i]).1 == recs.filter(
                |rec: RecordView| key_of(rec) == groups[i].0,
            ),
        forall|i: int| 0 <= i < groups.len() ==> (#[trigger] groups[i]).1.len() > 0,
        forall|k: int| 0 <= k < recs.len() ==> is_a_key_of(groups, key_of(#[trigger] recs[k])),
{
    assert forall|i: int| 0 <= i < groups.len() implies (#[trigger] groups[i]).1 == recs.filter(
        |rec: RecordView| key_of(rec) == groups[i].0,
    ) by {
        records_under_a_key_keep_their_order(recs, groups[i].0);
    }
    assert forall|k: int| 0 <= k < recs.len() implies is_a_key_of(
        groups,
        key_of(#[trigger] recs[k]),
    ) by {
        assert(has_group(groups, key_of(recs[k])));
    }
}

/// The turns come by their latest records: each has a record that is at least as
/// late as any of a turn behind it, and of two turns that are equally late the
/// one with the smaller key is first. Every turn is there, once.
pub proof fn turns_come_by_their_latest_records(
    groups: Seq<(Seq<char>, Seq<RecordView>)>,
    recs: Seq<RecordView>,
)
    requires
        is_grouping(groups, recs),
    ensures
        newest_first(groups).len() == groups.len(),
        forall|g: int| 0 <= g < groups.len() ==> newest_first(groups).contains(#[trigger] groups[g]),
        forall|i: int|
            0 <= i < groups.len() ==> groups.contains(#[trigger] newest_first(groups)[i]),
        forall|i: int, j: int|
            #![trigger newest_first(groups)[i], newest_first(groups)[j]]
            0 <= i < j < groups.len() ==> {
                let a = newest_first(groups)[i];
                let b = newest_first(groups)[j];
                &&& is_as_late_as(a.1, b.1)
                &&& is_as_late_as(b.1, a.1) ==> before(a.0, b.0)
                &&& a.0 != b.0
            },
{
    let keys = Seq::new(groups.len(), |i: int| age(groups[i].1));
    let order = sort_order(keys);
    let turns = newest_first(groups);
    sorting_is_by_key_and_stable(keys);
    assert forall|g: int| 0 <= g < groups.len() implies turns.contains(#[trigger] groups[g]) by {
        assert(order.contains(g));
        let i = choose|i: int| 0 <= i < order.len() && order[i] == g;
        assert(turns[i] == groups[g]);
    }
    assert forall|i: int| 0 <= i < groups.len() implies groups.contains(#[trigger] turns[i]) by {
        assert(turns[i] == groups[order[i]]);
    }
    assert forall|i: int, j: int|
        #![trigger turns[i], turns[j]]
        0 <= i < j < groups.len() implies {
        let a = turns[i];
        let b = turns[j];
        &&& is_as_late_as(a.1, b.1)
        &&& is_as_late_as(b.1, a.1) ==> before(a.0, b.0)
        &&& a.0 != b.0
    } by {
        let x = order[i];
        let y = order[j];
        assert(turns[i] == groups[x] && turns[j] == groups[y]);
        assert(keys[x] < keys[y] || (keys[x] == keys[y] && x < y));
        lemma_as_late_as(groups[x].1, groups[y].1);
        lemma_as_late_as(groups[y].1, groups[x].1);
        if x < y {
            assert(before(groups[x].0, groups[y].0));
        } else {
            assert(before(groups[y].0, groups[x].0));
        }
        before_is_total(groups[x].0, groups[y].0);
    }
}

/// The latest turn is that of a record than which none is later.
pub proof fn the_latest_record_is_of_the_latest_turn(
    groups: Seq<(Seq<char>, Seq<RecordView>)>,
    recs: Seq<RecordView>,
)
    requires
        is_grouping(groups, recs),
        recs.len() > 0,
    ensures
        groups.len() > 0,
        exists|k: int|
            0 <= k < recs.len() && key_of(#[trigger] recs[k]) == newest_first(groups)[0].0 && (
            forall|j: int|
                0 <= j < recs.len() ==> (#[trigger] recs[j]).ts_received <= recs[k].ts_received),
{
    let turns = newest_first(groups);
    records_are_grouped_by_key(groups, recs);
    turns_come_by_their_latest_records(groups, recs);
    assert(is_a_key_of(groups, key_of(recs[0])));
    let (key, members) = turns[0];
    assert(groups.contains(turns[0]));
    let g = choose|g: int| 0 <= g < groups.len() && groups[g] == turns[0];
    assert(members == with_key(recs, key) && members.len() > 0);
    the_newest_time_is_the_latest(members);
    let m = choose|k: int|
        0 <= k < members.len() && (#[trigger] members[k]).ts_received == newest(members);
    let k = lemma_of_a_group(recs, key, m);
    assert(recs[k] == members[m]);
    assert forall|j: int| 0 <= j < recs.len() implies (#[trigger] recs[j]).ts_received
        <= recs[k].ts_received by {
        assert(has_group(groups, key_of(recs[j])));
        let h = choose|h: int| 0 <= h < groups.len() && (#[trigger] groups[h]).0 == key_of(recs[j]);
        assert(turns.contains(groups[h]));
        let i = choose|i: int| 0 <= i < turns.len() && turns[i] == groups[h];
        let there = lemma_in_its_group(recs, j);
        let others = groups[h].1;
        assert(others[there] == recs[j]);
        the_newest_time_is_the_latest(others);
        assert(others[there].ts_received <= newest(others));
        if i > 0 {
            assert(is_as_late_as(turns[0].1, turns[i].1));
            lemma_as_late_as(members, others);
        }
    }
}

/// A record under a key is one of the records, with that key.
proof fn lemma_of_a_group(recs: Seq<RecordView>, key: Seq<char>, m: int) -> (k: int)
    requires
        0 <= m < with_key(recs, key).len(),
    ensures
        0 <= k < recs.len(),
        recs[k] == with_key(recs, key)[m],
        key_of(recs[k]) == key,
    decreases recs.len(),
{
    if m < with_key(recs.drop_last(), key).len() {
        lemma_of_a_group(recs.drop_last(), key, m)
    } else {
        recs.len() - 1
    }
}

/// A record is among those under its key.
proof fn lemma_in_its_group(recs: Seq<RecordView>, j: int) -> (m: int)
    requires
        0 <= j < recs.len(),
    ensures
        0 <= m < with_key(recs, key_of(recs[j])).len(),
        with_key(recs, key_of(recs[j]))[m] == recs[j],
    decreases recs.len(),
{
    let rest = recs.drop_last();
    if j < rest.len() {
        assert(rest[j] == recs[j]);
        lemma_in_its_group(rest, j)
    } else {
        with_key(rest, key_of(recs[j])).len() as int
    }
}

/// Of no records nothing is shown. Of one turn the timeline of the latest is
/// shown, from the records under its key; of any other number as many summaries
/// as asked for or, where there are fewer turns, as there are turns, in the order
/// of the turns.
pub proof fn the_latest_turns_are_shown(
    groups: Seq<(Seq<char>, Seq<RecordView>)>,
    recs: Seq<RecordView>,
    n: nat,
)
    requires
        is_grouping(groups, recs),
    ensures
        last_of(groups, n) is NoRecords <==> recs.len() == 0,
        recs.len() > 0 && n == 1 ==> {
            let key = newest_first(groups)[0].0;
            last_of(groups, n) == LastView::Timeline(
                timeline_of(key, recs.filter(|rec: RecordView| key_of(rec) == key)),
            )
        },
        recs.len() > 0 && n != 1 ==> {
            &&& last_of(groups, n) is Summaries
            &&& last_of(groups, n)->Summaries_0.len() == (if n < groups.len() {
                n
            } else {
                groups.len()
            })
            &&& forall|i: int|
                0 <= i < last_of(groups, n)->Summaries_0.len() ==> {
                    let key = newest_first(groups)[i].0;
                    #[trigger] last_of(groups, n)->Summaries_0[i] == summary_of(
                        timeline_of(key, recs.filter(|rec: RecordView| key_of(rec) == key)),
                    )
                }
        },
{
    let all = newest_first(groups);
    let turns = at_most(all, n);
    turns_come_by_their_latest_records(groups, recs);
    if recs.len() > 0 {
        assert(has_group(groups, key_of(recs[0])));
        the_latest_turns_are_summarised(groups, recs, n);
        assert forall|i: int| 0 <= i < turns.len() implies (#[trigger] turns[i]) == all[i]
            && turns[i].1 == recs.filter(|rec: RecordView| key_of(rec) == all[i].0) by {
            assert(turns[i] == all[i]);
            assert(groups.contains(all[i]));
            let g = choose|g: int| 0 <= g < groups.len() && groups[g] == all[i];
            assert(groups[g].1 == with_key(recs, groups[g].0));
            records_under_a_key_keep_their_order(recs, all[i].0);
        }
        if n == 1 {
            assert(turns[0] == all[0]);
        }
    } else if groups.len() > 0 {
        assert(groups[0].1 == with_key(recs, groups[0].0));
    }
}

/// A report is of completed turns where each turn that it shows is completed.
pub proof fn one_turn_that_failed_counts(t: TimelineView, turns: Seq<crate::trace::SummaryView>)
    ensures
        all_completed(LastView::NoRecords),
        all_completed(LastView::Timeline(t)) <==> t.status is Completed,
        !all_completed(LastView::Summaries(turns)) <==> exists|i: int|
            0 <= i < turns.len() && ((#[trigger] turns[i]).status is Stalled || turns[i].status
                is Failed),
{
    if !all_completed(LastView::Summaries(turns)) {
        let i = choose|i: int|
            0 <= i < turns.len() && !((#[trigger] turns[i]).status is Completed);
        assert(turns[i].status is Stalled || turns[i].status is Failed);
    }
}

/// A timeline with payloads begins like any other, with the turn and what was
/// said. Each row has the payload of its record below, the records by time. The
/// last line says how the turn ended.
pub proof fn payloads_are_shown_below_their_rows(
    turn_id: Seq<char>,
    recs: Seq<RecordView>,
    t: TimelineView,
    n: int,
)
    requires
        0 <= n,
    ensures
        ({
            let rows = full_rows_text(t.rows, by_time(recs), t.rows.len() as int);
            let head = "turn "@ + turn_id + "   \""@ + (match t.utterance {
                Some(said) => said,
                None => "(unknown)"@,
            }) + "\"\n"@;
            &&& t.status matches StatusView::Stalled { last_topic, expected_next: Some(next) }
                ==> full_text(turn_id, recs, t) == head + rows + ("  ✗ stalled after "@ + last_topic
                + " — no "@ + next + "\n"@)
            &&& t.status matches StatusView::Stalled { last_topic, expected_next: None }
                ==> full_text(turn_id, recs, t) == head + rows + ("  ✗ stalled after "@ + last_topic
                + " — no "@ + "(unknown)"@ + "\n"@)
            &&& !(t.status is Stalled) ==> full_text(turn_id, recs, t) == head + rows
                + crate::trace::footer_text(t.status)
        }),
        full_rows_text(t.rows, by_time(recs), 0).len() == 0,
        n < recs.len() ==> full_rows_text(t.rows, by_time(recs), n + 1) == full_rows_text(
            t.rows,
            by_time(recs),
            n,
        ) + row_text(t.rows[n]) + ("             payload: "@ + json_text(
            by_time(recs)[n].raw_payload,
        ) + "\n"@),
        n >= recs.len() ==> full_rows_text(t.rows, by_time(recs), n + 1) == full_rows_text(
            t.rows,
            by_time(recs),
            n,
        ) + row_text(t.rows[n]),
{
    let _order = crate::laws::turns::records_are_taken_by_time(recs);
    reveal_strlit("");
    let shorter = full_rows_text(t.rows, by_time(recs), n) + row_text(t.rows[n]);
    assert(shorter + ""@ =~= shorter);
}

/// The JSON of a timeline has its rows, how the turn ended, the time of the first
/// record, the turn and what was said.
pub proof fn a_timeline_is_written_as_json(
    turn_id: Seq<char>,
    recs: Seq<RecordView>,
    t: TimelineView,
    i: int,
)
    ensures
        full_json(turn_id, recs, t) is Object,
        ({
            let m = full_json(turn_id, recs, t)->Object_0;
            &&& m.len() == 5
            &&& m[0].0 == "rows"@
            &&& m[0].1 is Array
            &&& m[0].1->Array_0.len() == t.rows.len()
            &&& m[1] == ("status"@, status_json(t.status))
            &&& m[2].0 == "t0_ms"@
            &&& recs.len() > 0 ==> m[2].1 == Json::UInt(by_time(recs)[0].ts_received)
            &&& recs.len() == 0 ==> m[2].1 == Json::UInt(0)
            &&& m[3] == ("turn_id"@, Json::Text(turn_id))
            &&& m[4].0 == "utterance"@
            &&& t.utterance is Some ==> m[4].1 == Json::Text(t.utterance->0)
            &&& t.utterance is None ==> m[4].1 == Json::Null
            &&& 0 <= i < t.rows.len() && i < recs.len() ==> m[0].1->Array_0[i] == Json::Object(
                row_members(t.rows[i], Some(by_time(recs)[i].raw_payload)),
            )
            &&& recs.len() <= i < t.rows.len() ==> m[0].1->Array_0[i] == Json::Object(
                row_members(t.rows[i], None),
            )
        }),
{
    let _order = crate::laws::turns::records_are_taken_by_time(recs);
}

/// The JSON of a row has its offset and its topic and, where there are such, what
/// is of note, the payload and the time that a stage took, by name.
pub proof fn a_row_is_written_as_json(row: RowView, payload: Option<Json>)
    ensures
        ({
            let m = row_members(row, payload);
            let a = if row.annotation is Some {
                1int
            } else {
                0
            };
            let p = if payload is Some {
                1int
            } else {
                0
            };
            let d = if row.stage_duration_ms is Some {
                1int
            } else {
                0
            };
            &&& m.len() == a + p + d + 2
            &&& row.annotation is Some ==> m[0] == ("annotation"@, Json::Text(row.annotation->0))
            &&& m[a] == ("offset_ms"@, Json::UInt(row.offset_ms))
            &&& payload is Some ==> m[a + 1] == ("raw_payload"@, payload->0)
            &&& row.stage_duration_ms is Some ==> m[a + p + 1] == (
                "stage_duration_ms"@,
                Json::UInt(row.stage_duration_ms->0),
            )
            &&& m[a + p + d + 1] == ("topic"@, Json::Text(row.topic))
        }),
{
}

/// The JSON of how a turn ended is named by the way, and has what is known of it.
pub proof fn a_status_is_written_as_json(status: StatusView)
    ensures
        status_json(status) is Object,
        ({
            let m = status_json(status)->Object_0;
            &&& m.len() == 1
            &&& m[0].1 is Object
            &&& status matches StatusView::Completed { total_ms } ==> m[0].0 == "Completed"@
                && m[0].1->Object_0 == seq![("total_ms"@, Json::UInt(total_ms))]
            &&& status matches StatusView::Stalled { last_topic, expected_next } ==> m[0].0
                == "Stalled"@ && m[0].1->Object_0 == seq![
                (
                    "expected_next"@,
                    match expected_next {
                        Some(next) => Json::Text(next),
                        None => Json::Null,
                    },
                ),
                ("last_topic"@, Json::Text(last_topic)),
            ]
            &&& status matches StatusView::Failed { failure_topic, last_good_topic } ==> m[0].0
                == "Failed"@ && m[0].1->Object_0 == seq![
                ("failure_topic"@, Json::Text(failure_topic)),
                (
                    "last_good_topic"@,
                    match last_good_topic {
                        Some(topic) => Json::Text(topic),
                        None => Json::Null,
                    },
                ),
            ]
        }),
{
}

} // verus!
