//! What the commands print: the latest turns, and timelines with the payloads of
//! their events.

use crate::order::{
    comes_first, pick, positions, sort_order, sort_order_is_sorted, sorted_order,
};
use crate::payload::{json_text, Json, Members, Payload};
use crate::record::{key_of, Record, RecordView};
use crate::text::{before, before_is_total, before_is_transitive, same, stands_before};
use crate::trace::{
    by_time, carries, every_turn_is_summarised, footer_text, header_text, or_else, push_footer,
    push_header, push_row, row_text, sorted_records, summaries_of, summarise_turns, summary_of,
    text_or, timeline_of, trace_turn, RowView, StatusView, SummaryView, TimelineRow, TimelineView,
    TurnStatus, TurnSummary, TurnTimeline,
};
use vstd::prelude::*;

verus! {

// ── Records by key ─────────────────────────────────────────────────────────

/// The records that are filed under a key, in their order.
pub open spec fn with_key(recs: Seq<RecordView>, key: Seq<char>) -> Seq<RecordView>
    decreases recs.len(),
{
    if recs.len() == 0 {
        Seq::empty()
    } else {
        let rest = with_key(recs.drop_last(), key);
        if key_of(recs.last()) == key {
            rest.push(recs.last())
        } else {
            rest
        }
    }
}

/// Whether there is a group for the key.
pub open spec fn has_group(groups: Seq<(Seq<char>, Seq<RecordView>)>, key: Seq<char>) -> bool {
    exists|i: int| 0 <= i < groups.len() && (#[trigger] groups[i]).0 == key
}

/// Whether the groups are the records by key: the keys ascend, each group has
/// the records of its key, at least one, and every record has a group.
pub open spec fn is_grouping(
    groups: Seq<(Seq<char>, Seq<RecordView>)>,
    recs: Seq<RecordView>,
) -> bool {
    &&& forall|i: int, j: int|
        0 <= i < j < groups.len() ==> before((#[trigger] groups[i]).0, (#[trigger] groups[j]).0)
    &&& forall|i: int|
        0 <= i < groups.len() ==> (#[trigger] groups[i]).1 == with_key(recs, groups[i].0)
    &&& forall|i: int| 0 <= i < groups.len() ==> (#[trigger] groups[i]).1.len() > 0
    &&& forall|k: int| 0 <= k < recs.len() ==> has_group(groups, key_of(#[trigger] recs[k]))
}

proof fn lemma_with_key_grows(recs: Seq<RecordView>, rec: RecordView, key: Seq<char>)
    ensures
        with_key(recs.push(rec), key) == (if key_of(rec) == key {
            with_key(recs, key).push(rec)
        } else {
            with_key(recs, key)
        }),
{
    assert(recs.push(rec).drop_last() =~= recs);
}

proof fn lemma_no_records(recs: Seq<RecordView>, key: Seq<char>)
    requires
        forall|k: int| 0 <= k < recs.len() ==> key_of(#[trigger] recs[k]) != key,
    ensures
        with_key(recs, key).len() == 0,
    decreases recs.len(),
{
    if recs.len() > 0 {
        let rest = recs.drop_last();
        assert(key_of(recs[recs.len() - 1]) != key);
        assert forall|k: int| 0 <= k < rest.len() implies key_of(#[trigger] rest[k]) != key by {
            assert(rest[k] == recs[k]);
        }
        lemma_no_records(rest, key);
    }
}

/// Whether the groups now are those before with one more, or with another under
/// the same key, at `p`.
spec fn is_refiled(
    was: Seq<(Seq<char>, Seq<RecordView>)>,
    now: Seq<(Seq<char>, Seq<RecordView>)>,
    p: int,
) -> bool {
    &&& 0 <= p < now.len()
    &&& ({
        ||| now.len() == was.len() && now == was.update(p, now[p]) && was[p].0 == now[p].0
        ||| p <= was.len() && now == was.insert(p, now[p])
    })
}

proof fn lemma_groups_cover(
    was: Seq<(Seq<char>, Seq<RecordView>)>,
    now: Seq<(Seq<char>, Seq<RecordView>)>,
    recs: Seq<RecordView>,
    v: RecordView,
    p: int,
)
    requires
        forall|k: int| 0 <= k < recs.len() ==> has_group(was, key_of(#[trigger] recs[k])),
        is_refiled(was, now, p),
        now[p].0 == key_of(v),
    ensures
        forall|k: int|
            0 <= k < recs.push(v).len() ==> has_group(now, key_of(#[trigger] recs.push(v)[k])),
{
    assert forall|k: int| 0 <= k < recs.push(v).len() implies has_group(
        now,
        key_of(#[trigger] recs.push(v)[k]),
    ) by {
        if k == recs.len() {
            assert(now[p].0 == key_of(v));
        } else {
            let key = key_of(recs[k]);
            assert(has_group(was, key));
            let j = choose|j: int| 0 <= j < was.len() && (#[trigger] was[j]).0 == key;
            if now.len() == was.len() {
                assert(now[j].0 == key);
            } else if j < p {
                assert(now[j] == was[j]);
            } else {
                assert(now[j + 1] == was[j]);
            }
        }
    }
}

fn file_record(groups: &mut Vec<(String, Vec<Record>)>, rec: Record, Ghost(recs): Ghost<
    Seq<RecordView>,
>)
    requires
        is_grouping(old(groups).deep_view(), recs),
    ensures
        is_grouping(final(groups).deep_view(), recs.push(rec@)),
{
    let key = rec.correlation_key();
    let ghost k = key@;
    let ghost v = rec@;
    let ghost was = groups.deep_view();
    let mut p: usize = 0;
    while p < groups.len() && stands_before(groups[p].0.as_str(), key.as_str())
        invariant
            p <= groups@.len(),
            was == groups.deep_view(),
            key@ == k,
            forall|j: int| 0 <= j < p ==> before((#[trigger] was[j]).0, k),
        decreases groups@.len() - p,
    {
        assert(was[p as int].0 == groups@[p as int].0@);
        p += 1;
    }
    proof {
        if p < was.len() {
            assert(was[p as int].0 == groups@[p as int].0@);
            before_is_total(was[p as int].0, k);
        }
        assert forall|j: int| p < j < was.len() implies before(k, (#[trigger] was[j]).0) by {
            assert(before(was[p as int].0, was[j].0));
            if was[p as int].0 != k {
                before_is_transitive(k, was[p as int].0, was[j].0);
            }
        }
        assert forall|j: int| 0 <= j < was.len() && j != p implies (#[trigger] was[j]).0 != k by {
            before_is_total(was[j].0, k);
            before_is_total(k, was[j].0);
        }
        assert forall|x: Seq<char>| #[trigger] with_key(recs.push(v), x) == (if k == x {
            with_key(recs, x).push(v)
        } else {
            with_key(recs, x)
        }) by {
            lemma_with_key_grows(recs, v, x);
        }
    }
    if p < groups.len() && same(groups[p].0.as_str(), key.as_str()) {
        let (found, mut members) = groups.remove(p);
        let ghost old_members = members.deep_view();
        members.push(rec);
        assert(members.deep_view() =~= old_members.push(v));
        groups.insert(p, (found, members));
        let ghost now = groups.deep_view();
        proof {
            assert(now =~= was.update(p as int, (k, was[p as int].1.push(v))));
            lemma_groups_cover(was, now, recs, v, p as int);
        }
    } else {
        proof {
            assert forall|x: int| 0 <= x < recs.len() implies key_of(#[trigger] recs[x]) != k by {
                assert(has_group(was, key_of(recs[x])));
            }
            lemma_no_records(recs, k);
        }
        let mut members: Vec<Record> = Vec::new();
        members.push(rec);
        assert(members.deep_view() =~= seq![v]);
        groups.insert(p, (key, members));
        let ghost now = groups.deep_view();
        proof {
            assert(now =~= was.insert(p as int, (k, seq![v])));
            assert(with_key(recs, k).push(v) =~= seq![v]);
            assert forall|i: int, j: int| 0 <= i < j < now.len() implies before(
                (#[trigger] now[i]).0,
                (#[trigger] now[j]).0,
            ) by {
                if i < p && j < p {
                    assert(now[i] == was[i] && now[j] == was[j]);
                } else if i < p && j == p {
                    assert(now[i] == was[i]);
                } else if i < p {
                    assert(now[i] == was[i] && now[j] == was[j - 1]);
                } else if i == p {
                    assert(now[j] == was[j - 1]);
                } else {
                    assert(now[i] == was[i - 1] && now[j] == was[j - 1]);
                }
            }
            assert forall|i: int| 0 <= i < now.len() implies (#[trigger] now[i]).1 == with_key(
                recs.push(v),
                now[i].0,
            ) && now[i].1.len() > 0 by {
                if i < p {
                    assert(now[i] == was[i]);
                } else if i > p {
                    assert(now[i] == was[i - 1]);
                }
            }
            lemma_groups_cover(was, now, recs, v, p as int);
        }
    }
}

/// The records by key, in the order of the keys.
pub fn group_by_key(records: &[Record]) -> (r: Vec<(String, Vec<Record>)>)
    ensures
        is_grouping(r.deep_view(), records.deep_view()),
{
    let ghost recs = records.deep_view();
    let mut groups: Vec<(String, Vec<Record>)> = Vec::new();
    let mut i: usize = 0;
    assert(groups.deep_view() =~= Seq::empty());
    while i < records.len()
        invariant
            i <= records@.len(),
            recs == records.deep_view(),
            is_grouping(groups.deep_view(), recs.subrange(0, i as int)),
        decreases records@.len() - i,
    {
        assert(recs[i as int] == records@[i as int]@);
        file_record(&mut groups, records[i].clone(), Ghost(recs.subrange(0, i as int)));
        assert(recs.subrange(0, i + 1) =~= recs.subrange(0, i as int).push(recs[i as int]));
        i += 1;
    }
    assert(recs.subrange(0, i as int) =~= recs);
    groups
}

// ── The latest turns ───────────────────────────────────────────────────────

/// The time of the newest record, or 0 where there is none.
pub open spec fn newest(recs: Seq<RecordView>) -> u64
    decreases recs.len(),
{
    if recs.len() == 0 {
        0
    } else if recs.last().ts_received > newest(recs.drop_last()) {
        recs.last().ts_received
    } else {
        newest(recs.drop_last())
    }
}

/// What is left of the range of times above that of the newest record: the
/// smaller, the newer.
pub open spec fn age(recs: Seq<RecordView>) -> u64 {
    (u64::MAX - newest(recs)) as u64
}

/// The groups, the one with the newest record first; those that are equally new
/// in their order.
pub open spec fn newest_first(groups: Seq<(Seq<char>, Seq<RecordView>)>) -> Seq<
    (Seq<char>, Seq<RecordView>),
> {
    pick(groups, sort_order(Seq::new(groups.len(), |i: int| age(groups[i].1))))
}

/// The first `n` items, or all where there are fewer.
pub open spec fn at_most<T>(items: Seq<T>, n: nat) -> Seq<T> {
    if items.len() <= n {
        items
    } else {
        items.subrange(0, n as int)
    }
}

fn newest_ts(records: &Vec<Record>) -> (r: u64)
    ensures
        r == newest(records.deep_view()),
{
    let ghost recs = records.deep_view();
    let mut ts: u64 = 0;
    let mut i: usize = 0;
    assert(recs.subrange(0, 0) =~= Seq::empty());
    while i < records.len()
        invariant
            i <= records@.len(),
            recs == records.deep_view(),
            ts == newest(recs.subrange(0, i as int)),
        decreases records@.len() - i,
    {
        proof {
            assert(recs.subrange(0, i + 1).drop_last() =~= recs.subrange(0, i as int));
            assert(recs[i as int] == records@[i as int]@);
        }
        if records[i].ts_received > ts {
            ts = records[i].ts_received;
        }
        i += 1;
    }
    assert(recs.subrange(0, i as int) =~= recs);
    ts
}

fn ages(groups: &Vec<(String, Vec<Record>)>) -> (r: Vec<u64>)
    ensures
        r@ == Seq::new(groups.deep_view().len(), |i: int| age(groups.deep_view()[i].1)),
{
    let ghost all = groups.deep_view();
    let mut out: Vec<u64> = Vec::new();
    let mut i: usize = 0;
    while i < groups.len()
        invariant
            i <= groups@.len(),
            all == groups.deep_view(),
            out@ == Seq::new(i as nat, |k: int| age(all[k].1)),
        decreases groups@.len() - i,
    {
        assert(all[i as int].1 == groups@[i as int].1.deep_view());
        out.push(u64::MAX - newest_ts(&groups[i].1));
        i += 1;
        assert(out@ =~= Seq::new(i as nat, |k: int| age(all[k].1)));
    }
    out
}

fn copy_all(records: &Vec<Record>) -> (r: Vec<Record>)
    ensures
        r.deep_view() == records.deep_view(),
{
    let ghost recs = records.deep_view();
    let mut out: Vec<Record> = Vec::new();
    let mut i: usize = 0;
    assert(out.deep_view() =~= recs.subrange(0, 0));
    while i < records.len()
        invariant
            i <= records@.len(),
            recs == records.deep_view(),
            out.deep_view() == recs.subrange(0, i as int),
        decreases records@.len() - i,
    {
        let ghost was = out.deep_view();
        assert(recs[i as int] == records@[i as int]@);
        let rec = records[i].clone();
        let ghost v = rec@;
        out.push(rec);
        i += 1;
        assert(out.deep_view() =~= was.push(v));
        assert(out.deep_view() =~= recs.subrange(0, i as int));
    }
    assert(recs.subrange(0, i as int) =~= recs);
    out
}

/// The `n` latest turns with their records, the latest first. A turn is as late
/// as its newest record.
pub fn recent_turns(records: &[Record], n: usize) -> (r: Vec<(String, Vec<Record>)>)
    ensures
        exists|groups: Seq<(Seq<char>, Seq<RecordView>)>| #[trigger]
            is_grouping(groups, records.deep_view()) && r.deep_view() == at_most(
                newest_first(groups),
                n as nat,
            ),
{
    let groups = group_by_key(records);
    let ghost all = groups.deep_view();
    let keys = ages(&groups);
    let order = sorted_order(&keys);
    let ghost sorted = newest_first(all);
    assert(sorted.len() == positions(order@).len());
    let mut out: Vec<(String, Vec<Record>)> = Vec::new();
    let mut i: usize = 0;
    assert(out.deep_view() =~= sorted.subrange(0, 0));
    while i < order.len() && i < n
        invariant
            i <= order@.len() == groups@.len(),
            i <= n,
            all == groups.deep_view(),
            sorted == newest_first(all),
            sorted.len() == order@.len(),
            keys@ == Seq::new(all.len(), |i: int| age(all[i].1)),
            positions(order@) == sort_order(keys@),
            forall|i: int| 0 <= i < order@.len() ==> #[trigger] order@[i] < groups@.len(),
            out.deep_view() == sorted.subrange(0, i as int),
        decreases order@.len() - i,
    {
        let at: usize = order[i];
        let group = &groups[at];
        proof {
            assert(positions(order@)[i as int] == at as int);
            assert(all[at as int] == (group.0@, group.1.deep_view()));
            assert(sorted[i as int] == all[at as int]);
        }
        let ghost was = out.deep_view();
        let copy = (group.0.clone(), copy_all(&group.1));
        let ghost v = (copy.0@, copy.1.deep_view());
        out.push(copy);
        i += 1;
        assert(out.deep_view() =~= was.push(v));
        assert(out.deep_view() =~= sorted.subrange(0, i as int));
    }
    assert(out.deep_view() =~= at_most(sorted, n as nat));
    out
}

/// What is shown of the latest turns.
#[derive(Debug)]
pub enum LastReport {
    /// There is no record.
    NoRecords,
    /// The timeline of the latest turn.
    Timeline(TurnTimeline),
    /// One line for each of the latest turns.
    Summaries(Vec<TurnSummary>),
}

/// The mathematical report.
pub enum LastView {
    NoRecords,
    Timeline(TimelineView),
    Summaries(Seq<SummaryView>),
}

impl View for LastReport {
    type V = LastView;

    open spec fn view(&self) -> LastView {
        match self {
            LastReport::NoRecords => LastView::NoRecords,
            LastReport::Timeline(t) => LastView::Timeline(t@),
            LastReport::Summaries(s) => LastView::Summaries(s.deep_view()),
        }
    }
}

/// What is shown of the `n` latest turns, given the records by key: of one turn
/// its timeline, of any other number their summaries.
pub open spec fn last_of(groups: Seq<(Seq<char>, Seq<RecordView>)>, n: nat) -> LastView {
    let turns = at_most(newest_first(groups), n);
    if groups.len() == 0 {
        LastView::NoRecords
    } else if n == 1 {
        LastView::Timeline(timeline_of(turns[0].0, turns[0].1))
    } else {
        LastView::Summaries(summaries_of(turns))
    }
}

/// What is shown of the `n` latest turns: of one turn its timeline, of any other
/// number their summaries.
pub fn last_turns(records: &[Record], n: usize) -> (r: LastReport)
    ensures
        exists|groups: Seq<(Seq<char>, Seq<RecordView>)>| #[trigger]
            is_grouping(groups, records.deep_view()) && r@ == last_of(groups, n as nat),
        r is NoRecords <==> records@.len() == 0,
{
    let ghost recs = records.deep_view();
    if records.len() == 0 {
        proof {
            let none: Seq<(Seq<char>, Seq<RecordView>)> = Seq::empty();
            assert(is_grouping(none, recs));
            assert(last_of(none, n as nat) == LastView::NoRecords);
        }
        return LastReport::NoRecords;
    }
    let turns = recent_turns(records, n);
    let ghost groups = choose|groups: Seq<(Seq<char>, Seq<RecordView>)>| #[trigger]
        is_grouping(groups, recs) && turns.deep_view() == at_most(newest_first(groups), n as nat);
    proof {
        assert(recs.len() == records@.len());
        assert(is_grouping(groups, recs));
        assert(has_group(groups, key_of(recs[0])));
        let ages = Seq::new(groups.len(), |i: int| age(groups[i].1));
        sort_order_is_sorted(ages);
        assert(newest_first(groups).len() == groups.len());
        assert(turns.deep_view().len() == turns@.len());
    }
    if n == 1 {
        let (id, members) = &turns[0];
        proof {
            let at = sort_order(Seq::new(groups.len(), |i: int| age(groups[i].1)))[0];
            assert(turns.deep_view()[0] == (id@, members.deep_view()));
            assert(newest_first(groups)[0] == groups[at]);
            lemma_newest_are_carried(groups, recs);
        }
        match trace_turn(id.as_str(), members.as_slice()) {
            Some(tl) => LastReport::Timeline(tl),
            None => LastReport::NoRecords,
        }
    } else {
        LastReport::Summaries(summarise_turns(turns.as_slice()))
    }
}

/// The exit code of a command that shows a turn: 2 where the turn was not
/// completed.
pub fn exit_code(status: &TurnStatus) -> (r: i32)
    ensures
        r == (if status@ is Completed {
            0i32
        } else {
            2i32
        }),
{
    match status {
        TurnStatus::Completed { .. } => 0,
        _ => 2,
    }
}

/// Whether every turn that a report shows was completed.
pub open spec fn all_completed(v: LastView) -> bool {
    match v {
        LastView::NoRecords => true,
        LastView::Timeline(t) => t.status is Completed,
        LastView::Summaries(turns) => forall|i: int|
            0 <= i < turns.len() ==> (#[trigger] turns[i]).status is Completed,
    }
}

/// The exit code of a command that shows the latest turns: 2 where one of them
/// was not completed.
pub fn last_exit_code(report: &LastReport) -> (r: i32)
    ensures
        r == (if all_completed(report@) {
            0i32
        } else {
            2i32
        }),
{
    match report {
        LastReport::NoRecords => 0,
        LastReport::Timeline(tl) => exit_code(&tl.status),
        LastReport::Summaries(turns) => {
            let ghost all = turns.deep_view();
            let mut i: usize = 0;
            while i < turns.len()
                invariant
                    i <= turns@.len(),
                    all == turns.deep_view(),
                    report@ == LastView::Summaries(all),
                    forall|k: int| 0 <= k < i ==> (#[trigger] all[k]).status is Completed,
                decreases turns@.len() - i,
            {
                assert(all[i as int] == turns@[i as int]@);
                if exit_code(&turns[i].status) != 0 {
                    assert(!(all[i as int].status is Completed));
                    return 2;
                }
                i += 1;
            }
            0
        },
    }
}

// ── Timelines with payloads ────────────────────────────────────────────────

/// The lines of the first `n` rows, each with the payload of its record below.
pub open spec fn full_rows_text(rows: Seq<RowView>, s: Seq<RecordView>, n: int) -> Seq<char>
    decreases n,
{
    if n <= 0 {
        Seq::empty()
    } else {
        full_rows_text(rows, s, n - 1) + row_text(rows[n - 1]) + (if n <= s.len() {
            "             payload: "@ + json_text(s[n - 1].raw_payload) + "\n"@
        } else {
            ""@
        })
    }
}

/// The line that says how a turn ended, below a timeline with payloads.
pub open spec fn full_footer_text(status: StatusView) -> Seq<char> {
    match status {
        StatusView::Stalled { last_topic, expected_next } => "  ✗ stalled after "@ + last_topic
            + " — no "@ + text_or(expected_next, "(unknown)"@) + "\n"@,
        _ => footer_text(status),
    }
}

/// The display of a timeline with the payloads of its records.
pub open spec fn full_text(turn_id: Seq<char>, recs: Seq<RecordView>, t: TimelineView) -> Seq<char> {
    header_text(turn_id, t.utterance) + full_rows_text(t.rows, by_time(recs), t.rows.len() as int)
        + full_footer_text(t.status)
}

fn push_full_row(out: &mut String, row: &TimelineRow, sorted: &Vec<Record>, i: usize)
    ensures
        final(out)@ == old(out)@ + row_text(row@) + (if i < sorted@.len() {
            "             payload: "@ + json_text(sorted.deep_view()[i as int].raw_payload) + "\n"@
        } else {
            ""@
        }),
{
    push_row(out, row);
    let ghost mid = out@;
    if i < sorted.len() {
        assert(sorted.deep_view()[i as int] == sorted@[i as int]@);
        out.append("             payload: ");
        sorted[i].raw_payload.push_json(out);
        out.append("\n");
        assert(out@ =~= mid + ("             payload: "@ + json_text(
            sorted.deep_view()[i as int].raw_payload,
        ) + "\n"@));
    } else {
        out.append("");
    }
}

fn push_full_footer(out: &mut String, status: &TurnStatus)
    ensures
        final(out)@ == old(out)@ + full_footer_text(status@),
{
    let ghost start = out@;
    match status {
        TurnStatus::Stalled { last_topic, expected_next } => {
            out.append("  ✗ stalled after ");
            out.append(last_topic.as_str());
            out.append(" — no ");
            out.append(or_else(expected_next, "(unknown)"));
            out.append("\n");
            assert(out@ =~= start + full_footer_text(status@));
        },
        _ => push_footer(out, status),
    }
}

/// The display of a timeline with the payloads of its records.
pub fn render_full_timeline(turn_id: &str, records: &[Record], tl: &TurnTimeline) -> (r: String)
    ensures
        r@ == full_text(turn_id@, records.deep_view(), tl@),
{
    let sorted = sorted_records(records);
    let ghost s = sorted.deep_view();
    let ghost rows = tl.rows.deep_view();
    let mut out: String = String::new();
    push_header(&mut out, turn_id, &tl.utterance);
    let ghost head = header_text(turn_id@, tl@.utterance);
    assert(out@ =~= head);
    let mut i: usize = 0;
    assert(out@ =~= head + full_rows_text(rows, s, 0));
    while i < tl.rows.len()
        invariant
            i <= tl.rows@.len(),
            s == sorted.deep_view(),
            rows == tl.rows.deep_view(),
            out@ == head + full_rows_text(rows, s, i as int),
        decreases tl.rows@.len() - i,
    {
        assert(rows[i as int] == tl.rows@[i as int]@);
        push_full_row(&mut out, &tl.rows[i], &sorted, i);
        i += 1;
        assert(out@ =~= head + full_rows_text(rows, s, i as int));
    }
    push_full_footer(&mut out, &tl.status);
    out
}

/// An optional text as a JSON value.
pub open spec fn text_or_null(t: Option<Seq<char>>) -> Json {
    match t {
        Some(t) => Json::Text(t),
        None => Json::Null,
    }
}

/// How a turn ended, as a JSON value: an object with one member, under the name
/// of the status.
pub open spec fn status_json(status: StatusView) -> Json {
    let (name, members) = match status {
        StatusView::Completed { total_ms } => (
            "Completed"@,
            seq![("total_ms"@, Json::UInt(total_ms))],
        ),
        StatusView::Stalled { last_topic, expected_next } => (
            "Stalled"@,
            seq![
                ("expected_next"@, text_or_null(expected_next)),
                ("last_topic"@, Json::Text(last_topic)),
            ],
        ),
        StatusView::Failed { failure_topic, last_good_topic } => (
            "Failed"@,
            seq![
                ("failure_topic"@, Json::Text(failure_topic)),
                ("last_good_topic"@, text_or_null(last_good_topic)),
            ],
        ),
    };
    Json::Object(seq![(name, Json::Object(members))])
}

/// The members of a row with the payload of its record, where it has one.
pub open spec fn row_members(row: RowView, payload: Option<Json>) -> Members {
    let m0: Members = match row.annotation {
        Some(a) => seq![("annotation"@, Json::Text(a))],
        None => Seq::empty(),
    };
    let m1 = m0.push(("offset_ms"@, Json::UInt(row.offset_ms)));
    let m2 = match payload {
        Some(p) => m1.push(("raw_payload"@, p)),
        None => m1,
    };
    let m3 = match row.stage_duration_ms {
        Some(d) => m2.push(("stage_duration_ms"@, Json::UInt(d))),
        None => m2,
    };
    m3.push(("topic"@, Json::Text(row.topic)))
}

/// The payload of record `i`, where there is one.
pub open spec fn payload_at(s: Seq<RecordView>, i: int) -> Option<Json> {
    if 0 <= i < s.len() {
        Some(s[i].raw_payload)
    } else {
        None
    }
}

/// A timeline with the payloads of its records, as a JSON value.
pub open spec fn full_json(turn_id: Seq<char>, recs: Seq<RecordView>, t: TimelineView) -> Json {
    let s = by_time(recs);
    Json::Object(
        seq![
            (
                "rows"@,
                Json::Array(
                    Seq::new(
                        t.rows.len(),
                        |i: int| Json::Object(row_members(t.rows[i], payload_at(s, i))),
                    ),
                ),
            ),
            ("status"@, status_json(t.status)),
            (
                "t0_ms"@,
                Json::UInt(
                    if s.len() > 0 {
                        s[0].ts_received
                    } else {
                        0
                    },
                ),
            ),
            ("turn_id"@, Json::Text(turn_id)),
            ("utterance"@, text_or_null(t.utterance)),
        ],
    )
}

fn optional(t: &Option<String>) -> (r: Payload)
    ensures
        r@ == text_or_null(t.deep_view()),
{
    match t {
        Some(t) => Payload::Text(t.clone()),
        None => Payload::Null,
    }
}

/// Appends a member of an object.
fn put(m: &mut Vec<(String, Payload)>, name: &str, value: Payload)
    ensures
        final(m).deep_view() == old(m).deep_view().push((name@, value@)),
{
    let ghost was = m.deep_view();
    let ghost v = value@;
    m.push((name.to_string(), value));
    assert(m.deep_view() =~= was.push((name@, v)));
}

/// The object with the given members.
fn object(m: Vec<(String, Payload)>) -> (r: Payload)
    ensures
        r@ == Json::Object(m.deep_view()),
{
    let ghost members = m.deep_view();
    let r = Payload::Object(m);
    assert(r@->Object_0 =~= members);
    r
}

fn status_payload(status: &TurnStatus) -> (r: Payload)
    ensures
        r@ == status_json(status@),
{
    let mut members: Vec<(String, Payload)> = Vec::new();
    let mut outer: Vec<(String, Payload)> = Vec::new();
    assert(members.deep_view() =~= Seq::empty());
    assert(outer.deep_view() =~= Seq::empty());
    let name = match status {
        TurnStatus::Completed { total_ms } => {
            put(&mut members, "total_ms", Payload::UInt(*total_ms));
            "Completed"
        },
        TurnStatus::Stalled { last_topic, expected_next } => {
            put(&mut members, "expected_next", optional(expected_next));
            put(&mut members, "last_topic", Payload::Text(last_topic.clone()));
            "Stalled"
        },
        TurnStatus::Failed { failure_topic, last_good_topic } => {
            put(&mut members, "failure_topic", Payload::Text(failure_topic.clone()));
            put(&mut members, "last_good_topic", optional(last_good_topic));
            "Failed"
        },
    };
    assert(members.deep_view() =~= status_json(status@)->Object_0[0].1->Object_0);
    put(&mut outer, name, object(members));
    assert(outer.deep_view() =~= status_json(status@)->Object_0);
    object(outer)
}

fn row_payload(row: &TimelineRow, payload: Option<&Payload>) -> (r: Payload)
    ensures
        r@ == Json::Object(row_members(row@, payload.deep_view())),
{
    let mut m: Vec<(String, Payload)> = Vec::new();
    assert(m.deep_view() =~= Seq::empty());
    if let Some(a) = &row.annotation {
        put(&mut m, "annotation", Payload::Text(a.clone()));
        assert(m.deep_view() =~= seq![("annotation"@, Json::Text(a@))]);
    }
    put(&mut m, "offset_ms", Payload::UInt(row.offset_ms));
    if let Some(p) = payload {
        put(&mut m, "raw_payload", p.copy());
    }
    if let Some(d) = row.stage_duration_ms {
        put(&mut m, "stage_duration_ms", Payload::UInt(d));
    }
    put(&mut m, "topic", Payload::Text(row.topic.clone()));
    object(m)
}

/// A timeline with the payloads of its records, as a JSON value.
pub fn build_full_json(turn_id: &str, records: &[Record], tl: &TurnTimeline) -> (r: Payload)
    ensures
        r@ == full_json(turn_id@, records.deep_view(), tl@),
{
    let sorted = sorted_records(records);
    let ghost s = sorted.deep_view();
    let ghost rows = tl.rows.deep_view();
    let t0: u64 = if sorted.len() > 0 {
        assert(s[0] == sorted@[0]@);
        sorted[0].ts_received
    } else {
        0
    };
    let mut items: Vec<Payload> = Vec::new();
    let mut i: usize = 0;
    assert(items.deep_view() =~= Seq::empty());
    while i < tl.rows.len()
        invariant
            i <= tl.rows@.len(),
            s == sorted.deep_view(),
            rows == tl.rows.deep_view(),
            items.deep_view() == Seq::new(
                i as nat,
                |k: int| Json::Object(row_members(rows[k], payload_at(s, k))),
            ),
        decreases tl.rows@.len() - i,
    {
        assert(rows[i as int] == tl.rows@[i as int]@);
        let payload = if i < sorted.len() {
            assert(s[i as int] == sorted@[i as int]@);
            Some(&sorted[i].raw_payload)
        } else {
            None
        };
        let item = row_payload(&tl.rows[i], payload);
        let ghost v = item@;
        let ghost was = items.deep_view();
        items.push(item);
        i += 1;
        assert(items.deep_view() =~= was.push(v));
        assert(items.deep_view() =~= Seq::new(
            i as nat,
            |k: int| Json::Object(row_members(rows[k], payload_at(s, k))),
        ));
    }
    let ghost views = items.deep_view();
    let array = Payload::Array(items);
    assert(array@->Array_0 =~= views);
    let mut m: Vec<(String, Payload)> = Vec::new();
    assert(m.deep_view() =~= Seq::empty());
    put(&mut m, "rows", array);
    put(&mut m, "status", status_payload(&tl.status));
    put(&mut m, "t0_ms", Payload::UInt(t0));
    put(&mut m, "turn_id", Payload::Text(turn_id.to_string()));
    put(&mut m, "utterance", optional(&tl.utterance));
    assert(m.deep_view() =~= full_json(turn_id@, records.deep_view(), tl@)->Object_0);
    object(m)
}

// ── Laws ───────────────────────────────────────────────────────────────────

/// There is one way to group records by key.
pub proof fn a_grouping_is_unique(
    a: Seq<(Seq<char>, Seq<RecordView>)>,
    b: Seq<(Seq<char>, Seq<RecordView>)>,
    recs: Seq<RecordView>,
)
    requires
        is_grouping(a, recs),
        is_grouping(b, recs),
    ensures
        a == b,
{
    lemma_grouping_prefix(a, b, recs, a.len() as int);
    lemma_grouping_prefix(b, a, recs, b.len() as int);
    assert(a =~= b);
}

proof fn lemma_key_of_a_group(recs: Seq<RecordView>, key: Seq<char>)
    requires
        with_key(recs, key).len() > 0,
    ensures
        exists|k: int| 0 <= k < recs.len() && key_of(#[trigger] recs[k]) == key,
{
    if forall|k: int| 0 <= k < recs.len() ==> key_of(#[trigger] recs[k]) != key {
        lemma_no_records(recs, key);
    }
}

proof fn lemma_keys_of_a_group(recs: Seq<RecordView>, key: Seq<char>)
    ensures
        forall|i: int|
            0 <= i < with_key(recs, key).len() ==> key_of(#[trigger] with_key(recs, key)[i]) == key,
    decreases recs.len(),
{
    if recs.len() > 0 {
        let all = with_key(recs, key);
        let rest = with_key(recs.drop_last(), key);
        lemma_keys_of_a_group(recs.drop_last(), key);
        assert forall|i: int| 0 <= i < all.len() implies key_of(#[trigger] all[i]) == key by {
            if i < rest.len() {
                assert(key_of(rest[i]) == key);
            }
        }
    }
}

proof fn lemma_newest_are_carried(
    groups: Seq<(Seq<char>, Seq<RecordView>)>,
    recs: Seq<RecordView>,
)
    requires
        is_grouping(groups, recs),
    ensures
        newest_first(groups).len() == groups.len(),
        forall|i: int|
            0 <= i < groups.len() ==> carries(
                (#[trigger] newest_first(groups)[i]).1,
                newest_first(groups)[i].0,
            ),
{
    let keys = Seq::new(groups.len(), |i: int| age(groups[i].1));
    let order = sort_order(keys);
    sort_order_is_sorted(keys);
    assert forall|i: int| 0 <= i < groups.len() implies carries(
        (#[trigger] newest_first(groups)[i]).1,
        newest_first(groups)[i].0,
    ) by {
        let at = order[i];
        assert(0 <= at < groups.len());
        assert(newest_first(groups)[i] == groups[at]);
        let (key, members) = groups[at];
        assert(members == with_key(recs, key));
        lemma_keys_of_a_group(recs, key);
        assert(key_of(members[0]) == key);
    }
}

proof fn lemma_grouping_prefix(
    a: Seq<(Seq<char>, Seq<RecordView>)>,
    b: Seq<(Seq<char>, Seq<RecordView>)>,
    recs: Seq<RecordView>,
    n: int,
)
    requires
        is_grouping(a, recs),
        is_grouping(b, recs),
        0 <= n <= a.len(),
    ensures
        n <= b.len(),
        forall|i: int| 0 <= i < n ==> #[trigger] a[i] == b[i],
    decreases n,
{
    if n > 0 {
        lemma_grouping_prefix(a, b, recs, n - 1);
        let key = a[n - 1].0;
        lemma_key_of_a_group(recs, key);
        let k = choose|k: int| 0 <= k < recs.len() && key_of(#[trigger] recs[k]) == key;
        assert(has_group(b, key_of(recs[k])));
        let j = choose|j: int| 0 <= j < b.len() && (#[trigger] b[j]).0 == key;
        if j < n - 1 {
            assert(a[j] == b[j]);
            assert(before(a[j].0, a[n - 1].0));
            before_is_total(a[j].0, a[n - 1].0);
        }
        if j > n - 1 {
            let low = b[n - 1].0;
            assert(before(low, b[j].0));
            lemma_key_of_a_group(recs, low);
            let h = choose|h: int| 0 <= h < recs.len() && key_of(#[trigger] recs[h]) == low;
            assert(has_group(a, key_of(recs[h])));
            let m = choose|m: int| 0 <= m < a.len() && (#[trigger] a[m]).0 == low;
            if m < n - 1 {
                assert(a[m] == b[m]);
                assert(before(b[m].0, b[n - 1].0));
                before_is_total(b[m].0, b[n - 1].0);
            } else if m == n - 1 {
                before_is_total(low, key);
            } else {
                assert(before(a[n - 1].0, a[m].0));
                before_is_total(low, key);
            }
        }
    }
}

/// Each of the latest turns has a summary, in its own place.
pub proof fn the_latest_turns_are_summarised(
    groups: Seq<(Seq<char>, Seq<RecordView>)>,
    recs: Seq<RecordView>,
    n: nat,
)
    requires
        is_grouping(groups, recs),
    ensures
        ({
            let turns = at_most(newest_first(groups), n);
            &&& summaries_of(turns).len() == turns.len()
            &&& forall|i: int|
                0 <= i < turns.len() ==> #[trigger] summaries_of(turns)[i] == summary_of(
                    timeline_of(turns[i].0, turns[i].1),
                )
        }),
{
    let all = newest_first(groups);
    let turns = at_most(all, n);
    lemma_newest_are_carried(groups, recs);
    assert forall|i: int| 0 <= i < turns.len() implies carries(
        (#[trigger] turns[i]).1,
        turns[i].0,
    ) by {
        assert(turns[i] == all[i]);
    }
    every_turn_is_summarised(turns);
}

/// The latest turn is the one with the newest record: none of the others has a
/// newer one.
pub proof fn the_latest_turn_comes_first(
    groups: Seq<(Seq<char>, Seq<RecordView>)>,
    recs: Seq<RecordView>,
)
    requires
        is_grouping(groups, recs),
        recs.len() > 0,
    ensures
        newest_first(groups).len() == groups.len() > 0,
        forall|i: int|
            0 <= i < groups.len() ==> newest((#[trigger] newest_first(groups)[i]).1) <= newest(
                newest_first(groups)[0].1,
            ),
{
    assert(has_group(groups, key_of(recs[0])));
    let keys = Seq::new(groups.len(), |i: int| age(groups[i].1));
    let order = sort_order(keys);
    sort_order_is_sorted(keys);
    assert forall|i: int| 0 <= i < groups.len() implies newest(
        (#[trigger] newest_first(groups)[i]).1,
    ) <= newest(newest_first(groups)[0].1) by {
        assert(0 <= order[i] < groups.len() && 0 <= order[0] < groups.len());
        if i > 0 {
            assert(comes_first(keys, order[0], order[i]));
        }
    }
}

} // verus!
