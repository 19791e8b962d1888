//! What the store promises of the files in its data directory.
//!
//! The files are modelled by their texts. A record is written by the tasks that
//! the store names, one after the other, each done on the files. What holds of
//! the store and its files before the first task holds of them after the last.

use crate::index::{index_text, live, EntryView};
use crate::order::ascending_keys_ascend;
use crate::payload::valid;
use crate::record::{key_of, line_record, record_line, RecordError, RecordView};
use crate::segment::{
    a_written_record_is_read_next, all_valid, filled, log_text, numbers_in, records_in,
    segments_in, written_records_are_lines, written_records_are_read_one_by_one,
};
use crate::store::{
    after, agrees, all_records, begun, can_go_on, doomed, entry_at, has_room_for,
    lemma_place_of_entry, line_bytes, located, locations, log_is_valid, names_a_record, pruning,
    records_at, records_through, resumed, resumed_segment, rotates, task_of, text_in, texts_hold,
    without, AppendView, Log, PhaseView, RecordLocation, RotationPolicy, StoreView, TaskView,
};
use crate::text::{byte_len, byte_len_of_both, lines};
use vstd::prelude::*;
use vstd::utf8::encode_utf8;

verus! {

/// The texts of the files in a data directory. A sidecar that is missing is
/// empty.
pub struct Disk {
    pub segments: Map<u64, Seq<char>>,
    pub index: Seq<char>,
}

/// The files once a task is done.
pub open spec fn performed(d: Disk, t: TaskView) -> Disk {
    match t {
        TaskView::OpenSegment(n) => if d.segments.dom().contains(n) {
            d
        } else {
            Disk { segments: d.segments.insert(n, Seq::empty()), ..d }
        },
        TaskView::ListNames => d,
        TaskView::RemoveSegment(n) => Disk { segments: d.segments.remove(n), ..d },
        TaskView::WriteRecord(n, line) => Disk {
            segments: d.segments.insert(n, d.segments[n] + line + seq!['\n']),
            ..d
        },
        TaskView::WriteIndex(line) => Disk { index: d.index + line + seq!['\n'], ..d },
        TaskView::Finished(_) => d,
    }
}

/// Whether the names are a listing of the segments that are there.
pub open spec fn lists(names: Seq<Seq<char>>, segments: Set<u64>) -> bool {
    &&& segments_in(names).no_duplicates()
    &&& segments_in(names).to_set() == segments
}

/// How many kinds of tasks are still to come.
pub open spec fn rank(p: PhaseView) -> nat {
    match p {
        PhaseView::Opening => 5,
        PhaseView::Listing => 4,
        PhaseView::Pruning(_) => 3,
        PhaseView::Writing => 2,
        PhaseView::Indexing(_) => 1,
        PhaseView::Finished(_) => 0,
    }
}

/// How many segments are still to be removed.
pub open spec fn left(p: PhaseView) -> nat {
    match p {
        PhaseView::Pruning(doomed) => doomed.len(),
        _ => 0,
    }
}

/// The store and the files once every task of an append is done, and where the
/// record stands. A listing gives `names`.
pub open spec fn completed(s: StoreView, a: AppendView, d: Disk, names: Seq<Seq<char>>) -> (
    StoreView,
    Disk,
    RecordLocation,
)
    decreases rank(a.phase), left(a.phase),
    when can_go_on(s, a)
{
    match a.phase {
        PhaseView::Finished(loc) => (s, d, loc),
        _ => {
            let d2 = performed(d, task_of(s, a));
            let (s2, a2) = after(s, a, names);
            completed(s2, a2, d2, names)
        },
    }
}

/// Whether the files hold the log.
pub open spec fn holds(d: Disk, l: Log) -> bool {
    &&& d.segments.dom() == l.segments.dom()
    &&& forall|n: u64| #[trigger]
        l.segments.dom().contains(n) ==> d.segments[n] == log_text(l.segments[n])
    &&& d.index == index_text(l.index)
}

// ── The log that an append leaves ──────────────────────────────────────────

/// The log with an empty segment more.
pub open spec fn with_segment(l: Log, n: u64) -> Log {
    Log { segments: l.segments.insert(n, Seq::empty()), ..l }
}

/// The log without the given segments.
pub open spec fn without_segments(l: Log, gone: Seq<u64>) -> Log {
    Log {
        segments: Map::new(
            |n: u64| l.segments.dom().contains(n) && !gone.contains(n),
            |n: u64| l.segments[n],
        ),
        ..l
    }
}

/// The log with a record more in a segment, and its entry.
pub open spec fn with_record(l: Log, rec: RecordView, n: u64) -> Log {
    Log {
        segments: l.segments.insert(n, l.segments[n].push(rec)),
        index: l.index.push(entry_at(rec, n, l.segments[n].len() as u64)),
    }
}

/// The segment that a record is written to.
pub open spec fn target(s: StoreView, rec: RecordView) -> u64 {
    if rotates(s, line_bytes(record_line(rec))) {
        (s.active_segment + 1) as u64
    } else {
        s.active_segment
    }
}

/// The segments that are removed when a record is written.
pub open spec fn removed(s: StoreView, rec: RecordView, names: Seq<Seq<char>>) -> Seq<u64> {
    if rotates(s, line_bytes(record_line(rec))) {
        doomed(segments_in(names), s.policy.max_segments as nat, target(s, rec))
    } else {
        Seq::empty()
    }
}

/// The log once a record is written.
pub open spec fn appended(s: StoreView, l: Log, rec: RecordView, names: Seq<Seq<char>>) -> Log {
    let n = target(s, rec);
    if rotates(s, line_bytes(record_line(rec))) {
        with_record(without_segments(with_segment(l, n), removed(s, rec, names)), rec, n)
    } else {
        with_record(l, rec, n)
    }
}

// ── Steps ──────────────────────────────────────────────────────────────────

proof fn lemma_live_more(entries: Seq<EntryView>, segments: Set<u64>, n: u64)
    requires
        forall|i: int| 0 <= i < entries.len() ==> (#[trigger] entries[i]).segment != n,
    ensures
        live(entries, segments.insert(n)) == live(entries, segments),
    decreases entries.len(),
{
    if entries.len() > 0 {
        let shorter = entries.drop_last();
        assert(entries[entries.len() - 1].segment != n);
        assert forall|i: int| 0 <= i < shorter.len() implies (#[trigger] shorter[i]).segment != n by {
            assert(shorter[i] == entries[i]);
        }
        lemma_live_more(shorter, segments, n);
    }
}

proof fn lemma_live_fewer(entries: Seq<EntryView>, segments: Set<u64>, n: u64)
    ensures
        live(entries, segments.remove(n)) == without(live(entries, segments), n),
    decreases entries.len(),
{
    if entries.len() > 0 {
        lemma_live_fewer(entries.drop_last(), segments, n);
        let rest = live(entries.drop_last(), segments);
        assert(rest.push(entries.last()).drop_last() =~= rest);
    }
}

proof fn lemma_without(index: Seq<EntryView>, n: u64)
    ensures
        forall|i: int|
            0 <= i < without(index, n).len() ==> index.contains(#[trigger] without(index, n)[i])
                && without(index, n)[i].segment != n,
        forall|e: EntryView|
            #[trigger] index.contains(e) && e.segment != n ==> without(index, n).contains(e),
    decreases index.len(),
{
    if index.len() > 0 {
        let shorter = index.drop_last();
        let rest = without(shorter, n);
        lemma_without(shorter, n);
        let now = without(index, n);
        assert forall|i: int| 0 <= i < now.len() implies index.contains(#[trigger] now[i])
            && now[i].segment != n by {
            if i < rest.len() {
                assert(shorter.contains(rest[i]));
                let k = shorter.index_of(rest[i]);
                assert(index[k] == now[i]);
            } else {
                assert(index[index.len() - 1] == now[i]);
            }
        }
        assert forall|e: EntryView| #[trigger] index.contains(e) && e.segment != n implies now.contains(
            e,
        ) by {
            let k = index.index_of(e);
            if k < shorter.len() {
                assert(shorter[k] == e);
                assert(shorter.contains(e));
                let m = rest.index_of(e);
                assert(now[m] == e);
            } else {
                assert(now[now.len() - 1] == e);
            }
        }
    }
}

proof fn lemma_open_step(s: StoreView, l: Log, d: Disk, n: u64)
    requires
        agrees(s, l),
        holds(d, l),
        s.active_segment < u64::MAX,
        n == s.active_segment + 1,
    ensures
        agrees(
            StoreView { active_segment: n, active_bytes: 0, active_lines: 0, ..s },
            with_segment(l, n),
        ),
        holds(performed(d, TaskView::OpenSegment(n)), with_segment(l, n)),
{
    let l2 = with_segment(l, n);
    assert(!l.segments.dom().contains(n));
    assert forall|i: int| 0 <= i < l.index.len() implies (#[trigger] l.index[i]).segment != n by {
        assert(l.index[i].segment <= s.active_segment);
    }
    lemma_live_more(l.index, l.segments.dom(), n);
    assert(l2.segments.dom() =~= l.segments.dom().insert(n));
    assert(log_text(l2.segments[n]) =~= Seq::empty());
    let d2 = performed(d, TaskView::OpenSegment(n));
    assert(d2.segments.dom() =~= l2.segments.dom());
    assert forall|i: int| 0 <= i < s.index.len() implies names_a_record(
        #[trigger] s.index[i],
        l2,
    ) by {
        assert(names_a_record(s.index[i], l));
    }
    assert forall|m: u64, i: int|
        l2.segments.dom().contains(m) && 0 <= i < l2.segments[m].len() implies s.index.contains(
        entry_at(#[trigger] l2.segments[m][i], m, i as u64),
    ) by {
        assert(m != n);
        assert(l2.segments[m] == l.segments[m]);
        assert(s.index.contains(entry_at(l.segments[m][i], m, i as u64)));
    }
}

proof fn lemma_remove_step(s: StoreView, l: Log, d: Disk, n: u64)
    requires
        agrees(s, l),
        holds(d, l),
        n != s.active_segment,
    ensures
        agrees(
            StoreView { index: without(s.index, n), ..s },
            Log { segments: l.segments.remove(n), ..l },
        ),
        holds(
            performed(d, TaskView::RemoveSegment(n)),
            Log { segments: l.segments.remove(n), ..l },
        ),
{
    let l2 = Log { segments: l.segments.remove(n), ..l };
    let index = without(s.index, n);
    assert(l2.segments.dom() =~= l.segments.dom().remove(n));
    lemma_live_fewer(l.index, l.segments.dom(), n);
    lemma_without(s.index, n);
    assert(performed(d, TaskView::RemoveSegment(n)).segments.dom() =~= l2.segments.dom());
    assert forall|i: int| 0 <= i < index.len() implies names_a_record(#[trigger] index[i], l2) by {
        assert(s.index.contains(index[i]));
        let k = s.index.index_of(index[i]);
        assert(names_a_record(s.index[k], l));
    }
    assert forall|m: u64, i: int|
        l2.segments.dom().contains(m) && 0 <= i < l2.segments[m].len() implies index.contains(
        entry_at(#[trigger] l2.segments[m][i], m, i as u64),
    ) by {
        assert(l2.segments[m] == l.segments[m]);
        assert(s.index.contains(entry_at(l.segments[m][i], m, i as u64)));
    }
}

proof fn lemma_newline_is_one_byte()
    ensures
        byte_len(seq!['\n']) == 1,
{
    reveal_with_fuel(encode_utf8, 2);
    assert(seq!['\n'].drop_first() =~= Seq::empty());
}

proof fn lemma_write_steps(
    s: StoreView,
    l: Log,
    d: Disk,
    a: AppendView,
    rec: RecordView,
    names: Seq<Seq<char>>,
)
    requires
        agrees(s, l),
        holds(d, l),
        a.line == record_line(rec),
        a.key == key_of(rec),
        a.phase == PhaseView::Writing,
        can_go_on(s, a),
    ensures
        ({
            let (s2, d2, loc) = completed(s, a, d, names);
            let l2 = with_record(l, rec, s.active_segment);
            &&& agrees(s2, l2)
            &&& holds(d2, l2)
            &&& loc == RecordLocation { segment: s.active_segment, line: s.active_lines }
            &&& s2.index == s.index.push(entry_at(rec, loc.segment, loc.line))
            &&& s2.active_segment == s.active_segment
            &&& s2.policy == s.policy
        }),
{
    reveal_with_fuel(completed, 3);
    let n = s.active_segment;
    let l2 = with_record(l, rec, n);
    let (s1, a1) = after(s, a, names);
    let d1 = performed(d, task_of(s, a));
    let (s2, a2) = after(s1, a1, names);
    let d2 = performed(d1, task_of(s1, a1));
    let was = l.segments[n];
    let e = entry_at(rec, n, was.len() as u64);
    assert(was.push(rec).drop_last() =~= was);
    assert(log_text(was.push(rec)) == log_text(was) + record_line(rec) + seq!['\n']);
    byte_len_of_both(log_text(was) + record_line(rec), seq!['\n']);
    byte_len_of_both(log_text(was), record_line(rec));
    lemma_newline_is_one_byte();
    assert(l2.segments.dom() =~= l.segments.dom());
    assert(d2.segments.dom() =~= l2.segments.dom());
    assert(l.index.push(e).drop_last() =~= l.index);
    assert(l2.index == l.index.push(e));
    assert(s2.index == s.index.push(e));
    assert(live(l2.index, l2.segments.dom()) == s2.index);
    assert forall|i: int| 0 <= i < l2.index.len() implies (#[trigger] l2.index[i]).segment <= n by {
        if i < l.index.len() {
            assert(l.index[i].segment <= n);
        }
    }
    assert forall|i: int| 0 <= i < s2.index.len() implies names_a_record(
        #[trigger] s2.index[i],
        l2,
    ) by {
        if i < s.index.len() {
            assert(names_a_record(s.index[i], l));
        }
    }
    assert forall|m: u64, i: int|
        l2.segments.dom().contains(m) && 0 <= i < l2.segments[m].len() implies s2.index.contains(
        entry_at(#[trigger] l2.segments[m][i], m, i as u64),
    ) by {
        if m == n && i == was.len() {
            assert(s2.index[s.index.len() as int] == e);
        } else {
            let x = entry_at(l.segments[m][i], m, i as u64);
            assert(s.index.contains(x));
            let k = s.index.index_of(x);
            assert(s2.index[k] == x);
        }
    }
    assert(completed(s, a, d, names) == completed(s1, a1, d1, names));
    assert(completed(s1, a1, d1, names) == completed(s2, a2, d2, names));
}

proof fn lemma_prune_steps(
    s: StoreView,
    l: Log,
    d: Disk,
    a: AppendView,
    rec: RecordView,
    gone: Seq<u64>,
    names: Seq<Seq<char>>,
)
    requires
        agrees(s, l),
        holds(d, l),
        a.line == record_line(rec),
        a.key == key_of(rec),
        a.phase == pruning(gone),
        !gone.contains(s.active_segment),
        can_go_on(s, a),
    ensures
        ({
            let (s2, d2, loc) = completed(s, a, d, names);
            let l2 = with_record(without_segments(l, gone), rec, s.active_segment);
            &&& agrees(s2, l2)
            &&& holds(d2, l2)
            &&& loc == RecordLocation { segment: s.active_segment, line: s.active_lines }
            &&& s2.index.len() > 0
            &&& s2.index.last() == entry_at(rec, loc.segment, loc.line)
            &&& s2.active_segment == s.active_segment
            &&& s2.policy == s.policy
        }),
    decreases gone.len(),
{
    if gone.len() == 0 {
        assert(without_segments(l, gone).segments =~= l.segments);
        lemma_write_steps(s, l, d, a, rec, names);
    } else {
        let n = gone[0];
        assert(gone.contains(n));
        lemma_remove_step(s, l, d, n);
        let (s1, a1) = after(s, a, names);
        let d1 = performed(d, task_of(s, a));
        let l1 = Log { segments: l.segments.remove(n), ..l };
        let rest = gone.subrange(1, gone.len() as int);
        assert forall|m: u64| gone.contains(m) <==> (m == n || #[trigger] rest.contains(m)) by {
            if rest.contains(m) {
                let k = rest.index_of(m);
                assert(gone[k + 1] == m);
            }
            if gone.contains(m) && m != n {
                let k = gone.index_of(m);
                assert(rest[k - 1] == m);
            }
        }
        assert(without_segments(l1, rest).segments =~= without_segments(l, gone).segments);
        lemma_prune_steps(s1, l1, d1, a1, rec, rest, names);
        assert(completed(s, a, d, names) == completed(s1, a1, d1, names));
    }
}

proof fn lemma_doomed(segs: Seq<u64>, max: nat, active: u64)
    ensures
        !doomed(segs, max, active).contains(active),
        doomed(segs, max, active).len() <= segs.len(),
        doomed(segs, max, active) == segs.subrange(0, doomed(segs, max, active).len() as int),
        segs.no_duplicates() && segs.len() > 0 && segs.last() == active ==> segs.len() - doomed(
            segs,
            max,
            active,
        ).len() <= (if max == 0 {
            1
        } else {
            max
        }),
    decreases segs.len(),
{
    let all = doomed(segs, max, active);
    if segs.len() <= max || segs.len() == 0 || segs[0] == active {
        assert(segs.subrange(0, 0) =~= Seq::empty());
        if segs.no_duplicates() && segs.len() > 1 && segs.last() == active {
            assert(segs[0] != segs[segs.len() - 1]);
        }
    } else {
        let tail = segs.subrange(1, segs.len() as int);
        let rest = doomed(tail, max, active);
        lemma_doomed(tail, max, active);
        assert(all =~= segs.subrange(0, all.len() as int)) by {
            let head = tail.subrange(0, rest.len() as int);
            assert(forall|i: int| 0 <= i < rest.len() ==> rest[i] == head[i]);
        }
        if all.contains(active) {
            let k = all.index_of(active);
            assert(rest[k - 1] == active);
            assert(rest.contains(active));
        }
        if segs.no_duplicates() && segs.last() == active {
            assert(tail.no_duplicates());
            assert(tail.last() == active);
        }
    }
}

// ── Laws ───────────────────────────────────────────────────────────────────

/// Writing a record keeps the store and its files in agreement: from files that
/// hold a log with which the store agrees, the tasks of the append lead to files
/// that hold the log with the record more, and the store agrees with that. The
/// record stands where the store says, and its entry is the last of the index.
pub proof fn append_keeps_agreement(
    s: StoreView,
    l: Log,
    d: Disk,
    rec: RecordView,
    names: Seq<Seq<char>>,
)
    requires
        agrees(s, l),
        holds(d, l),
        has_room_for(s, line_bytes(record_line(rec))),
    ensures
        ({
            let (s2, d2, loc) = completed(s, begun(s, rec), d, names);
            let l2 = appended(s, l, rec, names);
            &&& agrees(s2, l2)
            &&& holds(d2, l2)
            &&& l2.segments.dom().contains(loc.segment)
            &&& loc.line < l2.segments[loc.segment].len()
            &&& l2.segments[loc.segment][loc.line as int] == rec
            &&& s2.index.len() > 0
            &&& s2.index.last() == entry_at(rec, loc.segment, loc.line)
            &&& s2.active_segment == loc.segment == target(s, rec)
            &&& s2.policy == s.policy
        }),
{
    let a = begun(s, rec);
    let bytes = line_bytes(record_line(rec));
    if rotates(s, bytes) {
        let n = target(s, rec);
        lemma_open_step(s, l, d, n);
        let (s1, a1) = after(s, a, names);
        let d1 = performed(d, task_of(s, a));
        let l1 = with_segment(l, n);
        assert(completed(s, a, d, names) == completed(s1, a1, d1, names));
        let (s2, a2) = after(s1, a1, names);
        assert(s2 == s1);
        assert(performed(d1, task_of(s1, a1)) == d1);
        assert(completed(s1, a1, d1, names) == completed(s2, a2, d1, names));
        let gone = removed(s, rec, names);
        lemma_doomed(segments_in(names), s.policy.max_segments as nat, n);
        lemma_prune_steps(s2, l1, d1, a2, rec, gone, names);
    } else {
        lemma_write_steps(s, l, d, a, rec, names);
    }
}

/// No segment is ever cut short: of those that are still there after a record
/// is written, the one it is written to holds what it held, and the record
/// behind, and each other holds what it held.
pub proof fn segments_are_never_truncated(
    s: StoreView,
    l: Log,
    d: Disk,
    rec: RecordView,
    names: Seq<Seq<char>>,
)
    requires
        agrees(s, l),
        holds(d, l),
        has_room_for(s, line_bytes(record_line(rec))),
    ensures
        ({
            let (s2, d2, loc) = completed(s, begun(s, rec), d, names);
            let n = target(s, rec);
            &&& d2.segments.dom().contains(n)
            &&& d2.segments[n] == (if d.segments.dom().contains(n) {
                d.segments[n]
            } else {
                Seq::empty()
            }) + record_line(rec) + seq!['\n']
            &&& forall|m: u64|
                #[trigger] d2.segments.dom().contains(m) && m != n ==> d.segments.dom().contains(m)
                    && d2.segments[m] == d.segments[m]
        }),
{
    append_keeps_agreement(s, l, d, rec, names);
    let (s2, d2, loc) = completed(s, begun(s, rec), d, names);
    let l2 = appended(s, l, rec, names);
    let n = target(s, rec);
    let was = if rotates(s, line_bytes(record_line(rec))) {
        Seq::empty()
    } else {
        l.segments[n]
    };
    if rotates(s, line_bytes(record_line(rec))) {
        assert(!l.segments.dom().contains(n));
        lemma_doomed(segments_in(names), s.policy.max_segments as nat, n);
        assert(log_text(was) =~= Seq::empty());
    }
    assert(l2.segments[n] == was.push(rec));
    assert(was.push(rec).drop_last() =~= was);
    assert(d2.segments.dom().contains(n));
    assert forall|m: u64|
        #[trigger] d2.segments.dom().contains(m) && m != n implies d.segments.dom().contains(m)
        && d2.segments[m] == d.segments[m] by {
        assert(l2.segments.dom().contains(m));
        assert(l.segments.dom().contains(m));
        assert(l2.segments[m] == l.segments[m]);
    }
}

proof fn lemma_highest(names: Seq<Seq<char>>, segments: Set<u64>, top: u64)
    requires
        lists(names, segments),
        segments.contains(top),
        forall|n: u64| #[trigger] segments.contains(n) ==> n <= top,
    ensures
        segments_in(names).len() > 0,
        segments_in(names).last() == top,
{
    let segs = segments_in(names);
    ascending_keys_ascend(numbers_in(names));
    assert(segs.to_set().contains(top));
    assert(segs.contains(top));
    let k = segs.index_of(top);
    assert(segs.to_set().contains(segs[segs.len() - 1]));
    assert(segments.contains(segs[segs.len() - 1]));
    assert(segs[k] <= segs[segs.len() - 1]);
}

/// The number of segments is bounded: where a record starts a new segment, at
/// most as many are left as the policy allows, and never none. The oldest go
/// first.
pub proof fn segments_are_bounded(
    s: StoreView,
    l: Log,
    d: Disk,
    rec: RecordView,
    names: Seq<Seq<char>>,
)
    requires
        agrees(s, l),
        holds(d, l),
        has_room_for(s, line_bytes(record_line(rec))),
        rotates(s, line_bytes(record_line(rec))),
        lists(names, d.segments.dom().insert(target(s, rec))),
    ensures
        ({
            let (s2, d2, loc) = completed(s, begun(s, rec), d, names);
            &&& 1 <= d2.segments.dom().len()
            &&& d2.segments.dom().len() <= (if s.policy.max_segments == 0 {
                1
            } else {
                s.policy.max_segments as nat
            })
            &&& forall|gone: u64, kept: u64|
                d.segments.dom().contains(gone) && !(#[trigger] d2.segments.dom().contains(gone))
                    && #[trigger] d2.segments.dom().contains(kept) ==> gone < kept
        }),
{
    append_keeps_agreement(s, l, d, rec, names);
    let (s2, d2, loc) = completed(s, begun(s, rec), d, names);
    let n = target(s, rec);
    let max = s.policy.max_segments as nat;
    let segs = segments_in(names);
    let there = d.segments.dom().insert(n);
    let gone = removed(s, rec, names);
    let k = gone.len() as int;
    lemma_highest(names, there, n);
    lemma_doomed(segs, max, n);
    ascending_keys_ascend(numbers_in(names));
    let kept = segs.subrange(k, segs.len() as int);
    assert(kept.no_duplicates());
    assert forall|m: u64| kept.to_set().contains(m) <==> #[trigger] d2.segments.dom().contains(m) by {
        if kept.contains(m) {
            let i = kept.index_of(m);
            assert(segs[i + k] == m);
            assert(segs.to_set().contains(m));
            if gone.contains(m) {
                let j = gone.index_of(m);
                assert(segs[j] == m);
            }
        }
        if d2.segments.dom().contains(m) {
            assert(there.contains(m));
            assert(segs.to_set().contains(m));
            let i = segs.index_of(m);
            if i < k {
                assert(gone[i] == m);
                assert(gone.contains(m));
            }
            assert(kept[i - k] == m);
        }
    }
    assert(kept.to_set() =~= d2.segments.dom());
    kept.unique_seq_to_set();
    assert(!gone.contains(n));
    if k == segs.len() {
        assert(gone[k - 1] == n);
    }
    assert forall|g: u64, m: u64|
        d.segments.dom().contains(g) && !(#[trigger] d2.segments.dom().contains(g))
            && #[trigger] d2.segments.dom().contains(m) implies g < m by {
        assert(there.contains(g));
        assert(segs.to_set().contains(g));
        let i = segs.index_of(g);
        if i >= k {
            assert(kept[i - k] == g);
            assert(kept.to_set().contains(g));
        }
        assert(kept.to_set().contains(m));
        let j = kept.index_of(m);
        assert(segs[j + k] == m);
        assert(segs[i] <= segs[j + k]);
        assert(i != j + k);
    }
}

/// Where no new segment is started, no segment comes or goes.
pub proof fn segments_stay_without_rotation(
    s: StoreView,
    l: Log,
    d: Disk,
    rec: RecordView,
    names: Seq<Seq<char>>,
)
    requires
        agrees(s, l),
        holds(d, l),
        has_room_for(s, line_bytes(record_line(rec))),
        !rotates(s, line_bytes(record_line(rec))),
    ensures
        completed(s, begun(s, rec), d, names).1.segments.dom() == d.segments.dom(),
{
    append_keeps_agreement(s, l, d, rec, names);
    assert(appended(s, l, rec, names).segments.dom() =~= l.segments.dom());
}

/// A restart loses nothing: from the names and texts that are there, the store
/// comes up as it went down.
pub proof fn restart_gives_the_store_back(s: StoreView, l: Log, names: Seq<Seq<char>>)
    requires
        agrees(s, l),
        lists(names, l.segments.dom()),
        all_valid(l.segments[s.active_segment]),
    ensures
        resumed_segment(names) == s.active_segment,
        resumed(
            s.policy,
            names,
            live(l.index, segments_in(names).to_set()),
            log_text(l.segments[s.active_segment]),
        ) == s,
{
    lemma_highest(names, l.segments.dom(), s.active_segment);
    written_records_are_lines(l.segments[s.active_segment]);
}

/// The store that comes up in a directory without segments agrees with the log
/// whose one segment, segment 0, is empty.
pub proof fn a_new_store_agrees(policy: RotationPolicy, names: Seq<Seq<char>>)
    requires
        segments_in(names).len() == 0,
    ensures
        agrees(
            resumed(policy, names, Seq::empty(), Seq::empty()),
            Log { segments: map![0u64 => Seq::<RecordView>::empty()], index: Seq::empty() },
        ),
{
    let l = Log { segments: map![0u64 => Seq::<RecordView>::empty()], index: Seq::empty() };
    assert(log_text(l.segments[0]) =~= Seq::empty());
    assert(encode_utf8(Seq::<char>::empty()).len() == 0);
    assert(lines(Seq::<char>::empty()) =~= Seq::empty());
    assert(filled(Seq::<Seq<char>>::empty()) == 0);
}

/// Every record that is there can be found under its key, and what is found
/// under a key has that key.
pub proof fn records_are_found_by_key(s: StoreView, l: Log, key: Seq<char>)
    requires
        agrees(s, l),
    ensures
        forall|i: int|
            0 <= i < locations(s.index, key).len() ==> key_of(
                #[trigger] records_at(l, locations(s.index, key))[i],
            ) == key,
        forall|n: u64, i: int|
            l.segments.dom().contains(n) && 0 <= i < l.segments[n].len() && key_of(
                #[trigger] l.segments[n][i],
            ) == key ==> locations(s.index, key).contains(
                RecordLocation { segment: n, line: i as u64 },
            ),
{
    let locs = locations(s.index, key);
    assert forall|i: int| 0 <= i < locs.len() implies key_of(
        #[trigger] records_at(l, locs)[i],
    ) == key by {
        let k = lemma_place_of_entry(s.index, key, i);
        assert(names_a_record(s.index[k], l));
    }
    assert forall|n: u64, i: int|
        l.segments.dom().contains(n) && 0 <= i < l.segments[n].len() && key_of(
            #[trigger] l.segments[n][i],
        ) == key implies locs.contains(RecordLocation { segment: n, line: i as u64 }) by {
        let e = entry_at(l.segments[n][i], n, i as u64);
        assert(s.index.contains(e));
        lemma_entry_has_place(s.index, key, s.index.index_of(e));
    }
}

proof fn lemma_entry_has_place(index: Seq<EntryView>, key: Seq<char>, k: int)
    requires
        0 <= k < index.len(),
        index[k].key == key,
    ensures
        locations(index, key).contains(
            RecordLocation { segment: index[k].segment, line: index[k].line },
        ),
    decreases index.len(),
{
    let shorter = index.drop_last();
    let all = locations(index, key);
    let loc = RecordLocation { segment: index[k].segment, line: index[k].line };
    if k < shorter.len() {
        lemma_entry_has_place(shorter, key, k);
        let m = locations(shorter, key).index_of(loc);
        assert(all[m] == loc);
    } else {
        assert(all[all.len() - 1] == loc);
    }
}

/// A record that was just written is the last that is found under its key.
pub proof fn the_newest_record_is_found(
    s: StoreView,
    l: Log,
    d: Disk,
    rec: RecordView,
    names: Seq<Seq<char>>,
)
    requires
        agrees(s, l),
        holds(d, l),
        has_room_for(s, line_bytes(record_line(rec))),
    ensures
        ({
            let (s2, d2, loc) = completed(s, begun(s, rec), d, names);
            let locs = locations(s2.index, key_of(rec));
            &&& locs.len() > 0
            &&& locs.last() == loc
            &&& records_at(appended(s, l, rec, names), locs).last() == rec
        }),
{
    append_keeps_agreement(s, l, d, rec, names);
}

/// Whether no segment holds more bytes than the policy allows, unless it holds
/// but one record.
pub open spec fn keeps_to_size(l: Log, policy: RotationPolicy) -> bool {
    forall|n: u64| #[trigger]
        l.segments.dom().contains(n) ==> l.segments[n].len() <= 1 || byte_len(
            log_text(l.segments[n]),
        ) <= policy.max_segment_bytes
}

/// Segments keep to their size: no record makes one outgrow the limit, unless
/// the record alone does.
pub proof fn segments_keep_to_their_size(
    s: StoreView,
    l: Log,
    d: Disk,
    rec: RecordView,
    names: Seq<Seq<char>>,
)
    requires
        agrees(s, l),
        holds(d, l),
        has_room_for(s, line_bytes(record_line(rec))),
        keeps_to_size(l, s.policy),
    ensures
        keeps_to_size(appended(s, l, rec, names), s.policy),
{
    let l2 = appended(s, l, rec, names);
    let n = target(s, rec);
    let turned = rotates(s, line_bytes(record_line(rec)));
    if turned {
        lemma_doomed(segments_in(names), s.policy.max_segments as nat, n);
    }
    let was = if turned {
        Seq::empty()
    } else {
        l.segments[n]
    };
    assert(l2.segments[n] == was.push(rec));
    assert(was.push(rec).drop_last() =~= was);
    byte_len_of_both(log_text(was) + record_line(rec), seq!['\n']);
    byte_len_of_both(log_text(was), record_line(rec));
    lemma_newline_is_one_byte();
    assert forall|m: u64| #[trigger] l2.segments.dom().contains(m) implies l2.segments[m].len() <= 1
        || byte_len(log_text(l2.segments[m])) <= s.policy.max_segment_bytes by {
        if m != n {
            assert(l.segments.dom().contains(m));
            assert(l2.segments[m] == l.segments[m]);
        }
    }
}

/// Two strictly ascending lists of the same numbers are the same.
proof fn lemma_same_list(a: Seq<u64>, b: Seq<u64>)
    requires
        forall|i: int, j: int| 0 <= i < j < a.len() ==> a[i] < a[j],
        forall|i: int, j: int| 0 <= i < j < b.len() ==> b[i] < b[j],
        forall|x: u64| #[trigger] a.contains(x) <==> b.contains(x),
    ensures
        a == b,
    decreases a.len(),
{
    if a.len() == 0 {
        if b.len() > 0 {
            assert(b.contains(b[0]));
            assert(a.contains(b[0]));
        }
        assert(a =~= b);
    } else {
        let x = a.last();
        assert(a.contains(x));
        assert(b.contains(x));
        let y = b.last();
        assert(b.contains(y));
        assert(a.contains(y));
        let i = a.index_of(y);
        let j = b.index_of(x);
        assert(x == y);
        let ta = a.drop_last();
        let tb = b.drop_last();
        assert forall|z: u64| #[trigger] ta.contains(z) <==> tb.contains(z) by {
            if ta.contains(z) {
                let k = ta.index_of(z);
                assert(a[k] == z);
                assert(a.contains(z));
                assert(b.contains(z));
                let h = b.index_of(z);
                assert(tb[h] == z);
            }
            if tb.contains(z) {
                let k = tb.index_of(z);
                assert(b[k] == z);
                assert(b.contains(z));
                assert(a.contains(z));
                let h = a.index_of(z);
                assert(ta[h] == z);
            }
        }
        lemma_same_list(ta, tb);
        assert(a =~= ta.push(x));
        assert(b =~= tb.push(y));
    }
}

proof fn lemma_listing(names: Seq<Seq<char>>, segments: Set<u64>)
    requires
        lists(names, segments),
    ensures
        forall|i: int, j: int|
            0 <= i < j < segments_in(names).len() ==> segments_in(names)[i] < segments_in(names)[j],
        forall|x: u64| #[trigger] segments_in(names).contains(x) <==> segments.contains(x),
{
    ascending_keys_ascend(numbers_in(names));
    let segs = segments_in(names);
    assert forall|i: int, j: int| 0 <= i < j < segs.len() implies segs[i] < segs[j] by {
        assert(segs[i] <= segs[j]);
        assert(segs[i] != segs[j]);
    }
    assert forall|x: u64| #[trigger] segs.contains(x) <==> segments.contains(x) by {
        assert(segs.to_set().contains(x) <==> segs.contains(x));
    }
}

proof fn lemma_records_through(a: Log, b: Log, segs: Seq<u64>)
    requires
        forall|i: int|
            0 <= i < segs.len() ==> a.segments[#[trigger] segs[i]] == b.segments[segs[i]],
    ensures
        records_through(a, segs) == records_through(b, segs),
    decreases segs.len(),
{
    if segs.len() > 0 {
        let shorter = segs.drop_last();
        assert forall|i: int| 0 <= i < shorter.len() implies a.segments[#[trigger] shorter[i]]
            == b.segments[shorter[i]] by {
            assert(shorter[i] == segs[i]);
        }
        lemma_records_through(a, b, shorter);
        assert(a.segments[segs[segs.len() - 1]] == b.segments[segs[segs.len() - 1]]);
    }
}

/// The segments, of those that were listed, that hold after a record is written
/// what they held.
spec fn unchanged(
    s: StoreView,
    rec: RecordView,
    names: Seq<Seq<char>>,
    segs: Seq<u64>,
) -> Seq<u64> {
    if rotates(s, line_bytes(record_line(rec))) {
        segs.subrange(removed(s, rec, names).len() as int, segs.len() as int)
    } else {
        segs.drop_last()
    }
}

/// Which segments are listed after a record is written, and what they hold.
proof fn lemma_segments_after(
    s: StoreView,
    l: Log,
    d: Disk,
    rec: RecordView,
    names: Seq<Seq<char>>,
    earlier: Seq<Seq<char>>,
    later: Seq<Seq<char>>,
)
    requires
        agrees(s, l),
        holds(d, l),
        has_room_for(s, line_bytes(record_line(rec))),
        rotates(s, line_bytes(record_line(rec))) ==> lists(
            names,
            d.segments.dom().insert(target(s, rec)),
        ),
        lists(earlier, d.segments.dom()),
        lists(later, completed(s, begun(s, rec), d, names).1.segments.dom()),
    ensures
        ({
            let l2 = appended(s, l, rec, names);
            let n = target(s, rec);
            let before = segments_in(earlier);
            let after = segments_in(later);
            let k = removed(s, rec, names).len() as int;
            let stay = unchanged(s, rec, names, before);
            &&& l2.segments.dom().contains(n)
            &&& k <= before.len()
            &&& after == stay.push(n)
            &&& forall|i: int|
                0 <= i < stay.len() ==> l.segments.dom().contains(#[trigger] stay[i])
                    && l2.segments.dom().contains(stay[i]) && l2.segments[stay[i]]
                    == l.segments[stay[i]]
            &&& rotates(s, line_bytes(record_line(rec))) ==> l2.segments[n] == seq![rec]
            &&& !rotates(s, line_bytes(record_line(rec))) ==> k == 0 && before == after
                && l2.segments[n] == l.segments[n].push(rec) && l.segments.dom().contains(n)
        }),
{
    append_keeps_agreement(s, l, d, rec, names);
    let l2 = appended(s, l, rec, names);
    let n = target(s, rec);
    let before = segments_in(earlier);
    let after = segments_in(later);
    let gone = removed(s, rec, names);
    let k = gone.len() as int;
    lemma_listing(earlier, l.segments.dom());
    lemma_listing(later, l2.segments.dom());
    lemma_highest(earlier, l.segments.dom(), s.active_segment);
    lemma_highest(later, l2.segments.dom(), n);
    if rotates(s, line_bytes(record_line(rec))) {
        let segs = segments_in(names);
        let there = l.segments.dom().insert(n);
        lemma_listing(names, there);
        lemma_highest(names, there, n);
        lemma_doomed(segs, s.policy.max_segments as nat, n);
        let grown = before.push(n);
        assert forall|x: u64| #[trigger] segs.contains(x) <==> grown.contains(x) by {
            if before.contains(x) {
                assert(grown[before.index_of(x)] == x);
            }
            if x == n {
                assert(grown[before.len() as int] == x);
            }
            if grown.contains(x) && x != n {
                let i = grown.index_of(x);
                assert(before[i] == x);
            }
        }
        assert forall|i: int, j: int| 0 <= i < j < grown.len() implies grown[i] < grown[j] by {
            assert(before.contains(before[i]));
        }
        lemma_same_list(segs, grown);
        assert(!gone.contains(n));
        if k == segs.len() {
            assert(gone[k - 1] == n);
        }
        let kept = segs.subrange(k, segs.len() as int);
        assert forall|x: u64| #[trigger] kept.contains(x) <==> after.contains(x) by {
            if kept.contains(x) {
                let i = kept.index_of(x);
                assert(segs[i + k] == x);
                assert(segs.contains(x));
                if gone.contains(x) {
                    let j = gone.index_of(x);
                    assert(segs[j] == x);
                }
                assert(l2.segments.dom().contains(x));
            }
            if after.contains(x) {
                assert(l2.segments.dom().contains(x));
                assert(there.contains(x));
                assert(segs.contains(x));
                let i = segs.index_of(x);
                if i < k {
                    assert(gone[i] == x);
                    assert(gone.contains(x));
                }
                assert(kept[i - k] == x);
            }
        }
        assert forall|i: int, j: int| 0 <= i < j < kept.len() implies kept[i] < kept[j] by {
            assert(segs[i + k] < segs[j + k]);
        }
        lemma_same_list(kept, after);
        let stay = before.subrange(k, before.len() as int);
        assert(after.drop_last() =~= stay);
        assert(after.last() == n);
        assert(after =~= stay.push(n));
        assert forall|i: int| 0 <= i < stay.len() implies l.segments.dom().contains(
            #[trigger] stay[i],
        ) && l2.segments.dom().contains(stay[i]) && l2.segments[stay[i]] == l.segments[stay[i]] by {
            assert(before.contains(before[i + k]));
            assert(kept[i] == stay[i]);
            assert(after.contains(stay[i]));
        }
        assert(l2.segments[n] =~= seq![rec]);
    } else {
        assert(l2.segments.dom() =~= l.segments.dom());
        lemma_same_list(before, after);
        let stay = before.drop_last();
        assert(after =~= stay.push(n));
        assert forall|i: int| 0 <= i < stay.len() implies l.segments.dom().contains(
            #[trigger] stay[i],
        ) && l2.segments.dom().contains(stay[i]) && l2.segments[stay[i]] == l.segments[stay[i]] by {
            assert(before[i] < before[before.len() - 1]);
            assert(before.contains(stay[i]));
        }
    }
}

/// What is read back after a record is written is what was read back before,
/// less the segments that were removed, with the record behind. `earlier` and
/// `later` list the segments before and after.
pub proof fn reading_gives_back_what_was_written(
    s: StoreView,
    l: Log,
    d: Disk,
    rec: RecordView,
    names: Seq<Seq<char>>,
    earlier: Seq<Seq<char>>,
    later: Seq<Seq<char>>,
)
    requires
        agrees(s, l),
        holds(d, l),
        has_room_for(s, line_bytes(record_line(rec))),
        rotates(s, line_bytes(record_line(rec))) ==> lists(
            names,
            d.segments.dom().insert(target(s, rec)),
        ),
        lists(earlier, d.segments.dom()),
        lists(later, completed(s, begun(s, rec), d, names).1.segments.dom()),
    ensures
        removed(s, rec, names).len() <= segments_in(earlier).len(),
        records_through(appended(s, l, rec, names), segments_in(later)) == records_through(
            l,
            segments_in(earlier).subrange(
                removed(s, rec, names).len() as int,
                segments_in(earlier).len() as int,
            ),
        ).push(rec),
{
    let l2 = appended(s, l, rec, names);
    let n = target(s, rec);
    let before = segments_in(earlier);
    lemma_segments_after(s, l, d, rec, names, earlier, later);
    let stay = unchanged(s, rec, names, before);
    if rotates(s, line_bytes(record_line(rec))) {
        assert(segments_in(later).drop_last() =~= stay);
        lemma_records_through(l2, l, stay);
        assert(records_through(l, stay) + seq![rec] =~= records_through(l, stay).push(rec));
    } else {
        assert(before.subrange(0, before.len() as int) =~= before);
        assert(before.last() == stay.push(n).last());
        lemma_records_through(l2, l, stay);
        assert(records_through(l, stay) + l.segments[n].push(rec) =~= (records_through(l, stay)
            + l.segments[n]).push(rec));
    }
}

/// Whether one list is the end of another.
pub open spec fn is_end_of<T>(end: Seq<T>, whole: Seq<T>) -> bool {
    end.len() <= whole.len() && end == whole.subrange(whole.len() - end.len(), whole.len() as int)
}

proof fn lemma_same_texts(segs: Seq<u64>, a: Seq<(u64, Seq<char>)>, b: Seq<(u64, Seq<char>)>)
    requires
        forall|i: int| 0 <= i < segs.len() ==> text_in(a, #[trigger] segs[i]) == text_in(b, segs[i]),
    ensures
        all_records(segs, a) == all_records(segs, b),
    decreases segs.len(),
{
    if segs.len() > 0 {
        let shorter = segs.drop_last();
        assert forall|i: int| 0 <= i < shorter.len() implies text_in(a, #[trigger] shorter[i])
            == text_in(b, shorter[i]) by {
            assert(shorter[i] == segs[i]);
        }
        lemma_same_texts(shorter, a, b);
        assert(text_in(a, segs[segs.len() - 1]) == text_in(b, segs[segs.len() - 1]));
    }
}

/// What is read from all segments ends with what is read from the last of them.
proof fn lemma_end_of_reading(segs: Seq<u64>, texts: Seq<(u64, Seq<char>)>, k: int)
    requires
        0 <= k <= segs.len(),
        all_records(segs, texts) is Ok,
    ensures
        all_records(segs.subrange(k, segs.len() as int), texts) is Ok,
        is_end_of(
            all_records(segs.subrange(k, segs.len() as int), texts)->Ok_0,
            all_records(segs, texts)->Ok_0,
        ),
    decreases segs.len(),
{
    let end = segs.subrange(k, segs.len() as int);
    let whole = all_records(segs, texts)->Ok_0;
    if k == segs.len() {
        assert(end =~= Seq::empty());
        assert(whole.subrange(whole.len() as int, whole.len() as int) =~= Seq::empty());
    } else {
        let shorter = segs.drop_last();
        lemma_end_of_reading(shorter, texts, k);
        let part = all_records(shorter.subrange(k, shorter.len() as int), texts)->Ok_0;
        assert(end.drop_last() =~= shorter.subrange(k, shorter.len() as int));
        let read = all_records(end, texts)->Ok_0;
        assert(read =~= whole.subrange(whole.len() - read.len(), whole.len() as int)) by {
            let rest = all_records(shorter, texts)->Ok_0;
            assert(part == rest.subrange(rest.len() - part.len(), rest.len() as int));
        }
    }
}

/// Writing a record changes nothing in how the others are read, whatever they
/// are read as: what is read after it is the end of what was read before, all of
/// it where no segment was removed, with what the record's own line gives
/// behind. `earlier` and `later` list the segments before and after, `texts` and
/// `texts2` are what they hold.
pub proof fn reading_grows_by_the_record(
    s: StoreView,
    l: Log,
    d: Disk,
    rec: RecordView,
    names: Seq<Seq<char>>,
    earlier: Seq<Seq<char>>,
    later: Seq<Seq<char>>,
    texts: Seq<(u64, Seq<char>)>,
    texts2: Seq<(u64, Seq<char>)>,
    before: Seq<RecordView>,
)
    requires
        agrees(s, l),
        holds(d, l),
        has_room_for(s, line_bytes(record_line(rec))),
        rotates(s, line_bytes(record_line(rec))) ==> lists(
            names,
            d.segments.dom().insert(target(s, rec)),
        ),
        lists(earlier, d.segments.dom()),
        lists(later, completed(s, begun(s, rec), d, names).1.segments.dom()),
        texts_hold(texts, l),
        texts_hold(texts2, appended(s, l, rec, names)),
        log_is_valid(l),
        valid(rec.raw_payload),
        all_records(segments_in(earlier), texts) == Ok::<Seq<RecordView>, RecordError>(before),
    ensures
        match line_record(record_line(rec)) {
            Err(e) => all_records(segments_in(later), texts2) == Err::<
                Seq<RecordView>,
                RecordError,
            >(e),
            Ok(back) => {
                &&& all_records(segments_in(later), texts2) matches Ok(after)
                &&& after.len() > 0
                &&& after.last() == back
                &&& is_end_of(after.drop_last(), before)
                &&& removed(s, rec, names).len() == 0 ==> after.drop_last() == before
            },
        },
{
    let l2 = appended(s, l, rec, names);
    let n = target(s, rec);
    let segs = segments_in(earlier);
    let k = removed(s, rec, names).len() as int;
    lemma_segments_after(s, l, d, rec, names, earlier, later);
    let turned = rotates(s, line_bytes(record_line(rec)));
    let stay = unchanged(s, rec, names, segs);
    assert(segments_in(later).drop_last() =~= stay);
    assert(segments_in(later).last() == n);
    assert forall|i: int| 0 <= i < stay.len() implies text_in(texts, #[trigger] stay[i])
        == text_in(texts2, stay[i]) by {
        assert(l.segments.dom().contains(stay[i]) && l2.segments.dom().contains(stay[i]));
    }
    lemma_same_texts(stay, texts, texts2);
    assert(text_in(texts2, n) == log_text(l2.segments[n]));
    let was: Seq<RecordView> = if turned {
        Seq::empty()
    } else {
        l.segments[n]
    };
    assert(l2.segments[n] =~= was.push(rec));
    assert(all_valid(was));
    a_written_record_is_read_next(was, rec);
    if turned {
        lemma_end_of_reading(segs, texts, k);
        written_records_are_lines(was);
        assert(records_in(log_text(was)) == Ok::<Seq<RecordView>, RecordError>(Seq::empty()));
        if k == 0 {
            assert(stay =~= segs);
        }
    } else {
        assert(text_in(texts, n) == log_text(was));
        assert(segs.last() == n);
    }
    if line_record(record_line(rec)) is Ok {
        let back = line_record(record_line(rec))->Ok_0;
        let after = all_records(segments_in(later), texts2)->Ok_0;
        let kept = all_records(stay, texts)->Ok_0;
        if turned {
            assert(kept + Seq::<RecordView>::empty().push(back) =~= kept.push(back));
            assert(after.drop_last() =~= kept);
        } else {
            assert(after.drop_last() =~= before);
            assert(before.subrange(0, before.len() as int) =~= before);
        }
    }
}

/// The places outside the given segments, in their order.
pub open spec fn staying(locs: Seq<RecordLocation>, gone: Seq<u64>) -> Seq<RecordLocation>
    decreases locs.len(),
{
    if locs.len() == 0 {
        Seq::empty()
    } else if gone.contains(locs.last().segment) {
        staying(locs.drop_last(), gone)
    } else {
        staying(locs.drop_last(), gone).push(locs.last())
    }
}

proof fn lemma_live_places(
    entries: Seq<EntryView>,
    before: Set<u64>,
    after: Set<u64>,
    gone: Seq<u64>,
    key: Seq<char>,
)
    requires
        forall|i: int|
            0 <= i < entries.len() ==> (after.contains((#[trigger] entries[i]).segment)
                <==> before.contains(entries[i].segment) && !gone.contains(entries[i].segment)),
    ensures
        locations(live(entries, after), key) == staying(locations(live(entries, before), key), gone),
    decreases entries.len(),
{
    if entries.len() > 0 {
        let shorter = entries.drop_last();
        let last = entries.last();
        assert(entries[entries.len() - 1] == last);
        assert forall|i: int| 0 <= i < shorter.len() implies (after.contains(
            (#[trigger] shorter[i]).segment,
        ) <==> before.contains(shorter[i].segment) && !gone.contains(shorter[i].segment)) by {
            assert(shorter[i] == entries[i]);
        }
        lemma_live_places(shorter, before, after, gone, key);
        let a = live(shorter, after);
        let b = live(shorter, before);
        let loc = RecordLocation { segment: last.segment, line: last.line };
        assert(a.push(last).drop_last() =~= a);
        assert(b.push(last).drop_last() =~= b);
        assert(locations(b, key).push(loc).drop_last() =~= locations(b, key));
    }
}

/// Writing a record adds its place at the end of those under its key. Of every
/// key the other places stay as they were, but for those in segments that were
/// removed.
pub proof fn places_grow_by_the_record(
    s: StoreView,
    l: Log,
    d: Disk,
    rec: RecordView,
    names: Seq<Seq<char>>,
    key: Seq<char>,
)
    requires
        agrees(s, l),
        holds(d, l),
        has_room_for(s, line_bytes(record_line(rec))),
    ensures
        ({
            let (s2, d2, loc) = completed(s, begun(s, rec), d, names);
            let stay = staying(locations(s.index, key), removed(s, rec, names));
            locations(s2.index, key) == (if key == key_of(rec) {
                stay.push(loc)
            } else {
                stay
            })
        }),
{
    append_keeps_agreement(s, l, d, rec, names);
    let (s2, d2, loc) = completed(s, begun(s, rec), d, names);
    let l2 = appended(s, l, rec, names);
    let n = target(s, rec);
    let gone = removed(s, rec, names);
    let there = l2.segments.dom();
    if rotates(s, line_bytes(record_line(rec))) {
        lemma_doomed(segments_in(names), s.policy.max_segments as nat, n);
    }
    assert forall|i: int| 0 <= i < l.index.len() implies (there.contains(
        (#[trigger] l.index[i]).segment,
    ) <==> l.segments.dom().contains(l.index[i].segment) && !gone.contains(l.index[i].segment)) by {
        assert(l.index[i].segment <= s.active_segment);
    }
    lemma_live_places(l.index, l.segments.dom(), there, gone, key);
    assert(l2.index.drop_last() =~= l.index);
    assert(l2.index.last().segment == n);
    assert(there.contains(n));
    assert(s2.index == live(l.index, there).push(l2.index.last()));
    assert(s2.index.drop_last() =~= live(l.index, there));
}

/// Where the records under the key of a record that was just written can be
/// read, the last of them is what the record's own line gives.
pub proof fn the_newest_record_is_read_last(
    s: StoreView,
    l: Log,
    d: Disk,
    rec: RecordView,
    names: Seq<Seq<char>>,
    texts: Seq<(u64, Seq<char>)>,
)
    requires
        agrees(s, l),
        holds(d, l),
        has_room_for(s, line_bytes(record_line(rec))),
        log_is_valid(l),
        valid(rec.raw_payload),
        texts_hold(texts, appended(s, l, rec, names)),
    ensures
        ({
            let (s2, d2, loc) = completed(s, begun(s, rec), d, names);
            located(locations(s2.index, key_of(rec)), texts) matches Ok(read) ==> read.len() > 0
                && line_record(record_line(rec)) == Ok::<RecordView, RecordError>(read.last())
        }),
{
    append_keeps_agreement(s, l, d, rec, names);
    the_newest_record_is_found(s, l, d, rec, names);
    let (s2, d2, loc) = completed(s, begun(s, rec), d, names);
    let l2 = appended(s, l, rec, names);
    let n = target(s, rec);
    let recs = l2.segments[n];
    let was: Seq<RecordView> = if rotates(s, line_bytes(record_line(rec))) {
        Seq::empty()
    } else {
        l.segments[n]
    };
    if rotates(s, line_bytes(record_line(rec))) {
        lemma_doomed(segments_in(names), s.policy.max_segments as nat, n);
    }
    assert(recs == was.push(rec));
    assert(all_valid(was));
    assert(all_valid(recs)) by {
        assert forall|i: int| 0 <= i < recs.len() implies valid((#[trigger] recs[i]).raw_payload) by {
            if i < was.len() {
                assert(recs[i] == was[i]);
            }
        }
    }
    assert(text_in(texts, n) == log_text(recs));
    written_records_are_read_one_by_one(recs);
    if located(locations(s2.index, key_of(rec)), texts) is Ok {
        assert(records_in(log_text(recs)) is Ok);
        assert(line_record(record_line(recs[loc.line as int])) is Ok);
    }
}

} // verus!
