//! Where records are written, and how they are found again.

use crate::disk::{completed, performed, target, Disk};
use crate::index::{entries_of, entry_line, index_text, line_entry, live, EntryView};
use crate::order::{ascending, ascending_keys_ascend};
use crate::record::{key_of, line_record, record_line, RecordError, RecordView};
use crate::segment::{
    filled, log_text, number_of, numbers_in, records_in, records_of,
    segments_are_listed_in_order, segments_in,
};
use crate::store::{
    after, all_records, begun, can_go_on, counted, doomed, has_room_for, line_bytes, located,
    locations, pruning, resumed, resumed_segment, task_of, text_in, without, AppendView, PhaseView,
    RecordLocation, RotationPolicy, StoreView,
};
use crate::text::{byte_len, is_blank, lines};
use vstd::prelude::*;

verus! {

// ── Segments ───────────────────────────────────────────────────────────────

/// Every name of a segment is listed once, and no other; the numbers ascend.
pub proof fn every_segment_is_listed(names: Seq<Seq<char>>, name: Seq<char>)
    ensures
        segments_in(Seq::empty()).len() == 0,
        number_of(name) is Some ==> segments_in(names.push(name)).len() == segments_in(names).len()
            + 1 && segments_in(names.push(name)).contains(number_of(name)->0),
        number_of(name) is None ==> segments_in(names.push(name)) == segments_in(names),
        forall|i: int, j: int|
            #![trigger segments_in(names)[i], segments_in(names)[j]]
            0 <= i <= j < segments_in(names).len() ==> segments_in(names)[i] <= segments_in(
                names,
            )[j],
{
    assert(names.push(name).drop_last() =~= names);
    ascending_keys_ascend(numbers_in(Seq::empty()));
    ascending_keys_ascend(numbers_in(names));
    ascending_keys_ascend(numbers_in(names.push(name)));
    if number_of(name) is Some {
        let more = numbers_in(names.push(name));
        assert(more[more.len() - 1] == number_of(name)->0);
        assert(more.contains(number_of(name)->0));
        assert(ascending(more).contains(number_of(name)->0));
    }
}

/// After a restart records are written to the segment with the highest number
/// that there is, or to segment 0 where there is none. What it holds is taken
/// from its text.
pub proof fn the_highest_segment_is_taken_up(
    policy: RotationPolicy,
    names: Seq<Seq<char>>,
    index: Seq<EntryView>,
    text: Seq<char>,
    i: int,
)
    requires
        0 <= i < names.len(),
    ensures
        number_of(names[i]) is Some ==> number_of(names[i])->0 <= resumed_segment(names),
        (exists|j: int| 0 <= j < names.len() && number_of(#[trigger] names[j]) is Some)
            ==> exists|j: int|
            0 <= j < names.len() && number_of(#[trigger] names[j]) == Some(resumed_segment(names)),
        (forall|j: int| 0 <= j < names.len() ==> number_of(#[trigger] names[j]) is None)
            ==> resumed_segment(names) == 0,
        resumed(policy, names, index, text).policy == policy,
        resumed(policy, names, index, text).active_segment == resumed_segment(names),
        resumed(policy, names, index, text).active_bytes == byte_len(text) as u64,
        resumed(policy, names, index, text).active_lines == filled(lines(text)) as u64,
        resumed(policy, names, index, text).index == index,
{
    let segs = segments_in(names);
    segments_are_listed_in_order(names);
    if number_of(names[i]) is Some {
        let n = number_of(names[i])->0;
        assert(segs.contains(n));
        let at = choose|at: int| 0 <= at < segs.len() && segs[at] == n;
        assert(segs[at] <= segs[segs.len() - 1]);
    }
    if exists|j: int| 0 <= j < names.len() && number_of(#[trigger] names[j]) is Some {
        let j = choose|j: int| 0 <= j < names.len() && number_of(#[trigger] names[j]) is Some;
        let n = number_of(names[j])->0;
        assert(segs.contains(n));
        assert(segs.contains(segs[segs.len() - 1]));
    }
    if forall|j: int| 0 <= j < names.len() ==> number_of(#[trigger] names[j]) is None {
        if segs.len() > 0 {
            assert(segs.contains(segs[0]));
        }
    }
}

/// The record goes to the segment that is written to where that is empty still,
/// or where the record fits in; otherwise to the next.
pub proof fn a_record_that_fits_stays(s: StoreView, rec: RecordView)
    ensures
        ({
            let after = s.active_bytes + byte_len(record_line(rec)) + 1;
            &&& begun(s, rec).line == record_line(rec)
            &&& begun(s, rec).key == key_of(rec)
            &&& s.active_lines == 0 || after <= s.policy.max_segment_bytes ==> target(s, rec)
                == s.active_segment && begun(s, rec).phase is Writing
            &&& s.active_lines > 0 && after > s.policy.max_segment_bytes && s.active_segment
                < u64::MAX ==> target(s, rec) == s.active_segment + 1 && begun(s, rec).phase
                is Opening
            &&& has_room_for(s, line_bytes(record_line(rec))) <==> after <= u64::MAX
                && s.active_lines < u64::MAX && (s.active_lines == 0 || after
                <= s.policy.max_segment_bytes || s.active_segment < u64::MAX)
        }),
{
}

/// Of more segments than may be kept the oldest are removed: no more than it
/// takes, and none from the one on that is written to.
pub proof fn the_oldest_segments_are_removed(segs: Seq<u64>, max: nat, active: u64)
    ensures
        ({
            let k = doomed(segs, max, active).len() as int;
            &&& k <= segs.len()
            &&& doomed(segs, max, active) == segs.subrange(0, k)
            &&& forall|i: int| 0 <= i < k ==> #[trigger] segs[i] != active
            &&& segs.len() - k <= max || (k < segs.len() && segs[k] == active)
            &&& k > 0 ==> segs.len() - k >= max
        }),
    decreases segs.len(),
{
    if segs.len() <= max || segs.len() == 0 || segs[0] == active {
        assert(doomed(segs, max, active) =~= segs.subrange(0, 0));
    } else {
        let rest = segs.subrange(1, segs.len() as int);
        the_oldest_segments_are_removed(rest, max, active);
        let k = doomed(rest, max, active).len() as int;
        assert(doomed(segs, max, active) =~= segs.subrange(0, k + 1));
        assert forall|i: int| 0 <= i < k + 1 implies #[trigger] segs[i] != active by {
            if i > 0 {
                assert(rest[i - 1] == segs[i]);
            }
        }
        if k < rest.len() {
            assert(rest[k] == segs[k + 1]);
        }
    }
}

// ── Writing ────────────────────────────────────────────────────────────────

/// A record that fits in is written behind what the segment holds, and its entry
/// behind the sidecar's. The store counts the line and its bytes, and finds the
/// record under its key. No other file is touched.
pub proof fn a_record_is_written_behind_the_others(
    s: StoreView,
    d: Disk,
    rec: RecordView,
    names: Seq<Seq<char>>,
)
    requires
        has_room_for(s, line_bytes(record_line(rec))),
        s.active_lines == 0 || s.active_bytes + byte_len(record_line(rec)) + 1
            <= s.policy.max_segment_bytes,
    ensures
        ({
            let (s2, d2, loc) = completed(s, begun(s, rec), d, names);
            let entry = EntryView {
                key: key_of(rec),
                segment: s.active_segment,
                line: s.active_lines,
            };
            &&& loc.segment == s.active_segment
            &&& loc.line == s.active_lines
            &&& s2.policy == s.policy
            &&& s2.active_segment == s.active_segment
            &&& s2.active_bytes == s.active_bytes + byte_len(record_line(rec)) + 1
            &&& s2.active_lines == s.active_lines + 1
            &&& s2.index == s.index.push(entry)
            &&& d2.index == d.index + entry_line(entry) + seq!['\n']
            &&& d2.segments == d.segments.insert(
                s.active_segment,
                d.segments[s.active_segment] + record_line(rec) + seq!['\n'],
            )
        }),
{
    lemma_written(s, begun(s, rec), d, names);
}

proof fn lemma_written(s: StoreView, a: AppendView, d: Disk, names: Seq<Seq<char>>)
    requires
        a.phase is Writing,
        can_go_on(s, a),
    ensures
        ({
            let (s2, d2, loc) = completed(s, a, d, names);
            let entry = EntryView { key: a.key, segment: s.active_segment, line: s.active_lines };
            &&& loc.segment == s.active_segment
            &&& loc.line == s.active_lines
            &&& s2.policy == s.policy
            &&& s2.active_segment == s.active_segment
            &&& s2.active_bytes == s.active_bytes + byte_len(a.line) + 1
            &&& s2.active_lines == s.active_lines + 1
            &&& s2.index == s.index.push(entry)
            &&& d2.index == d.index + entry_line(entry) + seq!['\n']
            &&& d2.segments == d.segments.insert(
                s.active_segment,
                d.segments[s.active_segment] + a.line + seq!['\n'],
            )
        }),
{
    let d1 = performed(d, task_of(s, a));
    let (s1, a1) = after(s, a, names);
    let d2 = performed(d1, task_of(s1, a1));
    let (s2, a2) = after(s1, a1, names);
    assert(completed(s, a, d, names) == completed(s1, a1, d1, names));
    assert(completed(s1, a1, d1, names) == completed(s2, a2, d2, names));
    assert(completed(s2, a2, d2, names) == (s2, d2, a2.phase->Finished_0));
}

/// The entries outside the given segments.
pub open spec fn outside(index: Seq<EntryView>, gone: Seq<u64>) -> Seq<EntryView> {
    index.filter(|e: EntryView| !gone.contains(e.segment))
}

/// The entries but for those of a segment are the others, in their order.
pub proof fn a_removed_segment_is_forgotten(index: Seq<EntryView>, n: u64)
    ensures
        without(index, n) == index.filter(|e: EntryView| e.segment != n),
    decreases index.len(),
{
    reveal(Seq::filter);
    if index.len() > 0 {
        a_removed_segment_is_forgotten(index.drop_last(), n);
    }
}

proof fn lemma_outside_more(index: Seq<EntryView>, gone: Seq<u64>)
    requires
        gone.len() > 0,
    ensures
        outside(index, gone) == outside(without(index, gone[0]), gone.subrange(1, gone.len() as int)),
    decreases index.len(),
{
    reveal(Seq::filter);
    let rest = gone.subrange(1, gone.len() as int);
    if index.len() > 0 {
        let shorter = index.drop_last();
        let last = index.last();
        lemma_outside_more(shorter, gone);
        assert(gone.contains(last.segment) <==> last.segment == gone[0] || rest.contains(
            last.segment,
        )) by {
            if gone.contains(last.segment) {
                let i = choose|i: int| 0 <= i < gone.len() && gone[i] == last.segment;
                if i > 0 {
                    assert(rest[i - 1] == last.segment);
                }
            }
            if rest.contains(last.segment) {
                let i = choose|i: int| 0 <= i < rest.len() && rest[i] == last.segment;
                assert(gone[i + 1] == last.segment);
            }
        }
        if last.segment != gone[0] {
            assert(without(index, gone[0]).drop_last() =~= without(shorter, gone[0]));
            assert(without(index, gone[0]).last() == last);
        }
    }
}

proof fn lemma_outside_none(index: Seq<EntryView>, gone: Seq<u64>)
    requires
        gone.len() == 0,
    ensures
        outside(index, gone) == index,
    decreases index.len(),
{
    reveal(Seq::filter);
    if index.len() > 0 {
        lemma_outside_none(index.drop_last(), gone);
        assert(index.drop_last().push(index.last()) =~= index);
    }
}

proof fn lemma_pruned(s: StoreView, a: AppendView, d: Disk, names: Seq<Seq<char>>, gone: Seq<u64>)
    requires
        a.phase == pruning(gone),
        can_go_on(s, a),
    ensures
        ({
            let there = d.segments.remove_keys(gone.to_set());
            completed(s, a, d, names) == completed(
                StoreView { index: outside(s.index, gone), ..s },
                AppendView { phase: PhaseView::Writing, ..a },
                Disk { segments: there, ..d },
                names,
            )
        }),
    decreases gone.len(),
{
    if gone.len() == 0 {
        lemma_outside_none(s.index, gone);
        assert(d.segments.remove_keys(gone.to_set()) =~= d.segments);
        assert(a == (AppendView { phase: PhaseView::Writing, ..a }));
    } else {
        let rest = gone.subrange(1, gone.len() as int);
        let d1 = performed(d, task_of(s, a));
        let (s1, a1) = after(s, a, names);
        assert(completed(s, a, d, names) == completed(s1, a1, d1, names));
        lemma_pruned(s1, a1, d1, names, rest);
        lemma_outside_more(s.index, gone);
        assert(d1.segments == d.segments.remove(gone[0]));
        assert(d1.segments.remove_keys(rest.to_set()) =~= d.segments.remove_keys(gone.to_set()))
            by {
            assert forall|n: u64| gone.contains(n) <==> n == gone[0] || #[trigger] rest.contains(
                n,
            ) by {
                if gone.contains(n) {
                    let i = choose|i: int| 0 <= i < gone.len() && gone[i] == n;
                    if i > 0 {
                        assert(rest[i - 1] == n);
                    }
                }
                if rest.contains(n) {
                    let i = choose|i: int| 0 <= i < rest.len() && rest[i] == n;
                    assert(gone[i + 1] == n);
                }
            }
        }
    }
}

/// A record that does not fit in is written to the next segment, as its first
/// line. Of the segments that are listed then, the oldest are removed, with their
/// entries, and no other file is touched.
pub proof fn a_record_that_does_not_fit_starts_a_segment(
    s: StoreView,
    d: Disk,
    rec: RecordView,
    names: Seq<Seq<char>>,
)
    requires
        has_room_for(s, line_bytes(record_line(rec))),
        s.active_lines > 0,
        s.active_bytes + byte_len(record_line(rec)) + 1 > s.policy.max_segment_bytes,
        !d.segments.dom().contains((s.active_segment + 1) as u64),
    ensures
        ({
            let (s2, d2, loc) = completed(s, begun(s, rec), d, names);
            let n = (s.active_segment + 1) as u64;
            let gone = doomed(segments_in(names), s.policy.max_segments as nat, n);
            let entry = EntryView { key: key_of(rec), segment: n, line: 0 };
            &&& loc.segment == s.active_segment + 1
            &&& loc.line == 0
            &&& s2.policy == s.policy
            &&& s2.active_segment == s.active_segment + 1
            &&& s2.active_bytes == byte_len(record_line(rec)) + 1
            &&& s2.active_lines == 1
            &&& s2.index == outside(s.index, gone).push(entry)
            &&& d2.index == d.index + entry_line(entry) + seq!['\n']
            &&& d2.segments == d.segments.remove_keys(gone.to_set()).insert(
                n,
                record_line(rec) + seq!['\n'],
            )
        }),
{
    let a = begun(s, rec);
    let n = (s.active_segment + 1) as u64;
    let segs = segments_in(names);
    let max = s.policy.max_segments as nat;
    let gone = doomed(segs, max, n);
    let d1 = performed(d, task_of(s, a));
    let (s1, a1) = after(s, a, names);
    assert(completed(s, a, d, names) == completed(s1, a1, d1, names));
    let d2 = performed(d1, task_of(s1, a1));
    let (s2, a2) = after(s1, a1, names);
    assert(completed(s1, a1, d1, names) == completed(s2, a2, d2, names));
    assert(a2.phase == pruning(gone));
    lemma_pruned(s2, a2, d2, names, gone);
    the_oldest_segments_are_removed(segs, max, n);
    assert(!gone.contains(n));
    let s3 = StoreView { index: outside(s2.index, gone), ..s2 };
    let a3 = AppendView { phase: PhaseView::Writing, ..a2 };
    let d3 = Disk { segments: d2.segments.remove_keys(gone.to_set()), ..d2 };
    lemma_written(s3, a3, d3, names);
    assert(d3.segments[n].len() == 0);
    assert(d3.segments[n] + record_line(rec) + seq!['\n'] =~= record_line(rec) + seq!['\n']);
    assert(completed(s, a, d, names).1.segments =~= d.segments.remove_keys(gone.to_set()).insert(
        n,
        record_line(rec) + seq!['\n'],
    ));
}

// ── Reading ────────────────────────────────────────────────────────────────

/// The places of records under a key are those of the entries with the key, in
/// their order.
pub proof fn places_are_found_by_key(index: Seq<EntryView>, key: Seq<char>)
    ensures
        locations(index, key) == index.filter(|e: EntryView| e.key == key).map_values(
            |e: EntryView| RecordLocation { segment: e.segment, line: e.line },
        ),
    decreases index.len(),
{
    reveal(Seq::filter);
    let place = |e: EntryView| RecordLocation { segment: e.segment, line: e.line };
    let found = index.filter(|e: EntryView| e.key == key);
    if index.len() > 0 {
        places_are_found_by_key(index.drop_last(), key);
        let earlier = index.drop_last().filter(|e: EntryView| e.key == key);
        if index.last().key == key {
            assert(found.map_values(place) =~= earlier.map_values(place).push(place(index.last())));
        }
    } else {
        assert(found.map_values(place) =~= Seq::empty());
    }
}

/// The entries that are live are those of the segments that are there, in their
/// order.
pub proof fn live_entries_are_of_segments_that_are_there(
    entries: Seq<EntryView>,
    segments: Set<u64>,
)
    ensures
        live(entries, segments) == entries.filter(|e: EntryView| segments.contains(e.segment)),
    decreases entries.len(),
{
    reveal(Seq::filter);
    if entries.len() > 0 {
        live_entries_are_of_segments_that_are_there(entries.drop_last(), segments);
    }
}

/// The text of a segment is the first that is given for it (`i`; as many as there
/// are where none is given).
pub proof fn a_text_is_given_by_its_segment(texts: Seq<(u64, Seq<char>)>, n: u64, i: int)
    requires
        0 <= i <= texts.len(),
        forall|j: int| 0 <= j < i ==> (#[trigger] texts[j]).0 != n,
        i < texts.len() ==> texts[i].0 == n,
    ensures
        i < texts.len() ==> text_in(texts, n) == texts[i].1,
        i == texts.len() ==> text_in(texts, n).len() == 0,
    decreases texts.len(),
{
    if texts.len() > 0 && i > 0 {
        let rest = texts.subrange(1, texts.len() as int);
        assert(texts[0].0 != n);
        assert forall|j: int| 0 <= j < i - 1 implies (#[trigger] rest[j]).0 != n by {
            assert(rest[j] == texts[j + 1]);
        }
        a_text_is_given_by_its_segment(rest, n, i - 1);
    }
}

/// Each line that is not blank counts as a record.
pub proof fn filled_lines_are_counted(
    ls: Seq<Seq<char>>,
    line: Seq<char>,
    segs: Seq<u64>,
    n: u64,
    texts: Seq<(u64, Seq<char>)>,
)
    ensures
        filled(Seq::empty()) == 0,
        is_blank(line) ==> filled(ls.push(line)) == filled(ls),
        !is_blank(line) ==> filled(ls.push(line)) == filled(ls) + 1,
        counted(Seq::empty(), texts) == 0,
        counted(segs.push(n), texts) == counted(segs, texts) + filled(lines(text_in(texts, n))),
{
    assert(ls.push(line).drop_last() =~= ls);
    assert(segs.push(n).drop_last() =~= segs);
}

/// The records of a text come line by line, blank ones left out, and those of the
/// segments one segment behind the other. The first line that holds no record
/// stops the reading.
pub proof fn records_are_read_line_by_line(
    ls: Seq<Seq<char>>,
    line: Seq<char>,
    segs: Seq<u64>,
    n: u64,
    texts: Seq<(u64, Seq<char>)>,
)
    ensures
        records_of(Seq::empty()) == Ok::<Seq<RecordView>, RecordError>(Seq::empty()),
        records_of(ls) is Err ==> records_of(ls.push(line)) == records_of(ls),
        records_of(ls) is Ok && is_blank(line) ==> records_of(ls.push(line)) == records_of(ls),
        records_of(ls) is Ok && !is_blank(line) && line_record(line) is Ok ==> records_of(
            ls.push(line),
        ) == Ok::<Seq<RecordView>, RecordError>(
            records_of(ls)->Ok_0.push(line_record(line)->Ok_0),
        ),
        records_of(ls) is Ok && !is_blank(line) && line_record(line) is Err ==> records_of(
            ls.push(line),
        ) == Err::<Seq<RecordView>, RecordError>(line_record(line)->Err_0),
        all_records(Seq::empty(), texts) == Ok::<Seq<RecordView>, RecordError>(Seq::empty()),
        all_records(segs, texts) is Err ==> all_records(segs.push(n), texts) == all_records(
            segs,
            texts,
        ),
        all_records(segs, texts) is Ok && records_of(lines(text_in(texts, n))) is Ok
            ==> all_records(segs.push(n), texts) == Ok::<Seq<RecordView>, RecordError>(
            all_records(segs, texts)->Ok_0 + records_of(lines(text_in(texts, n)))->Ok_0,
        ),
        all_records(segs, texts) is Ok && records_of(lines(text_in(texts, n))) is Err
            ==> all_records(segs.push(n), texts) == Err::<Seq<RecordView>, RecordError>(
            records_of(lines(text_in(texts, n)))->Err_0,
        ),
{
    assert(ls.push(line).drop_last() =~= ls);
    assert(segs.push(n).drop_last() =~= segs);
}

/// The records at places are those that stand at the line of the segment, one
/// for each place that is there.
pub proof fn records_are_read_at_their_places(
    locs: Seq<RecordLocation>,
    loc: RecordLocation,
    texts: Seq<(u64, Seq<char>)>,
)
    ensures
        located(Seq::empty(), texts) == Ok::<Seq<RecordView>, RecordError>(Seq::empty()),
        located(locs, texts) is Err ==> located(locs.push(loc), texts) == located(locs, texts),
        located(locs, texts) is Ok ==> {
            let there = records_in(text_in(texts, loc.segment));
            &&& there is Err ==> located(locs.push(loc), texts) == there
            &&& there is Ok && loc.line < there->Ok_0.len() ==> located(locs.push(loc), texts)
                == Ok::<Seq<RecordView>, RecordError>(
                located(locs, texts)->Ok_0.push(there->Ok_0[loc.line as int]),
            )
            &&& there is Ok && loc.line >= there->Ok_0.len() ==> located(locs.push(loc), texts)
                == located(locs, texts)
        },
{
    assert(locs.push(loc).drop_last() =~= locs);
}

/// The sidecar is read line by line, blank ones left out. A line that holds no
/// entry makes it unreadable.
pub proof fn entries_are_read_line_by_line(ls: Seq<Seq<char>>, line: Seq<char>)
    ensures
        entries_of(Seq::empty()) == Some(Seq::<EntryView>::empty()),
        entries_of(ls) is None ==> entries_of(ls.push(line)) is None,
        entries_of(ls) is Some && is_blank(line) ==> entries_of(ls.push(line)) == entries_of(ls),
        entries_of(ls) is Some && !is_blank(line) && line_entry(line) is Some ==> entries_of(
            ls.push(line),
        ) == Some(entries_of(ls)->0.push(line_entry(line)->0)),
        entries_of(ls) is Some && !is_blank(line) && line_entry(line) is None ==> entries_of(
            ls.push(line),
        ) is None,
{
    assert(ls.push(line).drop_last() =~= ls);
}

/// Records and entries are written a line each, one behind the other.
pub proof fn texts_grow_by_a_line(
    recs: Seq<RecordView>,
    rec: RecordView,
    entries: Seq<EntryView>,
    e: EntryView,
)
    ensures
        log_text(Seq::empty()).len() == 0,
        log_text(recs.push(rec)) == log_text(recs) + record_line(rec) + seq!['\n'],
        index_text(Seq::empty()).len() == 0,
        index_text(entries.push(e)) == index_text(entries) + entry_line(e) + seq!['\n'],
{
    assert(recs.push(rec).drop_last() =~= recs);
    assert(entries.push(e).drop_last() =~= entries);
}

} // verus!
