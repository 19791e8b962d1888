//! Segments: the numbered files that hold the records, one to a line.

use crate::order::{ascending, ascending_keys_ascend, sorted_keys};
use crate::payload::{is_kept, valid};
use crate::record::{
    line_record, record_line, record_line_is_one_line, Record, RecordError, RecordView,
};
use crate::text::{
    a_written_line_is_the_next, between, blank, chomped, decimal, is_blank, lines, lines_of,
    parse_unsigned, push_decimal, split_lines, strip, unsigned,
    unsigned_reads_decimal,
};
use vstd::prelude::*;

verus! {

// ── Names ──────────────────────────────────────────────────────────────────

/// How the name of a segment begins.
pub const SEGMENT_PREFIX: &'static str = "segment-";

/// How the name of a segment ends.
pub const SEGMENT_SUFFIX: &'static str = ".ndjson";

/// The name of a segment.
pub open spec fn name_of(n: u64) -> Seq<char> {
    "segment-"@ + decimal(n as nat) + ".ndjson"@
}

/// The name of a segment.
pub fn segment_name(n: u64) -> (r: String)
    ensures
        r@ == name_of(n),
{
    let mut out: String = SEGMENT_PREFIX.to_string();
    push_decimal(&mut out, n);
    out.append(SEGMENT_SUFFIX);
    out
}

/// The number of the segment that a name names, if it names one.
pub open spec fn number_of(name: Seq<char>) -> Option<u64> {
    match between(name, "segment-"@, ".ndjson"@) {
        Some(digits) => unsigned(digits),
        None => None,
    }
}

/// The number of the segment that a name names, if it names one.
pub fn parse_segment_number(name: &str) -> (r: Option<u64>)
    ensures
        r == number_of(name@),
{
    match strip(name, SEGMENT_PREFIX, SEGMENT_SUFFIX) {
        Some(digits) => parse_unsigned(digits.as_str()),
        None => None,
    }
}

/// The numbers of the segments among the names, in the order of the names.
pub open spec fn numbers_in(names: Seq<Seq<char>>) -> Seq<u64>
    decreases names.len(),
{
    if names.len() == 0 {
        Seq::empty()
    } else {
        let rest = numbers_in(names.drop_last());
        match number_of(names.last()) {
            Some(n) => rest.push(n),
            None => rest,
        }
    }
}

/// The numbers of the segments among the names, in ascending order.
pub open spec fn segments_in(names: Seq<Seq<char>>) -> Seq<u64> {
    ascending(numbers_in(names))
}

/// The numbers of the segments among the names, in ascending order.
pub fn list_segments(names: &[String]) -> (r: Vec<u64>)
    ensures
        r@ == segments_in(names.deep_view()),
{
    let ghost all = names.deep_view();
    let mut nums: Vec<u64> = Vec::new();
    let mut i: usize = 0;
    assert(all.subrange(0, 0) =~= Seq::empty());
    while i < names.len()
        invariant
            i <= names@.len(),
            all == names.deep_view(),
            nums@ == numbers_in(all.subrange(0, i as int)),
        decreases names@.len() - i,
    {
        proof {
            let upto = all.subrange(0, i + 1);
            assert(upto.drop_last() =~= all.subrange(0, i as int));
            assert(upto.last() == names@[i as int]@);
        }
        if let Some(n) = parse_segment_number(names[i].as_str()) {
            nums.push(n);
        }
        i += 1;
    }
    assert(all.subrange(0, i as int) =~= all);
    sorted_keys(&nums)
}

/// The segments are listed in ascending order, each that a name names.
pub proof fn segments_are_listed_in_order(names: Seq<Seq<char>>)
    ensures
        forall|i: int, j: int|
            #![trigger segments_in(names)[i], segments_in(names)[j]]
            0 <= i <= j < segments_in(names).len() ==> segments_in(names)[i] <= segments_in(
                names,
            )[j],
        forall|n: u64| #[trigger]
            segments_in(names).contains(n) <==> exists|i: int|
                0 <= i < names.len() && number_of(#[trigger] names[i]) == Some(n),
{
    ascending_keys_ascend(numbers_in(names));
    assert forall|n: u64| #[trigger] segments_in(names).contains(n) <==> exists|i: int|
        0 <= i < names.len() && number_of(#[trigger] names[i]) == Some(n) by {
        lemma_numbers_in(names, n);
    }
}

proof fn lemma_numbers_in(names: Seq<Seq<char>>, n: u64)
    ensures
        numbers_in(names).contains(n) <==> exists|i: int|
            0 <= i < names.len() && number_of(#[trigger] names[i]) == Some(n),
    decreases names.len(),
{
    if names.len() > 0 {
        let shorter = names.drop_last();
        let rest = numbers_in(shorter);
        let all = numbers_in(names);
        lemma_numbers_in(shorter, n);
        if rest.contains(n) {
            let k = rest.index_of(n);
            assert(all[k] == n);
            let i = choose|i: int|
                0 <= i < shorter.len() && number_of(#[trigger] shorter[i]) == Some(n);
            assert(names[i] == shorter[i]);
        }
        if number_of(names.last()) == Some(n) {
            assert(all[all.len() - 1] == n);
            assert(number_of(names[names.len() - 1]) == Some(n));
        }
        if all.contains(n) && !rest.contains(n) {
            let k = all.index_of(n);
            assert(k == rest.len());
            assert(number_of(names[names.len() - 1]) == Some(n));
        }
        if exists|i: int| 0 <= i < names.len() && number_of(#[trigger] names[i]) == Some(n) {
            let i = choose|i: int|
                0 <= i < names.len() && number_of(#[trigger] names[i]) == Some(n);
            if i < shorter.len() {
                assert(number_of(shorter[i]) == Some(n));
            }
        }
    }
}

/// The highest number of a segment among the names.
pub open spec fn highest_in(names: Seq<Seq<char>>) -> Option<u64> {
    if segments_in(names).len() == 0 {
        None
    } else {
        Some(segments_in(names).last())
    }
}

/// The highest number of a segment among the names.
pub fn highest_segment(names: &[String]) -> (r: Option<u64>)
    ensures
        r == highest_in(names.deep_view()),
{
    let segs = list_segments(names);
    if segs.len() == 0 {
        None
    } else {
        Some(segs[segs.len() - 1])
    }
}

/// The name of a segment names it and no other.
pub proof fn segment_names_are_read_back(n: u64)
    ensures
        number_of(name_of(n)) == Some(n),
{
    reveal_strlit("segment-");
    reveal_strlit(".ndjson");
    let digits = decimal(n as nat);
    let name = name_of(n);
    assert(name.subrange(0, 8) =~= "segment-"@);
    let rest = name.subrange(8, name.len() as int);
    assert(rest =~= digits + ".ndjson"@);
    assert(rest.subrange(rest.len() - 7, rest.len() as int) =~= ".ndjson"@);
    assert(rest.subrange(0, rest.len() - 7) =~= digits);
    unsigned_reads_decimal(n);
}

// ── Texts ──────────────────────────────────────────────────────────────────

/// How many of the lines hold more than white space.
pub open spec fn filled(ls: Seq<Seq<char>>) -> nat
    decreases ls.len(),
{
    if ls.len() == 0 {
        0
    } else {
        filled(ls.drop_last()) + if is_blank(ls.last()) {
            0nat
        } else {
            1nat
        }
    }
}

/// How many records a segment holds: the lines with more than white space.
pub fn count_lines(text: &str) -> (r: u64)
    ensures
        r == filled(lines(text@)),
{
    let ls = lines_of(text);
    let ghost all = ls.deep_view();
    let mut n: u64 = 0;
    let mut i: usize = 0;
    assert(all.subrange(0, 0) =~= Seq::empty());
    while i < ls.len()
        invariant
            n <= i <= ls@.len(),
            all == ls.deep_view(),
            n == filled(all.subrange(0, i as int)),
        decreases ls@.len() - i,
    {
        proof {
            let upto = all.subrange(0, i + 1);
            assert(upto.drop_last() =~= all.subrange(0, i as int));
            assert(upto.last() == ls@[i as int]@);
        }
        if !blank(ls[i].as_str()) {
            n += 1;
        }
        i += 1;
    }
    assert(all.subrange(0, i as int) =~= all);
    n
}

/// The records that lines hold, those of white space left out; or why the
/// first line that holds none does not.
pub open spec fn records_of(ls: Seq<Seq<char>>) -> Result<Seq<RecordView>, RecordError>
    decreases ls.len(),
{
    if ls.len() == 0 {
        Ok(Seq::empty())
    } else {
        match records_of(ls.drop_last()) {
            Err(e) => Err(e),
            Ok(rest) => if is_blank(ls.last()) {
                Ok(rest)
            } else {
                match line_record(ls.last()) {
                    Err(e) => Err(e),
                    Ok(rec) => Ok(rest.push(rec)),
                }
            },
        }
    }
}

/// The records that the text of a segment holds.
pub open spec fn records_in(text: Seq<char>) -> Result<Seq<RecordView>, RecordError> {
    records_of(lines(text))
}

/// The text of a segment to which the records were written, one behind the
/// other.
pub open spec fn log_text(recs: Seq<RecordView>) -> Seq<char>
    decreases recs.len(),
{
    if recs.len() == 0 {
        Seq::empty()
    } else {
        log_text(recs.drop_last()) + record_line(recs.last()) + seq!['\n']
    }
}

/// Whether every payload is read back as it was written.
pub open spec fn all_kept(recs: Seq<RecordView>) -> bool {
    forall|i: int| 0 <= i < recs.len() ==> is_kept((#[trigger] recs[i]).raw_payload)
}

/// Whether every payload holds what a JSON text can give.
pub open spec fn all_valid(recs: Seq<RecordView>) -> bool {
    forall|i: int| 0 <= i < recs.len() ==> valid((#[trigger] recs[i]).raw_payload)
}

/// Whether records were read for those that were written, one for each, and each
/// with a kept payload as it was written.
pub open spec fn gives_kept_back(read: Seq<RecordView>, written: Seq<RecordView>) -> bool {
    &&& read.len() == written.len()
    &&& forall|i: int|
        0 <= i < written.len() && is_kept((#[trigger] written[i]).raw_payload) ==> read[i]
            == written[i]
}

/// The lines of records.
pub open spec fn record_lines(recs: Seq<RecordView>) -> Seq<Seq<char>> {
    Seq::new(recs.len(), |i: int| record_line(recs[i]))
}

/// A segment to which records were written has the line of each, in order,
/// and nothing behind the last newline.
pub proof fn written_records_are_lines(recs: Seq<RecordView>)
    requires
        all_valid(recs),
    ensures
        split_lines(log_text(recs)) == (record_lines(recs), Seq::<char>::empty()),
        lines(log_text(recs)) == record_lines(recs),
        filled(lines(log_text(recs))) == recs.len(),
    decreases recs.len(),
{
    if recs.len() == 0 {
        assert(record_lines(recs) =~= Seq::empty());
    } else {
        let rest = recs.drop_last();
        let line = record_line(recs.last());
        assert(all_valid(rest)) by {
            assert(forall|i: int| 0 <= i < rest.len() ==> #[trigger] rest[i] == recs[i]);
        }
        written_records_are_lines(rest);
        assert(valid(recs[recs.len() - 1].raw_payload));
        lemma_record_line(recs.last());
        a_written_line_is_the_next(log_text(rest), line);
        assert(record_lines(rest).push(line) =~= record_lines(recs));
        assert(record_lines(recs).drop_last() =~= record_lines(rest));
    }
}

proof fn lemma_record_line(r: RecordView)
    requires
        valid(r.raw_payload),
    ensures
        forall|i: int| 0 <= i < record_line(r).len() ==> #[trigger] record_line(r)[i] != '\n',
        chomped(record_line(r)) == record_line(r),
        !is_blank(record_line(r)),
{
    record_line_is_one_line(r);
    let line = record_line(r);
    assert(line[0] == '{');
    assert(0x20 <= line[line.len() - 1] as int);
}

/// Each line of a segment is read by itself: where the segment can be read, it
/// gives for each record what its line gives, and it can be read where every
/// line can.
pub proof fn written_records_are_read_one_by_one(recs: Seq<RecordView>)
    requires
        all_valid(recs),
    ensures
        records_in(log_text(recs)) is Ok <==> forall|i: int|
            0 <= i < recs.len() ==> line_record(record_line(#[trigger] recs[i])) is Ok,
        records_in(log_text(recs)) matches Ok(read) ==> read.len() == recs.len() && forall|i: int|
            0 <= i < recs.len() ==> line_record(record_line(#[trigger] recs[i])) == Ok::<
                RecordView,
                RecordError,
            >(read[i]),
    decreases recs.len(),
{
    if recs.len() == 0 {
        written_records_are_lines(recs);
        assert(record_lines(recs) =~= Seq::empty());
    } else {
        let rest = recs.drop_last();
        assert(all_valid(rest)) by {
            assert(forall|i: int| 0 <= i < rest.len() ==> #[trigger] rest[i] == recs[i]);
        }
        written_records_are_read_one_by_one(rest);
        assert(rest.push(recs.last()) =~= recs);
        assert(valid(recs[recs.len() - 1].raw_payload));
        a_written_record_is_read_next(rest, recs.last());
        assert forall|i: int| 0 <= i < rest.len() implies rest[i] == #[trigger] recs[i] by {}
        if records_in(log_text(recs)) is Ok {
            let read = records_in(log_text(rest))->Ok_0;
            assert forall|i: int| 0 <= i < recs.len() implies line_record(
                record_line(#[trigger] recs[i]),
            ) == Ok::<RecordView, RecordError>(records_in(log_text(recs))->Ok_0[i]) by {
                if i < rest.len() {
                    assert(line_record(record_line(rest[i])) == Ok::<RecordView, RecordError>(
                        read[i],
                    ));
                }
            }
        }
        if forall|i: int|
            0 <= i < recs.len() ==> line_record(record_line(#[trigger] recs[i])) is Ok {
            assert forall|i: int| 0 <= i < rest.len() implies line_record(
                record_line(#[trigger] rest[i]),
            ) is Ok by {
                assert(line_record(record_line(recs[i])) is Ok);
            }
            assert(line_record(record_line(recs[recs.len() - 1])) is Ok);
        }
    }
}

/// A record that is written to a segment is read behind those that were there,
/// and changes nothing in how they are read.
pub proof fn a_written_record_is_read_next(recs: Seq<RecordView>, rec: RecordView)
    requires
        all_valid(recs),
        valid(rec.raw_payload),
    ensures
        records_in(log_text(recs.push(rec))) == (match records_in(log_text(recs)) {
            Err(e) => Err(e),
            Ok(read) => match line_record(record_line(rec)) {
                Err(e) => Err(e),
                Ok(back) => Ok(read.push(back)),
            },
        }),
{
    let more = recs.push(rec);
    written_records_are_lines(recs);
    written_records_are_lines(more);
    lemma_record_line(rec);
    assert(record_lines(more).drop_last() =~= record_lines(recs));
    assert(record_lines(more).last() == record_line(rec));
}

/// The records that the text of a segment holds. A text to which records were
/// written holds one for each, and each with a kept payload as it was written,
/// as long as its lines can be read; where every payload is kept, they can.
pub fn read_segment(text: &str) -> (r: Result<Vec<Record>, RecordError>)
    ensures
        match records_in(text@) {
            Ok(recs) => r is Ok && r->Ok_0.deep_view() == recs,
            Err(e) => r == Err::<Vec<Record>, RecordError>(e),
        },
        forall|recs: Seq<RecordView>|
            text@ == #[trigger] log_text(recs) && all_valid(recs) && r is Ok ==> gives_kept_back(
                r->Ok_0.deep_view(),
                recs,
            ),
        forall|recs: Seq<RecordView>|
            text@ == #[trigger] log_text(recs) && all_kept(recs) ==> r is Ok
                && r->Ok_0.deep_view() == recs,
{
    let ls = lines_of(text);
    let ghost all = ls.deep_view();
    proof {
        assert forall|recs: Seq<RecordView>|
            text@ == #[trigger] log_text(recs) && all_valid(recs) implies all == record_lines(
            recs,
        ) by {
            written_records_are_lines(recs);
        }
    }
    let mut out: Vec<Record> = Vec::new();
    let mut i: usize = 0;
    assert(all.subrange(0, 0) =~= Seq::empty());
    assert(out.deep_view() =~= Seq::empty());
    while i < ls.len()
        invariant
            i <= ls@.len(),
            all == ls.deep_view(),
            all == lines(text@),
            records_of(all.subrange(0, i as int)) == Ok::<Seq<RecordView>, RecordError>(
                out.deep_view(),
            ),
            forall|recs: Seq<RecordView>|
                text@ == #[trigger] log_text(recs) && all_valid(recs) ==> all == record_lines(recs)
                    && gives_kept_back(out.deep_view(), recs.subrange(0, i as int)),
        decreases ls@.len() - i,
    {
        let ghost upto = all.subrange(0, i + 1);
        let ghost was = out.deep_view();
        proof {
            assert(upto.drop_last() =~= all.subrange(0, i as int));
            assert(upto.last() == ls@[i as int]@);
            assert forall|recs: Seq<RecordView>|
                text@ == #[trigger] log_text(recs) && all_valid(recs) implies all[i as int]
                == record_line(recs[i as int]) && !is_blank(all[i as int]) by {
                assert(valid(recs[i as int].raw_payload));
                lemma_record_line(recs[i as int]);
            }
        }
        if !blank(ls[i].as_str()) {
            match Record::from_ndjson(ls[i].as_str()) {
                Ok(rec) => {
                    out.push(rec);
                    assert(out.deep_view() =~= was.push(rec@));
                },
                Err(e) => {
                    proof {
                        lemma_first_error(all, i + 1);
                        assert forall|recs: Seq<RecordView>|
                            text@ == #[trigger] log_text(recs) implies !all_kept(recs) by {
                            if all_kept(recs) {
                                lemma_kept_are_valid(recs);
                                assert(is_kept(recs[i as int].raw_payload));
                            }
                        }
                    }
                    return Err(e);
                },
            }
        }
        proof {
            assert forall|recs: Seq<RecordView>|
                text@ == #[trigger] log_text(recs) && all_valid(recs) implies gives_kept_back(
                out.deep_view(),
                recs.subrange(0, i + 1),
            ) by {
                let before = recs.subrange(0, i as int);
                let upto = recs.subrange(0, i + 1);
                assert forall|k: int|
                    0 <= k < upto.len() && is_kept(
                        (#[trigger] upto[k]).raw_payload,
                    ) implies out.deep_view()[k] == upto[k] by {
                    if k < i {
                        assert(before[k] == upto[k]);
                    }
                }
            }
        }
        i += 1;
    }
    assert(all.subrange(0, i as int) =~= all);
    proof {
        assert forall|recs: Seq<RecordView>|
            text@ == #[trigger] log_text(recs) && all_valid(recs) implies gives_kept_back(
            out.deep_view(),
            recs,
        ) by {
            assert(recs.subrange(0, i as int) =~= recs);
        }
        assert forall|recs: Seq<RecordView>|
            text@ == #[trigger] log_text(recs) && all_kept(recs) implies out.deep_view() == recs by {
            lemma_kept_are_valid(recs);
            lemma_all_kept_back(out.deep_view(), recs);
        }
    }
    Ok(out)
}

/// A kept payload is valid.
pub(crate) proof fn lemma_kept_are_valid(recs: Seq<RecordView>)
    requires
        all_kept(recs),
    ensures
        all_valid(recs),
{
    assert forall|i: int| 0 <= i < recs.len() implies valid((#[trigger] recs[i]).raw_payload) by {
        assert(is_kept(recs[i].raw_payload));
    }
}

/// Where every payload is kept, what is given back is what was written.
pub(crate) proof fn lemma_all_kept_back(read: Seq<RecordView>, written: Seq<RecordView>)
    requires
        all_kept(written),
        gives_kept_back(read, written),
    ensures
        read == written,
{
    assert forall|i: int| 0 <= i < written.len() implies read[i] == written[i] by {
        assert(is_kept(written[i].raw_payload));
    }
    assert(read =~= written);
}

proof fn lemma_first_error(ls: Seq<Seq<char>>, n: int)
    requires
        0 <= n <= ls.len(),
        records_of(ls.subrange(0, n)) is Err,
    ensures
        records_of(ls) == records_of(ls.subrange(0, n)),
    decreases ls.len() - n,
{
    if n == ls.len() {
        assert(ls.subrange(0, n) =~= ls);
    } else {
        assert(ls.subrange(0, n + 1).drop_last() =~= ls.subrange(0, n));
        lemma_first_error(ls, n + 1);
    }
}

} // verus!
