//! The rotating, turn-keyed store of records.
//!
//! The data directory holds numbered segments, `segment-<n>.ndjson` with one
//! record to a line, and the sidecar `index.ndjson` with one line for each
//! record: its key, its segment and its line there. Records are written to the
//! segment with the highest number. One that would outgrow the limit starts the
//! next segment, and with more segments than the limit the oldest are removed
//! whole. On a restart the highest segment is taken up again, and the sidecar
//! gives back the index.
//!
//! Here stand the decisions; the caller touches the files. Reading is a matter
//! of handing over the names and texts that are in the directory. Writing goes
//! in steps: [`LucidStore::append`] begins, [`LucidStore::task`] names what is
//! to be done next, and [`LucidStore::advance`] takes note that it has been
//! done. Where a task fails, the caller gives the record up, and the store is
//! as the tasks before have left it.

use crate::index::{entry_line, live, EntryView, IndexEntry};
use crate::payload::is_kept;
use crate::record::{key_of, record_line, Record, RecordError, RecordView};
use crate::segment::{
    all_kept, all_valid, count_lines, filled, gives_kept_back, highest_in, highest_segment,
    lemma_all_kept_back, lemma_kept_are_valid, list_segments, log_text, read_segment, records_in,
    segments_in, written_records_are_lines,
};
use crate::text::{byte_len, lines, same, size};
use vstd::prelude::*;

verus! {

// ── Policy and places ──────────────────────────────────────────────────────

/// When the store starts a new segment, and how many it keeps.
#[derive(Debug, Clone, Copy)]
pub struct RotationPolicy {
    /// A segment that holds a record is not written past this many bytes.
    pub max_segment_bytes: u64,
    /// Of more segments than this the oldest are removed.
    pub max_segments: usize,
}

impl Default for RotationPolicy {
    /// 16 segments of 16 MiB.
    fn default() -> (r: RotationPolicy)
        ensures
            r == (RotationPolicy { max_segment_bytes: 16_777_216, max_segments: 16 }),
    {
        RotationPolicy { max_segment_bytes: 16_777_216, max_segments: 16 }
    }
}

/// Where a record stands.
#[derive(Debug, Clone, Copy, PartialEq, Eq, Structural)]
pub struct RecordLocation {
    /// The segment that holds the record.
    pub segment: u64,
    /// The line of the record there, from 0.
    pub line: u64,
}

impl DeepView for RecordLocation {
    type V = RecordLocation;

    open spec fn deep_view(&self) -> RecordLocation {
        *self
    }
}

/// The path of `rest` inside the directory `base`.
pub open spec fn joined(base: Seq<char>, rest: Seq<char>) -> Seq<char> {
    if base.len() == 0 || base.last() == '/' {
        base + rest
    } else {
        base + "/"@ + rest
    }
}

/// The data directory, given the values of `XDG_CACHE_HOME` and of `HOME`.
pub open spec fn data_dir(xdg: Option<Seq<char>>, home: Option<Seq<char>>) -> Seq<char> {
    if xdg is Some && xdg->Some_0.len() > 0 {
        joined(xdg->Some_0, "wintermute/lucid"@)
    } else {
        joined(
            match home {
                Some(h) => h,
                None => "."@,
            },
            ".cache/wintermute/lucid"@,
        )
    }
}

fn join(base: &str, rest: &str) -> (r: String)
    ensures
        r@ == joined(base@, rest@),
{
    let mut out: String = base.to_string();
    let n: usize = base.unicode_len();
    if n > 0 && base.get_char(n - 1) != '/' {
        out.append("/");
    }
    out.append(rest);
    out
}

// ── The store ──────────────────────────────────────────────────────────────

/// The store, as far as it is held in memory.
pub struct LucidStore {
    policy: RotationPolicy,
    active_segment: u64,
    active_bytes: u64,
    active_lines: u64,
    index: Vec<IndexEntry>,
}

/// The mathematical store.
pub struct StoreView {
    /// When to start a new segment, and how many to keep.
    pub policy: RotationPolicy,
    /// The segment that is written to.
    pub active_segment: u64,
    /// How many bytes it holds.
    pub active_bytes: u64,
    /// How many records it holds.
    pub active_lines: u64,
    /// The records that can be found, in the order in which they were written.
    pub index: Seq<EntryView>,
}

impl View for LucidStore {
    type V = StoreView;

    closed spec fn view(&self) -> StoreView {
        StoreView {
            policy: self.policy,
            active_segment: self.active_segment,
            active_bytes: self.active_bytes,
            active_lines: self.active_lines,
            index: self.index.deep_view(),
        }
    }
}

/// The segment that is written to after a restart: the highest there is.
pub open spec fn resumed_segment(names: Seq<Seq<char>>) -> u64 {
    match highest_in(names) {
        Some(n) => n,
        None => 0,
    }
}

/// The store after a restart, given the names in the data directory, the index
/// and the text of the segment that is taken up again.
pub open spec fn resumed(
    policy: RotationPolicy,
    names: Seq<Seq<char>>,
    index: Seq<EntryView>,
    text: Seq<char>,
) -> StoreView {
    StoreView {
        policy,
        active_segment: resumed_segment(names),
        active_bytes: byte_len(text) as u64,
        active_lines: filled(lines(text)) as u64,
        index,
    }
}

/// Where the records under a key stand, in the order in which they were
/// written.
pub open spec fn locations(index: Seq<EntryView>, key: Seq<char>) -> Seq<RecordLocation>
    decreases index.len(),
{
    if index.len() == 0 {
        Seq::empty()
    } else {
        let rest = locations(index.drop_last(), key);
        let last = index.last();
        if last.key == key {
            rest.push(RecordLocation { segment: last.segment, line: last.line })
        } else {
            rest
        }
    }
}

/// The text of a segment, given the segments that are there; empty where it is
/// not.
pub open spec fn text_in(texts: Seq<(u64, Seq<char>)>, n: u64) -> Seq<char>
    decreases texts.len(),
{
    if texts.len() == 0 {
        Seq::empty()
    } else if texts[0].0 == n {
        texts[0].1
    } else {
        text_in(texts.subrange(1, texts.len() as int), n)
    }
}

fn text_at<'a>(texts: &'a [(u64, String)], n: u64) -> (r: &'a str)
    ensures
        r@ == text_in(texts.deep_view(), n),
{
    let ghost all = texts.deep_view();
    let mut i: usize = 0;
    assert(all.subrange(0, all.len() as int) =~= all);
    while i < texts.len()
        invariant
            i <= texts@.len(),
            all == texts.deep_view(),
            text_in(all, n) == text_in(all.subrange(i as int, all.len() as int), n),
        decreases texts@.len() - i,
    {
        let ghost rest = all.subrange(i as int, all.len() as int);
        assert(rest[0] == (texts@[i as int].0, texts@[i as int].1@));
        if texts[i].0 == n {
            return texts[i].1.as_str();
        }
        assert(rest.subrange(1, rest.len() as int) =~= all.subrange(i + 1, all.len() as int));
        i += 1;
    }
    assert(all.subrange(i as int, all.len() as int) =~= Seq::empty());
    proof {
        reveal_strlit("");
        assert(""@ =~= Seq::empty());
    }
    ""
}

/// How many records the segments hold together.
pub open spec fn counted(segs: Seq<u64>, texts: Seq<(u64, Seq<char>)>) -> nat
    decreases segs.len(),
{
    if segs.len() == 0 {
        0
    } else {
        counted(segs.drop_last(), texts) + filled(lines(text_in(texts, segs.last())))
    }
}

/// The records of the segments, one segment behind the other; or why the first
/// line that holds none does not.
pub open spec fn all_records(segs: Seq<u64>, texts: Seq<(u64, Seq<char>)>) -> Result<
    Seq<RecordView>,
    RecordError,
>
    decreases segs.len(),
{
    if segs.len() == 0 {
        Ok(Seq::empty())
    } else {
        match all_records(segs.drop_last(), texts) {
            Err(e) => Err(e),
            Ok(rest) => match records_in(text_in(texts, segs.last())) {
                Err(e) => Err(e),
                Ok(recs) => Ok(rest + recs),
            },
        }
    }
}

/// The records at the given places, those left out that are not there; or why
/// the first line of their segments that holds none does not.
pub open spec fn located(locs: Seq<RecordLocation>, texts: Seq<(u64, Seq<char>)>) -> Result<
    Seq<RecordView>,
    RecordError,
>
    decreases locs.len(),
{
    if locs.len() == 0 {
        Ok(Seq::empty())
    } else {
        match located(locs.drop_last(), texts) {
            Err(e) => Err(e),
            Ok(rest) => match records_in(text_in(texts, locs.last().segment)) {
                Err(e) => Err(e),
                Ok(recs) => if locs.last().line < recs.len() {
                    Ok(rest.push(recs[locs.last().line as int]))
                } else {
                    Ok(rest)
                },
            },
        }
    }
}

// ── What was written ───────────────────────────────────────────────────────

/// What has been written to a data directory: the records in each segment that
/// is still there, and the entries in the sidecar.
pub struct Log {
    pub segments: Map<u64, Seq<RecordView>>,
    pub index: Seq<EntryView>,
}

/// The entry of a record at a place.
pub open spec fn entry_at(rec: RecordView, segment: u64, line: u64) -> EntryView {
    EntryView { key: key_of(rec), segment, line }
}

/// Whether an entry names a record of the log, under that record's key.
pub open spec fn names_a_record(e: EntryView, l: Log) -> bool {
    &&& l.segments.dom().contains(e.segment)
    &&& e.line < l.segments[e.segment].len()
    &&& e == entry_at(l.segments[e.segment][e.line as int], e.segment, e.line)
}

/// Whether every record of the log can be found.
pub open spec fn finds_every_record(index: Seq<EntryView>, l: Log) -> bool {
    forall|n: u64, i: int|
        l.segments.dom().contains(n) && 0 <= i < l.segments[n].len() ==> index.contains(
            entry_at(#[trigger] l.segments[n][i], n, i as u64),
        )
}

/// Whether the store is as the log says: it writes to the highest segment and
/// knows how much that holds, and its index has the entry of every record that
/// is there, and no other.
pub open spec fn agrees(s: StoreView, l: Log) -> bool {
    &&& l.segments.dom().contains(s.active_segment)
    &&& forall|n: u64| #[trigger] l.segments.dom().contains(n) ==> n <= s.active_segment
    &&& s.active_lines == l.segments[s.active_segment].len()
    &&& s.active_bytes == byte_len(log_text(l.segments[s.active_segment]))
    &&& s.index == live(l.index, l.segments.dom())
    &&& forall|i: int| 0 <= i < l.index.len() ==> (#[trigger] l.index[i]).segment <= s.active_segment
    &&& forall|i: int| 0 <= i < s.index.len() ==> names_a_record(#[trigger] s.index[i], l)
    &&& finds_every_record(s.index, l)
}

/// Whether every payload of the log is read back as it was written.
pub open spec fn log_is_kept(l: Log) -> bool {
    forall|n: u64| #[trigger] l.segments.dom().contains(n) ==> all_kept(l.segments[n])
}

/// Whether every payload of the log holds what a JSON text can give.
pub open spec fn log_is_valid(l: Log) -> bool {
    forall|n: u64| #[trigger] l.segments.dom().contains(n) ==> all_valid(l.segments[n])
}

/// Whether the texts are those of the log's segments.
pub open spec fn texts_hold(texts: Seq<(u64, Seq<char>)>, l: Log) -> bool {
    forall|n: u64| #[trigger]
        l.segments.dom().contains(n) ==> text_in(texts, n) == log_text(l.segments[n])
}

/// Whether the texts of the segments of the given places are those of the log,
/// and the payloads there hold what a JSON text can give.
pub open spec fn places_hold(
    texts: Seq<(u64, Seq<char>)>,
    l: Log,
    locs: Seq<RecordLocation>,
) -> bool {
    forall|i: int|
        0 <= i < locs.len() ==> {
            let n = (#[trigger] locs[i]).segment;
            text_in(texts, n) == log_text(l.segments[n]) && all_valid(l.segments[n])
        }
}

/// Whether every payload in the segments of the given places is kept.
pub open spec fn places_are_kept(l: Log, locs: Seq<RecordLocation>) -> bool {
    forall|i: int| 0 <= i < locs.len() ==> all_kept(l.segments[(#[trigger] locs[i]).segment])
}

/// The records of the log at the given places.
pub open spec fn records_at(l: Log, locs: Seq<RecordLocation>) -> Seq<RecordView> {
    Seq::new(locs.len(), |i: int| l.segments[locs[i].segment][locs[i].line as int])
}

/// The records of the log in the given segments, one segment behind the other.
pub open spec fn records_through(l: Log, segs: Seq<u64>) -> Seq<RecordView>
    decreases segs.len(),
{
    if segs.len() == 0 {
        Seq::empty()
    } else {
        records_through(l, segs.drop_last()) + l.segments[segs.last()]
    }
}

// ── Reading ────────────────────────────────────────────────────────────────

/// How many records the segments hold together, where 64 bits can count them.
fn total_lines(names: &[String], texts: &[(u64, String)]) -> (r: Option<u64>)
    ensures
        match r {
            Some(n) => n == counted(segments_in(names.deep_view()), texts.deep_view()),
            None => counted(segments_in(names.deep_view()), texts.deep_view()) > u64::MAX,
        },
{
    let segs = list_segments(names);
    let ghost all = texts.deep_view();
    let mut total: u64 = 0;
    let mut i: usize = 0;
    while i < segs.len()
        invariant
            i <= segs@.len(),
            all == texts.deep_view(),
            segs@ == segments_in(names.deep_view()),
            total == counted(segs@.subrange(0, i as int), all),
        decreases segs@.len() - i,
    {
        proof {
            assert(segs@.subrange(0, i + 1).drop_last() =~= segs@.subrange(0, i as int));
            lemma_counted(segs@, all, i + 1);
        }
        total = match total.checked_add(count_lines(text_at(texts, segs[i]))) {
            Some(total) => total,
            None => {
                return None;
            },
        };
        i += 1;
    }
    assert(segs@.subrange(0, i as int) =~= segs@);
    Some(total)
}

impl LucidStore {
    /// The data directory, given the values of `XDG_CACHE_HOME` and of `HOME`.
    #[must_use]
    pub fn default_data_dir(xdg: Option<String>, home: Option<String>) -> (r: String)
        ensures
            r@ == data_dir(xdg.deep_view(), home.deep_view()),
    {
        if let Some(xdg) = xdg {
            if xdg.as_str().unicode_len() > 0 {
                return join(xdg.as_str(), "wintermute/lucid");
            }
        }
        match home {
            Some(home) => join(home.as_str(), ".cache/wintermute/lucid"),
            None => join(".", ".cache/wintermute/lucid"),
        }
    }

    /// The store after a restart, given the names in the data directory, the
    /// index that the sidecar gives back, and the text of the highest segment
    /// (of segment 0, and empty, where there is none).
    pub fn open(
        policy: RotationPolicy,
        names: &[String],
        index: Vec<IndexEntry>,
        text: &str,
    ) -> (r: LucidStore)
        ensures
            r@ == resumed(policy, names.deep_view(), index.deep_view(), text@),
            r@.active_bytes == byte_len(text@),
            r@.active_lines == filled(lines(text@)),
    {
        let active_segment: u64 = match highest_segment(names) {
            Some(n) => n,
            None => 0,
        };
        let active_bytes: u64 = size(text);
        let active_lines: u64 = count_lines(text);
        LucidStore { policy, active_segment, active_bytes, active_lines, index }
    }

    /// The segment that is written to.
    #[must_use]
    pub fn active_segment(&self) -> (r: u64)
        ensures
            r == self@.active_segment,
    {
        self.active_segment
    }

    /// How many segments there are, given the names in the data directory.
    pub fn segment_count(&self, names: &[String]) -> (r: usize)
        ensures
            r == segments_in(names.deep_view()).len(),
    {
        list_segments(names).len()
    }

    /// How many records there are, given the names in the data directory and
    /// the texts of the segments; nothing, where 64 bits cannot count them.
    pub fn record_count(&self, names: &[String], texts: &[(u64, String)]) -> (r: Option<u64>)
        ensures
            match r {
                Some(n) => n == counted(segments_in(names.deep_view()), texts.deep_view()),
                None => counted(segments_in(names.deep_view()), texts.deep_view()) > u64::MAX,
            },
            forall|l: Log| #[trigger]
                texts_hold(texts.deep_view(), l) && log_is_valid(l) && segments_in(
                    names.deep_view(),
                ).to_set() == l.segments.dom() ==> match r {
                    Some(n) => n == records_through(l, segments_in(names.deep_view())).len(),
                    None => records_through(l, segments_in(names.deep_view())).len() > u64::MAX,
                },
    {
        proof {
            assert forall|l: Log| #[trigger]
                texts_hold(texts.deep_view(), l) && log_is_valid(l) && segments_in(
                    names.deep_view(),
                ).to_set() == l.segments.dom() implies counted(
                segments_in(names.deep_view()),
                texts.deep_view(),
            ) == records_through(l, segments_in(names.deep_view())).len() by {
                let segs = segments_in(names.deep_view());
                lemma_counted_log(l, segs, texts.deep_view(), segs.len() as int);
                assert(segs.subrange(0, segs.len() as int) =~= segs);
            }
        }
        total_lines(names, texts)
    }

    /// All records there are, by segment and line, given the names in the data
    /// directory and the texts of the segments. Each with a kept payload comes
    /// back as it was written, as long as the lines can be read; where every
    /// payload is kept, they can.
    pub fn read_all(&self, names: &[String], texts: &[(u64, String)]) -> (r: Result<
        Vec<Record>,
        RecordError,
    >)
        ensures
            match all_records(segments_in(names.deep_view()), texts.deep_view()) {
                Ok(recs) => r is Ok && r->Ok_0.deep_view() == recs,
                Err(e) => r == Err::<Vec<Record>, RecordError>(e),
            },
            forall|l: Log| #[trigger]
                texts_hold(texts.deep_view(), l) && log_is_valid(l) && segments_in(
                    names.deep_view(),
                ).to_set() == l.segments.dom() && r is Ok ==> gives_kept_back(
                    r->Ok_0.deep_view(),
                    records_through(l, segments_in(names.deep_view())),
                ),
            forall|l: Log| #[trigger]
                texts_hold(texts.deep_view(), l) && log_is_kept(l) && segments_in(
                    names.deep_view(),
                ).to_set() == l.segments.dom() ==> r is Ok && r->Ok_0.deep_view()
                    == records_through(l, segments_in(names.deep_view())),
    {
        let segs = list_segments(names);
        let ghost all = texts.deep_view();
        let mut out: Vec<Record> = Vec::new();
        let mut i: usize = 0;
        assert(out.deep_view() =~= Seq::empty());
        while i < segs.len()
            invariant
                i <= segs@.len(),
                all == texts.deep_view(),
                segs@ == segments_in(names.deep_view()),
                all_records(segs@.subrange(0, i as int), all) == Ok::<Seq<RecordView>, RecordError>(
                    out.deep_view(),
                ),
                forall|l: Log| #[trigger]
                    texts_hold(all, l) && log_is_valid(l) && segs@.to_set() == l.segments.dom()
                        ==> gives_kept_back(
                        out.deep_view(),
                        records_through(l, segs@.subrange(0, i as int)),
                    ),
            decreases segs@.len() - i,
        {
            let ghost upto = segs@.subrange(0, i + 1);
            assert(upto.drop_last() =~= segs@.subrange(0, i as int));
            proof {
                assert forall|l: Log| #[trigger]
                    texts_hold(all, l) && segs@.to_set() == l.segments.dom() implies text_in(
                    all,
                    segs@[i as int],
                ) == log_text(l.segments[segs@[i as int]]) && l.segments.dom().contains(
                    segs@[i as int],
                ) by {
                    assert(segs@.to_set().contains(segs@[i as int]));
                    assert(l.segments.dom().contains(segs@[i as int]));
                }
            }
            let mut recs = match read_segment(text_at(texts, segs[i])) {
                Ok(recs) => recs,
                Err(e) => {
                    proof {
                        lemma_first_bad_segment(segs@, all, i + 1);
                    }
                    return Err(e);
                },
            };
            let ghost was = out.deep_view();
            let ghost more = recs.deep_view();
            out.append(&mut recs);
            proof {
                assert(out.deep_view() =~= was + more);
                assert forall|l: Log| #[trigger]
                    texts_hold(all, l) && log_is_valid(l) && segs@.to_set()
                        == l.segments.dom() implies gives_kept_back(
                    out.deep_view(),
                    records_through(l, upto),
                ) by {
                    lemma_kept_back_behind(
                        was,
                        records_through(l, segs@.subrange(0, i as int)),
                        more,
                        l.segments[segs@[i as int]],
                    );
                }
            }
            i += 1;
        }
        proof {
            assert(segs@.subrange(0, i as int) =~= segs@);
            assert forall|l: Log| #[trigger]
                texts_hold(all, l) && log_is_kept(l) && segs@.to_set()
                    == l.segments.dom() implies out.deep_view() == records_through(l, segs@) by {
                lemma_log_is_valid(l);
                assert forall|k: int| 0 <= k < segs@.len() implies l.segments.dom().contains(
                    #[trigger] segs@[k],
                ) by {
                    assert(segs@.to_set().contains(segs@[k]));
                }
                lemma_records_through_kept(l, segs@);
                lemma_all_kept_back(out.deep_view(), records_through(l, segs@));
            }
        }
        Ok(out)
    }

    /// Where the records under a key stand, in the order in which they were
    /// written.
    #[must_use]
    pub fn locations_for(&self, key: &str) -> (r: Vec<RecordLocation>)
        ensures
            r@ == locations(self@.index, key@),
    {
        let ghost all = self@.index;
        let mut out: Vec<RecordLocation> = Vec::new();
        let mut i: usize = 0;
        assert(all.subrange(0, 0) =~= Seq::empty());
        while i < self.index.len()
            invariant
                i <= self.index@.len(),
                all == self.index.deep_view(),
                out@ == locations(all.subrange(0, i as int), key@),
            decreases self.index@.len() - i,
        {
            let e = &self.index[i];
            proof {
                assert(all.subrange(0, i + 1).drop_last() =~= all.subrange(0, i as int));
                assert(all[i as int] == e@);
            }
            if same(e.key.as_str(), key) {
                out.push(RecordLocation { segment: e.segment, line: e.line });
            }
            i += 1;
        }
        assert(all.subrange(0, i as int) =~= all);
        out
    }

    /// The records under a key, in the order in which they were written, given
    /// the texts of their segments. Each with a kept payload comes back as it was
    /// written, as long as the lines of those segments can be read; where every
    /// payload in them is kept, they can.
    pub fn records_for(&self, key: &str, texts: &[(u64, String)]) -> (r: Result<
        Vec<Record>,
        RecordError,
    >)
        ensures
            match located(locations(self@.index, key@), texts.deep_view()) {
                Ok(recs) => r is Ok && r->Ok_0.deep_view() == recs,
                Err(e) => r == Err::<Vec<Record>, RecordError>(e),
            },
            forall|l: Log| #[trigger]
                agrees(self@, l) && places_hold(
                    texts.deep_view(),
                    l,
                    locations(self@.index, key@),
                ) && r is Ok ==> gives_kept_back(
                    r->Ok_0.deep_view(),
                    records_at(l, locations(self@.index, key@)),
                ),
            forall|l: Log| #[trigger]
                agrees(self@, l) && places_hold(
                    texts.deep_view(),
                    l,
                    locations(self@.index, key@),
                ) && places_are_kept(l, locations(self@.index, key@)) ==> r is Ok
                    && r->Ok_0.deep_view() == records_at(l, locations(self@.index, key@)),
    {
        let locs = self.locations_for(key);
        let ghost all = texts.deep_view();
        let mut out: Vec<Record> = Vec::new();
        let mut i: usize = 0;
        assert(out.deep_view() =~= Seq::empty());
        while i < locs.len()
            invariant
                i <= locs@.len(),
                all == texts.deep_view(),
                locs@ == locations(self@.index, key@),
                located(locs@.subrange(0, i as int), all) == Ok::<Seq<RecordView>, RecordError>(
                    out.deep_view(),
                ),
                forall|l: Log| #[trigger]
                    agrees(self@, l) && places_hold(all, l, locs@) ==> gives_kept_back(
                        out.deep_view(),
                        records_at(l, locs@.subrange(0, i as int)),
                    ),
            decreases locs@.len() - i,
        {
            let ghost upto = locs@.subrange(0, i + 1);
            let loc = locs[i];
            proof {
                assert(upto.drop_last() =~= locs@.subrange(0, i as int));
                assert forall|l: Log| #[trigger]
                    agrees(self@, l) && places_hold(all, l, locs@) implies text_in(
                    all,
                    loc.segment,
                ) == log_text(l.segments[loc.segment]) && all_valid(l.segments[loc.segment])
                    && loc.line < l.segments[loc.segment].len() by {
                    assert(locs@[i as int] == loc);
                    let k = lemma_place_of_entry(self@.index, key@, i as int);
                    assert(names_a_record(self@.index[k], l));
                }
            }
            let recs = match read_segment(text_at(texts, loc.segment)) {
                Ok(recs) => recs,
                Err(e) => {
                    proof {
                        lemma_first_bad_place(locs@, all, i + 1);
                        assert(locs@[i as int] == loc);
                    }
                    return Err(e);
                },
            };
            let ghost was = out.deep_view();
            if loc.line < recs.len() as u64 {
                let line: usize = loc.line as usize;
                assert(recs.deep_view()[line as int] == recs@[line as int]@);
                out.push(recs[line].clone());
                assert(out.deep_view() =~= was.push(recs@[line as int]@));
            }
            proof {
                assert forall|l: Log| #[trigger]
                    agrees(self@, l) && places_hold(all, l, locs@) implies gives_kept_back(
                    out.deep_view(),
                    records_at(l, upto),
                ) by {
                    let before = records_at(l, locs@.subrange(0, i as int));
                    let rec = l.segments[loc.segment][loc.line as int];
                    let got = recs.deep_view();
                    assert(gives_kept_back(got, l.segments[loc.segment]));
                    assert(records_at(l, upto) =~= before.push(rec));
                    assert(out.deep_view() =~= was.push(got[loc.line as int]));
                    assert forall|k: int|
                        0 <= k < records_at(l, upto).len() && is_kept(
                            (#[trigger] records_at(l, upto)[k]).raw_payload,
                        ) implies out.deep_view()[k] == records_at(l, upto)[k] by {
                        if k < before.len() {
                            assert(before[k] == records_at(l, upto)[k]);
                        }
                    }
                }
            }
            i += 1;
        }
        proof {
            assert(locs@.subrange(0, i as int) =~= locs@);
            assert forall|l: Log| #[trigger]
                agrees(self@, l) && places_hold(all, l, locs@) && places_are_kept(
                    l,
                    locs@,
                ) implies out.deep_view() == records_at(l, locs@) by {
                let want = records_at(l, locs@);
                assert forall|k: int| 0 <= k < want.len() implies is_kept(
                    (#[trigger] want[k]).raw_payload,
                ) by {
                    let at = locs@[k];
                    let e = lemma_place_of_entry(self@.index, key@, k);
                    assert(names_a_record(self@.index[e], l));
                    assert(all_kept(l.segments[at.segment]));
                    assert(is_kept(l.segments[at.segment][at.line as int].raw_payload));
                }
                lemma_all_kept_back(out.deep_view(), want);
            }
        }
        Ok(out)
    }
}

proof fn lemma_counted(segs: Seq<u64>, texts: Seq<(u64, Seq<char>)>, n: int)
    requires
        0 <= n <= segs.len(),
    ensures
        counted(segs.subrange(0, n), texts) <= counted(segs, texts),
    decreases segs.len() - n,
{
    if n == segs.len() {
        assert(segs.subrange(0, n) =~= segs);
    } else {
        assert(segs.subrange(0, n + 1).drop_last() =~= segs.subrange(0, n));
        lemma_counted(segs, texts, n + 1);
    }
}

proof fn lemma_counted_log(l: Log, segs: Seq<u64>, texts: Seq<(u64, Seq<char>)>, n: int)
    requires
        texts_hold(texts, l),
        log_is_valid(l),
        segs.to_set() == l.segments.dom(),
        0 <= n <= segs.len(),
    ensures
        counted(segs.subrange(0, n), texts) == records_through(l, segs.subrange(0, n)).len(),
    decreases n,
{
    if n > 0 {
        lemma_counted_log(l, segs, texts, n - 1);
        assert(segs.subrange(0, n).drop_last() =~= segs.subrange(0, n - 1));
        let m = segs[n - 1];
        assert(segs.contains(m));
        assert(segs.to_set().contains(m));
        assert(l.segments.dom().contains(m));
        written_records_are_lines(l.segments[m]);
    }
}

proof fn lemma_first_bad_segment(segs: Seq<u64>, texts: Seq<(u64, Seq<char>)>, n: int)
    requires
        0 <= n <= segs.len(),
        all_records(segs.subrange(0, n), texts) is Err,
    ensures
        all_records(segs, texts) == all_records(segs.subrange(0, n), texts),
    decreases segs.len() - n,
{
    if n == segs.len() {
        assert(segs.subrange(0, n) =~= segs);
    } else {
        assert(segs.subrange(0, n + 1).drop_last() =~= segs.subrange(0, n));
        lemma_first_bad_segment(segs, texts, n + 1);
    }
}

proof fn lemma_first_bad_place(locs: Seq<RecordLocation>, texts: Seq<(u64, Seq<char>)>, n: int)
    requires
        0 <= n <= locs.len(),
        located(locs.subrange(0, n), texts) is Err,
    ensures
        located(locs, texts) == located(locs.subrange(0, n), texts),
    decreases locs.len() - n,
{
    if n == locs.len() {
        assert(locs.subrange(0, n) =~= locs);
    } else {
        assert(locs.subrange(0, n + 1).drop_last() =~= locs.subrange(0, n));
        lemma_first_bad_place(locs, texts, n + 1);
    }
}

/// Each place under a key is that of an entry with the key.
pub(crate) proof fn lemma_place_of_entry(index: Seq<EntryView>, key: Seq<char>, i: int) -> (k: int)
    requires
        0 <= i < locations(index, key).len(),
    ensures
        0 <= k < index.len(),
        index[k] == (EntryView {
            key,
            segment: locations(index, key)[i].segment,
            line: locations(index, key)[i].line,
        }),
    decreases index.len(),
{
    let shorter = index.drop_last();
    if i < locations(shorter, key).len() {
        lemma_place_of_entry(shorter, key, i)
    } else {
        index.len() - 1
    }
}

/// What gives back kept records does so behind what does.
proof fn lemma_kept_back_behind(
    read: Seq<RecordView>,
    written: Seq<RecordView>,
    more_read: Seq<RecordView>,
    more_written: Seq<RecordView>,
)
    requires
        gives_kept_back(read, written),
        gives_kept_back(more_read, more_written),
    ensures
        gives_kept_back(read + more_read, written + more_written),
{
    let all = written + more_written;
    assert forall|i: int| 0 <= i < all.len() && is_kept((#[trigger] all[i]).raw_payload) implies (
    read + more_read)[i] == all[i] by {
        if i < written.len() {
            assert(all[i] == written[i]);
        } else {
            assert(all[i] == more_written[i - written.len()]);
        }
    }
}

proof fn lemma_log_is_valid(l: Log)
    requires
        log_is_kept(l),
    ensures
        log_is_valid(l),
{
    assert forall|n: u64| #[trigger] l.segments.dom().contains(n) implies all_valid(
        l.segments[n],
    ) by {
        lemma_kept_are_valid(l.segments[n]);
    }
}

proof fn lemma_records_through_kept(l: Log, segs: Seq<u64>)
    requires
        log_is_kept(l),
        forall|i: int| 0 <= i < segs.len() ==> l.segments.dom().contains(#[trigger] segs[i]),
    ensures
        all_kept(records_through(l, segs)),
    decreases segs.len(),
{
    if segs.len() > 0 {
        let shorter = segs.drop_last();
        assert forall|i: int| 0 <= i < shorter.len() implies l.segments.dom().contains(
            #[trigger] shorter[i],
        ) by {
            assert(shorter[i] == segs[i]);
        }
        lemma_records_through_kept(l, shorter);
        let head = records_through(l, shorter);
        let tail = l.segments[segs[segs.len() - 1]];
        assert(l.segments.dom().contains(segs[segs.len() - 1]));
        assert(all_kept(tail));
        let all = records_through(l, segs);
        assert forall|i: int| 0 <= i < all.len() implies is_kept(
            (#[trigger] all[i]).raw_payload,
        ) by {
            if i < head.len() {
                assert(all[i] == head[i]);
            } else {
                assert(all[i] == tail[i - head.len()]);
            }
        }
    }
}

// ── Writing ────────────────────────────────────────────────────────────────

/// What the caller is to do next, so that a record is written.
#[derive(Debug)]
pub enum Task {
    /// Open the file of this segment to append to it, and create it where it
    /// is missing. It is the one that records are written to from now on.
    OpenSegment(u64),
    /// List the names in the data directory.
    ListNames,
    /// Remove the file of this segment.
    RemoveSegment(u64),
    /// Append this line, and a newline, to the file of this segment, and flush
    /// it.
    WriteRecord(u64, String),
    /// Append this line, and a newline, to the sidecar, and flush it.
    WriteIndex(String),
    /// Nothing: the record is written, and stands here.
    Finished(RecordLocation),
}

/// The mathematical task.
pub enum TaskView {
    OpenSegment(u64),
    ListNames,
    RemoveSegment(u64),
    WriteRecord(u64, Seq<char>),
    WriteIndex(Seq<char>),
    Finished(RecordLocation),
}

impl View for Task {
    type V = TaskView;

    open spec fn view(&self) -> TaskView {
        match self {
            Task::OpenSegment(n) => TaskView::OpenSegment(*n),
            Task::ListNames => TaskView::ListNames,
            Task::RemoveSegment(n) => TaskView::RemoveSegment(*n),
            Task::WriteRecord(n, line) => TaskView::WriteRecord(*n, line@),
            Task::WriteIndex(line) => TaskView::WriteIndex(line@),
            Task::Finished(loc) => TaskView::Finished(*loc),
        }
    }
}

/// How far the writing of a record has come.
#[derive(Debug)]
enum Phase {
    Opening,
    Listing,
    Pruning(Vec<u64>),
    Writing,
    Indexing(RecordLocation),
    Finished(RecordLocation),
}

/// The mathematical phase.
pub enum PhaseView {
    /// The next segment is to be opened.
    Opening,
    /// The names are to be listed, to see which segments are too many.
    Listing,
    /// These segments are to be removed, in this order.
    Pruning(Seq<u64>),
    /// The record is to be written.
    Writing,
    /// The record stands here; its entry is to be written.
    Indexing(RecordLocation),
    /// The record and its entry are written.
    Finished(RecordLocation),
}

impl View for Phase {
    type V = PhaseView;

    closed spec fn view(&self) -> PhaseView {
        match self {
            Phase::Opening => PhaseView::Opening,
            Phase::Listing => PhaseView::Listing,
            Phase::Pruning(doomed) => PhaseView::Pruning(doomed@),
            Phase::Writing => PhaseView::Writing,
            Phase::Indexing(loc) => PhaseView::Indexing(*loc),
            Phase::Finished(loc) => PhaseView::Finished(*loc),
        }
    }
}

/// A record on its way into the store.
#[derive(Debug)]
pub struct Append {
    line: String,
    key: String,
    phase: Phase,
}

/// The mathematical append.
pub struct AppendView {
    /// The line of the record.
    pub line: Seq<char>,
    /// The key under which it is filed.
    pub key: Seq<char>,
    /// How far it has come.
    pub phase: PhaseView,
}

impl View for Append {
    type V = AppendView;

    closed spec fn view(&self) -> AppendView {
        AppendView { line: self.line@, key: self.key@, phase: self.phase@ }
    }
}

/// How many bytes a line takes with its newline.
pub open spec fn line_bytes(line: Seq<char>) -> nat {
    byte_len(line) + 1
}

/// Whether a record of so many bytes starts a new segment: it would outgrow the
/// limit, and the segment has a record already.
pub open spec fn rotates(s: StoreView, bytes: nat) -> bool {
    s.active_lines > 0 && s.active_bytes + bytes > s.policy.max_segment_bytes
}

/// Whether the numbers of the store can count a record of so many bytes.
pub open spec fn has_room_for(s: StoreView, bytes: nat) -> bool {
    &&& s.active_bytes + bytes <= u64::MAX
    &&& s.active_lines < u64::MAX
    &&& rotates(s, bytes) ==> s.active_segment < u64::MAX
}

/// The first step of writing a record.
pub open spec fn begun(s: StoreView, rec: RecordView) -> AppendView {
    AppendView {
        line: record_line(rec),
        key: key_of(rec),
        phase: if rotates(s, line_bytes(record_line(rec))) {
            PhaseView::Opening
        } else {
            PhaseView::Writing
        },
    }
}

/// The segments to remove, given those there are in ascending order: the oldest
/// while there are more than `max`, up to the one that is written to.
pub open spec fn doomed(segs: Seq<u64>, max: nat, active: u64) -> Seq<u64>
    decreases segs.len(),
{
    if segs.len() <= max || segs.len() == 0 || segs[0] == active {
        Seq::empty()
    } else {
        seq![segs[0]] + doomed(segs.subrange(1, segs.len() as int), max, active)
    }
}

/// The entries but for those of a segment.
pub open spec fn without(index: Seq<EntryView>, n: u64) -> Seq<EntryView>
    decreases index.len(),
{
    if index.len() == 0 {
        Seq::empty()
    } else {
        let rest = without(index.drop_last(), n);
        if index.last().segment != n {
            rest.push(index.last())
        } else {
            rest
        }
    }
}

/// The phase in which segments are removed, if there are any to remove.
pub open spec fn pruning(doomed: Seq<u64>) -> PhaseView {
    if doomed.len() == 0 {
        PhaseView::Writing
    } else {
        PhaseView::Pruning(doomed)
    }
}

/// What is to be done next.
pub open spec fn task_of(s: StoreView, a: AppendView) -> TaskView {
    match a.phase {
        PhaseView::Opening => TaskView::OpenSegment((s.active_segment + 1) as u64),
        PhaseView::Listing => TaskView::ListNames,
        PhaseView::Pruning(doomed) => TaskView::RemoveSegment(doomed[0]),
        PhaseView::Writing => TaskView::WriteRecord(s.active_segment, a.line),
        PhaseView::Indexing(loc) => TaskView::WriteIndex(
            entry_line(EntryView { key: a.key, segment: loc.segment, line: loc.line }),
        ),
        PhaseView::Finished(loc) => TaskView::Finished(loc),
    }
}

/// The store and the append once the task is done; `names` are those listed,
/// where the task was to list them.
pub open spec fn after(s: StoreView, a: AppendView, names: Seq<Seq<char>>) -> (
    StoreView,
    AppendView,
) {
    match a.phase {
        PhaseView::Opening => (
            StoreView {
                active_segment: (s.active_segment + 1) as u64,
                active_bytes: 0,
                active_lines: 0,
                ..s
            },
            AppendView { phase: PhaseView::Listing, ..a },
        ),
        PhaseView::Listing => (
            s,
            AppendView {
                phase: pruning(
                    doomed(segments_in(names), s.policy.max_segments as nat, s.active_segment),
                ),
                ..a
            },
        ),
        PhaseView::Pruning(doomed) => (
            StoreView { index: without(s.index, doomed[0]), ..s },
            AppendView { phase: pruning(doomed.subrange(1, doomed.len() as int)), ..a },
        ),
        PhaseView::Writing => (
            StoreView {
                active_bytes: (s.active_bytes + line_bytes(a.line)) as u64,
                active_lines: (s.active_lines + 1) as u64,
                ..s
            },
            AppendView {
                phase: PhaseView::Indexing(
                    RecordLocation { segment: s.active_segment, line: s.active_lines },
                ),
                ..a
            },
        ),
        PhaseView::Indexing(loc) => (
            StoreView {
                index: s.index.push(
                    EntryView { key: a.key, segment: loc.segment, line: loc.line },
                ),
                ..s
            },
            AppendView { phase: PhaseView::Finished(loc), ..a },
        ),
        PhaseView::Finished(_) => (s, a),
    }
}

/// Whether the store's numbers can count what is still to be done.
pub open spec fn can_go_on(s: StoreView, a: AppendView) -> bool {
    match a.phase {
        PhaseView::Opening => s.active_segment < u64::MAX && line_bytes(a.line) <= u64::MAX,
        PhaseView::Listing => s.active_bytes + line_bytes(a.line) <= u64::MAX && s.active_lines
            < u64::MAX,
        PhaseView::Pruning(doomed) => doomed.len() > 0 && s.active_bytes + line_bytes(a.line)
            <= u64::MAX && s.active_lines < u64::MAX,
        PhaseView::Writing => s.active_bytes + line_bytes(a.line) <= u64::MAX && s.active_lines
            < u64::MAX,
        PhaseView::Indexing(_) => true,
        PhaseView::Finished(_) => true,
    }
}

impl LucidStore {
    /// Whether the numbers of the store can count the record.
    pub fn has_room(&self, rec: &Record) -> (r: bool)
        ensures
            r == has_room_for(self@, line_bytes(record_line(rec@))),
    {
        let line = match rec.to_ndjson() {
            Ok(line) => line,
            Err(_) => {
                return false;
            },
        };
        let bytes: u128 = size(line.as_str()) as u128 + 1;
        let together: u128 = self.active_bytes as u128 + bytes;
        let rotates = self.active_lines > 0 && together > self.policy.max_segment_bytes as u128;
        together <= u64::MAX as u128 && self.active_lines < u64::MAX && (!rotates
            || self.active_segment < u64::MAX)
    }

    /// Begins to write a record. It goes to a new segment where it would outgrow
    /// the one that is written to, unless that is still empty.
    pub fn append(&self, rec: &Record) -> (r: Result<Append, RecordError>)
        requires
            has_room_for(self@, line_bytes(record_line(rec@))),
        ensures
            r is Ok,
            r->Ok_0@ == begun(self@, rec@),
            can_go_on(self@, r->Ok_0@),
    {
        let line = match rec.to_ndjson() {
            Ok(line) => line,
            Err(e) => {
                return Err(e);
            },
        };
        let bytes: u64 = size(line.as_str()) + 1;
        let phase = if self.active_lines > 0 && self.active_bytes + bytes
            > self.policy.max_segment_bytes {
            Phase::Opening
        } else {
            Phase::Writing
        };
        Ok(Append { line, key: rec.correlation_key(), phase })
    }

    /// What is to be done next, so that the record is written.
    pub fn task(&self, append: &Append) -> (r: Task)
        requires
            can_go_on(self@, append@),
        ensures
            r@ == task_of(self@, append@),
    {
        match &append.phase {
            Phase::Opening => Task::OpenSegment(self.active_segment + 1),
            Phase::Listing => Task::ListNames,
            Phase::Pruning(doomed) => Task::RemoveSegment(doomed[0]),
            Phase::Writing => Task::WriteRecord(self.active_segment, append.line.clone()),
            Phase::Indexing(loc) => {
                let entry = IndexEntry {
                    key: append.key.clone(),
                    segment: loc.segment,
                    line: loc.line,
                };
                Task::WriteIndex(entry.to_ndjson())
            },
            Phase::Finished(loc) => Task::Finished(*loc),
        }
    }

    /// Takes note that the task is done; `names` are those listed, where the
    /// task was to list them.
    pub fn advance(&mut self, append: Append, names: &[String]) -> (r: Append)
        requires
            can_go_on(old(self)@, append@),
        ensures
            (final(self)@, r@) == after(old(self)@, append@, names.deep_view()),
            can_go_on(final(self)@, r@),
    {
        let Append { line, key, phase } = append;
        match phase {
            Phase::Opening => {
                self.rotate();
                Append { line, key, phase: Phase::Listing }
            },
            Phase::Listing => {
                let phase = Self::pruning_phase(self.prune(names));
                Append { line, key, phase }
            },
            Phase::Pruning(doomed) => {
                let mut doomed = doomed;
                let ghost was = doomed@;
                let oldest: u64 = doomed.remove(0);
                self.forget_segment(oldest);
                assert(doomed@ =~= was.subrange(1, was.len() as int));
                let phase = Self::pruning_phase(doomed);
                Append { line, key, phase }
            },
            Phase::Writing => {
                let loc = RecordLocation { segment: self.active_segment, line: self.active_lines };
                self.active_bytes = self.active_bytes + (size(line.as_str()) + 1);
                self.active_lines = self.active_lines + 1;
                Append { line, key, phase: Phase::Indexing(loc) }
            },
            Phase::Indexing(loc) => {
                let ghost was = self.index.deep_view();
                let entry = IndexEntry { key: key.clone(), segment: loc.segment, line: loc.line };
                let ghost e = entry@;
                self.index.push(entry);
                assert(self.index.deep_view() =~= was.push(e));
                Append { line, key, phase: Phase::Finished(loc) }
            },
            Phase::Finished(loc) => Append { line, key, phase: Phase::Finished(loc) },
        }
    }

    fn pruning_phase(doomed: Vec<u64>) -> (r: Phase)
        ensures
            r@ == pruning(doomed@),
    {
        if doomed.len() == 0 {
            Phase::Writing
        } else {
            Phase::Pruning(doomed)
        }
    }

    /// Turns to the next segment, which is empty.
    fn rotate(&mut self)
        requires
            old(self)@.active_segment < u64::MAX,
        ensures
            final(self)@ == (StoreView {
                active_segment: (old(self)@.active_segment + 1) as u64,
                active_bytes: 0,
                active_lines: 0,
                ..old(self)@
            }),
    {
        self.active_segment = self.active_segment + 1;
        self.active_bytes = 0;
        self.active_lines = 0;
    }

    /// The segments to remove, given the names in the data directory: the oldest
    /// while there are too many, up to the one that is written to.
    pub fn prune(&self, names: &[String]) -> (r: Vec<u64>)
        ensures
            r@ == doomed(
                segments_in(names.deep_view()),
                self@.policy.max_segments as nat,
                self@.active_segment,
            ),
    {
        let segs = list_segments(names);
        let max: usize = self.policy.max_segments;
        let ghost active = self.active_segment;
        let mut out: Vec<u64> = Vec::new();
        let mut i: usize = 0;
        assert(segs@.subrange(0, segs@.len() as int) =~= segs@);
        assert(doomed(segs@, max as nat, active) =~= out@ + doomed(segs@, max as nat, active));
        while i < segs.len() && segs.len() - i > max && segs[i] != self.active_segment
            invariant
                i <= segs@.len(),
                active == self.active_segment,
                max == self.policy.max_segments,
                doomed(segs@, max as nat, active) == out@ + doomed(
                    segs@.subrange(i as int, segs@.len() as int),
                    max as nat,
                    active,
                ),
            decreases segs@.len() - i,
        {
            let ghost rest = segs@.subrange(i as int, segs@.len() as int);
            let ghost was = out@;
            out.push(segs[i]);
            proof {
                assert(rest.subrange(1, rest.len() as int) =~= segs@.subrange(
                    i + 1,
                    segs@.len() as int,
                ));
                assert(was + doomed(rest, max as nat, active) =~= out@ + doomed(
                    segs@.subrange(i + 1, segs@.len() as int),
                    max as nat,
                    active,
                ));
            }
            i += 1;
        }
        assert(out@ + Seq::<u64>::empty() =~= out@);
        out
    }

    /// Drops the entries of a segment that has been removed.
    fn forget_segment(&mut self, n: u64)
        ensures
            final(self)@ == (StoreView { index: without(old(self)@.index, n), ..old(self)@ }),
    {
        let ghost all = self.index.deep_view();
        let mut kept: Vec<IndexEntry> = Vec::new();
        let mut i: usize = 0;
        assert(all.subrange(0, 0) =~= Seq::empty());
        assert(kept.deep_view() =~= Seq::empty());
        while i < self.index.len()
            invariant
                *self == *old(self),
                i <= self.index@.len(),
                all == self.index.deep_view(),
                kept.deep_view() == without(all.subrange(0, i as int), n),
            decreases self.index@.len() - i,
        {
            let e = &self.index[i];
            proof {
                assert(all.subrange(0, i + 1).drop_last() =~= all.subrange(0, i as int));
                assert(all[i as int] == e@);
            }
            if e.segment != n {
                let ghost was = kept.deep_view();
                let entry = IndexEntry { key: e.key.clone(), segment: e.segment, line: e.line };
                kept.push(entry);
                assert(kept.deep_view() =~= was.push(e@));
            }
            i += 1;
        }
        assert(all.subrange(0, i as int) =~= all);
        self.index = kept;
    }
}

} // verus!
