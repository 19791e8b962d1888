//! The sidecar: one line for each record, with its key and where it stands.

use crate::fields::{fields_of, gives_back, named, names_of, read_fields};
use crate::payload::{
    field, fits, lookup, members_text, members_text_is_one_line, no_control, object_text,
    push_member, Json, Members, Payload,
};
use crate::segment::{list_segments, segments_in};
use crate::text::{
    a_written_line_is_the_next, blank, chomped, is_blank, lines, lines_of, split_lines,
};
use vstd::prelude::*;

verus! {

/// The name of the sidecar.
pub const INDEX_FILE: &'static str = "index.ndjson";

/// One entry of the sidecar: the key of a record and where it stands.
#[derive(Debug)]
pub struct IndexEntry {
    /// The key under which the record is filed.
    pub key: String,
    /// The segment that holds the record.
    pub segment: u64,
    /// The line of the record there, from 0.
    pub line: u64,
}

/// The mathematical entry.
pub struct EntryView {
    pub key: Seq<char>,
    pub segment: u64,
    pub line: u64,
}

impl View for IndexEntry {
    type V = EntryView;

    open spec fn view(&self) -> EntryView {
        EntryView { key: self.key@, segment: self.segment, line: self.line }
    }
}

impl DeepView for IndexEntry {
    type V = EntryView;

    open spec fn deep_view(&self) -> EntryView {
        self@
    }
}

/// A line of the sidecar is no entry.
#[derive(Debug, Clone, Copy, PartialEq, Eq, Structural)]
pub struct BadIndexEntry;

/// The fields of an entry, in the order in which they are written.
pub const INDEX_FIELDS: [&'static str; 3] = ["key", "segment", "line"];

/// The members of the object that holds an entry.
pub open spec fn entry_members(e: EntryView) -> Members {
    seq![
        ("key"@, Json::Text(e.key)),
        ("segment"@, Json::UInt(e.segment)),
        ("line"@, Json::UInt(e.line)),
    ]
}

/// The line that holds an entry, without its end.
pub open spec fn entry_line(e: EntryView) -> Seq<char> {
    object_text(entry_members(e))
}

/// The entry that a JSON value holds.
pub open spec fn entry_of(j: Json) -> Option<EntryView> {
    if !fits(j, 3) {
        None
    } else {
        match (field(j, "key"@, 0), field(j, "segment"@, 1), field(j, "line"@, 2)) {
            (Some(Json::Text(key)), Some(Json::UInt(segment)), Some(Json::UInt(line))) => Some(
                EntryView { key, segment, line },
            ),
            _ => None,
        }
    }
}

/// The entry that a line holds: none where it is no JSON, or lacks a field,
/// gives one twice or gives one of another type.
pub open spec fn line_entry(line: Seq<char>) -> Option<EntryView> {
    match fields_of(line, names_of(INDEX_FIELDS@)) {
        Err(_) => None,
        Ok(j) => entry_of(j),
    }
}

impl IndexEntry {
    /// The line that holds the entry, without its end.
    pub fn to_ndjson(&self) -> (r: String)
        ensures
            r@ == entry_line(self@),
    {
        let mut out: String = "{".to_string();
        let ghost m0: Members = Seq::empty();
        proof {
            reveal_strlit("{");
            assert(out@ =~= seq!['{'] + members_text(m0));
        }
        push_member(&mut out, Ghost(m0), "key", &Payload::Text(self.key.clone()));
        let ghost m1 = m0.push(("key"@, Json::Text(self.key@)));
        push_member(&mut out, Ghost(m1), "segment", &Payload::UInt(self.segment));
        let ghost m2 = m1.push(("segment"@, Json::UInt(self.segment)));
        push_member(&mut out, Ghost(m2), "line", &Payload::UInt(self.line));
        let ghost m3 = m2.push(("line"@, Json::UInt(self.line)));
        assert(m3 =~= entry_members(self@));
        out.push('}');
        out
    }

    /// The entry that a line holds. A line that was written for an entry holds
    /// that entry.
    pub fn from_ndjson(line: &str) -> (r: Result<IndexEntry, BadIndexEntry>)
        ensures
            match line_entry(line@) {
                Some(e) => r is Ok && r->Ok_0@ == e,
                None => r is Err,
            },
            forall|e: EntryView|
                line@ == #[trigger] entry_line(e) ==> r is Ok && r->Ok_0@ == e,
    {
        proof {
            assert forall|e: EntryView| line@ == #[trigger] entry_line(e) implies line@
                == object_text(entry_members(e)) && gives_back(
                entry_members(e),
                names_of(INDEX_FIELDS@),
            ) && entry_of(Json::Object(named(entry_members(e), names_of(INDEX_FIELDS@)))) == Some(
                e,
            ) by {
                lemma_entry_members(e);
            }
        }
        let p = match read_fields(line, INDEX_FIELDS.as_slice()) {
            Ok(p) => p,
            Err(_) => {
                return Err(BadIndexEntry);
            },
        };
        if !p.fits(3) {
            return Err(BadIndexEntry);
        }
        match (p.field("key", 0), p.field("segment", 1), p.field("line", 2)) {
            (Some(Payload::Text(key)), Some(Payload::UInt(segment)), Some(Payload::UInt(line))) => Ok(
                IndexEntry { key: key.clone(), segment: *segment, line: *line },
            ),
            _ => Err(BadIndexEntry),
        }
    }
}

proof fn lemma_entry_members(e: EntryView)
    ensures
        gives_back(entry_members(e), names_of(INDEX_FIELDS@)),
        named(entry_members(e), names_of(INDEX_FIELDS@)) == entry_members(e),
        entry_of(Json::Object(entry_members(e))) == Some(e),
{
    reveal_strlit("key");
    reveal_strlit("segment");
    reveal_strlit("line");
    assert("key"@.len() == 3 && "segment"@.len() == 7 && "line"@.len() == 4);
    let names = names_of(INDEX_FIELDS@);
    assert(names[0] == "key"@ && names[1] == "segment"@ && names[2] == "line"@);
    let m = entry_members(e);
    assert(m.drop_last().drop_last().drop_last() =~= Seq::empty());
    reveal_with_fuel(named, 4);
    assert(named(m, names) =~= m);
    reveal_with_fuel(lookup, 4);
}

/// The entries that lines hold, those of white space left out; none at all
/// where a line holds none.
pub open spec fn entries_of(ls: Seq<Seq<char>>) -> Option<Seq<EntryView>>
    decreases ls.len(),
{
    if ls.len() == 0 {
        Some(Seq::empty())
    } else {
        match entries_of(ls.drop_last()) {
            None => None,
            Some(rest) => if is_blank(ls.last()) {
                Some(rest)
            } else {
                match line_entry(ls.last()) {
                    None => None,
                    Some(e) => Some(rest.push(e)),
                }
            },
        }
    }
}

/// The entries whose segment is among the given ones.
pub open spec fn live(entries: Seq<EntryView>, segments: Set<u64>) -> Seq<EntryView>
    decreases entries.len(),
{
    if entries.len() == 0 {
        Seq::empty()
    } else {
        let rest = live(entries.drop_last(), segments);
        if segments.contains(entries.last().segment) {
            rest.push(entries.last())
        } else {
            rest
        }
    }
}

/// The text of a sidecar to which the entries were written, one behind the
/// other.
pub open spec fn index_text(entries: Seq<EntryView>) -> Seq<char>
    decreases entries.len(),
{
    if entries.len() == 0 {
        Seq::empty()
    } else {
        index_text(entries.drop_last()) + entry_line(entries.last()) + seq!['\n']
    }
}

/// The lines of entries.
pub open spec fn entry_lines(entries: Seq<EntryView>) -> Seq<Seq<char>> {
    Seq::new(entries.len(), |i: int| entry_line(entries[i]))
}

/// The line of an entry is one line: no control character stands in it.
pub proof fn entry_line_is_one_line(e: EntryView)
    ensures
        no_control(entry_line(e)),
{
    members_text_is_one_line(entry_members(e));
}

proof fn lemma_entry_line(e: EntryView)
    ensures
        forall|i: int| 0 <= i < entry_line(e).len() ==> #[trigger] entry_line(e)[i] != '\n',
        chomped(entry_line(e)) == entry_line(e),
        !is_blank(entry_line(e)),
{
    entry_line_is_one_line(e);
    let line = entry_line(e);
    assert(line[0] == '{');
    assert(0x20 <= line[line.len() - 1] as int);
}

/// A sidecar to which entries were written has the line of each, in order, and
/// nothing behind the last newline.
pub proof fn written_entries_are_lines(entries: Seq<EntryView>)
    ensures
        split_lines(index_text(entries)) == (entry_lines(entries), Seq::<char>::empty()),
        lines(index_text(entries)) == entry_lines(entries),
    decreases entries.len(),
{
    if entries.len() == 0 {
        assert(entry_lines(entries) =~= Seq::empty());
    } else {
        let rest = entries.drop_last();
        let line = entry_line(entries.last());
        written_entries_are_lines(rest);
        lemma_entry_line(entries.last());
        a_written_line_is_the_next(index_text(rest), line);
        assert(entry_lines(rest).push(line) =~= entry_lines(entries));
    }
}

/// The index that a sidecar gives back: its entries, but for those of segments
/// that are no longer there. A sidecar to which entries were written gives back
/// those.
pub fn rebuild_index(text: &str, names: &[String]) -> (r: Result<Vec<IndexEntry>, BadIndexEntry>)
    ensures
        match entries_of(lines(text@)) {
            Some(es) => r is Ok && r->Ok_0.deep_view() == live(
                es,
                segments_in(names.deep_view()).to_set(),
            ),
            None => r is Err,
        },
        forall|es: Seq<EntryView>|
            text@ == #[trigger] index_text(es) ==> r is Ok && r->Ok_0.deep_view() == live(
                es,
                segments_in(names.deep_view()).to_set(),
            ),
{
    let ls = lines_of(text);
    let ghost all = ls.deep_view();
    let segs = list_segments(names);
    let ghost there = segs@.to_set();
    proof {
        assert forall|es: Seq<EntryView>| text@ == #[trigger] index_text(es) implies all
            == entry_lines(es) by {
            written_entries_are_lines(es);
        }
    }
    let mut out: Vec<IndexEntry> = Vec::new();
    let ghost mut found: Seq<EntryView> = Seq::empty();
    let mut i: usize = 0;
    assert(all.subrange(0, 0) =~= Seq::empty());
    assert(out.deep_view() =~= Seq::empty());
    while i < ls.len()
        invariant
            i <= ls@.len(),
            all == ls.deep_view(),
            all == lines(text@),
            there == segs@.to_set(),
            there == segments_in(names.deep_view()).to_set(),
            entries_of(all.subrange(0, i as int)) == Some(found),
            out.deep_view() == live(found, there),
            forall|es: Seq<EntryView>|
                text@ == #[trigger] index_text(es) ==> all == entry_lines(es) && found
                    == es.subrange(0, i as int),
        decreases ls@.len() - i,
    {
        let ghost upto = all.subrange(0, i + 1);
        let ghost was = out.deep_view();
        let ghost was_found = found;
        proof {
            assert(upto.drop_last() =~= all.subrange(0, i as int));
            assert(upto.last() == ls@[i as int]@);
            assert forall|es: Seq<EntryView>| text@ == #[trigger] index_text(es) implies all[i as int]
                == entry_line(es[i as int]) && !is_blank(all[i as int]) by {
                lemma_entry_line(es[i as int]);
            }
        }
        if !blank(ls[i].as_str()) {
            match IndexEntry::from_ndjson(ls[i].as_str()) {
                Ok(entry) => {
                    let ghost e = entry@;
                    proof {
                        found = found.push(e);
                        assert(found.drop_last() =~= was_found);
                        assert(there.contains(e.segment) <==> segs@.contains(e.segment));
                    }
                    if holds(&segs, entry.segment) {
                        out.push(entry);
                        assert(out.deep_view() =~= was.push(e));
                    }
                },
                Err(e) => {
                    proof {
                        lemma_no_entries(all, i + 1);
                    }
                    return Err(e);
                },
            }
        }
        proof {
            assert forall|es: Seq<EntryView>| text@ == #[trigger] index_text(es) implies found
                == es.subrange(0, i + 1) by {
                assert(es.subrange(0, i + 1) =~= es.subrange(0, i as int).push(es[i as int]));
            }
        }
        i += 1;
    }
    assert(all.subrange(0, i as int) =~= all);
    proof {
        assert forall|es: Seq<EntryView>| text@ == #[trigger] index_text(es) implies found == es by {
            assert(es.subrange(0, i as int) =~= es);
        }
    }
    Ok(out)
}

fn holds(segs: &Vec<u64>, n: u64) -> (r: bool)
    ensures
        r == segs@.contains(n),
{
    let mut i: usize = 0;
    while i < segs.len()
        invariant
            i <= segs@.len(),
            forall|j: int| 0 <= j < i ==> segs@[j] != n,
        decreases segs@.len() - i,
    {
        if segs[i] == n {
            return true;
        }
        i += 1;
    }
    false
}

proof fn lemma_no_entries(ls: Seq<Seq<char>>, n: int)
    requires
        0 <= n <= ls.len(),
        entries_of(ls.subrange(0, n)) is None,
    ensures
        entries_of(ls) is None,
    decreases ls.len() - n,
{
    if n == ls.len() {
        assert(ls.subrange(0, n) =~= ls);
    } else {
        assert(ls.subrange(0, n + 1).drop_last() =~= ls.subrange(0, n));
        lemma_no_entries(ls, n + 1);
    }
}

} // verus!
