//! The store, driven through its tasks on a directory held in memory.

use std::collections::BTreeMap;

use wintermute_lucid::explain::{explain, Persona};
use wintermute_lucid::index::{rebuild_index, INDEX_FILE};
use wintermute_lucid::mind::{assemble, most_recent_turn_id};
use wintermute_lucid::record::extract_turn_id;
use wintermute_lucid::segment::{highest_segment, parse_segment_number, segment_name};
use wintermute_lucid::store::Task;
use wintermute_lucid::{
    trace_turn, LucidStore, Payload, Record, RecordLocation, RotationPolicy, SCHEMA_VERSION,
};

/// A data directory: file names and their texts.
#[derive(Default)]
struct Dir {
    files: BTreeMap<String, String>,
}

impl Dir {
    fn names(&self) -> Vec<String> {
        self.files.keys().cloned().collect()
    }

    fn texts(&self) -> Vec<(u64, String)> {
        self.files
            .iter()
            .filter_map(|(name, text)| parse_segment_number(name).map(|n| (n, text.clone())))
            .collect()
    }

    fn open(&mut self, policy: RotationPolicy) -> LucidStore {
        let names = self.names();
        let sidecar = self.files.get(INDEX_FILE).cloned().unwrap_or_default();
        let index = rebuild_index(&sidecar, &names).expect("index");
        let active = highest_segment(&names).unwrap_or(0);
        let text = self.files.entry(segment_name(active)).or_default().clone();
        self.files.entry(INDEX_FILE.to_string()).or_default();
        LucidStore::open(policy, &names, index, &text)
    }

    fn append(&mut self, store: &mut LucidStore, rec: &Record) -> RecordLocation {
        assert!(store.has_room(rec));
        let mut append = store.append(rec).expect("append");
        loop {
            let names = self.names();
            match store.task(&append) {
                Task::OpenSegment(n) => {
                    self.files.entry(segment_name(n)).or_default();
                }
                Task::ListNames => {}
                Task::RemoveSegment(n) => {
                    assert!(self.files.remove(&segment_name(n)).is_some());
                }
                Task::WriteRecord(n, line) => {
                    let text = self.files.get_mut(&segment_name(n)).expect("segment");
                    text.push_str(&line);
                    text.push('\n');
                }
                Task::WriteIndex(line) => {
                    let text = self.files.get_mut(INDEX_FILE).expect("sidecar");
                    text.push_str(&line);
                    text.push('\n');
                }
                Task::Finished(loc) => return loc,
            }
            append = store.advance(append, &names);
        }
    }

    fn count(&self, store: &LucidStore) -> u64 {
        store.record_count(&self.names(), &self.texts()).expect("count")
    }

    fn read_all(&self, store: &LucidStore) -> Vec<Record> {
        store.read_all(&self.names(), &self.texts()).expect("read_all")
    }

    fn records_for(&self, store: &LucidStore, key: &str) -> Vec<Record> {
        store.records_for(key, &self.texts()).expect("records_for")
    }
}

fn text(t: &str) -> Payload {
    Payload::Text(t.to_string())
}

fn object(members: &[(&str, Payload)]) -> Payload {
    let mut sorted: Vec<(String, Payload)> =
        members.iter().map(|(k, v)| (k.to_string(), v.clone())).collect();
    sorted.sort_by(|a, b| a.0.cmp(&b.0));
    Payload::Object(sorted)
}

fn rec(ts: u64, topic: &str, turn: Option<&str>) -> Record {
    let payload = match turn {
        Some(t) => object(&[("turn_id", text(t)), ("blob", text("x"))]),
        None => object(&[("blob", text("x"))]),
    };
    Record::new(ts, topic.to_string(), "peer-a".to_string(), payload)
}

// A burst of N events results in N records, each with every field.
#[test]
fn ac2_burst_persists_n_records_with_full_schema() {
    let mut dir = Dir::default();
    let mut store = dir.open(RotationPolicy::default());

    let n = 50u64;
    for i in 0..n {
        dir.append(&mut store, &rec(1000 + i, "wm.brain.reply", Some("turn-1")));
    }

    assert_eq!(dir.count(&store), n);
    let all = dir.read_all(&store);
    assert_eq!(all.len() as u64, n);
    for (i, r) in all.iter().enumerate() {
        assert_eq!(r.v, SCHEMA_VERSION);
        assert_eq!(r.ts_received, 1000 + i as u64);
        assert_eq!(r.topic, "wm.brain.reply");
        assert_eq!(r.turn_id.as_deref(), Some("turn-1"));
        assert_eq!(r.from, "peer-a");
        assert_eq!(r.raw_payload.get_text("blob").as_deref(), Some("x"));
    }
}

// Records are keyed by turn; an event without one is kept under a key of its own.
#[test]
fn ac3_turn_id_keyed_and_untagged_never_dropped() {
    let mut dir = Dir::default();
    let mut store = dir.open(RotationPolicy::default());

    dir.append(&mut store, &rec(10, "wm.stt.final", Some("turn-A")));
    dir.append(&mut store, &rec(11, "wm.brain.route", Some("turn-A")));
    dir.append(&mut store, &rec(12, "wm.audio.wake", None));

    let by_turn = dir.records_for(&store, "turn-A");
    assert_eq!(by_turn.len(), 2);
    assert!(by_turn.iter().all(|r| r.turn_id.as_deref() == Some("turn-A")));

    assert_eq!(dir.count(&store), 3);
    let synthetic = dir.records_for(&store, "untagged-12");
    assert_eq!(synthetic.len(), 1);
    assert_eq!(synthetic[0].topic, "wm.audio.wake");
    assert!(synthetic[0].turn_id.is_none());
}

// Rotation bounds the number of segments, and cuts none of those that stay.
#[test]
fn ac4_rotation_bounds_size_and_preserves_unpruned_segments() {
    let mut dir = Dir::default();
    let policy = RotationPolicy { max_segment_bytes: 200, max_segments: 2 };
    let mut store = dir.open(policy);

    for i in 0..200u64 {
        dir.append(&mut store, &rec(i, "wm.brain.tool.call", Some(&format!("turn-{i}"))));
    }

    let segs = store.segment_count(&dir.names());
    assert!(segs <= 2, "segment count {} exceeded cap", segs);

    let newest = dir.records_for(&store, "turn-199");
    assert_eq!(newest.len(), 1, "newest record must survive pruning");

    let all = dir.read_all(&store);
    assert!(!all.is_empty());
    assert!(all.iter().all(|r| r.v == SCHEMA_VERSION));
}

// After a restart the records are still there and can be found.
#[test]
fn ac5_records_survive_restart() {
    let mut dir = Dir::default();

    {
        let mut store = dir.open(RotationPolicy::default());
        for i in 0..20u64 {
            dir.append(&mut store, &rec(i, "wm.dialog.state", Some("turn-pre")));
        }
        assert_eq!(dir.count(&store), 20);
    }

    let mut store2 = dir.open(RotationPolicy::default());
    assert_eq!(dir.count(&store2), 20);

    let pre = dir.records_for(&store2, "turn-pre");
    assert_eq!(pre.len(), 20);

    dir.append(&mut store2, &rec(99, "wm.dialog.state", Some("turn-post")));
    assert_eq!(dir.count(&store2), 21);
}

// A record is one line, and reads back as it was.
#[test]
fn ac6_tap_record_is_one_ndjson_object_per_line() {
    let r = rec(42, "wm.stt.final", Some("turn-x"));
    let line = r.to_ndjson().expect("to_ndjson");
    assert!(!line.contains('\n'), "a record must be a single line");
    let parsed = Record::from_ndjson(&line).expect("from_ndjson");
    assert_eq!(parsed, r);

    let r2 = rec(43, "wm.brain.reply", None);
    assert_ne!(r2.to_ndjson().expect("ndjson2"), line);
}

// The turn that a payload names.
#[test]
fn ac1_recorder_identity_contract() {
    assert_eq!(extract_turn_id(&object(&[("turn_id", text("t9"))])), Some("t9".to_string()));
    assert_eq!(extract_turn_id(&object(&[("other", Payload::UInt(1))])), None);
    assert_eq!(extract_turn_id(&object(&[("turn_id", Payload::UInt(5))])), None);
}

fn turn_rec(ts: u64, topic: &str, turn: &str, extra: &[(&str, Payload)]) -> Record {
    let mut members = vec![("turn_id", text(turn))];
    members.extend(extra.iter().cloned());
    Record::new(ts, topic.to_string(), "peer".to_string(), object(&members))
}

fn happy_turn(turn: &str, utterance: &str, base_ts: u64) -> Vec<Record> {
    vec![
        turn_rec(base_ts, "wm.audio.wake", turn, &[("score", Payload::Float("0.99".to_string()))]),
        turn_rec(base_ts + 18, "wm.audio.speech.start", turn, &[]),
        turn_rec(base_ts + 1258, "wm.audio.speech.end", turn, &[]),
        turn_rec(base_ts + 3968, "wm.stt.final", turn, &[("text", text(utterance))]),
        turn_rec(base_ts + 3980, "wm.dialog.turn.user", turn, &[]),
        turn_rec(
            base_ts + 3988,
            "wm.brain.route",
            turn,
            &[("tier", text("sonnet")), ("model", text("sonnet-4-6"))],
        ),
        turn_rec(base_ts + 6133, "wm.brain.reply", turn, &[("text", text("It's about 3:45"))]),
        turn_rec(base_ts + 6158, "wm.tts.start", turn, &[]),
        turn_rec(base_ts + 8418, "wm.tts.end", turn, &[]),
    ]
}

fn narrate(dir: &Dir, store: &LucidStore, turn: &str) -> (String, String) {
    let records = dir.records_for(store, turn);
    let tl = trace_turn(turn, &records).expect("timeline");
    let mind = assemble(store, turn, &dir.texts()).expect("assemble");
    let ex = explain(&tl, mind.as_ref(), Persona::default());
    assert!(ex.success);
    (ex.turn_id, ex.text)
}

// The turn that was recorded last is explained as it is by its own name.
#[test]
fn ac6_last_resolves_to_most_recent_turn() {
    let mut dir = Dir::default();
    let mut store = dir.open(RotationPolicy::default());
    for turn in [
        happy_turn("turn-old", "what time is it", 1_000),
        happy_turn("turn-new", "what is the weather", 500_000),
    ] {
        for r in &turn {
            dir.append(&mut store, r);
        }
    }

    let last = most_recent_turn_id(&store, &dir.names(), &dir.texts())
        .expect("read")
        .expect("a turn");
    let (turn_id, text) = narrate(&dir, &store, &last);
    assert_eq!(turn_id, "turn-new", "--last should pick the most recent turn");
    assert!(text.contains("what is the weather"));
    assert!(!text.contains("what time is it"));

    assert_eq!((turn_id, text), narrate(&dir, &store, "turn-new"));
}

// What a restart brings up goes on where the store left off, whatever the policy.
#[test]
fn a_restart_changes_nothing() {
    let policy = RotationPolicy { max_segment_bytes: 300, max_segments: 3 };
    let mut once = Dir::default();
    let mut again = Dir::default();
    let mut store = once.open(policy);
    for i in 0..40u64 {
        let r = rec(i, "wm.stt.final", Some(&format!("turn-{}", i % 7)));
        let mut fresh = again.open(policy);
        let here = once.append(&mut store, &r);
        let there = again.append(&mut fresh, &r);
        assert_eq!(here, there);
        assert_eq!(once.files, again.files);
        assert_eq!(store.active_segment(), fresh.active_segment());
        for k in 0..7 {
            let key = format!("turn-{k}");
            assert_eq!(store.locations_for(&key), fresh.locations_for(&key));
        }
    }
}

// Writing touches no segment but the last, and removes only the oldest.
#[test]
fn written_segments_are_left_alone() {
    let policy = RotationPolicy { max_segment_bytes: 400, max_segments: 3 };
    let mut dir = Dir::default();
    let mut store = dir.open(policy);
    for i in 0..60u64 {
        let before = dir.texts();
        let loc = dir.append(&mut store, &rec(i, "wm.stt.final", None));
        let after = dir.texts();
        assert_eq!(loc.segment, store.active_segment());
        for (n, text) in &after {
            let was = before.iter().find(|(m, _)| m == n).map(|(_, t)| t.as_str()).unwrap_or("");
            if *n == loc.segment {
                assert!(text.starts_with(was) && text.len() > was.len());
            } else {
                assert_eq!(text, was);
            }
        }
        for (gone, _) in before.iter().filter(|(n, _)| !after.iter().any(|(m, _)| m == n)) {
            assert!(after.iter().all(|(kept, _)| gone < kept));
        }
        assert!(after.len() <= 3);
        let found = dir.records_for(&store, &format!("untagged-{i}"));
        assert_eq!(found, vec![rec(i, "wm.stt.final", None)]);
    }
}

// With no segments to keep, the one that is written to stays all the same.
#[test]
fn the_active_segment_is_never_pruned() {
    let policy = RotationPolicy { max_segment_bytes: 1, max_segments: 0 };
    let mut dir = Dir::default();
    let mut store = dir.open(policy);
    for i in 0..5u64 {
        let loc = dir.append(&mut store, &rec(i, "wm.stt.final", None));
        assert_eq!(loc, RecordLocation { segment: i, line: 0 });
        assert_eq!(store.segment_count(&dir.names()), 1);
    }
}

// A record that is larger than a segment may be still lands in one.
#[test]
fn an_oversized_record_has_a_segment_of_its_own() {
    let policy = RotationPolicy { max_segment_bytes: 10, max_segments: 10 };
    let mut dir = Dir::default();
    let mut store = dir.open(policy);
    assert_eq!(dir.append(&mut store, &rec(1, "wm.a", None)).segment, 0);
    assert_eq!(dir.append(&mut store, &rec(2, "wm.b", None)).segment, 1);
    assert_eq!(dir.count(&store), 2);
}

// The limit itself may be reached: a line that just fits does not rotate.
#[test]
fn a_segment_may_be_filled_to_its_limit() {
    let first = rec(1, "wm.a", None);
    let second = rec(2, "wm.é", None);
    let bytes = (first.to_ndjson().expect("line").len() + second.to_ndjson().expect("line").len() + 2) as u64;
    for (limit, segment) in [(bytes, 0), (bytes - 1, 1)] {
        let mut dir = Dir::default();
        let mut store = dir.open(RotationPolicy { max_segment_bytes: limit, max_segments: 9 });
        dir.append(&mut store, &first);
        assert_eq!(dir.append(&mut store, &second).segment, segment);
    }
}

#[test]
fn a_record_that_reads_back_changed_leaves_the_others_alone() {
    let mut dir = Dir::default();
    let policy = RotationPolicy { max_segment_bytes: 400, max_segments: 2 };
    let mut store = dir.open(policy);
    let tagged = |ts: u64, turn: &str, extra: Payload| {
        let members = vec![("a".to_string(), extra), ("turn_id".to_string(), Payload::Text(turn.to_string()))];
        Record::new(ts, "wm.a".to_string(), "p".to_string(), Payload::Object(members))
    };
    let mut before: Vec<Record> = Vec::new();
    for ts in 0..12u64 {
        // Every third record holds a float that is read back in its shortest form.
        let (turn, extra) = match ts % 3 {
            0 => ("changed", Payload::Float("1.50".to_string())),
            1 => ("kept", Payload::UInt(ts)),
            _ => ("other", Payload::Null),
        };
        let rec = tagged(ts, turn, extra);
        let was = store.locations_for("other");
        let segments = dir.names();
        let loc = dir.append(&mut store, &rec);
        let after = store.read_all(&dir.names(), &dir.texts()).expect("records");
        let older = &after[..after.len() - 1];
        assert!(before.ends_with(older));
        if segments.iter().all(|n| dir.files.contains_key(n)) {
            assert_eq!(older, &before[..]);
        }
        assert_eq!(store.record_count(&dir.names(), &dir.texts()), Some(after.len() as u64));
        assert_eq!(store.locations_for(turn).last(), Some(&loc));
        let found = store.records_for(turn, &dir.texts()).expect("records");
        assert_eq!(found.len(), store.locations_for(turn).len());
        let back = if turn == "changed" {
            tagged(ts, turn, Payload::Float("1.5".to_string()))
        } else {
            rec
        };
        assert_eq!(after.last(), Some(&back));
        assert_eq!(found.last(), Some(&back));
        if turn != "other" {
            let live: Vec<u64> = dir.texts().iter().map(|t| t.0).collect();
            let stay: Vec<RecordLocation> =
                was.into_iter().filter(|l| live.contains(&l.segment)).collect();
            assert_eq!(store.locations_for("other"), stay);
        }
        before = after;
    }
    assert!(store.active_segment() > 1);
    let located: Vec<u64> = store.locations_for("kept").iter().map(|l| l.segment).collect();
    let texts: Vec<(u64, String)> =
        dir.texts().into_iter().filter(|t| located.contains(&t.0)).collect();
    let kept = store.records_for("kept", &texts).expect("records");
    assert_eq!(kept, store.records_for("kept", &dir.texts()).expect("records"));
}
