//! The decisions of the store, one by one.

use wintermute_lucid::index::{rebuild_index, BadIndexEntry};
use wintermute_lucid::record::RecordError;
use wintermute_lucid::segment::{
    count_lines, highest_segment, list_segments, parse_segment_number, read_segment, segment_name,
};
use wintermute_lucid::store::Task;
use wintermute_lucid::{LucidStore, Payload, Record, RecordLocation, RotationPolicy};

fn names(list: &[&str]) -> Vec<String> {
    list.iter().map(|n| n.to_string()).collect()
}

fn rec(ts: u64) -> Record {
    Record::new(ts, "wm.a".to_string(), "p".to_string(), Payload::Null)
}

fn log(records: &[Record]) -> String {
    records.iter().map(|r| format!("{}\n", r.to_ndjson().expect("line"))).collect()
}

#[test]
fn the_data_directory_follows_the_environment() {
    let dir = |xdg: Option<&str>, home: Option<&str>| {
        LucidStore::default_data_dir(xdg.map(str::to_string), home.map(str::to_string))
    };
    let join = |base: &str, rest: &str| {
        std::path::PathBuf::from(base).join(rest).to_string_lossy().into_owned()
    };
    for base in ["/c", "/c/", "c", "/"] {
        assert_eq!(dir(Some(base), Some("/h")), join(base, "wintermute/lucid"));
        assert_eq!(dir(None, Some(base)), join(base, ".cache/wintermute/lucid"));
    }
    assert_eq!(dir(Some(""), Some("/h")), "/h/.cache/wintermute/lucid");
    assert_eq!(dir(None, None), "./.cache/wintermute/lucid");
    assert_eq!(dir(None, Some("")), join("", ".cache/wintermute/lucid"));
}

#[test]
fn the_default_policy_is_sixteen_by_sixteen() {
    let policy = RotationPolicy::default();
    assert_eq!(policy.max_segment_bytes, 16 * 1024 * 1024);
    assert_eq!(policy.max_segments, 16);
}

#[test]
fn segments_are_known_by_their_names() {
    for n in [0, 7, 10, u64::MAX] {
        assert_eq!(parse_segment_number(&segment_name(n)), Some(n));
    }
    assert_eq!(segment_name(12), "segment-12.ndjson");
    for (name, number) in [
        ("segment-007.ndjson", Some(7)),
        ("segment-+7.ndjson", Some(7)),
        ("segment-.ndjson", None),
        ("segment--1.ndjson", None),
        ("segment-1.ndjson.bak", None),
        ("xsegment-1.ndjson", None),
        ("segment-18446744073709551616.ndjson", None),
        ("index.ndjson", None),
    ] {
        assert_eq!(parse_segment_number(name), number, "{name}");
    }
    let listed = names(&["segment-10.ndjson", "index.ndjson", "segment-2.ndjson", "x", "segment-02.ndjson"]);
    assert_eq!(list_segments(&listed), vec![2, 2, 10]);
    assert_eq!(highest_segment(&listed), Some(10));
    assert_eq!(highest_segment(&names(&["index.ndjson"])), None);
}

#[test]
fn blank_lines_are_no_records() {
    let text = format!("\n  \t\n{}\u{3000}\n\n{}", log(&[rec(1)]), log(&[rec(2)]));
    assert_eq!(count_lines(&text), 2);
    assert_eq!(read_segment(&text), Ok(vec![rec(1), rec(2)]));
    assert_eq!(count_lines(""), 0);
    assert_eq!(read_segment(""), Ok(Vec::new()));
    let unfinished = log(&[rec(1)]).trim_end().to_string();
    assert_eq!(count_lines(&unfinished), 1);
    assert_eq!(read_segment(&unfinished), Ok(vec![rec(1)]));
    assert_eq!(read_segment(&log(&[rec(3)]).replace('\n', "\r\n")), Ok(vec![rec(3)]));
}

#[test]
fn a_bad_line_spoils_its_segment() {
    let cut = format!("{}{{\"v\":1,", log(&[rec(1)]));
    assert_eq!(read_segment(&cut), Err(RecordError::NotJson));
    assert_eq!(read_segment(&format!("{}{{}}\nx\n", log(&[rec(1)]))), Err(RecordError::NotARecord));
    assert_eq!(count_lines(&cut), 2);

    let here = names(&["segment-0.ndjson", "segment-1.ndjson"]);
    let index = "{\"key\":\"a\",\"segment\":0,\"line\":0}\n{\"key\":\"b\",\"segment\":1,\"line\":0}\n";
    let store = LucidStore::open(
        RotationPolicy::default(),
        &here,
        rebuild_index(index, &here).expect("index"),
        &cut,
    );
    let texts = vec![(0, log(&[rec(5)])), (1, cut)];
    assert_eq!(store.records_for("a", &texts), Ok(vec![rec(5)]));
    assert_eq!(store.records_for("b", &texts), Err(RecordError::NotJson));
    assert_eq!(store.read_all(&here, &texts), Err(RecordError::NotJson));
    assert_eq!(store.record_count(&here, &texts), Some(3));
}

#[test]
fn the_index_is_rebuilt_from_the_sidecar() {
    let here = names(&["segment-3.ndjson", "segment-1.ndjson"]);
    let sidecar = "{\"key\":\"a\",\"segment\":0,\"line\":0}\n\n\
        {\"key\":\"a\",\"segment\":1,\"line\":4}\n\
        {\"key\":\"b\",\"segment\":3,\"line\":0}\n\
        {\"key\":\"a\",\"segment\":3,\"line\":1}\n";
    let index = rebuild_index(sidecar, &here).expect("index");
    let entries: Vec<(&str, u64, u64)> =
        index.iter().map(|e| (e.key.as_str(), e.segment, e.line)).collect();
    assert_eq!(entries, vec![("a", 1, 4), ("b", 3, 0), ("a", 3, 1)]);
    let store = LucidStore::open(RotationPolicy::default(), &here, index, "");
    assert_eq!(store.active_segment(), 3);
    assert_eq!(
        store.locations_for("a"),
        vec![RecordLocation { segment: 1, line: 4 }, RecordLocation { segment: 3, line: 1 }]
    );
    assert!(store.locations_for("c").is_empty());
    assert!(rebuild_index("", &here).expect("index").is_empty());
    for bad in ["x", "{}", "{\"key\":\"a\",\"segment\":9}", "{\"key\":\"a\",\"segment\":9,\"line\":0"] {
        let text = format!("{sidecar}{bad}\n");
        assert_eq!(rebuild_index(&text, &here).err(), Some(BadIndexEntry), "{bad}");
    }
}

#[test]
fn records_that_are_gone_are_left_out() {
    let here = names(&["segment-0.ndjson"]);
    let sidecar = "{\"key\":\"k\",\"segment\":0,\"line\":1}\n{\"key\":\"k\",\"segment\":0,\"line\":9}\n{\"key\":\"k\",\"segment\":0,\"line\":0}\n";
    let index = rebuild_index(sidecar, &here).expect("index");
    let store = LucidStore::open(RotationPolicy::default(), &here, index, "");
    let texts = vec![(0, log(&[rec(1), rec(2)]))];
    assert_eq!(store.records_for("k", &texts), Ok(vec![rec(2), rec(1)]));
    assert_eq!(store.records_for("k", &[]), Ok(Vec::new()));
}

#[test]
fn segments_that_share_a_number_are_read_twice() {
    let here = names(&["segment-1.ndjson", "segment-01.ndjson", "segment-0.ndjson"]);
    let store = LucidStore::open(RotationPolicy::default(), &here, Vec::new(), "");
    let texts = vec![(0, log(&[rec(5)])), (1, log(&[rec(6)]))];
    assert_eq!(store.segment_count(&here), 3);
    assert_eq!(store.read_all(&here, &texts), Ok(vec![rec(5), rec(6), rec(6)]));
    assert_eq!(store.record_count(&here, &texts), Some(3));
}

#[test]
fn a_new_store_starts_with_segment_zero() {
    let mut store = LucidStore::open(RotationPolicy::default(), &[], Vec::new(), "");
    assert_eq!(store.active_segment(), 0);
    let r = rec(4);
    assert!(store.has_room(&r));
    let append = store.append(&r).expect("append");
    match store.task(&append) {
        Task::WriteRecord(0, line) => assert_eq!(line, r.to_ndjson().expect("line")),
        other => panic!("unexpected {other:?}"),
    }
    let append = store.advance(append, &[]);
    match store.task(&append) {
        Task::WriteIndex(line) => {
            assert_eq!(line, "{\"key\":\"untagged-4\",\"segment\":0,\"line\":0}");
        }
        other => panic!("unexpected {other:?}"),
    }
    assert!(store.locations_for("untagged-4").is_empty());
    let append = store.advance(append, &[]);
    match store.task(&append) {
        Task::Finished(loc) => assert_eq!(loc, RecordLocation { segment: 0, line: 0 }),
        other => panic!("unexpected {other:?}"),
    }
    assert_eq!(store.locations_for("untagged-4"), vec![RecordLocation { segment: 0, line: 0 }]);
}

#[test]
fn a_full_segment_is_followed_by_the_next() {
    let here = names(&["segment-3.ndjson", "segment-4.ndjson", "segment-5.ndjson", "index.ndjson"]);
    let sidecar = "{\"key\":\"x\",\"segment\":3,\"line\":0}\n{\"key\":\"x\",\"segment\":5,\"line\":0}\n";
    let policy = RotationPolicy { max_segment_bytes: 50, max_segments: 2 };
    let index = rebuild_index(sidecar, &here).expect("index");
    let mut store = LucidStore::open(policy, &here, index, &log(&[rec(1)]));
    let append = store.append(&rec(2)).expect("append");
    assert!(matches!(store.task(&append), Task::OpenSegment(6)));
    assert_eq!(store.active_segment(), 5);
    let append = store.advance(append, &[]);
    assert_eq!(store.active_segment(), 6);
    assert!(matches!(store.task(&append), Task::ListNames));
    let mut now = here.clone();
    now.push(segment_name(6));
    assert_eq!(store.prune(&now), vec![3, 4]);
    let append = store.advance(append, &now);
    assert!(matches!(store.task(&append), Task::RemoveSegment(3)));
    assert_eq!(store.locations_for("x").len(), 2);
    let append = store.advance(append, &[]);
    assert_eq!(store.locations_for("x"), vec![RecordLocation { segment: 5, line: 0 }]);
    assert!(matches!(store.task(&append), Task::RemoveSegment(4)));
    let append = store.advance(append, &[]);
    assert!(matches!(store.task(&append), Task::WriteRecord(6, _)));
}

#[test]
fn a_record_that_is_given_up_leaves_the_store_usable() {
    let here = names(&["segment-0.ndjson"]);
    let policy = RotationPolicy { max_segment_bytes: 50, max_segments: 2 };
    let mut store = LucidStore::open(policy, &here, Vec::new(), &log(&[rec(1)]));
    let append = store.append(&rec(2)).expect("append");
    let append = store.advance(append, &[]);
    drop(append);
    let again = store.append(&rec(3)).expect("append");
    assert!(matches!(store.task(&again), Task::WriteRecord(1, _)));
    let again = store.advance(again, &[]);
    drop(again);
    assert!(store.locations_for("untagged-3").is_empty());
    let last = store.append(&rec(4)).expect("append");
    assert!(matches!(store.task(&last), Task::OpenSegment(2)));
}

#[test]
fn the_last_number_leaves_no_room() {
    let here = names(&["segment-18446744073709551615.ndjson"]);
    let policy = RotationPolicy { max_segment_bytes: 1, max_segments: 2 };
    let full = LucidStore::open(policy, &here, Vec::new(), &log(&[rec(1)]));
    assert!(!full.has_room(&rec(2)));
    let empty = LucidStore::open(policy, &here, Vec::new(), "");
    assert!(empty.has_room(&rec(2)));
}

#[test]
fn pruning_stops_at_the_active_segment() {
    let here = names(&["segment-4.ndjson"]);
    let policy = RotationPolicy { max_segment_bytes: 1, max_segments: 1 };
    let store = LucidStore::open(policy, &here, Vec::new(), "");
    let listed = names(&["segment-9.ndjson", "segment-4.ndjson", "segment-2.ndjson", "segment-7.ndjson"]);
    assert_eq!(store.prune(&listed), vec![2]);
    assert!(store.prune(&here).is_empty());
}
