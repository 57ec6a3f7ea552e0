use note_tracker::storage::Note;
use note_tracker::tracker::select::{get_notes_to_review, notes_sorted_by_name};
use note_tracker::tracker::time::Timestamp;
use note_tracker::tracker::{
    add_notes_with_prefix, find_note_name, insert_note, load_map, remove_note, save_map,
    update_reviewed_notes, NoteCollection, NoteEntry, TrackerError,
};

const DAY: i64 = 86400;

fn ts(secs: i64) -> Timestamp {
    Timestamp::new(secs, 0).unwrap()
}

fn entry(name: &str, freq: u16, secs: i64) -> NoteEntry {
    NoteEntry::new(name.to_string(), freq, ts(secs))
}

fn collection(entries: Vec<NoteEntry>) -> NoteCollection {
    let mut c = NoteCollection::new();
    for e in entries {
        insert_note(&mut c, e);
    }
    c
}

fn names(v: &[NoteEntry]) -> Vec<String> {
    v.iter().map(|e| e.name.clone()).collect()
}

#[test]
fn selection_scenario_least_and_oldest() {
    // against a "now" of day 100 — A: count 0, 10 days ago; B: count 5,
    // 1 day ago; C: count 1, 30 days ago
    let c = collection(vec![
        entry("B", 5, 99 * DAY),
        entry("C", 1, 70 * DAY),
        entry("A", 0, 90 * DAY),
    ]);
    let (least, oldest) = get_notes_to_review(&c, 1, 1);
    assert_eq!(names(&least), vec!["A"]);
    assert_eq!(names(&oldest), vec!["C"]);
}

#[test]
fn selection_lists_share_no_note() {
    let c = collection(vec![
        entry("a", 0, 10),
        entry("b", 1, 20),
        entry("c", 2, 30),
        entry("d", 3, 40),
    ]);
    // the two least-reviewed are also the two oldest
    let (least, oldest) = get_notes_to_review(&c, 2, 2);
    assert_eq!(names(&least), vec!["a", "b"]);
    assert_eq!(names(&oldest), vec!["c", "d"]);
    for l in &least {
        for o in &oldest {
            assert_ne!(l.name, o.name);
        }
    }
}

#[test]
fn selection_breaks_ties_by_name() {
    let c = collection(vec![
        entry("zeta", 1, 100),
        entry("alpha", 1, 100),
        entry("mid", 1, 100),
    ]);
    let (least, oldest) = get_notes_to_review(&c, 2, 2);
    assert_eq!(names(&least), vec!["alpha", "mid"]);
    assert_eq!(names(&oldest), vec!["zeta"]);
}

#[test]
fn selection_is_deterministic() {
    let c = collection(vec![
        entry("n1", 4, 40),
        entry("n2", 2, 10),
        entry("n3", 0, 90),
        entry("n4", 7, 60),
    ]);
    let (l1, o1) = get_notes_to_review(&c, 2, 2);
    let (l2, o2) = get_notes_to_review(&c, 2, 2);
    assert_eq!(names(&l1), names(&l2));
    assert_eq!(names(&o1), names(&o2));
}

#[test]
fn selection_with_small_collection_returns_all() {
    let c = collection(vec![entry("only", 3, 10), entry("other", 1, 20)]);
    let (least, oldest) = get_notes_to_review(&c, 5, 5);
    assert_eq!(names(&least), vec!["other", "only"]);
    assert!(oldest.is_empty());
}

#[test]
fn selection_orders_by_freq_and_age() {
    let c = collection(vec![
        entry("w", 9, 5 * DAY),
        entry("x", 3, 9 * DAY),
        entry("y", 5, 2 * DAY),
        entry("z", 1, 7 * DAY),
    ]);
    let (least, oldest) = get_notes_to_review(&c, 2, 2);
    // least-reviewed, ascending counter
    assert_eq!(names(&least), vec!["z", "x"]);
    // oldest first among the rest
    assert_eq!(names(&oldest), vec!["y", "w"]);
}

#[test]
fn apply_review_touches_exactly_the_reviewed() {
    let mut c = collection(vec![
        entry("a", 0, 100),
        entry("b", 1, 200),
        entry("c", 2, 300),
        entry("d", 3, 400),
        entry("e", 4, 500),
    ]);
    let reviewed = vec![entry("b", 1, 200), entry("d", 3, 400)];
    let now = ts(9999);
    update_reviewed_notes(&mut c, &reviewed, now);
    let by_name = |c: &NoteCollection, n: &str| -> NoteEntry {
        c.notes.iter().find(|e| e.name == n).unwrap().clone()
    };
    assert_eq!(by_name(&c, "b").freq, 2);
    assert_eq!(by_name(&c, "b").last_reviewed, now);
    assert_eq!(by_name(&c, "d").freq, 4);
    assert_eq!(by_name(&c, "d").last_reviewed, now);
    for n in ["a", "c", "e"] {
        let e = by_name(&c, n);
        assert_eq!(e.last_reviewed, ts((e.freq as i64 + 1) * 100));
    }
    assert_eq!(by_name(&c, "a").freq, 0);
    assert_eq!(by_name(&c, "c").freq, 2);
    assert_eq!(by_name(&c, "e").freq, 4);
}

#[test]
fn apply_review_saturates_the_counter() {
    let mut c = collection(vec![entry("full", u16::MAX, 100)]);
    let reviewed = vec![entry("full", u16::MAX, 100)];
    update_reviewed_notes(&mut c, &reviewed, ts(200));
    assert_eq!(c.notes[0].freq, u16::MAX);
    assert_eq!(c.notes[0].last_reviewed, ts(200));
}

#[test]
fn insert_note_replaces_by_name_or_appends() {
    let mut c = collection(vec![entry("a", 1, 10), entry("b", 2, 20)]);
    insert_note(&mut c, entry("a", 9, 90));
    assert_eq!(c.notes.len(), 2);
    assert_eq!(c.notes[0].name, "a");
    assert_eq!(c.notes[0].freq, 9);
    insert_note(&mut c, entry("c", 3, 30));
    assert_eq!(c.notes.len(), 3);
    assert_eq!(c.notes[2].name, "c");
}

#[test]
fn remove_note_matches_up_to_case() {
    let mut c = collection(vec![entry("Alpha", 1, 10), entry("Beta", 2, 20)]);
    let removed = remove_note(&mut c, "ALPHA").unwrap();
    assert_eq!(removed.name, "Alpha");
    assert_eq!(c.notes.len(), 1);
    assert_eq!(c.notes[0].name, "Beta");
    assert!(remove_note(&mut c, "missing").is_none());
    assert_eq!(c.notes.len(), 1);
}

#[test]
fn find_note_name_matches_up_to_case() {
    let c = collection(vec![entry("BeTa", 0, 10)]);
    assert_eq!(find_note_name("beta", &c), Some("BeTa".to_string()));
    assert_eq!(find_note_name("gamma", &c), None);
}

#[test]
fn add_notes_with_prefix_registers_each_name() {
    let mut c = NoteCollection::new();
    let now = ts(777);
    add_notes_with_prefix(&mut c, "p-", &vec!["x".to_string(), "y".to_string()], now);
    assert_eq!(c.notes.len(), 2);
    assert_eq!(c.notes[0].name, "p-x");
    assert_eq!(c.notes[1].name, "p-y");
    assert_eq!(c.notes[0].freq, 0);
    assert_eq!(c.notes[0].last_reviewed, now);
}

#[test]
fn load_map_parses_records_and_collapses_names() {
    let records = vec![
        Note::new("a".to_string(), 1, "1970-01-01 00:00:05.000000000 +0000".to_string()),
        Note::new("b".to_string(), 2, "1970-01-01 00:00:06.000000000 +0000".to_string()),
        Note::new("a".to_string(), 9, "1970-01-01 00:00:07.000000000 +0000".to_string()),
    ];
    let c = load_map(&records).unwrap();
    assert_eq!(c.notes.len(), 2);
    assert_eq!(c.notes[0].name, "a");
    assert_eq!(c.notes[0].freq, 9);
    assert_eq!(c.notes[0].last_reviewed, ts(7));
    assert_eq!(c.notes[1].name, "b");
}

#[test]
fn load_map_rejects_a_bad_timestamp() {
    let records = vec![
        Note::new("a".to_string(), 1, "1970-01-01 00:00:05.000000000 +0000".to_string()),
        Note::new("b".to_string(), 2, "yesterday-ish".to_string()),
    ];
    assert_eq!(load_map(&records).unwrap_err(), TrackerError::ParseError);
}

#[test]
fn save_map_round_trips_through_load() {
    let c = collection(vec![entry("a", 1, 11), entry("b", 2, 22)]);
    let records = save_map(&c).unwrap();
    assert_eq!(records.len(), 2);
    let c2 = load_map(&records).unwrap();
    assert_eq!(c2.notes.len(), 2);
    for (e1, e2) in c.notes.iter().zip(c2.notes.iter()) {
        assert_eq!(e1.name, e2.name);
        assert_eq!(e1.freq, e2.freq);
        assert_eq!(e1.last_reviewed, e2.last_reviewed);
    }
}

#[test]
fn save_map_rejects_uncalendar_instants() {
    let c = collection(vec![entry("far", 0, 1_000_000_000_000_000_000)]);
    assert_eq!(save_map(&c).unwrap_err(), TrackerError::DateTimeFormatting);
}

#[test]
fn sorted_by_name_is_alphabetic() {
    let c = collection(vec![
        entry("pear", 0, 10),
        entry("apple", 0, 20),
        entry("plum", 0, 30),
    ]);
    let sorted = notes_sorted_by_name(&c);
    assert_eq!(names(&sorted), vec!["apple", "pear", "plum"]);
}
