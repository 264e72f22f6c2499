use std::sync::Arc;

use abes_axe::{ApplyError, Change, Changeset, FileStatus, Hunk, Sample, translate};

fn s(x: &str) -> String {
    x.to_string()
}

fn lines(sample: &Sample, name: &str) -> Option<Vec<String>> {
    sample.lines(&s(name)).map(|a| (*a).clone())
}

fn labels(xs: &[&str]) -> Vec<String> {
    xs.iter().map(|x| x.to_string()).collect()
}

fn changeset(time: i64, changes: Vec<Change>) -> Changeset {
    let mut cs = Changeset::new(time);
    cs.changes = changes;
    cs
}

fn three_line_file() -> Sample {
    let cs = changeset(0, vec![Change::AddFile { filename: s("a.txt"), length: 3 }]);
    Sample::new(0).apply(&cs, &s("2020")).unwrap()
}

#[test]
fn add_file_gives_lines_of_its_cohort() {
    let sample = three_line_file();
    assert_eq!(lines(&sample, "a.txt"), Some(labels(&["2020", "2020", "2020"])));
    assert_eq!(sample.count_cohort_lines(&s("2020")), 3);
    assert_eq!(sample.date_time, 0);
    assert_eq!(sample.cohort(), s("2020"));
}

#[test]
fn delete_removes_one_line() {
    let first = three_line_file();
    let cs = changeset(1, vec![Change::Delete { filename: s("a.txt"), start: 1, length: 1 }]);
    let second = first.apply(&cs, &s("2021")).unwrap();
    assert_eq!(lines(&second, "a.txt"), Some(labels(&["2020", "2020"])));
    assert_eq!(second.count_cohort_lines(&s("2020")), 2);
    assert_eq!(second.date_time, 1);
    // the earlier sample is left as it was
    assert_eq!(lines(&first, "a.txt"), Some(labels(&["2020", "2020", "2020"])));
}

#[test]
fn delete_then_add_in_one_changeset() {
    let first = three_line_file();
    let cs = changeset(
        1,
        vec![
            Change::Delete { filename: s("a.txt"), start: 1, length: 1 },
            Change::Add { filename: s("a.txt"), start: 1, length: 2 },
        ],
    );
    let second = first.apply(&cs, &s("2021")).unwrap();
    assert_eq!(lines(&second, "a.txt"), Some(labels(&["2020", "2021", "2021", "2020"])));
    assert_eq!(lines(&second, "a.txt").unwrap().len(), 4);
    assert_eq!(second.count_cohort_lines(&s("2021")), 2);
    assert_eq!(second.count_cohort_lines(&s("2020")), 2);
}

#[test]
fn delete_file_removes_its_entry() {
    let first = three_line_file();
    let cs = changeset(2, vec![Change::DeleteFile { filename: s("a.txt") }]);
    let second = first.apply(&cs, &s("2022")).unwrap();
    assert_eq!(lines(&second, "a.txt"), None);
    assert_eq!(second.file_count(), 0);
    assert_eq!(second.count_cohort_lines(&s("2020")), 0);
    assert_eq!(second.count_cohort_lines(&s("2022")), 0);
}

#[test]
fn untouched_file_is_shared_between_samples() {
    let cs = changeset(
        0,
        vec![
            Change::AddFile { filename: s("a.txt"), length: 2 },
            Change::AddFile { filename: s("b.txt"), length: 5 },
        ],
    );
    let first = Sample::new(0).apply(&cs, &s("2020")).unwrap();
    let touch_a = changeset(1, vec![Change::Add { filename: s("a.txt"), start: 0, length: 1 }]);
    let second = first.apply(&touch_a, &s("2021")).unwrap();
    let b1 = first.lines(&s("b.txt")).unwrap();
    let b2 = second.lines(&s("b.txt")).unwrap();
    assert!(Arc::ptr_eq(&b1, &b2));
    let a1 = first.lines(&s("a.txt")).unwrap();
    let a2 = second.lines(&s("a.txt")).unwrap();
    assert!(!Arc::ptr_eq(&a1, &a2));
    assert_eq!(*a2, labels(&["2021", "2020", "2020"]));
}

#[test]
fn conservation_of_line_counts() {
    let cs = changeset(0, vec![Change::AddFile { filename: s("f"), length: 10 }]);
    let first = Sample::new(0).apply(&cs, &s("x")).unwrap();
    let edits = changeset(
        1,
        vec![
            Change::Delete { filename: s("f"), start: 2, length: 3 },
            Change::Add { filename: s("f"), start: 2, length: 4 },
            Change::Add { filename: s("f"), start: 0, length: 1 },
            Change::Delete { filename: s("f"), start: 8, length: 2 },
        ],
    );
    let second = first.apply(&edits, &s("y")).unwrap();
    // 10 + (4 + 1) - (3 + 2)
    assert_eq!(lines(&second, "f").unwrap().len(), 10);
    assert_eq!(second.count_cohort_lines(&s("y")), 5);
    assert_eq!(second.count_cohort_lines(&s("x")), 5);
}

#[test]
fn add_past_the_end_is_an_error() {
    let first = three_line_file();
    let cs = changeset(
        5,
        vec![
            Change::Add { filename: s("a.txt"), start: 3, length: 1 },
            Change::Add { filename: s("a.txt"), start: 9, length: 1 },
        ],
    );
    assert_eq!(first.apply(&cs, &s("z")).err(), Some(ApplyError { date_time: 5, change: 1 }));
    assert_eq!(lines(&first, "a.txt").unwrap().len(), 3);
}

#[test]
fn add_to_an_absent_file_past_its_start_is_an_error() {
    let cs = changeset(4, vec![Change::Add { filename: s("n.txt"), start: 1, length: 1 }]);
    assert_eq!(Sample::new(0).apply(&cs, &s("z")).err(), Some(ApplyError { date_time: 4, change: 0 }));
}

#[test]
fn delete_running_past_the_end_is_cut_short() {
    let first = three_line_file();
    let cs = changeset(1, vec![Change::Delete { filename: s("a.txt"), start: 1, length: 10 }]);
    let second = first.apply(&cs, &s("2021")).unwrap();
    assert_eq!(lines(&second, "a.txt"), Some(labels(&["2020"])));
    assert_eq!(second.clamped_changes(), vec![0]);
    assert!(first.clamped_changes().is_empty());
    let exact = changeset(2, vec![
        Change::Add { filename: s("a.txt"), start: 0, length: 2 },
        Change::Delete { filename: s("a.txt"), start: 1, length: 2 },
        Change::Delete { filename: s("a.txt"), start: 0, length: 5 },
    ]);
    let third = second.apply(&exact, &s("2022")).unwrap();
    assert_eq!(third.clamped_changes(), vec![2]);
    assert_eq!(lines(&third, "a.txt"), Some(vec![]));
}

#[test]
fn add_changeset_in_place_keeps_earlier_changes_on_error() {
    let mut sample = three_line_file();
    let cs = changeset(
        1,
        vec![
            Change::AddFile { filename: s("b.txt"), length: 1 },
            Change::Delete { filename: s("a.txt"), start: 4, length: 1 },
        ],
    );
    assert_eq!(sample.add_changeset(&cs, &s("2021")), Err(ApplyError { date_time: 1, change: 1 }));
    assert_eq!(lines(&sample, "b.txt"), Some(labels(&["2021"])));
}

#[test]
fn add_file_replaces_a_previous_entry() {
    let first = three_line_file();
    let cs = changeset(1, vec![Change::AddFile { filename: s("a.txt"), length: 1 }]);
    let second = first.apply(&cs, &s("2021")).unwrap();
    assert_eq!(lines(&second, "a.txt"), Some(labels(&["2021"])));
    assert_eq!(second.file_count(), 1);
}

#[test]
fn clone_and_date_shares_all_files() {
    let first = three_line_file();
    let copy = first.clone_and_date(7);
    assert_eq!(copy.date_time, 7);
    assert!(Arc::ptr_eq(&first.lines(&s("a.txt")).unwrap(), &copy.lines(&s("a.txt")).unwrap()));
}

#[test]
fn translate_twice_gives_the_same_changes() {
    let h = Hunk { old_start: 4, old_lines: 2, new_start: 4, new_lines: 3 };
    let one = translate(FileStatus::Modified, &s("m.rs"), &h);
    let two = translate(FileStatus::Modified, &s("m.rs"), &h);
    assert_eq!(format!("{:?}", one), format!("{:?}", two));
}

#[test]
fn translate_modified_hunk_deletes_before_adding() {
    let h = Hunk { old_start: 4, old_lines: 2, new_start: 4, new_lines: 3 };
    let r = translate(FileStatus::Modified, &s("m.rs"), &h);
    assert_eq!(r.len(), 2);
    assert!(matches!(&r[0], Change::Delete { filename, start: 3, length: 2 } if filename == "m.rs"));
    assert!(matches!(&r[1], Change::Add { filename, start: 3, length: 3 } if filename == "m.rs"));
}

#[test]
fn translate_hunk_before_the_first_line_starts_at_zero() {
    let h = Hunk { old_start: 0, old_lines: 0, new_start: 0, new_lines: 2 };
    let r = translate(FileStatus::Modified, &s("m.rs"), &h);
    assert_eq!(r.len(), 1);
    assert!(matches!(&r[0], Change::Add { start: 0, length: 2, .. }));
    let pure_delete = Hunk { old_start: 3, old_lines: 1, new_start: 2, new_lines: 0 };
    let r = translate(FileStatus::Modified, &s("m.rs"), &pure_delete);
    assert_eq!(r.len(), 1);
    assert!(matches!(&r[0], Change::Delete { start: 1, length: 1, .. }));
}

#[test]
fn translate_added_deleted_and_renamed_files() {
    let h = Hunk { old_start: 0, old_lines: 0, new_start: 1, new_lines: 7 };
    let r = translate(FileStatus::Added, &s("n.rs"), &h);
    assert!(matches!(&r[..], [Change::AddFile { length: 7, .. }]));
    let r = translate(FileStatus::Deleted, &s("n.rs"), &h);
    assert!(matches!(&r[..], [Change::DeleteFile { .. }]));
    assert!(translate(FileStatus::Renamed, &s("n.rs"), &h).is_empty());
    assert!(translate(FileStatus::Copied, &s("n.rs"), &h).is_empty());
}

#[test]
fn add_diff_hunk_picks_the_path_and_reports_unsupported_statuses() {
    let h = Hunk { old_start: 1, old_lines: 3, new_start: 0, new_lines: 0 };
    let mut cs = Changeset::new(9);
    assert!(cs.add_diff_hunk(FileStatus::Deleted, &s("old.rs"), &s("new.rs"), &h));
    assert!(matches!(&cs.changes[0], Change::DeleteFile { filename } if filename == "old.rs"));
    assert!(!cs.add_diff_hunk(FileStatus::Renamed, &s("old.rs"), &s("new.rs"), &h));
    assert_eq!(cs.changes.len(), 1);
    assert!(cs.process_added(&s("x.rs"), &Hunk { old_start: 0, old_lines: 0, new_start: 1, new_lines: 2 }));
    assert!(matches!(&cs.changes[1], Change::AddFile { filename, length: 2 } if filename == "x.rs"));
    assert_eq!(cs.date_time, 9);
}
