use abes_axe::{
    Axe, Change, Changeset, Options, Pattern, Pipeline, PipelineError, Sample, TreePair,
    all_cohorts, cohort_counts, cohort_label, repo_hash, select_commits, tree_pairs,
};

const Y2020: i64 = 1577836800;
const Y2021: i64 = 1609459200;
const Y2022: i64 = 1640995200;

fn s(x: &str) -> String {
    x.to_string()
}

fn changeset(time: i64, changes: Vec<Change>) -> Changeset {
    let mut cs = Changeset::new(time);
    cs.changes = changes;
    cs
}

fn history() -> Vec<Changeset> {
    vec![
        changeset(
            Y2020,
            vec![
                Change::AddFile { filename: s("a.txt"), length: 3 },
                Change::AddFile { filename: s("b.txt"), length: 2 },
            ],
        ),
        changeset(
            Y2021,
            vec![
                Change::Delete { filename: s("a.txt"), start: 1, length: 1 },
                Change::Add { filename: s("a.txt"), start: 1, length: 2 },
            ],
        ),
        changeset(Y2022, vec![Change::DeleteFile { filename: s("a.txt") }]),
    ]
}

fn summary(samples: &[Sample]) -> Vec<(i64, String, Option<Vec<String>>, Option<Vec<String>>)> {
    samples
        .iter()
        .map(|x| {
            (
                x.date_time,
                x.cohort(),
                x.lines(&s("a.txt")).map(|v| (*v).clone()),
                x.lines(&s("b.txt")).map(|v| (*v).clone()),
            )
        })
        .collect()
}

fn run_in_order(order: &[usize]) -> (Vec<Sample>, Vec<Result<usize, PipelineError>>) {
    let mut all: Vec<Option<Changeset>> = history().into_iter().map(Some).collect();
    let mut p = Pipeline::new(vec![Y2020, Y2021, Y2022], s("%Y")).unwrap();
    let mut results = Vec::new();
    for &i in order {
        results.push(p.deposit(all[i].take().unwrap()));
    }
    (p.into_samples(), results)
}

#[test]
fn arrival_order_does_not_change_the_samples() {
    let (in_order, r1) = run_in_order(&[0, 1, 2]);
    let (reversed, r2) = run_in_order(&[2, 1, 0]);
    let (mixed, _) = run_in_order(&[1, 2, 0]);
    assert_eq!(r1, vec![Ok(1), Ok(1), Ok(1)]);
    assert_eq!(r2, vec![Ok(0), Ok(0), Ok(3)]);
    assert_eq!(summary(&in_order), summary(&reversed));
    assert_eq!(summary(&in_order), summary(&mixed));
    let sm = summary(&in_order);
    assert_eq!(sm.len(), 3);
    assert_eq!(sm[0].0, Y2020);
    assert_eq!(sm[1].2, Some(vec![s("2020"), s("2021"), s("2021"), s("2020")]));
    assert_eq!(sm[2].2, None);
    assert_eq!(sm[2].1, s("2022"));
}

#[test]
fn samples_come_out_one_at_a_time_in_timestamp_order() {
    let mut p = Pipeline::new(vec![Y2020, Y2021, Y2022], s("%Y")).unwrap();
    let mut h = history();
    let third = h.pop().unwrap();
    let second = h.pop().unwrap();
    let first = h.pop().unwrap();
    assert_eq!(p.deposit(second), Ok(0));
    assert_eq!(p.next_expected(), Some(Y2020));
    assert_eq!(p.deposit(first), Ok(2));
    assert_eq!(p.samples().len(), 2);
    assert!(!p.is_complete());
    assert_eq!(p.deposit(third), Ok(1));
    assert!(p.is_complete());
    assert_eq!(p.next_expected(), None);
    let times: Vec<i64> = p.samples().iter().map(|x| x.date_time).collect();
    assert_eq!(times, vec![Y2020, Y2021, Y2022]);
}

#[test]
fn untouched_file_keeps_its_cohort_counts() {
    let (samples, _) = run_in_order(&[0, 1, 2]);
    for x in &samples {
        let b = x.lines(&s("b.txt")).unwrap();
        assert_eq!(*b, vec![s("2020"), s("2020")]);
    }
    let a_gone: Vec<u128> = samples.iter().map(|x| x.count_cohort_lines(&s("2020"))).collect();
    assert_eq!(a_gone, vec![5, 4, 2]);
}

#[test]
fn timestamps_must_be_ascending() {
    assert_eq!(Pipeline::new(vec![Y2021, Y2020], s("%Y")).err(), Some(PipelineError::NotAscending));
    assert_eq!(Pipeline::new(vec![Y2021, Y2021], s("%Y")).err(), Some(PipelineError::NotAscending));
    assert!(Pipeline::new(vec![], s("%Y")).is_ok());
}

#[test]
fn unexpected_and_duplicate_timestamps_are_refused() {
    let mut p = Pipeline::new(vec![Y2020, Y2021], s("%Y")).unwrap();
    assert_eq!(
        p.deposit(Changeset::new(Y2022)),
        Err(PipelineError::UnexpectedTimestamp { date_time: Y2022 })
    );
    assert_eq!(p.deposit(Changeset::new(Y2021)), Ok(0));
    assert_eq!(
        p.deposit(Changeset::new(Y2021)),
        Err(PipelineError::DuplicateTimestamp { date_time: Y2021 })
    );
    assert_eq!(p.deposit(Changeset::new(Y2020)), Ok(2));
    assert_eq!(
        p.deposit(Changeset::new(Y2020)),
        Err(PipelineError::DuplicateTimestamp { date_time: Y2020 })
    );
}

#[test]
fn an_inconsistent_changeset_halts_the_pipeline() {
    let mut p = Pipeline::new(vec![Y2020, Y2021, Y2022], s("%Y")).unwrap();
    let bad = changeset(Y2021, vec![Change::Delete { filename: s("a.txt"), start: 5, length: 1 }]);
    assert_eq!(p.deposit(bad), Ok(0));
    let r = p.deposit(history().remove(0));
    assert_eq!(
        r,
        Err(PipelineError::Inconsistent(abes_axe::ApplyError { date_time: Y2021, change: 0 }))
    );
    assert!(p.is_halted());
    assert_eq!(p.samples().len(), 1);
    assert_eq!(p.deposit(Changeset::new(Y2022)), Err(PipelineError::Halted));
}

#[test]
fn a_bad_cohort_pattern_halts_the_pipeline() {
    let mut p = Pipeline::new(vec![Y2020], s("%Q")).unwrap();
    assert_eq!(
        p.deposit(Changeset::new(Y2020)),
        Err(PipelineError::BadCohort { date_time: Y2020 })
    );
    assert!(p.is_halted());
}

#[test]
fn from_changesets_folds_in_the_given_order() {
    let samples = Sample::from_changesets(history(), &s("%Y")).unwrap();
    let (piped, _) = run_in_order(&[2, 0, 1]);
    assert_eq!(summary(&samples), summary(&piped));
    let bad = vec![changeset(Y2020, vec![Change::Delete { filename: s("z"), start: 1, length: 1 }])];
    assert_eq!(
        Sample::from_changesets(bad, &s("%Y")).err(),
        Some(PipelineError::Inconsistent(abes_axe::ApplyError { date_time: Y2020, change: 0 }))
    );
}

#[test]
fn cohort_labels_format_the_commit_time() {
    assert_eq!(cohort_label(Y2020, &s("%Y")), Some(s("2020")));
    assert_eq!(cohort_label(Y2021 - 1, &s("%Y")), Some(s("2020")));
    assert_eq!(cohort_label(Y2021, &s("%Y-%m")), Some(s("2021-01")));
    assert_eq!(cohort_label(0, &s("%Y-%m-%d %H:%M:%S")), Some(s("1970-01-01 00:00:00")));
    assert_eq!(cohort_label(i64::MAX, &s("%Y")), None);
    assert_eq!(cohort_label(0, &s("%Q")), None);
}

#[test]
fn report_columns_are_distinct_and_sorted() {
    let (samples, _) = run_in_order(&[0, 1, 2]);
    let mut extra = samples.clone_and_keep();
    let cols = all_cohorts(&samples);
    assert_eq!(cols, vec![s("2020"), s("2021"), s("2022")]);
    extra.reverse();
    assert_eq!(all_cohorts(&extra), cols);
    assert!(all_cohorts(&Vec::new()).is_empty());
    let rows: Vec<Vec<u128>> = samples.iter().map(|x| cohort_counts(x, &cols)).collect();
    assert_eq!(rows, vec![vec![5, 0, 0], vec![4, 2, 0], vec![2, 0, 0]]);
}

trait KeepAll {
    fn clone_and_keep(&self) -> Vec<Sample>;
}

impl KeepAll for Vec<Sample> {
    fn clone_and_keep(&self) -> Vec<Sample> {
        self.iter().map(|x| x.clone_and_date(x.date_time)).collect()
    }
}

#[test]
fn report_columns_order_labels_by_code_point() {
    let mk = |label: &str| {
        let mut x = Sample::new(0);
        x.add_changeset(&Changeset::new(0), &s(label)).unwrap();
        x
    };
    let samples = vec![mk("b"), mk("a"), mk("ab"), mk("B"), mk("a"), mk("")];
    assert_eq!(all_cohorts(&samples), vec![s(""), s("B"), s("a"), s("ab"), s("b")]);
}

#[test]
fn repository_ids_depend_on_the_path_only() {
    let a = repo_hash(&s("/srv/repo"));
    assert_eq!(a, repo_hash(&s("/srv/repo")));
    assert_ne!(a, repo_hash(&s("/srv/other")));
}

#[test]
fn commits_are_sampled_at_least_an_interval_apart() {
    let times = vec![0, 10, 50, 100, 105, 300];
    assert_eq!(select_commits(&times, 100), vec![0, 3, 5]);
    assert_eq!(select_commits(&times, 1), vec![0, 1, 2, 3, 4, 5]);
    // the first commit is met again and kept once more when the interval is not positive
    assert_eq!(select_commits(&times, 0), vec![0, 0, 1, 2, 3, 4, 5]);
    assert!(select_commits(&vec![], 100).is_empty());
}

#[test]
fn transitions_start_from_the_empty_tree() {
    let times = vec![0, 10, 50, 100, 105, 300];
    let pairs = tree_pairs(&times, 100);
    assert_eq!(
        pairs,
        vec![
            TreePair { left: None, right: 0, date_time: 0 },
            TreePair { left: Some(0), right: 3, date_time: 100 },
            TreePair { left: Some(3), right: 5, date_time: 300 },
        ]
    );
}

#[test]
fn patterns_decide_which_files_are_skipped() {
    let ignore = Pattern::new(&s(r"\.lock$|^vendor/")).unwrap();
    let only = Pattern::new(&s(r"\.rs$")).unwrap();
    assert!(Pattern::new(&s("(unclosed")).is_none());
    assert!(ignore.is_match(&s("Cargo.lock")));
    assert_eq!(ignore.as_str(), r"\.lock$|^vendor/");
    let axe = Axe::new(Options {
        interval: 100,
        repo_path: s("."),
        cohort_fmt: s("%Y"),
        ignore: Some(ignore),
        only: Some(only),
    });
    assert!(!axe.skip_file(&s("src/main.rs")));
    assert!(axe.options.should_ignore(&s("vendor/x.rs")));
    assert!(!axe.options.should_ignore(&s("src/x.rs")));
    assert!(axe.options.should_keep(&s("src/x.rs")));
    assert!(!axe.options.should_keep(&s("notes.txt")));
    assert_eq!(axe.options.interval(), 100);
    assert_eq!(axe.options.format(), "%Y");
    assert_eq!(axe.options.path(), ".");
    assert!(axe.skip_file(&s("vendor/x.rs")));
    assert!(axe.skip_file(&s("README.md")));
    assert_eq!(axe.cohort_name(Y2021), Some(s("2021")));
    let pairs = axe.transitions(&vec![Y2020, Y2020 + 50, Y2021]);
    assert_eq!(pairs.len(), 2);
    let p = axe.pipeline(&pairs).unwrap();
    assert_eq!(p.next_expected(), Some(Y2020));
    let open = Axe::new(Options {
        interval: 1,
        repo_path: s("."),
        cohort_fmt: s("%Y"),
        ignore: None,
        only: None,
    });
    assert!(!open.skip_file(&s("README.md")));
    assert!(!open.options.should_ignore(&s("README.md")));
    assert!(open.options.should_keep(&s("README.md")));
}
