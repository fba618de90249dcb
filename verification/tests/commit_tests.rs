use git_bluff::commit::{
    get_commits, in_window, name_passes, parse_commit, CommitError, Date, DateWindow, RawCommit,
};
use git_bluff::report::generate_report;

const MAY_15: i64 = 1431648000;

fn raw(id: &str, author: &str, message: &str, seconds: i64, parents: usize) -> RawCommit {
    RawCommit {
        id: id.to_string(),
        author_name: Some(author.to_string()),
        author_email: Some(format!("{}@example.org", id)),
        message: Some(message.to_string()),
        seconds,
        parent_count: parents,
    }
}

fn date(year: i32, month: u32, day: u32) -> Date {
    Date { year, month, day }
}

fn ids(history: &Vec<RawCommit>, start: Option<Date>, end: Option<Date>, authors: &[&str]) -> Vec<String> {
    let authors: Vec<String> = authors.iter().map(|a| a.to_string()).collect();
    let out = get_commits(history, "repo", "/work/repo", start, end, &authors).unwrap();
    out.into_iter().map(|c| c.id).collect()
}

#[test]
fn merge_commits_are_left_out() {
    let history = vec![
        raw("a", "Ann", "feat: first", MAY_15, 0),
        raw("b", "Ann", "fix: second", MAY_15 + 60, 1),
        raw("m", "Ann", "Merge branch 'x'", MAY_15 + 120, 2),
        raw("c", "Ann", "third", MAY_15 + 180, 1),
    ];
    let day = Some(date(2015, 5, 15));
    assert_eq!(ids(&history, day, day, &[]), vec!["a", "b", "c"]);
    let out = get_commits(&history, "repo", "/work/repo", day, day, &vec![]).unwrap();
    let report = generate_report(&out);
    assert_eq!(report.summary, "\nRepository Path: /work/repo\nfirst\nsecond\nthird\n");
    assert!(!report.summary.contains("Merge"));
}

#[test]
fn octopus_merge_is_left_out_without_a_window() {
    let history = vec![raw("m", "Ann", "merge", MAY_15, 3), raw("c", "Ann", "one", MAY_15, 1)];
    assert_eq!(ids(&history, None, None, &[]), vec!["c"]);
}

#[test]
fn author_filter_is_a_case_insensitive_substring() {
    let history = vec![
        raw("1", "Alice Smith", "a", MAY_15, 1),
        raw("2", "bob", "b", MAY_15, 1),
        raw("3", "alice-bot", "c", MAY_15, 1),
    ];
    assert_eq!(ids(&history, None, None, &["alice"]), vec!["1", "3"]);
    assert_eq!(ids(&history, None, None, &["ALICE"]), vec!["1", "3"]);
    assert_eq!(ids(&history, None, None, &["carol", "BOB"]), vec!["2"]);
    assert_eq!(ids(&history, None, None, &["carol"]), Vec::<String>::new());
    assert_eq!(ids(&history, None, None, &[]), vec!["1", "2", "3"]);
}

#[test]
fn author_filter_folds_letters_beyond_ascii() {
    let history = vec![raw("1", "ÉMILE Zola", "a", MAY_15, 1)];
    assert_eq!(ids(&history, None, None, &["émile"]), vec!["1"]);
}

#[test]
fn author_without_name_passes_only_an_empty_filter() {
    let mut nameless = raw("1", "", "a", MAY_15, 1);
    nameless.author_name = None;
    let history = vec![nameless];
    assert_eq!(ids(&history, None, None, &[]), vec!["1"]);
    assert_eq!(ids(&history, None, None, &["x"]), Vec::<String>::new());
    assert_eq!(ids(&history, None, None, &[""]), vec!["1"]);
}

#[test]
fn window_bounds_are_inclusive_utc_days() {
    let history = vec![
        raw("before", "a", "m", MAY_15 - 1, 1),
        raw("first", "a", "m", MAY_15, 1),
        raw("last", "a", "m", MAY_15 + 86_399, 1),
        raw("after", "a", "m", MAY_15 + 86_400, 1),
    ];
    let day = Some(date(2015, 5, 15));
    assert_eq!(ids(&history, day, day, &[]), vec!["first", "last"]);
    assert_eq!(ids(&history, day, None, &[]), vec!["first", "last", "after"]);
    assert_eq!(ids(&history, None, day, &[]), vec!["before", "first", "last"]);
    assert_eq!(ids(&history, Some(date(2015, 5, 14)), Some(date(2015, 5, 16)), &[]).len(), 4);
    assert_eq!(ids(&history, Some(date(2015, 6, 1)), None, &[]), Vec::<String>::new());
    assert_eq!(ids(&history, None, Some(date(2014, 12, 31)), &[]), Vec::<String>::new());
}

#[test]
fn epoch_and_earlier_days() {
    let history = vec![raw("old", "a", "m", -1, 1), raw("epoch", "a", "m", 0, 1)];
    let eve = Some(date(1969, 12, 31));
    let first = Some(date(1970, 1, 1));
    assert_eq!(ids(&history, eve, eve, &[]), vec!["old"]);
    assert_eq!(ids(&history, first, first, &[]), vec!["epoch"]);
}

#[test]
fn time_that_is_no_date_is_an_error() {
    let history = vec![
        raw("ok", "a", "m", MAY_15, 1),
        raw("merge", "a", "m", i64::MAX, 2),
        raw("bad", "a", "m", i64::MAX, 1),
        raw("worse", "a", "m", i64::MIN, 1),
    ];
    let day = Some(date(2015, 5, 15));
    let got = get_commits(&history, "repo", "/work/repo", day, None, &vec![]);
    assert_eq!(got.err(), Some(CommitError::Timestamp { index: 2 }));
    let got = get_commits(&history, "repo", "/work/repo", None, None, &vec![]);
    assert_eq!(got.unwrap().len(), 3);
}

#[test]
fn records_carry_the_commit_and_the_repository() {
    let commit = raw("abc123", "Ann", "feat: x", MAY_15, 1);
    let info = parse_commit(&commit, "repo", "/work/repo");
    assert_eq!(info.id, "abc123");
    assert_eq!(info.author_name, "Ann");
    assert_eq!(info.author_email, "abc123@example.org");
    assert_eq!(info.message, "feat: x");
    assert_eq!(info.timestamp, MAY_15);
    assert_eq!(info.repository, "repo");
    assert_eq!(info.path, "/work/repo");
}

#[test]
fn missing_fields_get_their_defaults() {
    let commit = RawCommit {
        id: "1".to_string(),
        author_name: None,
        author_email: None,
        message: None,
        seconds: 7,
        parent_count: 0,
    };
    let info = parse_commit(&commit, "r", "/r");
    assert_eq!(info.author_name, "Unknown");
    assert_eq!(info.author_email, "Unknown");
    assert_eq!(info.message, "");
}

#[test]
fn dates_compare_by_year_month_day() {
    assert!(date(2015, 5, 15).le(&date(2015, 5, 15)));
    assert!(date(2014, 12, 31).le(&date(2015, 1, 1)));
    assert!(date(2015, 4, 30).le(&date(2015, 5, 1)));
    assert!(!date(2015, 5, 16).le(&date(2015, 5, 15)));
    assert!(!date(2016, 1, 1).le(&date(2015, 12, 31)));
    assert!(in_window(date(2015, 5, 15), None, None));
    assert!(!in_window(date(2015, 5, 15), Some(date(2015, 5, 16)), None));
    assert!(!in_window(date(2015, 5, 15), None, Some(date(2015, 5, 14))));
}

#[test]
fn names_pass_patterns_as_they_are() {
    let patterns = vec!["ali".to_string(), "bob".to_string()];
    assert!(name_passes("alice", &patterns));
    assert!(name_passes("xbobx", &patterns));
    assert!(!name_passes("Alice", &patterns));
    assert!(name_passes("anyone", &vec![]));
}

#[test]
fn window_must_not_end_before_it_starts() {
    let early = date(2015, 5, 14);
    let late = date(2015, 5, 16);
    assert_eq!(DateWindow::new(Some(late), Some(early)), None);
    assert_eq!(
        DateWindow::new(Some(early), Some(late)),
        Some(DateWindow { start: Some(early), end: Some(late) })
    );
    assert!(DateWindow::new(Some(late), None).is_some());
    assert!(DateWindow::new(None, None).is_some());
    let window = DateWindow::new(Some(early), Some(late)).unwrap();
    assert!(window.contains(early));
    assert!(window.contains(date(2015, 5, 15)));
    assert!(window.contains(late));
    assert!(!window.contains(date(2015, 5, 17)));
}

#[test]
fn single_day_window_holds_that_day_only() {
    let day = date(2015, 5, 15);
    let window = DateWindow::single(day);
    assert!(window.contains(day));
    assert!(!window.contains(date(2015, 5, 14)));
    assert!(!window.contains(date(2015, 5, 16)));
    assert!(!window.contains(date(2014, 5, 15)));
}

#[test]
fn three_commits_and_a_merge_end_to_end() {
    let history = vec![
        raw("a", "Ann", "feat: add login", MAY_15, 0),
        raw("b", "Ann", "fix: typo", MAY_15 + 60, 1),
        raw("m", "Ann", "Merge branch 'x'", MAY_15 + 120, 2),
        raw("c", "Ann", "update readme", MAY_15 + 180, 1),
    ];
    let day = Some(date(2015, 5, 15));
    let out = get_commits(&history, "repo", "/srv/p", day, day, &vec![]).unwrap();
    assert_eq!(out.len(), 3);
    assert_eq!(
        generate_report(&out).summary,
        "\nRepository Path: /srv/p\nadd login\ntypo\nupdate readme\n"
    );
}
