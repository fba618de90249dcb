//! Selection of the commits of one repository: merge commits are left out,
//! the others pass a date window and an author filter and become records.

use crate::config::unknown_name;
use crate::text::{chars_of, contains, find_in};
use chrono::Datelike;
use vstd::prelude::*;
use vstd::string::*;

verus! {

/// A calendar date.
#[derive(Clone, Copy, Debug, PartialEq, Eq, Structural)]
pub struct Date {
    pub year: i32,
    pub month: u32,
    pub day: u32,
}

impl View for Date {
    type V = (int, int, int);

    open spec fn view(&self) -> (int, int, int) {
        (self.year as int, self.month as int, self.day as int)
    }
}

/// `a` is the same day as `b` or an earlier one.
pub open spec fn day_le(a: (int, int, int), b: (int, int, int)) -> bool {
    a.0 < b.0 || (a.0 == b.0 && (a.1 < b.1 || (a.1 == b.1 && a.2 <= b.2)))
}

/// `day` lies in the window: not before `start` and not after `end`, as far
/// as they are given.
pub open spec fn day_in_window(
    day: (int, int, int),
    start: Option<Date>,
    end: Option<Date>,
) -> bool {
    (start is Some ==> day_le(start->0@, day)) && (end is Some ==> day_le(day, end->0@))
}

impl Date {
    /// Whether this date is `other` or an earlier one.
    pub fn le(&self, other: &Date) -> (r: bool)
        ensures
            r == day_le(self@, other@),
    {
        self.year < other.year || (self.year == other.year && (self.month < other.month || (
        self.month == other.month && self.day <= other.day)))
    }
}

/// Whether `date` lies between `start` and `end`, both included, as far as
/// they are given.
pub fn in_window(date: Date, start: Option<Date>, end: Option<Date>) -> (r: bool)
    ensures
        r == day_in_window(date@, start, end),
{
    let after_start = match start {
        Some(s) => s.le(&date),
        None => true,
    };
    let before_end = match end {
        Some(e) => date.le(&e),
        None => true,
    };
    after_start && before_end
}

/// An inclusive range of calendar days, open where a bound is missing.
#[derive(Clone, Copy, Debug, PartialEq, Eq, Structural)]
pub struct DateWindow {
    pub start: Option<Date>,
    pub end: Option<Date>,
}

impl DateWindow {
    /// Where both bounds are given, the window does not end before it starts.
    pub open spec fn wf(&self) -> bool {
        self.start is Some && self.end is Some ==> day_le(self.start->0@, self.end->0@)
    }

    /// The window from `start` to `end`, unless it would end before it
    /// starts.
    pub fn new(start: Option<Date>, end: Option<Date>) -> (r: Option<DateWindow>)
        ensures
            match r {
                Some(w) => w.wf() && w.start == start && w.end == end,
                None => start is Some && end is Some && !day_le(start->0@, end->0@),
            },
    {
        let ordered = match (start, end) {
            (Some(s), Some(e)) => s.le(&e),
            _ => true,
        };
        if ordered {
            Some(DateWindow { start, end })
        } else {
            None
        }
    }

    /// The window of the single day `day`: it holds that day and no other.
    pub fn single(day: Date) -> (w: DateWindow)
        ensures
            w.wf(),
            w.start == Some(day),
            w.end == Some(day),
            forall|other: (int, int, int)|
                #[trigger] day_in_window(other, w.start, w.end) <==> other == day@,
    {
        DateWindow { start: Some(day), end: Some(day) }
    }

    /// Whether `date` lies in the window.
    pub fn contains(&self, date: Date) -> (r: bool)
        ensures
            r == day_in_window(date@, self.start, self.end),
    {
        in_window(date, self.start, self.end)
    }
}

/// One commit as the version-control backend hands it over.
#[derive(Debug, Clone)]
pub struct RawCommit {
    pub id: String,
    pub author_name: Option<String>,
    pub author_email: Option<String>,
    pub message: Option<String>,
    /// Seconds since the Unix epoch, UTC.
    pub seconds: i64,
    pub parent_count: usize,
}

/// One selected commit, with the repository it belongs to.
#[derive(Debug, Clone)]
pub struct CommitInfo {
    pub id: String,
    pub author_name: String,
    pub author_email: String,
    pub message: String,
    /// Seconds since the Unix epoch, UTC.
    pub timestamp: i64,
    pub repository: String,
    pub path: String,
}

/// The mathematical content of a `CommitInfo`.
pub ghost struct CommitView {
    pub id: Seq<char>,
    pub author_name: Seq<char>,
    pub author_email: Seq<char>,
    pub message: Seq<char>,
    pub timestamp: int,
    pub repository: Seq<char>,
    pub path: Seq<char>,
}

impl View for CommitInfo {
    type V = CommitView;

    open spec fn view(&self) -> CommitView {
        CommitView {
            id: self.id@,
            author_name: self.author_name@,
            author_email: self.author_email@,
            message: self.message@,
            timestamp: self.timestamp as int,
            repository: self.repository@,
            path: self.path@,
        }
    }
}

/// The views of a sequence of records.
pub open spec fn commit_views(s: Seq<CommitInfo>) -> Seq<CommitView> {
    Seq::new(s.len(), |i: int| s[i]@)
}

/// Why the commits of a repository could not be selected.
#[derive(Debug, Clone, Copy, PartialEq, Eq, Structural)]
pub enum CommitError {
    /// The commit at `index` of the history has a time that is no calendar
    /// date.
    Timestamp { index: usize },
}

/// The UTC calendar date, as year, month and day, of the instant `seconds`
/// after the Unix epoch, where chrono can represent it.
pub uninterp spec fn utc_date_of(seconds: int) -> Option<(int, int, int)>;

/// The lower-case form of a string that `str::to_lowercase` gives.
pub uninterp spec fn lowercase_of(s: Seq<char>) -> Seq<char>;

/// `chrono::DateTime::<Utc>::from_timestamp` with no nanoseconds, then
/// `date_naive` and its year, month and day. The contract only names the
/// result: it is a function of the seconds alone.
#[verifier::external_body]
fn utc_date(seconds: i64) -> (r: Option<Date>)
    ensures
        match r {
            Some(d) => utc_date_of(seconds as int) == Some(d@),
            None => utc_date_of(seconds as int) is None,
        },
{
    match chrono::DateTime::<chrono::Utc>::from_timestamp(seconds, 0) {
        Some(instant) => {
            let day = instant.date_naive();
            Some(Date { year: day.year(), month: day.month(), day: day.day() })
        },
        None => None,
    }
}

/// `str::to_lowercase`. The contract only names the result: it is a function
/// of the characters alone.
#[verifier::external_body]
fn to_lower(s: &str) -> (r: String)
    ensures
        r@ == lowercase_of(s@),
{
    s.to_lowercase()
}

/// The text of an optional string, or `fallback` where there is none.
pub open spec fn text_or(o: Option<String>, fallback: Seq<char>) -> Seq<char> {
    match o {
        Some(s) => s@,
        None => fallback,
    }
}

/// A name passes the patterns if there are none, or if it holds one of them
/// as a substring. Name and patterns are taken as they are.
pub open spec fn passes_patterns(name: Seq<char>, patterns: Seq<String>) -> bool {
    patterns.len() == 0 || exists|i: int|
        0 <= i < patterns.len() && contains(name, (#[trigger] patterns[i])@)
}

/// An author passes the filter if the filter is empty, or if the name in
/// lower case holds one of the patterns in lower case as a substring.
pub open spec fn author_matches(name: Seq<char>, authors: Seq<String>) -> bool {
    authors.len() == 0 || exists|i: int|
        0 <= i < authors.len() && contains(lowercase_of(name), lowercase_of((#[trigger] authors[i])@))
}

/// Whether `name` passes `patterns`, both already in the case in which they
/// are compared.
pub fn name_passes(name: &str, patterns: &Vec<String>) -> (r: bool)
    ensures
        r == passes_patterns(name@, patterns@),
{
    if patterns.len() == 0 {
        return true;
    }
    let hay = chars_of(name);
    assert(hay@.subrange(0, hay@.len() as int) =~= hay@);
    let mut i: usize = 0;
    while i < patterns.len()
        invariant
            i <= patterns@.len(),
            hay@ == name@,
            hay@.subrange(0, hay@.len() as int) == hay@,
            forall|k: int| 0 <= k < i ==> !contains(name@, (#[trigger] patterns@[k])@),
        decreases patterns@.len() - i,
    {
        let needle = chars_of(patterns[i].as_str());
        if find_in(&hay, 0, hay.len(), &needle).is_some() {
            return true;
        }
        i += 1;
    }
    false
}

/// A commit with this time stops the selection: dates are compared and the
/// commit, no merge, has a time that is no calendar date.
pub open spec fn undatable(c: RawCommit, dated: bool) -> bool {
    dated && c.parent_count <= 1 && utc_date_of(c.seconds as int) is None
}

/// The commit is selected: it is no merge, its day lies in the window where
/// one is given, and its author passes the filter.
pub open spec fn keeps(
    c: RawCommit,
    start: Option<Date>,
    end: Option<Date>,
    authors: Seq<String>,
) -> bool {
    &&& c.parent_count <= 1
    &&& (start is Some || end is Some) ==> match utc_date_of(c.seconds as int) {
        Some(day) => day_in_window(day, start, end),
        None => false,
    }
    &&& author_matches(text_or(c.author_name, Seq::empty()), authors)
}

/// The record made of a commit of the repository `repo_name` at `path`.
pub open spec fn record_of(c: RawCommit, repo_name: Seq<char>, path: Seq<char>) -> CommitView {
    CommitView {
        id: c.id@,
        author_name: text_or(c.author_name, unknown_name()),
        author_email: text_or(c.author_email, unknown_name()),
        message: text_or(c.message, Seq::empty()),
        timestamp: c.seconds as int,
        repository: repo_name,
        path: path,
    }
}

/// The records of the selected commits among the first `n` of a history, in
/// the order of the history.
pub open spec fn selected_upto(
    history: Seq<RawCommit>,
    n: int,
    repo_name: Seq<char>,
    path: Seq<char>,
    start: Option<Date>,
    end: Option<Date>,
    authors: Seq<String>,
) -> Seq<CommitView>
    decreases n,
{
    if n <= 0 || n > history.len() {
        Seq::empty()
    } else {
        let before = selected_upto(history, n - 1, repo_name, path, start, end, authors);
        if keeps(history[n - 1], start, end, authors) {
            before.push(record_of(history[n - 1], repo_name, path))
        } else {
            before
        }
    }
}

fn text_of(o: &Option<String>, fallback: &str) -> (r: String)
    ensures
        r@ == text_or(*o, fallback@),
{
    match o {
        Some(s) => s.clone(),
        None => String::from_str(fallback),
    }
}

/// Makes the record of one commit of the repository `repo_name` at `path`.
/// An author without a name or an address is recorded as `Unknown`, a
/// commit without a message with an empty one.
pub fn parse_commit(commit: &RawCommit, repo_name: &str, path: &str) -> (r: CommitInfo)
    ensures
        r@ == record_of(*commit, repo_name@, path@),
{
    proof {
        reveal_strlit("Unknown");
        reveal_strlit("");
    }
    assert("Unknown"@ =~= unknown_name());
    assert(""@ =~= Seq::<char>::empty());
    CommitInfo {
        id: commit.id.clone(),
        author_name: text_of(&commit.author_name, "Unknown"),
        author_email: text_of(&commit.author_email, "Unknown"),
        message: text_of(&commit.message, ""),
        timestamp: commit.seconds,
        repository: String::from_str(repo_name),
        path: String::from_str(path),
    }
}

/// Selects the commits of one repository.
///
/// `history` is the first-parent chain from the oldest commit to the tip.
/// The result holds, in that order, a record of each commit that is no merge,
/// whose UTC day lies in the window and whose author passes the filter. Where
/// a window is given and a commit that is no merge has a time that is no
/// calendar date, the first such commit is reported and nothing is selected.
pub fn get_commits(
    history: &Vec<RawCommit>,
    repo_name: &str,
    path: &str,
    start_date: Option<Date>,
    end_date: Option<Date>,
    authors: &Vec<String>,
) -> (r: Result<Vec<CommitInfo>, CommitError>)
    ensures
        match r {
            Ok(out) => {
                &&& forall|k: int|
                    0 <= k < history@.len() ==> !undatable(
                        #[trigger] history@[k],
                        start_date is Some || end_date is Some,
                    )
                &&& commit_views(out@) == selected_upto(
                    history@,
                    history@.len() as int,
                    repo_name@,
                    path@,
                    start_date,
                    end_date,
                    authors@,
                )
                &&& forall|k: int|
                    0 <= k < out@.len() ==> from_single_parent(
                        (#[trigger] out@[k])@,
                        history@,
                        history@.len() as int,
                        repo_name@,
                        path@,
                        start_date,
                        end_date,
                        authors@,
                    )
            },
            Err(CommitError::Timestamp { index }) => {
                &&& index < history@.len()
                &&& undatable(history@[index as int], start_date is Some || end_date is Some)
                &&& forall|k: int|
                    0 <= k < index ==> !undatable(
                        #[trigger] history@[k],
                        start_date is Some || end_date is Some,
                    )
            },
        },
{
    let dated: bool = start_date.is_some() || end_date.is_some();
    let mut folded: Vec<String> = Vec::new();
    let mut a: usize = 0;
    while a < authors.len()
        invariant
            a <= authors@.len(),
            folded@.len() == a,
            forall|k: int| 0 <= k < a ==> (#[trigger] folded@[k])@ == lowercase_of(authors@[k]@),
        decreases authors@.len() - a,
    {
        folded.push(to_lower(authors[a].as_str()));
        a += 1;
    }
    proof {
        reveal_strlit("");
    }
    assert(""@ =~= Seq::<char>::empty());
    let mut out: Vec<CommitInfo> = Vec::new();
    let mut i: usize = 0;
    assert(commit_views(out@) =~= Seq::<CommitView>::empty());
    while i < history.len()
        invariant
            i <= history@.len(),
            dated == (start_date is Some || end_date is Some),
            folded@.len() == authors@.len(),
            forall|k: int|
                0 <= k < folded@.len() ==> (#[trigger] folded@[k])@ == lowercase_of(authors@[k]@),
            ""@ == Seq::<char>::empty(),
            forall|k: int| 0 <= k < i ==> !undatable(#[trigger] history@[k], dated),
            commit_views(out@) == selected_upto(
                history@,
                i as int,
                repo_name@,
                path@,
                start_date,
                end_date,
                authors@,
            ),
        decreases history@.len() - i,
    {
        let commit = &history[i];
        let ghost before = commit_views(out@);
        let mut keep: bool = commit.parent_count <= 1;
        if keep && dated {
            match utc_date(commit.seconds) {
                Some(day) => {
                    keep = in_window(day, start_date, end_date);
                },
                None => {
                    return Err(CommitError::Timestamp { index: i });
                },
            }
        }
        if keep {
            let name = match &commit.author_name {
                Some(s) => to_lower(s.as_str()),
                None => to_lower(""),
            };
            keep = name_passes(name.as_str(), &folded);
            proof {
                let plain = text_or(commit.author_name, Seq::empty());
                assert(name@ == lowercase_of(plain));
                if passes_patterns(name@, folded@) && folded@.len() > 0 {
                    let w = choose|w: int|
                        0 <= w < folded@.len() && contains(name@, (#[trigger] folded@[w])@);
                    assert(contains(lowercase_of(plain), lowercase_of(authors@[w]@)));
                }
                if author_matches(plain, authors@) && authors@.len() > 0 {
                    let w = choose|w: int|
                        0 <= w < authors@.len() && contains(
                            lowercase_of(plain),
                            lowercase_of((#[trigger] authors@[w])@),
                        );
                    assert(contains(name@, folded@[w]@));
                }
                assert(keep == author_matches(plain, authors@));
            }
        }
        assert(keep == keeps(*commit, start_date, end_date, authors@));
        if keep {
            out.push(parse_commit(commit, repo_name, path));
            assert(commit_views(out@) =~= before.push(record_of(*commit, repo_name@, path@)));
        }
        i += 1;
    }
    proof {
        law_no_merge_selected(
            history@,
            history@.len() as int,
            repo_name@,
            path@,
            start_date,
            end_date,
            authors@,
        );
        assert forall|k: int| 0 <= k < out@.len() implies from_single_parent(
            (#[trigger] out@[k])@,
            history@,
            history@.len() as int,
            repo_name@,
            path@,
            start_date,
            end_date,
            authors@,
        ) by {
            assert(out@[k]@ == commit_views(out@)[k]);
        }
    }
    Ok(out)
}

/// `record` is the record of one of the first `n` commits of the history,
/// and that commit is selected and has at most one parent.
pub open spec fn from_single_parent(
    record: CommitView,
    history: Seq<RawCommit>,
    n: int,
    repo_name: Seq<char>,
    path: Seq<char>,
    start: Option<Date>,
    end: Option<Date>,
    authors: Seq<String>,
) -> bool {
    exists|i: int|
        0 <= i < n && (#[trigger] history[i]).parent_count <= 1 && keeps(
            history[i],
            start,
            end,
            authors,
        ) && record == record_of(history[i], repo_name, path)
}

/// No merge commit is ever selected: each record among the selected ones is
/// that of a commit of the history with at most one parent.
pub proof fn law_no_merge_selected(
    history: Seq<RawCommit>,
    n: int,
    repo_name: Seq<char>,
    path: Seq<char>,
    start: Option<Date>,
    end: Option<Date>,
    authors: Seq<String>,
)
    requires
        0 <= n <= history.len(),
    ensures
        forall|k: int|
            0 <= k < selected_upto(history, n, repo_name, path, start, end, authors).len()
                ==> from_single_parent(
                #[trigger] selected_upto(history, n, repo_name, path, start, end, authors)[k],
                history,
                n,
                repo_name,
                path,
                start,
                end,
                authors,
            ),
    decreases n,
{
    if n > 0 {
        law_no_merge_selected(history, n - 1, repo_name, path, start, end, authors);
        let before = selected_upto(history, n - 1, repo_name, path, start, end, authors);
        let now = selected_upto(history, n, repo_name, path, start, end, authors);
        assert forall|k: int| 0 <= k < now.len() implies from_single_parent(
            #[trigger] now[k],
            history,
            n,
            repo_name,
            path,
            start,
            end,
            authors,
        ) by {
            if k < before.len() {
                assert(now[k] == before[k]);
                assert(from_single_parent(
                    before[k],
                    history,
                    n - 1,
                    repo_name,
                    path,
                    start,
                    end,
                    authors,
                ));
                let i = choose|i: int|
                    0 <= i < n - 1 && (#[trigger] history[i]).parent_count <= 1 && keeps(
                        history[i],
                        start,
                        end,
                        authors,
                    ) && before[k] == record_of(history[i], repo_name, path);
                assert(0 <= i < n && history[i].parent_count <= 1);
            } else {
                assert(history[n - 1].parent_count <= 1);
            }
        }
    }
}

} // verus!
