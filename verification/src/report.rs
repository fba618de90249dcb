//! Rendering of the activity report, plain or grouped by project.

use crate::commit::{CommitInfo, CommitView};
use crate::config::{unknown_code, unknown_name, Config};
use crate::normalize::{clean_message, cleaned_lines, views};
use crate::order::{ascending, place, Ranked};
use crate::text::{lemma_lt_irreflexive, lemma_lt_transitive, seq_lt, Rank};
use vstd::prelude::*;
use vstd::string::*;

verus! {

/// A rendered report.
#[derive(Debug)]
pub struct Report {
    pub summary: String,
}

/// The key of a group of the grouped report.
#[derive(Debug)]
pub struct GroupKey {
    pub code: String,
    pub name: String,
    pub alias: String,
}

impl View for GroupKey {
    type V = (Seq<char>, Seq<char>, Seq<char>);

    open spec fn view(&self) -> (Seq<char>, Seq<char>, Seq<char>) {
        (self.code@, self.name@, self.alias@)
    }
}

/// The order of group keys: by project code, then project name, then alias.
pub open spec fn key_lt(
    a: (Seq<char>, Seq<char>, Seq<char>),
    b: (Seq<char>, Seq<char>, Seq<char>),
) -> bool {
    seq_lt(a.0, b.0) || (a.0 == b.0 && (seq_lt(a.1, b.1) || (a.1 == b.1 && seq_lt(a.2, b.2))))
}

impl Ranked for GroupKey {
    open spec fn before(&self, other: &Self) -> bool {
        key_lt(self@, other@)
    }

    open spec fn alike(&self, other: &Self) -> bool {
        self@ == other@
    }

    fn rank(&self, other: &Self) -> (r: Rank) {
        match self.code.rank(&other.code) {
            Rank::Before => Rank::Before,
            Rank::After => Rank::After,
            Rank::Same => match self.name.rank(&other.name) {
                Rank::Before => Rank::Before,
                Rank::After => Rank::After,
                Rank::Same => self.alias.rank(&other.alias),
            },
        }
    }
}

/// The decimal digit of `d`.
pub open spec fn digit(d: nat) -> char {
    if d == 0 {
        '0'
    } else if d == 1 {
        '1'
    } else if d == 2 {
        '2'
    } else if d == 3 {
        '3'
    } else if d == 4 {
        '4'
    } else if d == 5 {
        '5'
    } else if d == 6 {
        '6'
    } else if d == 7 {
        '7'
    } else if d == 8 {
        '8'
    } else {
        '9'
    }
}

/// `n` in decimal, without leading zeros.
pub open spec fn decimal(n: nat) -> Seq<char>
    decreases n,
{
    if n < 10 {
        seq![digit(n)]
    } else {
        decimal(n / 10).push(digit(n % 10))
    }
}

fn digit_text(d: u128) -> (s: &'static str)
    requires
        d < 10,
    ensures
        s@ == seq![digit(d as nat)],
{
    proof {
        reveal_strlit("0");
        reveal_strlit("1");
        reveal_strlit("2");
        reveal_strlit("3");
        reveal_strlit("4");
        reveal_strlit("5");
        reveal_strlit("6");
        reveal_strlit("7");
        reveal_strlit("8");
        reveal_strlit("9");
    }
    let s: &'static str = if d == 0 {
        "0"
    } else if d == 1 {
        "1"
    } else if d == 2 {
        "2"
    } else if d == 3 {
        "3"
    } else if d == 4 {
        "4"
    } else if d == 5 {
        "5"
    } else if d == 6 {
        "6"
    } else if d == 7 {
        "7"
    } else if d == 8 {
        "8"
    } else {
        "9"
    };
    assert(s@ =~= seq![digit(d as nat)]);
    s
}

/// Appends `n` in decimal.
pub fn push_decimal(out: &mut String, n: u128)
    ensures
        final(out)@ == old(out)@ + decimal(n as nat),
    decreases n,
{
    if n >= 10 {
        push_decimal(out, n / 10);
    }
    out.append(digit_text(n % 10));
    assert(out@ =~= old(out)@ + decimal(n as nat));
}

/// The lines, each followed by a line feed.
pub open spec fn lines_text(lines: Seq<Seq<char>>) -> Seq<char>
    decreases lines.len(),
{
    if lines.len() == 0 {
        Seq::empty()
    } else {
        lines_text(lines.drop_last()) + lines.last() + "\n"@
    }
}

/// The lines, each in front numbered from 1 and followed by a line feed.
pub open spec fn numbered(lines: Seq<Seq<char>>) -> Seq<char>
    decreases lines.len(),
{
    if lines.len() == 0 {
        Seq::empty()
    } else {
        numbered(lines.drop_last()) + decimal(lines.len()) + ". "@ + lines.last() + "\n"@
    }
}

/// The cleaned lines of those among the first `n` commits that belong to the
/// group `key`, in order.
pub open spec fn group_lines(
    commits: Seq<CommitInfo>,
    config: &Config,
    key: (Seq<char>, Seq<char>, Seq<char>),
    n: int,
) -> Seq<Seq<char>>
    decreases n,
{
    if n <= 0 || n > commits.len() {
        Seq::empty()
    } else if config.group_key(commits[n - 1].path@) == key {
        group_lines(commits, config, key, n - 1) + cleaned_lines(commits[n - 1].message@)
    } else {
        group_lines(commits, config, key, n - 1)
    }
}

/// The first commit at or after `i` that belongs to the group `key`.
pub open spec fn first_member(
    commits: Seq<CommitInfo>,
    config: &Config,
    key: (Seq<char>, Seq<char>, Seq<char>),
    i: int,
) -> Option<int>
    decreases commits.len() - i,
{
    if i < 0 || i >= commits.len() {
        None
    } else if config.group_key(commits[i].path@) == key {
        Some(i)
    } else {
        first_member(commits, config, key, i + 1)
    }
}

/// The path of the first commit that belongs to the group `key`.
pub open spec fn member_path(
    commits: Seq<CommitInfo>,
    config: &Config,
    key: (Seq<char>, Seq<char>, Seq<char>),
) -> Option<Seq<char>> {
    match first_member(commits, config, key, 0) {
        Some(c) => Some(commits[c].path@),
        None => None,
    }
}

/// The line that separates two projects.
pub open spec fn separator() -> Seq<char> {
    "=======================================================================\n"@
}

/// The header of a project: nothing but an empty line where the project
/// code is that of the group before; else project name and code, after a
/// separator where there is a group before.
pub open spec fn project_head(
    prev_code: Seq<char>,
    key: (Seq<char>, Seq<char>, Seq<char>),
) -> Seq<char> {
    if key.0 != prev_code {
        (if prev_code.len() > 0 {
            separator()
        } else {
            Seq::empty()
        }) + "\n"@ + key.1 + " "@ + key.0 + "\n\n"@
    } else {
        "\n"@
    }
}

/// The line of an alias, in verbose output with the path of the group's
/// first commit.
pub open spec fn alias_head(
    key: (Seq<char>, Seq<char>, Seq<char>),
    verbose: bool,
    member_path: Option<Seq<char>>,
) -> Seq<char> {
    if verbose {
        "Repository: "@ + key.2 + (match member_path {
            Some(p) => " ("@ + p + ")"@,
            None => Seq::empty(),
        }) + "\n"@
    } else {
        key.2 + "\n"@
    }
}

/// What stands above the lines of a group: the header of its project, then
/// the line of its alias.
pub open spec fn section_head(
    prev_code: Seq<char>,
    key: (Seq<char>, Seq<char>, Seq<char>),
    verbose: bool,
    member_path: Option<Seq<char>>,
) -> Seq<char> {
    project_head(prev_code, key) + alias_head(key, verbose, member_path)
}

/// The grouped report of the first `g` groups of `order`.
pub open spec fn render_groups(
    order: Seq<GroupKey>,
    g: int,
    commits: Seq<CommitInfo>,
    config: &Config,
    verbose: bool,
) -> Seq<char>
    decreases g,
{
    if g <= 0 || g > order.len() {
        Seq::empty()
    } else {
        let key = order[g - 1]@;
        let prev_code = if g == 1 {
            Seq::empty()
        } else {
            order[g - 2].code@
        };
        render_groups(order, g - 1, commits, config, verbose) + section_head(
            prev_code,
            key,
            verbose,
            member_path(commits, config, key),
        ) + numbered(group_lines(commits, config, key, commits.len() as int))
    }
}

/// `order` holds the keys of the groups of `commits`, each once, in
/// ascending order.
pub open spec fn is_group_order(order: Seq<GroupKey>, commits: Seq<CommitInfo>, config: &Config) -> bool {
    &&& ascending(order)
    &&& forall|c: int|
        0 <= c < commits.len() ==> has_key(order, config.group_key((#[trigger] commits[c]).path@))
    &&& forall|g: int|
        0 <= g < order.len() ==> key_among(commits, commits.len() as int, config, (#[trigger] order[g])@)
}

/// `key` is one of `order`.
pub open spec fn has_key(order: Seq<GroupKey>, key: (Seq<char>, Seq<char>, Seq<char>)) -> bool {
    exists|g: int| 0 <= g < order.len() && (#[trigger] order[g])@ == key
}

/// `key` is the group key of one of the first `n` commits.
pub open spec fn key_among(
    commits: Seq<CommitInfo>,
    n: int,
    config: &Config,
    key: (Seq<char>, Seq<char>, Seq<char>),
) -> bool {
    exists|c: int| 0 <= c < n && config.group_key((#[trigger] commits[c]).path@) == key
}

/// The group key of a commit: that of the first mapping entry that matches
/// the path of its repository, or the unknown project with that path.
pub fn key_of(commit: &CommitInfo, config: &Config) -> (key: GroupKey)
    ensures
        key@ == config.group_key(commit.path@),
{
    match config.find_matching_repo(commit.path.as_str()) {
        Some((code, name, alias)) => GroupKey { code, name, alias },
        None => {
            proof {
                reveal_strlit("UNKNOWN");
                reveal_strlit("Unknown");
            }
            assert("UNKNOWN"@ =~= unknown_code());
            assert("Unknown"@ =~= unknown_name());
            GroupKey {
                code: String::from_str("UNKNOWN"),
                name: String::from_str("Unknown"),
                alias: commit.path.clone(),
            }
        },
    }
}

/// The group keys of the commits, one for each, in their order.
pub fn commit_keys(commits: &[CommitInfo], config: &Config) -> (keys: Vec<GroupKey>)
    ensures
        keys@.len() == commits@.len(),
        forall|c: int|
            0 <= c < commits@.len() ==> (#[trigger] keys@[c])@ == config.group_key(commits@[c].path@),
{
    let mut keys: Vec<GroupKey> = Vec::new();
    let mut c: usize = 0;
    while c < commits.len()
        invariant
            c <= commits@.len(),
            keys@.len() == c,
            forall|k: int|
                0 <= k < c ==> (#[trigger] keys@[k])@ == config.group_key(commits@[k].path@),
        decreases commits@.len() - c,
    {
        keys.push(key_of(&commits[c], config));
        c += 1;
    }
    keys
}

/// The keys of the groups of the commits: each once, in ascending order.
pub fn group_order(commits: &[CommitInfo], config: &Config) -> (order: Vec<GroupKey>)
    ensures
        is_group_order(order@, commits@, config),
{
    let mut order: Vec<GroupKey> = Vec::new();
    let mut c: usize = 0;
    while c < commits.len()
        invariant
            c <= commits@.len(),
            ascending(order@),
            forall|k: int|
                0 <= k < c ==> has_key(order@, config.group_key((#[trigger] commits@[k]).path@)),
            forall|g: int|
                0 <= g < order@.len() ==> key_among(commits@, c as int, config, (#[trigger] order@[g])@),
        decreases commits@.len() - c,
    {
        let ghost prior = order@;
        let ghost key = config.group_key(commits@[c as int].path@);
        let (p, fresh) = place(&mut order, key_of(&commits[c], config));
        assert(order@[p as int]@ == key);
        assert forall|k: int| 0 <= k < c + 1 implies has_key(
            order@,
            config.group_key((#[trigger] commits@[k]).path@),
        ) by {
            if k < c {
                let wanted = config.group_key(commits@[k].path@);
                assert(has_key(prior, wanted));
                let g = choose|g: int| 0 <= g < prior.len() && (#[trigger] prior[g])@ == wanted;
                if fresh {
                    if g < p {
                        assert(order@[g]@ == wanted);
                    } else {
                        assert(order@[g + 1]@ == wanted);
                    }
                } else {
                    assert(order@[g]@ == wanted);
                }
            }
        }
        assert forall|g: int| 0 <= g < order@.len() implies key_among(
            commits@,
            c + 1,
            config,
            (#[trigger] order@[g])@,
        ) by {
            if fresh && g == p {
                assert(config.group_key(commits@[c as int].path@) == key);
            } else {
                let h = if fresh && g > p {
                    g - 1
                } else {
                    g
                };
                assert(order@[g] == prior[h]);
                assert(key_among(commits@, c as int, config, prior[h]@));
                let e = choose|e: int|
                    0 <= e < c && config.group_key((#[trigger] commits@[e]).path@) == prior[h]@;
                assert(config.group_key(commits@[e].path@) == order@[g]@);
            }
        }
        c += 1;
    }
    order
}

fn same_key(a: &GroupKey, b: &GroupKey) -> (r: bool)
    ensures
        r == (a@ == b@),
{
    a.code == b.code && a.name == b.name && a.alias == b.alias
}

fn find_member(keys: &Vec<GroupKey>, key: &GroupKey, commits: &[CommitInfo], config: &Config) -> (r:
    Option<usize>)
    requires
        keys@.len() == commits@.len(),
        forall|c: int|
            0 <= c < commits@.len() ==> (#[trigger] keys@[c])@ == config.group_key(commits@[c].path@),
    ensures
        match r {
            Some(c) => c < commits@.len() && first_member(commits@, config, key@, 0) == Some(
                c as int,
            ),
            None => first_member(commits@, config, key@, 0) is None,
        },
{
    let mut c: usize = 0;
    while c < keys.len()
        invariant
            c <= keys@.len(),
            keys@.len() == commits@.len(),
            forall|k: int|
                0 <= k < commits@.len() ==> (#[trigger] keys@[k])@ == config.group_key(
                    commits@[k].path@,
                ),
            first_member(commits@, config, key@, 0) == first_member(commits@, config, key@, c as int),
        decreases keys@.len() - c,
    {
        if same_key(&keys[c], key) {
            return Some(c);
        }
        c += 1;
    }
    None
}

fn push_project_head(out: &mut String, prev_code: &String, key: &GroupKey)
    ensures
        final(out)@ == old(out)@ + project_head(prev_code@, key@),
{
    let ghost start = out@;
    if !(key.code == *prev_code) {
        if !prev_code.as_str().is_empty() {
            out.append("=======================================================================\n");
        }
        let ghost first = out@;
        out.append("\n");
        out.append(key.name.as_str());
        out.append(" ");
        out.append(key.code.as_str());
        out.append("\n\n");
        assert(out@ =~= first + ("\n"@ + key.name@ + " "@ + key.code@ + "\n\n"@));
        assert(first =~= start + (if prev_code@.len() > 0 {
            separator()
        } else {
            Seq::<char>::empty()
        }));
        assert(out@ =~= start + project_head(prev_code@, key@));
    } else {
        out.append("\n");
    }
}

fn push_alias_head(out: &mut String, key: &GroupKey, verbose: bool, member_path: Option<&String>)
    ensures
        final(out)@ == old(out)@ + alias_head(
            key@,
            verbose,
            match member_path {
                Some(p) => Some(p@),
                None => None,
            },
        ),
{
    let ghost start = out@;
    if verbose {
        out.append("Repository: ");
        out.append(key.alias.as_str());
        let ghost first = out@;
        match member_path {
            Some(p) => {
                out.append(" (");
                out.append(p.as_str());
                out.append(")");
                assert(out@ =~= first + (" ("@ + p@ + ")"@));
            },
            None => {
                assert(out@ =~= first + Seq::<char>::empty());
            },
        }
        out.append("\n");
        assert(out@ =~= start + alias_head(
            key@,
            verbose,
            match member_path {
                Some(p) => Some(p@),
                None => None,
            },
        ));
    } else {
        out.append(key.alias.as_str());
        out.append("\n");
        assert(out@ =~= start + (key.alias@ + "\n"@));
    }
}

fn push_head(
    out: &mut String,
    prev_code: &String,
    key: &GroupKey,
    verbose: bool,
    member_path: Option<&String>,
)
    ensures
        final(out)@ == old(out)@ + section_head(
            prev_code@,
            key@,
            verbose,
            match member_path {
                Some(p) => Some(p@),
                None => None,
            },
        ),
{
    let ghost start = out@;
    push_project_head(out, prev_code, key);
    push_alias_head(out, key, verbose, member_path);
    assert(out@ =~= start + section_head(
        prev_code@,
        key@,
        verbose,
        match member_path {
            Some(p) => Some(p@),
            None => None,
        },
    ));
}

fn push_numbered(
    out: &mut String,
    keys: &Vec<GroupKey>,
    key: &GroupKey,
    commits: &[CommitInfo],
    config: &Config,
)
    requires
        keys@.len() == commits@.len(),
        forall|c: int|
            0 <= c < commits@.len() ==> (#[trigger] keys@[c])@ == config.group_key(commits@[c].path@),
    ensures
        final(out)@ == old(out)@ + numbered(
            group_lines(commits@, config, key@, commits@.len() as int),
        ),
{
    let ghost start = out@;
    let ghost mut lines: Seq<Seq<char>> = Seq::empty();
    let mut count: u128 = 0;
    let mut c: usize = 0;
    assert(out@ =~= start + numbered(lines));
    while c < commits.len()
        invariant
            c <= commits@.len(),
            keys@.len() == commits@.len(),
            forall|k: int|
                0 <= k < commits@.len() ==> (#[trigger] keys@[k])@ == config.group_key(
                    commits@[k].path@,
                ),
            lines == group_lines(commits@, config, key@, c as int),
            out@ == start + numbered(lines),
            count == lines.len(),
            count <= c * 0x1_0000_0000_0000_0000,
        decreases commits@.len() - c,
    {
        if same_key(&keys[c], key) {
            let cleaned = clean_message(commits[c].message.as_str());
            let ghost at_commit = lines;
            let mut j: usize = 0;
            assert(views(cleaned@).subrange(0, 0) =~= Seq::<Seq<char>>::empty());
            assert(at_commit + Seq::<Seq<char>>::empty() =~= at_commit);
            while j < cleaned.len()
                invariant
                    j <= cleaned@.len(),
                    c < commits@.len(),
                    lines == at_commit + views(cleaned@).subrange(0, j as int),
                    out@ == start + numbered(lines),
                    count == lines.len(),
                    count <= c * 0x1_0000_0000_0000_0000 + j,
                decreases cleaned@.len() - j,
            {
                let ghost shown = lines;
                count = count + 1;
                push_decimal(out, count);
                out.append(". ");
                out.append(cleaned[j].as_str());
                out.append("\n");
                proof {
                    lines = shown.push(cleaned@[j as int]@);
                    assert(lines.drop_last() =~= shown);
                    assert(lines =~= at_commit + views(cleaned@).subrange(0, j + 1));
                    assert(out@ =~= start + numbered(lines));
                }
                j += 1;
            }
            assert(views(cleaned@).subrange(0, cleaned@.len() as int) =~= views(cleaned@));
        }
        c += 1;
    }
}

fn format_text_summary_with_config(commits: &[CommitInfo], config: &Config, verbose: bool) -> (out:
    String)
    ensures
        exists|order: Seq<GroupKey>|
            is_group_order(order, commits@, config) && out@ == #[trigger] render_groups(
                order,
                order.len() as int,
                commits@,
                config,
                verbose,
            ),
{
    let keys = commit_keys(commits, config);
    let order = group_order(commits, config);
    let mut out = String::new();
    let mut prev_code = String::new();
    let mut g: usize = 0;
    while g < order.len()
        invariant
            g <= order@.len(),
            keys@.len() == commits@.len(),
            forall|k: int|
                0 <= k < commits@.len() ==> (#[trigger] keys@[k])@ == config.group_key(
                    commits@[k].path@,
                ),
            prev_code@ == (if g == 0 {
                Seq::<char>::empty()
            } else {
                order@[g - 1].code@
            }),
            out@ == render_groups(order@, g as int, commits@, config, verbose),
        decreases order@.len() - g,
    {
        let key = &order[g];
        match find_member(&keys, key, commits, config) {
            Some(c) => {
                push_head(&mut out, &prev_code, key, verbose, Some(&commits[c].path));
            },
            None => {
                push_head(&mut out, &prev_code, key, verbose, None);
            },
        }
        push_numbered(&mut out, &keys, key, commits, config);
        prev_code = key.code.clone();
        g += 1;
        assert(out@ =~= render_groups(order@, g as int, commits@, config, verbose));
    }
    out
}

/// Renders the report grouped by project: one section for each project
/// code, the groups in the order of their keys, the lines of each group
/// numbered from 1.
pub fn generate_report_with_config(commits: &[CommitInfo], config: &Config, verbose: bool) -> (report:
    Report)
    ensures
        exists|order: Seq<GroupKey>|
            is_group_order(order, commits@, config) && report.summary@ == #[trigger] render_groups(
                order,
                order.len() as int,
                commits@,
                config,
                verbose,
            ),
{
    Report { summary: format_text_summary_with_config(commits, config, verbose) }
}

/// The repository of commit `k` is that of an earlier commit.
pub open spec fn path_seen(commits: Seq<CommitInfo>, k: int) -> bool {
    exists|j: int| 0 <= j < k && (#[trigger] commits[j]).path@ == commits[k].path@
}

/// The cleaned lines, each followed by a line feed, of those among the first
/// `n` commits whose repository is at `path`, in order.
pub open spec fn path_lines(commits: Seq<CommitInfo>, path: Seq<char>, n: int) -> Seq<char>
    decreases n,
{
    if n <= 0 || n > commits.len() {
        Seq::empty()
    } else if commits[n - 1].path@ == path {
        path_lines(commits, path, n - 1) + lines_text(cleaned_lines(commits[n - 1].message@))
    } else {
        path_lines(commits, path, n - 1)
    }
}

/// The plain report of the repositories that the first `n` commits bring
/// up: for each, in the order in which they are first seen, a header with
/// its path and the cleaned lines of all its commits.
pub open spec fn render_plain(commits: Seq<CommitInfo>, n: int) -> Seq<char>
    decreases n,
{
    if n <= 0 || n > commits.len() {
        Seq::empty()
    } else if path_seen(commits, n - 1) {
        render_plain(commits, n - 1)
    } else {
        render_plain(commits, n - 1) + "\nRepository Path: "@ + commits[n - 1].path@ + "\n"@
            + path_lines(commits, commits[n - 1].path@, commits.len() as int)
    }
}

fn seen_before(commits: &[CommitInfo], k: usize) -> (r: bool)
    requires
        k < commits@.len(),
    ensures
        r == path_seen(commits@, k as int),
{
    let mut j: usize = 0;
    while j < k
        invariant
            j <= k < commits@.len(),
            forall|i: int| 0 <= i < j ==> (#[trigger] commits@[i]).path@ != commits@[k as int].path@,
        decreases k - j,
    {
        if commits[j].path == commits[k].path {
            return true;
        }
        j += 1;
    }
    false
}

fn push_lines(out: &mut String, cleaned: &Vec<String>)
    ensures
        final(out)@ == old(out)@ + lines_text(views(cleaned@)),
{
    let ghost start = out@;
    let mut j: usize = 0;
    assert(out@ =~= start + lines_text(views(cleaned@).subrange(0, 0)));
    while j < cleaned.len()
        invariant
            j <= cleaned@.len(),
            out@ == start + lines_text(views(cleaned@).subrange(0, j as int)),
        decreases cleaned@.len() - j,
    {
        out.append(cleaned[j].as_str());
        out.append("\n");
        proof {
            let now = views(cleaned@).subrange(0, j + 1);
            assert(now.drop_last() =~= views(cleaned@).subrange(0, j as int));
            assert(now.last() == cleaned@[j as int]@);
            assert(out@ =~= start + lines_text(now));
        }
        j += 1;
    }
    assert(views(cleaned@).subrange(0, cleaned@.len() as int) =~= views(cleaned@));
}

fn push_path_lines(out: &mut String, commits: &[CommitInfo], path: &String)
    ensures
        final(out)@ == old(out)@ + path_lines(commits@, path@, commits@.len() as int),
{
    let ghost start = out@;
    let mut c: usize = 0;
    assert(out@ =~= start + path_lines(commits@, path@, 0));
    while c < commits.len()
        invariant
            c <= commits@.len(),
            out@ == start + path_lines(commits@, path@, c as int),
        decreases commits@.len() - c,
    {
        if commits[c].path == *path {
            let cleaned = clean_message(commits[c].message.as_str());
            push_lines(out, &cleaned);
            assert(out@ =~= start + path_lines(commits@, path@, c + 1));
        }
        c += 1;
    }
}

fn format_text_summary(commits: &[CommitInfo]) -> (out: String)
    ensures
        out@ == render_plain(commits@, commits@.len() as int),
{
    let mut out = String::new();
    let mut k: usize = 0;
    while k < commits.len()
        invariant
            k <= commits@.len(),
            out@ == render_plain(commits@, k as int),
        decreases commits@.len() - k,
    {
        if !seen_before(commits, k) {
            out.append("\nRepository Path: ");
            out.append(commits[k].path.as_str());
            out.append("\n");
            push_path_lines(&mut out, commits, &commits[k].path);
            assert(out@ =~= render_plain(commits@, k + 1));
        }
        k += 1;
    }
    out
}

/// Renders the plain report: for each repository, in the order in which the
/// commits bring them up, a header with its path and the cleaned lines of its
/// commits, without numbers.
pub fn generate_report(commits: &[CommitInfo]) -> (report: Report)
    ensures
        report.summary@ == render_plain(commits@, commits@.len() as int),
{
    Report { summary: format_text_summary(commits) }
}

/// No key stands before itself.
pub proof fn lemma_key_lt_irreflexive(a: (Seq<char>, Seq<char>, Seq<char>))
    ensures
        !key_lt(a, a),
{
    lemma_lt_irreflexive(a.0, 0);
    lemma_lt_irreflexive(a.1, 0);
    lemma_lt_irreflexive(a.2, 0);
}

/// The order of keys is transitive.
pub proof fn lemma_key_lt_transitive(
    a: (Seq<char>, Seq<char>, Seq<char>),
    b: (Seq<char>, Seq<char>, Seq<char>),
    c: (Seq<char>, Seq<char>, Seq<char>),
)
    requires
        key_lt(a, b),
        key_lt(b, c),
    ensures
        key_lt(a, c),
{
    if seq_lt(a.0, b.0) && seq_lt(b.0, c.0) {
        lemma_lt_transitive(a.0, b.0, c.0, 0);
    } else if a.0 == b.0 && b.0 == c.0 {
        if seq_lt(a.1, b.1) && seq_lt(b.1, c.1) {
            lemma_lt_transitive(a.1, b.1, c.1, 0);
        } else if a.1 == b.1 && b.1 == c.1 {
            lemma_lt_transitive(a.2, b.2, c.2, 0);
        }
    }
}

/// In an ascending sequence every key stands before every later one, so
/// no key occurs twice.
pub proof fn law_ascending_is_strict(order: Seq<GroupKey>, i: int, j: int)
    requires
        ascending(order),
        0 <= i < j < order.len(),
    ensures
        key_lt(order[i]@, order[j]@),
        order[i]@ != order[j]@,
    decreases j - i,
{
    if j > i + 1 {
        law_ascending_is_strict(order, i, j - 1);
        assert(order[j - 1].before(&order[j]));
        lemma_key_lt_transitive(order[i]@, order[j - 1]@, order[j]@);
    } else {
        assert(order[i].before(&order[j]));
    }
    lemma_key_lt_irreflexive(order[i]@);
}

proof fn lemma_same_prefix(first: Seq<GroupKey>, second: Seq<GroupKey>, n: int)
    requires
        ascending(first),
        ascending(second),
        forall|key: (Seq<char>, Seq<char>, Seq<char>)|
            #![trigger has_key(first, key)]
            #![trigger has_key(second, key)]
            has_key(first, key) <==> has_key(second, key),
        0 <= n <= first.len(),
    ensures
        n <= second.len(),
        forall|i: int| 0 <= i < n ==> (#[trigger] first[i])@ == second[i]@,
    decreases n,
{
    if n > 0 {
        lemma_same_prefix(first, second, n - 1);
        let at = n - 1;
        let k = first[at]@;
        assert(has_key(first, k));
        assert(has_key(second, k));
        let m = choose|m: int| 0 <= m < second.len() && (#[trigger] second[m])@ == k;
        if m < at {
            assert(first[m]@ == second[m]@);
            law_ascending_is_strict(first, m, at);
        }
        let k2 = second[at]@;
        assert(has_key(second, k2));
        assert(has_key(first, k2));
        let m2 = choose|m2: int| 0 <= m2 < first.len() && (#[trigger] first[m2])@ == k2;
        if m2 < at {
            assert(first[m2]@ == second[m2]@);
            law_ascending_is_strict(second, m2, at);
        }
        if m > at && m2 > at {
            law_ascending_is_strict(second, at, m);
            law_ascending_is_strict(first, at, m2);
            lemma_key_lt_transitive(k, k2, k);
            lemma_key_lt_irreflexive(k);
        }
    }
}

proof fn lemma_same_rendering(
    first: Seq<GroupKey>,
    second: Seq<GroupKey>,
    g: int,
    commits: Seq<CommitInfo>,
    others: Seq<CommitInfo>,
    config: &Config,
    verbose: bool,
)
    requires
        0 <= g <= first.len(),
        g <= second.len(),
        forall|i: int| 0 <= i < g ==> (#[trigger] first[i])@ == second[i]@,
        forall|key: (Seq<char>, Seq<char>, Seq<char>)|
            #![trigger group_lines(commits, config, key, commits.len() as int)]
            group_lines(commits, config, key, commits.len() as int) == group_lines(
                others,
                config,
                key,
                others.len() as int,
            ),
        forall|key: (Seq<char>, Seq<char>, Seq<char>)|
            #![trigger member_path(commits, config, key)]
            member_path(commits, config, key) == member_path(others, config, key),
    ensures
        render_groups(first, g, commits, config, verbose) == render_groups(
            second,
            g,
            others,
            config,
            verbose,
        ),
    decreases g,
{
    if g > 0 {
        lemma_same_rendering(first, second, g - 1, commits, others, config, verbose);
        assert(first[g - 1]@ == second[g - 1]@);
        if g > 1 {
            assert(first[g - 2]@ == second[g - 2]@);
        }
    }
}

/// The grouped report is a function of the groups alone: two lists of
/// commits that bring up the same keys, and for each key the same lines in
/// the same order and the same first path, render to the same text, in
/// whatever order the commits of different groups arrive. In particular the
/// same commits always render to the same text.
pub proof fn law_rendering_is_order_stable(
    first: Seq<GroupKey>,
    second: Seq<GroupKey>,
    commits: Seq<CommitInfo>,
    others: Seq<CommitInfo>,
    config: &Config,
    verbose: bool,
)
    requires
        is_group_order(first, commits, config),
        is_group_order(second, others, config),
        forall|key: (Seq<char>, Seq<char>, Seq<char>)|
            #![trigger key_among(commits, commits.len() as int, config, key)]
            #![trigger key_among(others, others.len() as int, config, key)]
            key_among(commits, commits.len() as int, config, key) <==> key_among(
                others,
                others.len() as int,
                config,
                key,
            ),
        forall|key: (Seq<char>, Seq<char>, Seq<char>)|
            #![trigger group_lines(commits, config, key, commits.len() as int)]
            group_lines(commits, config, key, commits.len() as int) == group_lines(
                others,
                config,
                key,
                others.len() as int,
            ),
        forall|key: (Seq<char>, Seq<char>, Seq<char>)|
            #![trigger member_path(commits, config, key)]
            member_path(commits, config, key) == member_path(others, config, key),
    ensures
        first.len() == second.len(),
        forall|i: int| 0 <= i < first.len() ==> (#[trigger] first[i])@ == second[i]@,
        render_groups(first, first.len() as int, commits, config, verbose) == render_groups(
            second,
            second.len() as int,
            others,
            config,
            verbose,
        ),
{
    assert forall|key: (Seq<char>, Seq<char>, Seq<char>)|
        #![trigger has_key(first, key)]
        #![trigger has_key(second, key)]
        has_key(first, key) <==> has_key(second, key) by {
        if has_key(first, key) {
            let g = choose|g: int| 0 <= g < first.len() && (#[trigger] first[g])@ == key;
            assert(key_among(commits, commits.len() as int, config, first[g]@));
            assert(key_among(others, others.len() as int, config, key));
            let c = choose|c: int|
                0 <= c < others.len() && config.group_key((#[trigger] others[c]).path@) == key;
            assert(has_key(second, config.group_key(others[c].path@)));
        }
        if has_key(second, key) {
            let g = choose|g: int| 0 <= g < second.len() && (#[trigger] second[g])@ == key;
            assert(key_among(others, others.len() as int, config, second[g]@));
            assert(key_among(commits, commits.len() as int, config, key));
            let c = choose|c: int|
                0 <= c < commits.len() && config.group_key((#[trigger] commits[c]).path@) == key;
            assert(has_key(first, config.group_key(commits[c].path@)));
        }
    }
    lemma_same_prefix(first, second, first.len() as int);
    lemma_same_prefix(second, first, second.len() as int);
    lemma_same_rendering(first, second, first.len() as int, commits, others, config, verbose);
}

/// Those among the first `n` commits that belong to the group `key`, in
/// their order.
pub open spec fn members(
    commits: Seq<CommitInfo>,
    config: &Config,
    key: (Seq<char>, Seq<char>, Seq<char>),
    n: int,
) -> Seq<CommitView>
    decreases n,
{
    if n <= 0 || n > commits.len() {
        Seq::empty()
    } else if config.group_key(commits[n - 1].path@) == key {
        members(commits, config, key, n - 1).push(commits[n - 1]@)
    } else {
        members(commits, config, key, n - 1)
    }
}

/// The cleaned lines of the messages of `list`, in order.
pub open spec fn lines_of(list: Seq<CommitView>) -> Seq<Seq<char>>
    decreases list.len(),
{
    if list.len() == 0 {
        Seq::empty()
    } else {
        lines_of(list.drop_last()) + cleaned_lines(list.last().message)
    }
}

proof fn lemma_lines_of_members(
    commits: Seq<CommitInfo>,
    config: &Config,
    key: (Seq<char>, Seq<char>, Seq<char>),
    n: int,
)
    requires
        0 <= n <= commits.len(),
    ensures
        group_lines(commits, config, key, n) == lines_of(members(commits, config, key, n)),
    decreases n,
{
    if n > 0 {
        lemma_lines_of_members(commits, config, key, n - 1);
        let before = members(commits, config, key, n - 1);
        if config.group_key(commits[n - 1].path@) == key {
            assert(before.push(commits[n - 1]@).drop_last() =~= before);
        }
    }
}

proof fn lemma_members_head(
    commits: Seq<CommitInfo>,
    config: &Config,
    key: (Seq<char>, Seq<char>, Seq<char>),
    n: int,
) -> (c: int)
    requires
        0 <= n <= commits.len(),
    ensures
        members(commits, config, key, n).len() > 0 <==> key_among(commits, n, config, key),
        members(commits, config, key, n).len() > 0 ==> {
            &&& 0 <= c < n
            &&& config.group_key(commits[c].path@) == key
            &&& forall|d: int| 0 <= d < c ==> config.group_key((#[trigger] commits[d]).path@) != key
            &&& members(commits, config, key, n)[0] == commits[c]@
        },
    decreases n,
{
    if n == 0 {
        0
    } else {
        let c = lemma_members_head(commits, config, key, n - 1);
        let before = members(commits, config, key, n - 1);
        let here = config.group_key(commits[n - 1].path@) == key;
        if key_among(commits, n, config, key) && !here {
            let w = choose|w: int|
                0 <= w < n && config.group_key((#[trigger] commits[w]).path@) == key;
            assert(w < n - 1);
            assert(key_among(commits, n - 1, config, key));
        }
        if before.len() > 0 {
            assert(key_among(commits, n - 1, config, key));
            let w = choose|w: int|
                0 <= w < n - 1 && config.group_key((#[trigger] commits[w]).path@) == key;
            assert(0 <= w < n);
            c
        } else if here {
            assert forall|d: int| 0 <= d < n - 1 implies config.group_key(
                (#[trigger] commits[d]).path@,
            ) != key by {
                if config.group_key(commits[d].path@) == key {
                    assert(key_among(commits, n - 1, config, key));
                }
            }
            assert(config.group_key(commits[n - 1].path@) == key);
            n - 1
        } else {
            0
        }
    }
}

proof fn lemma_first_member(
    commits: Seq<CommitInfo>,
    config: &Config,
    key: (Seq<char>, Seq<char>, Seq<char>),
    i: int,
)
    requires
        0 <= i,
    ensures
        match first_member(commits, config, key, i) {
            Some(c) => i <= c < commits.len() && config.group_key(commits[c].path@) == key
                && forall|d: int|
                i <= d < c ==> config.group_key((#[trigger] commits[d]).path@) != key,
            None => forall|d: int|
                i <= d < commits.len() ==> config.group_key((#[trigger] commits[d]).path@) != key,
        },
    decreases commits.len() - i,
{
    if i < commits.len() && config.group_key(commits[i].path@) != key {
        lemma_first_member(commits, config, key, i + 1);
    }
}

proof fn lemma_member_path(
    commits: Seq<CommitInfo>,
    config: &Config,
    key: (Seq<char>, Seq<char>, Seq<char>),
)
    ensures
        member_path(commits, config, key) == (if members(
            commits,
            config,
            key,
            commits.len() as int,
        ).len() > 0 {
            Some(members(commits, config, key, commits.len() as int)[0].path)
        } else {
            None
        }),
{
    let c = lemma_members_head(commits, config, key, commits.len() as int);
    lemma_first_member(commits, config, key, 0);
    if members(commits, config, key, commits.len() as int).len() > 0 {
        assert(config.group_key(commits[c].path@) == key);
    } else {
        match first_member(commits, config, key, 0) {
            Some(f) => {
                assert(config.group_key(commits[f].path@) == key);
                assert(key_among(commits, commits.len() as int, config, key));
            },
            None => {},
        }
    }
}

/// The grouped report does not depend on the order in which the commits of
/// different groups arrive: two lists of commits that hold, for every key,
/// the same commits of that group in the same order (so that each is a
/// reordering of the other that keeps the order within every group) render
/// to the same text.
pub proof fn law_rendering_survives_reordering(
    first: Seq<GroupKey>,
    second: Seq<GroupKey>,
    commits: Seq<CommitInfo>,
    others: Seq<CommitInfo>,
    config: &Config,
    verbose: bool,
)
    requires
        is_group_order(first, commits, config),
        is_group_order(second, others, config),
        forall|key: (Seq<char>, Seq<char>, Seq<char>)|
            #![trigger members(commits, config, key, commits.len() as int)]
            members(commits, config, key, commits.len() as int) == members(
                others,
                config,
                key,
                others.len() as int,
            ),
    ensures
        render_groups(first, first.len() as int, commits, config, verbose) == render_groups(
            second,
            second.len() as int,
            others,
            config,
            verbose,
        ),
{
    assert forall|key: (Seq<char>, Seq<char>, Seq<char>)|
        #![trigger key_among(commits, commits.len() as int, config, key)]
        #![trigger key_among(others, others.len() as int, config, key)]
        key_among(commits, commits.len() as int, config, key) <==> key_among(
            others,
            others.len() as int,
            config,
            key,
        ) by {
        lemma_members_head(commits, config, key, commits.len() as int);
        lemma_members_head(others, config, key, others.len() as int);
        assert(members(commits, config, key, commits.len() as int) == members(
            others,
            config,
            key,
            others.len() as int,
        ));
    }
    assert forall|key: (Seq<char>, Seq<char>, Seq<char>)|
        #![trigger group_lines(commits, config, key, commits.len() as int)]
        group_lines(commits, config, key, commits.len() as int) == group_lines(
            others,
            config,
            key,
            others.len() as int,
        ) by {
        lemma_lines_of_members(commits, config, key, commits.len() as int);
        lemma_lines_of_members(others, config, key, others.len() as int);
        assert(members(commits, config, key, commits.len() as int) == members(
            others,
            config,
            key,
            others.len() as int,
        ));
    }
    assert forall|key: (Seq<char>, Seq<char>, Seq<char>)|
        #![trigger member_path(commits, config, key)]
        member_path(commits, config, key) == member_path(others, config, key) by {
        lemma_member_path(commits, config, key);
        lemma_member_path(others, config, key);
        assert(members(commits, config, key, commits.len() as int) == members(
            others,
            config,
            key,
            others.len() as int,
        ));
    }
    law_rendering_is_order_stable(first, second, commits, others, config, verbose);
}

} // verus!
