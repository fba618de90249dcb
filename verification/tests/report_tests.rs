use git_bluff::commit::CommitInfo;
use git_bluff::config::{Config, Project, Repository};
use git_bluff::git_repo::{find_git_repositories, is_git_repository, Visited};
use git_bluff::order::place;
use git_bluff::path::{rank_parts, split_path};
use git_bluff::text::Rank;
use git_bluff::report::{
    generate_report, generate_report_with_config, group_order, key_of, push_decimal,
};

const RULE: &str = "=======================================================================\n";

fn commit(path: &str, message: &str) -> CommitInfo {
    CommitInfo {
        id: "id".to_string(),
        author_name: "Ann".to_string(),
        author_email: "ann@example.org".to_string(),
        message: message.to_string(),
        timestamp: 0,
        repository: "repo".to_string(),
        path: path.to_string(),
    }
}

fn repo(alias: &str, path: &str) -> Repository {
    Repository { alias: alias.to_string(), repo_path: path.to_string() }
}

fn sample_config() -> Config {
    Config {
        projects: vec![
            Project {
                project_name: "Alpha".to_string(),
                project_code: "ALP".to_string(),
                repositories: vec![repo("core", "/work/alpha-core"), repo("ui", "alpha-ui")],
            },
            Project {
                project_name: "Beta".to_string(),
                project_code: "BET".to_string(),
                repositories: vec![repo("svc", "/work/beta")],
            },
        ],
    }
}

fn sample_commits() -> Vec<CommitInfo> {
    vec![
        commit("/work/beta", "fix: beta one"),
        commit("/work/alpha-ui", "feat: ui one\n\nmore text"),
        commit("/work/alpha-core", "core change"),
        commit("/work/alpha-ui", "chore: ui two"),
        commit("/tmp/other", "misc"),
    ]
}

#[test]
fn grouped_report_is_ordered_by_key() {
    let report = generate_report_with_config(&sample_commits(), &sample_config(), false);
    let expected = format!(
        "{}{}{}{}{}{}",
        "\nAlpha ALP\n\ncore\n1. core change\n",
        "\nui\n1. ui one\n2. more text\n3. ui two\n",
        RULE,
        "\nBeta BET\n\nsvc\n1. beta one\n",
        RULE,
        "\nUnknown UNKNOWN\n\n/tmp/other\n1. misc\n"
    );
    assert_eq!(report.summary, expected);
}

#[test]
fn verbose_report_names_the_path() {
    let report = generate_report_with_config(&sample_commits(), &sample_config(), true);
    let expected = format!(
        "{}{}{}{}{}{}",
        "\nAlpha ALP\n\nRepository: core (/work/alpha-core)\n1. core change\n",
        "\nRepository: ui (/work/alpha-ui)\n1. ui one\n2. more text\n3. ui two\n",
        RULE,
        "\nBeta BET\n\nRepository: svc (/work/beta)\n1. beta one\n",
        RULE,
        "\nUnknown UNKNOWN\n\nRepository: /tmp/other (/tmp/other)\n1. misc\n"
    );
    assert_eq!(report.summary, expected);
}

#[test]
fn grouped_report_does_not_depend_on_arrival_order() {
    let config = sample_config();
    let first = generate_report_with_config(&sample_commits(), &config, false).summary;
    let again = generate_report_with_config(&sample_commits(), &config, false).summary;
    assert_eq!(first, again);
    let all = sample_commits();
    let shuffled = vec![
        all[4].clone(),
        all[1].clone(),
        all[2].clone(),
        all[0].clone(),
        all[3].clone(),
    ];
    assert_eq!(generate_report_with_config(&shuffled, &config, false).summary, first);
}

#[test]
fn unmapped_repositories_are_grouped_by_their_path() {
    let commits = vec![commit("/z", "one"), commit("/a", "two"), commit("/z", "three")];
    let report = generate_report_with_config(&commits, &Config { projects: vec![] }, false);
    assert_eq!(report.summary, "\nUnknown UNKNOWN\n\n/a\n1. two\n\n/z\n1. one\n2. three\n");
    let order = group_order(&commits, &Config { projects: vec![] });
    let aliases: Vec<String> = order.into_iter().map(|k| k.alias).collect();
    assert_eq!(aliases, vec!["/a".to_string(), "/z".to_string()]);
}

#[test]
fn numbering_goes_past_nine_and_starts_anew() {
    let long = "a\nb\nc\nd\ne\nf\ng\nh\ni\nj\nk";
    let commits = vec![commit("/work/beta", long), commit("/work/alpha-core", "x")];
    let report = generate_report_with_config(&commits, &sample_config(), false);
    assert!(report.summary.contains("\n9. i\n10. j\n11. k\n"));
    assert!(report.summary.starts_with("\nAlpha ALP\n\ncore\n1. x\n"));
}

#[test]
fn commit_without_lines_still_opens_its_group() {
    let commits = vec![commit("/work/beta", "fix:\n\n")];
    let report = generate_report_with_config(&commits, &sample_config(), false);
    assert_eq!(report.summary, "\nBeta BET\n\nsvc\n");
}

#[test]
fn empty_reports() {
    assert_eq!(generate_report(&[]).summary, "");
    assert_eq!(generate_report_with_config(&[], &sample_config(), true).summary, "");
}

#[test]
fn plain_report_groups_by_first_seen_path() {
    let commits = vec![
        commit("/b", "feat: one\nbody"),
        commit("/a", "two"),
        commit("/b", "fix: three"),
        commit("/a", "   "),
    ];
    let report = generate_report(&commits);
    assert_eq!(
        report.summary,
        "\nRepository Path: /b\none\nbody\nthree\n\nRepository Path: /a\ntwo\n"
    );
}

#[test]
fn decimal_numbers() {
    let mut out = String::from("n=");
    push_decimal(&mut out, 0);
    out.push(',');
    push_decimal(&mut out, 7);
    out.push(',');
    push_decimal(&mut out, 10);
    out.push(',');
    push_decimal(&mut out, 1905);
    out.push(',');
    push_decimal(&mut out, u128::MAX);
    assert_eq!(out, "n=0,7,10,1905,340282366920938463463374607431768211455");
}

fn visited(path: &str, level: usize, is_dir: bool, git: bool, head: bool) -> Visited {
    Visited { path: path.to_string(), level, is_dir, has_git_dir: git, has_head: head }
}

#[test]
fn repository_needs_git_dir_and_head() {
    assert!(is_git_repository(&visited("/r", 0, true, true, true)));
    assert!(!is_git_repository(&visited("/r", 0, true, true, false)));
    assert!(!is_git_repository(&visited("/r", 0, true, false, true)));
    assert!(!is_git_repository(&visited("/r", 0, true, false, false)));
}

#[test]
fn repositories_come_sorted_and_once() {
    let entries = vec![
        visited("/w", 0, true, false, false),
        visited("/w/zeta", 1, true, true, true),
        visited("/w/alpha", 1, true, true, true),
        visited("/w/file", 1, false, true, true),
        visited("/w/zeta", 1, true, true, true),
        visited("/w/nohead", 1, true, true, false),
        visited("/w/mid", 1, true, true, true),
        visited("/w/alpha", 1, true, true, true),
    ];
    assert_eq!(
        find_git_repositories(&entries, 1),
        vec!["/w/alpha".to_string(), "/w/mid".to_string(), "/w/zeta".to_string()]
    );
}

#[test]
fn depth_bounds_the_search() {
    let entries = vec![
        visited("/w", 0, true, true, true),
        visited("/w/a", 1, true, true, true),
        visited("/w/a/b", 2, true, true, true),
        visited("/w/a/b/c", 3, true, true, true),
    ];
    assert_eq!(find_git_repositories(&entries, 0), vec!["/w".to_string()]);
    assert_eq!(find_git_repositories(&entries, 2).len(), 3);
    assert_eq!(find_git_repositories(&entries, 9).len(), 4);
    assert!(find_git_repositories(&vec![], 3).is_empty());
}

#[test]
fn placing_keeps_the_vector_ascending() {
    let mut v: Vec<String> = Vec::new();
    assert_eq!(place(&mut v, "m".to_string()), (0, true));
    assert_eq!(place(&mut v, "z".to_string()), (1, true));
    assert_eq!(place(&mut v, "a".to_string()), (0, true));
    assert_eq!(place(&mut v, "n".to_string()), (2, true));
    assert_eq!(place(&mut v, "m".to_string()), (1, false));
    assert_eq!(v, vec!["a".to_string(), "m".to_string(), "n".to_string(), "z".to_string()]);
}

#[test]
fn key_of_a_commit() {
    let key = key_of(&commit("/work/alpha-ui", "x"), &sample_config());
    assert_eq!((key.code.as_str(), key.name.as_str(), key.alias.as_str()), ("ALP", "Alpha", "ui"));
    let key = key_of(&commit("/tmp/other", "x"), &sample_config());
    assert_eq!(
        (key.code.as_str(), key.name.as_str(), key.alias.as_str()),
        ("UNKNOWN", "Unknown", "/tmp/other")
    );
}

#[test]
fn keys_are_ordered_by_code_then_name_then_alias() {
    let config = Config {
        projects: vec![
            Project {
                project_name: "Zed".to_string(),
                project_code: "A".to_string(),
                repositories: vec![repo("one", "/r/1")],
            },
            Project {
                project_name: "Abc".to_string(),
                project_code: "B".to_string(),
                repositories: vec![repo("two", "/r/2")],
            },
            Project {
                project_name: "Abc".to_string(),
                project_code: "A".to_string(),
                repositories: vec![repo("zz", "/r/3"), repo("aa", "/r/4")],
            },
        ],
    };
    let commits = vec![commit("/r/1", "1"), commit("/r/2", "2"), commit("/r/3", "3"), commit("/r/4", "4")];
    let order = group_order(&commits, &config);
    let keys: Vec<(String, String, String)> =
        order.into_iter().map(|k| (k.code, k.name, k.alias)).collect();
    let expected: Vec<(String, String, String)> = [
        ("A", "Abc", "aa"),
        ("A", "Abc", "zz"),
        ("A", "Zed", "one"),
        ("B", "Abc", "two"),
    ]
    .iter()
    .map(|k| (k.0.to_string(), k.1.to_string(), k.2.to_string()))
    .collect();
    assert_eq!(keys, expected);
    let report = generate_report_with_config(&commits, &config, false);
    assert_eq!(
        report.summary,
        format!(
            "{}{}{}{}{}",
            "\nAbc A\n\naa\n1. 4\n",
            "\nzz\n1. 3\n",
            "\none\n1. 1\n",
            RULE,
            "\nAbc B\n\ntwo\n1. 2\n"
        )
    );
}

#[test]
fn repositories_are_ordered_as_paths() {
    let entries = vec![
        visited("/w/a-b", 1, true, true, true),
        visited("/w/a/b", 2, true, true, true),
        visited("/w/a b", 1, true, true, true),
        visited("/w/a", 1, true, true, true),
        visited("/w/a.b", 1, true, true, true),
    ];
    let found = find_git_repositories(&entries, 2);
    let expected: Vec<String> =
        ["/w/a", "/w/a/b", "/w/a b", "/w/a-b", "/w/a.b"].iter().map(|s| s.to_string()).collect();
    assert_eq!(found, expected);
    let mut as_paths: Vec<std::path::PathBuf> =
        entries.iter().map(|e| std::path::PathBuf::from(&e.path)).collect();
    as_paths.sort();
    let shown: Vec<String> = as_paths.iter().map(|p| p.display().to_string()).collect();
    assert_eq!(found, shown);
}

#[test]
fn spellings_of_one_path_come_once() {
    let entries = vec![
        visited("r/a", 1, true, true, true),
        visited("r/a/", 1, true, true, true),
        visited("r//a/.", 1, true, true, true),
        visited("./r/a", 1, true, true, true),
    ];
    assert_eq!(find_git_repositories(&entries, 1), vec!["./r/a".to_string(), "r/a".to_string()]);
}

fn rank_as_std(a: &str, b: &str) -> Rank {
    let (x, y) = (std::path::Path::new(a), std::path::Path::new(b));
    if x < y {
        Rank::Before
    } else if x == y {
        Rank::Same
    } else {
        Rank::After
    }
}

#[test]
fn paths_compare_as_std_compares_them() {
    let samples = [
        "", "/", ".", "..", "a", "/a", "./a", "../a", "a/", "a//b", "a/./b", "a/b/.", "a/../b",
        "a-b", "a/b", "a b", "/a/b", "//a", "/./a", "a.", ".a", "...", "a/..", "/..", "./.",
        "é/z", "z", "a/b/c", "a/b-c",
    ];
    for a in samples {
        for b in samples {
            let x = split_path(&a.chars().collect());
            let y = split_path(&b.chars().collect());
            assert_eq!(rank_parts(&x, &y), rank_as_std(a, b), "{:?} against {:?}", a, b);
        }
    }
}

#[test]
fn components_of_a_path() {
    let parts = split_path(&"/w//./a/../b.c/".chars().collect());
    let shown: Vec<(u8, String)> =
        parts.iter().map(|p| (p.kind, p.text.iter().collect())).collect();
    let expected: Vec<(u8, String)> =
        vec![(1, "".into()), (4, "w".into()), (4, "a".into()), (3, "".into()), (4, "b.c".into())];
    assert_eq!(shown, expected);
    let parts = split_path(&"./x".chars().collect());
    let shown: Vec<(u8, String)> =
        parts.iter().map(|p| (p.kind, p.text.iter().collect())).collect();
    assert_eq!(shown, vec![(2, "".to_string()), (4, "x".to_string())]);
    assert!(split_path(&Vec::new()).is_empty());
}
