use git_bluff::config::{Config, Project, Repository};

fn repo(alias: &str, path: &str) -> Repository {
    Repository { alias: alias.to_string(), repo_path: path.to_string() }
}

fn project(name: &str, code: &str, repositories: Vec<Repository>) -> Project {
    Project { project_name: name.to_string(), project_code: code.to_string(), repositories }
}

fn triple(a: &str, b: &str, c: &str) -> Option<(String, String, String)> {
    Some((a.to_string(), b.to_string(), c.to_string()))
}

fn sample() -> Config {
    Config {
        projects: vec![
            project("Alpha", "ALP", vec![repo("core", "/work/alpha-core"), repo("ui", "alpha-ui")]),
            project("Beta", "BET", vec![repo("svc", "/work/beta"), repo("late", "alpha-ui")]),
        ],
    }
}

#[test]
fn path_holding_the_fragment_matches() {
    assert_eq!(sample().find_matching_repo("/home/me/alpha-ui"), triple("ALP", "Alpha", "ui"));
    assert_eq!(sample().find_matching_repo("/work/beta/"), triple("BET", "Beta", "svc"));
}

#[test]
fn fragment_holding_the_path_matches() {
    assert_eq!(sample().find_matching_repo("alpha-core"), triple("ALP", "Alpha", "core"));
    assert_eq!(sample().find_matching_repo("work/beta///"), triple("BET", "Beta", "svc"));
}

#[test]
fn first_match_in_declaration_order_wins() {
    let config = Config {
        projects: vec![
            project("One", "ONE", vec![repo("a", "/x/none"), repo("b", "/x/repo")]),
            project("Two", "TWO", vec![repo("c", "/x/repo"), repo("d", "repo")]),
        ],
    };
    assert_eq!(config.find_matching_repo("/x/repo"), triple("ONE", "One", "b"));
    assert_eq!(config.find_matching_repo("/y/repo"), triple("TWO", "Two", "d"));
}

#[test]
fn no_entry_matches() {
    assert_eq!(sample().find_matching_repo("/tmp/other"), None);
    assert_eq!(Config { projects: vec![] }.find_matching_repo("/tmp/other"), None);
    let hollow = Config { projects: vec![project("Empty", "E", vec![])] };
    assert_eq!(hollow.find_matching_repo("/tmp/other"), None);
}

#[test]
fn empty_fragment_matches_every_path() {
    let config = Config { projects: vec![project("Any", "ANY", vec![repo("all", "")])] };
    assert_eq!(config.find_matching_repo("/tmp/other"), triple("ANY", "Any", "all"));
}
