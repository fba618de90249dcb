use git_bluff::normalize::{clean_commit_line, clean_message};
use git_bluff::text::{chars_of, find_in, is_space_char, rank_chars, strip_slashes_len, trim_bounds, Rank};

fn chars(s: &str) -> Vec<char> {
    s.chars().collect()
}

#[test]
fn strips_recognized_tag() {
    assert_eq!(clean_commit_line("feat: add login"), Some("add login".to_string()));
}

#[test]
fn tag_is_case_insensitive() {
    assert_eq!(clean_commit_line("Refactor: cleanup"), Some("cleanup".to_string()));
    assert_eq!(clean_commit_line("FIX:done"), Some("done".to_string()));
}

#[test]
fn keeps_line_without_tag() {
    assert_eq!(clean_commit_line("update readme"), Some("update readme".to_string()));
}

#[test]
fn keeps_line_with_unknown_tag() {
    assert_eq!(clean_commit_line("wip: half done"), Some("wip: half done".to_string()));
    assert_eq!(clean_commit_line("feat(ui): button"), Some("feat(ui): button".to_string()));
}

#[test]
fn empty_and_blank_lines_yield_nothing() {
    assert_eq!(clean_commit_line(""), None);
    assert_eq!(clean_commit_line("   \t "), None);
    assert_eq!(clean_commit_line("\u{3000}\u{a0}"), None);
}

#[test]
fn every_tag_is_recognized() {
    let tags = [
        "feat", "fix", "build", "chore", "ci", "docs", "perf", "refactor", "style", "test",
        "revert",
    ];
    for tag in tags {
        let line = format!("{}: body", tag);
        assert_eq!(clean_commit_line(&line), Some("body".to_string()));
    }
}

#[test]
fn tag_with_spaces_around_it() {
    assert_eq!(clean_commit_line("  docs :  the guide  "), Some("the guide".to_string()));
}

#[test]
fn tag_without_body_yields_nothing() {
    assert_eq!(clean_commit_line("fix:"), None);
    assert_eq!(clean_commit_line("fix:   "), None);
}

#[test]
fn only_first_colon_splits() {
    assert_eq!(clean_commit_line("fix: a: b"), Some("a: b".to_string()));
    assert_eq!(clean_commit_line("note: fix: b"), Some("note: fix: b".to_string()));
}

#[test]
fn trailer_is_cut_off() {
    assert_eq!(
        clean_commit_line("import done git-svn-id: https://svn.example/trunk@42 abc"),
        Some("import done".to_string())
    );
    assert_eq!(clean_commit_line("git-svn-id: https://svn.example/trunk@42"), None);
    assert_eq!(
        clean_commit_line("feat: x git-svn-id: one git-svn-id: two"),
        Some("x".to_string())
    );
}

#[test]
fn trailer_text_never_shows() {
    let tails = ["", " fix: hidden", "feat: y", "\t::"];
    for tail in tails {
        let line = format!("chore: keep  git-svn-id:{}", tail);
        assert_eq!(clean_commit_line(&line), Some("keep".to_string()));
    }
}

#[test]
fn message_is_cleaned_line_by_line() {
    let lines = clean_message("feat: one\n\n  two  \r\nfix:\ngit-svn-id: x\nthree");
    assert_eq!(lines, vec!["one".to_string(), "two".to_string(), "three".to_string()]);
    assert!(clean_message("").is_empty());
    assert!(clean_message("\n\n").is_empty());
    assert_eq!(clean_message("last\n"), vec!["last".to_string()]);
}

#[test]
fn chars_and_search() {
    assert_eq!(chars_of("héllo"), chars("héllo"));
    let hay = chars("abcabc");
    assert_eq!(find_in(&hay, 0, 6, &chars("bc")), Some(1));
    assert_eq!(find_in(&hay, 2, 6, &chars("bc")), Some(4));
    assert_eq!(find_in(&hay, 0, 5, &chars("cab")), Some(2));
    assert_eq!(find_in(&hay, 0, 6, &chars("cb")), None);
    assert_eq!(find_in(&hay, 3, 3, &chars("")), Some(3));
    assert_eq!(find_in(&hay, 0, 2, &chars("abc")), None);
}

#[test]
fn trimming_bounds() {
    let v = chars("  ab c \n");
    assert_eq!(trim_bounds(&v, 0, v.len()), (2, 6));
    assert_eq!(trim_bounds(&v, 4, 5), (5, 5));
    let blank = chars(" \t ");
    let (a, b) = trim_bounds(&blank, 0, 3);
    assert_eq!(a, b);
}

#[test]
fn ranking_of_strings() {
    assert_eq!(rank_chars(&chars("a"), &chars("b")), Rank::Before);
    assert_eq!(rank_chars(&chars("b"), &chars("a")), Rank::After);
    assert_eq!(rank_chars(&chars("ab"), &chars("ab")), Rank::Same);
    assert_eq!(rank_chars(&chars("ab"), &chars("abc")), Rank::Before);
    assert_eq!(rank_chars(&chars(""), &chars("")), Rank::Same);
    assert_eq!(rank_chars(&chars("Z"), &chars("a")), Rank::Before);
    assert_eq!(rank_chars(&chars("é"), &chars("z")), Rank::After);
}

#[test]
fn whitespace_is_what_std_calls_whitespace() {
    let mut code: u32 = 0;
    while code <= 0x10FFFF {
        if let Some(c) = char::from_u32(code) {
            assert_eq!(is_space_char(c), c.is_whitespace(), "U+{:04X}", code);
        }
        code += 1;
    }
}

#[test]
fn cleaning_trims_as_std_does() {
    let lines = ["\u{2003}wide\u{2003}", "\u{85}next\u{85}", "\u{200b}zero\u{200b}", "\u{feff}bom"];
    for line in lines {
        assert_eq!(clean_commit_line(line), Some(line.trim().to_string()));
    }
}

#[test]
fn trailing_slashes_are_stripped() {
    assert_eq!(strip_slashes_len(&chars("/a/b///")), 4);
    assert_eq!(strip_slashes_len(&chars("/a/b")), 4);
    assert_eq!(strip_slashes_len(&chars("///")), 0);
    assert_eq!(strip_slashes_len(&chars("")), 0);
}
