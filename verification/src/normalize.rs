//! Cleaning of commit messages, line by line: a tool-generated trailer is cut
//! off, and a conventional-commit type tag in front of the subject is removed.

use crate::text::{
    chars_of, contains, find_in, first_index, lemma_find_from, lemma_part_holds_no_more,
    lemma_trimmed_is_part, occurs_at, trim_bounds, trimmed,
};
use vstd::prelude::*;
use vstd::string::*;

verus! {

/// The marker that starts a tool-generated trailer.
pub open spec fn marker() -> Seq<char> {
    seq!['g', 'i', 't', '-', 's', 'v', 'n', '-', 'i', 'd', ':']
}

/// The recognized type tags, in lower case.
pub open spec fn type_tags() -> Seq<Seq<char>> {
    seq![
        seq!['f', 'e', 'a', 't'],
        seq!['f', 'i', 'x'],
        seq!['b', 'u', 'i', 'l', 'd'],
        seq!['c', 'h', 'o', 'r', 'e'],
        seq!['c', 'i'],
        seq!['d', 'o', 'c', 's'],
        seq!['p', 'e', 'r', 'f'],
        seq!['r', 'e', 'f', 'a', 'c', 't', 'o', 'r'],
        seq!['s', 't', 'y', 'l', 'e'],
        seq!['t', 'e', 's', 't'],
        seq!['r', 'e', 'v', 'e', 'r', 't'],
    ]
}

/// The code point of `c`, with the letters `A` to `Z` folded to lower case.
pub open spec fn lower_code(c: char) -> u32 {
    let n = c as u32;
    if 65 <= n <= 90 {
        (n + 32) as u32
    } else {
        n
    }
}

/// `word` is `tag` up to the case of its ASCII letters.
pub open spec fn same_folded(word: Seq<char>, tag: Seq<char>) -> bool {
    word.len() == tag.len() && forall|i: int|
        0 <= i < word.len() ==> lower_code(#[trigger] word[i]) == tag[i] as u32
}

/// `word`, trimmed, is one of the recognized type tags, in any case.
pub open spec fn is_type_tag(word: Seq<char>) -> bool {
    exists|t: int| 0 <= t < type_tags().len() && same_folded(trimmed(word), #[trigger] type_tags()[t])
}

/// The line up to the first trailer marker, or all of it where it has none.
pub open spec fn before_marker(line: Seq<char>) -> Seq<char> {
    match first_index(line, marker()) {
        Some(p) => line.subrange(0, p),
        None => line,
    }
}

/// `base` without a leading `<tag>:`, where the tag is recognized.
pub open spec fn strip_type_tag(base: Seq<char>) -> Seq<char> {
    match first_index(base, seq![':']) {
        Some(q) => if is_type_tag(base.subrange(0, q)) {
            trimmed(base.subrange(q + 1, base.len() as int))
        } else {
            base
        },
        None => base,
    }
}

/// What one line of a message contributes to a report, if anything.
pub open spec fn clean_line(line: Seq<char>) -> Option<Seq<char>> {
    let base = trimmed(before_marker(line));
    if base.len() == 0 {
        None
    } else {
        let body = strip_type_tag(base);
        if body.len() == 0 {
            None
        } else {
            Some(body)
        }
    }
}

/// No sequence, or the one given.
pub open spec fn opt_seq(o: Option<Seq<char>>) -> Seq<Seq<char>> {
    match o {
        Some(s) => seq![s],
        None => Seq::empty(),
    }
}

/// The cleaned lines of `msg` from the line that starts at `start`, of which
/// the characters before `pos` hold no line feed.
pub open spec fn cleaned_from(msg: Seq<char>, start: int, pos: int) -> Seq<Seq<char>>
    decreases msg.len() - pos,
{
    if pos >= msg.len() || start < 0 || start > pos {
        if 0 <= start <= msg.len() {
            opt_seq(clean_line(msg.subrange(start, msg.len() as int)))
        } else {
            Seq::empty()
        }
    } else if msg[pos] == '\n' {
        opt_seq(clean_line(msg.subrange(start, pos))) + cleaned_from(msg, pos + 1, pos + 1)
    } else {
        cleaned_from(msg, start, pos + 1)
    }
}

/// The cleaned lines of a message: it is split at line feeds, each line is
/// cleaned by itself, and lines that clean to nothing are left out.
pub open spec fn cleaned_lines(msg: Seq<char>) -> Seq<Seq<char>> {
    cleaned_from(msg, 0, 0)
}

/// The views of a vector of strings.
pub open spec fn views(v: Seq<String>) -> Seq<Seq<char>> {
    Seq::new(v.len(), |i: int| v[i]@)
}

fn marker_chars() -> (v: Vec<char>)
    ensures
        v@ == marker(),
{
    let v: Vec<char> = vec!['g', 'i', 't', '-', 's', 'v', 'n', '-', 'i', 'd', ':'];
    assert(v@ =~= marker());
    v
}

fn tag_table() -> (v: Vec<Vec<char>>)
    ensures
        v@.len() == type_tags().len(),
        forall|t: int| 0 <= t < v@.len() ==> (#[trigger] v@[t])@ == type_tags()[t],
{
    let v: Vec<Vec<char>> = vec![
        vec!['f', 'e', 'a', 't'],
        vec!['f', 'i', 'x'],
        vec!['b', 'u', 'i', 'l', 'd'],
        vec!['c', 'h', 'o', 'r', 'e'],
        vec!['c', 'i'],
        vec!['d', 'o', 'c', 's'],
        vec!['p', 'e', 'r', 'f'],
        vec!['r', 'e', 'f', 'a', 'c', 't', 'o', 'r'],
        vec!['s', 't', 'y', 'l', 'e'],
        vec!['t', 'e', 's', 't'],
        vec!['r', 'e', 'v', 'e', 'r', 't'],
    ];
    assert forall|t: int| 0 <= t < v@.len() implies (#[trigger] v@[t])@ == type_tags()[t] by {
        assert(v@[t]@ =~= type_tags()[t]);
    }
    v
}

fn folded_code(c: char) -> (n: u32)
    ensures
        n == lower_code(c),
{
    let n: u32 = c as u32;
    if 65 <= n && n <= 90 {
        n + 32
    } else {
        n
    }
}

fn same_folded_exec(v: &Vec<char>, lo: usize, hi: usize, tag: &Vec<char>) -> (r: bool)
    requires
        lo <= hi <= v@.len(),
    ensures
        r == same_folded(v@.subrange(lo as int, hi as int), tag@),
{
    let ghost w = v@.subrange(lo as int, hi as int);
    if hi - lo != tag.len() {
        return false;
    }
    let mut k: usize = lo;
    while k < hi
        invariant
            lo <= k <= hi <= v@.len(),
            hi - lo == tag@.len(),
            w == v@.subrange(lo as int, hi as int),
            forall|i: int| 0 <= i < k - lo ==> lower_code(#[trigger] w[i]) == tag@[i] as u32,
        decreases hi - k,
    {
        if folded_code(v[k]) != tag[k - lo] as u32 {
            assert(w[k - lo] == v@[k as int]);
            return false;
        }
        assert(w[k - lo] == v@[k as int]);
        k += 1;
    }
    true
}

/// Whether `v[lo..hi]`, trimmed, is a recognized type tag in any case.
fn is_tag(v: &Vec<char>, lo: usize, hi: usize) -> (r: bool)
    requires
        lo <= hi <= v@.len(),
    ensures
        r == is_type_tag(v@.subrange(lo as int, hi as int)),
{
    let (a, b) = trim_bounds(v, lo, hi);
    let tags = tag_table();
    let ghost w = trimmed(v@.subrange(lo as int, hi as int));
    let mut t: usize = 0;
    while t < tags.len()
        invariant
            t <= tags@.len(),
            tags@.len() == type_tags().len(),
            forall|u: int| 0 <= u < tags@.len() ==> (#[trigger] tags@[u])@ == type_tags()[u],
            lo <= a <= b <= hi <= v@.len(),
            w == v@.subrange(a as int, b as int),
            w == trimmed(v@.subrange(lo as int, hi as int)),
            forall|u: int| 0 <= u < t ==> !same_folded(w, #[trigger] type_tags()[u]),
        decreases tags@.len() - t,
    {
        if same_folded_exec(v, a, b, &tags[t]) {
            assert(same_folded(w, type_tags()[t as int]));
            return true;
        }
        t += 1;
    }
    false
}

/// Cleans one line of a commit message.
///
/// The line is cut at the first trailer marker and trimmed. Where a
/// recognized type tag and a colon stand in front, only what follows the colon
/// is kept, trimmed. `None` says that nothing is left.
pub fn clean_commit_line(line: &str) -> (r: Option<String>)
    ensures
        match r {
            Some(s) => clean_line(line@) == Some(s@),
            None => clean_line(line@) is None,
        },
{
    let v = chars_of(line);
    let m = marker_chars();
    let n: usize = v.len();
    assert(v@.subrange(0, n as int) =~= v@);
    let cut: usize = match find_in(&v, 0, n, &m) {
        Some(p) => p,
        None => n,
    };
    assert(v@.subrange(0, cut as int) == before_marker(line@));
    let (a, b) = trim_bounds(&v, 0, cut);
    if a == b {
        return None;
    }
    let ghost base = v@.subrange(a as int, b as int);
    let colon: Vec<char> = vec![':'];
    assert(colon@ =~= seq![':']);
    let mut c: usize = a;
    let mut d: usize = b;
    match find_in(&v, a, b, &colon) {
        Some(q) => {
            assert(base.subrange(0, q - a) =~= v@.subrange(a as int, q as int));
            assert(base.subrange(q - a + 1, base.len() as int) =~= v@.subrange(q + 1, b as int));
            if is_tag(&v, a, q) {
                let (c2, d2) = trim_bounds(&v, q + 1, b);
                c = c2;
                d = d2;
            }
        },
        None => {},
    }
    assert(v@.subrange(c as int, d as int) == strip_type_tag(base));
    if c == d {
        None
    } else {
        Some(String::from_str(line.substring_char(c, d)))
    }
}

/// The cleaned lines of a whole message, in order.
pub fn clean_message(msg: &str) -> (out: Vec<String>)
    ensures
        views(out@) == cleaned_lines(msg@),
{
    let n: usize = msg.unicode_len();
    let v = chars_of(msg);
    let mut out: Vec<String> = Vec::new();
    let mut start: usize = 0;
    let mut pos: usize = 0;
    assert(views(out@) =~= Seq::<Seq<char>>::empty());
    while pos < n
        invariant
            n == msg@.len(),
            v@ == msg@,
            start <= pos <= n,
            cleaned_lines(msg@) == views(out@) + cleaned_from(msg@, start as int, pos as int),
        decreases n - pos,
    {
        if v[pos] == '\n' {
            let ghost before = views(out@);
            let ghost rest = cleaned_from(msg@, pos + 1, pos + 1);
            let ghost item = opt_seq(clean_line(msg@.subrange(start as int, pos as int)));
            match clean_commit_line(msg.substring_char(start, pos)) {
                Some(s) => {
                    out.push(s);
                },
                None => {},
            }
            assert(views(out@) =~= before + item);
            assert(before + (item + rest) =~= (before + item) + rest);
            start = pos + 1;
        }
        pos += 1;
    }
    let ghost before = views(out@);
    match clean_commit_line(msg.substring_char(start, n)) {
        Some(s) => {
            out.push(s);
        },
        None => {},
    }
    assert(views(out@) =~= before + opt_seq(clean_line(msg@.subrange(start as int, n as int))));
    out
}

/// Nothing that follows the first trailer marker of a line has any effect on
/// what the line cleans to: the line and its part before the marker clean to
/// the same, and that part holds no marker.
pub proof fn law_marker_cuts(line: Seq<char>, p: int)
    requires
        first_index(line, marker()) == Some(p),
    ensures
        !contains(line.subrange(0, p), marker()),
        clean_line(line) == clean_line(line.subrange(0, p)),
{
    let head = line.subrange(0, p);
    lemma_find_from(line, marker(), 0);
    lemma_find_from(head, marker(), 0);
    match first_index(head, marker()) {
        Some(k) => {
            assert(head.subrange(k, k + marker().len()) =~= line.subrange(k, k + marker().len()));
            assert(occurs_at(line, marker(), k));
        },
        None => {},
    }
}

/// What a line cleans to never holds the trailer marker.
pub proof fn law_no_marker_in_output(line: Seq<char>)
    ensures
        match clean_line(line) {
            Some(out) => !contains(out, marker()),
            None => true,
        },
{
    let before = before_marker(line);
    match first_index(line, marker()) {
        Some(p) => {
            law_marker_cuts(line, p);
        },
        None => {},
    }
    let (a, b) = lemma_trimmed_is_part(before);
    lemma_part_holds_no_more(before, marker(), a, b);
    let base = trimmed(before);
    match first_index(base, seq![':']) {
        Some(q) => {
            lemma_find_from(base, seq![':'], 0);
            let rest = base.subrange(q + 1, base.len() as int);
            lemma_part_holds_no_more(base, marker(), q + 1, base.len() as int);
            let (c, d) = lemma_trimmed_is_part(rest);
            lemma_part_holds_no_more(rest, marker(), c, d);
        },
        None => {},
    }
}

} // verus!
