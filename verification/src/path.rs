//! Paths as sequences of components, and the order of paths: component by
//! component, as `std::path::Path` orders them on a system that separates
//! with `/`.

use crate::order::Ranked;
use crate::text::{lemma_lt_irreflexive, lemma_lt_transitive, rank_chars, seq_lt, Rank};
use vstd::prelude::*;

verus! {

/// The kind of the root component, which a path that starts with `/` has.
pub const ROOT: u8 = 1;

/// The kind of the component `.` in front of a relative path.
pub const CURRENT: u8 = 2;

/// The kind of the component `..`.
pub const PARENT: u8 = 3;

/// The kind of a named component.
pub const NORMAL: u8 = 4;

/// One component of a path. Only a named one has a text.
#[derive(Debug)]
pub struct Part {
    pub kind: u8,
    pub text: Vec<char>,
}

impl View for Part {
    type V = (int, Seq<char>);

    open spec fn view(&self) -> (int, Seq<char>) {
        (self.kind as int, self.text@)
    }
}

/// The views of a sequence of components.
pub open spec fn part_views(parts: Seq<Part>) -> Seq<(int, Seq<char>)> {
    Seq::new(parts.len(), |i: int| parts[i]@)
}

/// The component that the piece between two separators stands for, if any:
/// an empty piece stands for none, `.` only in front of the path.
pub open spec fn part_of(piece: Seq<char>, leading: bool) -> Seq<(int, Seq<char>)> {
    if piece.len() == 0 {
        Seq::empty()
    } else if piece.len() == 1 && piece[0] == '.' {
        if leading {
            seq![(CURRENT as int, Seq::empty())]
        } else {
            Seq::empty()
        }
    } else if piece.len() == 2 && piece[0] == '.' && piece[1] == '.' {
        seq![(PARENT as int, Seq::empty())]
    } else {
        seq![(NORMAL as int, piece)]
    }
}

/// The components of `p` from the piece that starts at `start`, of which the
/// characters before `pos` hold no separator.
pub open spec fn parts_from(p: Seq<char>, start: int, pos: int) -> Seq<(int, Seq<char>)>
    decreases p.len() - pos,
{
    if pos >= p.len() || start < 0 || start > pos {
        if 0 <= start <= p.len() {
            part_of(p.subrange(start, p.len() as int), start == 0)
        } else {
            Seq::empty()
        }
    } else if p[pos] == '/' {
        part_of(p.subrange(start, pos), start == 0) + parts_from(p, pos + 1, pos + 1)
    } else {
        parts_from(p, start, pos + 1)
    }
}

/// The components of a path: the root where it starts with `/`, then what
/// its pieces between separators stand for.
pub open spec fn components(p: Seq<char>) -> Seq<(int, Seq<char>)> {
    (if p.len() > 0 && p[0] == '/' {
        seq![(ROOT as int, Seq::<char>::empty())]
    } else {
        Seq::empty()
    }) + parts_from(p, 0, 0)
}

/// The order of components: by kind, named ones by their text.
pub open spec fn part_lt(a: (int, Seq<char>), b: (int, Seq<char>)) -> bool {
    a.0 < b.0 || (a.0 == b.0 && seq_lt(a.1, b.1))
}

/// Strict lexicographic order of two sequences of components from index `i`
/// on.
pub open spec fn parts_lt_from(a: Seq<(int, Seq<char>)>, b: Seq<(int, Seq<char>)>, i: int) -> bool
    decreases a.len() - i,
{
    if i >= a.len() {
        i < b.len()
    } else if i >= b.len() {
        false
    } else if a[i] != b[i] {
        part_lt(a[i], b[i])
    } else {
        parts_lt_from(a, b, i + 1)
    }
}

/// Path `a` stands before path `b`: their components compare so.
pub open spec fn path_lt(a: Seq<char>, b: Seq<char>) -> bool {
    parts_lt_from(components(a), components(b), 0)
}

/// Two spellings of one path: they have the same components.
pub open spec fn same_path(a: Seq<char>, b: Seq<char>) -> bool {
    components(a) == components(b)
}

/// No sequence of components stands before itself.
pub proof fn lemma_parts_lt_irreflexive(a: Seq<(int, Seq<char>)>, i: int)
    requires
        0 <= i,
    ensures
        !parts_lt_from(a, a, i),
    decreases a.len() - i,
{
    if i < a.len() {
        lemma_parts_lt_irreflexive(a, i + 1);
    }
}

/// The order of sequences of components is transitive.
pub proof fn lemma_parts_lt_transitive(
    a: Seq<(int, Seq<char>)>,
    b: Seq<(int, Seq<char>)>,
    c: Seq<(int, Seq<char>)>,
    i: int,
)
    requires
        0 <= i,
        parts_lt_from(a, b, i),
        parts_lt_from(b, c, i),
    ensures
        parts_lt_from(a, c, i),
    decreases a.len() - i,
{
    if i < a.len() && i < b.len() && i < c.len() {
        if a[i] == b[i] && b[i] == c[i] {
            lemma_parts_lt_transitive(a, b, c, i + 1);
        } else if a[i] != b[i] && b[i] != c[i] {
            if a[i].0 == b[i].0 && b[i].0 == c[i].0 {
                lemma_lt_transitive(a[i].1, b[i].1, c[i].1, 0);
                lemma_lt_irreflexive(a[i].1, 0);
            }
        }
    }
}

fn piece_of(v: &Vec<char>, lo: usize, hi: usize) -> (t: Vec<char>)
    requires
        lo <= hi <= v@.len(),
    ensures
        t@ == v@.subrange(lo as int, hi as int),
{
    let mut t: Vec<char> = Vec::new();
    let mut k: usize = lo;
    while k < hi
        invariant
            lo <= k <= hi <= v@.len(),
            t@ == v@.subrange(lo as int, k as int),
        decreases hi - k,
    {
        t.push(v[k]);
        k += 1;
        assert(t@ =~= v@.subrange(lo as int, k as int));
    }
    t
}

fn push_part(out: &mut Vec<Part>, v: &Vec<char>, start: usize, pos: usize)
    requires
        start <= pos <= v@.len(),
    ensures
        part_views(final(out)@) == part_views(old(out)@) + part_of(
            v@.subrange(start as int, pos as int),
            start == 0,
        ),
{
    let ghost piece = v@.subrange(start as int, pos as int);
    let ghost before = part_views(out@);
    let len: usize = pos - start;
    if len == 0 {
        assert(part_views(out@) =~= before + part_of(piece, start == 0));
    } else if len == 1 && v[start] == '.' {
        assert(piece[0] == v@[start as int]);
        if start == 0 {
            out.push(Part { kind: CURRENT, text: Vec::new() });
        }
        assert(part_views(out@) =~= before + part_of(piece, start == 0));
    } else if len == 2 && v[start] == '.' && v[start + 1] == '.' {
        assert(piece[0] == v@[start as int] && piece[1] == v@[start + 1]);
        out.push(Part { kind: PARENT, text: Vec::new() });
        assert(part_views(out@) =~= before + part_of(piece, start == 0));
    } else {
        assert(piece[0] == v@[start as int]);
        assert(len >= 2 ==> piece[1] == v@[start + 1]);
        out.push(Part { kind: NORMAL, text: piece_of(v, start, pos) });
        assert(part_views(out@) =~= before + part_of(piece, start == 0));
    }
}

/// Splits a path into its components.
pub fn split_path(v: &Vec<char>) -> (out: Vec<Part>)
    ensures
        part_views(out@) == components(v@),
{
    let n: usize = v.len();
    let mut out: Vec<Part> = Vec::new();
    if n > 0 && v[0] == '/' {
        out.push(Part { kind: ROOT, text: Vec::new() });
    }
    assert(part_views(out@) + parts_from(v@, 0, 0) =~= components(v@));
    let mut start: usize = 0;
    let mut pos: usize = 0;
    while pos < n
        invariant
            n == v@.len(),
            start <= pos <= n,
            components(v@) == part_views(out@) + parts_from(v@, start as int, pos as int),
        decreases n - pos,
    {
        if v[pos] == '/' {
            let ghost before = part_views(out@);
            let ghost item = part_of(v@.subrange(start as int, pos as int), start == 0);
            let ghost rest = parts_from(v@, pos + 1, pos + 1);
            push_part(&mut out, v, start, pos);
            assert(before + (item + rest) =~= (before + item) + rest);
            start = pos + 1;
        }
        pos += 1;
    }
    push_part(&mut out, v, start, n);
    out
}

/// Three-way comparison of two components.
pub fn rank_part(x: &Part, y: &Part) -> (r: Rank)
    ensures
        r == Rank::Before <==> part_lt(x@, y@),
        r == Rank::Same <==> x@ == y@,
        r == Rank::After <==> part_lt(y@, x@),
{
    if x.kind < y.kind {
        Rank::Before
    } else if x.kind > y.kind {
        Rank::After
    } else {
        rank_chars(&x.text, &y.text)
    }
}

/// Three-way lexicographic comparison of two sequences of components.
pub fn rank_parts(a: &Vec<Part>, b: &Vec<Part>) -> (r: Rank)
    ensures
        r == Rank::Before <==> parts_lt_from(part_views(a@), part_views(b@), 0),
        r == Rank::Same <==> part_views(a@) == part_views(b@),
        r == Rank::After <==> parts_lt_from(part_views(b@), part_views(a@), 0),
{
    let ghost av = part_views(a@);
    let ghost bv = part_views(b@);
    let mut i: usize = 0;
    while i < a.len() && i < b.len()
        invariant
            i <= a@.len(),
            i <= b@.len(),
            av == part_views(a@),
            bv == part_views(b@),
            forall|j: int| 0 <= j < i ==> av[j] == bv[j],
            parts_lt_from(av, bv, 0) == parts_lt_from(av, bv, i as int),
            parts_lt_from(bv, av, 0) == parts_lt_from(bv, av, i as int),
        decreases a@.len() - i,
    {
        let r = rank_part(&a[i], &b[i]);
        assert(av[i as int] == a@[i as int]@ && bv[i as int] == b@[i as int]@);
        match r {
            Rank::Same => {},
            Rank::Before => {
                assert(av != bv);
                return Rank::Before;
            },
            Rank::After => {
                assert(av != bv);
                return Rank::After;
            },
        }
        i += 1;
    }
    if i < b.len() {
        assert(av.len() != bv.len());
        Rank::Before
    } else if i < a.len() {
        assert(av.len() != bv.len());
        Rank::After
    } else {
        assert(av =~= bv);
        Rank::Same
    }
}

/// A path as it is spelled, with its components.
#[derive(Debug)]
pub struct PathKey {
    pub text: String,
    pub parts: Vec<Part>,
}

impl PathKey {
    /// The components are those of the spelling.
    pub open spec fn wf(&self) -> bool {
        part_views(self.parts@) == components(self.text@)
    }
}

/// Paths are ordered by their components.
impl Ranked for PathKey {
    open spec fn before(&self, other: &Self) -> bool {
        parts_lt_from(part_views(self.parts@), part_views(other.parts@), 0)
    }

    open spec fn alike(&self, other: &Self) -> bool {
        part_views(self.parts@) == part_views(other.parts@)
    }

    fn rank(&self, other: &Self) -> (r: Rank) {
        rank_parts(&self.parts, &other.parts)
    }
}

} // verus!
