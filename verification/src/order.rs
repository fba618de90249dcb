//! Vectors kept in strictly ascending order without duplicates.

use crate::text::{chars_of, rank_chars, seq_lt, Rank};
use vstd::prelude::*;
use vstd::string::*;

verus! {

/// Values with a strict order that code can decide.
pub trait Ranked: Sized {
    /// `self` stands before `other`.
    spec fn before(&self, other: &Self) -> bool;

    /// `self` and `other` take the same place.
    spec fn alike(&self, other: &Self) -> bool;

    /// Decides how `self` stands to `other`.
    fn rank(&self, other: &Self) -> (r: Rank)
        ensures
            r == Rank::Before <==> self.before(other),
            r == Rank::Same <==> self.alike(other),
            r == Rank::After <==> other.before(self),
    ;
}

/// Strings are ordered as `str` is: lexicographically by code point.
impl Ranked for String {
    open spec fn before(&self, other: &Self) -> bool {
        seq_lt(self@, other@)
    }

    open spec fn alike(&self, other: &Self) -> bool {
        self@ == other@
    }

    fn rank(&self, other: &Self) -> (r: Rank) {
        let a = chars_of(self.as_str());
        let b = chars_of(other.as_str());
        rank_chars(&a, &b)
    }
}

/// Each element stands before the next one.
pub open spec fn ascending<T: Ranked>(s: Seq<T>) -> bool {
    forall|i: int, j: int| 0 <= i && j == i + 1 && j < s.len() ==> (#[trigger] s[i]).before(#[trigger] &s[j])
}

/// Puts `x` at its place in an ascending vector, unless an element alike is
/// there already. Returns the place, and whether `x` was put in.
pub fn place<T: Ranked>(v: &mut Vec<T>, x: T) -> (r: (usize, bool))
    requires
        ascending(old(v)@),
    ensures
        ascending(final(v)@),
        r.0 < final(v)@.len(),
        r.1 ==> {
            &&& r.0 <= old(v)@.len()
            &&& final(v)@ == old(v)@.insert(r.0 as int, x)
            &&& final(v)@.len() == old(v)@.len() + 1
            &&& final(v)@[r.0 as int] == x
            &&& forall|i: int| 0 <= i < r.0 ==> final(v)@[i] == #[trigger] old(v)@[i]
            &&& forall|i: int| r.0 <= i < old(v)@.len() ==> final(v)@[i + 1] == #[trigger] old(v)@[i]
        },
        !r.1 ==> final(v)@ == old(v)@ && old(v)@[r.0 as int].alike(&x),
{
    let mut p: usize = 0;
    let mut stop: bool = false;
    while p < v.len() && !stop
        invariant
            p <= v@.len(),
            v@ == old(v)@,
            ascending(v@),
            forall|q: int| 0 <= q < p ==> (#[trigger] v@[q]).before(&x),
            stop ==> p < v@.len() && x.before(&v@[p as int]),
        decreases v@.len() - p + (if stop { 0int } else { 1int }),
    {
        match v[p].rank(&x) {
            Rank::Before => {
                p += 1;
            },
            Rank::Same => {
                return (p, false);
            },
            Rank::After => {
                stop = true;
            },
        }
    }
    let ghost prior = v@;
    v.insert(p, x);
    proof {
        prior.insert_ensures(p as int, x);
    }
    assert forall|i: int, j: int| 0 <= i && j == i + 1 && j < v@.len() implies (#[trigger] v@[i]).before(
        #[trigger] &v@[j],
    ) by {
        if j < p {
            assert(v@[i] == prior[i] && v@[j] == prior[j]);
        } else if j == p {
            assert(v@[i] == prior[i]);
        } else if i == p {
            assert(v@[j] == prior[j - 1]);
        } else {
            assert(v@[i] == prior[i - 1] && v@[j] == prior[j - 1]);
            assert(prior[i - 1].before(&prior[j - 1]));
        }
    }
    (p, true)
}

} // verus!
