//! The repository locator: which of the directories that a bounded walk met
//! are repository roots.

use crate::order::{ascending, place, Ranked};
use crate::path::{
    components, lemma_parts_lt_irreflexive, lemma_parts_lt_transitive, part_views, parts_lt_from,
    path_lt, same_path, split_path, PathKey,
};
use crate::text::chars_of;
use vstd::prelude::*;
use vstd::string::*;

verus! {

/// One directory entry that a walk below the root has met.
#[derive(Debug, Clone)]
pub struct Visited {
    pub path: String,
    /// Levels below the root of the walk; the root itself is at level 0.
    pub level: usize,
    pub is_dir: bool,
    /// The entry holds a directory `.git`.
    pub has_git_dir: bool,
    /// That directory holds an entry `HEAD`.
    pub has_head: bool,
}

/// Whether the entry is the root of a repository: it holds a directory
/// `.git` with a `HEAD` in it.
pub fn is_git_repository(entry: &Visited) -> (r: bool)
    ensures
        r == (entry.has_git_dir && entry.has_head),
{
    entry.has_git_dir && entry.has_head
}

/// The entry counts as a repository found within `depth` levels of the root.
pub open spec fn is_found(entry: Visited, depth: usize) -> bool {
    entry.level <= depth && entry.is_dir && entry.has_git_dir && entry.has_head
}

/// Entry `e` counts, `path` is its path as spelled, and no entry before it
/// that counts has the same path in another spelling.
pub open spec fn first_at(entries: Seq<Visited>, e: int, depth: usize, path: Seq<char>) -> bool {
    &&& is_found(entries[e], depth)
    &&& entries[e].path@ == path
    &&& forall|d: int|
        0 <= d < e && is_found(#[trigger] entries[d], depth) ==> !same_path(entries[d].path@, path)
}

/// `path` is the path, as spelled, of one of the first `n` entries that
/// counts, and the first spelling of that path among them.
pub open spec fn found_path(entries: Seq<Visited>, n: int, depth: usize, path: Seq<char>) -> bool {
    exists|e: int| 0 <= e < n && #[trigger] first_at(entries, e, depth, path)
}

/// One of `repos` is a spelling of `path`.
pub open spec fn listed(repos: Seq<String>, path: Seq<char>) -> bool {
    exists|k: int| 0 <= k < repos.len() && same_path((#[trigger] repos[k])@, path)
}

/// One of `keys` has the components `parts`.
pub open spec fn keyed(keys: Seq<PathKey>, parts: Seq<(int, Seq<char>)>) -> bool {
    exists|k: int| 0 <= k < keys.len() && part_views((#[trigger] keys[k]).parts@) == parts
}

/// In an ascending list of paths every path stands before every later one,
/// so the list is sorted and holds no path twice, however it is spelled.
pub proof fn law_sorted_without_duplicates(keys: Seq<PathKey>, i: int, j: int)
    requires
        ascending(keys),
        0 <= i < j < keys.len(),
    ensures
        keys[i].before(&keys[j]),
        !keys[i].alike(&keys[j]),
        keys[i].wf() && keys[j].wf() ==> path_lt(keys[i].text@, keys[j].text@) && !same_path(
            keys[i].text@,
            keys[j].text@,
        ),
    decreases j - i,
{
    if j > i + 1 {
        law_sorted_without_duplicates(keys, i, j - 1);
        assert(keys[j - 1].before(&keys[j]));
        lemma_parts_lt_transitive(
            part_views(keys[i].parts@),
            part_views(keys[j - 1].parts@),
            part_views(keys[j].parts@),
            0,
        );
    } else {
        assert(keys[i].before(&keys[j]));
    }
    lemma_parts_lt_irreflexive(part_views(keys[i].parts@), 0);
}

/// The repository roots among the entries of a walk, within `depth` levels
/// of its root (only the root itself where `depth` is 0), each with its
/// components: in ascending order of paths, each path once.
pub fn found_keys(entries: &Vec<Visited>, depth: usize) -> (keys: Vec<PathKey>)
    ensures
        ascending(keys@),
        forall|k: int|
            0 <= k < keys@.len() ==> (#[trigger] keys@[k]).wf() && found_path(
                entries@,
                entries@.len() as int,
                depth,
                keys@[k].text@,
            ),
        forall|e: int|
            0 <= e < entries@.len() && is_found(#[trigger] entries@[e], depth) ==> keyed(
                keys@,
                components(entries@[e].path@),
            ),
{
    let mut keys: Vec<PathKey> = Vec::new();
    let mut i: usize = 0;
    while i < entries.len()
        invariant
            i <= entries@.len(),
            ascending(keys@),
            forall|k: int|
                0 <= k < keys@.len() ==> (#[trigger] keys@[k]).wf() && found_path(
                    entries@,
                    i as int,
                    depth,
                    keys@[k].text@,
                ),
            forall|e: int|
                0 <= e < i && is_found(#[trigger] entries@[e], depth) ==> keyed(
                    keys@,
                    components(entries@[e].path@),
                ),
        decreases entries@.len() - i,
    {
        let entry = &entries[i];
        let ghost prior = keys@;
        if entry.level <= depth && entry.is_dir && is_git_repository(entry) {
            let text = entry.path.clone();
            let parts = split_path(&chars_of(text.as_str()));
            let (p, fresh) = place(&mut keys, PathKey { text, parts });
            assert forall|k: int| 0 <= k < keys@.len() implies (#[trigger] keys@[k]).wf()
                && found_path(entries@, i + 1, depth, keys@[k].text@) by {
                let h = if fresh && k > p {
                    k - 1
                } else {
                    k
                };
                if fresh && k == p {
                    let path = entries@[i as int].path@;
                    assert forall|d: int|
                        0 <= d < i && is_found(#[trigger] entries@[d], depth) implies !same_path(
                        entries@[d].path@,
                        path,
                    ) by {
                        assert(keyed(prior, components(entries@[d].path@)));
                        let g = choose|g: int|
                            0 <= g < prior.len() && part_views((#[trigger] prior[g]).parts@)
                                == components(entries@[d].path@);
                        if g < p {
                            assert(keys@[g] == prior[g]);
                            law_sorted_without_duplicates(keys@, g, p as int);
                        } else {
                            assert(keys@[g + 1] == prior[g]);
                            law_sorted_without_duplicates(keys@, p as int, g + 1);
                        }
                    }
                    assert(first_at(entries@, i as int, depth, path));
                } else {
                    assert(keys@[k] == prior[h]);
                    assert(found_path(entries@, i as int, depth, prior[h].text@));
                    let e = choose|e: int|
                        0 <= e < i && #[trigger] first_at(entries@, e, depth, prior[h].text@);
                    assert(first_at(entries@, e, depth, keys@[k].text@));
                }
            }
            assert forall|e: int|
                0 <= e < i + 1 && is_found(#[trigger] entries@[e], depth) implies keyed(
                keys@,
                components(entries@[e].path@),
            ) by {
                let wanted = components(entries@[e].path@);
                if e < i {
                    assert(keyed(prior, wanted));
                    let g = choose|g: int|
                        0 <= g < prior.len() && part_views((#[trigger] prior[g]).parts@) == wanted;
                    if fresh && g >= p {
                        assert(keys@[g + 1] == prior[g]);
                    } else {
                        assert(keys@[g] == prior[g]);
                    }
                } else {
                    assert(part_views(keys@[p as int].parts@) == wanted);
                }
            }
        } else {
            assert forall|k: int| 0 <= k < keys@.len() implies (#[trigger] keys@[k]).wf()
                && found_path(entries@, i + 1, depth, keys@[k].text@) by {
                assert(found_path(entries@, i as int, depth, keys@[k].text@));
                let e = choose|e: int|
                    0 <= e < i && #[trigger] first_at(entries@, e, depth, keys@[k].text@);
                assert(first_at(entries@, e, depth, keys@[k].text@));
            }
        }
        i += 1;
    }
    keys
}

/// The paths of the repository roots among the entries of a walk, within
/// `depth` levels of its root (only the root itself where `depth` is 0).
///
/// The paths come in ascending order, compared component by component, and
/// no path comes twice, however it is spelled: of several spellings of one
/// path, the one met first stays.
pub fn find_git_repositories(entries: &Vec<Visited>, depth: usize) -> (repos: Vec<String>)
    ensures
        forall|i: int, j: int|
            0 <= i < j < repos@.len() ==> path_lt((#[trigger] repos@[i])@, (#[trigger] repos@[j])@)
                && !same_path(repos@[i]@, repos@[j]@),
        forall|k: int|
            0 <= k < repos@.len() ==> found_path(
                entries@,
                entries@.len() as int,
                depth,
                (#[trigger] repos@[k])@,
            ),
        forall|e: int|
            0 <= e < entries@.len() && is_found(#[trigger] entries@[e], depth) ==> listed(
                repos@,
                entries@[e].path@,
            ),
{
    let keys = found_keys(entries, depth);
    let mut repos: Vec<String> = Vec::new();
    let mut k: usize = 0;
    while k < keys.len()
        invariant
            k <= keys@.len(),
            repos@.len() == k,
            forall|m: int| 0 <= m < k ==> (#[trigger] repos@[m])@ == keys@[m].text@,
        decreases keys@.len() - k,
    {
        repos.push(keys[k].text.clone());
        k += 1;
    }
    assert forall|i: int, j: int| 0 <= i < j < repos@.len() implies path_lt(
        (#[trigger] repos@[i])@,
        (#[trigger] repos@[j])@,
    ) && !same_path(repos@[i]@, repos@[j]@) by {
        law_sorted_without_duplicates(keys@, i, j);
        assert(keys@[i].wf() && keys@[j].wf());
    }
    assert forall|e: int|
        0 <= e < entries@.len() && is_found(#[trigger] entries@[e], depth) implies listed(
        repos@,
        entries@[e].path@,
    ) by {
        let wanted = components(entries@[e].path@);
        assert(keyed(keys@, wanted));
        let g = choose|g: int|
            0 <= g < keys@.len() && part_views((#[trigger] keys@[g]).parts@) == wanted;
        assert(keys@[g].wf());
        assert(same_path(repos@[g]@, entries@[e].path@));
    }
    assert forall|m: int| 0 <= m < repos@.len() implies found_path(
        entries@,
        entries@.len() as int,
        depth,
        (#[trigger] repos@[m])@,
    ) by {
        assert(keys@[m].wf());
    }
    repos
}

} // verus!
