//! Finding git repositories under a root: the decisions of the directory walk.
//!
//! The walk itself reads the file system and is driven by the caller, which hands
//! each entry to [`RepoScan::visit`] and follows the [`ScanStep`] it answers.
//! Repositories are held as [`RepoPath`]s, compared and ordered by their
//! components as `Path` compares them; exclusion goes by the text of a path with
//! `/` between its components.

use vstd::prelude::*;
use crate::order::{
    holds_key, keys_of, lemma_same_multiset_distinct, lemma_sorted_distinct_is_strict,
    sort_by_key, sorted_by_key, strictly_sorted_keys, with_key, SortKey,
};
use crate::path::{path_lt, same_path, PartView, RepoPath};
use crate::text::{chars_of, has_prefix, push_char, starts_with};

verus! {

/// Default depth of the scan (directory levels).
pub const DEFAULT_MAX_DEPTH: usize = 4;

/// Default number of repositories worked on at once.
pub const DEFAULT_CONCURRENCY: usize = 8;

/// `s` with every `\` turned into `/`.
pub open spec fn normalized(s: Seq<char>) -> Seq<char> {
    Seq::new(s.len(), |i: int| if s[i] == '\\' { '/' } else { s[i] })
}

/// Writes a path with `/` between components, whatever separator it used.
pub fn normalize(p: &str) -> (r: String)
    ensures
        r@ == normalized(p@),
{
    let v = chars_of(p);
    let mut r = String::new();
    let mut i: usize = 0;
    while i < v.len()
        invariant
            i <= v.len(),
            v@ == p@,
            r@ == normalized(p@).take(i as int),
        decreases v.len() - i,
    {
        let c = if v[i] == '\\' { '/' } else { v[i] };
        push_char(&mut r, c);
        assert(normalized(p@).take(i + 1) =~= normalized(p@).take(i as int).push(c));
        i = i + 1;
    }
    assert(normalized(p@).take(v.len() as int) =~= normalized(p@));
    r
}

/// The normalized paths of a list of paths, in order.
pub fn normalize_all(paths: &Vec<String>) -> (r: Vec<String>)
    ensures
        r@.len() == paths@.len(),
        forall|i: int| 0 <= i < r@.len() ==> #[trigger] r@[i]@ == normalized(paths@[i]@),
{
    let mut r: Vec<String> = Vec::new();
    let mut i: usize = 0;
    while i < paths.len()
        invariant
            i <= paths.len(),
            r@.len() == i,
            forall|j: int| 0 <= j < i ==> #[trigger] r@[j]@ == normalized(paths@[j]@),
        decreases paths.len() - i,
    {
        r.push(normalize(paths[i].as_str()));
        i = i + 1;
    }
    r
}

/// `x` excludes the path `p`: `p` is `x` or lies under it.
pub open spec fn excludes(x: Seq<char>, p: Seq<char>) -> bool {
    p == x || starts_with(p, x.push('/'))
}

/// Some entry of `xs` excludes `p`.
pub open spec fn excluded_by_any(xs: Seq<Seq<char>>, p: Seq<char>) -> bool {
    exists|i: int| 0 <= i < xs.len() && excludes(#[trigger] xs[i], p)
}

/// The texts of a list of strings.
pub open spec fn views_of(s: Seq<String>) -> Seq<Seq<char>> {
    Seq::new(s.len(), |i: int| s[i]@)
}

fn same_text(a: &str, b: &str) -> (r: bool)
    ensures
        r == (a@ == b@),
{
    let x = chars_of(a);
    let y = chars_of(b);
    if x.len() != y.len() {
        return false;
    }
    let mut i: usize = 0;
    while i < x.len()
        invariant
            i <= x.len() == y.len(),
            x@ == a@,
            y@ == b@,
            forall|j: int| 0 <= j < i ==> x@[j] == y@[j],
        decreases x.len() - i,
    {
        if x[i] != y[i] {
            return false;
        }
        i = i + 1;
    }
    assert(x@ =~= y@);
    true
}

/// Whether `v` holds a path with the components of `p`, as `contains` on a list
/// of paths says.
pub fn contains_path(v: &Vec<RepoPath>, p: &RepoPath) -> (r: bool)
    ensures
        r == holds_key(v@, p.key()),
{
    let mut i: usize = 0;
    while i < v.len()
        invariant
            i <= v.len(),
            forall|j: int| 0 <= j < i ==> #[trigger] v@[j].key() != p.key(),
        decreases v.len() - i,
    {
        if same_path(&v[i], p) {
            assert(v@[i as int].sort_key() == p.key());
            return true;
        }
        i = i + 1;
    }
    false
}

/// Whether some entry of `excl` excludes the (normalized) path `p`.
pub fn is_excluded(excl: &Vec<String>, p: &str) -> (r: bool)
    ensures
        r == excluded_by_any(views_of(excl@), p@),
{
    let pv = chars_of(p);
    let mut i: usize = 0;
    while i < excl.len()
        invariant
            i <= excl.len(),
            pv@ == p@,
            forall|j: int| 0 <= j < i ==> !excludes(#[trigger] views_of(excl@)[j], p@),
        decreases excl.len() - i,
    {
        let mut x = chars_of(excl[i].as_str());
        let ghost xs = x@;
        assert(views_of(excl@)[i as int] == xs);
        let equal = same_text(excl[i].as_str(), p);
        x.push('/');
        let under = has_prefix(&pv, 0, pv.len(), &x);
        assert(pv@.subrange(0, pv@.len() as int) =~= pv@);
        if equal || under {
            return true;
        }
        i = i + 1;
    }
    false
}

/// What the walk does after an entry.
#[derive(Debug, Clone, Copy, PartialEq, Eq, Structural)]
pub enum ScanStep {
    /// Go on, into the entry if it is a directory.
    Descend,
    /// Do not go into this directory.
    SkipDir,
}

/// The depth to which the walk goes: one level below `max_depth`, where the
/// `.git` of the deepest repositories lies.
pub fn walk_depth(max_depth: usize) -> (d: usize)
    ensures
        d == if max_depth == usize::MAX {
            usize::MAX as int
        } else {
            max_depth + 1
        },
{
    if max_depth == usize::MAX {
        usize::MAX
    } else {
        max_depth + 1
    }
}

/// The state of a scan for repositories under one root.
pub struct RepoScan {
    exclude: Vec<String>,
    found: Vec<RepoPath>,
}

impl RepoScan {
    /// The normalized excluded directories.
    pub closed spec fn excluded(&self) -> Seq<Seq<char>> {
        views_of(self.exclude@)
    }

    /// The repositories found so far, in the order found.
    pub closed spec fn found(&self) -> Seq<RepoPath> {
        self.found@
    }

    /// Starts a scan under `root`, which is itself a repository when `root_is_repo`
    /// (it holds a `.git`); `exclude` lists the directories to leave out.
    pub fn start(root: RepoPath, root_is_repo: bool, exclude: &Vec<String>) -> (s: Self)
        ensures
            s.excluded().len() == exclude@.len(),
            forall|i: int| 0 <= i < exclude@.len() ==> #[trigger] s.excluded()[i] == normalized(exclude@[i]@),
            s.found() == if root_is_repo {
                seq![root]
            } else {
                Seq::<RepoPath>::empty()
            },
            keys_of(s.found()).no_duplicates(),
    {
        let norm = normalize_all(exclude);
        let mut found: Vec<RepoPath> = Vec::new();
        if root_is_repo {
            found.push(root);
        }
        let s = RepoScan { exclude: norm, found };
        assert(s.excluded().len() == exclude@.len());
        s
    }

    /// Handles one entry of the walk: `path` is its path as the walk wrote it,
    /// `file_name` its last component and `parent` the directory that holds it.
    /// A `.git` entry (a directory, or the file of a worktree) marks its parent as
    /// a repository, recorded once, and a `.git` directory is not entered; an
    /// excluded directory is not entered; everything else is.
    pub fn visit(&mut self, is_dir: bool, file_name: &str, path: &str, parent: Option<RepoPath>) -> (step: ScanStep)
        ensures
            final(self).excluded() == old(self).excluded(),
            file_name@ == ".git"@ ==> step == (if is_dir {
                ScanStep::SkipDir
            } else {
                ScanStep::Descend
            }) && final(self).found() == match parent {
                Some(d) => if holds_key(old(self).found(), d.key()) {
                    old(self).found()
                } else {
                    old(self).found().push(d)
                },
                None => old(self).found(),
            },
            !is_dir && file_name@ != ".git"@ ==> step == ScanStep::Descend && final(self).found() == old(self).found(),
            is_dir && file_name@ != ".git"@ ==> final(self).found() == old(self).found() && step == if excluded_by_any(
                old(self).excluded(),
                normalized(path@),
            ) {
                ScanStep::SkipDir
            } else {
                ScanStep::Descend
            },
            keys_of(old(self).found()).no_duplicates() ==> keys_of(final(self).found()).no_duplicates(),
    {
        if same_text(file_name, ".git") {
            match parent {
                Some(d) => {
                    if !contains_path(&self.found, &d) {
                        let ghost before = self.found@;
                        let ghost dk = d.key();
                        self.found.push(d);
                        proof {
                            let b = keys_of(before);
                            let a = keys_of(self.found@);
                            assert(a =~= b.push(dk));
                            if b.no_duplicates() {
                                assert forall|i: int, j: int| 0 <= i < a.len() && 0 <= j < a.len() && i != j implies a[i] != a[j] by {
                                    if j == b.len() {
                                        assert(a[i] == b[i]);
                                        assert(b[i] == before[i].sort_key());
                                    } else if i == b.len() {
                                        assert(a[j] == b[j]);
                                        assert(b[j] == before[j].sort_key());
                                    } else {
                                        assert(a[i] == b[i] && a[j] == b[j]);
                                    }
                                }
                            }
                        }
                    }
                },
                None => {},
            }
            return if is_dir {
                ScanStep::SkipDir
            } else {
                ScanStep::Descend
            };
        }
        if !is_dir {
            return ScanStep::Descend;
        }
        let p = normalize(path);
        if is_excluded(&self.exclude, p.as_str()) {
            ScanStep::SkipDir
        } else {
            ScanStep::Descend
        }
    }

    /// The repositories found, in path order (a stable sort: repositories with
    /// equal components keep the order in which they were found).
    pub fn finish(self) -> (r: Vec<RepoPath>)
        ensures
            r@.to_multiset() == self.found().to_multiset(),
            sorted_by_key(r@),
            forall|k: Seq<PartView>| #[trigger] with_key(r@, k) == with_key(self.found(), k),
            keys_of(self.found()).no_duplicates() ==> strictly_sorted_keys(r@),
            forall|i: int, j: int|
                0 <= i < j < r@.len() ==> !path_lt((#[trigger] r@[j]).key(), (#[trigger] r@[i]).key()),
    {
        let ghost found = self.found@;
        let r = sort_by_key(self.found);
        proof {
            assert forall|i: int, j: int| 0 <= i < j < r@.len() implies !path_lt(
                (#[trigger] r@[j]).key(),
                (#[trigger] r@[i]).key(),
            ) by {
                assert(!RepoPath::key_lt(r@[j].sort_key(), r@[i].sort_key()));
            }
            if keys_of(found).no_duplicates() {
                lemma_same_multiset_distinct(keys_of(found), keys_of(r@));
                lemma_sorted_distinct_is_strict(r@);
            }
        }
        r
    }
}

} // verus!
