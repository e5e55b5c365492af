//! The decisions behind the dashboard's commands: settings, the list of known
//! repositories, and what each command works on.

use vstd::prelude::*;
use crate::order::{
    holds_key, keys_of, lemma_same_multiset_distinct, lemma_sorted_distinct_is_strict,
    lemma_strict_is_distinct, sort_by_key, sorted_by_key, strictly_sorted_keys, with_key, SortKey,
};
use crate::path::{path_lt, PartView, RepoPath};
use crate::scan::{contains_path, views_of, DEFAULT_CONCURRENCY, DEFAULT_MAX_DEPTH};

verus! {

/// The user's settings.
#[derive(Debug, Clone)]
pub struct Settings {
    /// The directories to scan.
    pub roots: Vec<String>,
    /// How deep to scan.
    pub max_depth: usize,
    /// How many repositories a batch works on at once.
    pub concurrency: usize,
    /// The directories to leave out.
    pub exclude: Vec<String>,
}

impl Default for Settings {
    fn default() -> (s: Self)
        ensures
            s.roots@.len() == 0,
            s.max_depth == DEFAULT_MAX_DEPTH,
            s.concurrency == DEFAULT_CONCURRENCY,
            s.exclude@.len() == 0,
    {
        Settings {
            roots: Vec::new(),
            max_depth: DEFAULT_MAX_DEPTH,
            concurrency: DEFAULT_CONCURRENCY,
            exclude: Vec::new(),
        }
    }
}

/// What is wrong with settings that cannot be saved, if anything: there must be
/// a root, a depth from 1 to 12 and a concurrency from 1 to 32.
pub open spec fn settings_problem(s: Settings) -> Option<Seq<char>> {
    if s.roots@.len() == 0 {
        Some("至少需要一个扫描根目录"@)
    } else if s.max_depth == 0 || s.max_depth > 12 {
        Some("扫描深度需在 1-12 之间"@)
    } else if s.concurrency == 0 || s.concurrency > 32 {
        Some("并发数需在 1-32 之间"@)
    } else {
        None
    }
}

/// Checks settings before they are saved.
pub fn validate_settings(s: &Settings) -> (r: Result<(), String>)
    ensures
        match r {
            Ok(()) => settings_problem(*s) is None,
            Err(e) => settings_problem(*s) == Some(e@),
        },
        (r is Ok) == (s.roots@.len() > 0 && 1 <= s.max_depth <= 12 && 1 <= s.concurrency <= 32),
{
    if s.roots.len() == 0 {
        return Err(String::from_str("至少需要一个扫描根目录"));
    }
    if s.max_depth == 0 || s.max_depth > 12 {
        return Err(String::from_str("扫描深度需在 1-12 之间"));
    }
    if s.concurrency == 0 || s.concurrency > 32 {
        return Err(String::from_str("并发数需在 1-32 之间"));
    }
    Ok(())
}

/// The roots to scan; a scan needs at least one.
pub fn scan_roots(s: &Settings) -> (r: Result<&Vec<String>, String>)
    ensures
        match r {
            Ok(roots) => roots@ == s.roots@ && roots@.len() > 0,
            Err(e) => s.roots@.len() == 0 && e@ == "尚未配置扫描根目录"@,
        },
{
    if s.roots.len() == 0 {
        Err(String::from_str("尚未配置扫描根目录"))
    } else {
        Ok(&s.roots)
    }
}

/// The error of a root that is not a directory.
pub fn root_not_dir_message(root: &str) -> (m: String)
    ensures
        m@ == "扫描根目录不存在或不是目录: "@ + root@,
{
    let mut m = String::from_str("扫描根目录不存在或不是目录: ");
    m.append(root);
    m
}

/// The error of a path that is not a git repository.
pub fn not_a_repo_message(path: &str) -> (m: String)
    ensures
        m@ == "不是 git 仓库: "@ + path@,
{
    let mut m = String::from_str("不是 git 仓库: ");
    m.append(path);
    m
}

/// The texts of a list of paths.
pub open spec fn texts_of(s: Seq<RepoPath>) -> Seq<Seq<char>> {
    Seq::new(s.len(), |i: int| s[i].text@)
}

/// The texts of the known repositories, in order.
pub fn path_texts(v: &Vec<RepoPath>) -> (r: Vec<String>)
    ensures
        views_of(r@) == texts_of(v@),
{
    let mut r: Vec<String> = Vec::new();
    let mut i: usize = 0;
    while i < v.len()
        invariant
            i <= v.len(),
            r@.len() == i,
            forall|j: int| 0 <= j < i ==> #[trigger] r@[j]@ == v@[j].text@,
        decreases v.len() - i,
    {
        r.push(v[i].text.clone());
        i = i + 1;
    }
    assert(views_of(r@) =~= texts_of(v@));
    r
}

/// Which repositories a command works on.
pub enum Targets {
    /// The paths the user gave.
    Given(Vec<String>),
    /// The repositories known from the last scan, as they are held.
    Known,
}

/// The repositories whose state is read: the given paths when there are any,
/// else the repositories known from the last scan; there must be some.
pub fn status_targets(paths: Option<Vec<String>>, known: &Vec<RepoPath>) -> (r: Result<Targets, String>)
    ensures
        match paths {
            Some(p) if p@.len() > 0 => r matches Ok(Targets::Given(t)) && t@ == p@,
            _ => if known@.len() > 0 {
                r matches Ok(Targets::Known)
            } else {
                r matches Err(e) && e@ == "没有可读取的仓库（先扫描或手动指定路径）"@
            },
        },
{
    if let Some(p) = paths {
        if p.len() > 0 {
            return Ok(Targets::Given(p));
        }
    }
    if known.len() > 0 {
        Ok(Targets::Known)
    } else {
        Err(String::from_str("没有可读取的仓库（先扫描或手动指定路径）"))
    }
}

/// A batch over all known repositories needs some.
pub fn batch_targets(known: &Vec<RepoPath>) -> (r: Result<(), String>)
    ensures
        match r {
            Ok(()) => known@.len() > 0,
            Err(e) => known@.len() == 0 && e@ == "没有仓库可操作（先扫描）"@,
        },
{
    if known.len() == 0 {
        Err(String::from_str("没有仓库可操作（先扫描）"))
    } else {
        Ok(())
    }
}

/// The repositories a batch over a chosen subset works on; there must be some.
pub fn subset_targets(paths: Vec<String>) -> (r: Result<Vec<String>, String>)
    ensures
        match r {
            Ok(t) => t@ == paths@ && paths@.len() > 0,
            Err(e) => paths@.len() == 0 && e@ == "未选择仓库"@,
        },
{
    if paths.len() == 0 {
        Err(String::from_str("未选择仓库"))
    } else {
        Ok(paths)
    }
}

/// Adds a repository to the known ones: when no known path has its components,
/// it is added and the list is sorted in path order (a stable sort); otherwise
/// nothing changes.
pub fn remember_repo(known: &mut Vec<RepoPath>, repo: RepoPath)
    ensures
        holds_key(old(known)@, repo.key()) ==> final(known)@ == old(known)@,
        !holds_key(old(known)@, repo.key()) ==> {
            &&& final(known)@.to_multiset() == old(known)@.push(repo).to_multiset()
            &&& sorted_by_key(final(known)@)
            &&& forall|i: int, j: int|
                0 <= i < j < final(known)@.len() ==> !path_lt(
                    (#[trigger] final(known)@[j]).key(),
                    (#[trigger] final(known)@[i]).key(),
                )
            &&& forall|k: Seq<PartView>| #[trigger] with_key(final(known)@, k) == with_key(old(known)@.push(repo), k)
        },
        holds_key(final(known)@, repo.key()),
        strictly_sorted_keys(old(known)@) ==> strictly_sorted_keys(final(known)@),
{
    if !contains_path(known, &repo) {
        let mut all: Vec<RepoPath> = Vec::new();
        std::mem::swap(&mut all, known);
        let ghost before = all@;
        let ghost rk = repo.key();
        let ghost r0 = repo;
        all.push(repo);
        let ghost added = all@;
        assert(added == before.push(r0));
        *known = sort_by_key(all);
        proof {
            let now = known@;
            assert forall|i: int, j: int| 0 <= i < j < now.len() implies !path_lt(
                (#[trigger] now[j]).key(),
                (#[trigger] now[i]).key(),
            ) by {
                assert(!RepoPath::key_lt(now[j].sort_key(), now[i].sort_key()));
            }
            vstd::seq_lib::to_multiset_contains(added, r0);
            assert(added[added.len() - 1] == r0);
            assert(added.contains(r0));
            vstd::seq_lib::to_multiset_contains(now, r0);
            let i = choose|i: int| 0 <= i < now.len() && now[i] == r0;
            assert(now[i].sort_key() == rk);
            if strictly_sorted_keys(before) {
                lemma_strict_is_distinct(before);
                let kb = keys_of(before);
                let ka = keys_of(added);
                assert(ka =~= kb.push(rk));
                assert forall|i: int, j: int| 0 <= i < ka.len() && 0 <= j < ka.len() && i != j implies ka[i] != ka[j] by {
                    if i == ka.len() - 1 {
                        assert(kb[j] == ka[j]);
                        assert(kb[j] == before[j].sort_key());
                    } else if j == ka.len() - 1 {
                        assert(kb[i] == ka[i]);
                        assert(kb[i] == before[i].sort_key());
                    } else {
                        assert(kb[i] == ka[i] && kb[j] == ka[j]);
                    }
                }
                lemma_same_multiset_distinct(ka, keys_of(now));
                lemma_sorted_distinct_is_strict(now);
            }
        }
    }
}

} // verus!
