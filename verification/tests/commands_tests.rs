use std::path::{Component, Path, PathBuf};

use radar_core::commands::{
    batch_targets, not_a_repo_message, path_texts, remember_repo, root_not_dir_message,
    scan_roots, status_targets, subset_targets, validate_settings, Settings, Targets,
};
use radar_core::path::{PathPart, RepoPath};
use radar_core::scan::{DEFAULT_CONCURRENCY, DEFAULT_MAX_DEPTH};

/// A path of this platform as the library holds it.
fn rp(s: &str) -> RepoPath {
    let parts = Path::new(s)
        .components()
        .map(|c| match c {
            Component::Prefix(_) => unreachable!(),
            Component::RootDir => PathPart::RootDir,
            Component::CurDir => PathPart::CurDir,
            Component::ParentDir => PathPart::ParentDir,
            Component::Normal(n) => PathPart::Normal(n.as_encoded_bytes().to_vec()),
        })
        .collect();
    RepoPath { path: PathBuf::from(s), text: s.to_string(), parts }
}

fn texts(v: &[RepoPath]) -> Vec<String> {
    v.iter().map(|p| p.text.clone()).collect()
}

fn settings(roots: &[&str], max_depth: usize, concurrency: usize) -> Settings {
    Settings {
        roots: roots.iter().map(|r| r.to_string()).collect(),
        max_depth,
        concurrency,
        exclude: vec![],
    }
}

#[test]
fn default_settings() {
    let s = Settings::default();
    assert!(s.roots.is_empty());
    assert_eq!(s.max_depth, DEFAULT_MAX_DEPTH);
    assert_eq!(s.concurrency, DEFAULT_CONCURRENCY);
    assert_eq!((s.max_depth, s.concurrency), (4, 8));
    assert!(s.exclude.is_empty());
}

#[test]
fn settings_validation() {
    assert_eq!(validate_settings(&settings(&[], 4, 8)), Err("至少需要一个扫描根目录".to_string()));
    assert_eq!(validate_settings(&settings(&["D:/code"], 0, 8)), Err("扫描深度需在 1-12 之间".to_string()));
    assert_eq!(validate_settings(&settings(&["D:/code"], 13, 8)), Err("扫描深度需在 1-12 之间".to_string()));
    assert_eq!(validate_settings(&settings(&["D:/code"], 12, 0)), Err("并发数需在 1-32 之间".to_string()));
    assert_eq!(validate_settings(&settings(&["D:/code"], 12, 33)), Err("并发数需在 1-32 之间".to_string()));
    assert_eq!(validate_settings(&settings(&["D:/code"], 1, 32)), Ok(()));
    assert_eq!(validate_settings(&settings(&["D:/code"], 4, 8)), Ok(()));
}

#[test]
fn scanning_needs_a_root() {
    assert_eq!(scan_roots(&settings(&[], 4, 8)), Err("尚未配置扫描根目录".to_string()));
    assert_eq!(scan_roots(&settings(&["a", "b"], 4, 8)).unwrap().len(), 2);
    assert_eq!(root_not_dir_message(" D:/x"), "扫描根目录不存在或不是目录:  D:/x");
    assert_eq!(not_a_repo_message("/tmp/x"), "不是 git 仓库: /tmp/x");
}

#[test]
fn status_targets_prefer_given_paths() {
    let known = vec![rp("/a")];
    assert!(matches!(status_targets(Some(vec!["/b".to_string()]), &known), Ok(Targets::Given(v)) if v == vec!["/b".to_string()]));
    assert!(matches!(status_targets(Some(vec![]), &known), Ok(Targets::Known)));
    assert!(matches!(status_targets(None, &known), Ok(Targets::Known)));
    assert!(matches!(
        status_targets(None, &vec![]),
        Err(e) if e == "没有可读取的仓库（先扫描或手动指定路径）"
    ));
    assert!(matches!(
        status_targets(Some(vec![]), &vec![]),
        Err(e) if e == "没有可读取的仓库（先扫描或手动指定路径）"
    ));
}

#[test]
fn batch_needs_repositories() {
    assert_eq!(batch_targets(&vec![]), Err("没有仓库可操作（先扫描）".to_string()));
    assert_eq!(batch_targets(&vec![rp("/a")]), Ok(()));
    assert_eq!(subset_targets(vec![]), Err("未选择仓库".to_string()));
    assert_eq!(subset_targets(vec!["/b".to_string()]), Ok(vec!["/b".to_string()]));
    assert_eq!(path_texts(&vec![rp("x"), rp("y/")]), vec!["x".to_string(), "y/".to_string()]);
}

#[test]
fn known_paths_keep_the_path_itself() {
    let mut known = vec![rp("/w/a")];
    remember_repo(&mut known, rp("/w/b"));
    let paths: Vec<PathBuf> = known.iter().map(|r| r.path.clone()).collect();
    assert_eq!(paths, vec![PathBuf::from("/w/a"), PathBuf::from("/w/b")]);
}

#[test]
fn remembered_repositories_stay_sorted_and_unique() {
    let mut known = vec![rp("/w/a"), rp("/w/c")];
    remember_repo(&mut known, rp("/w/b"));
    assert_eq!(texts(&known), vec!["/w/a".to_string(), "/w/b".to_string(), "/w/c".to_string()]);
    remember_repo(&mut known, rp("/w/b/"));
    assert_eq!(texts(&known), vec!["/w/a".to_string(), "/w/b".to_string(), "/w/c".to_string()]);
    remember_repo(&mut known, rp("/w"));
    assert_eq!(known[0].text, "/w");
    remember_repo(&mut known, rp("/w/a-b"));
    assert_eq!(
        texts(&known),
        vec!["/w".to_string(), "/w/a".to_string(), "/w/a-b".to_string(), "/w/b".to_string(), "/w/c".to_string()]
    );
}

#[test]
fn remembered_repositories_follow_std_path_order() {
    let mut known: Vec<RepoPath> = Vec::new();
    let mut expected: Vec<PathBuf> = Vec::new();
    for n in ["b", "-b", "../a", "a/b", "a-b", "./c", "a/b/"] {
        remember_repo(&mut known, rp(n));
        let p = PathBuf::from(n);
        if !expected.contains(&p) {
            expected.push(p);
            expected.sort();
        }
    }
    let want: Vec<String> = expected.iter().map(|p| p.to_str().unwrap().to_string()).collect();
    assert_eq!(texts(&known), want);
}
