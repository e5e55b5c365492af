use std::path::{Component, Path, PathBuf};

use radar_core::order::sort_dedup_by_key;
use radar_core::path::{path_less, same_path, PathPart, PathPrefix, RepoPath};
use radar_core::scan::{contains_path, normalize, walk_depth, RepoScan, ScanStep};

/// A path of this platform as the library holds it.
fn rp(s: &str) -> RepoPath {
    let parts = Path::new(s)
        .components()
        .map(|c| match c {
            Component::Prefix(_) => unreachable!(),
            Component::RootDir => PathPart::RootDir,
            Component::CurDir => PathPart::CurDir,
            Component::ParentDir => PathPart::ParentDir,
            Component::Normal(n) => PathPart::Normal(n.as_encoded_bytes().to_vec()),
        })
        .collect();
    RepoPath { path: PathBuf::from(s), text: s.to_string(), parts }
}

fn texts(v: &[RepoPath]) -> Vec<String> {
    v.iter().map(|p| p.text.clone()).collect()
}

#[test]
fn normalize_turns_backslashes_into_slashes() {
    assert_eq!(normalize("D:\\code\\a"), "D:/code/a");
    assert_eq!(normalize("/tmp/x"), "/tmp/x");
    assert_eq!(normalize(""), "");
}

#[test]
fn depth_of_the_walk() {
    assert_eq!(walk_depth(4), 5);
    assert_eq!(walk_depth(0), 1);
    assert_eq!(walk_depth(usize::MAX), usize::MAX);
}

#[test]
fn scan_finds_root_and_nested_repository() {
    let mut s = RepoScan::start(rp("/t/root"), true, &vec![]);
    assert_eq!(s.visit(true, "root", "/t/root", Some(rp("/t"))), ScanStep::Descend);
    assert_eq!(s.visit(true, ".git", "/t/root/.git", Some(rp("/t/root"))), ScanStep::SkipDir);
    assert_eq!(s.visit(false, "a.txt", "/t/root/a.txt", Some(rp("/t/root"))), ScanStep::Descend);
    assert_eq!(s.visit(true, "team", "/t/root/team", Some(rp("/t/root"))), ScanStep::Descend);
    assert_eq!(s.visit(true, "project-a", "/t/root/team/project-a", Some(rp("/t/root/team"))), ScanStep::Descend);
    assert_eq!(
        s.visit(true, ".git", "/t/root/team/project-a/.git", Some(rp("/t/root/team/project-a"))),
        ScanStep::SkipDir
    );
    let found = s.finish();
    assert_eq!(texts(&found), vec!["/t/root".to_string(), "/t/root/team/project-a".to_string()]);
}

#[test]
fn scan_skips_excluded_directories() {
    let mut s = RepoScan::start(rp("/t/root"), true, &vec!["/t/root/team".to_string()]);
    assert_eq!(s.visit(true, "team", "/t/root/team", Some(rp("/t/root"))), ScanStep::SkipDir);
    assert_eq!(s.visit(true, "x", "/t/root/team/x", Some(rp("/t/root/team"))), ScanStep::SkipDir);
    assert_eq!(s.visit(true, "teamwork", "/t/root/teamwork", Some(rp("/t/root"))), ScanStep::Descend);
    assert_eq!(texts(&s.finish()), vec!["/t/root".to_string()]);
}

#[test]
fn scan_exclusion_written_with_backslashes() {
    let mut s = RepoScan::start(rp("C:/code"), false, &vec!["C:\\code\\skip".to_string()]);
    assert_eq!(s.visit(true, "skip", "C:\\code\\skip", Some(rp("C:/code"))), ScanStep::SkipDir);
    assert_eq!(s.visit(true, ".git", "C:/code/b/.git", Some(rp("C:/code/b"))), ScanStep::SkipDir);
    assert_eq!(texts(&s.finish()), vec!["C:/code/b".to_string()]);
}

#[test]
fn scan_without_repositories_finds_nothing() {
    let mut s = RepoScan::start(rp("/t/depth"), false, &vec![]);
    assert_eq!(s.visit(true, "l1", "/t/depth/l1", Some(rp("/t/depth"))), ScanStep::Descend);
    assert!(s.finish().is_empty());
}

#[test]
fn repository_found_twice_is_listed_once() {
    let mut s = RepoScan::start(rp("/t/r"), true, &vec![]);
    s.visit(true, ".git", "/t/r/.git", Some(rp("/t/r")));
    s.visit(true, ".git", "/t/r/.git", Some(rp("/t/r/")));
    assert_eq!(texts(&s.finish()), vec!["/t/r".to_string()]);
}

#[test]
fn worktree_git_file_marks_its_directory() {
    let mut s = RepoScan::start(rp("/t"), false, &vec![]);
    assert_eq!(s.visit(true, "wt", "/t/wt", Some(rp("/t"))), ScanStep::Descend);
    assert_eq!(s.visit(false, ".git", "/t/wt/.git", Some(rp("/t/wt"))), ScanStep::Descend);
    assert_eq!(texts(&s.finish()), vec!["/t/wt".to_string()]);
}

#[test]
fn paths_sort_component_by_component() {
    let v = vec![rp("a-b"), rp("a/b"), rp("a"), rp("a//b")];
    assert_eq!(texts(&sort_dedup_by_key(v)), vec!["a".to_string(), "a/b".to_string(), "a-b".to_string()]);
    assert!(sort_dedup_by_key(Vec::<RepoPath>::new()).is_empty());
}

#[test]
fn parent_and_current_components_sort_before_names() {
    // `..` sorts below any name, though `-` is below `.` as a byte
    assert!(path_less(&rp("../a"), &rp("-b")));
    assert!(!path_less(&rp("-b"), &rp("../a")));
    assert!(path_less(&rp("./a"), &rp("../a")));
    assert!(path_less(&rp("/z"), &rp("a")));
    assert!(!path_less(&rp("a"), &rp("a")));
    assert!(path_less(&rp("a"), &rp("a/b")));
}

#[test]
fn disk_prefix_sorts_before_the_root() {
    let disk = RepoPath {
        path: PathBuf::from("C:\\a"),
        text: "C:\\a".to_string(),
        parts: vec![PathPart::Prefix(PathPrefix::Disk(b'C')), PathPart::RootDir, PathPart::Normal(b"a".to_vec())],
    };
    let rooted = RepoPath { path: PathBuf::from("\\a"), text: "\\a".to_string(), parts: vec![PathPart::RootDir, PathPart::Normal(b"a".to_vec())] };
    let unc = RepoPath {
        path: PathBuf::from("\\\\srv\\share"),
        text: "\\\\srv\\share".to_string(),
        parts: vec![PathPart::Prefix(PathPrefix::Unc(b"srv".to_vec(), b"share".to_vec())), PathPart::RootDir],
    };
    assert!(path_less(&disk, &rooted));
    assert!(!path_less(&rooted, &disk));
    // prefixes go by kind first: UNC before Disk
    assert!(path_less(&unc, &disk));
    assert!(!same_path(&unc, &disk));
}

#[test]
fn equal_components_make_equal_paths() {
    assert!(same_path(&rp("/t/r"), &rp("/t/r/")));
    assert!(same_path(&rp("a/./b"), &rp("a//b")));
    assert!(!same_path(&rp("./a"), &rp("a")));
    let known = vec![rp("/x"), rp("/t/r/")];
    assert!(contains_path(&known, &rp("/t/r")));
    assert!(!contains_path(&known, &rp("/t")));
}

#[test]
fn sort_and_dedup_agree_with_std_paths() {
    let names = ["b/c", "../a", "-b", "a", "./a", "/z", "a-b", "a/b", "a//b", "b", ".", "..", "/", "a/../b", "b/c/"];
    let mut expected: Vec<PathBuf> = names.iter().map(PathBuf::from).collect();
    expected.sort();
    expected.dedup();
    let got = texts(&sort_dedup_by_key(names.iter().map(|n| rp(n)).collect()));
    let want: Vec<String> = expected.iter().map(|p| p.to_str().unwrap().to_string()).collect();
    assert_eq!(got, want);
}
