use radar_core::git::{has_uncommitted, GitReply};
use radar_core::status::{
    last_commit_from, missing_repo_status, parse_status_v2, remote_url_from, repo_status_from,
    status_counts_fit, status_error, status_reply_fits,
};
use radar_core::text::trimmed;

fn exited(success: bool, code: Option<i32>, stdout: &str, stderr: &str) -> GitReply {
    GitReply::Exited {
        success,
        code,
        stdout: stdout.to_string(),
        stderr: stderr.to_string(),
    }
}

#[test]
fn parse_clean_repository_on_main() {
    let out = "# branch.oid 0123456789abcdef\n# branch.head main\n";
    let r = parse_status_v2(out);
    assert_eq!(r, (Some("main".to_string()), true, 0, 0, 0, 0, 0, 0));
}

#[test]
fn parse_modified_and_untracked() {
    let out = "# branch.oid abc\n# branch.head main\n1 .M N... 100644 100644 100644 aaa bbb f.txt\n? new.txt\n";
    let (branch, clean, dirty, staged, unstaged, untracked, ahead, behind) = parse_status_v2(out);
    assert_eq!(branch.as_deref(), Some("main"));
    assert!(!clean);
    assert_eq!((dirty, staged, unstaged, untracked), (2, 0, 1, 1));
    assert_eq!((ahead, behind), (0, 0));
}

#[test]
fn parse_staged_plus_untracked() {
    let out = "1 M. N... 100644 100644 100644 aaa bbb f.txt\n? new.txt\n";
    let r = parse_status_v2(out);
    assert_eq!((r.2, r.3, r.4, r.5), (2, 1, 0, 1));
}

#[test]
fn parse_renamed_and_unmerged() {
    let out = "2 R. N... 100644 100644 100644 a b R100 new\told\nu UU N... 1 2 3 4 a b c f\n";
    let r = parse_status_v2(out);
    assert_eq!((r.3, r.4, r.5), (2, 1, 0));
    assert_eq!(r.2, 3);
}

#[test]
fn parse_detached_head_has_no_branch() {
    let r = parse_status_v2("# branch.oid abc\n# branch.head (detached)\n");
    assert_eq!(r.0, None);
    assert!(r.1);
}

#[test]
fn parse_ahead_behind() {
    let r = parse_status_v2("# branch.head main\n# branch.upstream origin/main\n# branch.ab +1 -2\n");
    assert_eq!((r.6, r.7), (1, 2));
}

#[test]
fn parse_ahead_behind_bad_numbers_become_zero() {
    let r = parse_status_v2("# branch.ab +x -3\n");
    assert_eq!((r.6, r.7), (0, 3));
    let r = parse_status_v2("# branch.ab ++5 -99999999999\n");
    assert_eq!((r.6, r.7), (5, 0));
}

#[test]
fn parse_crlf_lines_and_trimmed_branch() {
    let r = parse_status_v2("# branch.head  feature \r\n? a\r\n");
    assert_eq!(r.0.as_deref(), Some("feature"));
    assert_eq!(r.5, 1);
}

#[test]
fn parse_xy_read_as_bytes() {
    // one multi-byte character: two bytes, neither is '.'
    let r = parse_status_v2("1 é rest\n");
    assert_eq!((r.3, r.4), (1, 1));
    // one ASCII character: fewer than two bytes, nothing counted
    let r = parse_status_v2("1 M rest\n");
    assert_eq!((r.3, r.4), (0, 0));
    // no XY field at all
    let r = parse_status_v2("1 \n");
    assert_eq!((r.3, r.4), (0, 0));
}

#[test]
fn parse_empty_output() {
    assert_eq!(parse_status_v2(""), (None, true, 0, 0, 0, 0, 0, 0));
    assert!(status_counts_fit(""));
}

#[test]
fn uncommitted_changes_from_short_status() {
    assert!(!has_uncommitted(Some("")));
    assert!(!has_uncommitted(Some("  \n")));
    assert!(has_uncommitted(Some("1 .M N... f\n")));
    assert!(!has_uncommitted(None));
}

#[test]
fn trimming_uses_unicode_whitespace() {
    assert_eq!(trimmed("\u{3000} x y\t\n"), "x y");
    assert_eq!(trimmed(""), "");
}

#[test]
fn remote_url_is_trimmed_output() {
    assert_eq!(remote_url_from(&exited(true, Some(0), "  https://example.com/r.git\n", "")), Some("https://example.com/r.git".to_string()));
    assert_eq!(remote_url_from(&exited(true, Some(0), "\n", "")), None);
    assert_eq!(remote_url_from(&exited(false, Some(1), "x", "")), None);
    assert_eq!(remote_url_from(&GitReply::TimedOut), None);
}

#[test]
fn last_commit_time_parses_as_i64() {
    assert_eq!(last_commit_from(&exited(true, Some(0), "1700000000\n", "")), Some(1700000000));
    assert_eq!(last_commit_from(&exited(true, Some(0), "-5", "")), Some(-5));
    assert_eq!(last_commit_from(&exited(true, Some(0), "+7", "")), Some(7));
    assert_eq!(last_commit_from(&exited(true, Some(0), "abc", "")), None);
    assert_eq!(last_commit_from(&exited(true, Some(0), "", "")), None);
    assert_eq!(last_commit_from(&exited(true, Some(0), "9223372036854775807", "")), Some(i64::MAX));
    assert_eq!(last_commit_from(&exited(true, Some(0), "9223372036854775808", "")), None);
    assert_eq!(last_commit_from(&exited(true, Some(0), "-9223372036854775808", "")), Some(i64::MIN));
    assert_eq!(last_commit_from(&exited(false, Some(0), "12", "")), None);
}

#[test]
fn status_errors_name_what_failed() {
    assert_eq!(
        status_error(&exited(false, Some(128), "", "fatal: not a git repository\n")).as_deref(),
        Some("git status 失败 (exit Some(128)): fatal: not a git repository")
    );
    assert_eq!(
        status_error(&exited(false, None, "", "")).as_deref(),
        Some("git status 失败 (exit None): ")
    );
    assert_eq!(
        status_error(&exited(false, Some(-1), "", "x")).as_deref(),
        Some("git status 失败 (exit Some(-1)): x")
    );
    assert_eq!(status_error(&exited(true, Some(0), "", "")), None);
    assert_eq!(
        status_error(&GitReply::SpawnFailed { message: "not found".to_string() }).as_deref(),
        Some("无法执行 git: not found")
    );
    assert_eq!(
        status_error(&GitReply::TaskFailed { message: "panic".to_string() }).as_deref(),
        Some("任务异常: panic")
    );
    assert_eq!(
        status_error(&GitReply::TimedOut).as_deref(),
        Some("读取状态超时（可能有进程卡在凭据输入）")
    );
}

#[test]
fn missing_directory_status() {
    let st = missing_repo_status("/nonexistent/definitely-not-here".to_string(), Some("definitely-not-here".to_string()));
    assert!(st.missing);
    assert!(st.error.is_some());
    assert_eq!(st.error.as_deref(), Some("目录不存在或不是 git 仓库"));
    assert!(!st.is_clean);
    assert_eq!(st.name, "definitely-not-here");
    let st = missing_repo_status("/".to_string(), None);
    assert_eq!(st.name, "/");
}

#[test]
fn status_of_a_repository_from_its_replies() {
    let status = exited(true, Some(0), "# branch.head main\n# branch.ab +0 -2\n", "");
    let remote = exited(true, Some(0), "https://example.com/o.git\n", "");
    let log = exited(true, Some(0), "1700000001\n", "");
    assert!(status_reply_fits(&status));
    let st = repo_status_from("/w/work".to_string(), Some("work".to_string()), false, Some(5), &status, &remote, &log);
    assert_eq!(st.path, "/w/work");
    assert_eq!(st.name, "work");
    assert_eq!(st.branch.as_deref(), Some("main"));
    assert!(st.is_clean);
    assert_eq!(st.behind, 2);
    assert_eq!(st.ahead, 0);
    assert_eq!(st.remote_url.as_deref(), Some("https://example.com/o.git"));
    assert_eq!(st.last_commit_ts, Some(1700000001));
    assert_eq!(st.fetch_head_ts, Some(5));
    assert!(!st.missing);
    assert!(st.error.is_none());
}

#[test]
fn status_of_a_repository_when_git_fails() {
    let status = GitReply::TimedOut;
    let remote = exited(false, Some(1), "", "");
    let log = GitReply::SpawnFailed { message: "x".to_string() };
    let st = repo_status_from("/w/r".to_string(), None, true, None, &status, &remote, &log);
    assert_eq!(st.name, "/w/r");
    assert!(st.is_worktree);
    assert!(!st.is_clean);
    assert_eq!(st.branch, None);
    assert_eq!(st.dirty_count, 0);
    assert_eq!(st.remote_url, None);
    assert_eq!(st.last_commit_ts, None);
    assert_eq!(st.error.as_deref(), Some("读取状态超时（可能有进程卡在凭据输入）"));
}

#[test]
fn reported_counts_add_up() {
    let out = "# branch.head dev\n1 MM N... 100644 100644 100644 a b f1\n1 .M N... 100644 100644 100644 a b f2\n? new.txt\n";
    let status = exited(true, Some(0), out, "");
    let none = exited(false, Some(1), "", "");
    let st = repo_status_from("/w/d".to_string(), Some("d".to_string()), false, None, &status, &none, &none);
    assert_eq!((st.staged, st.unstaged, st.untracked), (1, 2, 1));
    assert_eq!(st.dirty_count, st.staged + st.unstaged + st.untracked);
    assert_eq!(st.dirty_count, 4);
    assert!(!st.is_clean);
    assert!(st.error.is_none() && !st.missing);

    let failed = exited(false, Some(128), "", "fatal: not a git repository");
    let st = repo_status_from("/w/e".to_string(), None, false, None, &failed, &none, &none);
    assert!(st.error.is_some());
    assert!(!st.is_clean);
    assert_eq!(st.dirty_count, st.staged + st.unstaged + st.untracked);
}
