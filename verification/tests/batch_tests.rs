use radar_core::batch::{
    after_work_tree_check, collect_finished, count_succeeded, done_event, effective_concurrency,
    finish_batch, first_action, op_args, outcome_from_reply, skipped_outcome, started_event,
    BatchOp, BatchOutcome, RepoAction,
};
use radar_core::git::GitReply;

fn outcome(path: &str, ok: bool, skipped: bool) -> BatchOutcome {
    BatchOutcome {
        path: path.to_string(),
        action: "fetch",
        ok,
        skipped,
        exit_code: None,
        stdout: String::new(),
        stderr: String::new(),
    }
}

#[test]
fn op_names() {
    assert_eq!(BatchOp::Fetch.as_str(), "fetch");
    assert_eq!(BatchOp::Pull.as_str(), "pull");
}

#[test]
fn op_arguments() {
    assert_eq!(op_args(BatchOp::Fetch), vec!["fetch", "--all", "--prune"]);
    assert_eq!(op_args(BatchOp::Pull), vec!["pull", "--ff-only"]);
}

#[test]
fn fetch_runs_at_once_and_pull_checks_first() {
    match first_action(BatchOp::Fetch) {
        RepoAction::RunGit(args) => assert_eq!(args, vec!["fetch", "--all", "--prune"]),
        _ => panic!("fetch should run at once"),
    }
    assert!(matches!(first_action(BatchOp::Pull), RepoAction::CheckWorkTree));
}

#[test]
fn dirty_pull_is_skipped_clean_pull_runs() {
    match after_work_tree_check("/w/dirty-repo".to_string(), BatchOp::Pull, Some(" M f.txt\n")) {
        RepoAction::Finish(o) => {
            assert!(!o.ok);
            assert!(o.skipped);
            assert_eq!(o.path, "/w/dirty-repo");
            assert_eq!(o.action, "pull");
            assert_eq!(o.exit_code, None);
            assert_eq!(o.stdout, "");
            assert_eq!(o.stderr, "跳过：工作区有未提交改动");
        }
        _ => panic!("a dirty work tree must be skipped"),
    }
    match after_work_tree_check("/w/clean-repo".to_string(), BatchOp::Pull, Some("")) {
        RepoAction::RunGit(args) => assert_eq!(args, vec!["pull", "--ff-only"]),
        _ => panic!("a clean work tree is pulled"),
    }
    // git could not be started: nothing says the tree is dirty
    assert!(matches!(
        after_work_tree_check("/w/r".to_string(), BatchOp::Pull, None),
        RepoAction::RunGit(_)
    ));
}

#[test]
fn skipped_outcome_fields() {
    let o = skipped_outcome("/w/x".to_string(), BatchOp::Pull);
    assert!(o.skipped && !o.ok);
    assert_eq!(o.stderr, "跳过：工作区有未提交改动");
}

#[test]
fn outcomes_from_replies() {
    let o = outcome_from_reply(
        "/w/r".to_string(),
        BatchOp::Fetch,
        GitReply::Exited { success: true, code: Some(0), stdout: "out".to_string(), stderr: "err".to_string() },
    );
    assert!(o.ok && !o.skipped);
    assert_eq!((o.exit_code, o.stdout.as_str(), o.stderr.as_str(), o.action), (Some(0), "out", "err", "fetch"));

    let o = outcome_from_reply(
        "/w/r".to_string(),
        BatchOp::Fetch,
        GitReply::Exited { success: false, code: Some(128), stdout: String::new(), stderr: "fatal".to_string() },
    );
    assert!(!o.ok && !o.skipped);
    assert_eq!(o.exit_code, Some(128));

    let o = outcome_from_reply("/w/r".to_string(), BatchOp::Pull, GitReply::SpawnFailed { message: "no git".to_string() });
    assert!(!o.ok);
    assert_eq!(o.stderr, "无法执行 git: no git");
    let o = outcome_from_reply("/w/r".to_string(), BatchOp::Pull, GitReply::TaskFailed { message: "boom".to_string() });
    assert_eq!(o.stderr, "任务异常: boom");
    let o = outcome_from_reply("/w/r".to_string(), BatchOp::Pull, GitReply::TimedOut);
    assert_eq!(o.stderr, "操作超时（可能卡在凭据输入或网络）");
    assert_eq!(o.exit_code, None);
}

#[test]
fn progress_events() {
    let e = started_event("/w/a".to_string());
    assert_eq!((e.path.as_str(), e.phase, e.ok), ("/w/a", "started", true));
    let e = done_event(&outcome("/w/a", false, true));
    assert_eq!((e.phase, e.ok), ("done", true));
    let e = done_event(&outcome("/w/a", false, false));
    assert!(!e.ok);
    let e = done_event(&outcome("/w/a", true, false));
    assert!(e.ok);
}

#[test]
fn report_lists_outcomes_by_path() {
    let joined = vec![
        Some(outcome("/w/zoo", true, false)),
        None,
        Some(outcome("/w/alpha", true, false)),
        Some(outcome("/w/mid", false, false)),
    ];
    let r = finish_batch(BatchOp::Fetch, joined);
    assert_eq!(r.op, "fetch");
    let paths: Vec<&str> = r.outcomes.iter().map(|o| o.path.as_str()).collect();
    assert_eq!(paths, vec!["/w/alpha", "/w/mid", "/w/zoo"]);
}

#[test]
fn report_keeps_task_order_for_equal_paths() {
    let joined = vec![
        Some(outcome("/w/b", false, false)),
        Some(outcome("/w/a", true, false)),
        None,
        Some(outcome("/w/b", true, false)),
        Some(outcome("/w/b", false, true)),
    ];
    let r = finish_batch(BatchOp::Pull, joined);
    assert_eq!(r.op, "pull");
    let seen: Vec<(&str, bool, bool)> = r.outcomes.iter().map(|o| (o.path.as_str(), o.ok, o.skipped)).collect();
    assert_eq!(
        seen,
        vec![("/w/a", true, false), ("/w/b", false, false), ("/w/b", true, false), ("/w/b", false, true)]
    );
}

#[test]
fn report_orders_paths_by_their_bytes() {
    let joined = vec![Some(outcome("/w/a/b", true, false)), Some(outcome("/w/a-b", true, false)), Some(outcome("/w/a", true, false))];
    let r = finish_batch(BatchOp::Fetch, joined);
    let paths: Vec<&str> = r.outcomes.iter().map(|o| o.path.as_str()).collect();
    assert_eq!(paths, vec!["/w/a", "/w/a-b", "/w/a/b"]);
}

#[test]
fn finished_results_keep_task_order() {
    let r = collect_finished(vec![Some("zoo"), None, Some("alpha"), Some("mid")]);
    assert_eq!(r, vec!["zoo", "alpha", "mid"]);
    let r: Vec<u8> = collect_finished(vec![]);
    assert!(r.is_empty());
}

#[test]
fn succeeded_count_leaves_out_skipped_and_failed() {
    let v = vec![outcome("a", true, false), outcome("b", false, true), outcome("c", false, false), outcome("d", true, false)];
    assert_eq!(count_succeeded(&v), 2);
}

#[test]
fn concurrency_is_at_least_one() {
    assert_eq!(effective_concurrency(0), 1);
    assert_eq!(effective_concurrency(1), 1);
    assert_eq!(effective_concurrency(8), 8);
}
