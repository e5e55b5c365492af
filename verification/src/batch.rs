//! Batch fetch / pull over many repositories: what is run, what is skipped, and
//! what is reported.

use vstd::prelude::*;
use crate::git::{has_uncommitted, has_uncommitted_spec, GitReply};
use crate::text::is_ws;
use crate::order::{
    bytes_less, bytes_lt, lemma_bytes_lt_irreflexive, lemma_bytes_lt_total,
    lemma_bytes_lt_transitive, sort_by_key, sorted_by_key, with_key, SortKey,
};
use vstd::utf8::encode_utf8;

verus! {

/// The kind of a batch operation.
#[derive(Debug, Clone, Copy, PartialEq, Eq, Structural)]
pub enum BatchOp {
    Fetch,
    Pull,
}

/// The name of an operation as it is reported to the user.
pub open spec fn op_name(op: BatchOp) -> Seq<char> {
    match op {
        BatchOp::Fetch => "fetch"@,
        BatchOp::Pull => "pull"@,
    }
}

impl BatchOp {
    pub fn as_str(&self) -> (name: &'static str)
        ensures
            name@ == op_name(*self),
    {
        match self {
            BatchOp::Fetch => "fetch",
            BatchOp::Pull => "pull",
        }
    }
}

/// The result of a batch operation on one repository.
#[derive(Debug, Clone)]
pub struct BatchOutcome {
    pub path: String,
    pub action: &'static str,
    /// The git command succeeded.
    pub ok: bool,
    /// Skipped because the work tree was dirty (pull only).
    pub skipped: bool,
    pub exit_code: Option<i32>,
    pub stdout: String,
    pub stderr: String,
}

/// The report of a whole batch operation.
#[derive(Debug, Clone)]
pub struct BatchReport {
    pub op: &'static str,
    pub outcomes: Vec<BatchOutcome>,
}

/// Progress of a batch operation on one repository.
#[derive(Debug, Clone)]
pub struct BatchEvent {
    pub path: String,
    /// `started` or `done`.
    pub phase: &'static str,
    pub ok: bool,
}

/// Outcomes are listed by path, in the byte order of `String`.
impl SortKey for BatchOutcome {
    type Key = Seq<u8>;

    open spec fn sort_key(&self) -> Seq<u8> {
        encode_utf8(self.path@)
    }

    open spec fn key_lt(a: Seq<u8>, b: Seq<u8>) -> bool {
        bytes_lt(a, b)
    }

    proof fn lemma_key_lt_irreflexive(a: Seq<u8>) {
        lemma_bytes_lt_irreflexive(a);
    }

    proof fn lemma_key_lt_transitive(a: Seq<u8>, b: Seq<u8>, c: Seq<u8>) {
        lemma_bytes_lt_transitive(a, b, c);
    }

    proof fn lemma_key_lt_total(a: Seq<u8>, b: Seq<u8>) {
        lemma_bytes_lt_total(a, b);
    }

    fn comes_before(&self, other: &Self) -> (r: bool) {
        bytes_less(self.path.as_str().as_bytes(), other.path.as_str().as_bytes())
    }
}

/// The git arguments of an operation.
pub open spec fn op_args_spec(op: BatchOp) -> Seq<Seq<char>> {
    match op {
        BatchOp::Fetch => seq!["fetch"@, "--all"@, "--prune"@],
        BatchOp::Pull => seq!["pull"@, "--ff-only"@],
    }
}

/// The git arguments of an operation: a fetch of all remotes that prunes, or a
/// fast-forward-only pull.
pub fn op_args(op: BatchOp) -> (r: Vec<&'static str>)
    ensures
        r@.map_values(|s: &'static str| s@) == op_args_spec(op),
{
    match op {
        BatchOp::Fetch => {
            let r = vec!["fetch", "--all", "--prune"];
            assert(r@.map_values(|s: &'static str| s@) =~= op_args_spec(op));
            r
        },
        BatchOp::Pull => {
            let r = vec!["pull", "--ff-only"];
            assert(r@.map_values(|s: &'static str| s@) =~= op_args_spec(op));
            r
        },
    }
}

/// The message of a repository that a pull skipped.
pub open spec fn skipped_message() -> Seq<char> {
    "跳过：工作区有未提交改动"@
}

/// The outcome of a pull that was skipped because the work tree was dirty.
pub fn skipped_outcome(path: String, op: BatchOp) -> (o: BatchOutcome)
    ensures
        o.path == path,
        o.action@ == op_name(op),
        !o.ok,
        o.skipped,
        o.exit_code is None,
        o.stdout@ == Seq::<char>::empty(),
        o.stderr@ == skipped_message(),
{
    BatchOutcome {
        path,
        action: op.as_str(),
        ok: false,
        skipped: true,
        exit_code: None,
        stdout: String::new(),
        stderr: String::from_str("跳过：工作区有未提交改动"),
    }
}

/// What to do next with one repository of a batch.
pub enum RepoAction {
    /// Run `git status --porcelain=v2` to see whether the work tree is dirty.
    CheckWorkTree,
    /// Run git with these arguments.
    RunGit(Vec<&'static str>),
    /// Nothing more to run: this is the outcome.
    Finish(BatchOutcome),
}

/// The arguments of `a`, when it runs git.
pub open spec fn run_args(a: RepoAction) -> Option<Seq<Seq<char>>> {
    match a {
        RepoAction::RunGit(args) => Some(args@.map_values(|s: &'static str| s@)),
        _ => None,
    }
}

/// The first step on a repository: a pull first looks at the work tree, which a
/// fetch leaves alone and runs at once.
pub fn first_action(op: BatchOp) -> (a: RepoAction)
    ensures
        op == BatchOp::Pull ==> a is CheckWorkTree,
        op == BatchOp::Fetch ==> run_args(a) == Some(op_args_spec(op)),
{
    match op {
        BatchOp::Pull => RepoAction::CheckWorkTree,
        BatchOp::Fetch => RepoAction::RunGit(op_args(op)),
    }
}

/// The step after the work tree was looked at (`status_output` is `None` when
/// git could not be started): a dirty work tree is skipped, untouched; a clean
/// one gets the operation.
pub fn after_work_tree_check(path: String, op: BatchOp, status_output: Option<&str>) -> (a: RepoAction)
    ensures
        has_uncommitted_spec(
            match status_output {
                Some(o) => Some(o@),
                None => None,
            },
        ) ==> match a {
            RepoAction::Finish(o) => {
                &&& o.path == path
                &&& o.action@ == op_name(op)
                &&& !o.ok
                &&& o.skipped
                &&& o.exit_code is None
                &&& o.stdout@ == Seq::<char>::empty()
                &&& o.stderr@ == skipped_message()
            },
            _ => false,
        },
        !has_uncommitted_spec(
            match status_output {
                Some(o) => Some(o@),
                None => None,
            },
        ) ==> run_args(a) == Some(op_args_spec(op)),
        (status_output matches Some(o) && exists|i: int| 0 <= i < o@.len() && !is_ws(#[trigger] o@[i]))
            ==> (a matches RepoAction::Finish(out) && out.skipped && !out.ok && out.path == path
            && out.stderr@ == "跳过：工作区有未提交改动"@),
        !(status_output matches Some(o) && exists|i: int| 0 <= i < o@.len() && !is_ws(#[trigger] o@[i]))
            ==> (a matches RepoAction::RunGit(args) && args@.map_values(|s: &'static str| s@) == op_args_spec(op)),
{
    if has_uncommitted(status_output) {
        RepoAction::Finish(skipped_outcome(path, op))
    } else {
        RepoAction::RunGit(op_args(op))
    }
}

/// The outcome that a git run (or its failure to run) gives.
pub fn outcome_from_reply(path: String, op: BatchOp, reply: GitReply) -> (o: BatchOutcome)
    ensures
        o.path == path,
        o.action@ == op_name(op),
        !o.skipped,
        match reply {
            GitReply::Exited { success, code, stdout, stderr } => {
                &&& o.ok == success
                &&& o.exit_code == code
                &&& o.stdout == stdout
                &&& o.stderr == stderr
            },
            GitReply::SpawnFailed { message } => {
                &&& !o.ok
                &&& o.exit_code is None
                &&& o.stdout@ == Seq::<char>::empty()
                &&& o.stderr@ == "无法执行 git: "@ + message@
            },
            GitReply::TaskFailed { message } => {
                &&& !o.ok
                &&& o.exit_code is None
                &&& o.stdout@ == Seq::<char>::empty()
                &&& o.stderr@ == "任务异常: "@ + message@
            },
            GitReply::TimedOut => {
                &&& !o.ok
                &&& o.exit_code is None
                &&& o.stdout@ == Seq::<char>::empty()
                &&& o.stderr@ == "操作超时（可能卡在凭据输入或网络）"@
            },
        },
{
    let action = op.as_str();
    match reply {
        GitReply::Exited { success, code, stdout, stderr } => BatchOutcome {
            path,
            action,
            ok: success,
            skipped: false,
            exit_code: code,
            stdout,
            stderr,
        },
        GitReply::SpawnFailed { message } => {
            let mut stderr = String::from_str("无法执行 git: ");
            stderr.append(message.as_str());
            BatchOutcome {
                path,
                action,
                ok: false,
                skipped: false,
                exit_code: None,
                stdout: String::new(),
                stderr,
            }
        },
        GitReply::TaskFailed { message } => {
            let mut stderr = String::from_str("任务异常: ");
            stderr.append(message.as_str());
            BatchOutcome {
                path,
                action,
                ok: false,
                skipped: false,
                exit_code: None,
                stdout: String::new(),
                stderr,
            }
        },
        GitReply::TimedOut => BatchOutcome {
            path,
            action,
            ok: false,
            skipped: false,
            exit_code: None,
            stdout: String::new(),
            stderr: String::from_str("操作超时（可能卡在凭据输入或网络）"),
        },
    }
}

/// The event sent when work on a repository starts.
pub fn started_event(path: String) -> (e: BatchEvent)
    ensures
        e.path == path,
        e.phase@ == "started"@,
        e.ok,
{
    BatchEvent { path, phase: "started", ok: true }
}

/// The event sent when work on a repository is done: it counts as fine when the
/// command succeeded or the repository was skipped.
pub fn done_event(o: &BatchOutcome) -> (e: BatchEvent)
    ensures
        e.path@ == o.path@,
        e.phase@ == "done"@,
        e.ok == (o.ok || o.skipped),
{
    BatchEvent { path: o.path.clone(), phase: "done", ok: o.ok || o.skipped }
}

/// The number of tasks that may run at once: the requested number, at least one.
pub fn effective_concurrency(requested: usize) -> (n: usize)
    ensures
        n == if requested == 0 {
            1
        } else {
            requested
        },
{
    if requested == 0 {
        1
    } else {
        requested
    }
}

/// The values that are present, in order.
pub open spec fn somes<T>(s: Seq<Option<T>>) -> Seq<T>
    decreases s.len(),
{
    if s.len() == 0 {
        Seq::empty()
    } else {
        match s.last() {
            Some(x) => somes(s.drop_last()).push(x),
            None => somes(s.drop_last()),
        }
    }
}

/// The results of the tasks that finished, in the order of the tasks; a task that
/// failed (`None`) leaves no result.
pub fn collect_finished<T>(joined: Vec<Option<T>>) -> (r: Vec<T>)
    ensures
        r@ == somes(joined@),
{
    broadcast use vstd::std_specs::vec::axiom_spec_into_iter;

    let ghost j = joined@;
    let mut r: Vec<T> = Vec::new();
    for x in it: joined.into_iter()
        invariant
            it.seq() == j,
            0 <= it.index() <= j.len(),
            r@ == somes(j.take(it.index())),
    {
        proof {
            assert(j.take(it.index() + 1).drop_last() =~= j.take(it.index()));
        }
        match x {
            Some(v) => {
                r.push(v);
            },
            None => {},
        }
    }
    assert(j.take(j.len() as int) =~= j);
    r
}

/// The report of a batch: the outcomes of the tasks that finished, listed by
/// path; outcomes with the same path stay in the order of their tasks.
pub fn finish_batch(op: BatchOp, joined: Vec<Option<BatchOutcome>>) -> (r: BatchReport)
    ensures
        r.op@ == op_name(op),
        r.outcomes@.to_multiset() == somes(joined@).to_multiset(),
        sorted_by_key(r.outcomes@),
        forall|k: Seq<u8>| #[trigger] with_key(r.outcomes@, k) == with_key(somes(joined@), k),
        forall|i: int, j: int|
            0 <= i < j < r.outcomes@.len() ==> !bytes_lt(
                encode_utf8(#[trigger] r.outcomes@[j].path@),
                encode_utf8(#[trigger] r.outcomes@[i].path@),
            ),
{
    let done = collect_finished(joined);
    let outcomes = sort_by_key(done);
    proof {
        assert forall|i: int, j: int| 0 <= i < j < outcomes@.len() implies !bytes_lt(
            encode_utf8(#[trigger] outcomes@[j].path@),
            encode_utf8(#[trigger] outcomes@[i].path@),
        ) by {
            assert(!BatchOutcome::key_lt(outcomes@[j].sort_key(), outcomes@[i].sort_key()));
        }
    }
    BatchReport { op: op.as_str(), outcomes }
}

/// The number of repositories on which the git command succeeded and that were
/// not skipped.
pub open spec fn succeeded_count(s: Seq<BatchOutcome>) -> nat
    decreases s.len(),
{
    if s.len() == 0 {
        0
    } else {
        succeeded_count(s.drop_last()) + if s.last().ok && !s.last().skipped {
            1nat
        } else {
            0nat
        }
    }
}

/// Counts the repositories on which the git command succeeded and that were not
/// skipped.
pub fn count_succeeded(outcomes: &Vec<BatchOutcome>) -> (n: usize)
    ensures
        n == succeeded_count(outcomes@),
{
    let mut n: usize = 0;
    let mut i: usize = 0;
    assert(outcomes@.take(0) =~= Seq::<BatchOutcome>::empty());
    while i < outcomes.len()
        invariant
            i <= outcomes.len(),
            n == succeeded_count(outcomes@.take(i as int)),
            n <= i,
        decreases outcomes.len() - i,
    {
        assert(outcomes@.take(i + 1).drop_last() =~= outcomes@.take(i as int));
        if outcomes[i].ok && !outcomes[i].skipped {
            n = n + 1;
        }
        i = i + 1;
    }
    assert(outcomes@.take(outcomes.len() as int) =~= outcomes@);
    n
}

} // verus!
