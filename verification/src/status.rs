//! What a repository's state is, read from the text that git prints.

use vstd::prelude::*;
use vstd::utf8::*;
use crate::git::{success_output, GitReply};
use crate::text::{
    chars_of, has_prefix, parse_i64, parse_i64_range, push_signed_decimal, signed_decimal, trimmed, line_bounds, lines_of, parse_u32, parse_u32_range, range_equals, ranges_within,
    slices, starts_with, string_of_range, token_bounds, tokens_of, trim, trim_bounds,
};

verus! {

// ---------------------------------------------------------------------------
// The meaning of `git status --porcelain=v2 --branch`
// ---------------------------------------------------------------------------

/// What the status lines read so far say.
pub struct StatusTally {
    /// The current branch; `None` while no `branch.head` line named one.
    pub branch: Option<Seq<char>>,
    /// Entries whose index column shows a change.
    pub staged: nat,
    /// Entries whose work-tree column shows a change.
    pub unstaged: nat,
    /// Untracked entries.
    pub untracked: nat,
    /// Commits ahead of the upstream.
    pub ahead: u32,
    /// Commits behind the upstream.
    pub behind: u32,
}

pub open spec fn empty_tally() -> StatusTally {
    StatusTally { branch: None, staged: 0, unstaged: 0, untracked: 0, ahead: 0, behind: 0 }
}

/// The number a `+n` / `-n` token of a `branch.ab` line gives; 0 when it does not parse.
pub open spec fn ab_count(n: Seq<char>) -> u32 {
    match parse_u32(n) {
        Some(x) => x,
        None => 0,
    }
}

/// One token of a `branch.ab` line.
pub open spec fn ab_step(t: StatusTally, tok: Seq<char>) -> StatusTally {
    if tok.len() > 0 && tok[0] == '+' {
        StatusTally { ahead: ab_count(tok.drop_first()), ..t }
    } else if tok.len() > 0 && tok[0] == '-' {
        StatusTally { behind: ab_count(tok.drop_first()), ..t }
    } else {
        t
    }
}

/// The tokens of a `branch.ab` line, in order.
pub open spec fn ab_fold(t: StatusTally, toks: Seq<Seq<char>>) -> StatusTally
    decreases toks.len(),
{
    if toks.len() == 0 {
        t
    } else {
        ab_step(ab_fold(t, toks.drop_last()), toks.last())
    }
}

/// The `XY` field of a changed-entry line: its second whitespace-separated field, or `..`.
pub open spec fn entry_xy(line: Seq<char>) -> Seq<char> {
    let f = tokens_of(line);
    if f.len() >= 2 {
        f[1]
    } else {
        ".."@
    }
}

/// The index column of `XY` shows a change: the UTF-8 text has two bytes or more,
/// and the first is not `.`.
pub open spec fn xy_staged(xy: Seq<char>) -> bool {
    let b = encode_utf8(xy);
    b.len() >= 2 && b[0] != 0x2Eu8
}

/// The work-tree column of `XY` shows a change: the UTF-8 text has two bytes or
/// more, and the second is not `.`.
pub open spec fn xy_unstaged(xy: Seq<char>) -> bool {
    let b = encode_utf8(xy);
    b.len() >= 2 && b[1] != 0x2Eu8
}

pub open spec fn one_if(b: bool) -> nat {
    if b {
        1
    } else {
        0
    }
}

/// What one line of the status output adds to what is known.
pub open spec fn apply_line(t: StatusTally, line: Seq<char>) -> StatusTally {
    if starts_with(line, "# branch.head "@) {
        let b = trim(line.skip("# branch.head "@.len() as int));
        if b != "(detached)"@ {
            StatusTally { branch: Some(b), ..t }
        } else {
            t
        }
    } else if starts_with(line, "# branch.ab "@) {
        ab_fold(t, tokens_of(line.skip("# branch.ab "@.len() as int)))
    } else if starts_with(line, "? "@) {
        StatusTally { untracked: t.untracked + 1, ..t }
    } else if starts_with(line, "1 "@) || starts_with(line, "2 "@) || starts_with(line, "u "@) {
        let xy = entry_xy(line);
        StatusTally {
            staged: t.staged + one_if(xy_staged(xy)),
            unstaged: t.unstaged + one_if(xy_unstaged(xy)),
            ..t
        }
    } else {
        t
    }
}

/// What the lines say, read in order.
pub open spec fn tally_lines(t: StatusTally, ls: Seq<Seq<char>>) -> StatusTally
    decreases ls.len(),
{
    if ls.len() == 0 {
        t
    } else {
        apply_line(tally_lines(t, ls.drop_last()), ls.last())
    }
}

/// What a whole status output says.
pub open spec fn status_tally(text: Seq<char>) -> StatusTally {
    tally_lines(empty_tally(), lines_of(text))
}

/// The number of uncommitted entries that the status output reports.
pub open spec fn dirty_total(t: StatusTally) -> nat {
    t.staged + t.unstaged + t.untracked
}

pub open spec fn opt_string_view(o: Option<String>) -> Option<Seq<char>> {
    match o {
        Some(s) => Some(s@),
        None => None,
    }
}

// ---------------------------------------------------------------------------
// UTF-8 facts about the first characters of a field
// ---------------------------------------------------------------------------

proof fn lemma_scalar_bytes(c: char)
    ensures
        encode_scalar(c as u32).len() >= 1,
        (encode_scalar(c as u32)[0] == 0x2Eu8) == (c == '.'),
        (c as u32) < 0x80 ==> encode_scalar(c as u32).len() == 1,
        (c as u32) >= 0x80 ==> encode_scalar(c as u32).len() >= 2 && encode_scalar(
            c as u32,
        )[1] != 0x2Eu8,
{
    let u = c as u32;
    if has_width_1_encoding(u) {
        assert(((u & 0x7F) as u8 == 0x2Eu8) == (u == 0x2E)) by (bit_vector)
            requires
                u <= 0x7F,
        ;
    } else if has_width_2_encoding(u) {
        assert((0xC0u8 | ((u >> 6) & 0x1F) as u8) != 0x2Eu8) by (bit_vector);
        assert((0x80u8 | (u & 0x3F) as u8) != 0x2Eu8) by (bit_vector);
    } else if has_width_3_encoding(u) {
        assert((0xE0u8 | ((u >> 12) & 0x0F) as u8) != 0x2Eu8) by (bit_vector);
        assert((0x80u8 | ((u >> 6) & 0x3F) as u8) != 0x2Eu8) by (bit_vector);
    } else {
        assert((0xF0u8 | ((u >> 18) & 0x7) as u8) != 0x2Eu8) by (bit_vector);
        assert((0x80u8 | ((u >> 12) & 0x3F) as u8) != 0x2Eu8) by (bit_vector);
    }
}

/// The two flags of `XY`, read from its characters.
pub proof fn lemma_xy_flags(xy: Seq<char>)
    ensures
        xy_staged(xy) == (xy.len() > 0 && if (xy[0] as u32) < 0x80 {
            xy.len() >= 2 && xy[0] != '.'
        } else {
            true
        }),
        xy_unstaged(xy) == (xy.len() > 0 && if (xy[0] as u32) < 0x80 {
            xy.len() >= 2 && xy[1] != '.'
        } else {
            true
        }),
{
    if xy.len() > 0 {
        let rest = xy.drop_first();
        lemma_scalar_bytes(xy[0]);
        assert(encode_utf8(xy) == encode_scalar(xy[0] as u32) + encode_utf8(rest));
        if rest.len() > 0 {
            lemma_scalar_bytes(rest[0]);
            assert(encode_utf8(rest) == encode_scalar(rest[0] as u32) + encode_utf8(
                rest.drop_first(),
            ));
        } else {
            assert(encode_utf8(rest) == Seq::<u8>::empty());
        }
    } else {
        assert(encode_utf8(xy) == Seq::<u8>::empty());
    }
}

// ---------------------------------------------------------------------------
// Reading the status output
// ---------------------------------------------------------------------------

struct Tally {
    branch: Option<String>,
    staged: usize,
    unstaged: usize,
    untracked: usize,
    ahead: u32,
    behind: u32,
}

impl View for Tally {
    type V = StatusTally;

    closed spec fn view(&self) -> StatusTally {
        StatusTally {
            branch: opt_string_view(self.branch),
            staged: self.staged as nat,
            unstaged: self.unstaged as nat,
            untracked: self.untracked as nat,
            ahead: self.ahead,
            behind: self.behind,
        }
    }
}

/// The tokens of a `branch.ab` line, applied in order.
fn apply_ab_tokens(v: &Vec<char>, lo: usize, hi: usize, t: &mut Tally)
    requires
        lo <= hi <= v.len(),
    ensures
        final(t)@ == ab_fold(old(t)@, tokens_of(v@.subrange(lo as int, hi as int))),
        final(t).staged == old(t).staged,
        final(t).unstaged == old(t).unstaged,
        final(t).untracked == old(t).untracked,
{
    let toks = token_bounds(v, lo, hi);
    let ghost all = tokens_of(v@.subrange(lo as int, hi as int));
    let ghost t0 = t@;
    let mut k: usize = 0;
    assert(slices(v@, toks@).take(0) =~= Seq::<Seq<char>>::empty());
    while k < toks.len()
        invariant
            k <= toks.len(),
            ranges_within(toks@, v@.len() as int),
            slices(v@, toks@) == all,
            t@ == ab_fold(t0, all.take(k as int)),
            t.staged == old(t).staged,
            t.unstaged == old(t).unstaged,
            t.untracked == old(t).untracked,
        decreases toks.len() - k,
    {
        let (a, b) = toks[k];
        assert(toks@[k as int].0 <= toks@[k as int].1 <= v@.len());
        let ghost tok = v@.subrange(a as int, b as int);
        assert(all[k as int] == tok);
        assert(all.take(k + 1).drop_last() =~= all.take(k as int));
        assert(all.take(k + 1).last() == tok);
        if b > a && v[a] == '+' {
            assert(tok.drop_first() =~= v@.subrange(a + 1, b as int));
            t.ahead = match parse_u32_range(v, a + 1, b) {
                Some(n) => n,
                None => 0,
            };
        } else if b > a && v[a] == '-' {
            assert(tok.drop_first() =~= v@.subrange(a + 1, b as int));
            t.behind = match parse_u32_range(v, a + 1, b) {
                Some(n) => n,
                None => 0,
            };
        }
        k = k + 1;
    }
    assert(all.take(toks@.len() as int) =~= all);
}

/// One line of the status output, `v[lo..hi]`, applied to what is known.
fn apply_line_range(v: &Vec<char>, lo: usize, hi: usize, t: &mut Tally)
    requires
        lo <= hi <= v.len(),
        old(t).staged < usize::MAX,
        old(t).unstaged < usize::MAX,
        old(t).untracked < usize::MAX,
    ensures
        final(t)@ == apply_line(old(t)@, v@.subrange(lo as int, hi as int)),
        final(t).staged <= old(t).staged + 1,
        final(t).unstaged <= old(t).unstaged + 1,
        final(t).untracked <= old(t).untracked + 1,
{
    let ghost line = v@.subrange(lo as int, hi as int);
    let head = chars_of("# branch.head ");
    let ab = chars_of("# branch.ab ");
    let untracked = chars_of("? ");
    let ordinary = chars_of("1 ");
    let renamed = chars_of("2 ");
    let unmerged = chars_of("u ");
    if has_prefix(v, lo, hi, &head) {
        let start = lo + head.len();
        assert(line.skip(head@.len() as int) =~= v@.subrange(start as int, hi as int));
        let (a, b) = trim_bounds(v, start, hi);
        let detached = chars_of("(detached)");
        if !range_equals(v, a, b, &detached) {
            t.branch = Some(string_of_range(v, a, b));
        }
    } else if has_prefix(v, lo, hi, &ab) {
        let start = lo + ab.len();
        assert(line.skip(ab@.len() as int) =~= v@.subrange(start as int, hi as int));
        apply_ab_tokens(v, start, hi, t);
    } else if has_prefix(v, lo, hi, &untracked) {
        t.untracked = t.untracked + 1;
    } else if has_prefix(v, lo, hi, &ordinary) || has_prefix(v, lo, hi, &renamed) || has_prefix(
        v,
        lo,
        hi,
        &unmerged,
    ) {
        let fields = token_bounds(v, lo, hi);
        let mut staged = false;
        let mut unstaged = false;
        if fields.len() >= 2 {
            let (a, b) = fields[1];
            assert(fields@[1].0 <= fields@[1].1 <= v@.len());
            let ghost xy = v@.subrange(a as int, b as int);
            assert(slices(v@, fields@)[1] == xy);
            assert(entry_xy(line) == xy);
            proof {
                lemma_xy_flags(xy);
            }
            if b > a {
                if (v[a] as u32) < 0x80 {
                    staged = b - a >= 2 && v[a] != '.';
                    unstaged = b - a >= 2 && v[a + 1] != '.';
                } else {
                    staged = true;
                    unstaged = true;
                }
            }
        } else {
            proof {
                reveal_strlit("..");
                lemma_xy_flags(".."@);
            }
        }
        if staged {
            t.staged = t.staged + 1;
        }
        if unstaged {
            t.unstaged = t.unstaged + 1;
        }
    }
}

/// The whole status output `v`, read line by line.
fn tally_chars(v: &Vec<char>) -> (t: Tally)
    ensures
        t@ == status_tally(v@),
{
    let lines = line_bounds(v);
    let ghost all = lines_of(v@);
    let mut t = Tally {
        branch: None,
        staged: 0,
        unstaged: 0,
        untracked: 0,
        ahead: 0,
        behind: 0,
    };
    let mut k: usize = 0;
    assert(all.take(0) =~= Seq::<Seq<char>>::empty());
    while k < lines.len()
        invariant
            k <= lines.len(),
            ranges_within(lines@, v@.len() as int),
            slices(v@, lines@) == all,
            t@ == tally_lines(empty_tally(), all.take(k as int)),
            t.staged <= k,
            t.unstaged <= k,
            t.untracked <= k,
        decreases lines.len() - k,
    {
        let (a, b) = lines[k];
        assert(lines@[k as int].0 <= lines@[k as int].1 <= v@.len());
        assert(all[k as int] == v@.subrange(a as int, b as int));
        assert(all.take(k + 1).drop_last() =~= all.take(k as int));
        apply_line_range(v, a, b, &mut t);
        k = k + 1;
    }
    assert(all.take(lines@.len() as int) =~= all);
    t
}

/// The counts of `out` fit the `u32` fields that hold them: the number of
/// uncommitted entries it reports is at most `u32::MAX`.
pub fn status_counts_fit(out: &str) -> (r: bool)
    ensures
        r == (dirty_total(status_tally(out@)) <= u32::MAX),
{
    let v = chars_of(out);
    let t = tally_chars(&v);
    t.staged <= 0xFFFF_FFFF && t.unstaged <= 0xFFFF_FFFF && t.untracked <= 0xFFFF_FFFF && (
    t.staged as u64 + t.unstaged as u64 + t.untracked as u64) <= 0xFFFF_FFFF
}

/// Parses the output of `git status --porcelain=v2 --branch` into
/// (branch, is_clean, dirty, staged, unstaged, untracked, ahead, behind).
pub fn parse_status_v2(out: &str) -> (r: (Option<String>, bool, u32, u32, u32, u32, u32, u32))
    requires
        dirty_total(status_tally(out@)) <= u32::MAX,
    ensures
        ({
            let t = status_tally(out@);
            &&& opt_string_view(r.0) == t.branch
            &&& r.3 == t.staged
            &&& r.4 == t.unstaged
            &&& r.5 == t.untracked
            &&& r.2 == dirty_total(t)
            &&& r.1 == (dirty_total(t) == 0)
            &&& r.6 == t.ahead
            &&& r.7 == t.behind
        }),
{
    let v = chars_of(out);
    let t = tally_chars(&v);
    let staged = t.staged as u32;
    let unstaged = t.unstaged as u32;
    let untracked = t.untracked as u32;
    let dirty = staged + unstaged + untracked;
    (t.branch, dirty == 0, dirty, staged, unstaged, untracked, t.ahead, t.behind)
}

// ---------------------------------------------------------------------------
// The state of one repository
// ---------------------------------------------------------------------------

/// A read-only snapshot of one repository's state.
#[derive(Debug, Clone)]
pub struct RepoStatus {
    /// The repository's path, with `/` between components.
    pub path: String,
    /// The name of the directory.
    pub name: String,
    /// The current branch; `None` on a detached HEAD.
    pub branch: Option<String>,
    /// The URL of `origin`; `None` when there is none.
    pub remote_url: Option<String>,
    /// The work tree is clean.
    pub is_clean: bool,
    /// Uncommitted entries in all (changed + staged + untracked).
    pub dirty_count: u32,
    pub staged: u32,
    pub unstaged: u32,
    pub untracked: u32,
    /// Commits ahead of the upstream.
    pub ahead: u32,
    /// Commits behind the upstream (as of the last fetch).
    pub behind: u32,
    /// Unix time (seconds) of the last commit.
    pub last_commit_ts: Option<i64>,
    /// Modification time of `.git/FETCH_HEAD` (the last fetch), Unix seconds.
    pub fetch_head_ts: Option<i64>,
    /// The repository is a git worktree (`.git` is a file).
    pub is_worktree: bool,
    /// The directory has no `.git`.
    pub missing: bool,
    /// What went wrong while reading the state.
    pub error: Option<String>,
}

/// The name shown for a repository: the name of its directory, or its path when
/// the path has no last component.
pub open spec fn repo_name(path: Seq<char>, file_name: Option<String>) -> Seq<char> {
    match file_name {
        Some(n) => n@,
        None => path,
    }
}

fn name_or_path(path: &String, file_name: Option<String>) -> (n: String)
    ensures
        n@ == repo_name(path@, file_name),
{
    match file_name {
        Some(n) => n,
        None => path.clone(),
    }
}

/// The error of a directory that is not a git repository.
pub open spec fn missing_message() -> Seq<char> {
    "目录不存在或不是 git 仓库"@
}

/// The counts and branch of `s` are those that the status output reports.
pub open spec fn reports_tally(s: RepoStatus, t: StatusTally) -> bool {
    &&& opt_string_view(s.branch) == t.branch
    &&& s.staged == t.staged
    &&& s.unstaged == t.unstaged
    &&& s.untracked == t.untracked
    &&& s.dirty_count == dirty_total(t)
    &&& s.is_clean == (dirty_total(t) == 0)
    &&& s.ahead == t.ahead
    &&& s.behind == t.behind
}

/// `s` reports nothing about branch and changes.
pub open spec fn reports_nothing(s: RepoStatus) -> bool {
    &&& s.branch is None
    &&& !s.is_clean
    &&& s.dirty_count == 0
    &&& s.staged == 0
    &&& s.unstaged == 0
    &&& s.untracked == 0
    &&& s.ahead == 0
    &&& s.behind == 0
}

/// What holds of every state the library reports: the dirty count is the sum of
/// its parts; a repository is clean when its state was read without error and
/// nothing is dirty; a missing repository has an error, so it is never clean.
pub open spec fn status_consistent(s: RepoStatus) -> bool {
    &&& s.dirty_count == s.staged + s.unstaged + s.untracked
    &&& s.is_clean == (s.error is None && s.dirty_count == 0)
    &&& s.missing ==> s.error is Some
    &&& s.is_clean ==> !s.missing
}

/// The state of a directory that has no `.git`.
pub fn missing_repo_status(path: String, file_name: Option<String>) -> (s: RepoStatus)
    ensures
        s.path == path,
        s.name@ == repo_name(path@, file_name),
        reports_nothing(s),
        s.remote_url is None,
        s.last_commit_ts is None,
        s.fetch_head_ts is None,
        !s.is_worktree,
        s.missing,
        opt_string_view(s.error) == Some(missing_message()),
        status_consistent(s),
{
    let name = name_or_path(&path, file_name);
    RepoStatus {
        path,
        name,
        branch: None,
        remote_url: None,
        is_clean: false,
        dirty_count: 0,
        staged: 0,
        unstaged: 0,
        untracked: 0,
        ahead: 0,
        behind: 0,
        last_commit_ts: None,
        fetch_head_ts: None,
        is_worktree: false,
        missing: true,
        error: Some(String::from_str("目录不存在或不是 git 仓库")),
    }
}

/// The URL that `git config --get remote.origin.url` printed: its trimmed output
/// when it succeeded and printed something.
pub open spec fn remote_url_of(r: GitReply) -> Option<Seq<char>> {
    match success_output(r) {
        Some(o) => if trim(o).len() > 0 {
            Some(trim(o))
        } else {
            None
        },
        None => None,
    }
}

/// The time that `git log -1 --format=%ct` printed: its trimmed output read as an
/// `i64`, when it succeeded.
pub open spec fn last_commit_of(r: GitReply) -> Option<i64> {
    match success_output(r) {
        Some(o) => parse_i64(trim(o)),
        None => None,
    }
}

/// `{:?}` of an `Option<i32>`.
pub open spec fn debug_opt_i32(code: Option<i32>) -> Seq<char> {
    match code {
        Some(n) => "Some("@ + signed_decimal(n as int) + ")"@,
        None => "None"@,
    }
}

/// What is reported when the status command does not succeed.
pub open spec fn status_error_of(r: GitReply) -> Option<Seq<char>> {
    match r {
        GitReply::Exited { success, code, stderr, .. } => if success {
            None
        } else {
            Some("git status 失败 (exit "@ + debug_opt_i32(code) + "): "@ + trim(stderr@))
        },
        GitReply::SpawnFailed { message } => Some("无法执行 git: "@ + message@),
        GitReply::TaskFailed { message } => Some("任务异常: "@ + message@),
        GitReply::TimedOut => Some("读取状态超时（可能有进程卡在凭据输入）"@),
    }
}

/// The counts of a successful status run fit their `u32` fields.
pub open spec fn status_reply_fits_spec(r: GitReply) -> bool {
    match success_output(r) {
        Some(o) => dirty_total(status_tally(o)) <= u32::MAX,
        None => true,
    }
}

/// Whether the counts of a successful status run fit their `u32` fields (they
/// overflow only past 4 294 967 295 uncommitted entries).
pub fn status_reply_fits(r: &GitReply) -> (b: bool)
    ensures
        b == status_reply_fits_spec(*r),
{
    match r {
        GitReply::Exited { success, stdout, .. } => !*success || status_counts_fit(stdout.as_str()),
        _ => true,
    }
}

/// The remote URL from the reply of `git config --get remote.origin.url`.
pub fn remote_url_from(r: &GitReply) -> (u: Option<String>)
    ensures
        opt_string_view(u) == remote_url_of(*r),
{
    match r {
        GitReply::Exited { success, stdout, .. } => {
            if *success {
                let url = trimmed(stdout.as_str());
                if !url.as_str().is_empty() {
                    Some(url)
                } else {
                    None
                }
            } else {
                None
            }
        },
        _ => None,
    }
}

/// The time of the last commit from the reply of `git log -1 --format=%ct`.
pub fn last_commit_from(r: &GitReply) -> (t: Option<i64>)
    ensures
        t == last_commit_of(*r),
{
    match r {
        GitReply::Exited { success, stdout, .. } => {
            if *success {
                let v = chars_of(stdout.as_str());
                let (a, b) = trim_bounds(&v, 0, v.len());
                assert(v@.subrange(0, v@.len() as int) =~= v@);
                parse_i64_range(&v, a, b)
            } else {
                None
            }
        },
        _ => None,
    }
}

/// The error reported for a status run that did not succeed.
pub fn status_error(r: &GitReply) -> (e: Option<String>)
    ensures
        opt_string_view(e) == status_error_of(*r),
{
    match r {
        GitReply::Exited { success, code, stderr, .. } => {
            if *success {
                None
            } else {
                let mut m = String::from_str("git status 失败 (exit ");
                match code {
                    Some(n) => {
                        m.append("Some(");
                        push_signed_decimal(&mut m, *n);
                        m.append(")");
                    },
                    None => {
                        m.append("None");
                    },
                }
                m.append("): ");
                let t = trimmed(stderr.as_str());
                m.append(t.as_str());
                assert(m@ =~= "git status 失败 (exit "@ + debug_opt_i32(*code) + "): "@ + trim(
                    stderr@,
                ));
                Some(m)
            }
        },
        GitReply::SpawnFailed { message } => {
            let mut m = String::from_str("无法执行 git: ");
            m.append(message.as_str());
            Some(m)
        },
        GitReply::TaskFailed { message } => {
            let mut m = String::from_str("任务异常: ");
            m.append(message.as_str());
            Some(m)
        },
        GitReply::TimedOut => Some(String::from_str("读取状态超时（可能有进程卡在凭据输入）")),
    }
}

/// The state of a repository, from what its three git runs replied: `status`
/// (`status --porcelain=v2 --branch`), `remote` (`config --get remote.origin.url`)
/// and `last_commit` (`log -1 --format=%ct`).
pub fn repo_status_from(
    path: String,
    file_name: Option<String>,
    is_worktree: bool,
    fetch_head_ts: Option<i64>,
    status: &GitReply,
    remote: &GitReply,
    last_commit: &GitReply,
) -> (s: RepoStatus)
    requires
        status_reply_fits_spec(*status),
    ensures
        s.path == path,
        s.name@ == repo_name(path@, file_name),
        s.is_worktree == is_worktree,
        !s.missing,
        s.fetch_head_ts == fetch_head_ts,
        opt_string_view(s.remote_url) == remote_url_of(*remote),
        s.last_commit_ts == last_commit_of(*last_commit),
        opt_string_view(s.error) == status_error_of(*status),
        match success_output(*status) {
            Some(o) => reports_tally(s, status_tally(o)),
            None => reports_nothing(s),
        },
        status_consistent(s),
{
    let name = name_or_path(&path, file_name);
    let remote_url = remote_url_from(remote);
    let last_commit_ts = last_commit_from(last_commit);
    let error = status_error(status);
    match status {
        GitReply::Exited { success, stdout, .. } => {
            if *success {
                let (branch, is_clean, dirty, staged, unstaged, untracked, ahead, behind) =
                    parse_status_v2(stdout.as_str());
                return RepoStatus {
                    path,
                    name,
                    branch,
                    remote_url,
                    is_clean,
                    dirty_count: dirty,
                    staged,
                    unstaged,
                    untracked,
                    ahead,
                    behind,
                    last_commit_ts,
                    fetch_head_ts,
                    is_worktree,
                    missing: false,
                    error,
                };
            }
        },
        _ => {},
    }
    RepoStatus {
        path,
        name,
        branch: None,
        remote_url,
        is_clean: false,
        dirty_count: 0,
        staged: 0,
        unstaged: 0,
        untracked: 0,
        ahead: 0,
        behind: 0,
        last_commit_ts,
        fetch_head_ts,
        is_worktree,
        missing: false,
        error,
    }
}

} // verus!
