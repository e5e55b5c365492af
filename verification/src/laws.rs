//! Properties of the library as a whole, over all inputs.

use vstd::prelude::*;
use crate::batch::{op_args_spec, somes, BatchOp};
use crate::commands::{settings_problem, Settings};
use crate::order::bytes_lt;
use crate::path::{path_lt, PartView, PrefixView};
use crate::git::has_uncommitted_spec;
use crate::scan::{excluded_by_any, excludes, normalized};
use crate::text::{is_ws, lemma_trim_nonblank, tokens_from, tokens_of, trim};
use crate::status::{
    ab_count, apply_line, dirty_total, empty_tally, lemma_xy_flags, status_tally, tally_lines,
    StatusTally,
};
use crate::text::{lines_of, starts_with};

verus! {

/// Writing a path with `/` separators leaves no `\` behind, and doing it twice
/// changes nothing more.
pub proof fn normalize_is_idempotent(s: Seq<char>)
    ensures
        forall|i: int| 0 <= i < normalized(s).len() ==> #[trigger] normalized(s)[i] != '\\',
        normalized(normalized(s)) == normalized(s),
{
    assert(normalized(normalized(s)) =~= normalized(s));
}

/// An excluded directory is left out as a whole: whatever lies below a path that
/// it excludes is excluded too.
pub proof fn exclusion_covers_subtree(x: Seq<char>, p: Seq<char>, below: Seq<char>)
    requires
        excludes(x, p),
    ensures
        excludes(x, p.push('/') + below),
{
    let q = p.push('/') + below;
    let xs = x.push('/');
    if p == x {
        assert(q.take(xs.len() as int) =~= xs);
    } else {
        assert(q.take(xs.len() as int) =~= p.take(xs.len() as int));
    }
}

/// When every task finished, the results are all there, in the order of the tasks.
pub proof fn finished_tasks_keep_order<T>(s: Seq<Option<T>>)
    requires
        forall|i: int| 0 <= i < s.len() ==> #[trigger] s[i] is Some,
    ensures
        somes(s).len() == s.len(),
        forall|i: int| 0 <= i < s.len() ==> Some(#[trigger] somes(s)[i]) == s[i],
    decreases s.len(),
{
    if s.len() > 0 {
        let t = s.drop_last();
        assert forall|i: int| 0 <= i < t.len() implies #[trigger] t[i] is Some by {
            assert(t[i] == s[i]);
        }
        finished_tasks_keep_order(t);
        assert(s.last() is Some);
        assert forall|i: int| 0 <= i < s.len() implies Some(#[trigger] somes(s)[i]) == s[i] by {
            if i < t.len() {
                assert(somes(s)[i] == somes(t)[i]);
                assert(t[i] == s[i]);
            }
        }
    }
}

/// A line that reports an entry: untracked, changed, renamed or unmerged.
pub open spec fn is_entry_line(line: Seq<char>) -> bool {
    starts_with(line, "? "@) || starts_with(line, "1 "@) || starts_with(line, "2 "@)
        || starts_with(line, "u "@)
}

proof fn lemma_no_entries_no_counts(t: StatusTally, ls: Seq<Seq<char>>)
    requires
        forall|i: int| 0 <= i < ls.len() ==> !is_entry_line(#[trigger] ls[i]),
    ensures
        tally_lines(t, ls).staged == t.staged,
        tally_lines(t, ls).unstaged == t.unstaged,
        tally_lines(t, ls).untracked == t.untracked,
    decreases ls.len(),
{
    if ls.len() > 0 {
        let init = ls.drop_last();
        assert forall|i: int| 0 <= i < init.len() implies !is_entry_line(#[trigger] init[i]) by {
            assert(init[i] == ls[i]);
        }
        lemma_no_entries_no_counts(t, init);
        assert(!is_entry_line(ls[ls.len() - 1]));
        lemma_branch_lines_keep_counts(tally_lines(t, init), ls.last());
    }
}

proof fn lemma_branch_lines_keep_counts(t: StatusTally, line: Seq<char>)
    requires
        !is_entry_line(line),
    ensures
        apply_line(t, line).staged == t.staged,
        apply_line(t, line).unstaged == t.unstaged,
        apply_line(t, line).untracked == t.untracked,
{
    if starts_with(line, "# branch.ab "@) && !starts_with(line, "# branch.head "@) {
        lemma_ab_keeps_counts(t, crate::text::tokens_of(line.skip("# branch.ab "@.len() as int)));
    }
}

proof fn lemma_ab_keeps_counts(t: StatusTally, toks: Seq<Seq<char>>)
    ensures
        crate::status::ab_fold(t, toks).staged == t.staged,
        crate::status::ab_fold(t, toks).unstaged == t.unstaged,
        crate::status::ab_fold(t, toks).untracked == t.untracked,
    decreases toks.len(),
{
    if toks.len() > 0 {
        lemma_ab_keeps_counts(t, toks.drop_last());
    }
}

/// A status output without entry lines reports a clean work tree.
pub proof fn no_entries_means_clean(text: Seq<char>)
    requires
        forall|i: int| 0 <= i < lines_of(text).len() ==> !is_entry_line(#[trigger] lines_of(text)[i]),
    ensures
        dirty_total(status_tally(text)) == 0,
{
    lemma_no_entries_no_counts(empty_tally(), lines_of(text));
}

/// A work tree counts as dirty exactly when its short status output holds a
/// character that is not whitespace; a run that could not be started counts as
/// clean.
pub proof fn dirty_iff_status_not_blank(o: Seq<char>)
    ensures
        has_uncommitted_spec(Some(o)) == (exists|i: int| 0 <= i < o.len() && !is_ws(#[trigger] o[i])),
        !has_uncommitted_spec(None),
{
    lemma_trim_nonblank(o);
}

/// Untracked files alone make a work tree dirty: an output that starts with an
/// untracked line (`? `) is uncommitted work.
pub proof fn untracked_files_are_uncommitted(o: Seq<char>)
    requires
        starts_with(o, "? "@),
    ensures
        has_uncommitted_spec(Some(o)),
{
    reveal_strlit("? ");
    assert(o[0] == "? "@[0]);
    assert(!is_ws(o[0]));
    lemma_trim_nonblank(o);
}

/// A pull only fast-forwards; a fetch fetches every remote and prunes.
pub proof fn pull_only_fast_forwards()
    ensures
        op_args_spec(BatchOp::Pull) == seq!["pull"@, "--ff-only"@],
        op_args_spec(BatchOp::Fetch) == seq!["fetch"@, "--all"@, "--prune"@],
{
}

/// Every entry of the exclude list counts, not only some of them: a path equal
/// to any entry, or below it, is excluded.
pub proof fn every_exclusion_entry_counts(xs: Seq<Seq<char>>, i: int, p: Seq<char>)
    requires
        0 <= i < xs.len(),
        p == xs[i] || (p.len() > xs[i].len() && p.take(xs[i].len() as int) == xs[i] && p[xs[i].len() as int]
            == '/'),
    ensures
        excluded_by_any(xs, p),
{
    let x = xs[i];
    if p != x {
        assert(p.take(x.push('/').len() as int) =~= x.push('/'));
    }
    assert(excludes(xs[i], p));
}

/// A path is excluded only by an entry that it equals or lies below.
pub proof fn exclusion_comes_from_an_entry(xs: Seq<Seq<char>>, p: Seq<char>)
    requires
        excluded_by_any(xs, p),
    ensures
        exists|i: int|
            0 <= i < xs.len() && (p == #[trigger] xs[i] || (p.len() > xs[i].len() && p.take(xs[i].len() as int)
                == xs[i] && p[xs[i].len() as int] == '/')),
{
    let i = choose|i: int| 0 <= i < xs.len() && excludes(#[trigger] xs[i], p);
    let x = xs[i];
    if p != x {
        assert(p.take(x.len() as int) =~= x.push('/').take(x.len() as int));
        assert(p[x.len() as int] == x.push('/')[x.len() as int]);
    }
}

/// Settings are accepted exactly when there is a root, the depth is from 1 to 12
/// and the concurrency from 1 to 32, whatever else they hold; what is refused is
/// named in that order.
pub proof fn settings_accepted_exactly_in_range(s: Settings)
    ensures
        (settings_problem(s) is None) == (s.roots@.len() > 0 && 1 <= s.max_depth <= 12 && 1 <= s.concurrency
            <= 32),
        s.roots@.len() == 0 ==> settings_problem(s) == Some("至少需要一个扫描根目录"@),
        s.roots@.len() > 0 && !(1 <= s.max_depth <= 12) ==> settings_problem(s) == Some(
            "扫描深度需在 1-12 之间"@,
        ),
        s.roots@.len() > 0 && 1 <= s.max_depth <= 12 && !(1 <= s.concurrency <= 32) ==> settings_problem(s)
            == Some("并发数需在 1-32 之间"@),
{
}

/// A changed-entry line (`1 `, `2 ` or `u `) whose `XY` field (its second field)
/// starts with an ASCII character and has two characters or more counts once as
/// staged when `X` is not `.`, whatever letter it is, and once as unstaged when
/// `Y` is not `.`; nothing else changes.
pub proof fn entry_line_counts_by_xy(t: StatusTally, line: Seq<char>)
    requires
        starts_with(line, "1 "@) || starts_with(line, "2 "@) || starts_with(line, "u "@),
        tokens_of(line).len() >= 2,
        tokens_of(line)[1].len() >= 2,
        (tokens_of(line)[1][0] as u32) < 0x80,
    ensures
        apply_line(t, line).staged == t.staged + if tokens_of(line)[1][0] != '.' {
            1nat
        } else {
            0nat
        },
        apply_line(t, line).unstaged == t.unstaged + if tokens_of(line)[1][1] != '.' {
            1nat
        } else {
            0nat
        },
        apply_line(t, line).untracked == t.untracked,
        apply_line(t, line).branch == t.branch,
        apply_line(t, line).ahead == t.ahead,
        apply_line(t, line).behind == t.behind,
{
    reveal_strlit("1 ");
    reveal_strlit("2 ");
    reveal_strlit("u ");
    reveal_strlit("? ");
    reveal_strlit("# branch.head ");
    reveal_strlit("# branch.ab ");
    assert(line[0] == '1' || line[0] == '2' || line[0] == 'u') by {
        if starts_with(line, "1 "@) {
            assert(line.take(2)[0] == line[0]);
        } else if starts_with(line, "2 "@) {
            assert(line.take(2)[0] == line[0]);
        } else {
            assert(line.take(2)[0] == line[0]);
        }
    }
    assert(!starts_with(line, "# branch.head "@)) by {
        if starts_with(line, "# branch.head "@) {
            assert(line.take(14)[0] == line[0]);
        }
    }
    assert(!starts_with(line, "# branch.ab "@)) by {
        if starts_with(line, "# branch.ab "@) {
            assert(line.take(12)[0] == line[0]);
        }
    }
    assert(!starts_with(line, "? "@)) by {
        if starts_with(line, "? "@) {
            assert(line.take(2)[0] == line[0]);
        }
    }
    lemma_xy_flags(tokens_of(line)[1]);
}

/// An untracked line (`? `) counts one untracked file and nothing else.
pub proof fn untracked_line_counts_once(t: StatusTally, line: Seq<char>)
    requires
        starts_with(line, "? "@),
    ensures
        apply_line(t, line).untracked == t.untracked + 1,
        apply_line(t, line).staged == t.staged,
        apply_line(t, line).unstaged == t.unstaged,
        apply_line(t, line).branch == t.branch,
{
    reveal_strlit("? ");
    reveal_strlit("# branch.head ");
    reveal_strlit("# branch.ab ");
    assert(!starts_with(line, "# branch.head "@)) by {
        if starts_with(line, "# branch.head "@) {
            assert(line.take(14)[0] == line[0]);
        }
    }
    assert(!starts_with(line, "# branch.ab "@)) by {
        if starts_with(line, "# branch.ab "@) {
            assert(line.take(12)[0] == line[0]);
        }
    }
}

/// Every counted entry makes the repository dirty: after any line, the dirty
/// total never goes down, and an untracked line or an entry with a change in
/// either column raises it.
pub proof fn counted_entries_make_dirty(t: StatusTally, line: Seq<char>)
    requires
        starts_with(line, "? "@) || ((starts_with(line, "1 "@) || starts_with(line, "2 "@) || starts_with(
            line,
            "u "@,
        )) && tokens_of(line).len() >= 2 && tokens_of(line)[1].len() >= 2 && (tokens_of(line)[1][0] as u32)
            < 0x80 && (tokens_of(line)[1][0] != '.' || tokens_of(line)[1][1] != '.')),
    ensures
        dirty_total(apply_line(t, line)) > dirty_total(t),
{
    if starts_with(line, "? "@) {
        untracked_line_counts_once(t, line);
    } else {
        entry_line_counts_by_xy(t, line);
    }
}

/// Two byte strings that agree before `n` and differ at `n` are ordered by the
/// bytes at `n`.
pub proof fn bytes_ordered_by_first_difference(a: Seq<u8>, b: Seq<u8>, n: int)
    requires
        0 <= n < a.len(),
        n < b.len(),
        a.take(n) == b.take(n),
        a[n] != b[n],
    ensures
        bytes_lt(a, b) == (a[n] < b[n]),
        bytes_lt(b, a) == (b[n] < a[n]),
    decreases n,
{
    if n > 0 {
        assert(a[0] == a.take(n)[0] && b[0] == b.take(n)[0]);
        assert(a.drop_first().take(n - 1) =~= b.drop_first().take(n - 1)) by {
            assert forall|j: int| 0 <= j < n - 1 implies a.drop_first()[j] == b.drop_first()[j] by {
                assert(a.take(n)[j + 1] == b.take(n)[j + 1]);
                assert(a.take(n)[j + 1] == a[j + 1] && b.take(n)[j + 1] == b[j + 1]);
                assert(a.drop_first()[j] == a[j + 1] && b.drop_first()[j] == b[j + 1]);
            }
        }
        bytes_ordered_by_first_difference(a.drop_first(), b.drop_first(), n - 1);
    }
}

/// A proper prefix comes first in byte order.
pub proof fn bytes_prefix_comes_first(a: Seq<u8>, b: Seq<u8>)
    requires
        a.len() < b.len(),
        b.take(a.len() as int) == a,
    ensures
        bytes_lt(a, b),
        !bytes_lt(b, a),
    decreases a.len(),
{
    if a.len() > 0 {
        assert(a[0] == b.take(a.len() as int)[0]);
        assert(b.drop_first().take(a.drop_first().len() as int) =~= a.drop_first()) by {
            assert forall|j: int| 0 <= j < a.len() - 1 implies b.drop_first()[j] == a.drop_first()[j] by {
                assert(b.take(a.len() as int)[j + 1] == a[j + 1]);
            }
        }
        bytes_prefix_comes_first(a.drop_first(), b.drop_first());
    }
}

/// Paths that agree before component `n` and differ there are ordered by what
/// `Path` says of those two components.
proof fn lemma_path_first_difference(a: Seq<PartView>, b: Seq<PartView>, n: int)
    requires
        0 <= n < a.len(),
        n < b.len(),
        a.take(n) == b.take(n),
        a[n] != b[n],
    ensures
        path_lt(a, b) == crate::path::part_lt(a[n], b[n]),
        path_lt(b, a) == crate::path::part_lt(b[n], a[n]),
    decreases n,
{
    if n > 0 {
        assert(a[0] == a.take(n)[0] && b[0] == b.take(n)[0]);
        assert(a.drop_first().take(n - 1) =~= b.drop_first().take(n - 1)) by {
            assert forall|j: int| 0 <= j < n - 1 implies a.drop_first()[j] == b.drop_first()[j] by {
                assert(a.take(n)[j + 1] == b.take(n)[j + 1]);
                assert(a.take(n)[j + 1] == a[j + 1] && b.take(n)[j + 1] == b[j + 1]);
                assert(a.drop_first()[j] == a[j + 1] && b.drop_first()[j] == b[j + 1]);
            }
        }
        lemma_path_first_difference(a.drop_first(), b.drop_first(), n - 1);
    }
}

/// A path that is a proper prefix of another, component by component, comes first.
pub proof fn path_prefix_comes_first(a: Seq<PartView>, b: Seq<PartView>)
    requires
        a.len() < b.len(),
        b.take(a.len() as int) == a,
    ensures
        path_lt(a, b),
        !path_lt(b, a),
    decreases a.len(),
{
    if a.len() > 0 {
        assert(a[0] == b.take(a.len() as int)[0]);
        assert(b.drop_first().take(a.drop_first().len() as int) =~= a.drop_first()) by {
            assert forall|j: int| 0 <= j < a.len() - 1 implies b.drop_first()[j] == a.drop_first()[j] by {
                assert(b.take(a.len() as int)[j + 1] == a[j + 1]);
            }
        }
        path_prefix_comes_first(a.drop_first(), b.drop_first());
    }
}

/// At the first component where two paths differ, kinds go in the order of
/// `std::path::Component`: a prefix, then the root, then `.`, then `..`, then a
/// name.
pub proof fn path_components_ordered_by_kind(a: Seq<PartView>, b: Seq<PartView>, n: int)
    requires
        0 <= n < a.len(),
        n < b.len(),
        a.take(n) == b.take(n),
        ({
            ||| a[n] is Prefix && !(b[n] is Prefix)
            ||| a[n] is RootDir && (b[n] is CurDir || b[n] is ParentDir || b[n] is Normal)
            ||| a[n] is CurDir && (b[n] is ParentDir || b[n] is Normal)
            ||| a[n] is ParentDir && b[n] is Normal
        }),
    ensures
        path_lt(a, b),
        !path_lt(b, a),
{
    lemma_path_first_difference(a, b, n);
}

/// At the first component where two paths differ, two names are ordered by
/// their bytes.
pub proof fn path_names_ordered_by_bytes(a: Seq<PartView>, b: Seq<PartView>, n: int, x: Seq<u8>, y: Seq<u8>)
    requires
        0 <= n < a.len(),
        n < b.len(),
        a.take(n) == b.take(n),
        a[n] == PartView::Normal(x),
        b[n] == PartView::Normal(y),
        x != y,
    ensures
        path_lt(a, b) == bytes_lt(x, y),
{
    lemma_path_first_difference(a, b, n);
}

/// At the first component where two paths differ, two prefixes go by kind in the
/// order of `std::path::Prefix` (`Verbatim`, `VerbatimUNC`, `VerbatimDisk`,
/// `DeviceNS`, `UNC`, `Disk`), and prefixes of one kind by their fields: drive
/// letters by their byte, names by their bytes, a server before its share.
pub proof fn path_prefixes_ordered(a: Seq<PartView>, b: Seq<PartView>, n: int, p: PrefixView, q: PrefixView)
    requires
        0 <= n < a.len(),
        n < b.len(),
        a.take(n) == b.take(n),
        a[n] == PartView::Prefix(p),
        b[n] == PartView::Prefix(q),
        p != q,
    ensures
        p is Verbatim && !(q is Verbatim) ==> path_lt(a, b),
        p is VerbatimUnc && (q is VerbatimDisk || q is DeviceNs || q is Unc || q is Disk) ==> path_lt(a, b),
        p is VerbatimDisk && (q is DeviceNs || q is Unc || q is Disk) ==> path_lt(a, b),
        p is DeviceNs && (q is Unc || q is Disk) ==> path_lt(a, b),
        p is Unc && q is Disk ==> path_lt(a, b),
        forall|x: u8, y: u8|
            p == PrefixView::Disk(x) && q == PrefixView::Disk(y) ==> path_lt(a, b) == (x < y),
        forall|x: u8, y: u8|
            p == PrefixView::VerbatimDisk(x) && q == PrefixView::VerbatimDisk(y) ==> path_lt(a, b) == (x < y),
        forall|x: Seq<u8>, y: Seq<u8>|
            p == PrefixView::Verbatim(x) && q == PrefixView::Verbatim(y) ==> path_lt(a, b) == bytes_lt(x, y),
        forall|x: Seq<u8>, y: Seq<u8>|
            p == PrefixView::DeviceNs(x) && q == PrefixView::DeviceNs(y) ==> path_lt(a, b) == bytes_lt(x, y),
        forall|x1: Seq<u8>, x2: Seq<u8>, y1: Seq<u8>, y2: Seq<u8>|
            p == PrefixView::Unc(x1, x2) && q == PrefixView::Unc(y1, y2) ==> path_lt(a, b) == (bytes_lt(x1, y1)
                || (x1 == y1 && bytes_lt(x2, y2))),
        forall|x1: Seq<u8>, x2: Seq<u8>, y1: Seq<u8>, y2: Seq<u8>|
            p == PrefixView::VerbatimUnc(x1, x2) && q == PrefixView::VerbatimUnc(y1, y2) ==> path_lt(a, b) == (
            bytes_lt(x1, y1) || (x1 == y1 && bytes_lt(x2, y2))),
{
    lemma_path_first_difference(a, b, n);
}

/// A `branch.head` line names the branch: the rest of the line, trimmed, unless
/// it is `(detached)`, which leaves no branch named; no count changes.
pub proof fn branch_head_line_names_the_branch(t: StatusTally, rest: Seq<char>)
    ensures
        apply_line(t, "# branch.head "@ + rest).branch == if trim(rest) != "(detached)"@ {
            Some(trim(rest))
        } else {
            t.branch
        },
        apply_line(t, "# branch.head "@ + rest).staged == t.staged,
        apply_line(t, "# branch.head "@ + rest).unstaged == t.unstaged,
        apply_line(t, "# branch.head "@ + rest).untracked == t.untracked,
{
    reveal_strlit("# branch.head ");
    let line = "# branch.head "@ + rest;
    assert(line.take(14) =~= "# branch.head "@);
    assert(line.skip(14) =~= rest);
}

/// Reading a run of characters none of which is whitespace adds them to the
/// token being read.
proof fn lemma_tokens_word(w: Seq<char>, rest: Seq<char>, cur: Seq<char>)
    requires
        forall|i: int| 0 <= i < w.len() ==> !is_ws(#[trigger] w[i]),
    ensures
        tokens_from(w + rest, cur) == tokens_from(rest, cur + w),
    decreases w.len(),
{
    if w.len() > 0 {
        let s = w + rest;
        assert(s[0] == w[0]);
        assert(s.drop_first() =~= w.drop_first() + rest);
        assert forall|i: int| 0 <= i < w.drop_first().len() implies !is_ws(#[trigger] w.drop_first()[i]) by {
            assert(w.drop_first()[i] == w[i + 1]);
        }
        lemma_tokens_word(w.drop_first(), rest, cur.push(w[0]));
        assert(cur.push(w[0]) + w.drop_first() =~= cur + w);
    } else {
        assert(w + rest =~= rest);
        assert(cur + w =~= cur);
    }
}

/// Two words with a space between them are the two tokens.
proof fn lemma_two_tokens(wa: Seq<char>, wb: Seq<char>)
    requires
        wa.len() > 0,
        wb.len() > 0,
        forall|i: int| 0 <= i < wa.len() ==> !is_ws(#[trigger] wa[i]),
        forall|i: int| 0 <= i < wb.len() ==> !is_ws(#[trigger] wb[i]),
    ensures
        tokens_of(wa + (seq![' '] + wb)) == seq![wa, wb],
{
    let e = Seq::<char>::empty();
    let sp = seq![' '] + wb;
    lemma_tokens_word(wa, sp, e);
    assert(e + wa =~= wa);
    assert(sp[0] == ' ');
    assert(is_ws(' '));
    assert(sp.drop_first() =~= wb);
    assert(tokens_from(sp, wa) == seq![wa] + tokens_from(wb, e));
    lemma_tokens_word(wb, e, e);
    assert(wb + e =~= wb);
    assert(e + wb =~= wb);
    assert(tokens_from(e, wb) == seq![wb]);
    assert(seq![wa] + seq![wb] =~= seq![wa, wb]);
}

/// A `branch.ab` line `+a -b` sets the commits ahead to `a` and behind to `b`
/// (0 where a number does not parse); no count changes.
pub proof fn branch_ab_line_sets_ahead_behind(t: StatusTally, a: Seq<char>, b: Seq<char>)
    requires
        forall|i: int| 0 <= i < a.len() ==> !is_ws(#[trigger] a[i]),
        forall|i: int| 0 <= i < b.len() ==> !is_ws(#[trigger] b[i]),
    ensures
        apply_line(t, "# branch.ab +"@ + a + " -"@ + b).ahead == ab_count(a),
        apply_line(t, "# branch.ab +"@ + a + " -"@ + b).behind == ab_count(b),
        apply_line(t, "# branch.ab +"@ + a + " -"@ + b).staged == t.staged,
        apply_line(t, "# branch.ab +"@ + a + " -"@ + b).unstaged == t.unstaged,
        apply_line(t, "# branch.ab +"@ + a + " -"@ + b).untracked == t.untracked,
        apply_line(t, "# branch.ab +"@ + a + " -"@ + b).branch == t.branch,
{
    reveal_strlit("# branch.ab ");
    reveal_strlit("# branch.ab +");
    reveal_strlit("# branch.head ");
    reveal_strlit(" -");
    let line = "# branch.ab +"@ + a + " -"@ + b;
    let wa = seq!['+'] + a;
    let wb = seq!['-'] + b;
    assert(line.skip(12) =~= wa + (seq![' '] + wb));
    assert(line[9] == 'a');
    assert(!starts_with(line, "# branch.head "@)) by {
        if starts_with(line, "# branch.head "@) {
            assert(line.take(14)[9] == line[9]);
        }
    }
    assert(line.take(12) =~= "# branch.ab "@);
    assert forall|i: int| 0 <= i < wa.len() implies !is_ws(#[trigger] wa[i]) by {
        if i > 0 {
            assert(wa[i] == a[i - 1]);
        }
    }
    assert forall|i: int| 0 <= i < wb.len() implies !is_ws(#[trigger] wb[i]) by {
        if i > 0 {
            assert(wb[i] == b[i - 1]);
        }
    }
    lemma_two_tokens(wa, wb);
    let toks = seq![wa, wb];
    assert(starts_with(line, "# branch.ab "@));
    assert(tokens_of(line.skip("# branch.ab "@.len() as int)) == toks);
    assert(apply_line(t, line) == crate::status::ab_fold(t, toks));
    assert(toks.drop_last() =~= seq![wa]);
    assert(toks.drop_last().drop_last() =~= Seq::<Seq<char>>::empty());
    assert(wa.drop_first() =~= a);
    assert(wb.drop_first() =~= b);
    assert(wa[0] == '+' && wb[0] == '-');
    let t1 = crate::status::ab_fold(t, seq![wa]);
    assert(crate::status::ab_fold(t, seq![wa].drop_last()) == t);
    assert(t1 == crate::status::ab_step(t, wa));
    assert(crate::status::ab_fold(t, toks) == crate::status::ab_step(t1, wb));
}

} // verus!
