//! Character-level text handling: the parts of `str` that the library relies on,
//! stated over `Seq<char>` and implemented over vectors of characters.

use vstd::prelude::*;

verus! {

// ---------------------------------------------------------------------------
// Whitespace and trimming
// ---------------------------------------------------------------------------

/// The Unicode `White_Space` property, which is what `char::is_whitespace` tests.
pub open spec fn is_ws(c: char) -> bool {
    let u = c as u32;
    ||| 0x09 <= u <= 0x0D
    ||| u == 0x20
    ||| u == 0x85
    ||| u == 0xA0
    ||| u == 0x1680
    ||| 0x2000 <= u <= 0x200A
    ||| u == 0x2028
    ||| u == 0x2029
    ||| u == 0x202F
    ||| u == 0x205F
    ||| u == 0x3000
}

/// `s` without its leading whitespace.
pub open spec fn trim_start(s: Seq<char>) -> Seq<char>
    decreases s.len(),
{
    if s.len() > 0 && is_ws(s[0]) {
        trim_start(s.drop_first())
    } else {
        s
    }
}

/// `s` without its trailing whitespace.
pub open spec fn trim_end(s: Seq<char>) -> Seq<char>
    decreases s.len(),
{
    if s.len() > 0 && is_ws(s.last()) {
        trim_end(s.drop_last())
    } else {
        s
    }
}

/// `s` without leading and trailing whitespace, as `str::trim` gives it.
pub open spec fn trim(s: Seq<char>) -> Seq<char> {
    trim_end(trim_start(s))
}

/// Leading whitespace goes, and what is left starts with a character that is
/// not whitespace, when there is one.
proof fn lemma_trim_start(s: Seq<char>)
    ensures
        (exists|i: int| 0 <= i < s.len() && !is_ws(#[trigger] s[i])) ==> trim_start(s).len() > 0
            && !is_ws(trim_start(s)[0]),
        (forall|i: int| 0 <= i < s.len() ==> is_ws(#[trigger] s[i])) ==> trim_start(s).len() == 0,
    decreases s.len(),
{
    if s.len() > 0 {
        let r = s.drop_first();
        lemma_trim_start(r);
        if is_ws(s[0]) {
            if exists|i: int| 0 <= i < s.len() && !is_ws(#[trigger] s[i]) {
                let i = choose|i: int| 0 <= i < s.len() && !is_ws(#[trigger] s[i]);
                assert(r[i - 1] == s[i]);
            }
            if forall|i: int| 0 <= i < s.len() ==> is_ws(#[trigger] s[i]) {
                assert forall|i: int| 0 <= i < r.len() implies is_ws(#[trigger] r[i]) by {
                    assert(r[i] == s[i + 1]);
                }
            }
        }
    }
}

/// Trailing whitespace goes; a text that starts with a character that is not
/// whitespace keeps it.
proof fn lemma_trim_end(s: Seq<char>)
    ensures
        s.len() > 0 && !is_ws(s[0]) ==> trim_end(s).len() > 0,
        s.len() == 0 ==> trim_end(s).len() == 0,
    decreases s.len(),
{
    if s.len() > 0 {
        lemma_trim_end(s.drop_last());
        if s.len() > 1 {
            assert(s.drop_last()[0] == s[0]);
        }
    }
}

/// `trim` leaves something exactly when some character is not whitespace.
pub proof fn lemma_trim_nonblank(s: Seq<char>)
    ensures
        (trim(s).len() > 0) == (exists|i: int| 0 <= i < s.len() && !is_ws(#[trigger] s[i])),
{
    lemma_trim_start(s);
    lemma_trim_end(trim_start(s));
}

pub fn is_whitespace(c: char) -> (r: bool)
    ensures
        r == is_ws(c),
{
    let u = c as u32;
    (0x09 <= u && u <= 0x0D) || u == 0x20 || u == 0x85 || u == 0xA0 || u == 0x1680 || (0x2000
        <= u && u <= 0x200A) || u == 0x2028 || u == 0x2029 || u == 0x202F || u == 0x205F || u
        == 0x3000
}

/// The bounds of the trimmed part of `v[lo..hi]`.
pub fn trim_bounds(v: &Vec<char>, lo: usize, hi: usize) -> (r: (usize, usize))
    requires
        lo <= hi <= v.len(),
    ensures
        lo <= r.0 <= r.1 <= hi,
        v@.subrange(r.0 as int, r.1 as int) == trim(v@.subrange(lo as int, hi as int)),
{
    let mut a = lo;
    while a < hi && is_whitespace(v[a])
        invariant
            lo <= a <= hi <= v.len(),
            trim_start(v@.subrange(lo as int, hi as int)) == trim_start(
                v@.subrange(a as int, hi as int),
            ),
        decreases hi - a,
    {
        assert(v@.subrange(a as int, hi as int).drop_first() =~= v@.subrange(
            a + 1,
            hi as int,
        ));
        a = a + 1;
    }
    let mut b = hi;
    while b > a && is_whitespace(v[b - 1])
        invariant
            lo <= a <= b <= hi <= v.len(),
            trim_end(v@.subrange(a as int, hi as int)) == trim_end(v@.subrange(a as int, b as int)),
        decreases b - a,
    {
        assert(v@.subrange(a as int, b as int).drop_last() =~= v@.subrange(
            a as int,
            b - 1,
        ));
        b = b - 1;
    }
    (a, b)
}

// ---------------------------------------------------------------------------
// Slices of a character vector
// ---------------------------------------------------------------------------

/// Every range lies within a text of length `n`.
pub open spec fn ranges_within(r: Seq<(usize, usize)>, n: int) -> bool {
    forall|i: int| 0 <= i < r.len() ==> #[trigger] r[i].0 <= r[i].1 <= n
}

/// The pieces of `v` that the ranges cut out.
pub open spec fn slices(v: Seq<char>, r: Seq<(usize, usize)>) -> Seq<Seq<char>> {
    Seq::new(r.len(), |i: int| v.subrange(r[i].0 as int, r[i].1 as int))
}

proof fn lemma_slices_push(v: Seq<char>, r: Seq<(usize, usize)>, x: (usize, usize))
    ensures
        slices(v, r.push(x)) == slices(v, r).push(v.subrange(x.0 as int, x.1 as int)),
{
    assert(slices(v, r.push(x)) =~= slices(v, r).push(v.subrange(x.0 as int, x.1 as int)));
}

// ---------------------------------------------------------------------------
// Lines
// ---------------------------------------------------------------------------

/// A line without the `'\r'` that ends it, if any.
pub open spec fn strip_cr(l: Seq<char>) -> Seq<char> {
    if l.len() > 0 && l.last() == '\r' {
        l.drop_last()
    } else {
        l
    }
}

/// The lines of `s`, where `cur` is the part of the current line already read:
/// a line ends at `'\n'`, and a `'\r'` right before that `'\n'` is dropped; a last
/// line without `'\n'` is kept as it is, and no empty line follows a final `'\n'`.
pub open spec fn lines_from(s: Seq<char>, cur: Seq<char>) -> Seq<Seq<char>>
    decreases s.len(),
{
    if s.len() == 0 {
        if cur.len() > 0 {
            seq![cur]
        } else {
            seq![]
        }
    } else if s[0] == '\n' {
        seq![strip_cr(cur)] + lines_from(s.drop_first(), seq![])
    } else {
        lines_from(s.drop_first(), cur.push(s[0]))
    }
}

/// The lines of `s`, as `str::lines` yields them.
pub open spec fn lines_of(s: Seq<char>) -> Seq<Seq<char>> {
    lines_from(s, seq![])
}

/// The ranges of the lines of `v`.
pub fn line_bounds(v: &Vec<char>) -> (r: Vec<(usize, usize)>)
    ensures
        ranges_within(r@, v@.len() as int),
        slices(v@, r@) == lines_of(v@),
{
    let n = v.len();
    let mut r: Vec<(usize, usize)> = Vec::new();
    let mut start: usize = 0;
    let mut i: usize = 0;
    assert(v@.skip(0) =~= v@);
    assert(v@.subrange(0, 0) =~= seq![]);
    while i < n
        invariant
            n == v.len(),
            start <= i <= n,
            ranges_within(r@, n as int),
            lines_of(v@) == slices(v@, r@) + lines_from(
                v@.skip(i as int),
                v@.subrange(start as int, i as int),
            ),
        decreases n - i,
    {
        let ghost cur = v@.subrange(start as int, i as int);
        let ghost rest = v@.skip(i as int);
        assert(rest[0] == v@[i as int]);
        assert(rest.drop_first() =~= v@.skip(i + 1));
        if v[i] == '\n' {
            let mut end = i;
            if i > start && v[i - 1] == '\r' {
                end = i - 1;
                assert(strip_cr(cur) =~= v@.subrange(start as int, end as int));
            } else {
                assert(strip_cr(cur) =~= v@.subrange(start as int, end as int));
            }
            proof {
                lemma_slices_push(v@, r@, (start, end));
                assert(v@.subrange((i + 1) as int, (i + 1) as int) =~= seq![]);
                assert(slices(v@, r@) + (seq![strip_cr(cur)] + lines_from(
                    v@.skip(i + 1),
                    seq![],
                )) =~= slices(v@, r@).push(strip_cr(cur)) + lines_from(v@.skip(i + 1), seq![]));
            }
            let ghost before = r@;
            r.push((start, end));
            assert forall|j: int| 0 <= j < r@.len() implies #[trigger] r@[j].0 <= r@[j].1 <= n by {
                if j < before.len() {
                    assert(r@[j] == before[j]);
                }
            }
            start = i + 1;
        } else {
            assert(cur.push(v@[i as int]) =~= v@.subrange(start as int, i + 1));
        }
        i = i + 1;
    }
    if start < n {
        proof {
            lemma_slices_push(v@, r@, (start, n));
            assert(v@.skip(n as int) =~= seq![]);
        }
        let ghost before = r@;
        r.push((start, n));
        assert forall|j: int| 0 <= j < r@.len() implies #[trigger] r@[j].0 <= r@[j].1 <= n by {
            if j < before.len() {
                assert(r@[j] == before[j]);
            }
        }
    } else {
        assert(v@.skip(n as int) =~= seq![]);
        assert(slices(v@, r@) + seq![] =~= slices(v@, r@));
    }
    r
}

// ---------------------------------------------------------------------------
// Whitespace-separated tokens
// ---------------------------------------------------------------------------

/// The tokens of `s`, where `cur` is the part of the current token already read.
pub open spec fn tokens_from(s: Seq<char>, cur: Seq<char>) -> Seq<Seq<char>>
    decreases s.len(),
{
    if s.len() == 0 {
        if cur.len() > 0 {
            seq![cur]
        } else {
            seq![]
        }
    } else if is_ws(s[0]) {
        (if cur.len() > 0 {
            seq![cur]
        } else {
            seq![]
        }) + tokens_from(s.drop_first(), seq![])
    } else {
        tokens_from(s.drop_first(), cur.push(s[0]))
    }
}

/// The non-empty whitespace-separated pieces of `s`, as `str::split_whitespace` yields them.
pub open spec fn tokens_of(s: Seq<char>) -> Seq<Seq<char>> {
    tokens_from(s, seq![])
}

/// The ranges of the tokens of `v[lo..hi]`.
pub fn token_bounds(v: &Vec<char>, lo: usize, hi: usize) -> (r: Vec<(usize, usize)>)
    requires
        lo <= hi <= v.len(),
    ensures
        ranges_within(r@, v@.len() as int),
        slices(v@, r@) == tokens_of(v@.subrange(lo as int, hi as int)),
{
    let ghost s = v@.subrange(lo as int, hi as int);
    let mut r: Vec<(usize, usize)> = Vec::new();
    let mut start: usize = lo;
    let mut i: usize = lo;
    assert(v@.subrange(lo as int, hi as int) =~= s);
    assert(v@.subrange(lo as int, lo as int) =~= seq![]);
    while i < hi
        invariant
            lo <= start <= i <= hi <= v.len(),
            s == v@.subrange(lo as int, hi as int),
            ranges_within(r@, v@.len() as int),
            tokens_of(s) == slices(v@, r@) + tokens_from(
                v@.subrange(i as int, hi as int),
                v@.subrange(start as int, i as int),
            ),
        decreases hi - i,
    {
        let ghost cur = v@.subrange(start as int, i as int);
        let ghost rest = v@.subrange(i as int, hi as int);
        assert(rest[0] == v@[i as int]);
        assert(rest.drop_first() =~= v@.subrange(i + 1, hi as int));
        if is_whitespace(v[i]) {
            if i > start {
                proof {
                    lemma_slices_push(v@, r@, (start, i));
                    assert(slices(v@, r@) + (seq![cur] + tokens_from(
                        v@.subrange(i + 1, hi as int),
                        seq![],
                    )) =~= slices(v@, r@).push(cur) + tokens_from(
                        v@.subrange(i + 1, hi as int),
                        seq![],
                    ));
                }
                let ghost before = r@;
                r.push((start, i));
                assert forall|j: int| 0 <= j < r@.len() implies #[trigger] r@[j].0 <= r@[j].1 <= v@.len() by {
                    if j < before.len() {
                        assert(r@[j] == before[j]);
                    }
                }
            } else {
                assert(cur =~= seq![]);
                assert(seq![] + tokens_from(v@.subrange(i + 1, hi as int), seq![]) =~= tokens_from(
                    v@.subrange(i + 1, hi as int),
                    seq![],
                ));
            }
            start = i + 1;
            assert(v@.subrange((i + 1) as int, (i + 1) as int) =~= seq![]);
        } else {
            assert(cur.push(v@[i as int]) =~= v@.subrange(start as int, i + 1));
        }
        i = i + 1;
    }
    assert(v@.subrange(hi as int, hi as int) =~= seq![]);
    if start < hi {
        proof {
            lemma_slices_push(v@, r@, (start, hi));
        }
        let ghost before = r@;
        r.push((start, hi));
        assert forall|j: int| 0 <= j < r@.len() implies #[trigger] r@[j].0 <= r@[j].1 <= v@.len() by {
            if j < before.len() {
                assert(r@[j] == before[j]);
            }
        }
    } else {
        assert(slices(v@, r@) + seq![] =~= slices(v@, r@));
    }
    r
}

// ---------------------------------------------------------------------------
// Prefixes
// ---------------------------------------------------------------------------

/// `p` is a prefix of `s`.
pub open spec fn starts_with(s: Seq<char>, p: Seq<char>) -> bool {
    p.len() <= s.len() && s.take(p.len() as int) == p
}

/// `v[lo..hi]` starts with `p`.
pub fn has_prefix(v: &Vec<char>, lo: usize, hi: usize, p: &Vec<char>) -> (r: bool)
    requires
        lo <= hi <= v.len(),
    ensures
        r == starts_with(v@.subrange(lo as int, hi as int), p@),
{
    let ghost s = v@.subrange(lo as int, hi as int);
    if p.len() > hi - lo {
        return false;
    }
    let mut k: usize = 0;
    while k < p.len()
        invariant
            k <= p.len() <= hi - lo,
            lo <= hi <= v.len(),
            s == v@.subrange(lo as int, hi as int),
            forall|j: int| 0 <= j < k ==> v@[lo + j] == p@[j],
        decreases p.len() - k,
    {
        if v[lo + k] != p[k] {
            assert(s.take(p.len() as int)[k as int] != p@[k as int]);
            return false;
        }
        k = k + 1;
    }
    assert(s.take(p.len() as int) =~= p@);
    true
}

/// `v[lo..hi]` equals `p`.
pub fn range_equals(v: &Vec<char>, lo: usize, hi: usize, p: &Vec<char>) -> (r: bool)
    requires
        lo <= hi <= v.len(),
    ensures
        r == (v@.subrange(lo as int, hi as int) == p@),
{
    if hi - lo != p.len() {
        return false;
    }
    let b = has_prefix(v, lo, hi, p);
    assert(v@.subrange(lo as int, hi as int).take(p.len() as int) =~= v@.subrange(
        lo as int,
        hi as int,
    ));
    b
}

/// The characters of `s`, in order.
pub fn chars_of(s: &str) -> (v: Vec<char>)
    ensures
        v@ == s@,
{
    let mut v: Vec<char> = Vec::new();
    for c in it: s.chars()
        invariant
            v@ == it.history(),
    {
        v.push(c);
    }
    v
}

// ---------------------------------------------------------------------------
// Building strings
// ---------------------------------------------------------------------------

/// Appends one character to a string.
/// Wraps `String::push`, which std documents as appending the character to the end.
#[verifier::external_body]
pub(crate) fn push_char(s: &mut String, c: char)
    ensures
        final(s)@ == old(s)@.push(c),
{
    s.push(c);
}

/// Appends `v[lo..hi]` to `s`.
pub fn push_range(s: &mut String, v: &Vec<char>, lo: usize, hi: usize)
    requires
        lo <= hi <= v.len(),
    ensures
        final(s)@ == old(s)@ + v@.subrange(lo as int, hi as int),
{
    let ghost s0 = s@;
    let mut i = lo;
    while i < hi
        invariant
            lo <= i <= hi <= v.len(),
            s@ == s0 + v@.subrange(lo as int, i as int),
        decreases hi - i,
    {
        push_char(s, v[i]);
        assert(s0 + v@.subrange(lo as int, i + 1) =~= (s0 + v@.subrange(lo as int, i as int)).push(
            v@[i as int],
        ));
        i = i + 1;
    }
}

/// The string made of `v[lo..hi]`.
pub fn string_of_range(v: &Vec<char>, lo: usize, hi: usize) -> (s: String)
    requires
        lo <= hi <= v.len(),
    ensures
        s@ == v@.subrange(lo as int, hi as int),
{
    let mut s = String::new();
    push_range(&mut s, v, lo, hi);
    assert(Seq::<char>::empty() + v@.subrange(lo as int, hi as int) =~= v@.subrange(
        lo as int,
        hi as int,
    ));
    s
}

/// The trimmed text of `s`, as `str::trim` gives it.
pub fn trimmed(s: &str) -> (t: String)
    ensures
        t@ == trim(s@),
{
    let v = chars_of(s);
    let (a, b) = trim_bounds(&v, 0, v.len());
    assert(v@.subrange(0, v@.len() as int) =~= v@);
    string_of_range(&v, a, b)
}

// ---------------------------------------------------------------------------
// Decimal numbers
// ---------------------------------------------------------------------------

pub open spec fn is_digit(c: char) -> bool {
    '0' <= c <= '9'
}

pub open spec fn all_digits(s: Seq<char>) -> bool {
    forall|i: int| 0 <= i < s.len() ==> is_digit(#[trigger] s[i])
}

/// The value of a run of decimal digits.
pub open spec fn digits_value(s: Seq<char>) -> nat
    decreases s.len(),
{
    if s.len() == 0 {
        0
    } else {
        digits_value(s.drop_last()) * 10 + ((s.last() as int - '0' as int) as nat)
    }
}

/// What `str::parse::<u32>` gives: an optional `'+'`, then at least one decimal
/// digit, with a value that fits.
pub open spec fn parse_u32(s: Seq<char>) -> Option<u32> {
    let d = if s.len() > 0 && s[0] == '+' {
        s.drop_first()
    } else {
        s
    };
    if d.len() > 0 && all_digits(d) && digits_value(d) <= u32::MAX {
        Some(digits_value(d) as u32)
    } else {
        None
    }
}

/// What `str::parse::<i64>` gives: an optional `'+'` or `'-'`, then at least one
/// decimal digit, with a value that fits.
pub open spec fn parse_i64(s: Seq<char>) -> Option<i64> {
    let signed = s.len() > 0 && (s[0] == '+' || s[0] == '-');
    let d = if signed {
        s.drop_first()
    } else {
        s
    };
    let v: int = if signed && s[0] == '-' {
        -digits_value(d)
    } else {
        digits_value(d) as int
    };
    if d.len() > 0 && all_digits(d) && i64::MIN <= v <= i64::MAX {
        Some(v as i64)
    } else {
        None
    }
}

proof fn lemma_digits_prefix_le(s: Seq<char>, k: int)
    requires
        0 <= k <= s.len(),
        all_digits(s),
    ensures
        digits_value(s.take(k)) <= digits_value(s),
    decreases s.len(),
{
    if k < s.len() {
        let t = s.drop_last();
        assert(all_digits(t));
        lemma_digits_prefix_le(t, k);
        assert(t.take(k) =~= s.take(k));
        assert(is_digit(s.last()));
    } else {
        assert(s.take(k) =~= s);
    }
}

/// The value of the digits `v[lo..hi]` when there is at least one, all are digits
/// and the value is at most `limit`.
fn digits_up_to(v: &Vec<char>, lo: usize, hi: usize, limit: u64) -> (r: Option<u64>)
    requires
        lo <= hi <= v.len(),
    ensures
        ({
            let d = v@.subrange(lo as int, hi as int);
            r == if d.len() > 0 && all_digits(d) && digits_value(d) <= limit {
                Some(digits_value(d) as u64)
            } else {
                None
            }
        }),
{
    let ghost d = v@.subrange(lo as int, hi as int);
    if lo == hi {
        return None;
    }
    let mut acc: u64 = 0;
    let mut i = lo;
    assert(d.take(0) =~= seq![]);
    while i < hi
        invariant
            lo <= i <= hi <= v.len(),
            d == v@.subrange(lo as int, hi as int),
            acc <= limit,
            all_digits(d.take(i - lo)),
            acc == digits_value(d.take(i - lo)),
        decreases hi - i,
    {
        let c = v[i];
        if !('0' <= c && c <= '9') {
            assert(!is_digit(d[i - lo]));
            return None;
        }
        let dig = (c as u32 - '0' as u32) as u64;
        assert(d.take(i - lo + 1).drop_last() =~= d.take(i - lo));
        assert(d.take(i - lo + 1).last() == c);
        assert(all_digits(d.take(i - lo + 1))) by {
            assert forall|j: int| 0 <= j < i - lo + 1 implies is_digit(
                #[trigger] d.take(i - lo + 1)[j],
            ) by {
                if j < i - lo {
                    assert(d.take(i - lo + 1)[j] == d.take(i - lo)[j]);
                }
            }
        }
        if dig > limit || acc > (limit - dig) / 10 {
            proof {
                assert(acc * 10 + dig > limit) by (nonlinear_arith)
                    requires
                        dig > limit || acc > (limit - dig) / 10,
                        dig <= limit ==> (limit - dig) / 10 * 10 <= limit - dig,
                ;
                if all_digits(d) {
                    lemma_digits_prefix_le(d, i - lo + 1);
                }
            }
            return None;
        }
        assert(acc * 10 + dig <= limit) by (nonlinear_arith)
            requires
                acc <= (limit - dig) / 10,
                dig <= limit,
        ;
        acc = acc * 10 + dig;
        i = i + 1;
    }
    assert(d.take(hi - lo) =~= d);
    Some(acc)
}

/// `str::parse::<u32>` applied to `v[lo..hi]`.
pub fn parse_u32_range(v: &Vec<char>, lo: usize, hi: usize) -> (r: Option<u32>)
    requires
        lo <= hi <= v.len(),
    ensures
        r == parse_u32(v@.subrange(lo as int, hi as int)),
{
    let ghost s = v@.subrange(lo as int, hi as int);
    let mut start = lo;
    if lo < hi && v[lo] == '+' {
        start = lo + 1;
        assert(s.drop_first() =~= v@.subrange(start as int, hi as int));
    } else {
        assert(s =~= v@.subrange(start as int, hi as int));
    }
    match digits_up_to(v, start, hi, 0xFFFF_FFFF) {
        Some(n) => Some(n as u32),
        None => None,
    }
}

/// `str::parse::<i64>` applied to `v[lo..hi]`.
pub fn parse_i64_range(v: &Vec<char>, lo: usize, hi: usize) -> (r: Option<i64>)
    requires
        lo <= hi <= v.len(),
    ensures
        r == parse_i64(v@.subrange(lo as int, hi as int)),
{
    let ghost s = v@.subrange(lo as int, hi as int);
    let mut start = lo;
    let mut negative = false;
    if lo < hi && (v[lo] == '+' || v[lo] == '-') {
        start = lo + 1;
        negative = v[lo] == '-';
        assert(s.drop_first() =~= v@.subrange(start as int, hi as int));
    } else {
        assert(s =~= v@.subrange(start as int, hi as int));
    }
    if negative {
        match digits_up_to(v, start, hi, 0x8000_0000_0000_0000) {
            Some(n) => {
                if n == 0x8000_0000_0000_0000 {
                    Some(i64::MIN)
                } else {
                    Some(-(n as i64))
                }
            },
            None => None,
        }
    } else {
        match digits_up_to(v, start, hi, 0x7FFF_FFFF_FFFF_FFFF) {
            Some(n) => Some(n as i64),
            None => None,
        }
    }
}

/// The character of a decimal digit.
pub open spec fn digit_char(d: nat) -> char {
    if d == 0 {
        '0'
    } else if d == 1 {
        '1'
    } else if d == 2 {
        '2'
    } else if d == 3 {
        '3'
    } else if d == 4 {
        '4'
    } else if d == 5 {
        '5'
    } else if d == 6 {
        '6'
    } else if d == 7 {
        '7'
    } else if d == 8 {
        '8'
    } else {
        '9'
    }
}

/// The decimal digits of `n`, without leading zeros.
pub open spec fn decimal(n: nat) -> Seq<char>
    decreases n,
{
    if n < 10 {
        seq![digit_char(n)]
    } else {
        decimal(n / 10).push(digit_char(n % 10))
    }
}

/// The decimal text of `n`, with `'-'` in front of a negative number.
pub open spec fn signed_decimal(n: int) -> Seq<char> {
    if n < 0 {
        seq!['-'] + decimal((-n) as nat)
    } else {
        decimal(n as nat)
    }
}

fn digit_to_char(d: u64) -> (c: char)
    requires
        d < 10,
    ensures
        c == digit_char(d as nat),
{
    if d == 0 {
        '0'
    } else if d == 1 {
        '1'
    } else if d == 2 {
        '2'
    } else if d == 3 {
        '3'
    } else if d == 4 {
        '4'
    } else if d == 5 {
        '5'
    } else if d == 6 {
        '6'
    } else if d == 7 {
        '7'
    } else if d == 8 {
        '8'
    } else {
        '9'
    }
}

fn push_decimal(s: &mut String, n: u64)
    ensures
        final(s)@ == old(s)@ + decimal(n as nat),
    decreases n,
{
    if n >= 10 {
        push_decimal(s, n / 10);
    }
    push_char(s, digit_to_char(n % 10));
    proof {
        if n >= 10 {
            assert(old(s)@ + decimal(n as nat) =~= (old(s)@ + decimal((n / 10) as nat)).push(
                digit_char((n % 10) as nat),
            ));
        } else {
            assert(old(s)@ + decimal(n as nat) =~= old(s)@.push(digit_char((n % 10) as nat)));
        }
    }
}

/// Appends the decimal text of `n` to `s`, as `{}` formats an `i32`.
pub fn push_signed_decimal(s: &mut String, n: i32)
    ensures
        final(s)@ == old(s)@ + signed_decimal(n as int),
{
    if n < 0 {
        push_char(s, '-');
        let m: i64 = -(n as i64);
        push_decimal(s, m as u64);
        assert(old(s)@ + signed_decimal(n as int) =~= old(s)@.push('-') + decimal(m as nat));
    } else {
        push_decimal(s, n as u64);
    }
}

} // verus!
