//! Orders in which values are listed, and a stable sort by them.
//!
//! Byte order is the order of `[u8]`, of `String` (its UTF-8 bytes) and of
//! `OsStr`: lexicographic, a proper prefix first.

use vstd::prelude::*;
use vstd::multiset::Multiset;

verus! {

broadcast use vstd::multiset::group_multiset_axioms;

/// `a` comes strictly before `b` in byte order.
pub open spec fn bytes_lt(a: Seq<u8>, b: Seq<u8>) -> bool
    decreases a.len(),
{
    if a.len() == 0 {
        b.len() > 0
    } else if b.len() == 0 {
        false
    } else if a[0] != b[0] {
        a[0] < b[0]
    } else {
        bytes_lt(a.drop_first(), b.drop_first())
    }
}

pub proof fn lemma_bytes_lt_irreflexive(a: Seq<u8>)
    ensures
        !bytes_lt(a, a),
    decreases a.len(),
{
    if a.len() > 0 {
        lemma_bytes_lt_irreflexive(a.drop_first());
    }
}

pub proof fn lemma_bytes_lt_transitive(a: Seq<u8>, b: Seq<u8>, c: Seq<u8>)
    requires
        bytes_lt(a, b),
        bytes_lt(b, c),
    ensures
        bytes_lt(a, c),
    decreases a.len(),
{
    if a.len() > 0 && b.len() > 0 && c.len() > 0 && a[0] == b[0] && b[0] == c[0] {
        lemma_bytes_lt_transitive(a.drop_first(), b.drop_first(), c.drop_first());
    }
}

/// Any two different byte strings are ordered one way or the other.
pub proof fn lemma_bytes_lt_total(a: Seq<u8>, b: Seq<u8>)
    requires
        a != b,
    ensures
        bytes_lt(a, b) || bytes_lt(b, a),
    decreases a.len(),
{
    if a.len() > 0 && b.len() > 0 && a[0] == b[0] {
        if a.drop_first() == b.drop_first() {
            assert(a =~= seq![a[0]] + a.drop_first());
            assert(b =~= seq![b[0]] + b.drop_first());
        }
        lemma_bytes_lt_total(a.drop_first(), b.drop_first());
    } else if a.len() == 0 && b.len() == 0 {
        assert(a =~= b);
    }
}

/// `a` comes strictly before `b` in byte order.
pub fn bytes_less(a: &[u8], b: &[u8]) -> (r: bool)
    ensures
        r == bytes_lt(a@, b@),
{
    let mut i: usize = 0;
    assert(a@.skip(0) =~= a@);
    assert(b@.skip(0) =~= b@);
    while i < a.len() && i < b.len()
        invariant
            i <= a@.len(),
            i <= b@.len(),
            bytes_lt(a@, b@) == bytes_lt(a@.skip(i as int), b@.skip(i as int)),
        decreases a@.len() - i,
    {
        assert(a@.skip(i as int)[0] == a@[i as int]);
        assert(b@.skip(i as int)[0] == b@[i as int]);
        if a[i] != b[i] {
            return a[i] < b[i];
        }
        assert(a@.skip(i as int).drop_first() =~= a@.skip(i + 1));
        assert(b@.skip(i as int).drop_first() =~= b@.skip(i + 1));
        i = i + 1;
    }
    i < b.len()
}

/// `a` and `b` hold the same bytes.
pub fn bytes_equal(a: &[u8], b: &[u8]) -> (r: bool)
    ensures
        r == (a@ == b@),
{
    if a.len() != b.len() {
        return false;
    }
    let mut i: usize = 0;
    while i < a.len()
        invariant
            i <= a@.len() == b@.len(),
            forall|j: int| 0 <= j < i ==> a@[j] == b@[j],
        decreases a@.len() - i,
    {
        if a[i] != b[i] {
            return false;
        }
        i = i + 1;
    }
    assert(a@ =~= b@);
    true
}

/// A value listed by a key, under a strict total order of keys.
pub trait SortKey {
    type Key;

    spec fn sort_key(&self) -> Self::Key;

    spec fn key_lt(a: Self::Key, b: Self::Key) -> bool;

    proof fn lemma_key_lt_irreflexive(a: Self::Key)
        ensures
            !Self::key_lt(a, a),
    ;

    proof fn lemma_key_lt_transitive(a: Self::Key, b: Self::Key, c: Self::Key)
        requires
            Self::key_lt(a, b),
            Self::key_lt(b, c),
        ensures
            Self::key_lt(a, c),
    ;

    proof fn lemma_key_lt_total(a: Self::Key, b: Self::Key)
        requires
            a != b,
        ensures
            Self::key_lt(a, b) || Self::key_lt(b, a),
    ;

    /// `self` comes strictly before `other`.
    fn comes_before(&self, other: &Self) -> (r: bool)
        ensures
            r == Self::key_lt(self.sort_key(), other.sort_key()),
    ;
}

/// The keys of the values, in order.
pub open spec fn keys_of<T: SortKey>(s: Seq<T>) -> Seq<T::Key> {
    Seq::new(s.len(), |i: int| s[i].sort_key())
}

/// Each value comes no later than the ones after it.
pub open spec fn sorted_by_key<T: SortKey>(s: Seq<T>) -> bool {
    forall|i: int, j: int|
        0 <= i < j < s.len() ==> !T::key_lt(#[trigger] s[j].sort_key(), #[trigger] s[i].sort_key())
}

/// Each key comes strictly before the ones after it (so none occurs twice).
pub open spec fn strictly_sorted_keys<T: SortKey>(s: Seq<T>) -> bool {
    forall|i: int, j: int|
        0 <= i < j < s.len() ==> T::key_lt(#[trigger] s[i].sort_key(), #[trigger] s[j].sort_key())
}

/// The values of `s` whose key is `k`, in order.
pub open spec fn with_key<T: SortKey>(s: Seq<T>, k: T::Key) -> Seq<T> {
    s.filter(|y: T| y.sort_key() == k)
}

/// A sorted list without repeated keys is strictly sorted.
pub proof fn lemma_sorted_distinct_is_strict<T: SortKey>(s: Seq<T>)
    requires
        sorted_by_key(s),
        keys_of(s).no_duplicates(),
    ensures
        strictly_sorted_keys(s),
{
    assert forall|i: int, j: int| 0 <= i < j < s.len() implies T::key_lt(
        #[trigger] s[i].sort_key(),
        #[trigger] s[j].sort_key(),
    ) by {
        assert(keys_of(s)[i] != keys_of(s)[j]);
        T::lemma_key_lt_total(s[i].sort_key(), s[j].sort_key());
    }
}

/// A strictly sorted list has no repeated key.
pub proof fn lemma_strict_is_distinct<T: SortKey>(s: Seq<T>)
    requires
        strictly_sorted_keys(s),
    ensures
        keys_of(s).no_duplicates(),
{
    let ks = keys_of(s);
    assert forall|i: int, j: int| 0 <= i < ks.len() && 0 <= j < ks.len() && i != j implies ks[i] != ks[j] by {
        if i < j {
            assert(T::key_lt(s[i].sort_key(), s[j].sort_key()));
        } else {
            assert(T::key_lt(s[j].sort_key(), s[i].sort_key()));
        }
        T::lemma_key_lt_irreflexive(ks[i]);
    }
}

/// Two lists with the same elements, one of them without repeats: the other has none either.
pub proof fn lemma_same_multiset_distinct<K>(a: Seq<K>, b: Seq<K>)
    requires
        a.no_duplicates(),
        a.to_multiset() == b.to_multiset(),
    ensures
        b.no_duplicates(),
{
    a.lemma_multiset_has_no_duplicates();
    b.lemma_multiset_has_no_duplicates_conv();
}

proof fn lemma_empty_multiset<T>(s: Seq<T>)
    requires
        s.len() == 0,
    ensures
        s.to_multiset() =~= Multiset::<T>::empty(),
{
    vstd::seq_lib::to_multiset_len(s);
    vstd::multiset::lemma_multiset_empty_len(s.to_multiset());
}

/// Inserting a value that the filter drops leaves the filtered list as it was.
proof fn lemma_filter_insert_dropped<T>(s: Seq<T>, p: int, x: T, f: spec_fn(T) -> bool)
    requires
        0 <= p <= s.len(),
        !f(x),
    ensures
        s.insert(p, x).filter(f) == s.filter(f),
{
    reveal_with_fuel(Seq::filter, 2);
    let a = s.take(p);
    let b = s.skip(p);
    assert(s =~= a + b);
    assert(s.insert(p, x) =~= a + (seq![x] + b));
    Seq::filter_distributes_over_add(a, b, f);
    Seq::filter_distributes_over_add(a, seq![x] + b, f);
    Seq::filter_distributes_over_add(seq![x], b, f);
    assert(seq![x].drop_last() =~= Seq::<T>::empty());
    assert(seq![x].filter(f) =~= Seq::<T>::empty());
    assert(Seq::<T>::empty() + b.filter(f) =~= b.filter(f));
}

/// Inserting a value that the filter keeps, where nothing before it is kept,
/// puts it first in the filtered list.
proof fn lemma_filter_insert_first<T>(s: Seq<T>, p: int, x: T, f: spec_fn(T) -> bool)
    requires
        0 <= p <= s.len(),
        f(x),
        forall|j: int| 0 <= j < p ==> !f(#[trigger] s[j]),
    ensures
        s.insert(p, x).filter(f) == seq![x] + s.filter(f),
{
    broadcast use vstd::seq_lib::group_filter_ensures;

    reveal_with_fuel(Seq::filter, 2);
    let a = s.take(p);
    let b = s.skip(p);
    assert(s =~= a + b);
    assert(s.insert(p, x) =~= a + (seq![x] + b));
    Seq::filter_distributes_over_add(a, b, f);
    Seq::filter_distributes_over_add(a, seq![x] + b, f);
    Seq::filter_distributes_over_add(seq![x], b, f);
    if a.filter(f).len() > 0 {
        let y = a.filter(f)[0];
        assert(f(y));
        assert(a.filter(f).contains(y));
        a.lemma_filter_contains_rev(f, y);
        let j = choose|j: int| 0 <= j < a.len() && a[j] == y;
        assert(s[j] == a[j]);
    }
    assert(a.filter(f) =~= Seq::<T>::empty());
    assert(seq![x].drop_last() =~= Seq::<T>::empty());
    assert(seq![x].filter(f) =~= seq![x]);
    assert(Seq::<T>::empty() + (seq![x] + b.filter(f)) =~= seq![x] + b.filter(f));
    assert(Seq::<T>::empty() + b.filter(f) =~= b.filter(f));
}

/// Sorts `v` by key; values with the same key keep the order in which they came.
pub fn sort_by_key<T: SortKey>(v: Vec<T>) -> (r: Vec<T>)
    ensures
        r@.to_multiset() == v@.to_multiset(),
        keys_of(r@).to_multiset() == keys_of(v@).to_multiset(),
        sorted_by_key(r@),
        forall|k: T::Key| #[trigger] with_key(r@, k) == with_key(v@, k),
{
    let ghost orig = v@;
    let mut rest = v;
    let mut res: Vec<T> = Vec::new();
    proof {
        lemma_empty_multiset(res@);
        lemma_empty_multiset(keys_of(res@));
        assert(orig.skip(orig.len() as int) =~= Seq::<T>::empty());
        assert forall|k: T::Key| #[trigger] with_key(res@, k) == with_key(orig.skip(rest@.len() as int), k) by {
            assert(res@ =~= Seq::<T>::empty());
        }
    }
    while rest.len() > 0
        invariant
            rest@ == orig.take(rest@.len() as int),
            rest@.len() <= orig.len(),
            res@.to_multiset().add(rest@.to_multiset()) == orig.to_multiset(),
            keys_of(res@).to_multiset().add(keys_of(rest@).to_multiset()) == keys_of(orig).to_multiset(),
            sorted_by_key(res@),
            forall|k: T::Key| #[trigger] with_key(res@, k) == with_key(orig.skip(rest@.len() as int), k),
        decreases rest.len(),
    {
        let ghost before = rest@;
        let x = rest.pop().unwrap();
        assert(before =~= rest@.push(x));
        let mut k: usize = 0;
        while k < res.len() && res[k].comes_before(&x)
            invariant
                k <= res.len(),
                forall|j: int| 0 <= j < k ==> T::key_lt(#[trigger] res@[j].sort_key(), x.sort_key()),
            decreases res.len() - k,
        {
            k = k + 1;
        }
        let ghost old_res = res@;
        res.insert(k, x);
        proof {
            let n = rest@.len() as int;
            assert(rest@ =~= orig.take(n));
            assert(orig[n] == x) by {
                assert(before == orig.take(n + 1));
                assert(before[n] == x);
            }
            assert(orig.skip(n) =~= seq![x] + orig.skip(n + 1));
            assert(res@ == old_res.insert(k as int, x));
            vstd::seq_lib::to_multiset_insert(old_res, k as int, x);
            vstd::seq_lib::to_multiset_build(rest@, x);
            assert(res@.to_multiset().add(rest@.to_multiset()) =~= orig.to_multiset());
            let ks = keys_of(res@);
            let oks = keys_of(old_res);
            let xk = x.sort_key();
            assert(ks =~= oks.insert(k as int, xk));
            assert(keys_of(before) =~= keys_of(rest@).push(xk));
            vstd::seq_lib::to_multiset_insert(oks, k as int, xk);
            vstd::seq_lib::to_multiset_build(keys_of(rest@), xk);
            assert(ks.to_multiset().add(keys_of(rest@).to_multiset()) =~= keys_of(orig).to_multiset());
            // values with the key of x keep their order: x goes before them
            assert forall|kk: T::Key| #[trigger] with_key(res@, kk) == with_key(orig.skip(n), kk) by {
                let f = |y: T| y.sort_key() == kk;
                assert(with_key(old_res, kk) == with_key(orig.skip(n + 1), kk));
                assert(orig.skip(n + 1).insert(0, x) =~= seq![x] + orig.skip(n + 1));
                if kk == xk {
                    assert forall|j: int| 0 <= j < k implies !f(#[trigger] old_res[j]) by {
                        assert(T::key_lt(old_res[j].sort_key(), xk));
                        T::lemma_key_lt_irreflexive(xk);
                    }
                    lemma_filter_insert_first(old_res, k as int, x, f);
                    lemma_filter_insert_first(orig.skip(n + 1), 0, x, f);
                } else {
                    lemma_filter_insert_dropped(old_res, k as int, x, f);
                    lemma_filter_insert_dropped(orig.skip(n + 1), 0, x, f);
                }
            }
            assert forall|i: int, j: int| 0 <= i < j < ks.len() implies !T::key_lt(
                #[trigger] res@[j].sort_key(),
                #[trigger] res@[i].sort_key(),
            ) by {
                assert(res@[i].sort_key() == ks[i]);
                assert(res@[j].sort_key() == ks[j]);
                if j < k {
                    assert(ks[i] == oks[i] && ks[j] == oks[j]);
                    assert(oks[i] == old_res[i].sort_key() && oks[j] == old_res[j].sort_key());
                } else if j == k {
                    assert(ks[j] == xk);
                    assert(ks[i] == oks[i]);
                    assert(T::key_lt(old_res[i].sort_key(), xk));
                    if T::key_lt(xk, oks[i]) {
                        T::lemma_key_lt_transitive(xk, oks[i], xk);
                        T::lemma_key_lt_irreflexive(xk);
                    }
                } else if i < k {
                    assert(ks[i] == oks[i] && ks[j] == oks[j - 1]);
                    assert(oks[i] == old_res[i].sort_key() && oks[j - 1] == old_res[j - 1].sort_key());
                } else if i == k {
                    assert(ks[i] == xk && ks[j] == oks[j - 1]);
                    assert(oks[k as int] == old_res[k as int].sort_key());
                    assert(oks[j - 1] == old_res[j - 1].sort_key());
                    assert(!T::key_lt(oks[k as int], xk));
                    if T::key_lt(oks[j - 1], xk) {
                        if oks[k as int] != xk {
                            T::lemma_key_lt_total(oks[k as int], xk);
                            T::lemma_key_lt_transitive(oks[j - 1], xk, oks[k as int]);
                        }
                        if j - 1 > k {
                            assert(!T::key_lt(oks[j - 1], oks[k as int]));
                        } else {
                            T::lemma_key_lt_irreflexive(xk);
                            T::lemma_key_lt_irreflexive(oks[k as int]);
                        }
                    }
                } else {
                    assert(ks[i] == oks[i - 1] && ks[j] == oks[j - 1]);
                    assert(oks[i - 1] == old_res[i - 1].sort_key() && oks[j - 1] == old_res[j - 1].sort_key());
                }
            }
        }
    }
    proof {
        lemma_empty_multiset(rest@);
        lemma_empty_multiset(keys_of(rest@));
        assert(orig.skip(0) =~= orig);
    }
    res
}

/// Some value of `s` has the key `k`.
pub open spec fn holds_key<T: SortKey>(s: Seq<T>, k: T::Key) -> bool {
    exists|i: int| 0 <= i < s.len() && #[trigger] s[i].sort_key() == k
}

/// `x` is the first value of `s` with its key.
pub open spec fn first_of_key<T: SortKey>(s: Seq<T>, x: T) -> bool {
    exists|j: int|
        #![trigger s[j]]
        0 <= j < s.len() && s[j] == x && forall|i: int| 0 <= i < j ==> #[trigger] s[i].sort_key() != x.sort_key()
}

/// Sorts `v` by key and keeps, of the values with one key, the first: what a
/// stable sort followed by removing each value equal to the one before it gives.
pub fn sort_dedup_by_key<T: SortKey>(v: Vec<T>) -> (r: Vec<T>)
    ensures
        strictly_sorted_keys(r@),
        forall|k: T::Key| holds_key(r@, k) <==> holds_key(v@, k),
        forall|i: int| 0 <= i < r@.len() ==> first_of_key(v@, #[trigger] r@[i]),
{
    broadcast use vstd::std_specs::vec::axiom_spec_into_iter;

    let ghost orig = v@;
    let mut res: Vec<T> = Vec::new();
    for x in it: v.into_iter()
        invariant
            it.seq() == orig,
            0 <= it.index() <= orig.len(),
            strictly_sorted_keys(res@),
            forall|k: T::Key| holds_key(res@, k) <==> holds_key(orig.take(it.index()), k),
            forall|i: int| 0 <= i < res@.len() ==> first_of_key(orig.take(it.index()), #[trigger] res@[i]),
    {
        let ghost n = it.index();
        let ghost xk = x.sort_key();
        let ghost before = orig.take(n);
        let ghost after = orig.take(n + 1);
        proof {
            assert(after =~= before.push(x));
        }
        let mut k: usize = 0;
        while k < res.len() && res[k].comes_before(&x)
            invariant
                k <= res.len(),
                xk == x.sort_key(),
                forall|j: int| 0 <= j < k ==> T::key_lt(#[trigger] res@[j].sort_key(), xk),
            decreases res.len() - k,
        {
            k = k + 1;
        }
        let ghost old_res = res@;
        if k < res.len() && !x.comes_before(&res[k]) {
            proof {
                let rk = old_res[k as int].sort_key();
                assert(!T::key_lt(rk, xk));
                if rk != xk {
                    T::lemma_key_lt_total(rk, xk);
                }
                assert forall|kk: T::Key| holds_key(res@, kk) <==> holds_key(after, kk) by {
                    if holds_key(after, kk) {
                        let i = choose|i: int| 0 <= i < after.len() && #[trigger] after[i].sort_key() == kk;
                        if i < n {
                            assert(before[i] == after[i]);
                            assert(holds_key(before, kk));
                        }
                    }
                    if holds_key(before, kk) {
                        let i = choose|i: int| 0 <= i < before.len() && #[trigger] before[i].sort_key() == kk;
                        assert(after[i] == before[i]);
                    }
                }
                assert forall|i: int| 0 <= i < res@.len() implies first_of_key(after, #[trigger] res@[i]) by {
                    assert(first_of_key(before, res@[i]));
                    let j = choose|j: int|
                        #![trigger before[j]]
                        0 <= j < before.len() && before[j] == res@[i] && forall|m: int|
                            0 <= m < j ==> #[trigger] before[m].sort_key() != res@[i].sort_key();
                    assert(after[j] == before[j]);
                    assert forall|m: int| 0 <= m < j implies #[trigger] after[m].sort_key() != res@[i].sort_key() by {
                        assert(after[m] == before[m]);
                    }
                }
            }
        } else {
            res.insert(k, x);
            proof {
                assert(res@ == old_res.insert(k as int, x));
                // no value kept so far has the key of x
                assert forall|j: int| 0 <= j < old_res.len() implies #[trigger] old_res[j].sort_key() != xk by {
                    T::lemma_key_lt_irreflexive(xk);
                    if j > k {
                        assert(T::key_lt(old_res[k as int].sort_key(), old_res[j].sort_key()));
                        assert(T::key_lt(xk, old_res[k as int].sort_key()));
                        T::lemma_key_lt_transitive(xk, old_res[k as int].sort_key(), old_res[j].sort_key());
                    }
                }
                assert(!holds_key(before, xk)) by {
                    if holds_key(before, xk) {
                        assert(holds_key(old_res, xk));
                        let j = choose|j: int| 0 <= j < old_res.len() && #[trigger] old_res[j].sort_key() == xk;
                    }
                }
                assert forall|i: int, j: int| 0 <= i < j < res@.len() implies T::key_lt(
                    #[trigger] res@[i].sort_key(),
                    #[trigger] res@[j].sort_key(),
                ) by {
                    if j < k {
                        assert(res@[i] == old_res[i] && res@[j] == old_res[j]);
                    } else if j == k {
                        assert(res@[i] == old_res[i] && res@[j] == x);
                    } else if i < k {
                        assert(res@[i] == old_res[i] && res@[j] == old_res[j - 1]);
                        assert(T::key_lt(old_res[i].sort_key(), old_res[j - 1].sort_key()));
                    } else if i == k {
                        assert(res@[i] == x && res@[j] == old_res[j - 1]);
                        assert(T::key_lt(xk, old_res[k as int].sort_key()));
                        if j - 1 > k {
                            assert(T::key_lt(old_res[k as int].sort_key(), old_res[j - 1].sort_key()));
                            T::lemma_key_lt_transitive(xk, old_res[k as int].sort_key(), old_res[j - 1].sort_key());
                        }
                    } else {
                        assert(res@[i] == old_res[i - 1] && res@[j] == old_res[j - 1]);
                        assert(T::key_lt(old_res[i - 1].sort_key(), old_res[j - 1].sort_key()));
                    }
                }
                assert forall|kk: T::Key| holds_key(res@, kk) <==> holds_key(after, kk) by {
                    if holds_key(after, kk) {
                        let i = choose|i: int| 0 <= i < after.len() && #[trigger] after[i].sort_key() == kk;
                        if i < n {
                            assert(before[i] == after[i]);
                            assert(holds_key(before, kk));
                            assert(holds_key(old_res, kk));
                            let m = choose|m: int| 0 <= m < old_res.len() && #[trigger] old_res[m].sort_key() == kk;
                            if m < k {
                                assert(res@[m] == old_res[m]);
                            } else {
                                assert(res@[m + 1] == old_res[m]);
                            }
                        } else {
                            assert(res@[k as int] == x);
                        }
                    }
                    if holds_key(res@, kk) {
                        let m = choose|m: int| 0 <= m < res@.len() && #[trigger] res@[m].sort_key() == kk;
                        if m < k {
                            assert(res@[m] == old_res[m]);
                            assert(holds_key(old_res, kk));
                        } else if m > k {
                            assert(res@[m] == old_res[m - 1]);
                            assert(holds_key(old_res, kk));
                        } else {
                            assert(after[n] == x);
                        }
                        if holds_key(before, kk) {
                            let i = choose|i: int| 0 <= i < before.len() && #[trigger] before[i].sort_key() == kk;
                            assert(after[i] == before[i]);
                        }
                    }
                }
                assert forall|i: int| 0 <= i < res@.len() implies first_of_key(after, #[trigger] res@[i]) by {
                    if i == k {
                        assert(after[n] == x);
                        assert forall|m: int| 0 <= m < n implies #[trigger] after[m].sort_key() != x.sort_key() by {
                            assert(after[m] == before[m]);
                            if after[m].sort_key() == xk {
                                assert(holds_key(before, xk));
                            }
                        }
                    } else {
                        let o = if i < k { i } else { i - 1 };
                        assert(res@[i] == old_res[o]);
                        assert(first_of_key(before, old_res[o]));
                        let j = choose|j: int|
                            #![trigger before[j]]
                            0 <= j < before.len() && before[j] == old_res[o] && forall|m: int|
                                0 <= m < j ==> #[trigger] before[m].sort_key() != old_res[o].sort_key();
                        assert(after[j] == before[j]);
                        assert forall|m: int| 0 <= m < j implies #[trigger] after[m].sort_key() != res@[i].sort_key() by {
                            assert(after[m] == before[m]);
                        }
                    }
                }
            }
        }
    }
    proof {
        assert(orig.take(orig.len() as int) =~= orig);
    }
    res
}

} // verus!
