//! Paths as their components, and the order of `std::path::Path`.
//!
//! A path is held as the components that `Path::components` yields, each as
//! plain values (names and prefixes by their bytes), beside the text it was
//! written with. Two paths are equal when their components are, and they are
//! ordered component by component, as `Path` orders them: a prefix before the
//! root, the root before `.`, `.` before `..`, `..` before any name, names by
//! their bytes; a prefix by its kind, in the order `Verbatim`, `VerbatimUNC`,
//! `VerbatimDisk`, `DeviceNS`, `UNC`, `Disk`, and then by its fields.

use std::path::PathBuf;
use vstd::prelude::*;
use crate::order::{
    bytes_equal, bytes_less, bytes_lt, lemma_bytes_lt_irreflexive, lemma_bytes_lt_total,
    lemma_bytes_lt_transitive, SortKey,
};

verus! {

/// A Windows path prefix, as `std::path::Prefix` parses it.
pub enum PathPrefix {
    Verbatim(Vec<u8>),
    VerbatimUnc(Vec<u8>, Vec<u8>),
    VerbatimDisk(u8),
    DeviceNs(Vec<u8>),
    Unc(Vec<u8>, Vec<u8>),
    Disk(u8),
}

/// The value of a prefix.
pub enum PrefixView {
    Verbatim(Seq<u8>),
    VerbatimUnc(Seq<u8>, Seq<u8>),
    VerbatimDisk(u8),
    DeviceNs(Seq<u8>),
    Unc(Seq<u8>, Seq<u8>),
    Disk(u8),
}

impl View for PathPrefix {
    type V = PrefixView;

    open spec fn view(&self) -> PrefixView {
        match self {
            PathPrefix::Verbatim(a) => PrefixView::Verbatim(a@),
            PathPrefix::VerbatimUnc(a, b) => PrefixView::VerbatimUnc(a@, b@),
            PathPrefix::VerbatimDisk(d) => PrefixView::VerbatimDisk(*d),
            PathPrefix::DeviceNs(a) => PrefixView::DeviceNs(a@),
            PathPrefix::Unc(a, b) => PrefixView::Unc(a@, b@),
            PathPrefix::Disk(d) => PrefixView::Disk(*d),
        }
    }
}

/// One component of a path, as `std::path::Component` gives it.
pub enum PathPart {
    Prefix(PathPrefix),
    RootDir,
    CurDir,
    ParentDir,
    Normal(Vec<u8>),
}

/// The value of a component.
pub enum PartView {
    Prefix(PrefixView),
    RootDir,
    CurDir,
    ParentDir,
    Normal(Seq<u8>),
}

impl View for PathPart {
    type V = PartView;

    open spec fn view(&self) -> PartView {
        match self {
            PathPart::Prefix(p) => PartView::Prefix(p@),
            PathPart::RootDir => PartView::RootDir,
            PathPart::CurDir => PartView::CurDir,
            PathPart::ParentDir => PartView::ParentDir,
            PathPart::Normal(n) => PartView::Normal(n@),
        }
    }
}

/// A path of the file system, which the library carries without looking into it.
#[verifier::external_type_specification]
#[verifier::external_body]
pub struct ExPathBuf(PathBuf);

/// A repository's path: the path itself, handed back to the file system and to
/// git as it came; its text (`to_string_lossy`), which is what is shown; and its
/// components, by which paths are compared and ordered.
pub struct RepoPath {
    pub path: PathBuf,
    pub text: String,
    pub parts: Vec<PathPart>,
}

impl RepoPath {
    /// What the path is: its components.
    pub open spec fn key(&self) -> Seq<PartView> {
        Seq::new(self.parts@.len(), |i: int| self.parts@[i]@)
    }
}

// ---------------------------------------------------------------------------
// The order
// ---------------------------------------------------------------------------

pub open spec fn prefix_rank(p: PrefixView) -> int {
    match p {
        PrefixView::Verbatim(_) => 0,
        PrefixView::VerbatimUnc(_, _) => 1,
        PrefixView::VerbatimDisk(_) => 2,
        PrefixView::DeviceNs(_) => 3,
        PrefixView::Unc(_, _) => 4,
        PrefixView::Disk(_) => 5,
    }
}

/// Pairs of byte strings, the first one first.
pub open spec fn pair_lt(a1: Seq<u8>, a2: Seq<u8>, b1: Seq<u8>, b2: Seq<u8>) -> bool {
    bytes_lt(a1, b1) || (a1 == b1 && bytes_lt(a2, b2))
}

pub open spec fn prefix_lt(a: PrefixView, b: PrefixView) -> bool {
    if prefix_rank(a) != prefix_rank(b) {
        prefix_rank(a) < prefix_rank(b)
    } else {
        match (a, b) {
            (PrefixView::Verbatim(x), PrefixView::Verbatim(y)) => bytes_lt(x, y),
            (PrefixView::VerbatimUnc(x1, x2), PrefixView::VerbatimUnc(y1, y2)) => pair_lt(x1, x2, y1, y2),
            (PrefixView::VerbatimDisk(x), PrefixView::VerbatimDisk(y)) => x < y,
            (PrefixView::DeviceNs(x), PrefixView::DeviceNs(y)) => bytes_lt(x, y),
            (PrefixView::Unc(x1, x2), PrefixView::Unc(y1, y2)) => pair_lt(x1, x2, y1, y2),
            (PrefixView::Disk(x), PrefixView::Disk(y)) => x < y,
            _ => false,
        }
    }
}

pub open spec fn part_rank(c: PartView) -> int {
    match c {
        PartView::Prefix(_) => 0,
        PartView::RootDir => 1,
        PartView::CurDir => 2,
        PartView::ParentDir => 3,
        PartView::Normal(_) => 4,
    }
}

pub open spec fn part_lt(a: PartView, b: PartView) -> bool {
    if part_rank(a) != part_rank(b) {
        part_rank(a) < part_rank(b)
    } else {
        match (a, b) {
            (PartView::Prefix(x), PartView::Prefix(y)) => prefix_lt(x, y),
            (PartView::Normal(x), PartView::Normal(y)) => bytes_lt(x, y),
            _ => false,
        }
    }
}

/// `a` comes strictly before `b` in the order of `Path`.
pub open spec fn path_lt(a: Seq<PartView>, b: Seq<PartView>) -> bool
    decreases a.len(),
{
    if a.len() == 0 {
        b.len() > 0
    } else if b.len() == 0 {
        false
    } else if a[0] != b[0] {
        part_lt(a[0], b[0])
    } else {
        path_lt(a.drop_first(), b.drop_first())
    }
}

proof fn lemma_pair(a1: Seq<u8>, a2: Seq<u8>, b1: Seq<u8>, b2: Seq<u8>, c1: Seq<u8>, c2: Seq<u8>)
    ensures
        !pair_lt(a1, a2, a1, a2),
        pair_lt(a1, a2, b1, b2) && pair_lt(b1, b2, c1, c2) ==> pair_lt(a1, a2, c1, c2),
        (a1 != b1 || a2 != b2) ==> pair_lt(a1, a2, b1, b2) || pair_lt(b1, b2, a1, a2),
{
    lemma_bytes_lt_irreflexive(a1);
    lemma_bytes_lt_irreflexive(a2);
    if bytes_lt(a1, b1) && bytes_lt(b1, c1) {
        lemma_bytes_lt_transitive(a1, b1, c1);
    }
    if bytes_lt(a2, b2) && bytes_lt(b2, c2) {
        lemma_bytes_lt_transitive(a2, b2, c2);
    }
    if a1 != b1 {
        lemma_bytes_lt_total(a1, b1);
    }
    if a2 != b2 {
        lemma_bytes_lt_total(a2, b2);
    }
}

proof fn lemma_prefix(a: PrefixView, b: PrefixView, c: PrefixView)
    ensures
        !prefix_lt(a, a),
        prefix_lt(a, b) && prefix_lt(b, c) ==> prefix_lt(a, c),
        a != b ==> prefix_lt(a, b) || prefix_lt(b, a),
{
    match (a, b, c) {
        (PrefixView::Verbatim(x), PrefixView::Verbatim(y), PrefixView::Verbatim(z)) => {
            lemma_bytes_lt_irreflexive(x);
            if bytes_lt(x, y) && bytes_lt(y, z) {
                lemma_bytes_lt_transitive(x, y, z);
            }
            if x != y {
                lemma_bytes_lt_total(x, y);
            }
        },
        (PrefixView::DeviceNs(x), PrefixView::DeviceNs(y), PrefixView::DeviceNs(z)) => {
            lemma_bytes_lt_irreflexive(x);
            if bytes_lt(x, y) && bytes_lt(y, z) {
                lemma_bytes_lt_transitive(x, y, z);
            }
            if x != y {
                lemma_bytes_lt_total(x, y);
            }
        },
        (PrefixView::VerbatimUnc(x1, x2), PrefixView::VerbatimUnc(y1, y2), PrefixView::VerbatimUnc(z1, z2)) => {
            lemma_pair(x1, x2, y1, y2, z1, z2);
        },
        (PrefixView::Unc(x1, x2), PrefixView::Unc(y1, y2), PrefixView::Unc(z1, z2)) => {
            lemma_pair(x1, x2, y1, y2, z1, z2);
        },
        _ => {
            lemma_prefix_self(a);
            lemma_prefix_same_rank(a, b);
            lemma_prefix_same_rank(b, c);
            lemma_prefix_same_rank(a, c);
        },
    }
}

proof fn lemma_prefix_self(a: PrefixView)
    ensures
        !prefix_lt(a, a),
{
    match a {
        PrefixView::Verbatim(x) => lemma_bytes_lt_irreflexive(x),
        PrefixView::DeviceNs(x) => lemma_bytes_lt_irreflexive(x),
        PrefixView::VerbatimUnc(x1, x2) => lemma_pair(x1, x2, x1, x2, x1, x2),
        PrefixView::Unc(x1, x2) => lemma_pair(x1, x2, x1, x2, x1, x2),
        _ => {},
    }
}

/// Two prefixes of the same kind compare by their fields; of the same kind with
/// byte-string fields, they are those of the kind.
proof fn lemma_prefix_same_rank(a: PrefixView, b: PrefixView)
    ensures
        a != b ==> prefix_lt(a, b) || prefix_lt(b, a),
{
    match (a, b) {
        (PrefixView::Verbatim(x), PrefixView::Verbatim(y)) => if x != y {
            lemma_bytes_lt_total(x, y);
        },
        (PrefixView::DeviceNs(x), PrefixView::DeviceNs(y)) => if x != y {
            lemma_bytes_lt_total(x, y);
        },
        (PrefixView::VerbatimUnc(x1, x2), PrefixView::VerbatimUnc(y1, y2)) => lemma_pair(x1, x2, y1, y2, y1, y2),
        (PrefixView::Unc(x1, x2), PrefixView::Unc(y1, y2)) => lemma_pair(x1, x2, y1, y2, y1, y2),
        _ => {},
    }
}

proof fn lemma_part(a: PartView, b: PartView, c: PartView)
    ensures
        !part_lt(a, a),
        part_lt(a, b) && part_lt(b, c) ==> part_lt(a, c),
        a != b ==> part_lt(a, b) || part_lt(b, a),
{
    match a {
        PartView::Prefix(x) => lemma_prefix_self(x),
        PartView::Normal(x) => lemma_bytes_lt_irreflexive(x),
        _ => {},
    }
    match (a, b, c) {
        (PartView::Prefix(x), PartView::Prefix(y), PartView::Prefix(z)) => lemma_prefix(x, y, z),
        (PartView::Normal(x), PartView::Normal(y), PartView::Normal(z)) => {
            if bytes_lt(x, y) && bytes_lt(y, z) {
                lemma_bytes_lt_transitive(x, y, z);
            }
            if x != y {
                lemma_bytes_lt_total(x, y);
            }
        },
        _ => {
            match (a, b) {
                (PartView::Prefix(x), PartView::Prefix(y)) => lemma_prefix_same_rank(x, y),
                (PartView::Normal(x), PartView::Normal(y)) => if x != y {
                    lemma_bytes_lt_total(x, y);
                },
                _ => {},
            }
        },
    }
}

pub proof fn lemma_path_lt_irreflexive(a: Seq<PartView>)
    ensures
        !path_lt(a, a),
    decreases a.len(),
{
    if a.len() > 0 {
        lemma_path_lt_irreflexive(a.drop_first());
    }
}

pub proof fn lemma_path_lt_transitive(a: Seq<PartView>, b: Seq<PartView>, c: Seq<PartView>)
    requires
        path_lt(a, b),
        path_lt(b, c),
    ensures
        path_lt(a, c),
    decreases a.len(),
{
    if a.len() > 0 && b.len() > 0 && c.len() > 0 {
        lemma_part(a[0], b[0], c[0]);
        lemma_part(a[0], c[0], b[0]);
        lemma_part(b[0], a[0], c[0]);
        if a[0] == b[0] && b[0] == c[0] {
            lemma_path_lt_transitive(a.drop_first(), b.drop_first(), c.drop_first());
        }
    }
}

pub proof fn lemma_path_lt_total(a: Seq<PartView>, b: Seq<PartView>)
    requires
        a != b,
    ensures
        path_lt(a, b) || path_lt(b, a),
    decreases a.len(),
{
    if a.len() > 0 && b.len() > 0 {
        lemma_part(a[0], b[0], b[0]);
        if a[0] == b[0] {
            if a.drop_first() == b.drop_first() {
                assert(a =~= seq![a[0]] + a.drop_first());
                assert(b =~= seq![b[0]] + b.drop_first());
            }
            lemma_path_lt_total(a.drop_first(), b.drop_first());
        }
    } else if a.len() == 0 && b.len() == 0 {
        assert(a =~= b);
    }
}

// ---------------------------------------------------------------------------
// Comparing
// ---------------------------------------------------------------------------

fn prefix_rank_of(p: &PathPrefix) -> (r: u8)
    ensures
        r == prefix_rank(p@),
{
    match p {
        PathPrefix::Verbatim(_) => 0,
        PathPrefix::VerbatimUnc(_, _) => 1,
        PathPrefix::VerbatimDisk(_) => 2,
        PathPrefix::DeviceNs(_) => 3,
        PathPrefix::Unc(_, _) => 4,
        PathPrefix::Disk(_) => 5,
    }
}

fn part_rank_of(c: &PathPart) -> (r: u8)
    ensures
        r == part_rank(c@),
{
    match c {
        PathPart::Prefix(_) => 0,
        PathPart::RootDir => 1,
        PathPart::CurDir => 2,
        PathPart::ParentDir => 3,
        PathPart::Normal(_) => 4,
    }
}

fn prefix_equal(a: &PathPrefix, b: &PathPrefix) -> (r: bool)
    ensures
        r == (a@ == b@),
{
    match (a, b) {
        (PathPrefix::Verbatim(x), PathPrefix::Verbatim(y)) => bytes_equal(x.as_slice(), y.as_slice()),
        (PathPrefix::VerbatimUnc(x1, x2), PathPrefix::VerbatimUnc(y1, y2)) => bytes_equal(
            x1.as_slice(),
            y1.as_slice(),
        ) && bytes_equal(x2.as_slice(), y2.as_slice()),
        (PathPrefix::VerbatimDisk(x), PathPrefix::VerbatimDisk(y)) => *x == *y,
        (PathPrefix::DeviceNs(x), PathPrefix::DeviceNs(y)) => bytes_equal(x.as_slice(), y.as_slice()),
        (PathPrefix::Unc(x1, x2), PathPrefix::Unc(y1, y2)) => bytes_equal(x1.as_slice(), y1.as_slice())
            && bytes_equal(x2.as_slice(), y2.as_slice()),
        (PathPrefix::Disk(x), PathPrefix::Disk(y)) => *x == *y,
        _ => false,
    }
}

fn prefix_less(a: &PathPrefix, b: &PathPrefix) -> (r: bool)
    ensures
        r == prefix_lt(a@, b@),
{
    let ra = prefix_rank_of(a);
    let rb = prefix_rank_of(b);
    if ra != rb {
        return ra < rb;
    }
    match (a, b) {
        (PathPrefix::Verbatim(x), PathPrefix::Verbatim(y)) => bytes_less(x.as_slice(), y.as_slice()),
        (PathPrefix::VerbatimUnc(x1, x2), PathPrefix::VerbatimUnc(y1, y2)) => bytes_less(
            x1.as_slice(),
            y1.as_slice(),
        ) || (bytes_equal(x1.as_slice(), y1.as_slice()) && bytes_less(x2.as_slice(), y2.as_slice())),
        (PathPrefix::VerbatimDisk(x), PathPrefix::VerbatimDisk(y)) => *x < *y,
        (PathPrefix::DeviceNs(x), PathPrefix::DeviceNs(y)) => bytes_less(x.as_slice(), y.as_slice()),
        (PathPrefix::Unc(x1, x2), PathPrefix::Unc(y1, y2)) => bytes_less(x1.as_slice(), y1.as_slice())
            || (bytes_equal(x1.as_slice(), y1.as_slice()) && bytes_less(x2.as_slice(), y2.as_slice())),
        (PathPrefix::Disk(x), PathPrefix::Disk(y)) => *x < *y,
        _ => false,
    }
}

fn part_equal(a: &PathPart, b: &PathPart) -> (r: bool)
    ensures
        r == (a@ == b@),
{
    match (a, b) {
        (PathPart::Prefix(x), PathPart::Prefix(y)) => prefix_equal(x, y),
        (PathPart::RootDir, PathPart::RootDir) => true,
        (PathPart::CurDir, PathPart::CurDir) => true,
        (PathPart::ParentDir, PathPart::ParentDir) => true,
        (PathPart::Normal(x), PathPart::Normal(y)) => bytes_equal(x.as_slice(), y.as_slice()),
        _ => false,
    }
}

fn part_less(a: &PathPart, b: &PathPart) -> (r: bool)
    ensures
        r == part_lt(a@, b@),
{
    let ra = part_rank_of(a);
    let rb = part_rank_of(b);
    if ra != rb {
        return ra < rb;
    }
    match (a, b) {
        (PathPart::Prefix(x), PathPart::Prefix(y)) => prefix_less(x, y),
        (PathPart::Normal(x), PathPart::Normal(y)) => bytes_less(x.as_slice(), y.as_slice()),
        _ => false,
    }
}

/// The two paths have the same components, as `Path`'s `==` says.
pub fn same_path(a: &RepoPath, b: &RepoPath) -> (r: bool)
    ensures
        r == (a.key() == b.key()),
{
    if a.parts.len() != b.parts.len() {
        assert(a.key().len() != b.key().len());
        return false;
    }
    let mut i: usize = 0;
    while i < a.parts.len()
        invariant
            i <= a.parts@.len() == b.parts@.len(),
            forall|j: int| 0 <= j < i ==> a.key()[j] == b.key()[j],
        decreases a.parts@.len() - i,
    {
        if !part_equal(&a.parts[i], &b.parts[i]) {
            assert(a.key()[i as int] != b.key()[i as int]);
            return false;
        }
        i = i + 1;
    }
    assert(a.key() =~= b.key());
    true
}

/// `a` comes strictly before `b` in the order of `Path`.
pub fn path_less(a: &RepoPath, b: &RepoPath) -> (r: bool)
    ensures
        r == path_lt(a.key(), b.key()),
{
    let ghost ka = a.key();
    let ghost kb = b.key();
    let mut i: usize = 0;
    assert(ka.skip(0) =~= ka);
    assert(kb.skip(0) =~= kb);
    while i < a.parts.len() && i < b.parts.len()
        invariant
            ka == a.key(),
            kb == b.key(),
            i <= ka.len(),
            i <= kb.len(),
            path_lt(ka, kb) == path_lt(ka.skip(i as int), kb.skip(i as int)),
        decreases ka.len() - i,
    {
        assert(ka.skip(i as int)[0] == ka[i as int]);
        assert(kb.skip(i as int)[0] == kb[i as int]);
        if !part_equal(&a.parts[i], &b.parts[i]) {
            return part_less(&a.parts[i], &b.parts[i]);
        }
        assert(ka.skip(i as int).drop_first() =~= ka.skip(i + 1));
        assert(kb.skip(i as int).drop_first() =~= kb.skip(i + 1));
        i = i + 1;
    }
    i < b.parts.len()
}

impl SortKey for RepoPath {
    type Key = Seq<PartView>;

    open spec fn sort_key(&self) -> Seq<PartView> {
        self.key()
    }

    open spec fn key_lt(a: Seq<PartView>, b: Seq<PartView>) -> bool {
        path_lt(a, b)
    }

    proof fn lemma_key_lt_irreflexive(a: Seq<PartView>) {
        lemma_path_lt_irreflexive(a);
    }

    proof fn lemma_key_lt_transitive(a: Seq<PartView>, b: Seq<PartView>, c: Seq<PartView>) {
        lemma_path_lt_transitive(a, b, c);
    }

    proof fn lemma_key_lt_total(a: Seq<PartView>, b: Seq<PartView>) {
        lemma_path_lt_total(a, b);
    }

    fn comes_before(&self, other: &Self) -> (r: bool) {
        path_less(self, other)
    }
}

} // verus!
