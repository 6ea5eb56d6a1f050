//! Artifacts: an identifier, a directory, and the versions found in it.

use core::cmp::Ordering;
use vstd::prelude::*;

use crate::glob_match::{glob_error, glob_is_match, glob_matches, glob_message, glob_valid, literal_pattern};

use crate::version::{
    compare_versions, lemma_version_order, select_spec, version_lt, Version, VersionKey, VersionRange,
};

verus! {

/// An artifact. Its versions are kept in ascending order, each at most once.
#[derive(Debug)]
pub struct Artifact {
    pub id: String,
    pub path: String,
    pub versions: Vec<Version>,
    pub bytes: u64,
}

/// Strictly ascending in the order of versions.
pub open spec fn versions_sorted(vs: Seq<Version>) -> bool {
    forall|i: int, j: int| 0 <= i < j < vs.len() ==> version_lt(#[trigger] vs[i]@, #[trigger] vs[j]@)
}

/// Some version in `vs` has the key `k`.
pub open spec fn has_version(vs: Seq<Version>, k: VersionKey) -> bool {
    exists|i: int| 0 <= i < vs.len() && #[trigger] vs[i]@ == k
}

impl Artifact {
    pub open spec fn wf(&self) -> bool {
        versions_sorted(self.versions@)
    }

    /// An artifact without versions.
    pub fn new(id: &str, path: &str) -> (r: Artifact)
        ensures
            r.id@ == id@,
            r.path@ == path@,
            r.versions@.len() == 0,
            r.bytes == 0,
            r.wf(),
    {
        Artifact { id: id.to_owned(), path: path.to_owned(), versions: Vec::new(), bytes: 0 }
    }
}

impl PartialEq for Artifact {
    /// Artifacts are equal when their identifiers are.
    fn eq(&self, other: &Artifact) -> (r: bool) {
        self.id == other.id
    }
}

impl vstd::std_specs::cmp::PartialEqSpecImpl for Artifact {
    open spec fn obeys_eq_spec() -> bool {
        true
    }

    open spec fn eq_spec(&self, other: &Artifact) -> bool {
        self.id@ == other.id@
    }
}

impl Eq for Artifact {

}

/// Where `v` stands in the ascending list `vs`: `Ok` with its position where a
/// version with its key is there, else `Err` with the position it would take.
pub fn find_version(vs: &Vec<Version>, v: &Version) -> (r: Result<usize, usize>)
    requires
        versions_sorted(vs@),
    ensures
        match r {
            Ok(i) => i < vs.len() && vs@[i as int]@ == v@,
            Err(p) => p <= vs.len() && (forall|j: int|
                0 <= j < p ==> version_lt(#[trigger] vs@[j]@, v@)) && (forall|j: int|
                p <= j < vs.len() ==> version_lt(v@, #[trigger] vs@[j]@)),
        },
        r is Err <==> !has_version(vs@, v@),
{
    let mut i: usize = 0;
    while i < vs.len()
        invariant
            i <= vs.len(),
            versions_sorted(vs@),
            forall|j: int| 0 <= j < i ==> version_lt(#[trigger] vs@[j]@, v@),
        decreases vs.len() - i,
    {
        match compare_versions(&vs[i], v) {
            Ordering::Less => {},
            Ordering::Equal => {
                return Ok(i);
            },
            Ordering::Greater => {
                assert forall|j: int| i <= j < vs.len() implies version_lt(v@, #[trigger] vs@[j]@) by {
                    if j > i {
                        lemma_version_order(v@, vs@[i as int]@, vs@[j]@);
                    }
                }
                assert forall|j: int| 0 <= j < vs.len() implies vs@[j]@ != v@ by {
                    lemma_version_order(vs@[j]@, v@, v@);
                }
                return Err(i);
            },
        }
        i = i + 1;
    }
    assert forall|j: int| 0 <= j < vs.len() implies vs@[j]@ != v@ by {
        lemma_version_order(vs@[j]@, v@, v@);
    }
    Err(i)
}

/// Adds `v` unless a version with its key is there already; the list stays
/// ascending.
pub fn add_version(vs: &mut Vec<Version>, v: Version)
    requires
        versions_sorted(old(vs)@),
    ensures
        versions_sorted(final(vs)@),
        has_version(old(vs)@, v@) ==> final(vs)@ == old(vs)@,
        !has_version(old(vs)@, v@) ==> exists|p: int|
            0 <= p <= old(vs)@.len() && final(vs)@ == old(vs)@.insert(p, v),
        forall|k: VersionKey| has_version(final(vs)@, k) <==> (has_version(old(vs)@, k) || k == v@),
        forall|x: Version|
            final(vs)@.contains(x) <==> (old(vs)@.contains(x) || (x == v && !has_version(old(vs)@, v@))),
{
    let ghost value = v;
    match find_version(vs, &v) {
        Ok(_) => {},
        Err(p) => {
            let ghost pre = vs@;
            let ghost key = v@;
            vs.insert(p, v);
            assert forall|i: int, j: int| 0 <= i < j < vs@.len() implies version_lt(
                #[trigger] vs@[i]@,
                #[trigger] vs@[j]@,
            ) by {
                if j < p {
                } else if j == p {
                } else if i < p {
                    lemma_version_order(vs@[i]@, key, vs@[j]@);
                } else if i == p {
                } else {
                }
            }
            assert forall|x: Version| vs@.contains(x) <==> (pre.contains(x) || x == value) by {
                if vs@.contains(x) {
                    let i = choose|i: int| 0 <= i < vs@.len() && vs@[i] == x;
                    if i < p {
                        assert(pre[i] == x);
                    } else if i > p {
                        assert(pre[i - 1] == x);
                    }
                }
                if pre.contains(x) {
                    let i = choose|i: int| 0 <= i < pre.len() && pre[i] == x;
                    if i < p {
                        assert(vs@[i] == x);
                    } else {
                        assert(vs@[i + 1] == x);
                    }
                }
                if x == value {
                    assert(vs@[p as int] == x);
                }
            }
            assert forall|k: VersionKey| has_version(vs@, k) <==> (has_version(pre, k) || k == key) by {
                if has_version(vs@, k) {
                    let i = choose|i: int| 0 <= i < vs@.len() && #[trigger] vs@[i]@ == k;
                    if i < p {
                        assert(pre[i]@ == k);
                    } else if i > p {
                        assert(pre[i - 1]@ == k);
                    }
                }
                if has_version(pre, k) {
                    let i = choose|i: int| 0 <= i < pre.len() && #[trigger] pre[i]@ == k;
                    if i < p {
                        assert(vs@[i]@ == k);
                    } else {
                        assert(vs@[i + 1]@ == k);
                    }
                }
                if k == key {
                    assert(vs@[p as int]@ == k);
                }
            }
        },
    }
}

// ------------------------------------------------------ artifact filter

/// Selects artifacts whose identifier matches a glob pattern such as
/// `maven-*-plugin`.
#[derive(Debug)]
pub struct ArtifactFilter {
    pub artifacts: String,
}

impl ArtifactFilter {
    pub open spec fn wf(&self) -> bool {
        glob_valid(self.artifacts@)
    }

    /// A filter for `pattern`; fails, with the pattern's error message, where
    /// the pattern is not a valid glob.
    pub fn from(pattern: &str) -> (r: Result<ArtifactFilter, String>)
        ensures
            r is Ok <==> glob_valid(pattern@),
            r matches Ok(f) ==> f.artifacts@ == pattern@ && f.wf(),
            r matches Err(m) ==> m@ == glob_message(pattern@),
            literal_pattern(pattern@) ==> r is Ok,
    {
        match glob_error(pattern) {
            None => Ok(ArtifactFilter { artifacts: pattern.to_owned() }),
            Some(msg) => Err(msg),
        }
    }

    /// Whether the identifier `artifact_id` matches the pattern.
    pub fn match_artifact_id(&self, artifact_id: &str) -> (r: bool)
        requires
            self.wf(),
        ensures
            r == glob_matches(self.artifacts@, artifact_id@),
            literal_pattern(self.artifacts@) ==> r == (self.artifacts@ == artifact_id@),
    {
        glob_is_match(self.artifacts.as_str(), artifact_id)
    }
}

// ------------------------------------------------------ range refinement

/// The versions that `range` selects from `vs`, which is ascending: the
/// selection runs over the versions sorted newest first.
pub open spec fn selected(range: VersionRange, vs: Seq<Version>) -> Seq<Version> {
    select_spec(range, vs.reverse())
}

/// Whether `x` stays among the versions `vs` after refinement by `range`: with
/// `keep`, the selected versions leave (they are the ones to keep on disk, and
/// what stays is what gets removed); without it, only they stay.
pub open spec fn survives(range: VersionRange, keep: bool, vs: Seq<Version>, x: Version) -> bool {
    vs.contains(x) && (keep != selected(range, vs).contains(x))
}

/// For any versions and any range, the versions that refinement leaves for
/// `Keep` (to be removed from disk) and those it leaves for `Remove` or `Du`
/// together make up all the versions, and have none in common.
pub proof fn lemma_polarity(range: VersionRange, vs: Seq<Version>, x: Version)
    ensures
        (survives(range, true, vs, x) || survives(range, false, vs, x)) <==> vs.contains(x),
        !(survives(range, true, vs, x) && survives(range, false, vs, x)),
{
}

/// The positions `lo..hi` of `vs` (ascending, of length `len`) that a range
/// selects.
pub open spec fn selected_span(range: VersionRange, len: int) -> (int, int) {
    match range {
        VersionRange::Latest(n) => (if n <= len { len - n } else { 0 }, len),
        VersionRange::Oldest(n) => (0, if n <= len { n as int } else { len }),
        VersionRange::Exact(_) => (0, len),
    }
}

proof fn lemma_selected_span(range: VersionRange, vs: Seq<Version>, m: int)
    requires
        versions_sorted(vs),
        0 <= m < vs.len(),
    ensures
        selected(range, vs).contains(vs[m]) <==> (selected_span(range, vs.len() as int).0 <= m
            < selected_span(range, vs.len() as int).1),
{
    let len = vs.len() as int;
    let rev = vs.reverse();
    let sel = selected(range, vs);
    let (lo, hi) = selected_span(range, len);
    assert forall|i: int| 0 <= i < len && i != m implies vs[i] != vs[m] by {
        lemma_version_order(vs[i]@, vs[m]@, vs[m]@);
        lemma_version_order(vs[m]@, vs[i]@, vs[i]@);
    }
    // the selection runs over `vs` reversed, so its position `t` holds `vs[len - 1 - t - start]`
    if lo <= m < hi {
        match range {
            VersionRange::Latest(n) => {
                assert(sel[len - 1 - m] == vs[m]);
            },
            VersionRange::Oldest(n) => {
                let start = if n > len { 0 } else { len - n };
                assert(sel[len - 1 - m - start] == vs[m]);
            },
            VersionRange::Exact(_) => {
                assert(sel[len - 1 - m] == vs[m]);
            },
        }
    }
    if sel.contains(vs[m]) {
        let t = choose|t: int| 0 <= t < sel.len() && sel[t] == vs[m];
        match range {
            VersionRange::Latest(n) => {
                assert(sel[t] == vs[len - 1 - t]);
            },
            VersionRange::Oldest(n) => {
                let start = if n > len { 0 } else { len - n };
                assert(sel[t] == vs[len - 1 - t - start]);
            },
            VersionRange::Exact(_) => {
                assert(sel[t] == vs[len - 1 - t]);
            },
        }
    }
}

/// How many versions of `len` a count of `n` selects.
pub open spec fn selected_count(n: usize, len: int) -> int {
    if n <= len {
        n as int
    } else {
        len
    }
}

/// Over ascending versions `vs`, with `k` the smaller of `n` and their number:
/// for `Latest(n)`, refinement for `Keep` leaves all but the `k` newest (those
/// stay on disk) and for `Remove` or `Du` exactly the `k` newest; for
/// `Oldest(n)`, likewise with the `k` oldest. The newest are greater than all
/// the others.
pub proof fn lemma_count_survivors(n: usize, vs: Seq<Version>, x: Version)
    requires
        versions_sorted(vs),
    ensures
        survives(VersionRange::Latest(n), true, vs, x) <==> vs.subrange(
            0,
            vs.len() - selected_count(n, vs.len() as int),
        ).contains(x),
        survives(VersionRange::Latest(n), false, vs, x) <==> vs.subrange(
            vs.len() - selected_count(n, vs.len() as int),
            vs.len() as int,
        ).contains(x),
        survives(VersionRange::Oldest(n), true, vs, x) <==> vs.subrange(
            selected_count(n, vs.len() as int),
            vs.len() as int,
        ).contains(x),
        survives(VersionRange::Oldest(n), false, vs, x) <==> vs.subrange(
            0,
            selected_count(n, vs.len() as int),
        ).contains(x),
        forall|i: int, j: int|
            0 <= i < vs.len() - selected_count(n, vs.len() as int) <= j < vs.len() ==> version_lt(
                #[trigger] vs[i]@,
                #[trigger] vs[j]@,
            ),
{
    let len = vs.len() as int;
    let k = selected_count(n, len);
    if vs.contains(x) {
        let m = choose|m: int| 0 <= m < len && vs[m] == x;
        lemma_selected_span(VersionRange::Latest(n), vs, m);
        lemma_selected_span(VersionRange::Oldest(n), vs, m);
        if m < len - k {
            assert(vs.subrange(0, len - k)[m] == x);
        } else {
            assert(vs.subrange(len - k, len)[m - (len - k)] == x);
        }
        if m < k {
            assert(vs.subrange(0, k)[m] == x);
        } else {
            assert(vs.subrange(k, len)[m - k] == x);
        }
    }
    assert forall|a: int, b: int| 0 <= a <= b <= len && vs.subrange(a, b).contains(x) implies vs.contains(x) by {
        let t = choose|t: int| 0 <= t < b - a && vs.subrange(a, b)[t] == x;
        assert(vs[a + t] == x);
    }
    if vs.contains(x) {
        let m = choose|m: int| 0 <= m < len && vs[m] == x;
        assert forall|a: int, b: int| 0 <= a <= b <= len && vs.subrange(a, b).contains(x) implies a <= m < b by {
            let t = choose|t: int| 0 <= t < b - a && vs.subrange(a, b)[t] == x;
            assert(vs[a + t] == x);
            if a + t != m {
                lemma_version_order(vs[a + t]@, vs[m]@, vs[m]@);
                lemma_version_order(vs[m]@, vs[a + t]@, vs[a + t]@);
            }
        }
    }
}

/// Keeps of `vs` the positions `lo..hi`.
fn keep_span(vs: &mut Vec<Version>, lo: usize, hi: usize)
    requires
        lo <= hi == old(vs).len(),
    ensures
        final(vs)@ == old(vs)@.subrange(lo as int, hi as int),
{
    let tail = vs.split_off(lo);
    *vs = tail;
}

/// Refines the ascending versions `vs` by `range` (not an exact version):
/// afterwards a version is there exactly when it `survives`.
pub fn refine_versions(vs: &mut Vec<Version>, range: &VersionRange, keep: bool)
    requires
        versions_sorted(old(vs)@),
        !(range is Exact),
    ensures
        versions_sorted(final(vs)@),
        forall|x: Version| final(vs)@.contains(x) <==> survives(*range, keep, old(vs)@, x),
{
    let ghost pre = vs@;
    let len = vs.len();
    let (lo, hi) = match range {
        VersionRange::Latest(n) => (if *n <= len { len - *n } else { 0 }, len),
        VersionRange::Oldest(n) => (0, if *n <= len { *n } else { len }),
        VersionRange::Exact(_) => (0, len),
    };
    assert(selected_span(*range, len as int) == (lo as int, hi as int));
    // what stays is `a..b`
    let (a, b) = if keep {
        if lo == 0 { (hi, len) } else { (0, lo) }
    } else {
        (lo, hi)
    };
    if b < len {
        vs.truncate(b);
    }
    keep_span(vs, a, b);
    assert(vs@ =~= pre.subrange(a as int, b as int));
    assert forall|x: Version| vs@.contains(x) <==> survives(*range, keep, pre, x) by {
        if vs@.contains(x) {
            let i = choose|i: int| 0 <= i < vs@.len() && vs@[i] == x;
            assert(pre[a + i] == x);
            lemma_selected_span(*range, pre, a + i);
        }
        if survives(*range, keep, pre, x) {
            let m = choose|m: int| 0 <= m < pre.len() && pre[m] == x;
            lemma_selected_span(*range, pre, m);
            assert(vs@[m - a] == x);
        }
    }
}

} // verus!
