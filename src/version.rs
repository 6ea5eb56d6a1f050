//! Version strings: their grammar, their total order, and version ranges.

use core::cmp::Ordering;
use vstd::prelude::*;
use vstd::string::*;

use crate::path::{file_name, split_components, views};
use crate::text::{
    chars_lt, chars_of, compare_chars, lemma_chars_lt_asymmetric, lemma_chars_lt_irreflexive,
    lemma_chars_lt_total, lemma_chars_lt_transitive, parse_bounded, parse_decimal,
};

verus! {

// ------------------------------------------------------ grammar

/// What the order and equality of versions look at.
pub struct VersionKey {
    pub major: Option<u32>,
    pub minor: Option<u32>,
    pub patch: Option<u32>,
    pub qualifier: Option<Seq<char>>,
    pub snapshot: bool,
}

pub open spec fn snapshot_suffix() -> Seq<char> {
    seq!['-', 'S', 'N', 'A', 'P', 'S', 'H', 'O', 'T']
}

pub open spec fn has_snapshot_suffix(s: Seq<char>) -> bool {
    s.len() >= 9 && s.subrange(s.len() - 9, s.len() as int) == snapshot_suffix()
}

/// The text without a trailing `-SNAPSHOT`.
pub open spec fn release_part(s: Seq<char>) -> Seq<char> {
    if has_snapshot_suffix(s) {
        s.subrange(0, s.len() - 9)
    } else {
        s
    }
}

/// The first position at or after `i` that holds `c`.
pub open spec fn find_from(s: Seq<char>, c: char, i: int) -> Option<int>
    decreases s.len() - i,
{
    if i < 0 || i >= s.len() {
        None
    } else if s[i] == c {
        Some(i)
    } else {
        find_from(s, c, i + 1)
    }
}

pub open spec fn first_index(s: Seq<char>, c: char) -> Option<int> {
    find_from(s, c, 0)
}

pub open spec fn trim_leading_dots(s: Seq<char>) -> Seq<char>
    decreases s.len(),
{
    if s.len() > 0 && s[0] == '.' {
        trim_leading_dots(s.drop_first())
    } else {
        s
    }
}

pub open spec fn parse_u32(s: Seq<char>) -> Option<u32> {
    match parse_bounded(s, u32::MAX as nat) {
        Some(n) => Some(n as u32),
        None => None,
    }
}

/// Scans `cur` for at most `slots` numbers, left to right. Returns the numbers
/// read, in order, and the qualifier, if one was captured.
pub open spec fn scan(cur: Seq<char>, slots: nat) -> (Seq<u32>, Option<Seq<char>>)
    decreases slots,
{
    if slots == 0 {
        (seq![], Some(cur))
    } else {
        let dot = first_index(cur, '.');
        let dash = first_index(cur, '-');
        if dot is Some && (dash is None || dot->0 < dash->0) {
            let d = dot->0;
            match parse_u32(cur.subrange(0, d)) {
                Some(n) => {
                    let rest = scan(cur.subrange(d + 1, cur.len() as int), (slots - 1) as nat);
                    (seq![n] + rest.0, rest.1)
                },
                None => (seq![], Some(if dash is Some { cur } else { trim_leading_dots(cur) })),
            }
        } else if dash is Some {
            let h = dash->0;
            match parse_u32(cur.subrange(0, h)) {
                Some(n) => (seq![n], Some(cur.subrange(h + 1, cur.len() as int))),
                None => (seq![], Some(cur)),
            }
        } else {
            match parse_u32(cur) {
                Some(n) => (seq![n], None),
                None => (seq![], Some(cur)),
            }
        }
    }
}

pub open spec fn slot(nums: Seq<u32>, i: int) -> Option<u32> {
    if i < nums.len() {
        Some(nums[i])
    } else {
        None
    }
}

/// The version that the text `s` denotes, if any: one exists exactly when a
/// major number can be read.
pub open spec fn parse_version(s: Seq<char>) -> Option<VersionKey> {
    let (nums, qualifier) = scan(release_part(s), 3);
    if nums.len() == 0 {
        None
    } else {
        Some(
            VersionKey {
                major: slot(nums, 0),
                minor: slot(nums, 1),
                patch: slot(nums, 2),
                qualifier,
                snapshot: has_snapshot_suffix(s),
            },
        )
    }
}

pub proof fn lemma_scan_len(cur: Seq<char>, slots: nat)
    ensures
        scan(cur, slots).0.len() <= slots,
    decreases slots,
{
    if slots > 0 {
        let dot = first_index(cur, '.');
        if dot is Some {
            lemma_scan_len(cur.subrange(dot->0 + 1, cur.len() as int), (slots - 1) as nat);
        }
    }
}

// ------------------------------------------------------ scanning helpers

/// The first position in `v[lo..hi]` that holds `c`, counted from the start of `v`.
fn find_char(v: &Vec<char>, lo: usize, hi: usize, c: char) -> (r: Option<usize>)
    requires
        lo <= hi <= v.len(),
    ensures
        match r {
            Some(i) => lo <= i < hi && first_index(v@.subrange(lo as int, hi as int), c) == Some(
                i - lo,
            ),
            None => first_index(v@.subrange(lo as int, hi as int), c) is None,
        },
{
    let ghost s = v@.subrange(lo as int, hi as int);
    let mut i = lo;
    while i < hi
        invariant
            lo <= i <= hi <= v.len(),
            s == v@.subrange(lo as int, hi as int),
            first_index(s, c) == find_from(s, c, i - lo),
        decreases hi - i,
    {
        if v[i] == c {
            return Some(i);
        }
        i = i + 1;
    }
    None
}

/// The first position in `v[lo..hi]` that is not a `.`.
fn skip_dots(v: &Vec<char>, lo: usize, hi: usize) -> (r: usize)
    requires
        lo <= hi <= v.len(),
    ensures
        lo <= r <= hi,
        v@.subrange(r as int, hi as int) == trim_leading_dots(v@.subrange(lo as int, hi as int)),
{
    let mut i = lo;
    while i < hi && v[i] == '.'
        invariant
            lo <= i <= hi <= v.len(),
            trim_leading_dots(v@.subrange(lo as int, hi as int)) == trim_leading_dots(
                v@.subrange(i as int, hi as int),
            ),
        decreases hi - i,
    {
        assert(v@.subrange(i as int, hi as int).drop_first() =~= v@.subrange(i + 1, hi as int));
        i = i + 1;
    }
    i
}

fn parse_slot(v: &Vec<char>, lo: usize, hi: usize) -> (r: Option<u32>)
    requires
        lo <= hi <= v.len(),
    ensures
        r == parse_u32(v@.subrange(lo as int, hi as int)),
{
    match parse_decimal(v, lo, hi, u32::MAX as u64) {
        Some(n) => Some(n as u32),
        None => None,
    }
}

fn ends_with_snapshot(v: &Vec<char>) -> (r: bool)
    ensures
        r == has_snapshot_suffix(v@),
{
    let suffix = vec!['-', 'S', 'N', 'A', 'P', 'S', 'H', 'O', 'T'];
    assert(suffix@ =~= snapshot_suffix());
    if v.len() < 9 {
        return false;
    }
    let base = v.len() - 9;
    let mut k: usize = 0;
    while k < 9
        invariant
            base + 9 == v.len(),
            k <= 9,
            suffix@ == snapshot_suffix(),
            forall|j: int| 0 <= j < k ==> v@[base + j] == suffix@[j],
        decreases 9 - k,
    {
        if v[base + k] != suffix[k] {
            assert(v@.subrange(base as int, v.len() as int)[k as int] != snapshot_suffix()[k as int]);
            return false;
        }
        k = k + 1;
    }
    assert(v@.subrange(base as int, v.len() as int) =~= snapshot_suffix());
    true
}

/// Scans `v[lo..hi]` as `scan` does; a captured qualifier is returned as a
/// range of positions in `v`.
fn scan_slots(v: &Vec<char>, lo: usize, hi: usize, slots: usize) -> (r: (
    Vec<u32>,
    Option<(usize, usize)>,
))
    requires
        lo <= hi <= v.len(),
    ensures
        r.0@ == scan(v@.subrange(lo as int, hi as int), slots as nat).0,
        match r.1 {
            Some((a, b)) => a <= b <= v.len() && scan(
                v@.subrange(lo as int, hi as int),
                slots as nat,
            ).1 == Some(v@.subrange(a as int, b as int)),
            None => scan(v@.subrange(lo as int, hi as int), slots as nat).1 is None,
        },
    decreases slots,
{
    let ghost cur = v@.subrange(lo as int, hi as int);
    if slots == 0 {
        return (Vec::new(), Some((lo, hi)));
    }
    let dot = find_char(v, lo, hi, '.');
    let dash = find_char(v, lo, hi, '-');
    let dot_first = match (dot, dash) {
        (Some(d), Some(h)) => d < h,
        (Some(_), None) => true,
        _ => false,
    };
    if dot_first {
        let d = dot.unwrap();
        assert(cur.subrange(0, d - lo) =~= v@.subrange(lo as int, d as int));
        assert(cur.subrange(d - lo + 1, cur.len() as int) =~= v@.subrange(d + 1, hi as int));
        match parse_slot(v, lo, d) {
            Some(n) => {
                let (rest, q) = scan_slots(v, d + 1, hi, slots - 1);
                let mut nums = vec![n];
                let mut rest = rest;
                nums.append(&mut rest);
                (nums, q)
            },
            None => {
                if dash.is_some() {
                    (Vec::new(), Some((lo, hi)))
                } else {
                    let a = skip_dots(v, lo, hi);
                    (Vec::new(), Some((a, hi)))
                }
            },
        }
    } else if dash.is_some() {
        let h = dash.unwrap();
        assert(cur.subrange(0, h - lo) =~= v@.subrange(lo as int, h as int));
        assert(cur.subrange(h - lo + 1, cur.len() as int) =~= v@.subrange(h + 1, hi as int));
        match parse_slot(v, lo, h) {
            Some(n) => (vec![n], Some((h + 1, hi))),
            None => (Vec::new(), Some((lo, hi))),
        }
    } else {
        match parse_slot(v, lo, hi) {
            Some(n) => (vec![n], None),
            None => (Vec::new(), Some((lo, hi))),
        }
    }
}

// ------------------------------------------------------ version

/// A version found in the repository: the parts read from its name, the
/// directory it lives in, and the bytes of the files directly inside it.
#[derive(Debug, Clone)]
pub struct Version {
    pub major: Option<u32>,
    pub minor: Option<u32>,
    pub patch: Option<u32>,
    pub qualifier: Option<String>,
    pub snapshot: bool,
    pub path: String,
    pub bytes: u64,
}

pub open spec fn text_view(t: Option<String>) -> Option<Seq<char>> {
    match t {
        Some(s) => Some(s@),
        None => None,
    }
}

impl View for Version {
    type V = VersionKey;

    open spec fn view(&self) -> VersionKey {
        VersionKey {
            major: self.major,
            minor: self.minor,
            patch: self.patch,
            qualifier: text_view(self.qualifier),
            snapshot: self.snapshot,
        }
    }
}

/// Why a version or a version range was rejected; each carries the input.
#[derive(Debug)]
pub enum VersionError {
    /// No major number could be read.
    Invalid(String),
    /// A range whose count is not a number.
    IllegalRange(String),
    /// A range whose count is zero.
    RangeBelowOne(String),
    /// A path that names no version directory.
    NoVersion(String),
}

impl Version {
    /// Reads a version from the name of its directory `path`.
    pub fn from_path(path: &str) -> (r: Result<Version, VersionError>)
        ensures
            match file_name(path@) {
                None => r matches Err(VersionError::NoVersion(e)) && e@ == path@,
                Some(name) => match parse_version(name) {
                    Some(k) => r matches Ok(v) && v@ == k && v.path@ == path@ && v.bytes == 0,
                    None => r matches Err(VersionError::Invalid(e)) && e@ == name,
                },
            },
    {
        let seps = vec!['/'];
        let comps = split_components(path, &seps, true);
        assert(seps@ =~= seq!['/']);
        if comps.len() == 0 {
            return Err(VersionError::NoVersion(path.to_owned()));
        }
        let last = comps.len() - 1;
        let name = comps[last].as_str();
        assert(name@ == views(comps@).last());
        let cs = chars_of(name);
        if cs.len() == 2 && cs[0] == '.' && cs[1] == '.' {
            assert(name@ =~= seq!['.', '.']);
            return Err(VersionError::NoVersion(path.to_owned()));
        }
        if cs.len() == 2 {
            assert(name@[0] != seq!['.', '.'][0] || name@[1] != seq!['.', '.'][1]);
        }
        let mut version = Version::from_str(name)?;
        version.path = path.to_owned();
        Ok(version)
    }

    /// Reads a version from its text. Fails exactly when no major number can
    /// be read.
    pub fn from_str(version: &str) -> (r: Result<Version, VersionError>)
        ensures
            match parse_version(version@) {
                Some(k) => r matches Ok(v) && v@ == k && v.path@ == Seq::<char>::empty()
                    && v.bytes == 0,
                None => r matches Err(VersionError::Invalid(s)) && s@ == version@,
            },
    {
        let v = chars_of(version);
        let snapshot = ends_with_snapshot(&v);
        let end = if snapshot {
            v.len() - 9
        } else {
            v.len()
        };
        assert(v@.subrange(0, end as int) =~= release_part(version@));
        let (nums, q) = scan_slots(&v, 0, end, 3);
        proof {
            lemma_scan_len(release_part(version@), 3);
        }
        if nums.len() == 0 {
            return Err(VersionError::Invalid(version.to_owned()));
        }
        let qualifier = match q {
            Some((a, b)) => Some(version.substring_char(a, b).to_owned()),
            None => None,
        };
        let minor = if nums.len() > 1 {
            Some(nums[1])
        } else {
            None
        };
        let patch = if nums.len() > 2 {
            Some(nums[2])
        } else {
            None
        };
        let r = Version {
            major: Some(nums[0]),
            minor,
            patch,
            qualifier,
            snapshot,
            path: String::new(),
            bytes: 0,
        };
        assert(r@ =~= parse_version(version@)->0);
        Ok(r)
    }
}

impl PartialEq for Version {
    /// Two versions are equal when their parts are; where they live and their
    /// size do not count.
    fn eq(&self, other: &Version) -> (r: bool) {
        matches!(compare_versions(self, other), Ordering::Equal)
    }
}

impl vstd::std_specs::cmp::PartialEqSpecImpl for Version {
    open spec fn obeys_eq_spec() -> bool {
        true
    }

    open spec fn eq_spec(&self, other: &Version) -> bool {
        self@ == other@
    }
}

impl Eq for Version {

}

impl PartialOrd for Version {
    /// Versions compare by their parts, as `version_lt` orders them.
    fn partial_cmp(&self, other: &Version) -> (r: Option<Ordering>) {
        Some(compare_versions(self, other))
    }
}

impl vstd::std_specs::cmp::PartialOrdSpecImpl for Version {
    open spec fn obeys_partial_cmp_spec() -> bool {
        true
    }

    open spec fn partial_cmp_spec(&self, other: &Version) -> Option<Ordering> {
        Some(
            if version_lt(self@, other@) {
                Ordering::Less
            } else if self@ == other@ {
                Ordering::Equal
            } else {
                Ordering::Greater
            },
        )
    }
}

// ------------------------------------------------------ text

pub open spec fn digit_chars() -> Seq<char> {
    seq!['0', '1', '2', '3', '4', '5', '6', '7', '8', '9']
}

/// The decimal digits of `n`, most significant first.
pub open spec fn decimal_text(n: nat) -> Seq<char>
    decreases n,
{
    if n < 10 {
        seq![digit_chars()[n as int]]
    } else {
        decimal_text(n / 10).push(digit_chars()[(n % 10) as int])
    }
}

pub open spec fn number_part(n: Option<u32>, sep: Seq<char>) -> Seq<char> {
    match n {
        Some(x) => sep + decimal_text(x as nat),
        None => seq![],
    }
}

/// How a version is written: the numbers present, joined by dots, then the
/// qualifier after a dot, then `-SNAPSHOT` for a snapshot.
pub open spec fn version_text(k: VersionKey) -> Seq<char> {
    number_part(k.major, seq![]) + number_part(k.minor, seq!['.']) + number_part(k.patch, seq!['.'])
        + match k.qualifier {
        Some(q) => seq!['.'] + q,
        None => seq![],
    } + if k.snapshot {
        snapshot_suffix()
    } else {
        seq![]
    }
}

fn number_text(n: u32) -> (r: String)
    ensures
        r@ == decimal_text(n as nat),
    decreases n,
{
    let digits = "0123456789";
    proof {
        reveal_strlit("0123456789");
    }
    assert(digits@ =~= digit_chars());
    if n < 10 {
        digits.substring_char(n as usize, n as usize + 1).to_owned()
    } else {
        let mut r = number_text(n / 10);
        let d = (n % 10) as usize;
        let one = digits.substring_char(d, d + 1);
        assert(one@ =~= seq![digit_chars()[d as int]]);
        r.append(one);
        assert(r@ =~= decimal_text(n as nat));
        r
    }
}

fn append_number(out: &mut String, n: Option<u32>, dot: bool)
    ensures
        final(out)@ == old(out)@ + number_part(n, if dot { seq!['.'] } else { seq![] }),
{
    if let Some(x) = n {
        if dot {
            proof {
                reveal_strlit(".");
            }
            out.append(".");
        }
        let t = number_text(x);
        out.append(t.as_str());
    }
    assert(out@ =~= old(out)@ + number_part(n, if dot { seq!['.'] } else { seq![] })) by {
        reveal_strlit(".");
    }
}

impl Version {
    /// The version as it is written.
    pub fn to_text(&self) -> (r: String)
        ensures
            r@ == version_text(self@),
    {
        let mut r = String::new();
        append_number(&mut r, self.major, false);
        append_number(&mut r, self.minor, true);
        append_number(&mut r, self.patch, true);
        if let Some(q) = &self.qualifier {
            proof {
                reveal_strlit(".");
            }
            r.append(".");
            r.append(q.as_str());
        }
        if self.snapshot {
            proof {
                reveal_strlit("-SNAPSHOT");
            }
            r.append("-SNAPSHOT");
        }
        proof {
            reveal_strlit(".");
            reveal_strlit("-SNAPSHOT");
        }
        assert(r@ =~= version_text(self@));
        r
    }
}

// ------------------------------------------------------ order

pub open spec fn number_lt(a: Option<u32>, b: Option<u32>) -> bool {
    match (a, b) {
        (None, Some(_)) => true,
        (Some(x), Some(y)) => x < y,
        _ => false,
    }
}

pub open spec fn qualifier_lt(a: Option<Seq<char>>, b: Option<Seq<char>>) -> bool {
    match (a, b) {
        (None, Some(_)) => true,
        (Some(x), Some(y)) => chars_lt(x, y),
        _ => false,
    }
}

/// The order of versions: field by field over major, minor, patch, qualifier
/// and snapshot flag, where an absent part comes before any present one and a
/// release before a snapshot.
pub open spec fn version_lt(a: VersionKey, b: VersionKey) -> bool {
    if a.major != b.major {
        number_lt(a.major, b.major)
    } else if a.minor != b.minor {
        number_lt(a.minor, b.minor)
    } else if a.patch != b.patch {
        number_lt(a.patch, b.patch)
    } else if a.qualifier != b.qualifier {
        qualifier_lt(a.qualifier, b.qualifier)
    } else {
        !a.snapshot && b.snapshot
    }
}

proof fn lemma_qualifier_lt(a: Option<Seq<char>>, b: Option<Seq<char>>, c: Option<Seq<char>>)
    ensures
        !qualifier_lt(a, a),
        qualifier_lt(a, b) ==> !qualifier_lt(b, a),
        a != b ==> qualifier_lt(a, b) || qualifier_lt(b, a),
        qualifier_lt(a, b) && qualifier_lt(b, c) ==> qualifier_lt(a, c),
{
    if a is Some {
        lemma_chars_lt_irreflexive(a->0);
    }
    if a is Some && b is Some {
        lemma_chars_lt_asymmetric(a->0, b->0);
        lemma_chars_lt_total(a->0, b->0);
    }
    if a is Some && b is Some && c is Some && qualifier_lt(a, b) && qualifier_lt(b, c) {
        lemma_chars_lt_transitive(a->0, b->0, c->0);
    }
}

/// `version_lt` is a strict total order.
pub proof fn lemma_version_order(a: VersionKey, b: VersionKey, c: VersionKey)
    ensures
        !version_lt(a, a),
        version_lt(a, b) ==> !version_lt(b, a),
        a != b ==> version_lt(a, b) || version_lt(b, a),
        version_lt(a, b) && version_lt(b, c) ==> version_lt(a, c),
{
    lemma_qualifier_lt(a.qualifier, b.qualifier, c.qualifier);
    lemma_qualifier_lt(a.qualifier, c.qualifier, b.qualifier);
    lemma_qualifier_lt(b.qualifier, a.qualifier, c.qualifier);
}

fn compare_numbers(a: Option<u32>, b: Option<u32>) -> (r: Ordering)
    ensures
        (r == Ordering::Less) == number_lt(a, b),
        (r == Ordering::Equal) == (a == b),
        (r == Ordering::Greater) == number_lt(b, a),
{
    match (a, b) {
        (None, None) => Ordering::Equal,
        (None, Some(_)) => Ordering::Less,
        (Some(_), None) => Ordering::Greater,
        (Some(x), Some(y)) => if x < y {
            Ordering::Less
        } else if x == y {
            Ordering::Equal
        } else {
            Ordering::Greater
        },
    }
}

fn compare_qualifiers(a: &Option<String>, b: &Option<String>) -> (r: Ordering)
    ensures
        (r == Ordering::Less) == qualifier_lt(text_view(*a), text_view(*b)),
        (r == Ordering::Equal) == (text_view(*a) == text_view(*b)),
        (r == Ordering::Greater) == qualifier_lt(text_view(*b), text_view(*a)),
{
    match (a, b) {
        (None, None) => Ordering::Equal,
        (None, Some(_)) => Ordering::Less,
        (Some(_), None) => Ordering::Greater,
        (Some(x), Some(y)) => {
            let cx = chars_of(x.as_str());
            let cy = chars_of(y.as_str());
            compare_chars(&cx, &cy)
        },
    }
}

/// Compares two versions in the order `version_lt`.
pub fn compare_versions(a: &Version, b: &Version) -> (r: Ordering)
    ensures
        (r == Ordering::Less) == version_lt(a@, b@),
        (r == Ordering::Equal) == (a@ == b@),
        (r == Ordering::Greater) == version_lt(b@, a@),
{
    let c = compare_numbers(a.major, b.major);
    if !matches!(c, Ordering::Equal) {
        return c;
    }
    let c = compare_numbers(a.minor, b.minor);
    if !matches!(c, Ordering::Equal) {
        return c;
    }
    let c = compare_numbers(a.patch, b.patch);
    if !matches!(c, Ordering::Equal) {
        return c;
    }
    let c = compare_qualifiers(&a.qualifier, &b.qualifier);
    if !matches!(c, Ordering::Equal) {
        return c;
    }
    if a.snapshot == b.snapshot {
        Ordering::Equal
    } else if !a.snapshot {
        Ordering::Less
    } else {
        Ordering::Greater
    }
}

// ------------------------------------------------------ version range

/// Which versions of an artifact a range selects.
#[derive(Debug, PartialEq, Eq)]
pub enum VersionRange {
    /// The `n` most recent versions.
    Latest(usize),
    /// The `n` oldest versions.
    Oldest(usize),
    /// One version.
    Exact(Version),
}

pub open spec fn ends_with_two_dots(s: Seq<char>) -> bool {
    s.len() >= 2 && s[s.len() - 1] == '.' && s[s.len() - 2] == '.'
}

pub open spec fn starts_with_two_dots(s: Seq<char>) -> bool {
    s.len() >= 2 && s[0] == '.' && s[1] == '.'
}

/// What parsing the count of a range owes: the range, or the error.
pub open spec fn range_count_ok(
    s: Seq<char>,
    count: Seq<char>,
    latest: bool,
    r: Result<VersionRange, VersionError>,
) -> bool {
    match parse_bounded(count, usize::MAX as nat) {
        Some(n) => if n >= 1 {
            r == Ok::<VersionRange, VersionError>(
                if latest {
                    VersionRange::Latest(n as usize)
                } else {
                    VersionRange::Oldest(n as usize)
                },
            )
        } else {
            r matches Err(VersionError::RangeBelowOne(e)) && e@ == s
        },
        None => r matches Err(VersionError::IllegalRange(e)) && e@ == s,
    }
}

/// What the selection of a range from a slice sorted newest first holds.
pub open spec fn select_spec<T>(range: VersionRange, s: Seq<T>) -> Seq<T> {
    match range {
        VersionRange::Latest(n) => if n <= s.len() {
            s.subrange(0, n as int)
        } else {
            s
        },
        VersionRange::Oldest(n) => if n > s.len() {
            s
        } else {
            s.subrange(s.len() - n, s.len() as int)
        },
        VersionRange::Exact(_) => s,
    }
}

impl VersionRange {
    /// Reads a range: `<n>..` selects the `n` most recent versions, `..<n>`
    /// the `n` oldest, and any other text one exact version.
    pub fn parse(version: &str) -> (r: Result<VersionRange, VersionError>)
        ensures
            ends_with_two_dots(version@) ==> range_count_ok(
                version@,
                version@.subrange(0, version@.len() - 2),
                true,
                r,
            ),
            !ends_with_two_dots(version@) && starts_with_two_dots(version@) ==> range_count_ok(
                version@,
                version@.subrange(2, version@.len() as int),
                false,
                r,
            ),
            !ends_with_two_dots(version@) && !starts_with_two_dots(version@) ==> match parse_version(
                version@,
            ) {
                Some(k) => r matches Ok(VersionRange::Exact(v)) && v@ == k,
                None => r matches Err(VersionError::Invalid(e)) && e@ == version@,
            },
    {
        let v = chars_of(version);
        let n = v.len();
        if n >= 2 && v[n - 1] == '.' && v[n - 2] == '.' {
            VersionRange::extract_versions(version, &v, 0, n - 2, true)
        } else if n >= 2 && v[0] == '.' && v[1] == '.' {
            VersionRange::extract_versions(version, &v, 2, n, false)
        } else {
            match Version::from_str(version) {
                Ok(v) => Ok(VersionRange::Exact(v)),
                Err(e) => Err(e),
            }
        }
    }

    /// Reads the count `v[lo..hi]` of the range `version`.
    fn extract_versions(version: &str, v: &Vec<char>, lo: usize, hi: usize, latest: bool) -> (r:
        Result<VersionRange, VersionError>)
        requires
            v@ == version@,
            lo <= hi <= v.len(),
        ensures
            range_count_ok(version@, v@.subrange(lo as int, hi as int), latest, r),
    {
        match parse_decimal(v, lo, hi, usize::MAX as u64) {
            Some(n) => {
                if n < 1 {
                    Err(VersionError::RangeBelowOne(version.to_owned()))
                } else if latest {
                    Ok(VersionRange::Latest(n as usize))
                } else {
                    Ok(VersionRange::Oldest(n as usize))
                }
            },
            None => Err(VersionError::IllegalRange(version.to_owned())),
        }
    }

    /// Selects from `slice`, sorted newest first, the elements of the range:
    /// the first `n` for `Latest(n)`, the last `n` for `Oldest(n)`, all of
    /// them where fewer are there, and all of them for `Exact`.
    pub fn select<'a, T>(&self, slice: &'a [T]) -> (r: &'a [T])
        ensures
            r@ == select_spec(*self, slice@),
    {
        match self {
            VersionRange::Latest(n) => {
                let k = if *n < slice.len() {
                    *n
                } else {
                    slice.len()
                };
                slice.split_at(k).0
            },
            VersionRange::Oldest(n) => {
                if *n > slice.len() {
                    slice
                } else {
                    let k = slice.len() - *n;
                    slice.split_at(k).1
                }
            },
            _ => slice,
        }
    }
}

// ------------------------------------------------------ release type

/// Released or snapshot versions.
#[derive(Debug, PartialEq, Eq)]
pub enum ReleaseType {
    Releases,
    Snapshots,
}

} // verus!
