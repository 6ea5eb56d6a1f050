//! Paths and dotted identifiers as sequences of components.

use vstd::prelude::*;
use vstd::string::*;

use crate::text::chars_of;

verus! {

/// The views of a list of strings.
pub open spec fn views(v: Seq<String>) -> Seq<Seq<char>> {
    v.map_values(|x: String| x@)
}

/// A segment that counts as a component: not empty, and not `.` where such
/// segments are dropped.
pub open spec fn kept(seg: Seq<char>, skip_dot: bool) -> bool {
    seg.len() > 0 && !(skip_dot && seg == seq!['.'])
}

/// Splitting `s` at each character of `seps`: the components completed so
/// far, and the segment still open.
pub open spec fn split_state(s: Seq<char>, seps: Seq<char>, skip_dot: bool) -> (
    Seq<Seq<char>>,
    Seq<char>,
)
    decreases s.len(),
{
    if s.len() == 0 {
        (seq![], seq![])
    } else {
        let (done, cur) = split_state(s.drop_last(), seps, skip_dot);
        let c = s.last();
        if seps.contains(c) {
            (
                if kept(cur, skip_dot) {
                    done.push(cur)
                } else {
                    done
                },
                seq![],
            )
        } else {
            (done, cur.push(c))
        }
    }
}

/// The components of `s` between the separators `seps`, empty ones (and, with
/// `skip_dot`, `.` ones) dropped.
pub open spec fn components(s: Seq<char>, seps: Seq<char>, skip_dot: bool) -> Seq<Seq<char>> {
    let (done, cur) = split_state(s, seps, skip_dot);
    if kept(cur, skip_dot) {
        done.push(cur)
    } else {
        done
    }
}

/// `base`, then each component preceded by `sep`.
pub open spec fn join_onto(base: Seq<char>, comps: Seq<Seq<char>>, sep: Seq<char>) -> Seq<char>
    decreases comps.len(),
{
    if comps.len() == 0 {
        base
    } else {
        join_onto(base, comps.drop_last(), sep) + sep + comps.last()
    }
}

/// The components joined by `sep`.
pub open spec fn join(comps: Seq<Seq<char>>, sep: Seq<char>) -> Seq<char> {
    if comps.len() == 0 {
        seq![]
    } else {
        join_onto(comps[0], comps.subrange(1, comps.len() as int), sep)
    }
}

fn is_dot_segment(v: &Vec<char>, lo: usize, hi: usize) -> (r: bool)
    requires
        lo <= hi <= v.len(),
    ensures
        r == (v@.subrange(lo as int, hi as int) == seq!['.']),
{
    if hi - lo == 1 && v[lo] == '.' {
        assert(v@.subrange(lo as int, hi as int) =~= seq!['.']);
        true
    } else {
        if hi - lo == 1 {
            assert(v@.subrange(lo as int, hi as int)[0] != seq!['.'][0]);
        } else {
            assert(v@.subrange(lo as int, hi as int).len() != seq!['.'].len());
        }
        false
    }
}

fn is_separator(seps: &Vec<char>, c: char) -> (r: bool)
    ensures
        r == seps@.contains(c),
{
    let mut i: usize = 0;
    while i < seps.len()
        invariant
            i <= seps.len(),
            forall|j: int| 0 <= j < i ==> seps@[j] != c,
        decreases seps.len() - i,
    {
        if seps[i] == c {
            assert(seps@[i as int] == c);
            return true;
        }
        i = i + 1;
    }
    false
}

/// Splits `s` into `components(s@, seps@, skip_dot)`.
pub fn split_components(s: &str, seps: &Vec<char>, skip_dot: bool) -> (r: Vec<String>)
    ensures
        views(r@) == components(s@, seps@, skip_dot),
{
    let v = chars_of(s);
    let mut r: Vec<String> = Vec::new();
    let mut start: usize = 0;
    let mut i: usize = 0;
    while i < v.len()
        invariant
            v@ == s@,
            start <= i <= v.len(),
            split_state(v@.subrange(0, i as int), seps@, skip_dot) == (
                views(r@),
                v@.subrange(start as int, i as int),
            ),
        decreases v.len() - i,
    {
        let ghost prefix = v@.subrange(0, i + 1);
        assert(prefix.drop_last() =~= v@.subrange(0, i as int));
        let c = v[i];
        if is_separator(seps, c) {
            let dot = is_dot_segment(&v, start, i);
            if start < i && !(skip_dot && dot) {
                let seg = s.substring_char(start, i).to_owned();
                r.push(seg);
                assert(views(r@) =~= split_state(prefix, seps@, skip_dot).0);
            }
            start = i + 1;
            assert(v@.subrange(start as int, i + 1) =~= seq![]);
        } else {
            assert(v@.subrange(start as int, i + 1) =~= v@.subrange(start as int, i as int).push(c));
        }
        i = i + 1;
    }
    assert(v@.subrange(0, i as int) =~= s@);
    let dot = is_dot_segment(&v, start, i);
    if start < i && !(skip_dot && dot) {
        let seg = s.substring_char(start, i).to_owned();
        r.push(seg);
        assert(views(r@) =~= components(s@, seps@, skip_dot));
    }
    r
}

/// `base` followed by `comps[lo..hi]`, each preceded by `sep`.
pub fn join_path(base: &str, comps: &Vec<String>, lo: usize, hi: usize, sep: &str) -> (r: String)
    requires
        lo <= hi <= comps.len(),
    ensures
        r@ == join_onto(base@, views(comps@).subrange(lo as int, hi as int), sep@),
{
    let mut r = base.to_owned();
    let mut i: usize = lo;
    assert(views(comps@).subrange(lo as int, lo as int) =~= seq![]);
    while i < hi
        invariant
            lo <= i <= hi <= comps.len(),
            r@ == join_onto(base@, views(comps@).subrange(lo as int, i as int), sep@),
        decreases hi - i,
    {
        assert(views(comps@).subrange(lo as int, i + 1).drop_last() =~= views(comps@).subrange(lo as int, i as int));
        r.append(sep);
        r.append(comps[i].as_str());
        i = i + 1;
    }
    r
}

/// `comps[lo..hi]` joined by `sep`.
pub fn join_components(comps: &Vec<String>, lo: usize, hi: usize, sep: &str) -> (r: String)
    requires
        lo <= hi <= comps.len(),
    ensures
        r@ == join(views(comps@).subrange(lo as int, hi as int), sep@),
{
    if lo == hi {
        String::new()
    } else {
        let r = join_path(comps[lo].as_str(), comps, lo + 1, hi, sep);
        assert(views(comps@).subrange(lo as int, hi as int).subrange(1, hi - lo) =~= views(comps@).subrange(lo + 1, hi as int));
        r
    }
}

/// The last component of a path, unless there is none or it is `..`.
pub open spec fn file_name(p: Seq<char>) -> Option<Seq<char>> {
    let c = components(p, seq!['/'], true);
    if c.len() == 0 || c.last() == seq!['.', '.'] {
        None
    } else {
        Some(c.last())
    }
}

} // verus!
