//! The repository tree: groups, their artifacts and their versions, built from
//! the package descriptors found by a directory walk.

use core::cmp::Ordering;
use vstd::prelude::*;
use vstd::string::*;

use crate::artifact::{versions_sorted, refine_versions, survives, Artifact};
use crate::command::Command;
use crate::group::{
    artifact_node, holds_version,
    add_artifact_version, artifacts_wf, has_artifact, has_artifact_version, Group,
};
use crate::sizes::{
    count2, count3, lemma_sum2, lemma_sum3, lemma_sum_u64, sum2, sum3, sum_group_bytes, sum_u64,
};
use crate::path::{join, join_components, join_onto, join_path, views};
use crate::text::{chars_lt, compare_text, lemma_chars_lt_irreflexive, lemma_chars_lt_transitive};
use crate::version::{parse_version, version_lt, Version, VersionError, VersionKey, VersionRange};

verus! {

// ------------------------------------------------------ GAV

/// One package instance found in the repository: its group, artifact and
/// version, each with its directory.
#[derive(Debug)]
pub struct Gav {
    pub group: Group,
    pub artifact: Artifact,
    pub version: Version,
}

/// Why a descriptor did not yield a package instance.
#[derive(Debug)]
pub enum GavError {
    /// The descriptor lies less than three directories below the root.
    TooShallow,
    /// The version directory's name is not a version.
    Version(VersionError),
}

/// A file name whose extension is `pom`: it ends in `.pom`, and that dot does
/// not start the name.
pub open spec fn is_descriptor_name(name: Seq<char>) -> bool {
    name.len() >= 5 && name.subrange(name.len() - 4, name.len() as int) == seq!['.', 'p', 'o', 'm']
}

/// Whether a file named `file_name` is a package descriptor.
pub fn is_descriptor(file_name: &str) -> (r: bool)
    ensures
        r == is_descriptor_name(file_name@),
{
    let v = crate::text::chars_of(file_name);
    let n = v.len();
    if n < 5 {
        return false;
    }
    let r = v[n - 4] == '.' && v[n - 3] == 'p' && v[n - 2] == 'o' && v[n - 1] == 'm';
    let ghost tail = file_name@.subrange(n - 4, n as int);
    if r {
        assert(tail =~= seq!['.', 'p', 'o', 'm']);
    } else {
        assert(tail[0] != '.' || tail[1] != 'p' || tail[2] != 'o' || tail[3] != 'm');
        assert(tail != seq!['.', 'p', 'o', 'm']);
    }
    r
}

// ------------------------------------------------------ membership

pub open spec fn groups_wf(gs: Seq<Group>) -> bool {
    &&& forall|i: int, j: int|
        0 <= i < j < gs.len() ==> chars_lt(#[trigger] gs[i].id@, #[trigger] gs[j].id@)
    &&& forall|i: int| 0 <= i < gs.len() ==> (#[trigger] gs[i]).wf()
}

pub open spec fn has_group(gs: Seq<Group>, g: Seq<char>) -> bool {
    exists|i: int| 0 <= i < gs.len() && #[trigger] gs[i].id@ == g
}

pub open spec fn has_group_artifact(gs: Seq<Group>, g: Seq<char>, a: Seq<char>) -> bool {
    exists|i: int| 0 <= i < gs.len() && #[trigger] gs[i].id@ == g && has_artifact(gs[i].artifacts@, a)
}

/// Version `k` of artifact `a` in group `g` is in the tree.
pub open spec fn has_entry(gs: Seq<Group>, g: Seq<char>, a: Seq<char>, k: VersionKey) -> bool {
    exists|i: int|
        0 <= i < gs.len() && #[trigger] gs[i].id@ == g && has_artifact_version(gs[i].artifacts@, a, k)
}

/// Some group in `gs` has the identifier `g` and an artifact `a` that holds the
/// version `x`.
pub open spec fn holds_entry(gs: Seq<Group>, g: Seq<char>, a: Seq<char>, x: Version) -> bool {
    exists|i: int| 0 <= i < gs.len() && #[trigger] gs[i].id@ == g && holds_version(gs[i].artifacts@, a, x)
}

/// Some group in `gs` has the identifier `g`, the directory `q` and the byte
/// count `b`.
pub open spec fn group_node(gs: Seq<Group>, g: Seq<char>, q: Seq<char>, b: u64) -> bool {
    exists|i: int| 0 <= i < gs.len() && #[trigger] gs[i].id@ == g && gs[i].path@ == q && gs[i].bytes == b
}

/// Some group in `gs` has the identifier `g` and an artifact `a` with the
/// directory `q` and the byte count `b`.
pub open spec fn artifact_entry(gs: Seq<Group>, g: Seq<char>, a: Seq<char>, q: Seq<char>, b: u64) -> bool {
    exists|i: int| 0 <= i < gs.len() && #[trigger] gs[i].id@ == g && artifact_node(gs[i].artifacts@, a, q, b)
}

/// How the nodes and version values changed when version `v` of artifact
/// `aid` (in `apath`) of group `gid` (in `gpath`) was recorded: what was there
/// stays as it was, a missing group or artifact comes new with no bytes, and
/// `v` comes in only where no version with its key was there.
pub open spec fn values_grew_by(
    pre: Seq<Group>,
    post: Seq<Group>,
    gid: Seq<char>,
    gpath: Seq<char>,
    aid: Seq<char>,
    apath: Seq<char>,
    v: Version,
) -> bool {
    &&& forall|g: Seq<char>, a: Seq<char>, x: Version|
        holds_entry(post, g, a, x) <==> (holds_entry(pre, g, a, x) || (g == gid && a == aid && x == v
            && !has_entry(pre, gid, aid, v@)))
    &&& forall|g: Seq<char>, q: Seq<char>, b: u64|
        group_node(post, g, q, b) <==> (group_node(pre, g, q, b) || (g == gid && q == gpath && b == 0
            && !has_group(pre, gid)))
    &&& forall|g: Seq<char>, a: Seq<char>, q: Seq<char>, b: u64|
        artifact_entry(post, g, a, q, b) <==> (artifact_entry(pre, g, a, q, b) || (g == gid && a == aid
            && q == apath && b == 0 && !has_group_artifact(pre, gid, aid)))
}

/// How the artifacts of the group `gid` changed.
pub open spec fn artifact_values_grew_by(
    pre: Seq<Artifact>,
    post: Seq<Artifact>,
    aid: Seq<char>,
    apath: Seq<char>,
    v: Version,
) -> bool {
    &&& forall|a: Seq<char>, x: Version|
        holds_version(post, a, x) <==> (holds_version(pre, a, x) || (a == aid && x == v
            && !has_artifact_version(pre, aid, v@)))
    &&& forall|a: Seq<char>, q: Seq<char>, b: u64|
        artifact_node(post, a, q, b) <==> (artifact_node(pre, a, q, b) || (a == aid && q == apath && b == 0
            && !has_artifact(pre, aid)))
}

proof fn lemma_values_updated(pre: Seq<Group>, post: Seq<Group>, i: int, gid: Seq<char>, gpath: Seq<char>, aid: Seq<char>, apath: Seq<char>, v: Version)
    requires
        groups_wf(pre),
        0 <= i < pre.len(),
        pre[i].id@ == gid,
        post == pre.update(i, post[i]),
        post[i].id == pre[i].id,
        post[i].path == pre[i].path,
        post[i].bytes == pre[i].bytes,
        artifact_values_grew_by(pre[i].artifacts@, post[i].artifacts@, aid, apath, v),
    ensures
        values_grew_by(pre, post, gid, gpath, aid, apath, v),
{
    lemma_chars_lt_irreflexive(gid);
    assert(has_group(pre, gid));
    assert forall|j: int| 0 <= j < pre.len() && pre[j].id@ == gid implies j == i by {}
    assert(has_entry(pre, gid, aid, v@) <==> has_artifact_version(pre[i].artifacts@, aid, v@)) by {
        if has_entry(pre, gid, aid, v@) {
            let t = choose|t: int| 0 <= t < pre.len() && #[trigger] pre[t].id@ == gid && has_artifact_version(pre[t].artifacts@, aid, v@);
            assert(t == i);
        }
    }
    assert(has_group_artifact(pre, gid, aid) <==> has_artifact(pre[i].artifacts@, aid)) by {
        if has_group_artifact(pre, gid, aid) {
            let t = choose|t: int| 0 <= t < pre.len() && #[trigger] pre[t].id@ == gid && has_artifact(pre[t].artifacts@, aid);
            assert(t == i);
        }
    }
    assert forall|g: Seq<char>, a: Seq<char>, x: Version|
        holds_entry(post, g, a, x) <==> (holds_entry(pre, g, a, x) || (g == gid && a == aid && x == v
            && !has_entry(pre, gid, aid, v@))) by {
        if holds_entry(post, g, a, x) {
            let j = choose|j: int| 0 <= j < post.len() && #[trigger] post[j].id@ == g && holds_version(post[j].artifacts@, a, x);
            if j != i || holds_version(pre[i].artifacts@, a, x) {
                assert(pre[j].id@ == g && holds_version(pre[j].artifacts@, a, x));
            }
        }
        if holds_entry(pre, g, a, x) {
            let j = choose|j: int| 0 <= j < pre.len() && #[trigger] pre[j].id@ == g && holds_version(pre[j].artifacts@, a, x);
            assert(post[j].id@ == g && holds_version(post[j].artifacts@, a, x));
        }
        if g == gid && a == aid && x == v && !has_entry(pre, gid, aid, v@) {
            assert(post[i].id@ == g && holds_version(post[i].artifacts@, a, x));
        }
    }
    assert forall|g: Seq<char>, q: Seq<char>, b: u64| group_node(post, g, q, b) <==> group_node(pre, g, q, b) by {
        if group_node(post, g, q, b) {
            let j = choose|j: int| 0 <= j < post.len() && #[trigger] post[j].id@ == g && post[j].path@ == q && post[j].bytes == b;
            assert(pre[j].id@ == g && pre[j].path@ == q && pre[j].bytes == b);
        }
        if group_node(pre, g, q, b) {
            let j = choose|j: int| 0 <= j < pre.len() && #[trigger] pre[j].id@ == g && pre[j].path@ == q && pre[j].bytes == b;
            assert(post[j].id@ == g && post[j].path@ == q && post[j].bytes == b);
        }
    }
    assert forall|g: Seq<char>, a: Seq<char>, q: Seq<char>, b: u64|
        artifact_entry(post, g, a, q, b) <==> (artifact_entry(pre, g, a, q, b) || (g == gid && a == aid
            && q == apath && b == 0 && !has_group_artifact(pre, gid, aid))) by {
        if artifact_entry(post, g, a, q, b) {
            let j = choose|j: int| 0 <= j < post.len() && #[trigger] post[j].id@ == g && artifact_node(post[j].artifacts@, a, q, b);
            if j != i || artifact_node(pre[i].artifacts@, a, q, b) {
                assert(pre[j].id@ == g && artifact_node(pre[j].artifacts@, a, q, b));
            }
        }
        if artifact_entry(pre, g, a, q, b) {
            let j = choose|j: int| 0 <= j < pre.len() && #[trigger] pre[j].id@ == g && artifact_node(pre[j].artifacts@, a, q, b);
            assert(post[j].id@ == g && artifact_node(post[j].artifacts@, a, q, b));
        }
        if g == gid && a == aid && q == apath && b == 0 && !has_group_artifact(pre, gid, aid) {
            assert(post[i].id@ == g && artifact_node(post[i].artifacts@, a, q, b));
        }
    }
}

proof fn lemma_values_inserted(pre: Seq<Group>, post: Seq<Group>, p: int, gid: Seq<char>, gpath: Seq<char>, aid: Seq<char>, apath: Seq<char>, v: Version)
    requires
        0 <= p <= pre.len(),
        !has_group(pre, gid),
        post == pre.insert(p, post[p]),
        post[p].id@ == gid,
        post[p].path@ == gpath,
        post[p].bytes == 0,
        artifact_values_grew_by(Seq::<Artifact>::empty(), post[p].artifacts@, aid, apath, v),
    ensures
        values_grew_by(pre, post, gid, gpath, aid, apath, v),
{
    assert(!has_entry(pre, gid, aid, v@)) by {
        if has_entry(pre, gid, aid, v@) {
            let t = choose|t: int| 0 <= t < pre.len() && #[trigger] pre[t].id@ == gid && has_artifact_version(pre[t].artifacts@, aid, v@);
            assert(pre[t].id@ == gid);
        }
    }
    assert(!has_group_artifact(pre, gid, aid)) by {
        if has_group_artifact(pre, gid, aid) {
            let t = choose|t: int| 0 <= t < pre.len() && #[trigger] pre[t].id@ == gid && has_artifact(pre[t].artifacts@, aid);
            assert(pre[t].id@ == gid);
        }
    }
    let empty = Seq::<Artifact>::empty();
    assert(!has_artifact(empty, aid));
    assert forall|a: Seq<char>, k: VersionKey| !has_artifact_version(empty, a, k) by {}
    assert forall|a: Seq<char>, x: Version| !holds_version(empty, a, x) by {}
    assert forall|a: Seq<char>, q: Seq<char>, b: u64| !artifact_node(empty, a, q, b) by {}
    assert forall|g: Seq<char>, a: Seq<char>, x: Version|
        holds_entry(post, g, a, x) <==> (holds_entry(pre, g, a, x) || (g == gid && a == aid && x == v)) by {
        if holds_entry(post, g, a, x) {
            let j = choose|j: int| 0 <= j < post.len() && #[trigger] post[j].id@ == g && holds_version(post[j].artifacts@, a, x);
            if j < p {
                assert(pre[j].id@ == g && holds_version(pre[j].artifacts@, a, x));
            } else if j > p {
                assert(pre[j - 1].id@ == g && holds_version(pre[j - 1].artifacts@, a, x));
            }
        }
        if holds_entry(pre, g, a, x) {
            let j = choose|j: int| 0 <= j < pre.len() && #[trigger] pre[j].id@ == g && holds_version(pre[j].artifacts@, a, x);
            if j < p {
                assert(post[j].id@ == g && holds_version(post[j].artifacts@, a, x));
            } else {
                assert(post[j + 1].id@ == g && holds_version(post[j + 1].artifacts@, a, x));
            }
        }
        if g == gid && a == aid && x == v {
            assert(post[p].id@ == g && holds_version(post[p].artifacts@, a, x));
        }
    }
    assert forall|g: Seq<char>, q: Seq<char>, b: u64|
        group_node(post, g, q, b) <==> (group_node(pre, g, q, b) || (g == gid && q == gpath && b == 0)) by {
        if group_node(post, g, q, b) {
            let j = choose|j: int| 0 <= j < post.len() && #[trigger] post[j].id@ == g && post[j].path@ == q && post[j].bytes == b;
            if j < p {
                assert(pre[j].id@ == g && pre[j].path@ == q && pre[j].bytes == b);
            } else if j > p {
                assert(pre[j - 1].id@ == g && pre[j - 1].path@ == q && pre[j - 1].bytes == b);
            }
        }
        if group_node(pre, g, q, b) {
            let j = choose|j: int| 0 <= j < pre.len() && #[trigger] pre[j].id@ == g && pre[j].path@ == q && pre[j].bytes == b;
            if j < p {
                assert(post[j].id@ == g && post[j].path@ == q && post[j].bytes == b);
            } else {
                assert(post[j + 1].id@ == g && post[j + 1].path@ == q && post[j + 1].bytes == b);
            }
        }
        if g == gid && q == gpath && b == 0 {
            assert(post[p].id@ == g && post[p].path@ == q && post[p].bytes == b);
        }
    }
    assert forall|g: Seq<char>, a: Seq<char>, q: Seq<char>, b: u64|
        artifact_entry(post, g, a, q, b) <==> (artifact_entry(pre, g, a, q, b) || (g == gid && a == aid
            && q == apath && b == 0)) by {
        if artifact_entry(post, g, a, q, b) {
            let j = choose|j: int| 0 <= j < post.len() && #[trigger] post[j].id@ == g && artifact_node(post[j].artifacts@, a, q, b);
            if j < p {
                assert(pre[j].id@ == g && artifact_node(pre[j].artifacts@, a, q, b));
            } else if j > p {
                assert(pre[j - 1].id@ == g && artifact_node(pre[j - 1].artifacts@, a, q, b));
            }
        }
        if artifact_entry(pre, g, a, q, b) {
            let j = choose|j: int| 0 <= j < pre.len() && #[trigger] pre[j].id@ == g && artifact_node(pre[j].artifacts@, a, q, b);
            if j < p {
                assert(post[j].id@ == g && artifact_node(post[j].artifacts@, a, q, b));
            } else {
                assert(post[j + 1].id@ == g && artifact_node(post[j + 1].artifacts@, a, q, b));
            }
        }
        if g == gid && a == aid && q == apath && b == 0 {
            assert(post[p].id@ == g && artifact_node(post[p].artifacts@, a, q, b));
        }
    }
}

/// How the artifacts of one group changed when version `key` of artifact `aid`
/// was recorded in them.
pub open spec fn grew_by(pre: Seq<Artifact>, post: Seq<Artifact>, aid: Seq<char>, key: VersionKey) -> bool {
    &&& forall|a: Seq<char>| has_artifact(post, a) <==> (has_artifact(pre, a) || a == aid)
    &&& forall|a: Seq<char>, k: VersionKey|
        has_artifact_version(post, a, k) <==> (has_artifact_version(pre, a, k) || (a == aid && k == key))
}

/// How the groups changed when version `key` of artifact `aid` of group `gid`
/// was recorded in them.
pub open spec fn tree_grew_by(pre: Seq<Group>, post: Seq<Group>, gid: Seq<char>, aid: Seq<char>, key: VersionKey) -> bool {
    &&& forall|g: Seq<char>| has_group(post, g) <==> (has_group(pre, g) || g == gid)
    &&& forall|g: Seq<char>, a: Seq<char>|
        has_group_artifact(post, g, a) <==> (has_group_artifact(pre, g, a) || (g == gid && a == aid))
    &&& forall|g: Seq<char>, a: Seq<char>, k: VersionKey|
        has_entry(post, g, a, k) <==> (has_entry(pre, g, a, k) || (g == gid && a == aid && k == key))
}

proof fn lemma_group_changed(pre: Seq<Group>, post: Seq<Group>, i: int, p: int, inserted: bool, old_arts: Seq<Artifact>, gid: Seq<char>, aid: Seq<char>, key: VersionKey, g: Seq<char>, a: Seq<char>, k: VersionKey)
    requires
        groups_wf(pre),
        0 <= i < post.len(),
        inserted ==> p == i && 0 <= p <= pre.len() && post == pre.insert(p, post[p]) && old_arts == Seq::<Artifact>::empty(),
        !inserted ==> i < pre.len() && post == pre.update(i, post[i]) && pre[i].id@ == gid && old_arts == pre[i].artifacts@,
        inserted ==> !has_group(pre, gid),
        post[i].id@ == gid,
        grew_by(old_arts, post[i].artifacts@, aid, key),
    ensures
        has_group(post, g) <==> (has_group(pre, g) || g == gid),
        has_group_artifact(post, g, a) <==> (has_group_artifact(pre, g, a) || (g == gid && a == aid)),
        has_entry(post, g, a, k) <==> (has_entry(pre, g, a, k) || (g == gid && a == aid && k == key)),
{
    lemma_chars_lt_irreflexive(gid);
    // an index of `pre` and the index it has in `post`
    assert forall|j: int| 0 <= j < pre.len() && j != i && !(inserted && j > i) implies post[j] == pre[j] by {
        if inserted {
            assert(j < i);
        }
    }
    if has_group(post, g) {
        let j = choose|j: int| 0 <= j < post.len() && #[trigger] post[j].id@ == g;
        if j != i {
            let q = if inserted && j > i { j - 1 } else { j };
            assert(pre[q].id@ == g);
        }
    }
    if has_group(pre, g) {
        let j = choose|j: int| 0 <= j < pre.len() && #[trigger] pre[j].id@ == g;
        let q = if inserted && j >= i { j + 1 } else { j };
        assert(post[q].id@ == g);
    }
    if g == gid {
        assert(post[i].id@ == g);
    }
    if has_group_artifact(post, g, a) {
        let j = choose|j: int| 0 <= j < post.len() && #[trigger] post[j].id@ == g && has_artifact(post[j].artifacts@, a);
        if j != i {
            let q = if inserted && j > i { j - 1 } else { j };
            assert(pre[q].id@ == g && has_artifact(pre[q].artifacts@, a));
        } else if !inserted && has_artifact(old_arts, a) {
            assert(pre[i].id@ == g && has_artifact(pre[i].artifacts@, a));
        }
    }
    if has_group_artifact(pre, g, a) {
        let j = choose|j: int| 0 <= j < pre.len() && #[trigger] pre[j].id@ == g && has_artifact(pre[j].artifacts@, a);
        let q = if inserted && j >= i { j + 1 } else { j };
        assert(post[q].id@ == g && has_artifact(post[q].artifacts@, a));
    }
    if g == gid && a == aid {
        assert(post[i].id@ == g && has_artifact(post[i].artifacts@, a));
    }
    if has_entry(post, g, a, k) {
        let j = choose|j: int| 0 <= j < post.len() && #[trigger] post[j].id@ == g && has_artifact_version(post[j].artifacts@, a, k);
        if j != i {
            let q = if inserted && j > i { j - 1 } else { j };
            assert(pre[q].id@ == g && has_artifact_version(pre[q].artifacts@, a, k));
        } else if !inserted && has_artifact_version(old_arts, a, k) {
            assert(pre[i].id@ == g && has_artifact_version(pre[i].artifacts@, a, k));
        }
    }
    if has_entry(pre, g, a, k) {
        let j = choose|j: int| 0 <= j < pre.len() && #[trigger] pre[j].id@ == g && has_artifact_version(pre[j].artifacts@, a, k);
        let q = if inserted && j >= i { j + 1 } else { j };
        assert(post[q].id@ == g && has_artifact_version(post[q].artifacts@, a, k));
    }
    if g == gid && a == aid && k == key {
        assert(post[i].id@ == g && has_artifact_version(post[i].artifacts@, a, k));
    }
}

proof fn lemma_tree_grew(pre: Seq<Group>, post: Seq<Group>, i: int, p: int, inserted: bool, old_arts: Seq<Artifact>, gid: Seq<char>, aid: Seq<char>, key: VersionKey)
    requires
        groups_wf(pre),
        0 <= i < post.len(),
        inserted ==> p == i && 0 <= p <= pre.len() && post == pre.insert(p, post[p]) && old_arts == Seq::<Artifact>::empty(),
        !inserted ==> i < pre.len() && post == pre.update(i, post[i]) && pre[i].id@ == gid && old_arts == pre[i].artifacts@,
        inserted ==> !has_group(pre, gid),
        post[i].id@ == gid,
        grew_by(old_arts, post[i].artifacts@, aid, key),
    ensures
        tree_grew_by(pre, post, gid, aid, key),
{
    assert forall|g: Seq<char>| has_group(post, g) <==> (has_group(pre, g) || g == gid) by {
        lemma_group_changed(pre, post, i, p, inserted, old_arts, gid, aid, key, g, aid, key);
    }
    assert forall|g: Seq<char>, a: Seq<char>|
        has_group_artifact(post, g, a) <==> (has_group_artifact(pre, g, a) || (g == gid && a == aid)) by {
        lemma_group_changed(pre, post, i, p, inserted, old_arts, gid, aid, key, g, a, key);
    }
    assert forall|g: Seq<char>, a: Seq<char>, k: VersionKey|
        has_entry(post, g, a, k) <==> (has_entry(pre, g, a, k) || (g == gid && a == aid && k == key)) by {
        lemma_group_changed(pre, post, i, p, inserted, old_arts, gid, aid, key, g, a, k);
    }
}

/// Where the group `id` stands in `gs`: `Ok` with its position, or `Err` with
/// the position it would take.
pub fn find_group(gs: &Vec<Group>, id: &str) -> (r: Result<usize, usize>)
    requires
        groups_wf(gs@),
    ensures
        match r {
            Ok(i) => i < gs.len() && gs@[i as int].id@ == id@,
            Err(p) => p <= gs.len() && (forall|j: int|
                0 <= j < p ==> chars_lt(#[trigger] gs@[j].id@, id@)) && (forall|j: int|
                p <= j < gs.len() ==> chars_lt(id@, #[trigger] gs@[j].id@)),
        },
        r is Err <==> !has_group(gs@, id@),
{
    let mut i: usize = 0;
    while i < gs.len()
        invariant
            i <= gs.len(),
            groups_wf(gs@),
            forall|j: int| 0 <= j < i ==> chars_lt(#[trigger] gs@[j].id@, id@),
        decreases gs.len() - i,
    {
        match compare_text(gs[i].id.as_str(), id) {
            Ordering::Less => {},
            Ordering::Equal => {
                return Ok(i);
            },
            Ordering::Greater => {
                assert forall|j: int| i <= j < gs.len() implies chars_lt(id@, #[trigger] gs@[j].id@) by {
                    if j > i {
                        lemma_chars_lt_transitive(id@, gs@[i as int].id@, gs@[j].id@);
                    }
                }
                assert forall|j: int| 0 <= j < gs.len() implies gs@[j].id@ != id@ by {
                    lemma_chars_lt_irreflexive(id@);
                }
                return Err(i);
            },
        }
        i = i + 1;
    }
    assert forall|j: int| 0 <= j < gs.len() implies gs@[j].id@ != id@ by {
        lemma_chars_lt_irreflexive(id@);
    }
    Err(i)
}

/// Records version `v` of artifact `aid` (in `apath`) of group `gid` (in
/// `gpath`), adding the group and the artifact where they are missing.
pub fn add_entry(gs: &mut Vec<Group>, gid: &str, gpath: &str, aid: &str, apath: &str, v: Version)
    requires
        groups_wf(old(gs)@),
    ensures
        groups_wf(final(gs)@),
        tree_grew_by(old(gs)@, final(gs)@, gid@, aid@, v@),
        values_grew_by(old(gs)@, final(gs)@, gid@, gpath@, aid@, apath@, v),
{
    let ghost pre = gs@;
    let ghost key = v@;
    let ghost value = v;
    match find_group(gs, gid) {
        Ok(i) => {
            let ghost old_arts = gs@[i as int].artifacts@;
            add_artifact_version(&mut gs[i].artifacts, aid, apath, v);
            assert(gs@ == pre.update(i as int, gs@[i as int]));
            proof {
                lemma_tree_grew(pre, gs@, i as int, i as int, false, old_arts, gid@, aid@, key);
                lemma_values_updated(pre, gs@, i as int, gid@, gpath@, aid@, apath@, value);
            }
        },
        Err(p) => {
            let mut group = Group::new(gid, gpath);
            add_artifact_version(&mut group.artifacts, aid, apath, v);
            gs.insert(p, group);
            assert forall|i: int, j: int| 0 <= i < j < gs@.len() implies chars_lt(
                #[trigger] gs@[i].id@,
                #[trigger] gs@[j].id@,
            ) by {
                if i < p && j > p {
                    lemma_chars_lt_transitive(gs@[i].id@, gid@, gs@[j].id@);
                }
            }
            proof {
                lemma_tree_grew(pre, gs@, p as int, p as int, true, Seq::<Artifact>::empty(), gid@, aid@, key);
                lemma_values_inserted(pre, gs@, p as int, gid@, gpath@, aid@, apath@, value);
            }
        },
    }
}

/// How the groups changed when the package instances `gavs` were recorded in
/// them: a group, an artifact of a group, or a version of an artifact is there
/// exactly when it was before or some instance names it.
pub open spec fn tree_grew_by_all(pre: Seq<Group>, post: Seq<Group>, gavs: Seq<Gav>) -> bool {
    &&& forall|g: Seq<char>|
        has_group(post, g) <==> (has_group(pre, g) || exists|i: int|
            0 <= i < gavs.len() && #[trigger] gavs[i].group.id@ == g)
    &&& forall|g: Seq<char>, a: Seq<char>|
        has_group_artifact(post, g, a) <==> (has_group_artifact(pre, g, a) || exists|i: int|
            0 <= i < gavs.len() && #[trigger] gavs[i].group.id@ == g && gavs[i].artifact.id@ == a)
    &&& forall|g: Seq<char>, a: Seq<char>, k: VersionKey|
        has_entry(post, g, a, k) <==> (has_entry(pre, g, a, k) || exists|i: int|
            0 <= i < gavs.len() && #[trigger] gavs[i].group.id@ == g && gavs[i].artifact.id@ == a
                && gavs[i].version@ == k)
}

proof fn lemma_grew_step(pre: Seq<Group>, mid: Seq<Group>, post: Seq<Group>, done: Seq<Gav>, x: Gav)
    requires
        tree_grew_by_all(pre, mid, done),
        tree_grew_by(mid, post, x.group.id@, x.artifact.id@, x.version@),
    ensures
        tree_grew_by_all(pre, post, done.push(x)),
{
    let all = done.push(x);
    let n = done.len() as int;
    assert(all[n] == x);
    assert forall|i: int| 0 <= i < n implies #[trigger] all[i] == done[i] by {}
    assert forall|g: Seq<char>|
        has_group(post, g) <==> (has_group(pre, g) || exists|i: int|
            0 <= i < all.len() && #[trigger] all[i].group.id@ == g) by {
        if exists|i: int| 0 <= i < all.len() && #[trigger] all[i].group.id@ == g {
            let i = choose|i: int| 0 <= i < all.len() && #[trigger] all[i].group.id@ == g;
            if i < n {
                assert(done[i].group.id@ == g);
            }
        }
        if exists|i: int| 0 <= i < done.len() && #[trigger] done[i].group.id@ == g {
            let i = choose|i: int| 0 <= i < done.len() && #[trigger] done[i].group.id@ == g;
            assert(all[i].group.id@ == g);
        }
    }
    assert forall|g: Seq<char>, a: Seq<char>|
        has_group_artifact(post, g, a) <==> (has_group_artifact(pre, g, a) || exists|i: int|
            0 <= i < all.len() && #[trigger] all[i].group.id@ == g && all[i].artifact.id@ == a) by {
        if exists|i: int| 0 <= i < all.len() && #[trigger] all[i].group.id@ == g && all[i].artifact.id@ == a {
            let i = choose|i: int| 0 <= i < all.len() && #[trigger] all[i].group.id@ == g && all[i].artifact.id@ == a;
            if i < n {
                assert(done[i].group.id@ == g && done[i].artifact.id@ == a);
            }
        }
        if exists|i: int| 0 <= i < done.len() && #[trigger] done[i].group.id@ == g && done[i].artifact.id@ == a {
            let i = choose|i: int| 0 <= i < done.len() && #[trigger] done[i].group.id@ == g && done[i].artifact.id@ == a;
            assert(all[i].group.id@ == g && all[i].artifact.id@ == a);
        }
    }
    assert forall|g: Seq<char>, a: Seq<char>, k: VersionKey|
        has_entry(post, g, a, k) <==> (has_entry(pre, g, a, k) || exists|i: int|
            0 <= i < all.len() && #[trigger] all[i].group.id@ == g && all[i].artifact.id@ == a
                && all[i].version@ == k) by {
        if exists|i: int| 0 <= i < all.len() && #[trigger] all[i].group.id@ == g && all[i].artifact.id@ == a && all[i].version@ == k {
            let i = choose|i: int| 0 <= i < all.len() && #[trigger] all[i].group.id@ == g && all[i].artifact.id@ == a && all[i].version@ == k;
            if i < n {
                assert(done[i].group.id@ == g && done[i].artifact.id@ == a && done[i].version@ == k);
            }
        }
        if exists|i: int| 0 <= i < done.len() && #[trigger] done[i].group.id@ == g && done[i].artifact.id@ == a && done[i].version@ == k {
            let i = choose|i: int| 0 <= i < done.len() && #[trigger] done[i].group.id@ == g && done[i].artifact.id@ == a && done[i].version@ == k;
            assert(all[i].group.id@ == g && all[i].artifact.id@ == a && all[i].version@ == k);
        }
    }
}

/// The first of `gavs` in group `g`.
pub open spec fn first_in_group(gavs: Seq<Gav>, g: Seq<char>) -> Option<int>
    decreases gavs.len(),
{
    if gavs.len() == 0 {
        None
    } else {
        match first_in_group(gavs.drop_last(), g) {
            Some(i) => Some(i),
            None => if gavs.last().group.id@ == g {
                Some(gavs.len() - 1)
            } else {
                None
            },
        }
    }
}

/// The first of `gavs` for artifact `a` of group `g`.
pub open spec fn first_for_artifact(gavs: Seq<Gav>, g: Seq<char>, a: Seq<char>) -> Option<int>
    decreases gavs.len(),
{
    if gavs.len() == 0 {
        None
    } else {
        match first_for_artifact(gavs.drop_last(), g, a) {
            Some(i) => Some(i),
            None => if gavs.last().group.id@ == g && gavs.last().artifact.id@ == a {
                Some(gavs.len() - 1)
            } else {
                None
            },
        }
    }
}

/// The first of `gavs` for a version with key `k` of artifact `a` of group `g`.
pub open spec fn first_for_version(gavs: Seq<Gav>, g: Seq<char>, a: Seq<char>, k: VersionKey) -> Option<int>
    decreases gavs.len(),
{
    if gavs.len() == 0 {
        None
    } else {
        match first_for_version(gavs.drop_last(), g, a, k) {
            Some(i) => Some(i),
            None => if gavs.last().group.id@ == g && gavs.last().artifact.id@ == a && gavs.last().version@ == k {
                Some(gavs.len() - 1)
            } else {
                None
            },
        }
    }
}

proof fn lemma_first(gavs: Seq<Gav>, g: Seq<char>, a: Seq<char>, k: VersionKey)
    ensures
        first_in_group(gavs, g) matches Some(i) ==> 0 <= i < gavs.len() && gavs[i].group.id@ == g,
        first_in_group(gavs, g) is None <==> !exists|i: int| 0 <= i < gavs.len() && #[trigger] gavs[i].group.id@ == g,
        first_for_artifact(gavs, g, a) matches Some(i) ==> 0 <= i < gavs.len() && gavs[i].group.id@ == g
            && gavs[i].artifact.id@ == a,
        first_for_artifact(gavs, g, a) is None <==> !exists|i: int|
            0 <= i < gavs.len() && #[trigger] gavs[i].group.id@ == g && gavs[i].artifact.id@ == a,
        first_for_version(gavs, g, a, k) matches Some(i) ==> 0 <= i < gavs.len() && gavs[i].group.id@ == g
            && gavs[i].artifact.id@ == a && gavs[i].version@ == k,
        first_for_version(gavs, g, a, k) is None <==> !exists|i: int|
            0 <= i < gavs.len() && #[trigger] gavs[i].group.id@ == g && gavs[i].artifact.id@ == a
                && gavs[i].version@ == k,
    decreases gavs.len(),
{
    if gavs.len() > 0 {
        let d = gavs.drop_last();
        lemma_first(d, g, a, k);
        let n = gavs.len() - 1;
        assert forall|i: int| 0 <= i < n implies #[trigger] d[i] == gavs[i] by {}
        if exists|i: int| 0 <= i < gavs.len() && #[trigger] gavs[i].group.id@ == g {
            let i = choose|i: int| 0 <= i < gavs.len() && #[trigger] gavs[i].group.id@ == g;
            if i < n {
                assert(d[i].group.id@ == g);
            }
        }
        if exists|i: int| 0 <= i < gavs.len() && #[trigger] gavs[i].group.id@ == g && gavs[i].artifact.id@ == a {
            let i = choose|i: int| 0 <= i < gavs.len() && #[trigger] gavs[i].group.id@ == g && gavs[i].artifact.id@ == a;
            if i < n {
                assert(d[i].group.id@ == g && d[i].artifact.id@ == a);
            }
        }
        if exists|i: int| 0 <= i < gavs.len() && #[trigger] gavs[i].group.id@ == g && gavs[i].artifact.id@ == a && gavs[i].version@ == k {
            let i = choose|i: int| 0 <= i < gavs.len() && #[trigger] gavs[i].group.id@ == g && gavs[i].artifact.id@ == a && gavs[i].version@ == k;
            if i < n {
                assert(d[i].group.id@ == g && d[i].artifact.id@ == a && d[i].version@ == k);
            }
        }
        if exists|i: int| 0 <= i < d.len() && #[trigger] d[i].group.id@ == g {
            let i = choose|i: int| 0 <= i < d.len() && #[trigger] d[i].group.id@ == g;
            assert(gavs[i].group.id@ == g);
        }
        if exists|i: int| 0 <= i < d.len() && #[trigger] d[i].group.id@ == g && d[i].artifact.id@ == a {
            let i = choose|i: int| 0 <= i < d.len() && #[trigger] d[i].group.id@ == g && d[i].artifact.id@ == a;
            assert(gavs[i].group.id@ == g && gavs[i].artifact.id@ == a);
        }
        if exists|i: int| 0 <= i < d.len() && #[trigger] d[i].group.id@ == g && d[i].artifact.id@ == a && d[i].version@ == k {
            let i = choose|i: int| 0 <= i < d.len() && #[trigger] d[i].group.id@ == g && d[i].artifact.id@ == a && d[i].version@ == k;
            assert(gavs[i].group.id@ == g && gavs[i].artifact.id@ == a && gavs[i].version@ == k);
        }
    }
}

/// The first instance with the key of `x` holds `x` itself.
pub open spec fn first_version_is(gavs: Seq<Gav>, g: Seq<char>, a: Seq<char>, x: Version) -> bool {
    first_for_version(gavs, g, a, x@) matches Some(i) && gavs[i].version == x
}

/// The first instance in group `g` has its group in `q`.
pub open spec fn first_group_path_is(gavs: Seq<Gav>, g: Seq<char>, q: Seq<char>) -> bool {
    first_in_group(gavs, g) matches Some(i) && gavs[i].group.path@ == q
}

/// The first instance for artifact `a` of group `g` has its artifact in `q`.
pub open spec fn first_artifact_path_is(gavs: Seq<Gav>, g: Seq<char>, a: Seq<char>, q: Seq<char>) -> bool {
    first_for_artifact(gavs, g, a) matches Some(i) && gavs[i].artifact.path@ == q
}

/// The nodes and version values after recording `gavs` into `pre`: what was
/// there stays as it was; a missing group or artifact comes from the first
/// instance that names it, with no bytes; a version comes from the first
/// instance with its key, where none was there.
pub open spec fn values_grew_by_all(pre: Seq<Group>, post: Seq<Group>, gavs: Seq<Gav>) -> bool {
    &&& forall|g: Seq<char>, a: Seq<char>, x: Version|
        holds_entry(post, g, a, x) <==> (holds_entry(pre, g, a, x) || (!has_entry(pre, g, a, x@)
            && first_version_is(gavs, g, a, x)))
    &&& forall|g: Seq<char>, q: Seq<char>, b: u64|
        group_node(post, g, q, b) <==> (group_node(pre, g, q, b) || (!has_group(pre, g) && b == 0
            && first_group_path_is(gavs, g, q)))
    &&& forall|g: Seq<char>, a: Seq<char>, q: Seq<char>, b: u64|
        artifact_entry(post, g, a, q, b) <==> (artifact_entry(pre, g, a, q, b) || (!has_group_artifact(pre, g, a)
            && b == 0 && first_artifact_path_is(gavs, g, a, q)))
}

proof fn lemma_values_step(pre: Seq<Group>, mid: Seq<Group>, post: Seq<Group>, d: Seq<Gav>, x: Gav)
    requires
        tree_grew_by_all(pre, mid, d),
        values_grew_by_all(pre, mid, d),
        values_grew_by(mid, post, x.group.id@, x.group.path@, x.artifact.id@, x.artifact.path@, x.version),
    ensures
        values_grew_by_all(pre, post, d.push(x)),
{
    let e = d.push(x);
    let n = d.len() as int;
    assert(e.drop_last() =~= d);
    assert(e[n] == x);
    assert forall|i: int| 0 <= i < n implies #[trigger] e[i] == d[i] by {}
    assert forall|g: Seq<char>, a: Seq<char>, y: Version|
        holds_entry(post, g, a, y) <==> (holds_entry(pre, g, a, y) || (!has_entry(pre, g, a, y@)
            && first_version_is(e, g, a, y))) by {
        lemma_first(d, g, a, y@);
    }
    assert forall|g: Seq<char>, q: Seq<char>, b: u64|
        group_node(post, g, q, b) <==> (group_node(pre, g, q, b) || (!has_group(pre, g) && b == 0
            && first_group_path_is(e, g, q))) by {
        lemma_first(d, g, g, x.version@);
    }
    assert forall|g: Seq<char>, a: Seq<char>, q: Seq<char>, b: u64|
        artifact_entry(post, g, a, q, b) <==> (artifact_entry(pre, g, a, q, b) || (!has_group_artifact(pre, g, a)
            && b == 0 && first_artifact_path_is(e, g, a, q))) by {
        lemma_first(d, g, a, x.version@);
    }
}

// ------------------------------------------------------ range refinement

/// Artifact `b` is artifact `a` with its versions refined by `range`.
pub open spec fn artifact_refined(a: Artifact, b: Artifact, range: VersionRange, keep: bool) -> bool {
    &&& b.id == a.id
    &&& b.path == a.path
    &&& b.bytes == a.bytes
    &&& forall|x: Version| b.versions@.contains(x) <==> survives(range, keep, a.versions@, x)
}

/// Group `h` is group `g` with the versions of each artifact refined by `range`.
pub open spec fn group_refined(g: Group, h: Group, range: VersionRange, keep: bool) -> bool {
    &&& h.id == g.id
    &&& h.path == g.path
    &&& h.bytes == g.bytes
    &&& h.artifacts@.len() == g.artifacts@.len()
    &&& forall|j: int|
        0 <= j < g.artifacts@.len() ==> artifact_refined(
            #[trigger] g.artifacts@[j],
            h.artifacts@[j],
            range,
            keep,
        )
}

/// The groups `post` are `pre` with the versions of each artifact refined by `range`.
pub open spec fn tree_refined(pre: Seq<Group>, post: Seq<Group>, range: VersionRange, keep: bool) -> bool {
    &&& post.len() == pre.len()
    &&& forall|i: int| 0 <= i < pre.len() ==> group_refined(#[trigger] pre[i], post[i], range, keep)
}

/// Refining the same tree by the same range for `Keep` and for `Remove` (or
/// `Du`) splits the versions of every artifact in two: each version is left in
/// exactly one of the two results.
pub proof fn lemma_refinement_partition(
    pre: Seq<Group>,
    kept: Seq<Group>,
    removed: Seq<Group>,
    range: VersionRange,
    i: int,
    j: int,
    x: Version,
)
    requires
        tree_refined(pre, kept, range, true),
        tree_refined(pre, removed, range, false),
        0 <= i < pre.len(),
        0 <= j < pre[i].artifacts@.len(),
    ensures
        (kept[i].artifacts@[j].versions@.contains(x) || removed[i].artifacts@[j].versions@.contains(x))
            <==> pre[i].artifacts@[j].versions@.contains(x),
        !(kept[i].artifacts@[j].versions@.contains(x) && removed[i].artifacts@[j].versions@.contains(x)),
{
    assert(group_refined(pre[i], kept[i], range, true));
    assert(group_refined(pre[i], removed[i], range, false));
    assert(artifact_refined(pre[i].artifacts@[j], kept[i].artifacts@[j], range, true));
    assert(artifact_refined(pre[i].artifacts@[j], removed[i].artifacts@[j], range, false));
    crate::artifact::lemma_polarity(range, pre[i].artifacts@[j].versions@, x);
}

fn refine_group(g: &mut Group, range: &VersionRange, keep: bool)
    requires
        old(g).wf(),
        !(range is Exact),
    ensures
        final(g).wf(),
        group_refined(*old(g), *final(g), *range, keep),
{
    let ghost pre = g.artifacts@;
    let mut j: usize = 0;
    while j < g.artifacts.len()
        invariant
            g.wf(),
            !(range is Exact),
            g.artifacts@.len() == pre.len(),
            g.id == old(g).id,
            g.path == old(g).path,
            g.bytes == old(g).bytes,
            pre == old(g).artifacts@,
            forall|t: int| 0 <= t < j ==> artifact_refined(#[trigger] pre[t], g.artifacts@[t], *range, keep),
            forall|t: int| j <= t < pre.len() ==> #[trigger] g.artifacts@[t] == pre[t],
        decreases pre.len() - j,
    {
        let ghost before = g.artifacts@;
        refine_versions(&mut g.artifacts[j].versions, range, keep);
        assert(g.artifacts@ == before.update(j as int, g.artifacts@[j as int]));
        j = j + 1;
    }
}

// ------------------------------------------------------ sizes

/// The number of artifacts of all groups.
pub open spec fn artifact_count(gs: Seq<Group>) -> nat
    decreases gs.len(),
{
    if gs.len() == 0 {
        0
    } else {
        artifact_count(gs.drop_last()) + gs.last().artifacts@.len()
    }
}

proof fn lemma_artifact_count(gs: Seq<Group>, i: int)
    requires
        0 <= i <= gs.len(),
    ensures
        artifact_count(gs.take(i)) <= artifact_count(gs),
        i < gs.len() ==> artifact_count(gs.take(i + 1)) == artifact_count(gs.take(i)) + gs[i].artifacts@.len(),
    decreases gs.len() - i,
{
    if i < gs.len() {
        assert(gs.take(i + 1).drop_last() =~= gs.take(i));
        lemma_artifact_count(gs, i + 1);
    } else {
        assert(gs.take(i) =~= gs);
    }
}

/// `s` holds one size for each version of the artifacts `arts`.
pub open spec fn group_shaped(arts: Seq<Artifact>, s: Seq<Vec<u64>>) -> bool {
    &&& s.len() == arts.len()
    &&& forall|j: int| 0 <= j < s.len() ==> (#[trigger] s[j])@.len() == arts[j].versions@.len()
}

/// `s` holds one size for each version in the groups `gs`.
pub open spec fn shaped(gs: Seq<Group>, s: Seq<Vec<Vec<u64>>>) -> bool {
    &&& s.len() == gs.len()
    &&& forall|i: int| 0 <= i < s.len() ==> group_shaped(#[trigger] gs[i].artifacts@, s[i]@)
}

/// The sizes fit the tree, and its totals fit their types.
pub open spec fn sizes_fit(gs: Seq<Group>, s: Seq<Vec<Vec<u64>>>) -> bool {
    &&& shaped(gs, s)
    &&& sum3(s) <= u64::MAX
    &&& count3(s) <= usize::MAX
    &&& artifact_count(gs) <= usize::MAX
}

/// Artifact `b` is `a` with version `k` of size `s[k]`, and the sum of them.
pub open spec fn artifact_sized(a: Artifact, b: Artifact, s: Seq<u64>) -> bool {
    &&& b.id == a.id
    &&& b.path == a.path
    &&& b.versions@.len() == a.versions@.len()
    &&& forall|k: int|
        0 <= k < a.versions@.len() ==> #[trigger] b.versions@[k] == (Version { bytes: s[k], ..a.versions@[k] })
    &&& b.bytes == sum_u64(s)
}

/// Group `h` is `g` with each artifact sized by `s`, and the sum of them.
pub open spec fn group_sized(g: Group, h: Group, s: Seq<Vec<u64>>) -> bool {
    &&& h.id == g.id
    &&& h.path == g.path
    &&& h.artifacts@.len() == g.artifacts@.len()
    &&& forall|j: int|
        0 <= j < g.artifacts@.len() ==> artifact_sized(#[trigger] g.artifacts@[j], h.artifacts@[j], s[j]@)
    &&& h.bytes == sum2(s)
}

/// The groups `post` are `pre` with each group sized by `s`.
pub open spec fn tree_sized(pre: Seq<Group>, post: Seq<Group>, s: Seq<Vec<Vec<u64>>>) -> bool {
    &&& post.len() == pre.len()
    &&& forall|i: int| 0 <= i < pre.len() ==> group_sized(#[trigger] pre[i], post[i], s[i]@)
}

fn size_artifact(a: &mut Artifact, s: &Vec<u64>)
    requires
        old(a).wf(),
        s.len() == old(a).versions.len(),
        sum_u64(s@) <= u64::MAX,
    ensures
        final(a).wf(),
        artifact_sized(*old(a), *final(a), s@),
{
    let ghost pre = a.versions@;
    let mut total: u64 = 0;
    let mut k: usize = 0;
    while k < s.len()
        invariant
            k <= s.len() == pre.len() == a.versions@.len(),
            sum_u64(s@) <= u64::MAX,
            total == sum_u64(s@.take(k as int)),
            a.id == old(a).id,
            a.path == old(a).path,
            pre == old(a).versions@,
            forall|t: int| 0 <= t < k ==> #[trigger] a.versions@[t] == (Version { bytes: s@[t], ..pre[t] }),
            forall|t: int| k <= t < pre.len() ==> #[trigger] a.versions@[t] == pre[t],
        decreases s.len() - k,
    {
        proof {
            lemma_sum_u64(s@, k as int);
            lemma_sum_u64(s@, k + 1);
        }
        let ghost before = a.versions@;
        a.versions[k].bytes = s[k];
        assert(a.versions@ == before.update(k as int, a.versions@[k as int]));
        total = total + s[k];
        k = k + 1;
    }
    assert(s@.take(k as int) =~= s@);
    a.bytes = total;
    assert(versions_sorted(a.versions@)) by {
        assert forall|i: int, j: int| 0 <= i < j < a.versions@.len() implies version_lt(
            #[trigger] a.versions@[i]@,
            #[trigger] a.versions@[j]@,
        ) by {
            assert(a.versions@[i]@ == pre[i]@);
            assert(a.versions@[j]@ == pre[j]@);
        }
    }
}

fn size_group(g: &mut Group, s: &Vec<Vec<u64>>) -> (count: usize)
    requires
        old(g).wf(),
        group_shaped(old(g).artifacts@, s@),
        sum2(s@) <= u64::MAX,
        count2(s@) <= usize::MAX,
    ensures
        final(g).wf(),
        group_sized(*old(g), *final(g), s@),
        count == count2(s@),
{
    let ghost pre = g.artifacts@;
    let mut total: u64 = 0;
    let mut count: usize = 0;
    let mut j: usize = 0;
    while j < s.len()
        invariant
            j <= s.len() == pre.len() == g.artifacts@.len(),
            group_shaped(pre, s@),
            sum2(s@) <= u64::MAX,
            count2(s@) <= usize::MAX,
            total == sum2(s@.take(j as int)),
            count == count2(s@.take(j as int)),
            g.id == old(g).id,
            g.path == old(g).path,
            pre == old(g).artifacts@,
            artifacts_wf(g.artifacts@),
            forall|t: int| 0 <= t < j ==> artifact_sized(#[trigger] pre[t], g.artifacts@[t], s@[t]@),
            forall|t: int| j <= t < pre.len() ==> #[trigger] g.artifacts@[t] == pre[t],
        decreases s.len() - j,
    {
        proof {
            lemma_sum2(s@, j as int);
            lemma_sum2(s@, j + 1);
            assert(s@[j as int]@.len() == pre[j as int].versions@.len());
        }
        let ghost before = g.artifacts@;
        size_artifact(&mut g.artifacts[j], &s[j]);
        assert(g.artifacts@ == before.update(j as int, g.artifacts@[j as int]));
        total = total + g.artifacts[j].bytes;
        count = count + s[j].len();
        j = j + 1;
    }
    assert(s@.take(j as int) =~= s@);
    g.bytes = total;
    count
}

/// Whether `sizes` fits the groups `gs`, and the totals fit their types.
fn check_sizes(gs: &Vec<Group>, sizes: &Vec<Vec<Vec<u64>>>) -> (r: bool)
    ensures
        r == sizes_fit(gs@, sizes@),
{
    if sizes.len() != gs.len() {
        return false;
    }
    let mut i: usize = 0;
    let mut total: u64 = 0;
    let mut count: usize = 0;
    let mut arts: usize = 0;
    let mut ok = true;
    while i < gs.len()
        invariant
            i <= gs.len() == sizes.len(),
            ok ==> forall|t: int| 0 <= t < i ==> group_shaped(#[trigger] gs@[t].artifacts@, sizes@[t]@),
            ok ==> total == sum3(sizes@.take(i as int)),
            ok ==> count == count3(sizes@.take(i as int)),
            ok ==> arts == artifact_count(gs@.take(i as int)),
            !ok ==> !sizes_fit(gs@, sizes@),
        decreases gs.len() - i,
    {
        if ok {
            proof {
                lemma_sum3(sizes@, i as int);
                lemma_sum3(sizes@, i + 1);
                lemma_artifact_count(gs@, i as int);
                lemma_artifact_count(gs@, i + 1);
            }
            let g = &gs[i];
            let s = &sizes[i];
            let mut shaped_here = s.len() == g.artifacts.len();
            let mut j: usize = 0;
            while shaped_here && j < s.len()
                invariant
                    j <= s.len(),
                    shaped_here ==> s@.len() == g.artifacts@.len(),
                    shaped_here ==> forall|t: int| 0 <= t < j ==> (#[trigger] s@[t])@.len() == g.artifacts@[t].versions@.len(),
                    !shaped_here ==> !group_shaped(g.artifacts@, s@),
                decreases s.len() - j,
            {
                if s[j].len() != g.artifacts[j].versions.len() {
                    shaped_here = false;
                }
                j = j + 1;
            }
            if !shaped_here {
                ok = false;
            } else {
                match sum_group_bytes(s) {
                    Some(n) => {
                        let c = count_group(s);
                        if total > u64::MAX - n || c.is_none() || arts > usize::MAX - g.artifacts.len() {
                            ok = false;
                        } else {
                            let c = c.unwrap();
                            if count > usize::MAX - c {
                                ok = false;
                            } else {
                                total = total + n;
                                count = count + c;
                                arts = arts + g.artifacts.len();
                            }
                        }
                    },
                    None => {
                        ok = false;
                    },
                }
            }
        }
        i = i + 1;
    }
    if ok {
        assert(sizes@.take(i as int) =~= sizes@);
        assert(gs@.take(i as int) =~= gs@);
    }
    ok
}

/// The number of sizes in `s`, where it fits in a `usize`.
fn count_group(s: &Vec<Vec<u64>>) -> (r: Option<usize>)
    ensures
        match r {
            Some(n) => n == count2(s@),
            None => count2(s@) > usize::MAX,
        },
{
    let mut count: usize = 0;
    let mut j: usize = 0;
    while j < s.len()
        invariant
            j <= s.len(),
            count == count2(s@.take(j as int)),
        decreases s.len() - j,
    {
        proof {
            lemma_sum2(s@, j as int);
            lemma_sum2(s@, j + 1);
        }
        if count > usize::MAX - s[j].len() {
            return None;
        }
        count = count + s[j].len();
        j = j + 1;
    }
    assert(s@.take(j as int) =~= s@);
    Some(count)
}

/// `post` is `pre` with every node sized by `s`, and the repository's
/// totals set.
pub open spec fn computed(pre: Repository, post: Repository, s: Seq<Vec<Vec<u64>>>) -> bool {
    &&& post.path == pre.path
    &&& tree_sized(pre.groups@, post.groups@, s)
    &&& post.bytes == sum3(s)
    &&& post.versions == count3(s)
    &&& post.artifacts == artifact_count(pre.groups@)
}

proof fn lemma_sized_keeps_shape(pre: Seq<Group>, post: Seq<Group>, s: Seq<Vec<Vec<u64>>>)
    requires
        shaped(pre, s),
        tree_sized(pre, post, s),
    ensures
        shaped(post, s),
        artifact_count(post) == artifact_count(pre),
    decreases pre.len(),
{
    assert forall|i: int| 0 <= i < s.len() implies group_shaped(#[trigger] post[i].artifacts@, s[i]@) by {
        assert(group_sized(pre[i], post[i], s[i]@));
        assert(group_shaped(pre[i].artifacts@, s[i]@));
        assert forall|j: int| 0 <= j < s[i]@.len() implies (#[trigger] s[i]@[j])@.len() == post[i].artifacts@[j].versions@.len() by {
            assert(artifact_sized(pre[i].artifacts@[j], post[i].artifacts@[j], s[i]@[j]@));
        }
    }
    if pre.len() > 0 {
        let n = pre.len() - 1;
        assert(group_sized(pre[n], post[n], s[n]@));
        assert(tree_sized(pre.drop_last(), post.drop_last(), s.drop_last())) by {
            assert forall|i: int| 0 <= i < pre.drop_last().len() implies group_sized(#[trigger] pre.drop_last()[i], post.drop_last()[i], s.drop_last()[i]@) by {
                assert(group_sized(pre[i], post[i], s[i]@));
            }
        }
        assert(shaped(pre.drop_last(), s.drop_last())) by {
            assert forall|i: int| 0 <= i < s.drop_last().len() implies group_shaped(#[trigger] pre.drop_last()[i].artifacts@, s.drop_last()[i]@) by {
                assert(group_shaped(pre[i].artifacts@, s[i]@));
            }
        }
        lemma_sized_keeps_shape(pre.drop_last(), post.drop_last(), s.drop_last());
    }
}

/// Sizing a tree a second time with the same measured sizes succeeds again
/// and yields the same byte totals, node by node, and the same counts.
pub proof fn lemma_compute_idempotent(a: Repository, b: Repository, c: Repository, s: Seq<Vec<Vec<u64>>>)
    requires
        sizes_fit(a.groups@, s),
        computed(a, b, s),
    ensures
        sizes_fit(b.groups@, s),
        computed(b, c, s) ==> {
            &&& c.bytes == b.bytes
            &&& c.versions == b.versions
            &&& c.artifacts == b.artifacts
            &&& forall|i: int| 0 <= i < b.groups@.len() ==> (#[trigger] c.groups@[i]).bytes == b.groups@[i].bytes
            &&& forall|i: int, j: int|
                0 <= i < b.groups@.len() && 0 <= j < b.groups@[i].artifacts@.len()
                    ==> (#[trigger] c.groups@[i].artifacts@[j]).bytes == b.groups@[i].artifacts@[j].bytes
            &&& forall|i: int, j: int, k: int|
                0 <= i < b.groups@.len() && 0 <= j < b.groups@[i].artifacts@.len() && 0 <= k
                    < b.groups@[i].artifacts@[j].versions@.len() ==> (#[trigger] c.groups@[i].artifacts@[j].versions@[k])
                    == b.groups@[i].artifacts@[j].versions@[k]
        },
{
    lemma_sized_keeps_shape(a.groups@, b.groups@, s);
    if computed(b, c, s) {
        assert forall|i: int| 0 <= i < b.groups@.len() implies (#[trigger] c.groups@[i]).bytes == b.groups@[i].bytes by {
            assert(group_sized(a.groups@[i], b.groups@[i], s[i]@));
            assert(group_sized(b.groups@[i], c.groups@[i], s[i]@));
        }
        assert forall|i: int, j: int|
            0 <= i < b.groups@.len() && 0 <= j < b.groups@[i].artifacts@.len()
            implies (#[trigger] c.groups@[i].artifacts@[j]).bytes == b.groups@[i].artifacts@[j].bytes by {
            assert(group_sized(a.groups@[i], b.groups@[i], s[i]@));
            assert(group_sized(b.groups@[i], c.groups@[i], s[i]@));
            assert(artifact_sized(a.groups@[i].artifacts@[j], b.groups@[i].artifacts@[j], s[i]@[j]@));
            assert(artifact_sized(b.groups@[i].artifacts@[j], c.groups@[i].artifacts@[j], s[i]@[j]@));
        }
        assert forall|i: int, j: int, k: int|
            0 <= i < b.groups@.len() && 0 <= j < b.groups@[i].artifacts@.len() && 0 <= k
                < b.groups@[i].artifacts@[j].versions@.len()
            implies (#[trigger] c.groups@[i].artifacts@[j].versions@[k]) == b.groups@[i].artifacts@[j].versions@[k] by {
            assert(group_sized(a.groups@[i], b.groups@[i], s[i]@));
            assert(group_sized(b.groups@[i], c.groups@[i], s[i]@));
            assert(artifact_sized(a.groups@[i].artifacts@[j], b.groups@[i].artifacts@[j], s[i]@[j]@));
            assert(artifact_sized(b.groups@[i].artifacts@[j], c.groups@[i].artifacts@[j], s[i]@[j]@));
        }
    }
}

// ------------------------------------------------------ paths

/// The directories of the versions `vs`, in order.
pub open spec fn version_dirs(vs: Seq<Version>) -> Seq<Seq<char>>
    decreases vs.len(),
{
    if vs.len() == 0 {
        seq![]
    } else {
        version_dirs(vs.drop_last()).push(vs.last().path@)
    }
}

/// The directories of the versions of an artifact, then, `with_dirs`, the
/// artifact's own.
pub open spec fn artifact_dirs(a: Artifact, with_dirs: bool) -> Seq<Seq<char>> {
    if with_dirs {
        version_dirs(a.versions@).push(a.path@)
    } else {
        version_dirs(a.versions@)
    }
}

pub open spec fn group_dirs(arts: Seq<Artifact>, with_dirs: bool) -> Seq<Seq<char>>
    decreases arts.len(),
{
    if arts.len() == 0 {
        seq![]
    } else {
        group_dirs(arts.drop_last(), with_dirs) + artifact_dirs(arts.last(), with_dirs)
    }
}

/// The directories of all versions, in tree order; `with_dirs`, each
/// artifact's directory follows its versions' and each group's directory its
/// artifacts'.
pub open spec fn tree_dirs(gs: Seq<Group>, with_dirs: bool) -> Seq<Seq<char>>
    decreases gs.len(),
{
    if gs.len() == 0 {
        seq![]
    } else {
        let inner = tree_dirs(gs.drop_last(), with_dirs) + group_dirs(gs.last().artifacts@, with_dirs);
        if with_dirs {
            inner.push(gs.last().path@)
        } else {
            inner
        }
    }
}

fn push_artifact_dirs(out: &mut Vec<String>, a: &Artifact, with_dirs: bool)
    ensures
        views(final(out)@) == views(old(out)@) + artifact_dirs(*a, with_dirs),
{
    let ghost start = views(out@);
    let mut k: usize = 0;
    while k < a.versions.len()
        invariant
            k <= a.versions.len(),
            views(out@) == start + version_dirs(a.versions@.take(k as int)),
        decreases a.versions.len() - k,
    {
        assert(a.versions@.take(k + 1).drop_last() =~= a.versions@.take(k as int));
        assert(a.versions@.take(k + 1).last() == a.versions@[k as int]);
        let ghost prev = out@;
        out.push(a.versions[k].path.clone());
        assert(views(out@) =~= views(prev).push(a.versions@[k as int].path@));
        assert(views(out@) =~= start + version_dirs(a.versions@.take(k + 1)));
        k = k + 1;
    }
    assert(a.versions@.take(k as int) =~= a.versions@);
    if with_dirs {
        let ghost prev = out@;
        out.push(a.path.clone());
        assert(views(out@) =~= views(prev).push(a.path@));
        assert(views(out@) =~= start + artifact_dirs(*a, with_dirs));
    }
}

fn push_group_dirs(out: &mut Vec<String>, g: &Group, with_dirs: bool)
    ensures
        views(final(out)@) == views(old(out)@) + group_dirs(g.artifacts@, with_dirs) + (if with_dirs {
            seq![g.path@]
        } else {
            seq![]
        }),
{
    let ghost start = views(out@);
    let mut j: usize = 0;
    while j < g.artifacts.len()
        invariant
            j <= g.artifacts.len(),
            views(out@) == start + group_dirs(g.artifacts@.take(j as int), with_dirs),
        decreases g.artifacts.len() - j,
    {
        assert(g.artifacts@.take(j + 1).drop_last() =~= g.artifacts@.take(j as int));
        push_artifact_dirs(out, &g.artifacts[j], with_dirs);
        assert(views(out@) =~= start + group_dirs(g.artifacts@.take(j + 1), with_dirs));
        j = j + 1;
    }
    assert(g.artifacts@.take(j as int) =~= g.artifacts@);
    if with_dirs {
        let ghost prev = out@;
        out.push(g.path.clone());
        assert(views(out@) =~= views(prev).push(g.path@));
    }
    assert(views(out@) =~= start + group_dirs(g.artifacts@, with_dirs) + (if with_dirs {
        seq![g.path@]
    } else {
        seq![]
    }));
}

fn tree_dir_list(gs: &Vec<Group>, with_dirs: bool) -> (r: Vec<String>)
    ensures
        views(r@) == tree_dirs(gs@, with_dirs),
{
    let mut out: Vec<String> = Vec::new();
    let mut i: usize = 0;
    assert(views(out@) =~= tree_dirs(gs@.take(0), with_dirs));
    while i < gs.len()
        invariant
            i <= gs.len(),
            views(out@) == tree_dirs(gs@.take(i as int), with_dirs),
        decreases gs.len() - i,
    {
        assert(gs@.take(i + 1).drop_last() =~= gs@.take(i as int));
        push_group_dirs(&mut out, &gs[i], with_dirs);
        assert(views(out@) =~= tree_dirs(gs@.take(i + 1), with_dirs));
        i = i + 1;
    }
    assert(gs@.take(i as int) =~= gs@);
    out
}

// ------------------------------------------------------ repository

/// The package instance found in the directories `comps[..n-1]` below the
/// root `root` (the last component names the descriptor): group
/// `comps[..n-3]`, artifact `comps[n-3]`, version directory `comps[n-2]`.
pub open spec fn gav_at(root: Seq<char>, comps: Seq<Seq<char>>, g: Gav) -> bool {
    let n = comps.len() as int;
    &&& g.group.id@ == join(comps.subrange(0, n - 3), seq!['.'])
    &&& g.group.path@ == join_onto(root, comps.subrange(0, n - 3), seq!['/'])
    &&& g.group.artifacts@.len() == 0
    &&& g.group.bytes == 0
    &&& g.artifact.id@ == comps[n - 3]
    &&& g.artifact.path@ == join_onto(root, comps.subrange(0, n - 2), seq!['/'])
    &&& g.artifact.versions@.len() == 0
    &&& g.artifact.bytes == 0
    &&& g.version.path@ == join_onto(root, comps.subrange(0, n - 1), seq!['/'])
    &&& g.version.bytes == 0
}

/// The repository: its root directory, its groups in ascending order of
/// identifier, and the counts and byte total of what they hold.
#[derive(Debug)]
pub struct Repository {
    pub path: String,
    pub groups: Vec<Group>,
    pub artifacts: usize,
    pub versions: usize,
    pub bytes: u64,
}

impl Repository {
    pub open spec fn wf(&self) -> bool {
        groups_wf(self.groups@)
    }

    /// An empty repository rooted at `path`.
    pub fn new(path: &str) -> (r: Repository)
        ensures
            r.path@ == path@,
            r.groups@.len() == 0,
            r.artifacts == 0,
            r.versions == 0,
            r.bytes == 0,
            r.wf(),
    {
        Repository { path: path.to_owned(), groups: Vec::new(), artifacts: 0, versions: 0, bytes: 0 }
    }

    /// The package instance of the descriptor whose path below the root has
    /// the components `rel`.
    pub fn gav(&self, rel: &Vec<String>) -> (r: Result<Gav, GavError>)
        ensures
            rel.len() < 3 ==> r matches Err(GavError::TooShallow),
            rel.len() >= 3 ==> match parse_version(rel@[rel.len() - 2]@) {
                None => r matches Err(GavError::Version(VersionError::Invalid(e))) && e@ == rel@[rel.len() - 2]@,
                Some(k) => r matches Ok(g) && g.version@ == k && gav_at(self.path@, views(rel@), g),
            },
    {
        let n = rel.len();
        if n < 3 {
            return Err(GavError::TooShallow);
        }
        let slash = "/";
        let dot = ".";
        proof {
            reveal_strlit("/");
            reveal_strlit(".");
            assert(slash@ =~= seq!['/']);
            assert(dot@ =~= seq!['.']);
        }
        let mut version = match Version::from_str(rel[n - 2].as_str()) {
            Ok(v) => v,
            Err(e) => {
                return Err(GavError::Version(e));
            },
        };
        version.path = join_path(self.path.as_str(), rel, 0, n - 1, slash);
        let artifact_path = join_path(self.path.as_str(), rel, 0, n - 2, slash);
        let artifact = Artifact::new(rel[n - 3].as_str(), artifact_path.as_str());
        let group_path = join_path(self.path.as_str(), rel, 0, n - 3, slash);
        let group_id = join_components(rel, 0, n - 3, dot);
        let group = Group::new(group_id.as_str(), group_path.as_str());
        Ok(Gav { group, artifact, version })
    }

    /// Refines the versions of every artifact by `range`: for `Keep` the
    /// selected versions leave the tree, otherwise only they stay. An exact
    /// version changes nothing here.
    pub fn remove_version_range(&mut self, range: &VersionRange, command: &Command)
        requires
            old(self).wf(),
        ensures
            final(self).wf(),
            final(self).path == old(self).path,
            final(self).artifacts == old(self).artifacts,
            final(self).versions == old(self).versions,
            final(self).bytes == old(self).bytes,
            range is Exact ==> final(self).groups@ == old(self).groups@,
            !(range is Exact) ==> tree_refined(old(self).groups@, final(self).groups@, *range, command.keeps()),
    {
        if let VersionRange::Exact(_) = range {
            return;
        }
        let keep = command.is_keep();
        let ghost pre = self.groups@;
        let mut i: usize = 0;
        while i < self.groups.len()
            invariant
                groups_wf(self.groups@),
                !(range is Exact),
                keep == command.keeps(),
                self.path == old(self).path,
                self.artifacts == old(self).artifacts,
                self.versions == old(self).versions,
                self.bytes == old(self).bytes,
                self.groups@.len() == pre.len(),
                pre == old(self).groups@,
                forall|t: int| 0 <= t < i ==> group_refined(#[trigger] pre[t], self.groups@[t], *range, keep),
                forall|t: int| i <= t < pre.len() ==> #[trigger] self.groups@[t] == pre[t],
            decreases pre.len() - i,
        {
            let ghost before = self.groups@;
            refine_group(&mut self.groups[i], range, keep);
            assert(self.groups@ == before.update(i as int, self.groups@[i as int]));
            i = i + 1;
        }
    }

    /// Sets the bytes of every version to its measured size `sizes[g][a][v]`,
    /// of every artifact, group and the repository to the sum of what they
    /// hold, and the counts of artifacts and versions. Returns `false`, and
    /// changes nothing, where `sizes` does not fit the tree or a total does
    /// not fit its type.
    pub fn compute(&mut self, sizes: &Vec<Vec<Vec<u64>>>) -> (r: bool)
        requires
            old(self).wf(),
        ensures
            final(self).wf(),
            r == sizes_fit(old(self).groups@, sizes@),
            !r ==> *final(self) == *old(self),
            r ==> computed(*old(self), *final(self), sizes@),
    {
        if !check_sizes(&self.groups, sizes) {
            return false;
        }
        let ghost pre = self.groups@;
        let mut total: u64 = 0;
        let mut versions: usize = 0;
        let mut artifacts: usize = 0;
        let mut i: usize = 0;
        while i < sizes.len()
            invariant
                i <= sizes.len() == pre.len() == self.groups@.len(),
                sizes_fit(pre, sizes@),
                total == sum3(sizes@.take(i as int)),
                versions == count3(sizes@.take(i as int)),
                artifacts == artifact_count(pre.take(i as int)),
                pre == old(self).groups@,
                self.path == old(self).path,
                groups_wf(self.groups@),
                forall|t: int| 0 <= t < i ==> group_sized(#[trigger] pre[t], self.groups@[t], sizes@[t]@),
                forall|t: int| i <= t < pre.len() ==> #[trigger] self.groups@[t] == pre[t],
            decreases sizes.len() - i,
        {
            proof {
                lemma_sum3(sizes@, i as int);
                lemma_sum3(sizes@, i + 1);
                lemma_artifact_count(pre, i as int);
                lemma_artifact_count(pre, i + 1);
                lemma_sum3(sizes@, sizes@.len() as int);
                assert(group_shaped(pre[i as int].artifacts@, sizes@[i as int]@));
            }
            let ghost before = self.groups@;
            let n_arts = self.groups[i].artifacts.len();
            let c = size_group(&mut self.groups[i], &sizes[i]);
            assert(self.groups@ == before.update(i as int, self.groups@[i as int]));
            total = total + self.groups[i].bytes;
            versions = versions + c;
            artifacts = artifacts + n_arts;
            i = i + 1;
        }
        assert(sizes@.take(i as int) =~= sizes@);
        assert(pre.take(i as int) =~= pre);
        self.bytes = total;
        self.versions = versions;
        self.artifacts = artifacts;
        true
    }

    /// The directories of all versions in the tree, in order: what a removal
    /// deletes, and what a listing prints.
    pub fn version_paths(&self) -> (r: Vec<String>)
        ensures
            views(r@) == tree_dirs(self.groups@, false),
    {
        tree_dir_list(&self.groups, false)
    }

    /// The directories to try to remove, where empty, after a removal: each
    /// version's, then its artifact's, then its group's.
    pub fn prune_paths(&self) -> (r: Vec<String>)
        ensures
            views(r@) == tree_dirs(self.groups@, true),
    {
        tree_dir_list(&self.groups, true)
    }

    /// Whether the repository holds no group.
    pub fn is_empty(&self) -> (r: bool)
        ensures
            r == (self.groups@.len() == 0),
    {
        self.groups.len() == 0
    }

    /// Records the package instances `gavs`: groups and artifacts are added
    /// where they are missing, and each version once. What was there stays as
    /// it was; among instances naming the same group, artifact or version,
    /// the first one wins.
    pub fn add_all(&mut self, gavs: Vec<Gav>)
        requires
            old(self).wf(),
        ensures
            final(self).wf(),
            tree_grew_by_all(old(self).groups@, final(self).groups@, gavs@),
            values_grew_by_all(old(self).groups@, final(self).groups@, gavs@),
            final(self).path == old(self).path,
            final(self).artifacts == old(self).artifacts,
            final(self).versions == old(self).versions,
            final(self).bytes == old(self).bytes,
    {
        let ghost pre = self.groups@;
        let ghost all = gavs@;
        let mut i: usize = 0;
        let mut gavs = gavs;
        let n = gavs.len();
        let mut rest: Vec<Gav> = Vec::new();
        while gavs.len() > 0
            invariant
                groups_wf(self.groups@),
                self.groups@ == pre,
                self.path == old(self).path,
                self.artifacts == old(self).artifacts,
                self.versions == old(self).versions,
                self.bytes == old(self).bytes,
                n == all.len(),
                gavs.len() <= n,
                gavs@ == all.subrange(0, gavs@.len() as int),
                rest.len() + gavs.len() == n,
                forall|j: int| 0 <= j < rest.len() ==> #[trigger] rest@[j] == all[n - 1 - j],
            decreases gavs.len(),
        {
            let g = gavs.pop().unwrap();
            rest.push(g);
        }
        proof {
            assert(tree_grew_by_all(pre, self.groups@, Seq::<Gav>::empty()));
            assert(values_grew_by_all(pre, self.groups@, Seq::<Gav>::empty()));
        }
        while i < n
            invariant
                groups_wf(self.groups@),
                tree_grew_by_all(pre, self.groups@, all.subrange(0, i as int)),
                values_grew_by_all(pre, self.groups@, all.subrange(0, i as int)),
                rest.len() + i == n,
                n == all.len(),
                forall|j: int| 0 <= j < rest.len() ==> #[trigger] rest@[j] == all[n - 1 - j],
                self.path == old(self).path,
                self.artifacts == old(self).artifacts,
                self.versions == old(self).versions,
                self.bytes == old(self).bytes,
            decreases n - i,
        {
            let gav = rest.pop().unwrap();
            let ghost mid = self.groups@;
            let Gav { group, artifact, version } = gav;
            add_entry(&mut self.groups, group.id.as_str(), group.path.as_str(), artifact.id.as_str(), artifact.path.as_str(), version);
            proof {
                lemma_values_step(pre, mid, self.groups@, all.subrange(0, i as int), all[i as int]);
                lemma_grew_step(pre, mid, self.groups@, all.subrange(0, i as int), all[i as int]);
                assert(all.subrange(0, i as int).push(all[i as int]) =~= all.subrange(0, i + 1));
            }
            i = i + 1;
        }
        assert(all.subrange(0, n as int) =~= all);
    }
}

} // verus!
