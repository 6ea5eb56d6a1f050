//! Groups: a dotted identifier, a directory, and the artifacts found in it;
//! and the filter that scopes a run to a group.

use core::cmp::Ordering;
use vstd::prelude::*;

use crate::artifact::{add_version, has_version, Artifact};
use crate::path::{components, split_components, views};
use crate::text::{chars_of, chars_lt, compare_text, lemma_chars_lt_irreflexive, lemma_chars_lt_transitive};
use crate::version::{Version, VersionKey};

verus! {

/// A group. Its artifacts are kept in ascending order of identifier, each
/// identifier at most once.
#[derive(Debug)]
pub struct Group {
    pub id: String,
    pub path: String,
    pub artifacts: Vec<Artifact>,
    pub bytes: u64,
}

pub open spec fn artifacts_wf(arts: Seq<Artifact>) -> bool {
    &&& forall|i: int, j: int|
        0 <= i < j < arts.len() ==> chars_lt(#[trigger] arts[i].id@, #[trigger] arts[j].id@)
    &&& forall|i: int| 0 <= i < arts.len() ==> (#[trigger] arts[i]).wf()
}

/// Some artifact in `arts` has the identifier `a`.
pub open spec fn has_artifact(arts: Seq<Artifact>, a: Seq<char>) -> bool {
    exists|j: int| 0 <= j < arts.len() && #[trigger] arts[j].id@ == a
}

/// Some artifact in `arts` has the identifier `a` and a version with key `k`.
pub open spec fn has_artifact_version(arts: Seq<Artifact>, a: Seq<char>, k: VersionKey) -> bool {
    exists|j: int| 0 <= j < arts.len() && #[trigger] arts[j].id@ == a && has_version(arts[j].versions@, k)
}

/// Some artifact in `arts` has the identifier `a` and holds the version `x`.
pub open spec fn holds_version(arts: Seq<Artifact>, a: Seq<char>, x: Version) -> bool {
    exists|j: int| 0 <= j < arts.len() && #[trigger] arts[j].id@ == a && arts[j].versions@.contains(x)
}

/// Some artifact in `arts` has the identifier `a`, the directory `path` and
/// the byte count `b`.
pub open spec fn artifact_node(arts: Seq<Artifact>, a: Seq<char>, path: Seq<char>, b: u64) -> bool {
    exists|j: int| 0 <= j < arts.len() && #[trigger] arts[j].id@ == a && arts[j].path@ == path && arts[j].bytes == b
}

impl Group {
    pub open spec fn wf(&self) -> bool {
        artifacts_wf(self.artifacts@)
    }

    /// A group without artifacts.
    pub fn new(id: &str, path: &str) -> (r: Group)
        ensures
            r.id@ == id@,
            r.path@ == path@,
            r.artifacts@.len() == 0,
            r.bytes == 0,
            r.wf(),
    {
        Group { id: id.to_owned(), path: path.to_owned(), artifacts: Vec::new(), bytes: 0 }
    }
}

impl PartialEq for Group {
    /// Groups are equal when their identifiers are.
    fn eq(&self, other: &Group) -> (r: bool) {
        self.id == other.id
    }
}

impl vstd::std_specs::cmp::PartialEqSpecImpl for Group {
    open spec fn obeys_eq_spec() -> bool {
        true
    }

    open spec fn eq_spec(&self, other: &Group) -> bool {
        self.id@ == other.id@
    }
}

impl Eq for Group {

}

/// Where the artifact `id` stands in `arts`: `Ok` with its position, or `Err`
/// with the position it would take.
pub fn find_artifact(arts: &Vec<Artifact>, id: &str) -> (r: Result<usize, usize>)
    requires
        artifacts_wf(arts@),
    ensures
        match r {
            Ok(i) => i < arts.len() && arts@[i as int].id@ == id@,
            Err(p) => p <= arts.len() && (forall|j: int|
                0 <= j < p ==> chars_lt(#[trigger] arts@[j].id@, id@)) && (forall|j: int|
                p <= j < arts.len() ==> chars_lt(id@, #[trigger] arts@[j].id@)),
        },
        r is Err <==> !has_artifact(arts@, id@),
{
    let mut i: usize = 0;
    while i < arts.len()
        invariant
            i <= arts.len(),
            artifacts_wf(arts@),
            forall|j: int| 0 <= j < i ==> chars_lt(#[trigger] arts@[j].id@, id@),
        decreases arts.len() - i,
    {
        match compare_text(arts[i].id.as_str(), id) {
            Ordering::Less => {},
            Ordering::Equal => {
                return Ok(i);
            },
            Ordering::Greater => {
                assert forall|j: int| i <= j < arts.len() implies chars_lt(id@, #[trigger] arts@[j].id@) by {
                    if j > i {
                        lemma_chars_lt_transitive(id@, arts@[i as int].id@, arts@[j].id@);
                    }
                }
                assert forall|j: int| 0 <= j < arts.len() implies arts@[j].id@ != id@ by {
                    lemma_chars_lt_irreflexive(id@);
                }
                return Err(i);
            },
        }
        i = i + 1;
    }
    assert forall|j: int| 0 <= j < arts.len() implies arts@[j].id@ != id@ by {
        lemma_chars_lt_irreflexive(id@);
    }
    Err(i)
}

proof fn lemma_update_membership(pre: Seq<Artifact>, post: Seq<Artifact>, i: int, id: Seq<char>, key: VersionKey)
    requires
        artifacts_wf(pre),
        0 <= i < pre.len(),
        pre[i].id@ == id,
        post == pre.update(i, post[i]),
        post[i].id@ == id,
        forall|k: VersionKey| has_version(post[i].versions@, k) <==> (has_version(pre[i].versions@, k) || k == key),
    ensures
        forall|a: Seq<char>| has_artifact(post, a) <==> (has_artifact(pre, a) || a == id),
        forall|a: Seq<char>, k: VersionKey|
            has_artifact_version(post, a, k) <==> (has_artifact_version(pre, a, k) || (a == id && k == key)),
{
    lemma_chars_lt_irreflexive(id);
    assert forall|a: Seq<char>| has_artifact(post, a) <==> (has_artifact(pre, a) || a == id) by {
        if has_artifact(pre, a) {
            let j = choose|j: int| 0 <= j < pre.len() && #[trigger] pre[j].id@ == a;
            assert(post[j].id@ == a);
        }
        if a == id {
            assert(post[i].id@ == a);
        }
        if has_artifact(post, a) {
            let j = choose|j: int| 0 <= j < post.len() && #[trigger] post[j].id@ == a;
            assert(pre[j].id@ == a);
        }
    }
    assert forall|a: Seq<char>, k: VersionKey|
        has_artifact_version(post, a, k) <==> (has_artifact_version(pre, a, k) || (a == id && k == key)) by {
        lemma_update_one(pre, post, i, id, key, a, k);
    }
}

proof fn lemma_update_one(pre: Seq<Artifact>, post: Seq<Artifact>, i: int, id: Seq<char>, key: VersionKey, a: Seq<char>, k: VersionKey)
    requires
        artifacts_wf(pre),
        0 <= i < pre.len(),
        pre[i].id@ == id,
        post == pre.update(i, post[i]),
        post[i].id@ == id,
        forall|k: VersionKey| has_version(post[i].versions@, k) <==> (has_version(pre[i].versions@, k) || k == key),
    ensures
        has_artifact_version(post, a, k) <==> (has_artifact_version(pre, a, k) || (a == id && k == key)),
{
    lemma_chars_lt_irreflexive(id);
    if has_artifact_version(pre, a, k) {
        let j = choose|j: int| 0 <= j < pre.len() && #[trigger] pre[j].id@ == a && has_version(pre[j].versions@, k);
        assert(post[j].id@ == a && has_version(post[j].versions@, k));
    }
    if a == id && k == key {
        assert(post[i].id@ == a && has_version(post[i].versions@, k));
    }
    if has_artifact_version(post, a, k) {
        let j = choose|j: int| 0 <= j < post.len() && #[trigger] post[j].id@ == a && has_version(post[j].versions@, k);
        if j != i {
            assert(pre[j].id@ == a && has_version(pre[j].versions@, k));
        }
    }
}

proof fn lemma_insert_membership(pre: Seq<Artifact>, post: Seq<Artifact>, p: int, id: Seq<char>, key: VersionKey)
    requires
        0 <= p <= pre.len(),
        post == pre.insert(p, post[p]),
        post[p].id@ == id,
        forall|k: VersionKey| has_version(post[p].versions@, k) <==> k == key,
    ensures
        forall|a: Seq<char>| has_artifact(post, a) <==> (has_artifact(pre, a) || a == id),
        forall|a: Seq<char>, k: VersionKey|
            has_artifact_version(post, a, k) <==> (has_artifact_version(pre, a, k) || (a == id && k == key)),
{
    assert forall|a: Seq<char>| has_artifact(post, a) <==> (has_artifact(pre, a) || a == id) by {
        if has_artifact(post, a) {
            let i = choose|i: int| 0 <= i < post.len() && #[trigger] post[i].id@ == a;
            if i < p {
                assert(pre[i].id@ == a);
            } else if i > p {
                assert(pre[i - 1].id@ == a);
            }
        }
        if has_artifact(pre, a) {
            let i = choose|i: int| 0 <= i < pre.len() && #[trigger] pre[i].id@ == a;
            if i < p {
                assert(post[i].id@ == a);
            } else {
                assert(post[i + 1].id@ == a);
            }
        }
        if a == id {
            assert(post[p].id@ == a);
        }
    }
    assert forall|a: Seq<char>, k: VersionKey|
        has_artifact_version(post, a, k) <==> (has_artifact_version(pre, a, k) || (a == id && k == key)) by {
        lemma_insert_one(pre, post, p, id, key, a, k);
    }
}

proof fn lemma_insert_one(pre: Seq<Artifact>, post: Seq<Artifact>, p: int, id: Seq<char>, key: VersionKey, a: Seq<char>, k: VersionKey)
    requires
        0 <= p <= pre.len(),
        post == pre.insert(p, post[p]),
        post[p].id@ == id,
        forall|k: VersionKey| has_version(post[p].versions@, k) <==> k == key,
    ensures
        has_artifact_version(post, a, k) <==> (has_artifact_version(pre, a, k) || (a == id && k == key)),
{
    if has_artifact_version(post, a, k) {
        let i = choose|i: int| 0 <= i < post.len() && #[trigger] post[i].id@ == a && has_version(post[i].versions@, k);
        if i < p {
            assert(pre[i].id@ == a && has_version(pre[i].versions@, k));
        } else if i > p {
            assert(pre[i - 1].id@ == a && has_version(pre[i - 1].versions@, k));
        }
    }
    if has_artifact_version(pre, a, k) {
        let i = choose|i: int| 0 <= i < pre.len() && #[trigger] pre[i].id@ == a && has_version(pre[i].versions@, k);
        if i < p {
            assert(post[i].id@ == a && has_version(post[i].versions@, k));
        } else {
            assert(post[i + 1].id@ == a && has_version(post[i + 1].versions@, k));
        }
    }
    if a == id && k == key {
        assert(post[p].id@ == a && has_version(post[p].versions@, k));
    }
}

proof fn lemma_update_values(pre: Seq<Artifact>, post: Seq<Artifact>, i: int, id: Seq<char>, path: Seq<char>, v: Version)
    requires
        artifacts_wf(pre),
        0 <= i < pre.len(),
        pre[i].id@ == id,
        post == pre.update(i, post[i]),
        post[i].id == pre[i].id,
        post[i].path == pre[i].path,
        post[i].bytes == pre[i].bytes,
        forall|x: Version|
            post[i].versions@.contains(x) <==> (pre[i].versions@.contains(x) || (x == v && !has_version(pre[i].versions@, v@))),
    ensures
        forall|a: Seq<char>, x: Version|
            holds_version(post, a, x) <==> (holds_version(pre, a, x) || (a == id && x == v && !has_artifact_version(pre, id, v@))),
        forall|a: Seq<char>, q: Seq<char>, b: u64|
            artifact_node(post, a, q, b) <==> (artifact_node(pre, a, q, b) || (a == id && q == path && b == 0 && !has_artifact(pre, id))),
{
    lemma_chars_lt_irreflexive(id);
    assert(has_artifact(pre, id));
    assert forall|j: int| 0 <= j < pre.len() && pre[j].id@ == id implies j == i by {}
    assert forall|a: Seq<char>, x: Version|
        holds_version(post, a, x) <==> (holds_version(pre, a, x) || (a == id && x == v && !has_artifact_version(pre, id, v@))) by {
        if holds_version(post, a, x) {
            let j = choose|j: int| 0 <= j < post.len() && #[trigger] post[j].id@ == a && post[j].versions@.contains(x);
            if j != i || pre[i].versions@.contains(x) {
                assert(pre[j].id@ == a && pre[j].versions@.contains(x));
            } else {
                if has_artifact_version(pre, id, v@) {
                    let t = choose|t: int| 0 <= t < pre.len() && #[trigger] pre[t].id@ == id && has_version(pre[t].versions@, v@);
                    assert(t == i);
                }
            }
        }
        if holds_version(pre, a, x) {
            let j = choose|j: int| 0 <= j < pre.len() && #[trigger] pre[j].id@ == a && pre[j].versions@.contains(x);
            assert(post[j].id@ == a && post[j].versions@.contains(x));
        }
        if a == id && x == v && !has_artifact_version(pre, id, v@) {
            assert(!has_version(pre[i].versions@, v@));
            assert(post[i].id@ == a && post[i].versions@.contains(x));
        }
    }
    assert forall|a: Seq<char>, q: Seq<char>, b: u64|
        artifact_node(post, a, q, b) <==> artifact_node(pre, a, q, b) by {
        if artifact_node(post, a, q, b) {
            let j = choose|j: int| 0 <= j < post.len() && #[trigger] post[j].id@ == a && post[j].path@ == q && post[j].bytes == b;
            assert(pre[j].id@ == a && pre[j].path@ == q && pre[j].bytes == b);
        }
        if artifact_node(pre, a, q, b) {
            let j = choose|j: int| 0 <= j < pre.len() && #[trigger] pre[j].id@ == a && pre[j].path@ == q && pre[j].bytes == b;
            assert(post[j].id@ == a && post[j].path@ == q && post[j].bytes == b);
        }
    }
}

proof fn lemma_insert_values(pre: Seq<Artifact>, post: Seq<Artifact>, p: int, id: Seq<char>, path: Seq<char>, v: Version)
    requires
        0 <= p <= pre.len(),
        !has_artifact(pre, id),
        post == pre.insert(p, post[p]),
        post[p].id@ == id,
        post[p].path@ == path,
        post[p].bytes == 0,
        post[p].versions@ == seq![v],
    ensures
        forall|a: Seq<char>, x: Version|
            holds_version(post, a, x) <==> (holds_version(pre, a, x) || (a == id && x == v && !has_artifact_version(pre, id, v@))),
        forall|a: Seq<char>, q: Seq<char>, b: u64|
            artifact_node(post, a, q, b) <==> (artifact_node(pre, a, q, b) || (a == id && q == path && b == 0 && !has_artifact(pre, id))),
{
    assert(!has_artifact_version(pre, id, v@)) by {
        if has_artifact_version(pre, id, v@) {
            let t = choose|t: int| 0 <= t < pre.len() && #[trigger] pre[t].id@ == id && has_version(pre[t].versions@, v@);
            assert(pre[t].id@ == id);
        }
    }
    assert forall|a: Seq<char>, x: Version|
        holds_version(post, a, x) <==> (holds_version(pre, a, x) || (a == id && x == v)) by {
        if holds_version(post, a, x) {
            let j = choose|j: int| 0 <= j < post.len() && #[trigger] post[j].id@ == a && post[j].versions@.contains(x);
            if j < p {
                assert(pre[j].id@ == a && pre[j].versions@.contains(x));
            } else if j > p {
                assert(pre[j - 1].id@ == a && pre[j - 1].versions@.contains(x));
            } else {
                let t = choose|t: int| 0 <= t < post[p].versions@.len() && post[p].versions@[t] == x;
                assert(t == 0);
            }
        }
        if holds_version(pre, a, x) {
            let j = choose|j: int| 0 <= j < pre.len() && #[trigger] pre[j].id@ == a && pre[j].versions@.contains(x);
            if j < p {
                assert(post[j].id@ == a && post[j].versions@.contains(x));
            } else {
                assert(post[j + 1].id@ == a && post[j + 1].versions@.contains(x));
            }
        }
        if a == id && x == v {
            assert(post[p].versions@[0] == x);
            assert(post[p].id@ == a && post[p].versions@.contains(x));
        }
    }
    assert forall|a: Seq<char>, q: Seq<char>, b: u64|
        artifact_node(post, a, q, b) <==> (artifact_node(pre, a, q, b) || (a == id && q == path && b == 0)) by {
        if artifact_node(post, a, q, b) {
            let j = choose|j: int| 0 <= j < post.len() && #[trigger] post[j].id@ == a && post[j].path@ == q && post[j].bytes == b;
            if j < p {
                assert(pre[j].id@ == a && pre[j].path@ == q && pre[j].bytes == b);
            } else if j > p {
                assert(pre[j - 1].id@ == a && pre[j - 1].path@ == q && pre[j - 1].bytes == b);
            }
        }
        if artifact_node(pre, a, q, b) {
            let j = choose|j: int| 0 <= j < pre.len() && #[trigger] pre[j].id@ == a && pre[j].path@ == q && pre[j].bytes == b;
            if j < p {
                assert(post[j].id@ == a && post[j].path@ == q && post[j].bytes == b);
            } else {
                assert(post[j + 1].id@ == a && post[j + 1].path@ == q && post[j + 1].bytes == b);
            }
        }
        if a == id && q == path && b == 0 {
            assert(post[p].id@ == a && post[p].path@ == q && post[p].bytes == b);
        }
    }
}

/// Records version `v` of artifact `id` (found in `path`), adding the artifact
/// where it is missing.
pub fn add_artifact_version(arts: &mut Vec<Artifact>, id: &str, path: &str, v: Version)
    requires
        artifacts_wf(old(arts)@),
    ensures
        artifacts_wf(final(arts)@),
        forall|a: Seq<char>| has_artifact(final(arts)@, a) <==> (has_artifact(old(arts)@, a) || a == id@),
        forall|a: Seq<char>, k: VersionKey|
            has_artifact_version(final(arts)@, a, k) <==> (has_artifact_version(old(arts)@, a, k) || (
            a == id@ && k == v@)),
        forall|a: Seq<char>, x: Version|
            holds_version(final(arts)@, a, x) <==> (holds_version(old(arts)@, a, x) || (a == id@ && x == v
                && !has_artifact_version(old(arts)@, id@, v@))),
        forall|a: Seq<char>, q: Seq<char>, b: u64|
            artifact_node(final(arts)@, a, q, b) <==> (artifact_node(old(arts)@, a, q, b) || (a == id@ && q
                == path@ && b == 0 && !has_artifact(old(arts)@, id@))),
{
    let ghost pre = arts@;
    let ghost key = v@;
    let ghost value = v;
    match find_artifact(arts, id) {
        Ok(i) => {
            add_version(&mut arts[i].versions, v);
            assert(arts@ == pre.update(i as int, arts@[i as int]));
            proof {
                lemma_update_membership(pre, arts@, i as int, id@, key);
                lemma_update_values(pre, arts@, i as int, id@, path@, value);
            }
        },
        Err(p) => {
            let mut versions: Vec<Version> = Vec::new();
            versions.push(v);
            let artifact = Artifact { id: id.to_owned(), path: path.to_owned(), versions, bytes: 0 };
            assert(artifact.versions@[0]@ == key);
            assert(artifact.versions@ =~= seq![value]);
            arts.insert(p, artifact);
            assert forall|i: int, j: int| 0 <= i < j < arts@.len() implies chars_lt(
                #[trigger] arts@[i].id@,
                #[trigger] arts@[j].id@,
            ) by {
                if i < p && j > p {
                    lemma_chars_lt_transitive(arts@[i].id@, id@, arts@[j].id@);
                }
            }
            proof {
                lemma_insert_membership(pre, arts@, p as int, id@, key);
                lemma_insert_values(pre, arts@, p as int, id@, path@, value);
            }
        },
    }
}

// ------------------------------------------------------ group filter

/// Whether the components `a` begin the components `b`.
pub open spec fn is_prefix(a: Seq<Seq<char>>, b: Seq<Seq<char>>) -> bool {
    a.len() <= b.len() && b.subrange(0, a.len() as int) == a
}

/// The directory components below the root of the group `id`: its dotted
/// parts (a `/` also separates).
pub open spec fn group_components(id: Seq<char>) -> Seq<Seq<char>> {
    components(id, seq!['.', '/'], false)
}

/// Scopes a run to a group and its subgroups.
#[derive(Debug)]
pub struct GroupFilter {
    pub group_id: String,
    /// The group's directory, as components below the repository root.
    pub group_path: Vec<String>,
}

impl GroupFilter {
    pub open spec fn wf(&self) -> bool {
        views(self.group_path@) == group_components(self.group_id@)
    }

    /// A filter for the group `group_id`.
    pub fn from(group_id: &str) -> (r: GroupFilter)
        ensures
            r.group_id@ == group_id@,
            r.wf(),
    {
        let seps = vec!['.', '/'];
        assert(seps@ =~= seq!['.', '/']);
        let group_path = split_components(group_id, &seps, false);
        GroupFilter { group_id: group_id.to_owned(), group_path }
    }

    /// Whether the walk enters the directory `entry` (components below the
    /// root): it lies above the group's directory, or is it, or lies inside.
    pub fn subgroup_of(&self, entry: &Vec<String>) -> (r: bool)
        ensures
            r == (is_prefix(views(self.group_path@), views(entry@)) || is_prefix(
                views(entry@),
                views(self.group_path@),
            )),
    {
        components_prefix(&self.group_path, entry) || components_prefix(entry, &self.group_path)
    }

    /// Whether the walk enters the directory `entry`: it lies outside the
    /// group's directory.
    pub fn no_subgroup_of(&self, entry: &Vec<String>) -> (r: bool)
        ensures
            r == !is_prefix(views(self.group_path@), views(entry@)),
    {
        !components_prefix(&self.group_path, entry)
    }

    /// Whether `group_id` starts with the filter's group identifier.
    pub fn match_group_id(&self, group_id: &str) -> (r: bool)
        ensures
            r == (self.group_id@.len() <= group_id@.len() && group_id@.subrange(
                0,
                self.group_id@.len() as int,
            ) == self.group_id@),
    {
        let p = chars_of(self.group_id.as_str());
        let t = chars_of(group_id);
        if p.len() > t.len() {
            return false;
        }
        let mut i: usize = 0;
        while i < p.len()
            invariant
                p@ == self.group_id@,
                t@ == group_id@,
                p.len() <= t.len(),
                i <= p.len(),
                forall|j: int| 0 <= j < i ==> p@[j] == t@[j],
            decreases p.len() - i,
        {
            if p[i] != t[i] {
                assert(t@.subrange(0, p.len() as int)[i as int] != p@[i as int]);
                return false;
            }
            i = i + 1;
        }
        assert(t@.subrange(0, p.len() as int) =~= p@);
        true
    }
}

/// Whether the components `a` begin the components `b`.
fn components_prefix(a: &Vec<String>, b: &Vec<String>) -> (r: bool)
    ensures
        r == is_prefix(views(a@), views(b@)),
{
    if a.len() > b.len() {
        return false;
    }
    let mut i: usize = 0;
    while i < a.len()
        invariant
            a.len() <= b.len(),
            i <= a.len(),
            forall|j: int| 0 <= j < i ==> a@[j]@ == b@[j]@,
        decreases a.len() - i,
    {
        if a[i] != b[i] {
            assert(views(b@).subrange(0, a.len() as int)[i as int] != views(a@)[i as int]);
            return false;
        }
        i = i + 1;
    }
    assert(views(b@).subrange(0, a.len() as int) =~= views(a@));
    true
}

} // verus!
