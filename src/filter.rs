//! The filters of a run, combined into one predicate whose polarity depends on
//! the command.

use bit_vec::BitVec;
use vstd::prelude::*;

use crate::artifact::ArtifactFilter;
use crate::command::Command;
use crate::conditions::{bits_of, conditions_all, conditions_empty, conditions_new, conditions_push};
use crate::glob_match::glob_matches;
use crate::group::{is_prefix, GroupFilter};
use crate::path::views;
use crate::repo::Gav;
use crate::version::{compare_versions, ReleaseType, VersionRange};

verus! {

/// The filters of a run; each one is optional.
#[derive(Debug)]
pub struct Filter {
    pub group_filter: Option<GroupFilter>,
    pub artifact_filter: Option<ArtifactFilter>,
    pub version_range: Option<VersionRange>,
    pub release_type: Option<ReleaseType>,
}

/// The artifact pattern's condition: for `Keep` it selects what does not
/// match (what must go), otherwise what matches.
pub open spec fn artifact_condition(f: ArtifactFilter, gav: Gav, command: Command) -> bool {
    if command.keeps() {
        !glob_matches(f.artifacts@, gav.artifact.id@)
    } else {
        glob_matches(f.artifacts@, gav.artifact.id@)
    }
}

/// The exact version's condition, with the same polarity.
pub open spec fn exact_condition(v: crate::version::Version, gav: Gav, command: Command) -> bool {
    if command.keeps() {
        v@ != gav.version@
    } else {
        v@ == gav.version@
    }
}

/// The release type's condition, with the same polarity.
pub open spec fn release_condition(t: ReleaseType, gav: Gav, command: Command) -> bool {
    match t {
        ReleaseType::Releases => command.keeps() == gav.version.snapshot,
        ReleaseType::Snapshots => command.keeps() != gav.version.snapshot,
    }
}

impl Filter {
    pub open spec fn wf(&self) -> bool {
        &&& (self.group_filter matches Some(g) ==> g.wf())
        &&& (self.artifact_filter matches Some(a) ==> a.wf())
    }

    /// No filter is given.
    pub open spec fn spec_is_empty(&self) -> bool {
        self.group_filter is None && self.artifact_filter is None && self.version_range is None
            && self.release_type is None
    }

    pub fn is_empty(&self) -> (r: bool)
        ensures
            r == self.spec_is_empty(),
    {
        self.group_filter.is_none() && self.artifact_filter.is_none() && self.version_range.is_none()
            && self.release_type.is_none()
    }

    /// Whether `command` may run with these filters: a removal needs one.
    pub fn admits(&self, command: &Command) -> (r: bool)
        ensures
            r == !(command.spec_needs_filter() && self.spec_is_empty()),
    {
        !(command.needs_filter() && self.is_empty())
    }

    /// Only a group is given.
    pub open spec fn groups_only(&self) -> bool {
        self.group_filter is Some && self.artifact_filter is None && self.version_range is None
            && self.release_type is None
    }

    /// The conjunction of the conditions of the filters that are present (an
    /// exact version is one; a range of versions is not); true where there is
    /// none.
    pub open spec fn spec_conjunction(&self, gav: Gav, command: Command) -> bool {
        &&& self.artifact_ok(gav, command)
        &&& self.exact_ok(gav, command)
        &&& self.release_ok(gav, command)
    }

    pub open spec fn artifact_ok(&self, gav: Gav, command: Command) -> bool {
        self.artifact_filter matches Some(f) ==> artifact_condition(f, gav, command)
    }

    pub open spec fn exact_ok(&self, gav: Gav, command: Command) -> bool {
        self.version_range matches Some(VersionRange::Exact(v)) ==> exact_condition(v, gav, command)
    }

    pub open spec fn release_ok(&self, gav: Gav, command: Command) -> bool {
        self.release_type matches Some(t) ==> release_condition(t, gav, command)
    }

    /// Combines the filters' conditions with `&&`.
    pub fn conjunction(&self, gav: &Gav, command: &Command) -> (r: bool)
        requires
            self.wf(),
        ensures
            r == self.spec_conjunction(*gav, *command),
    {
        let keep = command.is_keep();
        let mut conditions: BitVec = conditions_new();
        if let Some(artifact_filter) = &self.artifact_filter {
            let m = artifact_filter.match_artifact_id(gav.artifact.id.as_str());
            conditions_push(&mut conditions, if keep { !m } else { m });
        }
        if let Some(VersionRange::Exact(version)) = &self.version_range {
            let same = matches!(compare_versions(version, &gav.version), core::cmp::Ordering::Equal);
            conditions_push(&mut conditions, if keep { !same } else { same });
        }
        if let Some(release_type) = &self.release_type {
            let b = match release_type {
                ReleaseType::Releases => keep == gav.version.snapshot,
                ReleaseType::Snapshots => keep != gav.version.snapshot,
            };
            conditions_push(&mut conditions, b);
        }
        let r = if conditions_empty(&conditions) {
            true
        } else {
            conditions_all(&conditions)
        };
        proof {
            let bits = bits_of(conditions);
            let na: int = if self.artifact_filter is Some { 1 } else { 0 };
            let ne: int = if self.version_range matches Some(VersionRange::Exact(_)) { 1 } else { 0 };
            if !self.artifact_ok(*gav, *command) {
                assert(!bits[0]);
            } else if !self.exact_ok(*gav, *command) {
                assert(!bits[na]);
            } else if !self.release_ok(*gav, *command) {
                assert(!bits[na + ne]);
            }
        }
        r
    }

    pub open spec fn spec_walk_into(&self, command: Command, entry: Seq<Seq<char>>) -> bool {
        match self.group_filter {
            None => true,
            Some(g) => if self.groups_only() && command.keeps() {
                !is_prefix(views(g.group_path@), entry)
            } else {
                is_prefix(views(g.group_path@), entry) || is_prefix(entry, views(g.group_path@))
            },
        }
    }

    pub open spec fn spec_selects(&self, gav: Gav, command: Command) -> bool {
        match self.group_filter {
            None => self.spec_conjunction(gav, command),
            Some(g) => {
                let in_group = g.group_id@.len() <= gav.group.id@.len() && gav.group.id@.subrange(
                    0,
                    g.group_id@.len() as int,
                ) == g.group_id@;
                if self.groups_only() {
                    command.keeps() || in_group
                } else {
                    in_group && self.spec_conjunction(gav, command)
                }
            },
        }
    }

    /// Whether the walk enters the directory `entry` (components below the
    /// root). With a group filter the walk stays within the group's
    /// ancestors and descendants, except for `Keep` with only a group
    /// given, where it avoids the group's directory.
    pub fn walk_into(&self, command: &Command, entry: &Vec<String>) -> (r: bool)
        ensures
            r == self.spec_walk_into(*command, views(entry@)),
    {
        match &self.group_filter {
            None => true,
            Some(group_filter) => {
                if self.groups_only_exec() && command.is_keep() {
                    group_filter.no_subgroup_of(entry)
                } else {
                    group_filter.subgroup_of(entry)
                }
            },
        }
    }

    fn groups_only_exec(&self) -> (r: bool)
        ensures
            r == self.groups_only(),
    {
        self.group_filter.is_some() && self.artifact_filter.is_none() && self.version_range.is_none()
            && self.release_type.is_none()
    }

    /// Whether the package instance `gav` is collected. Without a group
    /// filter, the conjunction decides. With only a group given, `Keep`
    /// collects everything the walk reaches and the other commands what lies
    /// in groups whose identifier starts with the given one. Otherwise both
    /// must hold.
    pub fn selects(&self, gav: &Gav, command: &Command) -> (r: bool)
        requires
            self.wf(),
        ensures
            r == self.spec_selects(*gav, *command),
    {
        match &self.group_filter {
            None => self.conjunction(gav, command),
            Some(group_filter) => {
                if self.groups_only_exec() {
                    command.is_keep() || group_filter.match_group_id(gav.group.id.as_str())
                } else {
                    group_filter.match_group_id(gav.group.id.as_str()) && self.conjunction(gav, command)
                }
            },
        }
    }
}

/// With no filter at all, a disk-usage run walks every directory and collects
/// every package instance, and deletes nothing.
pub proof fn lemma_empty_filter_du(f: Filter, g: bool, a: bool, v: bool, entry: Seq<Seq<char>>, gav: Gav)
    requires
        f.group_filter is None,
        f.artifact_filter is None,
        f.version_range is None,
        f.release_type is None,
    ensures
        f.spec_walk_into(Command::Du(g, a, v), entry),
        f.spec_selects(gav, Command::Du(g, a, v)),
        !Command::Du(g, a, v).spec_deletes(),
        !Command::Du(g, a, v).spec_lists(),
{
}

} // verus!
