//! The operation a run performs, and what it reports.

use vstd::prelude::*;

use crate::repo::Repository;

verus! {

/// The operation: keep what the filters select and remove the rest, remove
/// what they select, or report disk usage.
#[derive(Clone, Copy, Debug, PartialEq, Eq, Structural)]
pub enum Command {
    /// dry-run, list
    Keep(bool, bool),
    /// dry-run, list
    Remove(bool, bool),
    /// groups, artifacts, versions
    Du(bool, bool, bool),
}

/// What a run reports at its end.
#[derive(Clone, Copy, Debug, PartialEq, Eq, Structural)]
pub enum Summary {
    /// What a removal affected, or would affect in a dry run.
    Removal { dry_run: bool, groups: usize, artifacts: usize, versions: usize, bytes: u64 },
    /// Which levels a disk-usage report breaks out; `hierarchy` where more
    /// than one is, so that they are drawn as a tree.
    Usage { groups: bool, artifacts: bool, versions: bool, hierarchy: bool },
}

impl Command {
    /// The report of a run of this command on `repository`.
    pub fn summary(&self, repository: &Repository) -> (r: Summary)
        ensures
            r == match *self {
                Command::Keep(dry_run, _) | Command::Remove(dry_run, _) => Summary::Removal {
                    dry_run,
                    groups: repository.groups@.len() as usize,
                    artifacts: repository.artifacts,
                    versions: repository.versions,
                    bytes: repository.bytes,
                },
                Command::Du(g, a, v) => Summary::Usage {
                    groups: g,
                    artifacts: a,
                    versions: v,
                    hierarchy: (g as int) + (a as int) + (v as int) > 1,
                },
            },
    {
        match self {
            Command::Keep(dry_run, _) | Command::Remove(dry_run, _) => Summary::Removal {
                dry_run: *dry_run,
                groups: repository.groups.len(),
                artifacts: repository.artifacts,
                versions: repository.versions,
                bytes: repository.bytes,
            },
            Command::Du(g, a, v) => {
                let n: u8 = (if *g { 1u8 } else { 0u8 }) + (if *a { 1u8 } else { 0u8 }) + (if *v {
                    1u8
                } else {
                    0u8
                });
                Summary::Usage { groups: *g, artifacts: *a, versions: *v, hierarchy: n > 1 }
            },
        }
    }

    /// A disk-usage command whose report breaks out groups, artifacts and
    /// versions as `output` names them: `g`, `a` and `v`.
    pub fn du_from_output(output: &str) -> (r: Command)
        ensures
            r == Command::Du(output@.contains('g'), output@.contains('a'), output@.contains('v')),
    {
        let chars = crate::text::chars_of(output);
        Command::Du(contains_char(&chars, 'g'), contains_char(&chars, 'a'), contains_char(&chars, 'v'))
    }

    /// Whether the command removes, and so needs at least one filter.
    pub open spec fn spec_needs_filter(self) -> bool {
        !(self is Du)
    }

    pub fn needs_filter(&self) -> (r: bool)
        ensures
            r == self.spec_needs_filter(),
    {
        match self {
            Command::Du(_, _, _) => false,
            _ => true,
        }
    }

    /// Whether filters select what must survive rather than what the
    /// operation targets.
    pub open spec fn keeps(self) -> bool {
        self is Keep
    }

    pub fn is_keep(&self) -> (r: bool)
        ensures
            r == self.keeps(),
    {
        match self {
            Command::Keep(_, _) => true,
            _ => false,
        }
    }

    /// Whether the run deletes the version directories left in the tree.
    pub open spec fn spec_deletes(self) -> bool {
        match self {
            Command::Keep(dry_run, _) | Command::Remove(dry_run, _) => !dry_run,
            Command::Du(_, _, _) => false,
        }
    }

    pub fn deletes(&self) -> (r: bool)
        ensures
            r == self.spec_deletes(),
    {
        match self {
            Command::Keep(dry_run, _) | Command::Remove(dry_run, _) => !*dry_run,
            Command::Du(_, _, _) => false,
        }
    }

    /// Whether the run prints the path of each version directory it targets.
    pub open spec fn spec_lists(self) -> bool {
        match self {
            Command::Keep(_, list) | Command::Remove(_, list) => list,
            Command::Du(_, _, _) => false,
        }
    }

    pub fn lists(&self) -> (r: bool)
        ensures
            r == self.spec_lists(),
    {
        match self {
            Command::Keep(_, list) | Command::Remove(_, list) => *list,
            Command::Du(_, _, _) => false,
        }
    }
}

fn contains_char(v: &Vec<char>, c: char) -> (r: bool)
    ensures
        r == v@.contains(c),
{
    let mut i: usize = 0;
    while i < v.len()
        invariant
            i <= v.len(),
            forall|j: int| 0 <= j < i ==> v@[j] != c,
        decreases v.len() - i,
    {
        if v[i] == c {
            assert(v@[i as int] == c);
            return true;
        }
        i = i + 1;
    }
    false
}

} // verus!
