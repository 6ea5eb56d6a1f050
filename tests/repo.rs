use mcup::artifact::{ArtifactFilter, Artifact};
use mcup::command::{Command, Summary};
use mcup::filter::Filter;
use mcup::glob_match::match_pattern;
use mcup::group::{Group, GroupFilter};
use mcup::path::split_components;
use mcup::repo::{Gav, GavError, Repository};
use mcup::sizes::sum_bytes;
use mcup::text::compare_text;
use mcup::version::{ReleaseType, Version, VersionRange};

fn comps(path: &str) -> Vec<String> {
    path.split('/').filter(|s| !s.is_empty()).map(String::from).collect()
}

fn no_filter() -> Filter {
    Filter { group_filter: None, artifact_filter: None, version_range: None, release_type: None }
}

/// Collects the descriptors at `paths` (below the root) the way a walk would:
/// every directory on the way must be entered, and the instance selected.
fn collect(repo: &Repository, filter: &Filter, command: &Command, paths: &[&str]) -> Vec<Gav> {
    let mut gavs = Vec::new();
    for p in paths {
        let rel = comps(p);
        let entered = (1..=rel.len()).all(|k| filter.walk_into(command, &rel[..k].to_vec()));
        if !entered {
            continue;
        }
        if let Ok(gav) = repo.gav(&rel) {
            if filter.selects(&gav, command) {
                gavs.push(gav);
            }
        }
    }
    gavs
}

fn run(filter: &Filter, command: &Command, paths: &[&str]) -> Repository {
    let mut repo = Repository::new("/r");
    let gavs = collect(&repo, filter, command, paths);
    repo.add_all(gavs);
    if let Some(range) = &filter.version_range {
        repo.remove_version_range(range, command);
    }
    repo
}

const TREE: [&str; 3] = [
    "com/a/x/1.0/x-1.0.pom",
    "com/a/x/2.0/x-2.0.pom",
    "com/b/y/1.0-SNAPSHOT/y-1.0-SNAPSHOT.pom",
];

fn shape_sizes(repo: &Repository, per_version: u64) -> Vec<Vec<Vec<u64>>> {
    repo.groups
        .iter()
        .map(|g| g.artifacts.iter().map(|a| a.versions.iter().map(|_| per_version).collect()).collect())
        .collect()
}

#[test]
fn keep_releases_deletes_only_the_snapshot() {
    let filter = Filter { release_type: Some(ReleaseType::Releases), ..no_filter() };
    let command = Command::Keep(false, false);
    let repo = run(&filter, &command, &TREE);
    assert_eq!(vec!["/r/com/b/y/1.0-SNAPSHOT".to_string()], repo.version_paths());
    assert!(command.deletes());
}

#[test]
fn rm_latest_in_group_and_artifact_deletes_newest() {
    let filter = Filter {
        group_filter: Some(GroupFilter::from("com.a")),
        artifact_filter: Some(ArtifactFilter::from("x").unwrap()),
        version_range: Some(VersionRange::parse("1..").unwrap()),
        release_type: None,
    };
    let command = Command::Remove(false, false);
    let repo = run(&filter, &command, &TREE);
    assert_eq!(vec!["/r/com/a/x/2.0".to_string()], repo.version_paths());
}

#[test]
fn empty_filter_du_sizes_everything_and_deletes_nothing() {
    let filter = no_filter();
    let command = Command::Du(true, true, false);
    let mut repo = run(&filter, &command, &TREE);
    assert_eq!(3, repo.version_paths().len());
    let sizes = vec![vec![vec![10, 20]], vec![vec![5]]];
    assert!(repo.compute(&sizes));
    assert_eq!(35, repo.bytes);
    assert_eq!(2, repo.artifacts);
    assert_eq!(3, repo.versions);
    assert_eq!(30, repo.groups[0].bytes);
    assert_eq!(30, repo.groups[0].artifacts[0].bytes);
    assert_eq!(20, repo.groups[0].artifacts[0].versions[1].bytes);
    assert_eq!(5, repo.groups[1].bytes);
    assert!(!command.deletes());
    assert!(!command.lists());
    assert_eq!(
        Summary::Usage { groups: true, artifacts: true, versions: false, hierarchy: true },
        command.summary(&repo)
    );
}

#[test]
fn du_twice_gives_same_totals() {
    let mut repo = run(&no_filter(), &Command::Du(false, false, false), &TREE);
    let sizes = shape_sizes(&repo, 7);
    assert!(repo.compute(&sizes));
    let first: Vec<u64> = repo.groups.iter().map(|g| g.bytes).collect();
    let total = repo.bytes;
    assert!(repo.compute(&sizes));
    let second: Vec<u64> = repo.groups.iter().map(|g| g.bytes).collect();
    assert_eq!(first, second);
    assert_eq!(total, repo.bytes);
    assert_eq!(21, repo.bytes);
}

#[test]
fn compute_refuses_sizes_of_the_wrong_shape_or_overflow() {
    let mut repo = run(&no_filter(), &Command::Du(false, false, false), &TREE);
    assert!(!repo.compute(&vec![vec![vec![1, 2]]]));
    assert_eq!(0, repo.bytes);
    assert!(!repo.compute(&vec![vec![vec![u64::MAX, 1]], vec![vec![0]]]));
    assert_eq!(0, repo.bytes);
    assert!(repo.compute(&vec![vec![vec![u64::MAX - 1, 1]], vec![vec![0]]]));
    assert_eq!(u64::MAX, repo.bytes);
}

#[test]
fn keep_and_remove_partition_a_range() {
    let paths = [
        "g/a/1/a.pom",
        "g/a/2/a.pom",
        "g/a/3/a.pom",
        "g/a/4/a.pom",
    ];
    for range in ["1..", "3..", "5..", "..1", "..2", "..9"] {
        let keep = Filter { version_range: Some(VersionRange::parse(range).unwrap()), ..no_filter() };
        let rm = Filter { version_range: Some(VersionRange::parse(range).unwrap()), ..no_filter() };
        let k = run(&keep, &Command::Keep(true, false), &paths).version_paths();
        let r = run(&rm, &Command::Remove(true, false), &paths).version_paths();
        assert_eq!(4, k.len() + r.len(), "{range}");
        for p in &k {
            assert!(!r.contains(p), "{range}");
        }
    }
    let latest = Filter { version_range: Some(VersionRange::parse("1..").unwrap()), ..no_filter() };
    let k = run(&latest, &Command::Keep(true, false), &paths).version_paths();
    assert_eq!(vec!["/r/g/a/1", "/r/g/a/2", "/r/g/a/3"], k);
    let oldest = Filter { version_range: Some(VersionRange::parse("..1").unwrap()), ..no_filter() };
    let r = run(&oldest, &Command::Remove(true, false), &paths).version_paths();
    assert_eq!(vec!["/r/g/a/1"], r);
}

#[test]
fn exact_version_filter_has_polarity() {
    let exact = || Filter { version_range: Some(VersionRange::parse("2.0").unwrap()), ..no_filter() };
    let r = run(&exact(), &Command::Remove(false, true), &TREE).version_paths();
    assert_eq!(vec!["/r/com/a/x/2.0"], r);
    let k = run(&exact(), &Command::Keep(false, true), &TREE).version_paths();
    assert_eq!(vec!["/r/com/a/x/1.0", "/r/com/b/y/1.0-SNAPSHOT"], k);
}

#[test]
fn artifact_pattern_filter() {
    let paths = ["g/maven-jar-plugin/1/p.pom", "g/maven-core/1/p.pom", "g/other-plugin/1/p.pom"];
    let f = || Filter { artifact_filter: Some(ArtifactFilter::from("maven-*-plugin").unwrap()), ..no_filter() };
    let r = run(&f(), &Command::Remove(true, false), &paths).version_paths();
    assert_eq!(vec!["/r/g/maven-jar-plugin/1"], r);
    let k = run(&f(), &Command::Keep(true, false), &paths).version_paths();
    assert_eq!(vec!["/r/g/maven-core/1", "/r/g/other-plugin/1"], k);
    assert!(ArtifactFilter::from("a[").is_err());
    let af = ArtifactFilter::from("x?z").unwrap();
    assert!(af.match_artifact_id("xyz"));
    assert!(!af.match_artifact_id("x?zz"));
}

#[test]
fn group_filter_scopes_the_walk() {
    let gf = GroupFilter::from("com.example");
    assert_eq!(vec!["com".to_string(), "example".to_string()], gf.group_path);
    assert!(gf.subgroup_of(&comps("com")));
    assert!(gf.subgroup_of(&comps("com/example/sub")));
    assert!(!gf.subgroup_of(&comps("com/example2")));
    assert!(!gf.subgroup_of(&comps("org")));
    assert!(gf.no_subgroup_of(&comps("com/other")));
    assert!(!gf.no_subgroup_of(&comps("com/example/x")));
    assert!(gf.match_group_id("com.example2"));
    assert!(gf.match_group_id("com.example"));
    assert!(!gf.match_group_id("com.exampl"));
}

#[test]
fn keep_with_groups_only_removes_the_rest() {
    let filter = Filter { group_filter: Some(GroupFilter::from("com.a")), ..no_filter() };
    let repo = run(&filter, &Command::Keep(false, false), &TREE);
    assert_eq!(vec!["/r/com/b/y/1.0-SNAPSHOT".to_string()], repo.version_paths());
    let repo = run(&filter, &Command::Remove(false, false), &TREE);
    assert_eq!(vec!["/r/com/a/x/1.0", "/r/com/a/x/2.0"], repo.version_paths());
}

#[test]
fn gav_from_components() {
    let repo = Repository::new("/r");
    let gav = repo.gav(&comps("org/acme/tools/lib/1.2.3/lib-1.2.3.pom")).unwrap();
    assert_eq!("org.acme.tools", gav.group.id);
    assert_eq!("/r/org/acme/tools", gav.group.path);
    assert_eq!("lib", gav.artifact.id);
    assert_eq!("/r/org/acme/tools/lib", gav.artifact.path);
    assert_eq!("/r/org/acme/tools/lib/1.2.3", gav.version.path);
    assert_eq!(Some(3), gav.version.patch);
    let shallow = repo.gav(&comps("lib/1.0/lib.pom")).unwrap();
    assert_eq!("", shallow.group.id);
    assert_eq!("/r", shallow.group.path);
    assert!(matches!(repo.gav(&comps("1.0/lib.pom")), Err(GavError::TooShallow)));
    assert!(matches!(repo.gav(&comps("g/lib/latest/lib.pom")), Err(GavError::Version(_))));
}

#[test]
fn add_all_merges_duplicates_and_orders() {
    let mut repo = Repository::new("/r");
    let paths = ["b/z/2/p.pom", "a/y/1/p.pom", "b/z/1/p.pom", "b/z/2/q.pom", "b/w/1/p.pom"];
    let gavs: Vec<Gav> = paths.iter().map(|p| repo.gav(&comps(p)).unwrap()).collect();
    repo.add_all(gavs);
    assert!(!repo.is_empty());
    let ids: Vec<&str> = repo.groups.iter().map(|g| g.id.as_str()).collect();
    assert_eq!(vec!["a", "b"], ids);
    let arts: Vec<&str> = repo.groups[1].artifacts.iter().map(|a| a.id.as_str()).collect();
    assert_eq!(vec!["w", "z"], arts);
    assert_eq!(2, repo.groups[1].artifacts[1].versions.len());
    assert_eq!(Some(1), repo.groups[1].artifacts[1].versions[0].major);
    assert_eq!(
        vec!["/r/a/y/1", "/r/a/y", "/r/a", "/r/b/w/1", "/r/b/w", "/r/b/z/1", "/r/b/z/2", "/r/b/z", "/r/b"],
        repo.prune_paths()
    );
}

#[test]
fn removal_summary() {
    let mut repo = run(&no_filter(), &Command::Remove(true, true), &TREE);
    assert!(repo.compute(&shape_sizes(&repo, 100)));
    let command = Command::Remove(true, true);
    assert!(!command.deletes());
    assert!(command.lists());
    assert_eq!(
        Summary::Removal { dry_run: true, groups: 2, artifacts: 2, versions: 3, bytes: 300 },
        command.summary(&repo)
    );
}

#[test]
fn helpers_on_text() {
    assert_eq!(vec!["a", "b", "c"], split_components("a..b/c.", &vec!['.', '/'], false));
    assert_eq!(vec!["x", "y"], split_components("./x//./y/", &vec!['/'], true));
    assert_eq!(core::cmp::Ordering::Less, compare_text("abc", "abd"));
    assert_eq!(core::cmp::Ordering::Greater, compare_text("ab", "a"));
    assert_eq!(core::cmp::Ordering::Equal, compare_text("é", "é"));
    assert_eq!(Some(6), sum_bytes(&vec![1, 2, 3]));
    assert_eq!(None, sum_bytes(&vec![u64::MAX, 1]));
}

#[test]
fn node_constructors_and_equality() {
    let a = Artifact::new("x", "/r/g/x");
    assert_eq!("x", a.id);
    assert!(a.versions.is_empty());
    assert!(a == Artifact::new("x", "/elsewhere"));
    let g = Group::new("g", "/r/g");
    assert!(g == Group::new("g", "/x"));
    assert!(g != Group::new("h", "/r/g"));
    let v1 = Version::from_str("1.0").unwrap();
    let mut v2 = Version::from_str("1.0").unwrap();
    v2.bytes = 9;
    assert!(v1 == v2);
}

#[test]
fn removals_need_a_filter() {
    assert!(!no_filter().admits(&Command::Keep(false, false)));
    assert!(!no_filter().admits(&Command::Remove(true, false)));
    assert!(no_filter().admits(&Command::Du(false, false, false)));
    let f = Filter { release_type: Some(ReleaseType::Snapshots), ..no_filter() };
    assert!(f.admits(&Command::Remove(false, false)));
    assert_eq!(Command::Du(true, true, false), Command::du_from_output("ga"));
    assert_eq!(Command::Du(false, false, true), Command::du_from_output("v"));
    assert_eq!(Command::Du(false, false, false), Command::du_from_output(""));
}

#[test]
fn match_pattern_checks_then_matches() {
    assert_eq!(Ok(true), match_pattern("maven-*-plugin", "maven-jar-plugin"));
    assert_eq!(Ok(false), match_pattern("maven-*-plugin", "maven-core"));
    assert!(match_pattern("a[", "a").is_err());
    assert_eq!(match_pattern("a[", "a").unwrap_err(), ArtifactFilter::from("a[").unwrap_err());
}

#[test]
fn plain_patterns_match_exactly_themselves() {
    let f = ArtifactFilter::from("x").unwrap();
    assert!(f.match_artifact_id("x"));
    assert!(!f.match_artifact_id("X"));
    assert!(!f.match_artifact_id("xx"));
    assert_eq!(Ok(true), match_pattern("maven-core", "maven-core"));
    assert_eq!(Ok(false), match_pattern("maven-core", "maven-cor"));
}
