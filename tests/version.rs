use mcup::version::VersionRange::{Exact, Latest, Oldest};
use mcup::version::{compare_versions, Version, VersionError, VersionRange};

fn assert_version(
    version: &str,
    major: Option<u32>,
    minor: Option<u32>,
    incremental: Option<u32>,
    qualifier: Option<&str>,
    snapshot: bool,
) {
    let v = Version::from_str(version).expect("Invalid version");
    assert_eq!(major, v.major);
    assert_eq!(minor, v.minor);
    assert_eq!(incremental, v.patch);
    assert_eq!(qualifier.map(|s| String::from(s)), v.qualifier);
    assert_eq!(snapshot, v.snapshot);
}

#[test]
fn invalid_version() {
    assert!(Version::from_str("").is_err());
    assert!(Version::from_str(".").is_err());
    assert!(Version::from_str("..").is_err());
    assert!(Version::from_str("-").is_err());
    assert!(Version::from_str("--").is_err());
    assert!(Version::from_str(".-").is_err());
    assert!(Version::from_str("-.").is_err());
    assert!(Version::from_str("1a").is_err());
    assert!(Version::from_str("a").is_err());
    assert!(Version::from_str("a.b").is_err());
    assert!(Version::from_str("a-c").is_err());
    assert!(Version::from_str("-SNAPSHOT").is_err());
    assert!(Version::from_str("--SNAPSHOT").is_err());
    assert!(Version::from_str("1SNAPSHOT").is_err());
    assert!(Version::from_str("xSNAPSHOT").is_err());
    assert!(Version::from_str("x-SNAPSHOT").is_err());
}

#[test]
fn major_minor_patch() {
    assert_version("1", Some(1), None, None, None, false);
    assert_version("1.2", Some(1), Some(2), None, None, false);
    assert_version("1.2.3", Some(1), Some(2), Some(3), None, false);
}

#[test]
fn version_dots() {
    assert_version("1.Final", Some(1), None, None, Some("Final"), false);
    assert_version("1.4alpha", Some(1), None, None, Some("4alpha"), false);
    assert_version("1.4.alpha", Some(1), Some(4), None, Some("alpha"), false);
    assert_version("1.2.3.4", Some(1), Some(2), Some(3), Some("4"), false);
    assert_version("1.2.3.Final", Some(1), Some(2), Some(3), Some("Final"), false);
    assert_version("1..2", Some(1), None, None, Some("2"), false);
    assert_version("1...2", Some(1), None, None, Some("2"), false);
}

#[test]
fn version_dashes() {
    assert_version("1-Final", Some(1), None, None, Some("Final"), false);
    assert_version("1-4alpha", Some(1), None, None, Some("4alpha"), false);
    assert_version("1-4-alpha", Some(1), None, None, Some("4-alpha"), false);
    assert_version("1--2", Some(1), None, None, Some("-2"), false);
    assert_version("1---2", Some(1), None, None, Some("--2"), false);
}

#[test]
fn version_mixed() {
    assert_version("1.2-a", Some(1), Some(2), None, Some("a"), false);
    assert_version("1-2.a", Some(1), None, None, Some("2.a"), false);
    assert_version("1.2-a.1", Some(1), Some(2), None, Some("a.1"), false);
    assert_version("1-2.a-1", Some(1), None, None, Some("2.a-1"), false);
}

#[test]
fn version_order() {
    let mut versions = vec![
        Version::from_str("1").unwrap(),
        Version::from_str("2").unwrap(),
        Version::from_str("1.0").unwrap(),
        Version::from_str("1.1").unwrap(),
        Version::from_str("1.2").unwrap(),
        Version::from_str("1.3").unwrap(),
        Version::from_str("1.0.0").unwrap(),
        Version::from_str("1.0.1").unwrap(),
        Version::from_str("1.0.2").unwrap(),
        Version::from_str("1.0.3").unwrap(),
        Version::from_str("1.0.0.Alpha").unwrap(),
        Version::from_str("1.0.0-Beta").unwrap(),
        Version::from_str("1.0.0.Final").unwrap(),
        Version::from_str("1.0.0-SNAPSHOT").unwrap(),
    ];

    versions.sort_by(compare_versions);
    assert_eq!(
        vec![
            Version::from_str("1").unwrap(),
            Version::from_str("1.0").unwrap(),
            Version::from_str("1.0.0").unwrap(),
            Version::from_str("1.0.0-SNAPSHOT").unwrap(),
            Version::from_str("1.0.0.Alpha").unwrap(),
            Version::from_str("1.0.0-Beta").unwrap(),
            Version::from_str("1.0.0.Final").unwrap(),
            Version::from_str("1.0.1").unwrap(),
            Version::from_str("1.0.2").unwrap(),
            Version::from_str("1.0.3").unwrap(),
            Version::from_str("1.1").unwrap(),
            Version::from_str("1.2").unwrap(),
            Version::from_str("1.3").unwrap(),
            Version::from_str("2").unwrap(),
        ],
        versions
    );
}

#[test]
fn invalid_version_range() {
    assert!(VersionRange::parse("").is_err());
    assert!(VersionRange::parse("foo").is_err());
    assert!(VersionRange::parse("a..").is_err());
    assert!(VersionRange::parse("..a").is_err());
    assert!(VersionRange::parse("-1..").is_err());
    assert!(VersionRange::parse("0..").is_err());
    assert!(VersionRange::parse("..-1").is_err());
    assert!(VersionRange::parse("..0").is_err());
    assert!(VersionRange::parse("1...").is_err());
    assert!(VersionRange::parse("...1").is_err());
    assert!(VersionRange::parse("1.1..").is_err());
    assert!(VersionRange::parse("..1.1").is_err());
}

#[test]
fn parse_latest() {
    assert_eq!(Latest(1), VersionRange::parse("1..").unwrap());
    assert_eq!(Latest(2), VersionRange::parse("2..").unwrap());
    assert_eq!(Latest(3), VersionRange::parse("3..").unwrap());
}

#[test]
fn parse_oldest() {
    assert_eq!(Oldest(1), VersionRange::parse("..1").unwrap());
    assert_eq!(Oldest(2), VersionRange::parse("..2").unwrap());
    assert_eq!(Oldest(3), VersionRange::parse("..3").unwrap());
}

#[test]
fn parse_exact() {
    let version = Version::from_str("1.2.3").unwrap();
    assert_eq!(Exact(version), VersionRange::parse("1.2.3").unwrap());
}

#[test]
fn select_latest() {
    let versions = vec![4, 3, 2, 1];

    assert_eq!(vec![4], Latest(1).select(&versions));
    assert_eq!(vec![4, 3], Latest(2).select(&versions));
    assert_eq!(vec![4, 3, 2], Latest(3).select(&versions));
    assert_eq!(vec![4, 3, 2, 1], Latest(4).select(&versions));
    assert_eq!(vec![4, 3, 2, 1], Latest(5).select(&versions));
}

#[test]
fn select_oldest() {
    let versions = vec![4, 3, 2, 1];

    assert_eq!(vec![1], Oldest(1).select(&versions));
    assert_eq!(vec![2, 1], Oldest(2).select(&versions));
    assert_eq!(vec![3, 2, 1], Oldest(3).select(&versions));
    assert_eq!(vec![4, 3, 2, 1], Oldest(4).select(&versions));
    assert_eq!(vec![4, 3, 2, 1], Oldest(5).select(&versions));
}

// ------------------------------------------------------ further cases

#[test]
fn parse_listed_versions() {
    assert_version("1", Some(1), None, None, None, false);
    assert_version("1.2.3", Some(1), Some(2), Some(3), None, false);
    assert_version("1.0.0-SNAPSHOT", Some(1), Some(0), Some(0), None, true);
    assert_version("1.Final", Some(1), None, None, Some("Final"), false);
    assert_version("1--2", Some(1), None, None, Some("-2"), false);
    for bad in ["", ".", "-", "a", "-SNAPSHOT"] {
        assert!(Version::from_str(bad).is_err(), "{bad}");
    }
}

#[test]
fn qualifier_after_non_number_is_whole_rest() {
    assert_version("1.Final.2", Some(1), None, None, Some("Final.2"), false);
    assert_version("1.a.b-c", Some(1), None, None, Some("a.b-c"), false);
    assert_version("1.2-SNAPSHOT", Some(1), Some(2), None, None, true);
    assert_version("+1.2", Some(1), Some(2), None, None, false);
    assert_version("4294967295", Some(4294967295), None, None, None, false);
    assert!(Version::from_str("4294967296").is_err());
}

#[test]
fn invalid_version_carries_input() {
    match Version::from_str("x-SNAPSHOT") {
        Err(VersionError::Invalid(s)) => assert_eq!("x-SNAPSHOT", s),
        other => panic!("unexpected {other:?}"),
    }
}

#[test]
fn range_errors_by_kind() {
    assert!(matches!(VersionRange::parse("0.."), Err(VersionError::RangeBelowOne(s)) if s == "0.."));
    assert!(matches!(VersionRange::parse("..0"), Err(VersionError::RangeBelowOne(_))));
    assert!(matches!(VersionRange::parse("a.."), Err(VersionError::IllegalRange(s)) if s == "a.."));
    assert!(matches!(VersionRange::parse("foo"), Err(VersionError::Invalid(s)) if s == "foo"));
    assert_eq!(Latest(12), VersionRange::parse("12..").unwrap());
    assert_eq!(Oldest(7), VersionRange::parse("..+7").unwrap());
}

#[test]
fn listed_order_is_ascending() {
    let listed = [
        "1",
        "1.0",
        "1.0.0",
        "1.0.0-SNAPSHOT",
        "1.0.0.Alpha",
        "1.0.0-Beta",
        "1.0.0.Final",
        "1.0.1",
        "1.1",
        "2",
    ];
    let parsed: Vec<Version> = listed.iter().map(|s| Version::from_str(s).unwrap()).collect();
    for i in 0..parsed.len() {
        for j in 0..parsed.len() {
            let c = mcup::version::compare_versions(&parsed[i], &parsed[j]);
            assert_eq!(i.cmp(&j), c, "{} vs {}", listed[i], listed[j]);
        }
    }
    for i in 0..parsed.len() {
        for j in 0..parsed.len() {
            assert_eq!(Some(i.cmp(&j)), parsed[i].partial_cmp(&parsed[j]));
        }
    }
    let mut moved = Version::from_str("1.0").unwrap();
    moved.path = "/elsewhere".to_string();
    moved.bytes = 3;
    assert_eq!(Some(std::cmp::Ordering::Equal), moved.partial_cmp(&Version::from_str("1.0").unwrap()));
    let mut shuffled = parsed.clone();
    shuffled.reverse();
    shuffled.sort_by(compare_versions);
    assert_eq!(parsed, shuffled);
}

#[test]
fn select_on_empty_and_exact() {
    let none: Vec<u32> = vec![];
    assert!(Latest(3).select(&none).is_empty());
    assert!(Oldest(3).select(&none).is_empty());
    let versions = vec![4, 3, 2, 1];
    let exact = Exact(Version::from_str("1").unwrap());
    assert_eq!(vec![4, 3, 2, 1], exact.select(&versions));
}

#[test]
fn version_from_path_reads_last_component() {
    let v = Version::from_path("/repo/com/a/x/1.0-SNAPSHOT").unwrap();
    assert_eq!(Some(1), v.major);
    assert_eq!(Some(0), v.minor);
    assert!(v.snapshot);
    assert_eq!("/repo/com/a/x/1.0-SNAPSHOT", v.path);
    let v = Version::from_path("/repo/x/2.1/").unwrap();
    assert_eq!(Some(2), v.major);
    assert!(matches!(Version::from_path("/repo/x/.."), Err(VersionError::NoVersion(_))));
    assert!(matches!(Version::from_path("/"), Err(VersionError::NoVersion(_))));
    assert!(matches!(Version::from_path("/repo/x/y"), Err(VersionError::Invalid(s)) if s == "y"));
}
