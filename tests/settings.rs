use mcup::repo::is_descriptor;
use mcup::settings::{configured_repository, resolve_root};
use mcup::sizes::order_by_bytes;
use mcup::version::Version;

#[test]
fn settings_with_local_repository() {
    let xml = "<settings>\n  <localRepository>/data/m2</localRepository>\n</settings>";
    assert_eq!(Some("/data/m2".to_string()), configured_repository(xml));
}

#[test]
fn settings_without_local_repository() {
    assert_eq!(None, configured_repository("<settings><mirrors/></settings>"));
    assert_eq!(None, configured_repository(""));
    assert_eq!(None, configured_repository("<settings><unclosed"));
}

#[test]
fn root_resolution_order() {
    assert_eq!("/cli", resolve_root(Some("/cli".into()), Some("/conf".into()), "/home/u"));
    assert_eq!("/conf", resolve_root(None, Some("/conf".into()), "/home/u"));
    assert_eq!("/home/u/.m2/repository", resolve_root(None, None, "/home/u"));
}

#[test]
fn descriptor_names() {
    assert!(is_descriptor("x-1.0.pom"));
    assert!(is_descriptor("..pom"));
    assert!(!is_descriptor(".pom"));
    assert!(!is_descriptor("x.pom.sha1"));
    assert!(!is_descriptor("x.jar"));
    assert!(!is_descriptor("pom"));
}

#[test]
fn version_text_round_trips_the_parts() {
    let text = |s: &str| Version::from_str(s).unwrap().to_text();
    assert_eq!("1.2.3", text("1.2.3"));
    assert_eq!("1.0.0-SNAPSHOT", text("1.0.0-SNAPSHOT"));
    assert_eq!("1.Final", text("1-Final"));
    assert_eq!("4294967295.10", text("4294967295.10"));
    assert_eq!("0", text("+0"));
}

#[test]
fn order_by_bytes_is_stable_and_descending() {
    assert_eq!(vec![1, 3, 0, 2], order_by_bytes(&vec![5, 9, 5, 7]));
    assert_eq!(Vec::<usize>::new(), order_by_bytes(&vec![]));
    assert_eq!(vec![0, 1, 2], order_by_bytes(&vec![0, 0, 0]));
}
