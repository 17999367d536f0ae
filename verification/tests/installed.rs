use scoop_search::installed::{Found, Installed, Record};
use scoop_search::json::Json;

/// The record of an installation from the texts of its two files; text that is
/// not JSON counts as a missing file.
fn record(install: &str, manifest: &str) -> Option<Record> {
    Installed::read_record_text(install, manifest)
}

#[test]
fn installed_status_tracks_source_scope_and_version() {
    let mut installed = Installed::new();
    installed.insert(false, "git", record(r#"{"bucket":"main"}"#, r#"{"version":"1.0"}"#).unwrap());
    installed.insert(true, "git", record(r#"{"bucket":"extras"}"#, r#"{"version":"2.0"}"#).unwrap());
    installed.insert(false, "tool", record("{}", r#"{"version":"3.0"}"#).unwrap());
    assert_eq!(installed.label("MAIN", "GIT"), " [installed: 1.0]");
    assert_eq!(installed.label("extras", "git"), " [installed globally: 2.0]");
    assert_eq!(installed.label("other", "git"), "");
    assert_eq!(installed.label("main", "tool"), " [installed (source unknown): 3.0]");
    assert_eq!(installed.label("main", "absent"), "");
}

#[test]
fn installed_status_handles_no_junction_and_incomplete_installs() {
    // The version directories of `git`: `current` and backups are never candidates.
    for name in ["current", "_2.0.old"] {
        assert!(!Installed::is_version_dir(name));
    }
    assert!(Installed::is_version_dir("1.0"));
    let candidates = vec![(5u128, String::from("1.0"))];
    assert_eq!(Installed::newest(&candidates), Some(0));
    let mut installed = Installed::new();
    let git = record(r#"{"bucket":"main"}"#, r#"{"version":"1.0"}"#).unwrap();
    installed.insert(false, "git", git);
    // An install without `install.json`, and one whose `install.json` is broken.
    assert!(record("", r#"{"version":"1.0"}"#).is_none());
    assert!(record("invalid", r#"{"version":"1.0"}"#).is_none());
    assert_eq!(installed.label("main", "git"), " [installed: 1.0]");
    assert_eq!(installed.label("main", "incomplete"), "");
    assert_eq!(installed.label("main", "broken"), "");
}

#[test]
fn records_need_an_object_and_a_version() {
    assert!(record("[]", r#"{"version":"1"}"#).is_none());
    assert!(record("{}", r#"{"version":""}"#).is_none());
    assert!(record("{}", r#"{"version":1}"#).is_none());
    assert!(record("{}", r#"{}"#).is_none());
    let r = record(r#"{"bucket":"Extras"}"#, r#"{"version":"2"}"#).unwrap();
    assert_eq!(r.bucket.as_deref(), Some("extras"));
    assert_eq!(r.version, "2");
    let r = record(r#"{"bucket":""}"#, r#"{"version":"2"}"#).unwrap();
    assert!(r.bucket.is_none());
    let r = record(r#"{"bucket":7}"#, r#"{"version":"2"}"#).unwrap();
    assert!(r.bucket.is_none());
}

#[test]
fn labels_show_local_then_global() {
    let mut installed = Installed::new();
    installed.insert(true, "RipGrep", Record { bucket: Some("main".into()), version: "0.8".into() });
    installed.insert(false, "ripgrep", Record { bucket: Some("main".into()), version: "0.9".into() });
    assert_eq!(
        installed.label("main", "ripgrep"),
        " [installed: 0.9] [installed globally: 0.8]"
    );
    installed.insert(false, "ripgrep", Record { bucket: Some("extras".into()), version: "0.9".into() });
    assert_eq!(installed.label("main", "ripgrep"), " [installed globally: 0.8]");
    assert_eq!(Installed::new().label("main", "ripgrep"), "");
}

#[test]
fn newest_version_wins_and_ties_go_to_the_last_name() {
    let candidates = vec![
        (3u128, String::from("b")),
        (7u128, String::from("a")),
        (7u128, String::from("c")),
        (1u128, String::from("z")),
    ];
    assert_eq!(Installed::newest(&candidates), Some(2));
    assert_eq!(Installed::newest(&Vec::new()), None);
    assert!(!Installed::is_version_dir("_1.old"));
    assert!(Installed::is_version_dir("_1"));
    assert!(Installed::is_version_dir("1.old"));
}

#[test]
fn junctions_are_on_unless_disabled() {
    assert!(Installed::no_junction(&Json::Object(vec![("no_junction".into(), Json::Bool(true))])));
    assert!(!Installed::no_junction(&Json::Object(vec![("no_junction".into(), Json::Bool(false))])));
    assert!(!Installed::no_junction(&Json::Object(vec![("no_junction".into(), Json::Str("true".into()))])));
    assert!(!Installed::no_junction(&Json::Null));
}

#[test]
fn current_record_wins_unless_junctions_are_off() {
    let current = || Some(Record { bucket: Some("main".into()), version: "1".into() });
    let candidates = vec![(1u128, String::from("0.9")), (2u128, String::from("1.0"))];
    assert!(matches!(Installed::pick(false, current(), &candidates), Found::Current(r) if r.version == "1"));
    assert!(matches!(Installed::pick(true, current(), &candidates), Found::Version(1)));
    assert!(matches!(Installed::pick(false, None, &candidates), Found::Version(1)));
    assert!(matches!(Installed::pick(false, None, &Vec::new()), Found::Nothing));
}

#[test]
fn byte_order_marks_are_skipped() {
    let r = record("\u{feff}{\"bucket\":\"main\"}", "\u{feff}\u{feff}{\"version\":\"1\"}").unwrap();
    assert_eq!(r.version, "1");
    assert_eq!(r.bucket.as_deref(), Some("main"));
    assert_eq!(scoop_search::json::strip_bom("\u{feff}\u{feff}a\u{feff}"), "a\u{feff}");
    let config = Installed::config_from_text("\u{feff}{\"no_junction\":true}");
    assert!(Installed::no_junction(&config));
    assert!(matches!(Installed::config_from_text("nope"), Json::Null));
}
