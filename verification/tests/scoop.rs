use scoop_search::installed::Installed;
use scoop_search::json::Json;
use scoop_search::scoop::{join_path, Scoop, NO_ROOT};
use std::path::{PathBuf, MAIN_SEPARATOR};

fn parsed(text: &str) -> Json {
    scoop_search::json::parse_json(text).unwrap()
}

fn path(p: PathBuf) -> String {
    p.to_string_lossy().into_owned()
}

#[test]
fn config_paths_are_unquoted_and_prefer_current_key() {
    assert_eq!(
        Scoop::configured_root_text(r#"{"root_path":"D:\\My Scoop","rootPath":"old"}"#),
        Some(String::from(r"D:\My Scoop"))
    );
    assert_eq!(
        Scoop::configured_root_text(r#"{"rootPath":"legacy"}"#),
        Some(String::from("legacy"))
    );
}

#[test]
fn explicit_root_wins_and_missing_home_is_an_error() {
    assert_eq!(
        Scoop::resolve(Some("custom".into()), None, None, MAIN_SEPARATOR)
            .unwrap()
            .dir,
        "custom"
    );
    assert!(Scoop::resolve(None, None, None, MAIN_SEPARATOR).is_err());
    assert_eq!(
        Scoop::resolve(None, Some("home".into()), None, MAIN_SEPARATOR)
            .unwrap()
            .dir,
        path(PathBuf::from("home").join("scoop"))
    );
}

#[test]
fn xdg_config_resolves_without_userprofile() {
    let file = Scoop::config_file(Some("cfg".into()), None, MAIN_SEPARATOR).unwrap();
    assert_eq!(file, path(PathBuf::from("cfg").join("scoop").join("config.json")));
    let configured = Scoop::configured_root_text(r#"{"root_path":"D:\\My Scoop"}"#);
    let scoop = Scoop::resolve(None, None, configured.clone(), MAIN_SEPARATOR).unwrap();
    assert_eq!(scoop.dir, r"D:\My Scoop");
    assert_eq!(
        Scoop::resolve(Some("override".into()), None, configured, MAIN_SEPARATOR)
            .unwrap()
            .dir,
        "override"
    );
}

#[test]
fn global_path_precedence() {
    let config = parsed(r#"{"global_path":"configured"}"#);
    assert_eq!(
        Installed::global_root(Some("explicit".into()), &config, Some("data".into()), MAIN_SEPARATOR),
        Some("explicit".into())
    );
    assert_eq!(
        Installed::global_root(None, &config, Some("data".into()), MAIN_SEPARATOR),
        Some("configured".into())
    );
    assert_eq!(
        Installed::global_root(None, &Json::Null, Some("data".into()), MAIN_SEPARATOR),
        Some(path(PathBuf::from("data").join("scoop")))
    );
}

#[test]
fn empty_settings_count_as_unset() {
    assert_eq!(Scoop::resolve(Some("".into()), None, None, '/').unwrap_err(), NO_ROOT);
    assert_eq!(
        Scoop::resolve(Some("".into()), Some("".into()), None, '/').unwrap_err(),
        NO_ROOT
    );
    assert_eq!(Scoop::configured_root_text(r#"{"root_path":"","rootPath":"b"}"#), Some("b".into()));
    assert_eq!(Scoop::configured_root_text(r#"{"root_path":3}"#), None);
    assert_eq!(Scoop::configured_root(&Json::Null), None);
    assert_eq!(Installed::global_root(Some("".into()), &Json::Null, Some("".into()), '/'), None);
    assert_eq!(
        Installed::global_root(None, &parsed(r#"{"global_path":""}"#), Some("d".into()), '/'),
        Some("d/scoop".into())
    );
}

#[test]
fn configuration_file_locations() {
    assert_eq!(
        Scoop::config_file(None, Some("/home/u".into()), '/'),
        Some("/home/u/.config/scoop/config.json".into())
    );
    assert_eq!(
        Scoop::config_file(Some("".into()), Some("h".into()), '/'),
        Some("h/.config/scoop/config.json".into())
    );
    assert_eq!(Scoop::config_file(Some("".into()), None, '/'), None);
}

#[test]
fn buckets_live_under_the_root() {
    let scoop = Scoop::resolve(Some("C:\\scoop".into()), None, None, '\\').unwrap();
    assert_eq!(scoop.buckets_dir, "C:\\scoop\\buckets");
    let scoop = Scoop::at("/opt/scoop/".into(), '/');
    assert_eq!(scoop.dir, "/opt/scoop/");
    assert_eq!(scoop.buckets_dir, "/opt/scoop/buckets");
}

#[test]
fn paths_join_like_std() {
    for (base, leaf) in [("a", "b"), ("a/", "b"), ("", "b"), ("x/y", "z.json")] {
        assert_eq!(
            join_path(base, leaf, MAIN_SEPARATOR),
            path(PathBuf::from(base).join(leaf))
        );
    }
}

#[test]
fn installation_config_falls_back_to_a_set_home_even_empty() {
    assert_eq!(
        Installed::config_file(None, Some("".into()), '/'),
        Some(".config/scoop/config.json".into())
    );
    assert_eq!(
        Installed::config_file(Some("x".into()), Some("h".into()), '/'),
        Some("x/scoop/config.json".into())
    );
    assert_eq!(
        Installed::config_file(Some("".into()), Some("h".into()), '/'),
        Some("h/.config/scoop/config.json".into())
    );
    assert_eq!(Installed::config_file(None, None, '/'), None);
    // Locating Scoop itself ignores an empty home.
    assert_eq!(Scoop::config_file(None, Some("".into()), '/'), None);
}

#[test]
fn drive_only_bases_take_no_separator() {
    assert_eq!(join_path("C:", "scoop", '\\'), "C:scoop");
    assert_eq!(join_path("C:\\", "scoop", '\\'), "C:\\scoop");
    assert_eq!(join_path("D:\\x", "scoop", '\\'), "D:\\x\\scoop");
    assert_eq!(join_path("C:", "scoop", '/'), "C:/scoop");
}

#[test]
fn configuration_that_is_not_json_names_no_root() {
    assert_eq!(Scoop::configured_root_text("{"), None);
    assert_eq!(Scoop::configured_root_text(r#"{"root_path":"r"}"#), Some("r".into()));
}

#[test]
fn configuration_is_consulted_only_without_an_explicit_root() {
    assert!(Scoop::reads_config(&None));
    assert!(Scoop::reads_config(&Some(String::new())));
    assert!(!Scoop::reads_config(&Some("C:\\scoop".into())));
}
