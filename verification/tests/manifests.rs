use scoop_search::app::App;

fn parse(name: &str, content: &str) -> Option<App> {
    App::parse_text(name, content)
}

fn names(apps: &[App]) -> Vec<&str> {
    apps.iter().map(|a| a.name.as_str()).collect()
}

#[test]
fn aliases_match_once_and_arguments_do_not_match() {
    let app = parse(
        "tool",
        r#"{"version":"1","bin":[["dir\\FOO.exe","foo","--secret"],"other/foo.exe"]}"#,
    )
    .unwrap();
    assert!(app.clone().matching("secret", false).is_none());
    assert!(app.clone().matching("foo", true).is_none());
    assert_eq!(app.matching("foo", false).unwrap().bin.len(), 3);
}

#[test]
fn invalid_manifests_do_not_panic() {
    for content in ["invalid", "[]", r#"{"version":42}"#] {
        assert!(parse("tool", content).is_none());
    }
}

#[test]
fn remote_results_are_sorted_package_names() {
    let response = r#"{"tree": [
            {"type":"blob", "path":"bucket/git.json"},
            {"type":"blob", "path":"scripts/git.json"},
            {"type":"tree", "path":"fake.json"},
            {"type":"blob", "path":"7zip.json"}
        ]}"#;
    let apps = App::remote_matches_text(response, "").unwrap();
    assert_eq!(names(&apps), ["7zip", "git"]);
}

#[test]
fn manifest_fields_are_read() {
    let app = parse("tool", r#"{"version":"2","bin":"bin/tool.exe"}"#).unwrap();
    assert_eq!(app.name, "tool");
    assert_eq!(app.version, "2");
    assert_eq!(app.bin, ["bin/tool.exe"]);
    let app = parse("bare", r#"{}"#).unwrap();
    assert_eq!(app.version, "");
    assert!(app.bin.is_empty());
    let app = parse("odd", r#"{"version":"1","bin":[3,"a.exe",["b.exe"],[1,"c","d"]]}"#).unwrap();
    assert_eq!(app.bin, ["a.exe", "b.exe", "c"]);
}

#[test]
fn name_match_clears_executables_and_is_case_insensitive() {
    let app = parse("RipGrep", r#"{"version":"1","bin":"rg.exe"}"#).unwrap();
    let matched = app.matching("grep", false).unwrap();
    assert_eq!(matched.name, "RipGrep");
    assert!(matched.bin.is_empty());
}

#[test]
fn executable_matches_are_last_segments_sorted_and_unique() {
    let app = parse(
        "tool",
        r#"{"version":"1","bin":["z/b-foo.exe","a\\a-foo.exe","c/b-foo.exe","bar.exe"]}"#,
    )
    .unwrap();
    let matched = app.matching("foo", false).unwrap();
    assert_eq!(matched.bin, ["a-foo.exe", "b-foo.exe"]);
    assert_eq!(matched.version, "1");
}

#[test]
fn empty_query_matches_every_package() {
    let app = parse("anything", r#"{"version":"1","bin":"x.exe"}"#).unwrap();
    assert!(app.clone().matching("", true).is_some());
    assert!(app.matching("", false).unwrap().bin.is_empty());
}

#[test]
fn remote_listing_errors_and_filters() {
    let missing = r#"{"sha":"x"}"#;
    assert!(App::remote_matches_text(missing, "").is_err());
    let response = r#"{"tree": [
            {"type":"blob", "path":"bucket/Git.json"},
            {"type":"blob", "path":"bucket/git.json"},
            {"type":"blob", "path":"bucket/git.json"},
            {"type":"blob", "path":"bucket/nested/lfs.json"},
            {"type":"blob", "path":"README.md"},
            {"type":"blob", "path":"python.json"}
        ]}"#;
    let apps = App::remote_matches_text(response, "git").unwrap();
    assert_eq!(names(&apps), ["Git", "git"]);
    assert!(apps.iter().all(|a| a.version.is_empty() && a.bin.is_empty()));
    let all = App::remote_matches_text(response, "").unwrap();
    assert_eq!(names(&all), ["Git", "git", "lfs", "python"]);
}

#[test]
fn listings_that_are_not_json_are_refused() {
    assert_eq!(
        App::remote_matches_text("not json", "").unwrap_err(),
        scoop_search::app::INVALID_LISTING
    );
    assert!(App::parse_text("tool", "").is_none());
}
