use scoop_search::app::App;
use scoop_search::bucket::{rank_suggestions, Bucket, Suggestion};
use scoop_search::fuzzy::{Query, Score};
use scoop_search::json::Json;

fn app(name: &str, manifest: &str) -> App {
    App::parse_text(name, manifest).unwrap()
}

fn bucket(name: &str, apps: Vec<App>) -> Bucket {
    Bucket { name: name.into(), apps }
}

fn plain(name: &str) -> App {
    App { name: name.into(), version: String::new(), bin: Vec::new() }
}

/// A catalog with an empty bucket, a `bucket/` layout
/// (with a nested manifest) and a legacy root layout; the hidden, invalid and
/// non-JSON files are never read into it.
fn fixture() -> Vec<Bucket> {
    vec![
        bucket("empty", vec![]),
        bucket(
            "legacy",
            vec![app("another", r#"{"version":"3","bin":"foo.cmd"}"#)],
        ),
        bucket(
            "main",
            vec![
                app(
                    "tool",
                    r#"{"version":"2","bin":[["bin/foo.exe","foo","--secret"],"bin/foo.exe"]}"#,
                ),
                app("foo", r#"{"version":"1"}"#),
            ],
        ),
    ]
}

fn fuzzy_fixture() -> Vec<Bucket> {
    vec![
        bucket(
            "extra",
            vec![app(
                "tool",
                r#"{"version":"2","bin":[["dir/tool.exe","ripgrep","--firefox"],"ripgrep.exe"]}"#,
            )],
        ),
        bucket(
            "main",
            vec![app("git", r#"{"version":"1"}"#), app("git-lfs", r#"{"version":"1"}"#)],
        ),
    ]
}

#[test]
fn search_combines_names_and_bins_across_bucket_layouts() {
    let catalog = fixture();
    let results = Bucket::search(&catalog, "foo", false);
    assert_eq!(
        results.iter().map(|b| b.name.as_str()).collect::<Vec<_>>(),
        ["legacy", "main"]
    );
    assert_eq!(
        results[1].apps.iter().map(|a| a.name.as_str()).collect::<Vec<_>>(),
        ["foo", "tool"]
    );
    assert_eq!(results[1].apps[1].bin, ["foo", "foo.exe"]);
    let names = Bucket::search(&catalog, "foo", true);
    assert_eq!(names.len(), 1);
    assert_eq!(names[0].apps.len(), 1);
    assert!(Bucket::search(&catalog, "secret", false).is_empty());
}

#[test]
fn fuzzy_search_ranks_names_aliases_and_respects_name_only() {
    let catalog = fuzzy_fixture();
    let typo = Bucket::fuzzy_search(&catalog, "gti", false);
    assert_eq!(typo[0].app.name, "git");
    let ranked = Bucket::fuzzy_search(&catalog, "git", true);
    assert_eq!(ranked[0].app.name, "git");
    assert_eq!(ranked[1].app.name, "git-lfs");
    let alias = Bucket::fuzzy_search(&catalog, "ripgrp", false);
    assert_eq!(alias.len(), 1);
    assert_eq!(alias[0].app.name, "tool");
    assert_eq!(alias[0].app.bin[0], "ripgrep");
    let abbreviation = Bucket::fuzzy_search(&catalog, "rg", false);
    assert_eq!(abbreviation.len(), 1);
    assert_eq!(abbreviation[0].app.name, "tool");
    assert!(Bucket::fuzzy_search(&catalog, "rg", true).is_empty());
    assert!(Bucket::fuzzy_search(&catalog, "ripgrp", true).is_empty());
    assert!(Bucket::fuzzy_search(&catalog, "firefpx", false).is_empty());
}

#[test]
fn fuzzy_results_have_global_limit_and_stable_ties() {
    let apps = (0..15).map(|i| app(&format!("tool{:02}", i), r#"{"version":"1"}"#)).collect();
    let catalog = vec![bucket("main", apps)];
    let results = Bucket::fuzzy_search(&catalog, "tool", false);
    assert_eq!(results.len(), 10);
    assert_eq!(results[0].app.name, "tool00");
    assert_eq!(results[9].app.name, "tool09");
}

#[test]
fn remote_catalog_yields_literal_and_fuzzy_results_without_refetching() {
    let apps = vec![plain("ripgrep")];
    let (literal, similar) =
        Bucket::remote_results("extras", apps.clone(), "ripgrp", &Query::new("ripgrp"));
    assert!(literal.apps.is_empty());
    assert_eq!(similar.len(), 1);
    assert!(similar[0].remote);
    let (literal, abbreviated) =
        Bucket::remote_results("extras", apps.clone(), "rg", &Query::new("rg"));
    assert!(literal.apps.is_empty());
    assert_eq!(abbreviated[0].app.name, "ripgrep");
    let (literal, _) = Bucket::remote_results("extras", apps, "ripgrep", &Query::new("ripgrep"));
    assert_eq!(literal.apps.len(), 1);
    assert_eq!(literal.name, "extras");
}

#[test]
fn empty_query_lists_every_package_sorted() {
    let catalog = vec![
        bucket("zeta", vec![plain("b"), plain("a")]),
        bucket("alpha", vec![plain("c")]),
    ];
    let results = Bucket::search(&catalog, "", false);
    assert_eq!(results[0].name, "alpha");
    assert_eq!(results[1].name, "zeta");
    assert_eq!(
        results[1].apps.iter().map(|a| a.name.as_str()).collect::<Vec<_>>(),
        ["a", "b"]
    );
}

#[test]
fn ranking_keeps_the_best_entry_per_package_and_bucket() {
    let s = |bucket: &str, name: &str, score: Score| Suggestion {
        bucket: bucket.into(),
        app: plain(name),
        score,
        remote: false,
    };
    let mut v = vec![
        s("main", "b", Score(2, 0, 3)),
        s("main", "a", Score(2, 0, 3)),
        s("extras", "a", Score(2, 0, 3)),
        s("main", "b", Score(1, 0, 3)),
        s("main", "c", Score(0, 0, 0)),
    ];
    rank_suggestions(&mut v);
    let got: Vec<(String, String, Score)> = v
        .iter()
        .map(|x| (x.bucket.clone(), x.app.name.clone(), x.score))
        .collect();
    assert_eq!(
        got,
        [
            ("main".to_string(), "c".to_string(), Score(0, 0, 0)),
            ("main".to_string(), "b".to_string(), Score(1, 0, 3)),
            ("extras".to_string(), "a".to_string(), Score(2, 0, 3)),
            ("main".to_string(), "a".to_string(), Score(2, 0, 3)),
        ]
    );
}

#[test]
fn remote_targets_skip_local_and_foreign_buckets() {
    let known = r#"{
            "main": "https://github.com/ScoopInstaller/Main",
            "extras": "https://github.com/ScoopInstaller/Extras.git/",
            "other": "https://gitlab.com/a/b",
            "deep": "https://github.com/a/b/c",
            "odd": 3
        }"#;
    let targets = Bucket::remote_targets_text(known, &vec!["main".to_string()]);
    assert_eq!(
        targets,
        [(
            "extras".to_string(),
            "https://api.github.com/repos/ScoopInstaller/Extras/git/trees/HEAD?recursive=1"
                .to_string()
        )]
    );
    assert!(Bucket::remote_targets(&Json::Null, &vec![]).is_empty());
    assert!(Bucket::remote_targets_text("[1]", &vec![]).is_empty());
    assert!(Bucket::remote_targets_text("oops", &vec![]).is_empty());
    assert_eq!(Bucket::api_url("https://github.com/a"), None);
}

#[test]
fn names_only_reads_only_promising_manifests() {
    let q = Query::new("gti");
    assert!(Bucket::worth_reading("anything", "gti", &q, false, false));
    assert!(!Bucket::worth_reading("python", "gti", &q, true, true));
    assert!(Bucket::worth_reading("Git", "gti", &q, true, true));
    assert!(!Bucket::worth_reading("Git", "gti", &q, true, false));
    assert!(Bucket::worth_reading("MyGti", "gti", &q, true, false));
}

#[test]
fn hidden_directories_and_other_files_are_skipped() {
    assert!(Bucket::walks_into("bucket"));
    assert!(Bucket::walks_into("nested"));
    assert!(!Bucket::walks_into(".git"));
    assert!(Bucket::is_manifest("foo.json"));
    assert!(!Bucket::is_manifest("foo.txt"));
    assert!(!Bucket::is_manifest(".json"));
    assert!(!Bucket::is_manifest("foo.JSON"));
}

#[test]
fn local_and_remote_suggestions_rank_together() {
    let catalog = vec![bucket("main", vec![plain("git-lfs"), plain("legit")])];
    let (_, remote) = Bucket::remote_results("extras", vec![plain("git")], "git", &Query::new("git"));
    let ranked = Bucket::suggest(&catalog, "git", false, remote);
    let got: Vec<(&str, &str, bool)> = ranked
        .iter()
        .map(|s| (s.bucket.as_str(), s.app.name.as_str(), s.remote))
        .collect();
    assert_eq!(
        got,
        [("extras", "git", true), ("main", "git-lfs", false), ("main", "legit", false)]
    );
    assert_eq!(Bucket::suggest(&catalog, "git", false, Vec::new()).len(), 2);
}

#[test]
fn ranking_twice_changes_nothing() {
    let apps = (0..14).map(|i| plain(&format!("git{:02}", 13 - i))).collect();
    let catalog = vec![bucket("main", apps)];
    let once = Bucket::fuzzy_search(&catalog, "git", true);
    let mut twice = Bucket::fuzzy_search(&catalog, "git", true);
    rank_suggestions(&mut twice);
    let names = |v: &Vec<Suggestion>| v.iter().map(|s| s.app.name.clone()).collect::<Vec<_>>();
    assert_eq!(names(&once), names(&twice));
    assert_eq!(once.len(), 10);
    assert_eq!(once[0].app.name, "git00");
}

#[test]
fn sorting_by_name_is_stable() {
    let apps = vec![
        App { name: "b".into(), version: "1".into(), bin: vec![] },
        App { name: "a".into(), version: "1".into(), bin: vec![] },
        App { name: "b".into(), version: "2".into(), bin: vec![] },
        App { name: "a".into(), version: "2".into(), bin: vec![] },
    ];
    let sorted = scoop_search::order::sort_by_name(apps);
    let got: Vec<(&str, &str)> = sorted.iter().map(|a| (a.name.as_str(), a.version.as_str())).collect();
    assert_eq!(got, [("a", "1"), ("a", "2"), ("b", "1"), ("b", "2")]);
}

#[test]
fn names_only_suggestions_list_no_executables() {
    let catalog = vec![bucket("main", vec![app("ripgrep", r#"{"version":"1","bin":"rg.exe"}"#)])];
    let by_name = Bucket::fuzzy_search(&catalog, "ripgrp", true);
    assert_eq!(by_name.len(), 1);
    assert!(by_name[0].app.bin.is_empty());
    let by_bin = Bucket::fuzzy_search(&catalog, "rg", false);
    assert_eq!(by_bin[0].app.bin, ["rg.exe"]);
    assert_eq!(by_bin[0].score, Score(0, 0, 0));
}

#[test]
fn matching_a_match_again_changes_nothing() {
    let a = app("tool", r#"{"version":"1","bin":["x/b-foo.exe","a-foo.exe","bar"]}"#);
    let once = a.matching("foo", false).unwrap();
    let twice = once.clone().matching("foo", false).unwrap();
    assert_eq!(once.bin, twice.bin);
    assert_eq!(once.name, twice.name);
    assert_eq!(once.version, twice.version);
}

#[test]
fn names_only_search_is_the_full_search_of_matching_names() {
    let catalog = fixture();
    let names = Bucket::search(&catalog, "foo", true);
    let restricted: Vec<Bucket> = catalog
        .iter()
        .map(|b| Bucket {
            name: b.name.clone(),
            apps: b.apps.iter().filter(|a| a.name.to_lowercase().contains("foo")).cloned().collect(),
        })
        .collect();
    let full = Bucket::search(&restricted, "foo", false);
    assert_eq!(names.len(), full.len());
    for (x, y) in names.iter().zip(full.iter()) {
        assert_eq!(x.name, y.name);
        assert_eq!(
            x.apps.iter().map(|a| (&a.name, &a.bin)).collect::<Vec<_>>(),
            y.apps.iter().map(|a| (&a.name, &a.bin)).collect::<Vec<_>>()
        );
    }
}

#[test]
fn normalising_twice_is_normalising_once() {
    let once = scoop_search::text::normalize("visual-studio_code app");
    assert_eq!(once, "visualstudiocodeapp");
    assert_eq!(scoop_search::text::normalize(&once), once);
}
