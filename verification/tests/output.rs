use scoop_search::app::App;
use scoop_search::bucket::Bucket;
use scoop_search::installed::{Installed, Record};
use scoop_search::parse_args;
use scoop_search::bucket::RemoteResults;
use scoop_search::fuzzy::Query;
use scoop_search::report::{app_line, conclude, report};

fn package(name: &str) -> App {
    App { name: name.into(), version: "1".into(), bin: Vec::new() }
}

fn catalog(names: &[&str]) -> Vec<Bucket> {
    vec![Bucket { name: "main".into(), apps: names.iter().map(|n| package(n)).collect() }]
}

/// A local search as the command runs it: literal results unless fuzzy, and
/// suggestions where the command line or an empty result asks for them.
fn text(catalog: &Vec<Bucket>, installed: &Installed, argv: &[&str]) -> String {
    let mut words = vec!["scoop-search".to_string()];
    words.extend(argv.iter().map(|s| s.to_string()));
    let args = parse_args(words).unwrap();
    let local = args.local_results(catalog);
    assert!(!args.wants_remote(!local.is_empty()));
    conclude(&args, catalog, local, None, installed).join("\n")
}

#[test]
fn automatic_fallback_and_explicit_fuzzy_have_distinct_output() {
    let c = catalog(&["ripgrep", "ripgrip"]);
    let none = Installed::new();
    let exact = text(&c, &none, &["ripgrep"]);
    assert!(exact.contains("'main' bucket:"));
    assert!(!exact.contains("ripgrip"));
    let fallback = text(&c, &none, &["ripgrp"]);
    assert!(fallback.contains("Did you mean?"));
    assert!(fallback.contains("main/ripgrep"));
    let explicit = text(&c, &none, &["--fuzzy", "ripgrep"]);
    assert!(explicit.contains("Fuzzy matches"));
    assert!(explicit.find("main/ripgrep").unwrap() < explicit.find("main/ripgrip").unwrap());
    assert!(text(&c, &none, &["zzzzzz"]).contains("No matches found."));
    assert!(text(&c, &none, &["--local", "rg"]).contains("main/ripgrep"));
}

#[test]
fn nucleo_abbreviations_work_in_explicit_and_automatic_modes() {
    let c = catalog(&["visual-studio-code", "ripgrep", "git"]);
    let none = Installed::new();
    for (query, package) in [("vsc", "visual-studio-code"), ("RG", "ripgrep"), ("gti", "git")] {
        for flags in [vec!["--local", query], vec!["--local", "--fuzzy", "--name-only", query]] {
            assert!(text(&c, &none, &flags).contains(&format!("main/{}", package)));
        }
    }
}

#[test]
fn empty_and_wildcard_queries_still_list_every_package() {
    let names: Vec<String> = (0..12).map(|i| format!("tool{:02}", i)).collect();
    let refs: Vec<&str> = names.iter().map(|s| s.as_str()).collect();
    let c = catalog(&refs);
    let none = Installed::new();
    for args in [&["--local", "--fuzzy"][..], &["--local", "--fuzzy", "*"][..]] {
        let t = text(&c, &none, args);
        assert_eq!(t.matches(" (1)").count(), 12);
        assert!(!t.contains("Fuzzy matches"));
    }
}

#[test]
fn installed_markers_appear_in_literal_and_fuzzy_results() {
    let c = catalog(&["ripgrep"]);
    let mut installed = Installed::new();
    installed.insert(false, "ripgrep", Record { bucket: Some("main".into()), version: "0.9".into() });
    installed.insert(true, "ripgrep", Record { bucket: Some("main".into()), version: "0.8".into() });
    for args in [&["ripgrep"][..], &["ripgrp"][..], &["--fuzzy", "rg"][..]] {
        let t = text(&c, &installed, args);
        assert!(t.contains("ripgrep (1)"));
        assert!(t.contains("[installed: 0.9] [installed globally: 0.8]"));
    }
    installed.insert(false, "ripgrep", Record { bucket: Some("extras".into()), version: "0.9".into() });
    let t = text(&c, &installed, &["ripgrep"]);
    assert!(!t.contains("[installed: 0.9]"));
    assert!(t.contains("[installed globally: 0.8]"));
}

#[test]
fn package_lines_show_version_and_first_executable() {
    let tool = App { name: "tool".into(), version: "2".into(), bin: vec!["foo".into(), "foo.exe".into()] };
    assert_eq!(app_line("", &tool, ""), "    tool (2) --> includes 'foo'");
    let bare = App { name: "bare".into(), version: String::new(), bin: vec!["x".into()] };
    assert_eq!(app_line("extras/", &bare, " [installed: 1]"), "    extras/bare [installed: 1]");
    assert_eq!(app_line("", &package("p"), ""), "    p (1)");
}

#[test]
fn remote_results_have_a_heading() {
    let args = parse_args(vec!["s".into(), "--remote".into(), "x".into()]).unwrap();
    assert!(args.wants_remote(false));
    assert!(!args.wants_remote(true));
    let found = vec![Bucket { name: "extras".into(), apps: vec![package("x")] }];
    let lines = report(&args, &found, true, &Vec::new(), &Installed::new());
    assert_eq!(
        lines,
        [
            "Results from other known buckets...",
            "(add them using 'scoop bucket add <name>')",
            "",
            "'extras' bucket:",
            "    x (1)",
            "",
        ]
    );
    let local = parse_args(vec!["s".into(), "x".into()]).unwrap();
    assert!(!local.wants_remote(false));
    let fuzzy = parse_args(vec!["s".into(), "--remote".into(), "--fuzzy".into(), "x".into()]).unwrap();
    assert!(fuzzy.wants_remote(true));
}

#[test]
fn remote_literal_results_stand_in_for_missing_local_ones() {
    let args = parse_args(vec!["s".into(), "--remote".into(), "ripgrep".into()]).unwrap();
    let catalog = catalog(&["git"]);
    let local = args.local_results(&catalog);
    assert!(local.is_empty());
    assert!(args.wants_remote(false));
    let mut remote = RemoteResults::new();
    remote.add("zeta", vec![package("ripgrep-all")], "ripgrep", &Query::new("ripgrep"));
    remote.add("extras", vec![package("ripgrep"), package("other")], "ripgrep", &Query::new("ripgrep"));
    remote.add("empty", vec![package("other")], "ripgrep", &Query::new("ripgrep"));
    let (buckets, similar) = remote.finish();
    assert_eq!(buckets.iter().map(|b| b.name.as_str()).collect::<Vec<_>>(), ["extras", "zeta"]);
    assert_eq!(similar.len(), 2);
    assert!(similar.iter().all(|s| s.remote));
    let lines = conclude(&args, &catalog, local, Some((buckets, similar)), &Installed::new());
    assert_eq!(lines[0], "Results from other known buckets...");
    assert!(lines.contains(&"'extras' bucket:".to_string()));
    assert!(!lines.iter().any(|l| l.contains("Did you mean?")));
}

#[test]
fn remote_suggestions_join_local_ones_when_nothing_is_found() {
    let args = parse_args(vec!["s".into(), "--remote".into(), "ripgrp".into()]).unwrap();
    let catalog = catalog(&["ripgrip"]);
    let local = args.local_results(&catalog);
    let mut remote = RemoteResults::new();
    remote.add("extras", vec![package("ripgrep")], "ripgrp", &Query::new("ripgrp"));
    let lines = conclude(&args, &catalog, local, Some(remote.finish()), &Installed::new());
    assert_eq!(lines[0], "Did you mean?");
    assert_eq!(lines.len(), 3);
    assert!(lines[1..].iter().any(|l| l.contains("extras/ripgrep")));
    assert!(lines[1..].iter().any(|l| l.contains("main/ripgrip")));
}

#[test]
fn names_only_rereads_only_after_an_empty_literal_search() {
    let names = parse_args(vec!["s".into(), "--name-only".into(), "x".into()]).unwrap();
    assert!(names.rereads_for_suggestions(false));
    assert!(!names.rereads_for_suggestions(true));
    let fuzzy = parse_args(vec!["s".into(), "--name-only".into(), "--fuzzy".into(), "x".into()]).unwrap();
    assert!(!fuzzy.rereads_for_suggestions(false));
    let all = parse_args(vec!["s".into(), "x".into()]).unwrap();
    assert!(!all.rereads_for_suggestions(false));
    assert!(fuzzy.local_results(&catalog(&["x"])).is_empty());
    assert_eq!(all.local_results(&catalog(&["x"])).len(), 1);
}

#[test]
fn remote_suggestions_come_back_ranked() {
    let q = Query::new("git");
    let mut remote = RemoteResults::new();
    remote.add("zeta", vec![package("legit"), package("git-lfs")], "git", &q);
    remote.add("alpha", vec![package("git")], "git", &q);
    let (_, similar) = remote.finish();
    let got: Vec<(&str, &str)> = similar.iter().map(|s| (s.bucket.as_str(), s.app.name.as_str())).collect();
    assert_eq!(got, [("alpha", "git"), ("zeta", "git-lfs"), ("zeta", "legit")]);
    let mut many = RemoteResults::new();
    let apps = (0..12).map(|i| package(&format!("git{:02}", i))).collect();
    many.add("b", apps, "git", &q);
    assert_eq!(many.finish().1.len(), 10);
}
