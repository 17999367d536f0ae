use scoop_search::{parse_args, SECOND_QUERY, UNKNOWN_OPTION};

fn parse(args: &[&str]) -> Result<scoop_search::Args, &'static str> {
    parse_args(args.iter().map(|s| s.to_string()).collect())
}

#[test]
fn arguments_keep_legacy_forms_and_allow_offline_name_search() {
    assert!(!parse(&["search", "FOO"]).unwrap().exclude_bin);
    assert_eq!(parse(&["search", "--bin", "FOO"]).unwrap().query, "foo");
    assert_eq!(parse(&["search", "*"]).unwrap().query, "");
    assert_eq!(parse(&["search"]).unwrap().query, "");
    let args = parse(&["search", "foo", "--local", "--name-only"]).unwrap();
    assert!(args.local_only && args.exclude_bin);
    assert!(parse(&["search", "foo"]).unwrap().local_only);
    assert!(parse(&["search", "--fuzzy", "foo"]).unwrap().local_only);
    assert!(!parse(&["search", "--remote", "foo"]).unwrap().local_only);
    assert!(!parse(&["search", "--fuzzy", "foo", "--remote"]).unwrap().local_only);
    assert!(parse(&["search", "--remote", "--local", "foo"]).unwrap().local_only);
    assert!(!parse(&["search", "--local", "--remote", "foo"]).unwrap().local_only);
    assert!(parse(&["search", "--", "--remote"]).unwrap().local_only);
    assert!(parse(&["search", "--fuzzy", "gti"]).unwrap().fuzzy);
    assert!(!parse(&["search", "--", "--fuzzy"]).unwrap().fuzzy);
    assert_eq!(parse(&["search", "--", "--literal"]).unwrap().query, "--literal");
    assert!(parse(&["search", "--unknown"]).is_err());
    assert!(parse(&["search", "a", "b"]).is_err());
}

#[test]
fn refusals_name_their_reason() {
    assert_eq!(parse(&["search", "--unknown"]).unwrap_err(), UNKNOWN_OPTION);
    assert_eq!(parse(&["search", "a", "b"]).unwrap_err(), SECOND_QUERY);
    assert_eq!(parse(&["search", "--", "a", "b"]).unwrap_err(), SECOND_QUERY);
    assert_eq!(parse(&["search", "a", "--nope", "b"]).unwrap_err(), UNKNOWN_OPTION);
}

#[test]
fn defaults_and_option_positions() {
    let args = parse(&["search", "Git"]).unwrap();
    assert_eq!(args.query, "git");
    assert!(!args.exclude_bin && args.local_only && !args.fuzzy);
    let before = parse(&["search", "--name-only", "git"]).unwrap();
    let after = parse(&["search", "git", "--name-only"]).unwrap();
    assert_eq!(before.query, after.query);
    assert_eq!(before.exclude_bin, after.exclude_bin);
    assert!(after.exclude_bin);
    assert!(!parse(&["search", "--name-only", "--bin", "x"]).unwrap().exclude_bin);
    let empty = parse(&[]).unwrap();
    assert_eq!(empty.query, "");
    assert!(empty.local_only);
}

#[test]
fn separator_makes_later_words_literal() {
    let args = parse(&["search", "--", "--"]).unwrap();
    assert_eq!(args.query, "--");
    let args = parse(&["search", "--", "*"]).unwrap();
    assert_eq!(args.query, "");
    let args = parse(&["search", "-x"]).unwrap();
    assert_eq!(args.query, "-x");
}

#[test]
fn queries_are_lowercased() {
    assert_eq!(parse(&["search", "RipGrep"]).unwrap().query, "ripgrep");
    assert_eq!(parse(&["search", "ÉDITEUR"]).unwrap().query, "éditeur");
}
