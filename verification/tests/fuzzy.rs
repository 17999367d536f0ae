use scoop_search::fuzzy::{Query, Score};

#[test]
fn handles_common_typos_and_unicode() {
    for (query, name) in [
        ("gti", "git"),
        ("ripgrp", "ripgrep"),
        ("ripgreep", "ripgrep"),
        ("firefpx", "firefox"),
        ("ÉDITUER", "éditeur"),
        ("visualstudiocode", "visual-studio-code"),
    ] {
        assert!(
            Query::new(query).score(name).is_some(),
            "{} -> {}",
            query,
            name
        );
    }
}

#[test]
fn rejects_noise_but_preserves_literal_queries() {
    for (query, name) in [
        ("tg", "git"),
        ("git", "python"),
        ("---", "git"),
        ("c++", "cpp"),
    ] {
        assert!(Query::new(query).score(name).is_none());
    }
    assert!(Query::new("").score("anything").is_some());
    assert!(Query::new("git").score("git").unwrap() < Query::new("git").score("git-lfs").unwrap());
    assert!(
        Query::new("git").score("git-lfs").unwrap() < Query::new("git").score("legit").unwrap()
    );
}

#[test]
fn nucleo_matches_ordered_abbreviations_and_scores_them() {
    for (query, name) in [
        ("rg", "ripgrep"),
        ("vsc", "visual-studio-code"),
        ("RG", "RipGrep"),
        ("编器", "文字编辑器"),
    ] {
        assert!(
            Query::new(query).score(name).is_some(),
            "{} -> {}",
            query,
            name
        );
    }
    assert!(Query::new("vrsc").score("visual-studio-code").is_none());
    let query = Query::new("vsc");
    assert!(
        query.score("visual-studio-code").unwrap() < query.score("very-long-something-code").unwrap()
    );
    assert!(Query::new("rg").score("rg").unwrap() < Query::new("rg").score("ripgrep").unwrap());
}

#[test]
fn score_kinds_follow_the_cascade() {
    assert_eq!(Query::new("Git").score("GIT"), Some(Score(0, 0, 0)));
    assert_eq!(Query::new("git").score("git-lfs"), Some(Score(1, 0, 7)));
    assert_eq!(Query::new("git").score("legit"), Some(Score(2, 0, 5)));
    assert_eq!(Query::new("gitlfs").score("git-lfs"), Some(Score(3, 0, 0)));
    assert_eq!(Query::new("gti").score("git"), Some(Score(4, 1, 0)));
    assert_eq!(Query::new("ripgreep").score("ripgrep"), Some(Score(4, 1, 1)));
    let abbreviation = Query::new("rg").score("ripgrep").unwrap();
    assert_eq!(abbreviation.0, 5);
    assert_eq!(abbreviation.2, 7);
    assert!(abbreviation.1 < usize::from(u16::MAX));
    assert_eq!(Query::new("").score("x"), Some(Score(1, 0, 1)));
}

#[test]
fn short_and_punctuation_queries_do_not_abbreviate() {
    assert!(Query::new("q").score("ripgrep").is_none());
    assert!(Query::new("r").score("ripgrep").is_some());
    assert!(Query::new("-.").score("a-b.c").is_none());
    assert!(Query::new("ab").score("xyz").is_none());
}

#[test]
fn exact_name_scores_best() {
    let q = Query::new("node");
    let exact = q.score("node").unwrap();
    for other in ["nodejs", "nodejs-lts", "no-de", "nde", "n-o-d-e-x"] {
        if let Some(s) = q.score(other) {
            assert!(exact < s, "{}", other);
        }
    }
}

#[test]
fn subsequence_step_uses_the_given_score() {
    let q = Query::new("rg");
    assert_eq!(q.score_with("ripgrep", Some(100)), Some(Score(5, usize::from(u16::MAX - 100), 7)));
    assert_eq!(q.score_with("ripgrep", None), None);
    // Earlier steps do not consult the subsequence score.
    assert_eq!(q.score_with("rg", None), Some(Score(0, 0, 0)));
    assert_eq!(Query::new("q").score_with("ripgrep", Some(1)), None);
    assert_eq!(Query::new("--").score_with("a-b", Some(1)), None);
    let actual = q.score_lowercase("ripgrep").unwrap();
    assert_eq!(actual.0, 5);
}

#[test]
fn typo_scores_follow_the_alignment_distance() {
    assert_eq!(Query::new("abcd").score("abdc"), Some(Score(4, 1, 0)));
    assert_eq!(Query::new("kitten").score("sittin"), Some(Score(4, 2, 0)));
    assert!(Query::new("abc").score("xyz").is_none());
}
