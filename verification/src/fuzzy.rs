//! Ranking a candidate name against a query: literal, separator-insensitive,
//! typo-tolerant and subsequence matches, in that order of preference.
use vstd::prelude::*;
use vstd::utf8::encode_utf8;

use crate::text::{
    any_alphanumeric, ascii_only, chars_of, contains, normalize, normalized, occurs_at,
    seq_contains, spec_is_alphanumeric, spec_to_lowercase, starts_with, str_eq, to_lowercase,
};

verus! {

// ----------------------------------------------------------------------
// Calls into strsim and nucleo_matcher
// ----------------------------------------------------------------------

/// What nucleo's `Matcher::fuzzy_match` returns for this haystack and needle,
/// under a matcher configured with these three switches.
pub uninterp spec fn spec_fuzzy_match(
    haystack: Seq<char>,
    needle: Seq<char>,
    ignore_case: bool,
    normalize: bool,
    prefer_prefix: bool,
) -> Option<u16>;

/// The length of nucleo's `Utf32String` made from a string with these characters.
pub uninterp spec fn spec_utf32_len(s: Seq<char>) -> usize;

/// The optimal string alignment distance: the least number of insertions,
/// deletions, substitutions and swaps of adjacent characters that turn `a`
/// into `b`, where no substring is edited twice.
pub open spec fn osa(a: Seq<char>, b: Seq<char>) -> nat
    decreases a.len() + b.len(),
{
    if a.len() == 0 {
        b.len()
    } else if b.len() == 0 {
        a.len()
    } else {
        let x = a.last();
        let y = b.last();
        let delete = osa(a.drop_last(), b) + 1;
        let insert = osa(a, b.drop_last()) + 1;
        let replace = osa(a.drop_last(), b.drop_last()) + if x == y {
            0nat
        } else {
            1nat
        };
        let edit = if delete <= insert && delete <= replace {
            delete
        } else if insert <= replace {
            insert
        } else {
            replace
        };
        if a.len() >= 2 && b.len() >= 2 && x != y && x == b[b.len() - 2] && y == a[a.len() - 2] {
            let swap = osa(a.drop_last().drop_last(), b.drop_last().drop_last()) + 1;
            if swap < edit {
                swap
            } else {
                edit
            }
        } else {
            edit
        }
    }
}

/// Calls `strsim::osa_distance`, whose result is the optimal string alignment
/// distance of the two strings' characters.
#[verifier::external_body]
fn osa_distance(a: &str, b: &str) -> (r: usize)
    ensures
        r == osa(a@, b@),
{
    strsim::osa_distance(a, b)
}

/// Calls `Utf32String::from` and its `len`. The contract claims that the length
/// is a function of the string, and that of an ASCII string it is the number of
/// characters; for other strings (where nucleo counts graphemes) it says nothing
/// more.
#[verifier::external_body]
fn utf32_len(s: &str) -> (r: usize)
    ensures
        r == spec_utf32_len(s@),
        ascii_only(s@) ==> r == s@.len(),
{
    nucleo_matcher::Utf32String::from(s).len()
}

/// Calls `Matcher::fuzzy_match` on a matcher made with `Config::DEFAULT` and the
/// three switches. The contract claims only that the result is a function of the
/// arguments. The callee asserts that the haystack, as nucleo holds it (UTF-8
/// bytes or graphemes), has at most `u32::MAX` items; `requires` bounds the
/// haystack's UTF-8 bytes by that, since nucleo never holds more items than bytes.
#[verifier::external_body]
fn fuzzy_match(haystack: &str, needle: &str, ignore_case: bool, normalize: bool, prefer_prefix: bool) -> (r:
    Option<u16>)
    requires
        encode_utf8(haystack@).len() <= u32::MAX,
    ensures
        r == spec_fuzzy_match(haystack@, needle@, ignore_case, normalize, prefer_prefix),
{
    let mut config = nucleo_matcher::Config::DEFAULT;
    config.ignore_case = ignore_case;
    config.normalize = normalize;
    config.prefer_prefix = prefer_prefix;
    let mut matcher = nucleo_matcher::Matcher::new(config);
    let needle = nucleo_matcher::Utf32String::from(needle);
    let mut buf = Vec::new();
    matcher.fuzzy_match(nucleo_matcher::Utf32Str::new(haystack, &mut buf), needle.slice(..))
}

// ----------------------------------------------------------------------
// Scores
// ----------------------------------------------------------------------

/// How well a candidate matches; lower is better. The first field is the kind of
/// match (0 equal, 1 prefix, 2 substring, 3 equal without separators, 4 typo,
/// 5 subsequence), the others break ties within a kind.
#[derive(Clone, Copy, Debug, Default, PartialEq, Eq, Structural, PartialOrd, Ord)]
pub struct Score(pub u8, pub usize, pub usize);

/// `a` ranks before `b`: lexicographic on the three fields.
pub open spec fn score_lt(a: Score, b: Score) -> bool {
    a.0 < b.0 || (a.0 == b.0 && (a.1 < b.1 || (a.1 == b.1 && a.2 < b.2)))
}

/// Whether `a` ranks before `b`.
pub fn score_less(a: Score, b: Score) -> (r: bool)
    ensures
        r == score_lt(a, b),
{
    a.0 < b.0 || (a.0 == b.0 && (a.1 < b.1 || (a.1 == b.1 && a.2 < b.2)))
}

/// Some character of `s` is alphanumeric.
pub open spec fn has_alphanumeric(s: Seq<char>) -> bool {
    exists|i: int| 0 <= i < s.len() && spec_is_alphanumeric(#[trigger] s[i])
}

/// The score of a lowercase candidate `c` for the lowercase query `t` decided
/// before the subsequence step: `Some` of the answer, or `None` where the
/// subsequence step decides.
pub open spec fn early_rank(t: Seq<char>, c: Seq<char>) -> Option<Option<Score>> {
    if c == t {
        Some(Some(Score(0, 0, 0)))
    } else if seq_contains(c, t) {
        Some(Some(Score(if t.is_prefix_of(c) { 1 } else { 2 }, 0, c.len() as usize)))
    } else if normalized(t).len() == 0 {
        Some(None)
    } else if normalized(c) == normalized(t) {
        Some(Some(Score(3, 0, 0)))
    } else {
        let n = normalized(t).len();
        let m = normalized(c).len();
        let limit: int = if n >= 6 { 2 } else { 1 };
        let delta: int = if n >= m { n - m } else { m - n };
        let distance = osa(normalized(t), normalized(c));
        if 3 <= n <= 128 && delta <= limit && distance <= limit {
            Some(Some(Score(4, distance as usize, delta as usize)))
        } else {
            None
        }
    }
}

/// The subsequence step, given the query's length as nucleo counts it
/// (`needle_len`) and nucleo's score of the candidate (`found`): only queries of
/// 2 to 128 items with an alphanumeric character take part.
pub open spec fn subsequence_rank(t: Seq<char>, c: Seq<char>, needle_len: usize, found: Option<u16>) -> Option<
    Score,
> {
    if !(2 <= needle_len <= 128) || !has_alphanumeric(t) {
        None
    } else {
        match found {
            Some(s) => Some(Score(5, (u16::MAX - s) as usize, c.len() as usize)),
            None => None,
        }
    }
}

/// The score of `c` for `t` given the outcomes of nucleo's two calls.
pub open spec fn rank_given(t: Seq<char>, c: Seq<char>, needle_len: usize, found: Option<u16>) -> Option<
    Score,
> {
    match early_rank(t, c) {
        Some(r) => r,
        None => subsequence_rank(t, c, needle_len, found),
    }
}

/// The score of a lowercase candidate `c` for the lowercase query `t`, or `None`
/// where it does not match at all. Nucleo is asked only about candidates of at
/// most `u32::MAX` UTF-8 bytes; a longer one (on which nucleo may panic) does
/// not match.
pub open spec fn rank(t: Seq<char>, c: Seq<char>) -> Option<Score> {
    rank_given(
        t,
        c,
        spec_utf32_len(t),
        if encode_utf8(c).len() <= u32::MAX {
            spec_fuzzy_match(c, t, false, false, true)
        } else {
            None
        },
    )
}

/// An exact match ranks first: a query scores best against itself, and no
/// candidate scores better.
pub proof fn lemma_exact_match_first(t: Seq<char>, c: Seq<char>)
    ensures
        rank(t, t) == Some(Score(0, 0, 0)),
        rank(t, c) matches Some(s) ==> !score_lt(s, Score(0, 0, 0)),
{
}

/// A candidate containing the query ranks before any candidate that does not.
pub proof fn lemma_literal_first(t: Seq<char>, c: Seq<char>, d: Seq<char>)
    requires
        seq_contains(c, t),
        !seq_contains(d, t),
        rank(t, d) is Some,
    ensures
        rank(t, c) matches Some(sc) && score_lt(sc, rank(t, d)->0),
{
    assert(occurs_at(t, t, 0)) by {
        assert(t.subrange(0, t.len() as int) =~= t);
    }
    assert(d != t);
}

/// Among candidates containing the query, one that begins with it ranks before
/// one that does not.
pub proof fn lemma_prefix_first(t: Seq<char>, c: Seq<char>, d: Seq<char>)
    requires
        t.is_prefix_of(c),
        seq_contains(d, t),
        !t.is_prefix_of(d),
    ensures
        rank(t, c) matches Some(sc) && rank(t, d) matches Some(sd) && score_lt(sc, sd),
{
    assert(occurs_at(c, t, 0)) by {
        assert(c.subrange(0, t.len() as int) =~= t);
    }
    assert(t.is_prefix_of(t)) by {
        assert(t.subrange(0, t.len() as int) =~= t);
    }
    assert(d != t);
}

/// The empty query matches every candidate.
pub proof fn lemma_empty_query_matches(c: Seq<char>)
    ensures
        rank(Seq::empty(), c) is Some,
{
    assert(occurs_at(c, Seq::empty(), 0)) by {
        assert(c.subrange(0, 0) =~= Seq::<char>::empty());
    }
}

/// A candidate that contains the query (and is not the query itself) scores
/// as a literal match: kind 1 when it begins with the query, else kind 2, with
/// the candidate's length.
pub proof fn lemma_literal_scores(t: Seq<char>, c: Seq<char>)
    requires
        seq_contains(c, t),
        c != t,
    ensures
        rank(t, c) == Some(Score(if t.is_prefix_of(c) { 1 } else { 2 }, 0, c.len() as usize)),
{
}

/// A candidate that does not contain the query but equals it once `-`, `_` and
/// spaces are dropped from both scores as kind 3, provided the query has other
/// characters.
pub proof fn lemma_separators_ignored(t: Seq<char>, c: Seq<char>)
    requires
        !seq_contains(c, t),
        normalized(t).len() > 0,
        normalized(c) == normalized(t),
    ensures
        rank(t, c) == Some(Score(3, 0, 0)),
{
    assert(occurs_at(t, t, 0)) by {
        assert(t.subrange(0, t.len() as int) =~= t);
    }
}

/// A query made only of `-`, `_` and spaces matches only the candidates that
/// contain it.
pub proof fn lemma_separator_queries_literal(t: Seq<char>, c: Seq<char>)
    requires
        normalized(t).len() == 0,
        !seq_contains(c, t),
    ensures
        rank(t, c) is None,
{
    assert(occurs_at(t, t, 0)) by {
        assert(t.subrange(0, t.len() as int) =~= t);
    }
}

/// Beyond literal, separator and typo matches, a candidate matches only as a
/// subsequence (kind 5) found by nucleo, and only for queries of 2 to 128 of
/// nucleo's units with an alphanumeric character; its score orders higher nucleo
/// scores first, then shorter candidates.
pub proof fn lemma_subsequence_scores(t: Seq<char>, c: Seq<char>)
    requires
        !seq_contains(c, t),
        normalized(t).len() > 0,
        normalized(c) != normalized(t),
        !(3 <= normalized(t).len() <= 128 && osa(normalized(t), normalized(c)) <= (if normalized(t).len()
            >= 6 {
            2int
        } else {
            1int
        })),
    ensures
        rank(t, c) == if 2 <= spec_utf32_len(t) <= 128 && has_alphanumeric(t) && encode_utf8(c).len()
            <= u32::MAX {
            match spec_fuzzy_match(c, t, false, false, true) {
                Some(s) => Some(Score(5, (u16::MAX - s) as usize, c.len() as usize)),
                None => None,
            }
        } else {
            None
        },
{
    assert(occurs_at(t, t, 0)) by {
        assert(t.subrange(0, t.len() as int) =~= t);
    }
    lemma_osa_at_least_length_gap(normalized(t), normalized(c));
}

/// The alignment distance is at least the difference of the lengths.
pub proof fn lemma_osa_at_least_length_gap(a: Seq<char>, b: Seq<char>)
    ensures
        osa(a, b) >= a.len() - b.len(),
        osa(a, b) >= b.len() - a.len(),
    decreases a.len() + b.len(),
{
    if a.len() > 0 && b.len() > 0 {
        lemma_osa_at_least_length_gap(a.drop_last(), b);
        lemma_osa_at_least_length_gap(a, b.drop_last());
        lemma_osa_at_least_length_gap(a.drop_last(), b.drop_last());
        if a.len() >= 2 && b.len() >= 2 {
            lemma_osa_at_least_length_gap(a.drop_last().drop_last(), b.drop_last().drop_last());
        }
    }
}

/// Typos are corrected: a candidate that neither contains the query nor equals
/// it without separators, but whose separator-free form is within the allowed
/// alignment distance of the query's (one edit for queries of 3 to 5 such
/// characters, two from 6 up to 128), scores as a typo, with that distance and
/// the difference of the two lengths. In particular a single inserted, deleted,
/// replaced or swapped character is accepted for every such query.
pub proof fn lemma_typos_corrected(t: Seq<char>, c: Seq<char>)
    requires
        3 <= normalized(t).len() <= 128,
        !seq_contains(c, t),
        normalized(c) != normalized(t),
        osa(normalized(t), normalized(c)) <= (if normalized(t).len() >= 6 { 2int } else { 1int }),
    ensures
        rank(t, c) == Some(
            Score(
                4,
                osa(normalized(t), normalized(c)) as usize,
                (if normalized(t).len() >= normalized(c).len() {
                    normalized(t).len() - normalized(c).len()
                } else {
                    normalized(c).len() - normalized(t).len()
                }) as usize,
            ),
        ),
{
    assert(occurs_at(t, t, 0)) by {
        assert(t.subrange(0, t.len() as int) =~= t);
    }
    assert(c != t);
    lemma_osa_at_least_length_gap(normalized(t), normalized(c));
}

// ----------------------------------------------------------------------
// Queries
// ----------------------------------------------------------------------

/// A search query, lowercased, with what its scoring needs.
pub struct Query {
    text: String,
    normalized: String,
    normalized_len: usize,
    needle_len: usize,
    alphanumeric: bool,
}

impl Query {
    #[verifier::type_invariant]
    spec fn well_formed(self) -> bool {
        &&& self.normalized@ == normalized(self.text@)
        &&& self.normalized_len == self.normalized@.len()
        &&& self.needle_len == spec_utf32_len(self.text@)
        &&& self.alphanumeric == has_alphanumeric(self.text@)
    }

    /// The lowercase query.
    pub closed spec fn view(&self) -> Seq<char> {
        self.text@
    }

    /// The query for `text`, lowercased.
    pub fn new(text: &str) -> (q: Query)
        ensures
            q.view() == spec_to_lowercase(text@),
            ascii_only(q.view()) ==> spec_utf32_len(q.view()) == q.view().len(),
    {
        let text = to_lowercase(text);
        let normalized = normalize(text.as_str());
        let normalized_len = chars_of(normalized.as_str()).len();
        let needle_len = utf32_len(text.as_str());
        let alphanumeric = any_alphanumeric(text.as_str());
        Query { text, normalized, normalized_len, needle_len, alphanumeric }
    }

    /// The score of `candidate`, compared without regard to case.
    pub fn score(&self, candidate: &str) -> (r: Option<Score>)
        ensures
            r == rank(self.view(), spec_to_lowercase(candidate@)),
    {
        let lower = to_lowercase(candidate);
        self.score_lowercase(lower.as_str())
    }

    /// The score of a candidate that is already lowercase.
    pub fn score_lowercase(&self, candidate: &str) -> (r: Option<Score>)
        ensures
            r == rank(self.view(), candidate@),
    {
        proof {
            use_type_invariant(self);
        }
        match self.early(candidate) {
            Some(r) => r,
            None => {
                if !self.takes_subsequences() {
                    return None;
                }
                let found = if candidate.as_bytes().len() <= 0xffff_ffff {
                    fuzzy_match(candidate, self.text.as_str(), false, false, true)
                } else {
                    None
                };
                self.score_with(candidate, found)
            },
        }
    }

    /// The score of a lowercase candidate, given nucleo's score of it for this
    /// query (`found`, consulted only by the subsequence step).
    pub fn score_with(&self, candidate: &str, found: Option<u16>) -> (r: Option<Score>)
        ensures
            r == rank_given(self.view(), candidate@, spec_utf32_len(self.view()), found),
    {
        proof {
            use_type_invariant(self);
        }
        match self.early(candidate) {
            Some(r) => r,
            None => {
                if !self.takes_subsequences() {
                    return None;
                }
                match found {
                    Some(s) => Some(Score(5, (0xffffu16 - s) as usize, chars_of(candidate).len())),
                    None => None,
                }
            },
        }
    }

    /// Whether this query takes part in the subsequence step.
    fn takes_subsequences(&self) -> (r: bool)
        ensures
            r == (2 <= spec_utf32_len(self.view()) <= 128 && has_alphanumeric(self.view())),
    {
        proof {
            use_type_invariant(self);
        }
        2 <= self.needle_len && self.needle_len <= 128 && self.alphanumeric
    }

    /// The score decided before the subsequence step.
    fn early(&self, candidate: &str) -> (r: Option<Option<Score>>)
        ensures
            r == early_rank(self.view(), candidate@),
    {
        proof {
            use_type_invariant(self);
        }
        let t = self.text.as_str();
        let length = chars_of(candidate).len();
        if str_eq(candidate, t) {
            return Some(Some(Score(0, 0, 0)));
        }
        if contains(candidate, t) {
            let kind: u8 = if starts_with(candidate, t) { 1 } else { 2 };
            return Some(Some(Score(kind, 0, length)));
        }
        if self.normalized_len == 0 {
            return Some(None);
        }
        let normalized = normalize(candidate);
        if str_eq(normalized.as_str(), self.normalized.as_str()) {
            return Some(Some(Score(3, 0, 0)));
        }
        let n = self.normalized_len;
        let m = chars_of(normalized.as_str()).len();
        if 3 <= n && n <= 128 {
            let limit: usize = if n >= 6 { 2 } else { 1 };
            let delta: usize = if n >= m { n - m } else { m - n };
            if delta <= limit {
                let distance = osa_distance(self.normalized.as_str(), normalized.as_str());
                if distance <= limit {
                    return Some(Some(Score(4, distance, delta)));
                }
            }
        }
        None
    }
}

} // verus!
