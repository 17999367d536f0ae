//! Packages: reading a manifest, and matching a package against a query by
//! its name or by the executables it installs.
use vstd::prelude::*;

use crate::fuzzy::{rank, score_less, score_lt, Query, Score};
use crate::json::{parse_json, spec_parse_json, strings_among, strings_in, views, Json};
use crate::order::{
    by_name, insert_name, lemma_by_name_strict, lemma_listing, lemma_listing_exists, listing,
    sorted_strict, strict_order, strictly_sorted, Keyed, Named,
};
use crate::text::{
    contains, copy_str, has_char, last_segment, last_segment_of, lemma_last_segment_idempotent,
    lemma_lex_irreflexive, lemma_lex_total, lemma_lex_transitive, lex_less, lex_lt, seq_contains,
    spec_to_lowercase, starts_with, str_eq, strip_suffix, to_lowercase,
};

verus! {

/// A package of a bucket: its name, its version (empty where unknown) and the
/// executables it declares.
#[derive(Debug, Clone)]
pub struct App {
    pub name: String,
    pub version: String,
    pub bin: Vec<String>,
}

impl Keyed for App {
    open spec fn key(&self) -> Seq<char> {
        self.name@
    }
}

impl Named for App {
    fn name_str(&self) -> (r: &str) {
        self.name.as_str()
    }
}

/// A package as plain values: name, version, executables.
pub type AppView = (Seq<char>, Seq<char>, Seq<Seq<char>>);

impl View for App {
    type V = AppView;

    open spec fn view(&self) -> AppView {
        (self.name@, self.version@, views(self.bin@))
    }
}

impl Keyed for AppView {
    open spec fn key(&self) -> Seq<char> {
        self.0
    }
}

/// The view of an optional package.
pub open spec fn app_option_view(a: Option<App>) -> Option<AppView> {
    match a {
        Some(x) => Some(x@),
        None => None,
    }
}

// ----------------------------------------------------------------------
// Manifests
// ----------------------------------------------------------------------

/// The error for a repository listing that is not JSON.
pub const INVALID_LISTING: &'static str = "Invalid repository listing";

/// The executables one item of a `bin` array declares: a string names one; an
/// array names an executable and its alias, and never arguments beyond them.
pub open spec fn entry_bins(v: Json) -> Seq<Seq<char>> {
    match v {
        Json::Str(s) => seq![s@],
        Json::Array(w) => strings_in(w@.take(if w@.len() < 2 { w@.len() as int } else { 2 })),
        _ => Seq::empty(),
    }
}

/// The executables a `bin` array declares, in order.
pub open spec fn bins_in(values: Seq<Json>) -> Seq<Seq<char>>
    decreases values.len(),
{
    if values.len() == 0 {
        Seq::empty()
    } else {
        bins_in(values.drop_last()) + entry_bins(values.last())
    }
}

/// The executables of a manifest.
pub open spec fn manifest_bins(m: Json) -> Seq<Seq<char>> {
    match m.field("bin"@) {
        Some(Json::Str(s)) => seq![s@],
        Some(Json::Array(values)) => bins_in(values@),
        _ => Seq::empty(),
    }
}

/// The version of a manifest: empty where it has none, `None` where it is not a string.
pub open spec fn manifest_version(m: Json) -> Option<Seq<char>> {
    match m.field("version"@) {
        None => Some(Seq::empty()),
        Some(Json::Str(s)) => Some(s@),
        Some(_) => None,
    }
}

proof fn lemma_views_add(a: Seq<String>, b: Seq<String>)
    ensures
        views(a + b) == views(a) + views(b),
{
    assert(views(a + b) =~= views(a) + views(b));
}

fn entry_bins_of(v: &Json) -> (r: Vec<String>)
    ensures
        views(r@) == entry_bins(*v),
{
    match v {
        Json::Str(s) => {
            let mut r = Vec::new();
            r.push(s.clone());
            assert(views(r@) =~= seq![s@]);
            r
        },
        Json::Array(w) => {
            let n = if w.len() < 2 { w.len() } else { 2 };
            strings_among(w, n)
        },
        _ => {
            let r = Vec::new();
            assert(views(r@) =~= Seq::<Seq<char>>::empty());
            r
        },
    }
}

fn bins_of(values: &Vec<Json>) -> (r: Vec<String>)
    ensures
        views(r@) == bins_in(values@),
{
    let mut r: Vec<String> = Vec::new();
    let mut i: usize = 0;
    assert(views(r@) =~= Seq::<Seq<char>>::empty());
    while i < values.len()
        invariant
            i <= values.len(),
            views(r@) == bins_in(values@.take(i as int)),
        decreases values.len() - i,
    {
        assert(values@.take(i + 1).drop_last() =~= values@.take(i as int));
        let mut more = entry_bins_of(&values[i]);
        let ghost before = r@;
        let ghost extra = more@;
        r.append(&mut more);
        proof {
            lemma_views_add(before, extra);
        }
        i += 1;
    }
    assert(values@.take(values.len() as int) =~= values@);
    r
}

// ----------------------------------------------------------------------
// Literal matching
// ----------------------------------------------------------------------

/// The last path segment of each executable whose lowercase form contains `q`.
pub open spec fn matching_bins(bins: Seq<Seq<char>>, q: Seq<char>) -> Set<Seq<char>> {
    Set::new(
        |s: Seq<char>|
            exists|i: int|
                0 <= i < bins.len() && s == last_segment(#[trigger] bins[i], true) && seq_contains(
                    spec_to_lowercase(s),
                    q,
                ),
    )
}

/// The lowercase form of the package name contains `q`.
pub open spec fn name_matches(name: Seq<char>, q: Seq<char>) -> bool {
    seq_contains(spec_to_lowercase(name), q)
}

// ----------------------------------------------------------------------
// Fuzzy matching
// ----------------------------------------------------------------------

/// The stem of a lowercase executable name: without the first of the known
/// extensions that it ends with.
pub open spec fn stem_of(l: Seq<char>) -> Option<Seq<char>> {
    if ".exe"@.is_suffix_of(l) {
        Some(l.take(l.len() - ".exe"@.len()))
    } else if ".cmd"@.is_suffix_of(l) {
        Some(l.take(l.len() - ".cmd"@.len()))
    } else if ".bat"@.is_suffix_of(l) {
        Some(l.take(l.len() - ".bat"@.len()))
    } else if ".ps1"@.is_suffix_of(l) {
        Some(l.take(l.len() - ".ps1"@.len()))
    } else if ".com"@.is_suffix_of(l) {
        Some(l.take(l.len() - ".com"@.len()))
    } else if ".sh"@.is_suffix_of(l) {
        Some(l.take(l.len() - ".sh"@.len()))
    } else {
        None
    }
}

/// The better of two optional scores.
pub open spec fn best_of(a: Option<Score>, b: Option<Score>) -> Option<Score> {
    match (a, b) {
        (Some(x), Some(y)) => if score_lt(y, x) { Some(y) } else { Some(x) },
        (Some(x), None) => Some(x),
        (None, y) => y,
    }
}

/// The score of an executable name (a last path segment): the better of the
/// name's score and its stem's.
pub open spec fn segment_score(q: Seq<char>, seg: Seq<char>) -> Option<Score> {
    best_of(
        rank(q, spec_to_lowercase(seg)),
        match stem_of(spec_to_lowercase(seg)) {
            Some(st) => rank(q, spec_to_lowercase(st)),
            None => None,
        },
    )
}

/// The executable names of `bins` that have a score.
pub open spec fn scored_bins(q: Seq<char>, bins: Seq<Seq<char>>) -> Set<Seq<char>> {
    Set::new(
        |s: Seq<char>|
            exists|i: int|
                0 <= i < bins.len() && s == last_segment(#[trigger] bins[i], true) && segment_score(
                    q,
                    s,
                ) is Some,
    )
}

/// Order of (score, name) pairs: by score, then by name.
pub open spec fn pair_lt(a: (Score, Seq<char>), b: (Score, Seq<char>)) -> bool {
    score_lt(a.0, b.0) || (a.0 == b.0 && lex_lt(a.1, b.1))
}

/// The (score, name) pairs of scored names, strictly increasing.
pub open spec fn pairs_sorted(s: Seq<(Score, Seq<char>)>) -> bool {
    forall|i: int, j: int| 0 <= i < j < s.len() ==> pair_lt(#[trigger] s[i], #[trigger] s[j])
}

/// The views of (score, name) pairs.
pub open spec fn pair_views(v: Seq<(Score, String)>) -> Seq<(Score, Seq<char>)> {
    v.map_values(|p: (Score, String)| (p.0, p.1@))
}

/// The names of (score, name) pairs.
pub open spec fn names_of(s: Seq<(Score, Seq<char>)>) -> Seq<Seq<char>> {
    s.map_values(|p: (Score, Seq<char>)| p.1)
}

/// Names ordered by their segment scores, then by name.
pub open spec fn ranked(q: Seq<char>, names: Seq<Seq<char>>) -> bool {
    &&& forall|i: int| 0 <= i < names.len() ==> segment_score(q, #[trigger] names[i]) is Some
    &&& forall|i: int, j: int|
        0 <= i < j < names.len() ==> pair_lt(
            (segment_score(q, #[trigger] names[i])->0, names[i]),
            (segment_score(q, #[trigger] names[j])->0, names[j]),
        )
}

proof fn lemma_pair_total(a: (Score, Seq<char>), b: (Score, Seq<char>))
    ensures
        a != b ==> pair_lt(a, b) || pair_lt(b, a),
        !(pair_lt(a, b) && pair_lt(b, a)),
        !pair_lt(a, a),
{
    lemma_lex_total(a.1, b.1);
    lemma_lex_irreflexive(a.1);
}

proof fn lemma_pair_transitive(a: (Score, Seq<char>), b: (Score, Seq<char>), c: (Score, Seq<char>))
    requires
        pair_lt(a, b),
        pair_lt(b, c),
    ensures
        pair_lt(a, c),
{
    if a.0 == b.0 && b.0 == c.0 {
        lemma_lex_transitive(a.1, b.1, c.1);
    }
}

fn pair_less(a: &(Score, String), b: &(Score, String)) -> (r: bool)
    ensures
        r == pair_lt((a.0, a.1@), (b.0, b.1@)),
{
    score_less(a.0, b.0) || (a.0 == b.0 && lex_less(a.1.as_str(), b.1.as_str()))
}

fn insert_pair(v: &mut Vec<(Score, String)>, x: (Score, String))
    requires
        pairs_sorted(pair_views(old(v)@)),
    ensures
        pairs_sorted(pair_views(final(v)@)),
        pair_views(final(v)@).to_set() == pair_views(old(v)@).to_set().insert((x.0, x.1@)),
{
    let ghost old_v = pair_views(v@);
    let ghost xv = (x.0, x.1@);
    let mut p: usize = 0;
    while p < v.len() && pair_less(&v[p], &x)
        invariant
            p <= v.len(),
            pair_views(v@) == old_v,
            xv == (x.0, x.1@),
            forall|i: int| 0 <= i < p ==> pair_lt(#[trigger] pair_views(v@)[i], xv),
        decreases v.len() - p,
    {
        p += 1;
    }
    if p < v.len() && v[p].0 == x.0 && str_eq(v[p].1.as_str(), x.1.as_str()) {
        assert(pair_views(v@)[p as int] == xv);
        assert(pair_views(v@).to_set() =~= old_v.to_set().insert(xv));
        return ;
    }
    proof {
        if p < v.len() {
            lemma_pair_total(old_v[p as int], xv);
        }
    }
    v.insert(p, x);
    proof {
        let nv = pair_views(v@);
        assert(nv =~= old_v.insert(p as int, xv));
        assert forall|i: int, j: int| 0 <= i < j < nv.len() implies pair_lt(
            #[trigger] nv[i],
            #[trigger] nv[j],
        ) by {
            if j < p {
            } else if j == p {
            } else if i < p {
                if j - 1 > p {
                    assert(pair_lt(old_v[p as int], old_v[j - 1]));
                    lemma_pair_transitive(xv, old_v[p as int], old_v[j - 1]);
                }
                lemma_pair_transitive(nv[i], xv, nv[j]);
            } else if i == p {
                if j - 1 > p {
                    assert(pair_lt(old_v[p as int], old_v[j - 1]));
                    lemma_pair_transitive(xv, old_v[p as int], old_v[j - 1]);
                }
            } else {
                assert(nv[i] == old_v[i - 1]);
                assert(nv[j] == old_v[j - 1]);
            }
        }
        assert forall|y: (Score, Seq<char>)| nv.contains(y) <==> old_v.contains(y) || y == xv by {
            if nv.contains(y) {
                let k = choose|k: int| 0 <= k < nv.len() && nv[k] == y;
                if k < p {
                    assert(old_v[k] == y);
                } else if k > p {
                    assert(old_v[k - 1] == y);
                }
            }
            if old_v.contains(y) {
                let k = choose|k: int| 0 <= k < old_v.len() && old_v[k] == y;
                if k < p {
                    assert(nv[k] == y);
                } else {
                    assert(nv[k + 1] == y);
                }
            }
            if y == xv {
                assert(nv[p as int] == y);
            }
        }
        assert(nv.to_set() =~= old_v.to_set().insert(xv));
    }
}

/// The executable names to report for a scored match, in the order of `ranked`.
pub open spec fn by_rank(q: Seq<char>) -> spec_fn(Seq<char>, Seq<char>) -> bool {
    |a: Seq<char>, b: Seq<char>|
        pair_lt((segment_score(q, a)->0, a), (segment_score(q, b)->0, b))
}

proof fn lemma_by_rank_strict(q: Seq<char>)
    ensures
        strict_order(by_rank(q)),
{
    assert forall|a: Seq<char>| !#[trigger] by_rank(q)(a, a) by {
        lemma_pair_total((segment_score(q, a)->0, a), (segment_score(q, a)->0, a));
    }
    assert forall|a: Seq<char>, b: Seq<char>, c: Seq<char>| #[trigger]
        by_rank(q)(a, b) && #[trigger] by_rank(q)(b, c) implies by_rank(q)(a, c) by {
        lemma_pair_transitive(
            (segment_score(q, a)->0, a),
            (segment_score(q, b)->0, b),
            (segment_score(q, c)->0, c),
        );
    }
}

/// The result of literal matching, as plain values: the package when its name,
/// or else (unless `names_only`) one of its executables, contains `q` without
/// regard to case; the executables dropped on a name match, else the matching
/// last path segments in order.
pub open spec fn matched(a: AppView, q: Seq<char>, names_only: bool) -> Option<AppView> {
    if name_matches(a.0, q) {
        Some((a.0, a.1, Seq::empty()))
    } else if names_only || matching_bins(a.2, q) == Set::<Seq<char>>::empty() {
        None
    } else {
        Some((a.0, a.1, listing(matching_bins(a.2, q), by_name())))
    }
}

/// The executable names considered by fuzzy matching.
pub open spec fn candidate_bins(q: Seq<char>, bins: Seq<Seq<char>>, names_only: bool) -> Set<
    Seq<char>,
> {
    if names_only {
        Set::empty()
    } else {
        scored_bins(q, bins)
    }
}

/// The result of fuzzy matching, as plain values: the better of the name's score
/// and the best executable's score; the executables dropped when the name scores
/// best, else the scored executable names, best first.
pub open spec fn fuzzy_matched(a: AppView, q: Seq<char>, names_only: bool) -> Option<(Score, AppView)> {
    let name_score = rank(q, spec_to_lowercase(a.0));
    let list = listing(candidate_bins(q, a.2, names_only), by_rank(q));
    let bin_score = if list.len() > 0 {
        Some(segment_score(q, list[0])->0)
    } else {
        None
    };
    match best_of(name_score, bin_score) {
        None => None,
        Some(s) => Some(
            (
                s,
                (
                    a.0,
                    a.1,
                    if name_score == Some(s) {
                        Seq::empty()
                    } else {
                        list
                    },
                ),
            ),
        ),
    }
}

/// The package named by an entry of a repository tree: a file (`blob`) whose
/// path ends in `.json` and lies in `bucket/` or at the top; the name is the
/// file name without `.json`.
pub open spec fn tree_entry_name(e: Json) -> Option<Seq<char>> {
    if e.at("type"@).string_view() == Some("blob"@) {
        match e.at("path"@).string_view() {
            Some(p) => if ("bucket/"@.is_prefix_of(p) || !p.contains('/')) && ".json"@.is_suffix_of(p) {
                Some(last_segment(p.take(p.len() - ".json"@.len()), false))
            } else {
                None
            },
            None => None,
        }
    } else {
        None
    }
}

/// The names of the packages in a repository tree whose lowercase form contains `q`.
pub open spec fn listed_names(tree: Seq<Json>, q: Seq<char>) -> Set<Seq<char>> {
    Set::new(
        |n: Seq<char>|
            exists|i: int|
                0 <= i < tree.len() && #[trigger] tree_entry_name(tree[i]) == Some(n) && name_matches(
                    n,
                    q,
                ),
    )
}

fn tree_entry_name_of(e: &Json) -> (r: Option<String>)
    ensures
        match r {
            Some(n) => tree_entry_name(*e) == Some(n@),
            None => tree_entry_name(*e) is None,
        },
{
    let blob = match e.get("type") {
        Some(t) => t.is_string("blob"),
        None => false,
    };
    if !blob {
        return None;
    }
    let path = match e.get("path") {
        Some(p) => match p.as_string() {
            Some(s) => s,
            None => return None,
        },
        None => return None,
    };
    if !(starts_with(path.as_str(), "bucket/") || !has_char(path.as_str(), '/')) {
        return None;
    }
    match strip_suffix(path.as_str(), ".json") {
        Some(stem) => Some(last_segment_of(stem.as_str(), false)),
        None => None,
    }
}

/// The empty query lists every package, without its executables.
pub proof fn lemma_empty_query_lists_all(a: AppView, names_only: bool)
    ensures
        matched(a, Seq::empty(), names_only) == Some((a.0, a.1, Seq::<Seq<char>>::empty())),
{
    let l = spec_to_lowercase(a.0);
    assert(crate::text::occurs_at(l, Seq::empty(), 0)) by {
        assert(l.subrange(0, 0) =~= Seq::<char>::empty());
    }
}

/// Searching names only narrows a search: a package found by its name is found
/// the same way when executables are searched too.
pub proof fn lemma_names_only_narrows(a: AppView, q: Seq<char>)
    ensures
        matched(a, q, true) is Some ==> matched(a, q, false) == matched(a, q, true),
        matched(a, q, true) is Some <==> name_matches(a.0, q),
{
}

/// A names-only fuzzy match is scored by the name alone and lists no executables.
pub proof fn lemma_names_only_fuzzy(a: AppView, q: Seq<char>)
    ensures
        fuzzy_matched(a, q, true) == match rank(q, spec_to_lowercase(a.0)) {
            Some(s) => Some((s, (a.0, a.1, Seq::<Seq<char>>::empty()))),
            None => None,
        },
{
    let e = Seq::<Seq<char>>::empty();
    assert(e.to_set() =~= Set::<Seq<char>>::empty());
    assert(sorted_strict(e, by_rank(q)));
    let l = listing(candidate_bins(q, a.2, true), by_rank(q));
    if l.len() > 0 {
        assert(l.to_set().contains(l[0]));
    }
}

/// Matching a matched package again gives it back unchanged.
pub proof fn lemma_matching_idempotent(a: AppView, q: Seq<char>, names_only: bool)
    ensures
        matched(a, q, names_only) matches Some(r) ==> matched(r, q, names_only) == Some(r),
{
    if !name_matches(a.0, q) && !names_only && matching_bins(a.2, q) != Set::<Seq<char>>::empty() {
        let m = matching_bins(a.2, q);
        let segments = a.2.map_values(|b: Seq<char>| last_segment(b, true));
        assert forall|x: Seq<char>| m.contains(x) implies segments.to_set().contains(x) by {
            let i = choose|i: int|
                0 <= i < a.2.len() && x == last_segment(#[trigger] a.2[i], true) && seq_contains(
                    spec_to_lowercase(x),
                    q,
                );
            assert(segments[i] == x);
        }
        vstd::seq_lib::seq_to_set_is_finite(segments);
        vstd::set_lib::lemma_set_subset_finite(segments.to_set(), m);
        lemma_by_name_strict();
        assert forall|x: Seq<char>, y: Seq<char>| m.contains(x) && m.contains(y) && x != y implies #[trigger] by_name()(x, y) || #[trigger] by_name()(y, x) by {
            lemma_lex_total(x, y);
        }
        lemma_listing_exists(m, by_name());
        let l = listing(m, by_name());
        assert forall|x: Seq<char>| matching_bins(l, q).contains(x) <==> m.contains(x) by {
            if matching_bins(l, q).contains(x) {
                let i = choose|i: int|
                    0 <= i < l.len() && x == last_segment(#[trigger] l[i], true) && seq_contains(
                        spec_to_lowercase(x),
                        q,
                    );
                assert(l.to_set().contains(l[i]));
                let k = choose|k: int|
                    0 <= k < a.2.len() && l[i] == last_segment(#[trigger] a.2[k], true) && seq_contains(
                        spec_to_lowercase(l[i]),
                        q,
                    );
                lemma_last_segment_idempotent(a.2[k], true);
            }
            if m.contains(x) {
                assert(l.to_set().contains(x));
                let i = choose|i: int| 0 <= i < l.len() && l[i] == x;
                let k = choose|k: int|
                    0 <= k < a.2.len() && x == last_segment(#[trigger] a.2[k], true) && seq_contains(
                        spec_to_lowercase(x),
                        q,
                    );
                lemma_last_segment_idempotent(a.2[k], true);
                assert(x == last_segment(l[i], true));
            }
        }
        assert(matching_bins(l, q) =~= m);
    }
}

/// The extensions of executables whose stems are scored too.
pub open spec fn is_executable_extension(e: Seq<char>) -> bool {
    e == ".exe"@ || e == ".cmd"@ || e == ".bat"@ || e == ".ps1"@ || e == ".com"@ || e == ".sh"@
}

proof fn lemma_suffix_last(x: Seq<char>, l: Seq<char>)
    requires
        x.len() > 0,
        x.is_suffix_of(l),
    ensures
        l.last() == x.last(),
{
    assert(l.subrange(l.len() - x.len(), l.len() as int)[x.len() - 1] == l[l.len() - 1]);
}

/// An executable's stem is its name without its extension, for each of the
/// extensions `.exe`, `.cmd`, `.bat`, `.ps1`, `.com` and `.sh`.
pub proof fn lemma_stem_strips_extension(l: Seq<char>, e: Seq<char>)
    requires
        is_executable_extension(e),
        e.is_suffix_of(l),
    ensures
        stem_of(l) == Some(l.take(l.len() - e.len())),
{
    reveal_strlit(".exe");
    reveal_strlit(".cmd");
    reveal_strlit(".bat");
    reveal_strlit(".ps1");
    reveal_strlit(".com");
    reveal_strlit(".sh");
    lemma_suffix_last(e, l);
    if ".exe"@.is_suffix_of(l) {
        lemma_suffix_last(".exe"@, l);
    }
    if ".cmd"@.is_suffix_of(l) {
        lemma_suffix_last(".cmd"@, l);
    }
    if ".bat"@.is_suffix_of(l) {
        lemma_suffix_last(".bat"@, l);
    }
    if ".ps1"@.is_suffix_of(l) {
        lemma_suffix_last(".ps1"@, l);
    }
    if ".com"@.is_suffix_of(l) {
        lemma_suffix_last(".com"@, l);
    }
    if ".sh"@.is_suffix_of(l) {
        lemma_suffix_last(".sh"@, l);
    }
}

/// An executable scores at least as well as its stem: where the name without
/// one of the extensions scores, the executable scores, no worse.
pub proof fn lemma_stem_scores(q: Seq<char>, seg: Seq<char>, e: Seq<char>)
    requires
        is_executable_extension(e),
        e.is_suffix_of(spec_to_lowercase(seg)),
    ensures
        ({
            let l = spec_to_lowercase(seg);
            rank(q, spec_to_lowercase(l.take(l.len() - e.len()))) matches Some(s) ==> (segment_score(
                q,
                seg,
            ) matches Some(b) && !score_lt(s, b))
        }),
{
    lemma_stem_strips_extension(spec_to_lowercase(seg), e);
}

fn stem(lower: &str) -> (r: Option<String>)
    ensures
        match r {
            Some(s) => stem_of(lower@) == Some(s@),
            None => stem_of(lower@) is None,
        },
{
    if let Some(s) = strip_suffix(lower, ".exe") {
        return Some(s);
    }
    if let Some(s) = strip_suffix(lower, ".cmd") {
        return Some(s);
    }
    if let Some(s) = strip_suffix(lower, ".bat") {
        return Some(s);
    }
    if let Some(s) = strip_suffix(lower, ".ps1") {
        return Some(s);
    }
    if let Some(s) = strip_suffix(lower, ".com") {
        return Some(s);
    }
    strip_suffix(lower, ".sh")
}

fn best(a: Option<Score>, b: Option<Score>) -> (r: Option<Score>)
    ensures
        r == best_of(a, b),
{
    match (a, b) {
        (Some(x), Some(y)) => if score_less(y, x) {
            Some(y)
        } else {
            Some(x)
        },
        (Some(x), None) => Some(x),
        (None, y) => y,
    }
}

fn segment_score_of(query: &Query, seg: &str) -> (r: Option<Score>)
    ensures
        r == segment_score(query.view(), seg@),
{
    let lower = to_lowercase(seg);
    let direct = query.score(seg);
    let by_stem = match stem(lower.as_str()) {
        Some(st) => query.score(st.as_str()),
        None => None,
    };
    best(direct, by_stem)
}

impl App {
    /// A copy of the package.
    pub fn copy(&self) -> (r: App)
        ensures
            r@ == self@,
    {
        let mut bin: Vec<String> = Vec::new();
        let mut i: usize = 0;
        while i < self.bin.len()
            invariant
                i <= self.bin.len(),
                views(bin@) == views(self.bin@).take(i as int),
            decreases self.bin.len() - i,
        {
            let ghost before = views(bin@);
            let b = self.bin[i].clone();
            assert(b@ == self.bin@[i as int]@);
            bin.push(b);
            assert(views(bin@) =~= before.push(b@));
            assert(views(bin@) =~= views(self.bin@).take(i + 1));
            i += 1;
        }
        assert(views(self.bin@).take(self.bin.len() as int) =~= views(self.bin@));
        App { name: self.name.clone(), version: self.version.clone(), bin }
    }

    /// The packages of a repository tree (the response of GitHub's tree
    /// listing) whose names contain `query`, sorted by name, each once, with
    /// no version and no executables.
    pub fn remote_matches(response: &Json, query: &str) -> (r: Result<Vec<App>, &'static str>)
        ensures
            match r {
                Ok(apps) => response.field("tree"@) matches Some(Json::Array(tree)) && {
                    let l = listing(listed_names(tree@, query@), by_name());
                    &&& apps@.len() == l.len()
                    &&& forall|i: int|
                        0 <= i < l.len() ==> #[trigger] apps@[i]@ == (
                            l[i],
                            Seq::<char>::empty(),
                            Seq::<Seq<char>>::empty(),
                        )
                    &&& forall|i: int, j: int|
                        0 <= i < j < apps@.len() ==> lex_lt(
                            #[trigger] apps@[i].name@,
                            #[trigger] apps@[j].name@,
                        )
                    &&& forall|n: Seq<char>|
                        #[trigger] listed_names(tree@, query@).contains(n) <==> exists|i: int|
                            0 <= i < apps@.len() && #[trigger] apps@[i].name@ == n
                },
                Err(e) => !(response.field("tree"@) matches Some(Json::Array(_))) && e@
                    == "Missing repository tree"@,
            },
    {
        let tree = match response.get("tree") {
            Some(Json::Array(t)) => t,
            _ => return Err("Missing repository tree"),
        };
        let mut names: Vec<String> = Vec::new();
        let mut i: usize = 0;
        assert(views(names@).to_set() =~= listed_names(tree@.take(0), query@));
        while i < tree.len()
            invariant
                i <= tree.len(),
                strictly_sorted(views(names@)),
                views(names@).to_set() == listed_names(tree@.take(i as int), query@),
            decreases tree.len() - i,
        {
            let found = tree_entry_name_of(&tree[i]);
            let ghost fv = match &found {
                Some(n) => Some(n@),
                None => None::<Seq<char>>,
            };
            let mut hit = false;
            match found {
                Some(n) => {
                    let lower = to_lowercase(n.as_str());
                    if contains(lower.as_str(), query) {
                        hit = true;
                        insert_name(&mut names, n);
                    }
                },
                None => {},
            }
            proof {
                let prev = tree@.take(i as int);
                let next = tree@.take(i + 1);
                assert(next[i as int] == tree@[i as int]);
                assert forall|n: Seq<char>| listed_names(next, query@).contains(n) <==> (
                listed_names(prev, query@).contains(n) || (hit && fv == Some(n))) by {
                    if listed_names(next, query@).contains(n) {
                        let k = choose|k: int|
                            0 <= k < next.len() && #[trigger] tree_entry_name(next[k]) == Some(n)
                                && name_matches(n, query@);
                        if k < i {
                            assert(prev[k] == next[k]);
                        }
                    }
                    if listed_names(prev, query@).contains(n) {
                        let k = choose|k: int|
                            0 <= k < prev.len() && #[trigger] tree_entry_name(prev[k]) == Some(n)
                                && name_matches(n, query@);
                        assert(next[k] == prev[k]);
                    }
                    if hit && fv == Some(n) {
                        assert(tree_entry_name(next[i as int]) == Some(n));
                    }
                }
                assert(listed_names(next, query@) =~= views(names@).to_set());
            }
            i += 1;
        }
        assert(tree@.take(tree.len() as int) =~= tree@);
        let ghost l = views(names@);
        proof {
            lemma_by_name_strict();
            assert forall|a: int, b: int| 0 <= a < b < l.len() implies #[trigger] by_name()(
                l[a],
                l[b],
            ) by {
                assert(lex_lt(l[a], l[b]));
            }
            lemma_listing(l, by_name());
        }
        let mut apps: Vec<App> = Vec::new();
        let mut j: usize = 0;
        while j < names.len()
            invariant
                j <= names.len(),
                l == views(names@),
                apps@.len() == j,
                forall|k: int|
                    0 <= k < j ==> #[trigger] apps@[k]@ == (
                        l[k],
                        Seq::<char>::empty(),
                        Seq::<Seq<char>>::empty(),
                    ),
            decreases names.len() - j,
        {
            let a = App { name: names[j].clone(), version: String::new(), bin: Vec::new() };
            assert(views(a.bin@) =~= Seq::<Seq<char>>::empty());
            apps.push(a);
            j += 1;
        }
        assert forall|i: int, k: int| 0 <= i < k < apps@.len() implies lex_lt(
            #[trigger] apps@[i].name@,
            #[trigger] apps@[k].name@,
        ) by {
            assert(apps@[i]@.0 == l[i] && apps@[k]@.0 == l[k]);
        }
        assert forall|n: Seq<char>| #[trigger] listed_names(tree@, query@).contains(n) <==> exists|i: int|
            0 <= i < apps@.len() && #[trigger] apps@[i].name@ == n by {
            if listed_names(tree@, query@).contains(n) {
                assert(l.to_set().contains(n));
                let i = choose|i: int| 0 <= i < l.len() && l[i] == n;
                assert(apps@[i]@.0 == l[i]);
                assert(apps@[i].name@ == n);
            }
            if exists|i: int| 0 <= i < apps@.len() && #[trigger] apps@[i].name@ == n {
                let i = choose|i: int| 0 <= i < apps@.len() && #[trigger] apps@[i].name@ == n;
                assert(apps@[i]@.0 == l[i]);
                assert(l.contains(l[i]));
                assert(l.to_set().contains(n));
            }
        }
        Ok(apps)
    }

    /// The package `name` described by the manifest text `content`; `None` where
    /// the text is not JSON (for `serde_json`), or the manifest is not an object
    /// or its version is not a string.
    pub fn parse_text(name: &str, content: &str) -> (r: Option<App>)
        ensures
            match spec_parse_json(content@) {
                None => r is None,
                Some(d) => match r {
                    Some(a) => {
                        &&& d is Object
                        &&& manifest_version(d) == Some(a.version@)
                        &&& views(a.bin@) == manifest_bins(d)
                        &&& a.name@ == name@
                    },
                    None => !(d is Object) || manifest_version(d) is None,
                },
            },
    {
        match parse_json(content) {
            Some(d) => Self::parse(name, &d),
            None => None,
        }
    }

    /// `remote_matches` of the repository listing in `text`; `INVALID_LISTING`
    /// where the text is not JSON (for `serde_json`).
    pub fn remote_matches_text(text: &str, query: &str) -> (r: Result<Vec<App>, &'static str>)
        ensures
            spec_parse_json(text@) is None ==> r == Err::<Vec<App>, &'static str>(INVALID_LISTING),
            spec_parse_json(text@) matches Some(d) ==> match r {
                Ok(apps) => d.field("tree"@) matches Some(Json::Array(tree)) && {
                    let l = listing(listed_names(tree@, query@), by_name());
                    &&& apps@.len() == l.len()
                    &&& forall|i: int|
                        0 <= i < l.len() ==> #[trigger] apps@[i]@ == (
                            l[i],
                            Seq::<char>::empty(),
                            Seq::<Seq<char>>::empty(),
                        )
                },
                Err(e) => !(d.field("tree"@) matches Some(Json::Array(_))) && e@
                    == "Missing repository tree"@,
            },
    {
        match parse_json(text) {
            Some(d) => Self::remote_matches(&d, query),
            None => Err(INVALID_LISTING),
        }
    }

    /// The package `name` described by `manifest`; `None` where the manifest is not
    /// an object or its version is not a string.
    pub fn parse(name: &str, manifest: &Json) -> (r: Option<App>)
        ensures
            match r {
                Some(a) => {
                    &&& *manifest is Object
                    &&& manifest_version(*manifest) == Some(a.version@)
                    &&& views(a.bin@) == manifest_bins(*manifest)
                    &&& a.name@ == name@
                },
                None => !(*manifest is Object) || manifest_version(*manifest) is None,
            },
    {
        match manifest {
            Json::Object(_) => {},
            _ => return None,
        }
        let version = match manifest.get("version") {
            Some(v) => match v.as_string() {
                Some(s) => s.clone(),
                None => return None,
            },
            None => String::new(),
        };
        let bin = match manifest.get("bin") {
            Some(Json::Str(v)) => {
                let mut b = Vec::new();
                b.push(v.clone());
                assert(views(b@) =~= seq![v@]);
                b
            },
            Some(Json::Array(values)) => bins_of(values),
            _ => {
                let b = Vec::new();
                assert(views(b@) =~= Seq::<Seq<char>>::empty());
                b
            },
        };
        Some(App { name: copy_str(name), version, bin })
    }

    /// The package if its name, or else (unless `names_only`) one of its
    /// executables, contains `query` without regard to case. A name match drops
    /// the executables; otherwise the result lists the last path segments of the
    /// matching executables, sorted and without repetition.
    pub fn matching(self, query: &str, names_only: bool) -> (r: Option<App>)
        ensures
            app_option_view(r) == matched(self@, query@, names_only),
            match r {
                Some(a) => {
                    &&& a.name@ == self.name@
                    &&& a.version@ == self.version@
                    &&& if name_matches(self.name@, query@) {
                        a.bin@.len() == 0
                    } else {
                        &&& !names_only
                        &&& strictly_sorted(views(a.bin@))
                        &&& views(a.bin@).to_set() == matching_bins(views(self.bin@), query@)
                        &&& a.bin@.len() > 0
                    }
                },
                None => !name_matches(self.name@, query@) && (names_only || matching_bins(
                    views(self.bin@),
                    query@,
                ) == Set::<Seq<char>>::empty()),
            },
    {
        let lower = to_lowercase(self.name.as_str());
        if contains(lower.as_str(), query) {
            let r = App { name: self.name, version: self.version, bin: Vec::new() };
            assert(views(r.bin@) =~= Seq::<Seq<char>>::empty());
            return Some(r);
        }
        if names_only {
            return None;
        }
        let ghost bins = views(self.bin@);
        let mut out: Vec<String> = Vec::new();
        let mut i: usize = 0;
        assert(views(out@).to_set() =~= matching_bins(bins.take(0), query@));
        while i < self.bin.len()
            invariant
                i <= self.bin.len(),
                bins == views(self.bin@),
                strictly_sorted(views(out@)),
                views(out@).to_set() == matching_bins(bins.take(i as int), query@),
            decreases self.bin.len() - i,
        {
            let seg = last_segment_of(self.bin[i].as_str(), true);
            let seg_lower = to_lowercase(seg.as_str());
            let hit = contains(seg_lower.as_str(), query);
            let ghost segv = seg@;
            let ghost before = views(out@).to_set();
            if hit {
                insert_name(&mut out, seg);
            }
            proof {
                let prev = bins.take(i as int);
                let next = bins.take(i + 1);
                assert(next[i as int] == bins[i as int]);
                let target = if hit {
                    matching_bins(prev, query@).insert(segv)
                } else {
                    matching_bins(prev, query@)
                };
                assert forall|s: Seq<char>| matching_bins(next, query@).contains(s) <==> target.contains(
                    s,
                ) by {
                    if matching_bins(next, query@).contains(s) {
                        let k = choose|k: int|
                            0 <= k < next.len() && s == last_segment(#[trigger] next[k], true)
                                && seq_contains(spec_to_lowercase(s), query@);
                        if k < i {
                            assert(prev[k] == next[k]);
                        }
                    }
                    if matching_bins(prev, query@).contains(s) {
                        let k = choose|k: int|
                            0 <= k < prev.len() && s == last_segment(#[trigger] prev[k], true)
                                && seq_contains(spec_to_lowercase(s), query@);
                        assert(next[k] == prev[k]);
                    }
                    if hit && s == segv {
                        assert(s == last_segment(next[i as int], true));
                    }
                }
                assert(matching_bins(next, query@) =~= target);
            }
            i += 1;
        }
        assert(bins.take(self.bin.len() as int) =~= bins);
        if out.len() == 0 {
            assert(matching_bins(bins, query@) =~= views(out@).to_set());
            assert(views(out@).to_set() =~= Set::<Seq<char>>::empty());
            return None;
        }
        proof {
            let l = views(out@);
            assert(l.to_set().contains(l[0]));
            lemma_by_name_strict();
            assert forall|i: int, j: int| 0 <= i < j < l.len() implies #[trigger] by_name()(
                l[i],
                l[j],
            ) by {
                assert(lex_lt(l[i], l[j]));
            }
            lemma_listing(l, by_name());
        }
        Some(App { name: self.name, version: self.version, bin: out })
    }

    /// The package with its best score for `query` if its name, or else (unless
    /// `names_only`) one of its executables, matches. A best score from the name
    /// drops the executables; otherwise the result lists the scored executable
    /// names, best first.
    pub fn fuzzy_matching(self, query: &Query, names_only: bool) -> (r: Option<(Score, App)>)
        ensures
            match r {
                Some((s, a)) => Some((s, a@)),
                None => None,
            } == fuzzy_matched(self@, query.view(), names_only),
            ({
                let q = query.view();
                let name_score = rank(q, spec_to_lowercase(self.name@));
                let scored = candidate_bins(q, views(self.bin@), names_only);
                match r {
                    Some((s, a)) => {
                        &&& a.name@ == self.name@
                        &&& a.version@ == self.version@
                        &&& if name_score == Some(s) {
                            &&& a.bin@.len() == 0
                            &&& forall|x: Seq<char>| #[trigger] scored.contains(x) ==> !score_lt(
                                segment_score(q, x)->0,
                                s,
                            )
                        } else {
                            &&& ranked(q, views(a.bin@))
                            &&& views(a.bin@).to_set() == scored
                            &&& a.bin@.len() > 0
                            &&& segment_score(q, views(a.bin@)[0]) == Some(s)
                            &&& name_score is Some ==> score_lt(s, name_score->0)
                        }
                    },
                    None => name_score is None && scored == Set::<Seq<char>>::empty(),
                }
            }),
    {
        let ghost q = query.view();
        let name_score = query.score(self.name.as_str());
        let mut pairs: Vec<(Score, String)> = Vec::new();
        let ghost bins = views(self.bin@);
        let ghost scored = candidate_bins(q, bins, names_only);
        assert(pair_views(pairs@).to_set() =~= Set::<(Score, Seq<char>)>::empty());
        if !names_only {
            let mut i: usize = 0;
            while i < self.bin.len()
                invariant
                    i <= self.bin.len(),
                    bins == views(self.bin@),
                    q == query.view(),
                    pairs_sorted(pair_views(pairs@)),
                    forall|p: (Score, Seq<char>)| #[trigger]
                        pair_views(pairs@).to_set().contains(p) <==> (scored_bins(
                            q,
                            bins.take(i as int),
                        ).contains(p.1) && segment_score(q, p.1) == Some(p.0)),
                decreases self.bin.len() - i,
            {
                let seg = last_segment_of(self.bin[i].as_str(), true);
                let sc = segment_score_of(query, seg.as_str());
                let ghost segv = seg@;
                match sc {
                    Some(s) => insert_pair(&mut pairs, (s, seg)),
                    None => {},
                }
                proof {
                    let prev = bins.take(i as int);
                    let next = bins.take(i + 1);
                    assert(next[i as int] == bins[i as int]);
                    assert forall|s: Seq<char>| scored_bins(q, next).contains(s) <==> (scored_bins(
                        q,
                        prev,
                    ).contains(s) || (s == segv && sc is Some)) by {
                        if scored_bins(q, next).contains(s) {
                            let k = choose|k: int|
                                0 <= k < next.len() && s == last_segment(#[trigger] next[k], true)
                                    && segment_score(q, s) is Some;
                            if k < i {
                                assert(prev[k] == next[k]);
                            }
                        }
                        if scored_bins(q, prev).contains(s) {
                            let k = choose|k: int|
                                0 <= k < prev.len() && s == last_segment(#[trigger] prev[k], true)
                                    && segment_score(q, s) is Some;
                            assert(next[k] == prev[k]);
                        }
                        if s == segv && sc is Some {
                            assert(s == last_segment(next[i as int], true));
                        }
                    }
                }
                i += 1;
            }
            assert(bins.take(self.bin.len() as int) =~= bins);
        }
        let ghost pv = pair_views(pairs@);
        let ghost list = names_of(pv);
        proof {
            assert forall|p: (Score, Seq<char>)| #[trigger] pv.to_set().contains(p) <==> (
            scored.contains(p.1) && segment_score(q, p.1) == Some(p.0)) by {
                if names_only {
                    assert(!pv.to_set().contains(p));
                }
            }
            assert forall|k: int| 0 <= k < list.len() implies segment_score(q, #[trigger] list[k])
                == Some(pv[k].0) by {
                assert(pv.contains(pv[k]));
                assert(pv.to_set().contains(pv[k]));
            }
            assert forall|x: Seq<char>| list.to_set().contains(x) <==> scored.contains(x) by {
                if list.to_set().contains(x) {
                    let k = choose|k: int| 0 <= k < list.len() && list[k] == x;
                    assert(pv.contains(pv[k]));
                    assert(pv.to_set().contains(pv[k]));
                }
                if scored.contains(x) {
                    let p = (segment_score(q, x)->0, x);
                    assert(pv.to_set().contains(p));
                    assert(pv.contains(p));
                    let k = choose|k: int| 0 <= k < pv.len() && pv[k] == p;
                    assert(list[k] == x);
                }
            }
            assert(list.to_set() =~= scored);
            assert forall|a: int, b: int| 0 <= a < b < list.len() implies pair_lt(
                (segment_score(q, #[trigger] list[a])->0, list[a]),
                (segment_score(q, #[trigger] list[b])->0, list[b]),
            ) by {
                assert(pair_lt(pv[a], pv[b]));
            }
            assert forall|a: int, b: int| 0 <= a < b < list.len() implies #[trigger] by_rank(q)(
                list[a],
                list[b],
            ) by {
                assert(pair_lt(pv[a], pv[b]));
            }
            lemma_by_rank_strict(q);
            lemma_listing(list, by_rank(q));
            assert forall|x: Seq<char>| #[trigger] scored.contains(x) implies list.len() > 0 && !score_lt(
                segment_score(q, x)->0,
                pv[0].0,
            ) by {
                if scored.contains(x) {
                    let p = (segment_score(q, x)->0, x);
                    assert(pv.to_set().contains(p));
                    assert(pv.contains(p));
                    let k = choose|k: int| 0 <= k < pv.len() && pv[k] == p;
                    if k > 0 {
                        assert(pair_lt(pv[0], pv[k]));
                    }
                }
            }
        }
        let bin_score = if pairs.len() > 0 {
            Some(pairs[0].0)
        } else {
            None
        };
        let score = match best(name_score, bin_score) {
            Some(s) => s,
            None => {
                proof {
                    assert forall|x: Seq<char>| !scored.contains(x) by {
                        if scored.contains(x) {
                            assert(list.to_set().contains(x));
                        }
                    }
                    assert(scored =~= Set::<Seq<char>>::empty());
                }
                return None;
            },
        };
        if name_score == Some(score) {
            let a = App { name: self.name, version: self.version, bin: Vec::new() };
            assert(views(a.bin@) =~= Seq::<Seq<char>>::empty());
            return Some((score, a));
        }
        let mut names: Vec<String> = Vec::new();
        let mut j: usize = 0;
        while j < pairs.len()
            invariant
                j <= pairs.len(),
                pv == pair_views(pairs@),
                views(names@) == names_of(pv.take(j as int)),
            decreases pairs.len() - j,
        {
            let ghost before = views(names@);
            names.push(pairs[j].1.clone());
            assert(pv[j as int].1 == pairs@[j as int].1@);
            assert(views(names@) =~= before.push(pairs@[j as int].1@));
            assert(names_of(pv.take(j + 1)) =~= names_of(pv.take(j as int)).push(pv[j as int].1));
            j += 1;
        }
        assert(pv.take(pv.len() as int) =~= pv);
        Some((score, App { name: self.name, version: self.version, bin: names }))
    }
}

} // verus!
