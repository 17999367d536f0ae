//! Buckets and searches over them: literal results grouped by bucket, and
//! ranked suggestions of similar packages.
use vstd::prelude::*;
use vstd::string::StringExecFns;

use crate::app::{fuzzy_matched, matched, App, AppView};
use crate::fuzzy::{rank, score_less, score_lt, Query, Score};
use crate::order::{
    distinct_keys, lemma_listing, lemma_sort_map, lemma_sorted_distinct, listing, sort_by_name,
    sorted_by_name, sorted_strict, strict_order, Keyed, Named,
};
use crate::json::{parse_json, spec_parse_json, views, Json};
use crate::text::{
    contains, count_char, count_of, lemma_lex_irreflexive, lemma_lex_total, lemma_lex_transitive,
    lex_less, lex_lt, seq_contains, spec_to_lowercase, str_eq, strip_prefix, to_lowercase, trim_end,
    trim_end_matches,
};

verus! {

/// A bucket and the packages found in it.
#[derive(Debug)]
pub struct Bucket {
    pub name: String,
    pub apps: Vec<App>,
}

/// A bucket as plain values: its name and its packages.
pub type BucketView = (Seq<char>, Seq<AppView>);

/// The views of packages.
pub open spec fn app_views(s: Seq<App>) -> Seq<AppView> {
    s.map_values(|a: App| a@)
}

impl View for Bucket {
    type V = BucketView;

    open spec fn view(&self) -> BucketView {
        (self.name@, app_views(self.apps@))
    }
}

impl Keyed for Bucket {
    open spec fn key(&self) -> Seq<char> {
        self.name@
    }
}

impl Named for Bucket {
    fn name_str(&self) -> (r: &str) {
        self.name.as_str()
    }
}

impl Keyed for BucketView {
    open spec fn key(&self) -> Seq<char> {
        self.0
    }
}

/// The views of buckets.
pub open spec fn bucket_views(s: Seq<Bucket>) -> Seq<BucketView> {
    s.map_values(|b: Bucket| b@)
}

/// A package similar to a query, with the bucket it comes from.
#[derive(Debug)]
pub struct Suggestion {
    pub bucket: String,
    pub app: App,
    pub score: Score,
    pub remote: bool,
}

/// A suggestion as plain values: bucket, package, score, and whether it comes
/// from a bucket that is not installed.
pub type SuggestionView = (Seq<char>, AppView, Score, bool);

impl View for Suggestion {
    type V = SuggestionView;

    open spec fn view(&self) -> SuggestionView {
        (self.bucket@, self.app@, self.score, self.remote)
    }
}

/// The views of suggestions.
pub open spec fn suggestion_views(s: Seq<Suggestion>) -> Seq<SuggestionView> {
    s.map_values(|x: Suggestion| x@)
}

// ----------------------------------------------------------------------
// Literal search
// ----------------------------------------------------------------------

/// The literal matches among packages, in their order.
pub open spec fn matches_of(apps: Seq<AppView>, q: Seq<char>, names_only: bool) -> Seq<AppView>
    decreases apps.len(),
{
    if apps.len() == 0 {
        Seq::empty()
    } else {
        let rest = matches_of(apps.drop_last(), q, names_only);
        match matched(apps.last(), q, names_only) {
            Some(a) => rest.push(a),
            None => rest,
        }
    }
}

/// The buckets with literal matches, in catalog order, each with its matches
/// sorted by name.
pub open spec fn bucket_results(catalog: Seq<BucketView>, q: Seq<char>, names_only: bool) -> Seq<
    BucketView,
>
    decreases catalog.len(),
{
    if catalog.len() == 0 {
        Seq::empty()
    } else {
        let rest = bucket_results(catalog.drop_last(), q, names_only);
        let found = sorted_by_name(matches_of(catalog.last().1, q, names_only));
        if found.len() > 0 {
            rest.push((catalog.last().0, found))
        } else {
            rest
        }
    }
}

/// The result of a literal search: the buckets with matches, sorted by name.
pub open spec fn searched(catalog: Seq<BucketView>, q: Seq<char>, names_only: bool) -> Seq<BucketView> {
    sorted_by_name(bucket_results(catalog, q, names_only))
}

proof fn lemma_app_sort_views(s: Seq<App>)
    ensures
        app_views(sorted_by_name(s)) == sorted_by_name(app_views(s)),
{
    let f = |a: App| a@;
    assert forall|x: App| #[trigger] f(x).key() == x.key() by {}
    lemma_sort_map(s, f);
}

proof fn lemma_bucket_sort_views(s: Seq<Bucket>)
    ensures
        bucket_views(sorted_by_name(s)) == sorted_by_name(bucket_views(s)),
{
    let f = |b: Bucket| b@;
    assert forall|x: Bucket| #[trigger] f(x).key() == x.key() by {}
    lemma_sort_map(s, f);
}

/// Whether a manifest named `stem` is read (see `Bucket::worth_reading`).
pub open spec fn worth_reading_spec(
    stem: Seq<char>,
    q: Seq<char>,
    mq: Seq<char>,
    names_only: bool,
    fuzzy: bool,
) -> bool {
    !names_only || seq_contains(spec_to_lowercase(stem), q) || (fuzzy && rank(
        mq,
        spec_to_lowercase(spec_to_lowercase(stem)),
    ) is Some)
}

/// Skipping manifests loses no result: a package whose manifest is named
/// after it is read whenever the literal search, or (when suggestions may be
/// wanted) the fuzzy search, would report it.
pub proof fn lemma_reading_keeps_results(a: AppView, q: Seq<char>, mq: Seq<char>, names_only: bool)
    ensures
        matched(a, q, names_only) is Some ==> worth_reading_spec(a.0, q, mq, names_only, false),
        considered(a, mq, names_only) ==> worth_reading_spec(a.0, q, mq, names_only, true),
{
}

/// A literal search reports each matching package of a bucket exactly once,
/// in the order of the bucket, and no other package.
pub proof fn lemma_each_package_once(apps: Seq<AppView>, q: Seq<char>, names_only: bool)
    ensures
        matches_of(apps, q, names_only) == apps.filter(
            |a: AppView| matched(a, q, names_only) is Some,
        ).map_values(|a: AppView| matched(a, q, names_only)->Some_0),
    decreases apps.len(),
{
    let p = |a: AppView| matched(a, q, names_only) is Some;
    let f = |a: AppView| matched(a, q, names_only)->Some_0;
    reveal_with_fuel(Seq::filter, 1);
    if apps.len() == 0 {
        assert(apps.filter(p) =~= Seq::<AppView>::empty());
        assert(apps.filter(p).map_values(f) =~= Seq::<AppView>::empty());
    } else {
        lemma_each_package_once(apps.drop_last(), q, names_only);
        let rest = apps.drop_last().filter(p);
        if p(apps.last()) {
            assert(apps.filter(p) == rest.push(apps.last()));
            assert(rest.push(apps.last()).map_values(f) =~= rest.map_values(f).push(f(apps.last())));
        } else {
            assert(apps.filter(p) == rest);
        }
    }
}

/// The empty query reports every package of a bucket, in order, without its
/// executables.
pub proof fn lemma_empty_query_lists_bucket(apps: Seq<AppView>, names_only: bool)
    ensures
        matches_of(apps, Seq::empty(), names_only) == apps.map_values(
            |a: AppView| (a.0, a.1, Seq::<Seq<char>>::empty()),
        ),
    decreases apps.len(),
{
    let f = |a: AppView| (a.0, a.1, Seq::<Seq<char>>::empty());
    if apps.len() == 0 {
        assert(apps.map_values(f) =~= Seq::<AppView>::empty());
    } else {
        lemma_empty_query_lists_bucket(apps.drop_last(), names_only);
        crate::app::lemma_empty_query_lists_all(apps.last(), names_only);
        assert(apps.map_values(f) =~= apps.drop_last().map_values(f).push(f(apps.last())));
    }
}

/// The catalog with, in each bucket, only the packages whose name contains `q`
/// without regard to case.
pub open spec fn named_like(catalog: Seq<BucketView>, q: Seq<char>) -> Seq<BucketView> {
    catalog.map_values(
        |b: BucketView| (b.0, b.1.filter(|a: AppView| crate::app::name_matches(a.0, q))),
    )
}

proof fn lemma_names_only_bucket(apps: Seq<AppView>, q: Seq<char>)
    ensures
        matches_of(apps, q, true) == matches_of(
            apps.filter(|a: AppView| crate::app::name_matches(a.0, q)),
            q,
            false,
        ),
    decreases apps.len(),
{
    let p = |a: AppView| crate::app::name_matches(a.0, q);
    if apps.len() == 0 {
        reveal_with_fuel(Seq::filter, 1);
        assert(apps.filter(p) =~= apps);
    } else {
        let d = apps.drop_last();
        lemma_names_only_bucket(d, q);
        assert(apps =~= d.push(apps.last()));
        d.lemma_filter_push(apps.last(), p);
        if p(apps.last()) {
            assert(d.filter(p).push(apps.last()).drop_last() =~= d.filter(p));
        }
    }
}

/// A names-only search is the full search of the packages whose names match:
/// executables play no part, and no package is found by its name alone that
/// the full search would miss.
pub proof fn lemma_names_only_search(catalog: Seq<BucketView>, q: Seq<char>)
    ensures
        searched(catalog, q, true) == searched(named_like(catalog, q), q, false),
{
    lemma_names_only_results(catalog, q);
}

proof fn lemma_names_only_results(catalog: Seq<BucketView>, q: Seq<char>)
    ensures
        bucket_results(catalog, q, true) == bucket_results(named_like(catalog, q), q, false),
    decreases catalog.len(),
{
    if catalog.len() > 0 {
        let d = catalog.drop_last();
        lemma_names_only_results(d, q);
        lemma_names_only_bucket(catalog.last().1, q);
        assert(named_like(catalog, q).drop_last() =~= named_like(d, q));
        assert(named_like(catalog, q).last() == (
            catalog.last().0,
            catalog.last().1.filter(|a: AppView| crate::app::name_matches(a.0, q)),
        ));
    }
}

proof fn lemma_results_distinct(catalog: Seq<BucketView>, q: Seq<char>, names_only: bool)
    requires
        distinct_keys(catalog),
    ensures
        distinct_keys(bucket_results(catalog, q, names_only)),
        forall|i: int|
            0 <= i < bucket_results(catalog, q, names_only).len() ==> exists|j: int|
                0 <= j < catalog.len() && #[trigger] bucket_results(catalog, q, names_only)[i].0
                    == catalog[j].0,
    decreases catalog.len(),
{
    if catalog.len() > 0 {
        let d = catalog.drop_last();
        assert forall|i: int, j: int| 0 <= i < j < d.len() implies #[trigger] d[i].key() != #[trigger] d[j].key() by {
            assert(d[i] == catalog[i] && d[j] == catalog[j]);
        }
        lemma_results_distinct(d, q, names_only);
        let rest = bucket_results(d, q, names_only);
        let r = bucket_results(catalog, q, names_only);
        let last = catalog.len() - 1;
        assert forall|i: int| 0 <= i < rest.len() implies rest[i].0 != catalog[last].0 by {
            let j = choose|j: int| 0 <= j < d.len() && #[trigger] rest[i].0 == d[j].0;
            assert(d[j] == catalog[j]);
            assert(catalog[j].key() != catalog[last].key());
        }
        assert forall|i: int| 0 <= i < r.len() implies exists|j: int|
            0 <= j < catalog.len() && #[trigger] r[i].0 == catalog[j].0 by {
            if i < rest.len() {
                assert(r[i] == rest[i]);
                let j = choose|j: int| 0 <= j < d.len() && #[trigger] rest[i].0 == d[j].0;
                assert(d[j] == catalog[j]);
            } else {
                assert(r[i].0 == catalog[last].0);
            }
        }
        assert forall|i: int, j: int| 0 <= i < j < r.len() implies #[trigger] r[i].key() != #[trigger] r[j].key() by {
            if j < rest.len() {
                assert(r[i] == rest[i] && r[j] == rest[j]);
            } else {
                assert(r[i] == rest[i]);
                assert(r[j].0 == catalog[last].0);
            }
        }
    }
}

/// Buckets with distinct names are listed strictly in the order of their names.
pub proof fn lemma_buckets_strictly_ordered(catalog: Seq<BucketView>, q: Seq<char>, names_only: bool)
    requires
        distinct_keys(catalog),
    ensures
        forall|i: int, j: int|
            0 <= i < j < searched(catalog, q, names_only).len() ==> lex_lt(
                #[trigger] searched(catalog, q, names_only)[i].0,
                #[trigger] searched(catalog, q, names_only)[j].0,
            ),
{
    lemma_results_distinct(catalog, q, names_only);
    let r = bucket_results(catalog, q, names_only);
    lemma_sorted_distinct(r);
    let s = searched(catalog, q, names_only);
    assert forall|i: int, j: int| 0 <= i < j < s.len() implies lex_lt(#[trigger] s[i].0, #[trigger] s[j].0) by {
        assert(lex_lt(sorted_by_name(r)[i].key(), sorted_by_name(r)[j].key()));
    }
}

/// Every bucket with packages, each with all its packages in name order and
/// without their executables.
pub open spec fn everything(catalog: Seq<BucketView>) -> Seq<BucketView> {
    catalog.filter(|b: BucketView| b.1.len() > 0).map_values(
        |b: BucketView|
            (b.0, sorted_by_name(b.1.map_values(|a: AppView| (a.0, a.1, Seq::<Seq<char>>::empty())))),
    )
}

proof fn lemma_empty_query_results(catalog: Seq<BucketView>, names_only: bool)
    ensures
        bucket_results(catalog, Seq::empty(), names_only) == everything(catalog),
    decreases catalog.len(),
{
    let p = |b: BucketView| b.1.len() > 0;
    let f = |b: BucketView|
        (b.0, sorted_by_name(b.1.map_values(|a: AppView| (a.0, a.1, Seq::<Seq<char>>::empty()))));
    if catalog.len() == 0 {
        reveal_with_fuel(Seq::filter, 1);
        assert(everything(catalog) =~= Seq::<BucketView>::empty());
    } else {
        let d = catalog.drop_last();
        let b = catalog.last();
        lemma_empty_query_results(d, names_only);
        lemma_empty_query_lists_bucket(b.1, names_only);
        let cleared = b.1.map_values(|a: AppView| (a.0, a.1, Seq::<Seq<char>>::empty()));
        crate::order::lemma_sorted_by_name(cleared);
        assert(catalog =~= d.push(b));
        d.lemma_filter_push(b, p);
        if p(b) {
            assert(d.filter(p).push(b).map_values(f) =~= d.filter(p).map_values(f).push(f(b)));
        }
    }
}

/// The empty query lists every bucket with packages, by name, each with all
/// its packages in name order and without their executables.
pub proof fn lemma_empty_query_lists_everything(catalog: Seq<BucketView>, names_only: bool)
    ensures
        searched(catalog, Seq::empty(), names_only) == sorted_by_name(everything(catalog)),
{
    lemma_empty_query_results(catalog, names_only);
}

/// A search result with, in each bucket, only the packages whose name contains
/// `q` without regard to case, and without the buckets left empty.
pub open spec fn restricted(found: Seq<BucketView>, q: Seq<char>) -> Seq<BucketView> {
    found.map_values(
        |b: BucketView| (b.0, b.1.filter(|a: AppView| crate::app::name_matches(a.0, q))),
    ).filter(|b: BucketView| b.1.len() > 0)
}

proof fn lemma_names_only_matches(apps: Seq<AppView>, q: Seq<char>)
    ensures
        matches_of(apps, q, true) == matches_of(apps, q, false).filter(
            |a: AppView| crate::app::name_matches(a.0, q),
        ),
    decreases apps.len(),
{
    let p = |a: AppView| crate::app::name_matches(a.0, q);
    reveal_with_fuel(Seq::filter, 1);
    if apps.len() > 0 {
        let d = apps.drop_last();
        lemma_names_only_matches(d, q);
        let rest = matches_of(d, q, false);
        match matched(apps.last(), q, false) {
            Some(x) => {
                rest.lemma_filter_push(x, p);
            },
            None => {},
        }
    }
}

proof fn lemma_names_only_found(catalog: Seq<BucketView>, q: Seq<char>)
    ensures
        bucket_results(catalog, q, true) == restricted(bucket_results(catalog, q, false), q),
    decreases catalog.len(),
{
    let nm = |a: AppView| crate::app::name_matches(a.0, q);
    let f = |b: BucketView| (b.0, b.1.filter(nm));
    let nonempty = |b: BucketView| b.1.len() > 0;
    if catalog.len() == 0 {
        reveal_with_fuel(Seq::filter, 1);
        assert(restricted(Seq::<BucketView>::empty(), q) =~= Seq::<BucketView>::empty());
    } else {
        let d = catalog.drop_last();
        let b = catalog.last();
        lemma_names_only_found(d, q);
        lemma_names_only_matches(b.1, q);
        let mf = matches_of(b.1, q, false);
        crate::order::lemma_sort_filter(mf, nm);
        let ff = sorted_by_name(mf);
        let rest = bucket_results(d, q, false);
        if ff.len() > 0 {
            let x = (b.0, ff);
            assert(rest.push(x).map_values(f) =~= rest.map_values(f).push(f(x)));
            rest.map_values(f).lemma_filter_push(f(x), nonempty);
        } else {
            ff.lemma_filter_len(nm);
        }
    }
}

/// A names-only search gives the full search's result restricted to the
/// packages whose names contain the query, without the buckets left empty.
pub proof fn lemma_names_only_restricts(catalog: Seq<BucketView>, q: Seq<char>)
    ensures
        searched(catalog, q, true) == restricted(searched(catalog, q, false), q),
{
    let nm = |a: AppView| crate::app::name_matches(a.0, q);
    let f = |b: BucketView| (b.0, b.1.filter(nm));
    let nonempty = |b: BucketView| b.1.len() > 0;
    lemma_names_only_found(catalog, q);
    let r = bucket_results(catalog, q, false);
    crate::order::lemma_sort_filter(r.map_values(f), nonempty);
    assert forall|x: BucketView| #[trigger] f(x).key() == x.key() by {}
    lemma_sort_map(r, f);
}

// ----------------------------------------------------------------------
// Fuzzy search
// ----------------------------------------------------------------------

/// A package is read in a names-only fuzzy search when its lowercase name scores.
pub open spec fn considered(a: AppView, q: Seq<char>, names_only: bool) -> bool {
    !names_only || rank(q, spec_to_lowercase(spec_to_lowercase(a.0))) is Some
}

/// The fuzzy matches of the packages of one bucket, as suggestions, in order.
/// Packages of a local bucket are considered as a names-only search reads them.
pub open spec fn suggestions_in(
    bucket: Seq<char>,
    apps: Seq<AppView>,
    q: Seq<char>,
    names_only: bool,
    remote: bool,
) -> Seq<SuggestionView>
    decreases apps.len(),
{
    if apps.len() == 0 {
        Seq::empty()
    } else {
        let rest = suggestions_in(bucket, apps.drop_last(), q, names_only, remote);
        if remote || considered(apps.last(), q, names_only) {
            match fuzzy_matched(apps.last(), q, names_only) {
                Some((s, a)) => rest.push((bucket, a, s, remote)),
                None => rest,
            }
        } else {
            rest
        }
    }
}

/// The fuzzy matches of a catalog, bucket by bucket.
pub open spec fn catalog_suggestions(catalog: Seq<BucketView>, q: Seq<char>, names_only: bool) -> Seq<
    SuggestionView,
>
    decreases catalog.len(),
{
    if catalog.len() == 0 {
        Seq::empty()
    } else {
        catalog_suggestions(catalog.drop_last(), q, names_only) + suggestions_in(
            catalog.last().0,
            catalog.last().1,
            q,
            names_only,
            false,
        )
    }
}

// ----------------------------------------------------------------------
// Ranking suggestions
// ----------------------------------------------------------------------

/// The largest number of suggestions reported.
pub const SUGGESTION_LIMIT: usize = 10;

/// Order of suggestions: by score, then package name, then bucket.
pub open spec fn suggestion_lt(a: SuggestionView, b: SuggestionView) -> bool {
    score_lt(a.2, b.2) || (a.2 == b.2 && (lex_lt(a.1.0, b.1.0) || (a.1.0 == b.1.0 && lex_lt(a.0, b.0))))
}

/// The order of suggestions, as a relation.
pub open spec fn by_suggestion() -> spec_fn(SuggestionView, SuggestionView) -> bool {
    |a: SuggestionView, b: SuggestionView| suggestion_lt(a, b)
}

/// Two suggestions name the same package of the same bucket.
pub open spec fn same_entry(a: SuggestionView, b: SuggestionView) -> bool {
    a.0 == b.0 && a.1.0 == b.1.0
}

/// `s[k]` is the suggestion kept for its package: the best score among the
/// suggestions of that package in that bucket, the first of them on a tie.
pub open spec fn is_kept(s: Seq<SuggestionView>, k: int) -> bool {
    &&& 0 <= k < s.len()
    &&& forall|j: int|
        0 <= j < s.len() && #[trigger] same_entry(s[j], s[k]) ==> score_lt(s[k].2, s[j].2) || (s[k].2
            == s[j].2 && k <= j)
}

/// The suggestions kept, one per package and bucket.
pub open spec fn kept(s: Seq<SuggestionView>) -> Set<SuggestionView> {
    Set::new(|x: SuggestionView| exists|k: int| #[trigger] is_kept(s, k) && s[k] == x)
}

/// The ranked suggestions: the kept ones in order, at most `SUGGESTION_LIMIT` of them.
pub open spec fn top_suggestions(s: Seq<SuggestionView>) -> Seq<SuggestionView> {
    let l = listing(kept(s), by_suggestion());
    if l.len() <= SUGGESTION_LIMIT {
        l
    } else {
        l.take(SUGGESTION_LIMIT as int)
    }
}

proof fn lemma_suggestion_strict()
    ensures
        strict_order(by_suggestion()),
{
    assert forall|a: SuggestionView| !#[trigger] by_suggestion()(a, a) by {
        lemma_lex_irreflexive(a.0);
        lemma_lex_irreflexive(a.1.0);
    }
    assert forall|a: SuggestionView, b: SuggestionView, c: SuggestionView| #[trigger]
        by_suggestion()(a, b) && #[trigger] by_suggestion()(b, c) implies by_suggestion()(a, c) by {
        if a.2 == b.2 && b.2 == c.2 {
            if lex_lt(a.1.0, b.1.0) && lex_lt(b.1.0, c.1.0) {
                lemma_lex_transitive(a.1.0, b.1.0, c.1.0);
            }
            if a.1.0 == b.1.0 && b.1.0 == c.1.0 && lex_lt(a.0, b.0) && lex_lt(b.0, c.0) {
                lemma_lex_transitive(a.0, b.0, c.0);
            }
        }
    }
}

proof fn lemma_suggestion_total(a: SuggestionView, b: SuggestionView)
    requires
        !same_entry(a, b) || a.2 != b.2,
    ensures
        suggestion_lt(a, b) || suggestion_lt(b, a),
{
    lemma_lex_total(a.1.0, b.1.0);
    lemma_lex_total(a.0, b.0);
}

fn suggestion_less(a: &Suggestion, b: &Suggestion) -> (r: bool)
    ensures
        r == suggestion_lt(a@, b@),
{
    if score_less(a.score, b.score) {
        return true;
    }
    if a.score != b.score {
        return false;
    }
    if lex_less(a.app.name.as_str(), b.app.name.as_str()) {
        return true;
    }
    str_eq(a.app.name.as_str(), b.app.name.as_str()) && lex_less(a.bucket.as_str(), b.bucket.as_str())
}

proof fn lemma_kept_unique(s: Seq<SuggestionView>, a: int, b: int)
    requires
        is_kept(s, a),
        is_kept(s, b),
        same_entry(s[a], s[b]),
    ensures
        a == b,
{
    assert(same_entry(s[b], s[a]));
}

proof fn lemma_kept_new(p: Seq<SuggestionView>, x: SuggestionView)
    requires
        forall|k: int| 0 <= k < p.len() ==> !same_entry(#[trigger] p[k], x),
    ensures
        kept(p.push(x)) == kept(p).insert(x),
{
    let n = p.push(x);
    assert forall|k: int| 0 <= k < p.len() implies is_kept(n, k) == is_kept(p, k) by {
        assert(n[k] == p[k]);
        if is_kept(p, k) {
            assert forall|j: int| 0 <= j < n.len() && #[trigger] same_entry(n[j], n[k]) implies score_lt(
                n[k].2,
                n[j].2,
            ) || (n[k].2 == n[j].2 && k <= j) by {
                if j < p.len() {
                    assert(n[j] == p[j]);
                } else {
                    assert(!same_entry(p[k], x));
                }
            }
        }
        if is_kept(n, k) {
            assert forall|j: int| 0 <= j < p.len() && #[trigger] same_entry(p[j], p[k]) implies score_lt(
                p[k].2,
                p[j].2,
            ) || (p[k].2 == p[j].2 && k <= j) by {
                assert(n[j] == p[j]);
                assert(same_entry(n[j], n[k]));
            }
        }
    }
    assert(is_kept(n, p.len() as int)) by {
        assert forall|j: int| 0 <= j < n.len() && #[trigger] same_entry(n[j], n[p.len() as int]) implies score_lt(
            n[p.len() as int].2,
            n[j].2,
        ) || (n[p.len() as int].2 == n[j].2 && p.len() <= j) by {
            if j < p.len() {
                assert(n[j] == p[j]);
                assert(same_entry(p[j], x));
            }
        }
    }
    assert forall|y: SuggestionView| kept(n).contains(y) <==> kept(p).insert(x).contains(y) by {
        if kept(n).contains(y) {
            let k = choose|k: int| #[trigger] is_kept(n, k) && n[k] == y;
            if k < p.len() {
                assert(is_kept(p, k) && p[k] == y);
            }
        }
        if kept(p).contains(y) {
            let k = choose|k: int| #[trigger] is_kept(p, k) && p[k] == y;
            assert(is_kept(n, k) && n[k] == y);
        }
        if y == x {
            assert(is_kept(n, p.len() as int) && n[p.len() as int] == y);
        }
    }
    assert(kept(n) =~= kept(p).insert(x));
}

proof fn lemma_kept_better(p: Seq<SuggestionView>, x: SuggestionView, kb: int)
    requires
        is_kept(p, kb),
        same_entry(p[kb], x),
        score_lt(x.2, p[kb].2),
    ensures
        kept(p.push(x)) == kept(p).remove(p[kb]).insert(x),
{
    let n = p.push(x);
    let i = p.len() as int;
    assert(n[i] == x);
    assert forall|k: int| 0 <= k < p.len() implies is_kept(n, k) == (is_kept(p, k) && !same_entry(p[k], x)) by {
        assert(n[k] == p[k]);
        if same_entry(p[k], x) {
            assert(same_entry(p[kb], p[k]));
            assert(same_entry(p[k], p[kb]));
            assert(score_lt(p[kb].2, p[k].2) || p[kb].2 == p[k].2);
            assert(same_entry(n[i], n[k]));
        } else {
            if is_kept(p, k) {
                assert forall|j: int| 0 <= j < n.len() && #[trigger] same_entry(n[j], n[k]) implies score_lt(
                    n[k].2,
                    n[j].2,
                ) || (n[k].2 == n[j].2 && k <= j) by {
                    if j < p.len() {
                        assert(n[j] == p[j]);
                    }
                }
            }
            if is_kept(n, k) {
                assert forall|j: int| 0 <= j < p.len() && #[trigger] same_entry(p[j], p[k]) implies score_lt(
                    p[k].2,
                    p[j].2,
                ) || (p[k].2 == p[j].2 && k <= j) by {
                    assert(n[j] == p[j]);
                    assert(same_entry(n[j], n[k]));
                }
            }
        }
    }
    assert(is_kept(n, i)) by {
        assert forall|j: int| 0 <= j < n.len() && #[trigger] same_entry(n[j], n[i]) implies score_lt(
            n[i].2,
            n[j].2,
        ) || (n[i].2 == n[j].2 && i <= j) by {
            if j < p.len() {
                assert(n[j] == p[j]);
                assert(same_entry(p[j], p[kb]));
            }
        }
    }
    assert forall|y: SuggestionView| kept(n).contains(y) <==> kept(p).remove(p[kb]).insert(x).contains(y) by {
        if kept(n).contains(y) {
            let k = choose|k: int| #[trigger] is_kept(n, k) && n[k] == y;
            if k < p.len() {
                assert(is_kept(p, k) && p[k] == y);
                assert(!same_entry(p[k], x));
                if y == p[kb] {
                    assert(same_entry(p[kb], x));
                }
            }
        }
        if kept(p).contains(y) && y != p[kb] {
            let k = choose|k: int| #[trigger] is_kept(p, k) && p[k] == y;
            if same_entry(p[k], x) {
                assert(same_entry(p[k], p[kb]));
                lemma_kept_unique(p, k, kb);
            }
            assert(is_kept(n, k) && n[k] == y);
        }
        if y == x {
            assert(is_kept(n, i) && n[i] == y);
        }
    }
    assert(kept(n) =~= kept(p).remove(p[kb]).insert(x));
}

proof fn lemma_kept_worse(p: Seq<SuggestionView>, x: SuggestionView, kb: int)
    requires
        is_kept(p, kb),
        same_entry(p[kb], x),
        !score_lt(x.2, p[kb].2),
    ensures
        kept(p.push(x)) == kept(p),
{
    let n = p.push(x);
    let i = p.len() as int;
    assert(n[i] == x);
    assert forall|k: int| 0 <= k < p.len() implies is_kept(n, k) == is_kept(p, k) by {
        assert(n[k] == p[k]);
        if is_kept(p, k) {
            assert forall|j: int| 0 <= j < n.len() && #[trigger] same_entry(n[j], n[k]) implies score_lt(
                n[k].2,
                n[j].2,
            ) || (n[k].2 == n[j].2 && k <= j) by {
                if j < p.len() {
                    assert(n[j] == p[j]);
                } else {
                    assert(same_entry(p[k], p[kb]));
                    lemma_kept_unique(p, k, kb);
                }
            }
        }
        if is_kept(n, k) {
            assert forall|j: int| 0 <= j < p.len() && #[trigger] same_entry(p[j], p[k]) implies score_lt(
                p[k].2,
                p[j].2,
            ) || (p[k].2 == p[j].2 && k <= j) by {
                assert(n[j] == p[j]);
                assert(same_entry(n[j], n[k]));
            }
        }
    }
    assert(!is_kept(n, i)) by {
        assert(n[kb] == p[kb]);
        assert(same_entry(n[kb], n[i]));
    }
    assert forall|y: SuggestionView| kept(n).contains(y) <==> kept(p).contains(y) by {
        if kept(n).contains(y) {
            let k = choose|k: int| #[trigger] is_kept(n, k) && n[k] == y;
            assert(is_kept(p, k) && p[k] == y);
        }
        if kept(p).contains(y) {
            let k = choose|k: int| #[trigger] is_kept(p, k) && p[k] == y;
            assert(is_kept(n, k) && n[k] == y);
        }
    }
    assert(kept(n) =~= kept(p));
}

fn insert_suggestion(v: &mut Vec<Suggestion>, x: Suggestion)
    requires
        sorted_strict(suggestion_views(old(v)@), by_suggestion()),
        forall|m: int| 0 <= m < old(v)@.len() ==> !same_entry(#[trigger] old(v)@[m]@, x@),
    ensures
        sorted_strict(suggestion_views(final(v)@), by_suggestion()),
        suggestion_views(final(v)@).to_set() == suggestion_views(old(v)@).to_set().insert(x@),
        forall|y: SuggestionView| #[trigger] suggestion_views(final(v)@).contains(y) ==> y == x@
            || suggestion_views(old(v)@).contains(y),
{
    let ghost old_v = suggestion_views(v@);
    let ghost xv = x@;
    proof {
        lemma_suggestion_strict();
    }
    let mut p: usize = 0;
    while p < v.len() && !suggestion_less(&x, &v[p])
        invariant
            p <= v.len(),
            suggestion_views(v@) == old_v,
            xv == x@,
            forall|m: int| 0 <= m < p ==> !suggestion_lt(xv, #[trigger] old_v[m]),
        decreases v.len() - p,
    {
        assert(old_v[p as int] == v@[p as int]@);
        p += 1;
    }
    proof {
        if p < old_v.len() {
            assert(suggestion_lt(xv, old_v[p as int]));
            assert(by_suggestion()(xv, old_v[p as int]));
        }
    }
    v.insert(p, x);
    proof {
        let nv = suggestion_views(v@);
        assert(nv =~= old_v.insert(p as int, xv));
        assert forall|m: int| 0 <= m < old_v.len() implies (m < p ==> suggestion_lt(
            #[trigger] old_v[m],
            xv,
        )) && (m >= p ==> suggestion_lt(xv, old_v[m])) by {
            assert(old_v[m] == old(v)@[m]@);
            assert(!same_entry(old_v[m], xv));
            lemma_suggestion_total(old_v[m], xv);
            if m > p {
                assert(by_suggestion()(old_v[p as int], old_v[m]));
            }
        }
        assert forall|i: int, j: int| 0 <= i < j < nv.len() implies #[trigger] by_suggestion()(
            nv[i],
            nv[j],
        ) by {
            if j < p {
                assert(by_suggestion()(old_v[i], old_v[j]));
            } else if j == p {
                assert(suggestion_lt(old_v[i], xv));
            } else if i < p {
                assert(suggestion_lt(old_v[i], xv));
                assert(suggestion_lt(xv, old_v[j - 1]));
            } else if i == p {
                assert(suggestion_lt(xv, old_v[j - 1]));
            } else {
                assert(by_suggestion()(old_v[i - 1], old_v[j - 1]));
            }
        }
        assert forall|y: SuggestionView| nv.contains(y) <==> old_v.contains(y) || y == xv by {
            if nv.contains(y) {
                let k = choose|k: int| 0 <= k < nv.len() && nv[k] == y;
                if k < p {
                    assert(old_v[k] == y);
                } else if k > p {
                    assert(old_v[k - 1] == y);
                }
            }
            if old_v.contains(y) {
                let k = choose|k: int| 0 <= k < old_v.len() && old_v[k] == y;
                if k < p {
                    assert(nv[k] == y);
                } else {
                    assert(nv[k + 1] == y);
                }
            }
            if y == xv {
                assert(nv[p as int] == y);
            }
        }
        assert(nv.to_set() =~= old_v.to_set().insert(xv));
    }
}

/// Ranking a ranked list changes nothing: suggestions already in order, one per
/// package and bucket, and no more than the limit, are their own ranking.
pub proof fn lemma_ranking_is_stable(t: Seq<SuggestionView>)
    requires
        sorted_strict(t, by_suggestion()),
        forall|i: int, j: int| 0 <= i < j < t.len() ==> !same_entry(#[trigger] t[i], #[trigger] t[j]),
        t.len() <= SUGGESTION_LIMIT,
    ensures
        top_suggestions(t) == t,
{
    assert forall|k: int| 0 <= k < t.len() implies is_kept(t, k) by {
        assert forall|j: int| 0 <= j < t.len() && #[trigger] same_entry(t[j], t[k]) implies score_lt(
            t[k].2,
            t[j].2,
        ) || (t[k].2 == t[j].2 && k <= j) by {
            if j < k {
                assert(!same_entry(t[j], t[k]));
            } else if k < j {
                assert(!same_entry(t[k], t[j]));
                assert(same_entry(t[k], t[j]));
            }
        }
    }
    assert(kept(t) =~= t.to_set()) by {
        assert forall|x: SuggestionView| kept(t).contains(x) implies t.to_set().contains(x) by {
            let k = choose|k: int| #[trigger] is_kept(t, k) && t[k] == x;
            assert(t.contains(t[k]));
        }
        assert forall|x: SuggestionView| t.to_set().contains(x) implies kept(t).contains(x) by {
            let k = choose|k: int| 0 <= k < t.len() && t[k] == x;
            assert(is_kept(t, k));
        }
    }
    lemma_suggestion_strict();
    crate::order::lemma_listing(t, by_suggestion());
}

/// Suggestions as ranking leaves them: in order, one per package and bucket,
/// no more than the limit.
pub open spec fn ranked_list(t: Seq<SuggestionView>) -> bool {
    &&& sorted_strict(t, by_suggestion())
    &&& forall|i: int, j: int| 0 <= i < j < t.len() ==> !same_entry(#[trigger] t[i], #[trigger] t[j])
    &&& t.len() <= SUGGESTION_LIMIT
}

/// Ranking any suggestions gives a ranked list: in order, one per package and
/// bucket, no more than the limit; and each kept suggestion carries the best
/// score of its package and bucket.
pub proof fn lemma_top_is_ranked(s: Seq<SuggestionView>)
    ensures
        ranked_list(top_suggestions(s)),
        forall|i: int, j: int|
            0 <= i < top_suggestions(s).len() && 0 <= j < s.len() && same_entry(
                #[trigger] s[j],
                #[trigger] top_suggestions(s)[i],
            ) ==> !score_lt(s[j].2, top_suggestions(s)[i].2),
{
    let k = kept(s);
    assert forall|x: SuggestionView| k.contains(x) implies s.to_set().contains(x) by {
        let m = choose|m: int| #[trigger] is_kept(s, m) && s[m] == x;
        assert(s.contains(s[m]));
    }
    vstd::seq_lib::seq_to_set_is_finite(s);
    vstd::set_lib::lemma_set_subset_finite(s.to_set(), k);
    lemma_suggestion_strict();
    assert forall|a: SuggestionView, b: SuggestionView| k.contains(a) && k.contains(b) && a != b implies #[trigger] by_suggestion()(a, b) || #[trigger] by_suggestion()(b, a) by {
        let ma = choose|m: int| #[trigger] is_kept(s, m) && s[m] == a;
        let mb = choose|m: int| #[trigger] is_kept(s, m) && s[m] == b;
        if same_entry(a, b) {
            lemma_kept_unique(s, ma, mb);
        }
        lemma_suggestion_total(a, b);
    }
    crate::order::lemma_listing_exists(k, by_suggestion());
    let l = listing(k, by_suggestion());
    let t = top_suggestions(s);
    assert forall|i: int| 0 <= i < t.len() implies #[trigger] k.contains(t[i]) by {
        assert(t[i] == l[i]);
        assert(l.to_set().contains(l[i]));
    }
    assert forall|i: int, j: int| 0 <= i < j < t.len() implies !same_entry(#[trigger] t[i], #[trigger] t[j]) by {
        assert(t[i] == l[i] && t[j] == l[j]);
        assert(k.contains(t[i]) && k.contains(t[j]));
        if same_entry(t[i], t[j]) {
            let ma = choose|m: int| #[trigger] is_kept(s, m) && s[m] == t[i];
            let mb = choose|m: int| #[trigger] is_kept(s, m) && s[m] == t[j];
            lemma_kept_unique(s, ma, mb);
            assert(by_suggestion()(l[i], l[j]));
        }
    }
    assert forall|i: int, j: int| 0 <= i < j < t.len() implies #[trigger] by_suggestion()(t[i], t[j]) by {
        assert(t[i] == l[i] && t[j] == l[j]);
    }
    assert forall|i: int, j: int|
        0 <= i < t.len() && 0 <= j < s.len() && same_entry(#[trigger] s[j], #[trigger] t[i]) implies !score_lt(
        s[j].2,
        t[i].2,
    ) by {
        assert(k.contains(t[i]));
        let m = choose|m: int| #[trigger] is_kept(s, m) && s[m] == t[i];
        assert(same_entry(s[j], s[m]));
        lemma_score_lt_asym(s[m].2, s[j].2);
    }
}

proof fn lemma_score_lt_asym(a: Score, b: Score)
    ensures
        score_lt(a, b) ==> !score_lt(b, a),
        !score_lt(a, a),
{
}

/// Some suggestion of `v` names the package and bucket of `x`.
pub open spec fn represented(v: Seq<SuggestionView>, x: SuggestionView) -> bool {
    exists|m: int| 0 <= m < v.len() && same_entry(#[trigger] v[m], x)
}

fn find_entry(v: &Vec<Suggestion>, x: &Suggestion) -> (r: Option<usize>)
    ensures
        match r {
            Some(j) => j < v@.len() && same_entry(v@[j as int]@, x@),
            None => forall|m: int| 0 <= m < v@.len() ==> !same_entry(#[trigger] v@[m]@, x@),
        },
{
    let mut j: usize = 0;
    while j < v.len()
        invariant
            j <= v@.len(),
            forall|m: int| 0 <= m < j ==> !same_entry(#[trigger] v@[m]@, x@),
        decreases v.len() - j,
    {
        if str_eq(v[j].bucket.as_str(), x.bucket.as_str()) && str_eq(
            v[j].app.name.as_str(),
            x.app.name.as_str(),
        ) {
            return Some(j);
        }
        j += 1;
    }
    None
}

/// Orders suggestions by score, package name and bucket, keeps one per package
/// and bucket (the best scored, the first on a tie) and at most `SUGGESTION_LIMIT`.
pub fn rank_suggestions(suggestions: &mut Vec<Suggestion>)
    ensures
        suggestion_views(final(suggestions)@) == top_suggestions(suggestion_views(old(suggestions)@)),
        ranked_list(suggestion_views(final(suggestions)@)),
        final(suggestions)@.len() <= SUGGESTION_LIMIT,
        sorted_strict(suggestion_views(final(suggestions)@), by_suggestion()),
        forall|i: int|
            0 <= i < final(suggestions)@.len() ==> suggestion_views(old(suggestions)@).contains(
                #[trigger] final(suggestions)@[i]@,
            ),
        forall|i: int, j: int|
            0 <= i < j < final(suggestions)@.len() ==> !same_entry(
                #[trigger] final(suggestions)@[i]@,
                #[trigger] final(suggestions)@[j]@,
            ),
{
    let mut input: Vec<Suggestion> = Vec::new();
    std::mem::swap(&mut input, suggestions);
    let ghost sv = input@;
    let ghost s = suggestion_views(input@);
    let mut out: Vec<Suggestion> = Vec::new();
    proof {
        lemma_suggestion_strict();
        assert(suggestion_views(out@).to_set() =~= kept(s.take(0)));
    }
    for x in it: input
        invariant
            it.seq() == sv,
            s == suggestion_views(sv),
            sorted_strict(suggestion_views(out@), by_suggestion()),
            suggestion_views(out@).to_set() == kept(s.take(it.index() as int)),
            it.index() <= s.len(),
            forall|k: int| 0 <= k < it.index() ==> represented(suggestion_views(out@), #[trigger] s[k]),
    {
        let ghost i = it.index() as int;
        let ghost p = s.take(i);
        let ghost xv = x@;
        let ghost ov = suggestion_views(out@);
        proof {
            lemma_suggestion_strict();
            assert(s.take(i + 1) =~= p.push(xv));
            assert(s[i] == xv);
        }
        match find_entry(&out, &x) {
            Some(j) => {
                let ghost yv = out@[j as int]@;
                proof {
                    assert(ov[j as int] == yv);
                    assert(ov.contains(yv));
                    assert(kept(p).contains(yv));
                }
                let ghost kb = choose|k: int| #[trigger] is_kept(p, k) && p[k] == yv;
                if score_less(x.score, out[j].score) {
                    proof {
                        lemma_kept_better(p, xv, kb);
                    }
                    let removed = out.remove(j);
                    let ghost rv = suggestion_views(out@);
                    proof {
                        assert(rv =~= ov.remove(j as int));
                        assert forall|m: int| 0 <= m < out@.len() implies !same_entry(
                            #[trigger] out@[m]@,
                            xv,
                        ) by {
                            let mm = if m < j { m } else { m + 1 };
                            assert(out@[m]@ == ov[mm]);
                            assert(ov.contains(ov[mm]));
                            assert(kept(p).contains(ov[mm]));
                            let k2 = choose|k: int| #[trigger] is_kept(p, k) && p[k] == ov[mm];
                            if same_entry(ov[mm], xv) {
                                assert(same_entry(p[k2], p[kb]));
                                lemma_kept_unique(p, k2, kb);
                                assert(by_suggestion()(ov[mm], ov[j as int]) || by_suggestion()(
                                    ov[j as int],
                                    ov[mm],
                                ));
                            }
                        }
                        assert forall|a: int, b: int| 0 <= a < b < rv.len() implies #[trigger] by_suggestion()(
                            rv[a],
                            rv[b],
                        ) by {
                            let aa = if a < j { a } else { a + 1 };
                            let bb = if b < j { b } else { b + 1 };
                            assert(by_suggestion()(ov[aa], ov[bb]));
                        }
                        assert forall|y: SuggestionView| rv.to_set().contains(y) <==> ov.to_set().remove(
                            yv,
                        ).contains(y) by {
                            if rv.contains(y) {
                                let k = choose|k: int| 0 <= k < rv.len() && rv[k] == y;
                                let kk = if k < j { k } else { k + 1 };
                                assert(ov[kk] == y);
                                assert(by_suggestion()(ov[kk], ov[j as int]) || by_suggestion()(
                                    ov[j as int],
                                    ov[kk],
                                ));
                            }
                            if ov.contains(y) && y != yv {
                                let k = choose|k: int| 0 <= k < ov.len() && ov[k] == y;
                                if k < j {
                                    assert(rv[k] == y);
                                } else {
                                    assert(rv[k - 1] == y);
                                }
                            }
                        }
                        assert(rv.to_set() =~= ov.to_set().remove(yv));
                    }
                    insert_suggestion(&mut out, x);
                    proof {
                        let nv = suggestion_views(out@);
                        assert(nv.to_set() =~= kept(s.take(i + 1)));
                        assert(nv.to_set().contains(xv));
                        let mx = choose|m: int| 0 <= m < nv.len() && nv[m] == xv;
                        assert forall|k: int| 0 <= k < i + 1 implies represented(nv, #[trigger] s[k]) by {
                            assert(same_entry(nv[mx], xv));
                            if k < i && !same_entry(xv, s[k]) {
                                assert(represented(ov, s[k]));
                                let m0 = choose|m: int| 0 <= m < ov.len() && same_entry(#[trigger] ov[m], s[k]);
                                assert(m0 != j as int);
                                assert(ov.to_set().contains(ov[m0]));
                                assert(rv.to_set().contains(ov[m0]));
                                assert(nv.to_set().contains(ov[m0]));
                                let m1 = choose|m: int| 0 <= m < nv.len() && nv[m] == ov[m0];
                                assert(same_entry(nv[m1], s[k]));
                            }
                        }
                    }
                } else {
                    proof {
                        lemma_kept_worse(p, xv, kb);
                        assert forall|k: int| 0 <= k < i + 1 implies represented(ov, #[trigger] s[k]) by {
                            if k == i {
                                assert(same_entry(ov[j as int], s[k]));
                            }
                        }
                    }
                }
            },
            None => {
                proof {
                    assert forall|k: int| 0 <= k < p.len() implies !same_entry(#[trigger] p[k], xv) by {
                        assert(p[k] == s[k]);
                        assert(represented(ov, s[k]));
                        let m = choose|m: int| 0 <= m < ov.len() && same_entry(#[trigger] ov[m], s[k]);
                        assert(ov[m] == out@[m]@);
                    }
                    lemma_kept_new(p, xv);
                }
                insert_suggestion(&mut out, x);
                proof {
                    let nv = suggestion_views(out@);
                    assert(nv.to_set() =~= kept(s.take(i + 1)));
                    assert forall|k: int| 0 <= k < i + 1 implies represented(nv, #[trigger] s[k]) by {
                        if k == i {
                            assert(nv.to_set().contains(xv));
                            let mx = choose|m: int| 0 <= m < nv.len() && nv[m] == xv;
                            assert(same_entry(nv[mx], s[k]));
                        } else {
                            assert(represented(ov, s[k]));
                            let m0 = choose|m: int| 0 <= m < ov.len() && same_entry(#[trigger] ov[m], s[k]);
                            assert(ov.to_set().contains(ov[m0]));
                            assert(nv.to_set().contains(ov[m0]));
                            let m1 = choose|m: int| 0 <= m < nv.len() && nv[m] == ov[m0];
                            assert(same_entry(nv[m1], s[k]));
                        }
                    }
                }
            },
        }
    }
    proof {
        assert(s.take(s.len() as int) =~= s);
        lemma_listing(suggestion_views(out@), by_suggestion());
    }
    let ghost w = suggestion_views(out@);
    proof {
        assert forall|i: int| 0 <= i < w.len() implies s.contains(#[trigger] w[i]) by {
            assert(w.to_set().contains(w[i]));
            let k = choose|k: int| #[trigger] is_kept(s, k) && s[k] == w[i];
        }
        assert forall|i: int, j: int| 0 <= i < j < w.len() implies !same_entry(#[trigger] w[i], #[trigger] w[j]) by {
            assert(w.to_set().contains(w[i]));
            assert(w.to_set().contains(w[j]));
            let k1 = choose|k: int| #[trigger] is_kept(s, k) && s[k] == w[i];
            let k2 = choose|k: int| #[trigger] is_kept(s, k) && s[k] == w[j];
            if same_entry(w[i], w[j]) {
                lemma_kept_unique(s, k1, k2);
                assert(by_suggestion()(w[i], w[j]));
            }
        }
    }
    let ghost wo = out@;
    out.truncate(SUGGESTION_LIMIT);
    proof {
        assert forall|i: int| 0 <= i < out@.len() implies #[trigger] out@[i]@ == w[i] by {
            assert(out@[i] == wo[i]);
        }
        assert(suggestion_views(out@) =~= if w.len() <= SUGGESTION_LIMIT {
            w
        } else {
            w.take(SUGGESTION_LIMIT as int)
        });
    }
    *suggestions = out;
}

// ----------------------------------------------------------------------
// Remote buckets
// ----------------------------------------------------------------------

/// The GitHub API address listing the files of the repository at `url`, for a
/// `https://github.com/<owner>/<repo>` address (trailing slashes and `.git`
/// ignored); `None` for any other address.
pub open spec fn api_url_of(url: Seq<char>) -> Option<Seq<char>> {
    if "https://github.com/"@.is_prefix_of(url) {
        let repo = trim_end(trim_end(url.skip("https://github.com/"@.len() as int), "/"@), ".git"@);
        if count_char(repo, '/') == 1 {
            Some("https://api.github.com/repos/"@ + repo + "/git/trees/HEAD?recursive=1"@)
        } else {
            None
        }
    } else {
        None
    }
}

/// The known buckets to search remotely, in order: those not installed locally
/// whose address is a GitHub repository, with the API address to list it.
pub open spec fn targets_of(entries: Seq<(String, Json)>, local: Seq<Seq<char>>) -> Seq<
    (Seq<char>, Seq<char>),
>
    decreases entries.len(),
{
    if entries.len() == 0 {
        Seq::empty()
    } else {
        let rest = targets_of(entries.drop_last(), local);
        let name = entries.last().0@;
        if local.contains(name) {
            rest
        } else {
            match entries.last().1.string_view() {
                Some(u) => match api_url_of(u) {
                    Some(a) => rest.push((name, a)),
                    None => rest,
                },
                None => rest,
            }
        }
    }
}

/// The views of (name, address) pairs.
pub open spec fn target_views(v: Seq<(String, String)>) -> Seq<(Seq<char>, Seq<char>)> {
    v.map_values(|t: (String, String)| (t.0@, t.1@))
}

fn name_in(names: &Vec<String>, name: &str) -> (r: bool)
    ensures
        r == views(names@).contains(name@),
{
    let mut i: usize = 0;
    while i < names.len()
        invariant
            i <= names.len(),
            forall|j: int| 0 <= j < i ==> names@[j]@ != name@,
        decreases names.len() - i,
    {
        if crate::text::str_eq(names[i].as_str(), name) {
            assert(views(names@)[i as int] == name@);
            return true;
        }
        i += 1;
    }
    assert forall|j: int| 0 <= j < views(names@).len() implies views(names@)[j] != name@ by {
        assert(views(names@)[j] == names@[j]@);
    }
    false
}

fn matches_in(apps: &Vec<App>, query: &str, names_only: bool) -> (r: Vec<App>)
    ensures
        app_views(r@) == matches_of(app_views(apps@), query@, names_only),
{
    let mut r: Vec<App> = Vec::new();
    let ghost all = app_views(apps@);
    let mut i: usize = 0;
    while i < apps.len()
        invariant
            i <= apps.len(),
            all == app_views(apps@),
            app_views(r@) == matches_of(all.take(i as int), query@, names_only),
        decreases apps.len() - i,
    {
        proof {
            assert(all.take(i + 1).drop_last() =~= all.take(i as int));
            assert(all.take(i + 1).last() == apps@[i as int]@);
        }
        let ghost before = r@;
        match apps[i].copy().matching(query, names_only) {
            Some(a) => {
                r.push(a);
                assert(app_views(r@) =~= app_views(before).push(a@));
            },
            None => {},
        }
        i += 1;
    }
    assert(all.take(apps.len() as int) =~= all);
    r
}

fn suggestions_from(bucket: &String, apps: &Vec<App>, matcher: &Query, names_only: bool, remote: bool) -> (r:
    Vec<Suggestion>)
    ensures
        suggestion_views(r@) == suggestions_in(bucket@, app_views(apps@), matcher.view(), names_only, remote),
{
    let mut r: Vec<Suggestion> = Vec::new();
    let ghost all = app_views(apps@);
    let ghost q = matcher.view();
    let mut i: usize = 0;
    while i < apps.len()
        invariant
            i <= apps.len(),
            all == app_views(apps@),
            q == matcher.view(),
            suggestion_views(r@) == suggestions_in(bucket@, all.take(i as int), q, names_only, remote),
        decreases apps.len() - i,
    {
        proof {
            assert(all.take(i + 1).drop_last() =~= all.take(i as int));
            assert(all.take(i + 1).last() == apps@[i as int]@);
        }
        let wanted = if remote || !names_only {
            true
        } else {
            let lower = to_lowercase(apps[i].name.as_str());
            matcher.score(lower.as_str()).is_some()
        };
        if wanted {
            let ghost before = r@;
            match apps[i].copy().fuzzy_matching(matcher, names_only) {
                Some((score, a)) => {
                    let x = Suggestion { bucket: bucket.clone(), app: a, score, remote };
                    r.push(x);
                    assert(suggestion_views(r@) =~= suggestion_views(before).push(x@));
                },
                None => {},
            }
        }
        i += 1;
    }
    assert(all.take(apps.len() as int) =~= all);
    r
}

impl Bucket {
    /// The address listing the files of a GitHub repository, for its address.
    pub fn api_url(url: &str) -> (r: Option<String>)
        ensures
            match r {
                Some(a) => api_url_of(url@) == Some(a@),
                None => api_url_of(url@) is None,
            },
    {
        let rest = match strip_prefix(url, "https://github.com/") {
            Some(rest) => rest,
            None => return None,
        };
        let trimmed = trim_end_matches(rest.as_str(), "/");
        let repo = trim_end_matches(trimmed.as_str(), ".git");
        if count_of(repo.as_str(), '/') != 1 {
            return None;
        }
        let mut a = String::new();
        a.append("https://api.github.com/repos/");
        a.append(repo.as_str());
        a.append("/git/trees/HEAD?recursive=1");
        assert(a@ =~= "https://api.github.com/repos/"@ + repo@ + "/git/trees/HEAD?recursive=1"@);
        Some(a)
    }

    /// The known buckets (the object of Scoop's `buckets.json`, name to address)
    /// to search remotely: those not among the `local` bucket names whose address
    /// is a GitHub repository, each with the address that lists its files.
    pub fn remote_targets(known: &Json, local: &Vec<String>) -> (r: Vec<(String, String)>)
        ensures
            match *known {
                Json::Object(entries) => target_views(r@) == targets_of(entries@, views(local@)),
                _ => r@.len() == 0,
            },
    {
        let entries = match known {
            Json::Object(entries) => entries,
            _ => return Vec::new(),
        };
        let mut r: Vec<(String, String)> = Vec::new();
        let mut i: usize = 0;
        while i < entries.len()
            invariant
                i <= entries.len(),
                target_views(r@) == targets_of(entries@.take(i as int), views(local@)),
            decreases entries.len() - i,
        {
            proof {
                assert(entries@.take(i + 1).drop_last() =~= entries@.take(i as int));
                assert(entries@.take(i + 1).last() == entries@[i as int]);
            }
            let name = &entries[i].0;
            if !name_in(local, name.as_str()) {
                match entries[i].1.as_string() {
                    Some(u) => match Self::api_url(u.as_str()) {
                        Some(a) => {
                            let ghost before = r@;
                            let t = (name.clone(), a);
                            r.push(t);
                            assert(target_views(r@) =~= target_views(before).push((t.0@, t.1@)));
                        },
                        None => {},
                    },
                    None => {},
                }
            }
            i += 1;
        }
        assert(entries@.take(entries.len() as int) =~= entries@);
        r
    }

    /// `remote_targets` of the known buckets in the text of Scoop's
    /// `buckets.json`; none where the text is not JSON (for `serde_json`).
    pub fn remote_targets_text(text: &str, local: &Vec<String>) -> (r: Vec<(String, String)>)
        ensures
            match spec_parse_json(text@) {
                Some(Json::Object(entries)) => target_views(r@) == targets_of(entries@, views(local@)),
                _ => r@.len() == 0,
            },
    {
        match parse_json(text) {
            Some(known) => Self::remote_targets(&known, local),
            None => Vec::new(),
        }
    }

    /// Whether the search descends into a directory of this name: unless it is
    /// hidden (its name starts with `.`).
    pub fn walks_into(dir_name: &str) -> (r: bool)
        ensures
            r == !(dir_name@.len() > 0 && dir_name@[0] == '.'),
    {
        let c = crate::text::chars_of(dir_name);
        !(c.len() > 0 && c[0] == '.')
    }

    /// Whether a file of this name is a manifest: its extension is `json` (the
    /// name ends in `.json` after at least one other character).
    pub fn is_manifest(file_name: &str) -> (r: bool)
        ensures
            r == (".json"@.is_suffix_of(file_name@) && file_name@.len() > 5),
    {
        crate::text::ends_with(file_name, ".json") && crate::text::chars_of(file_name).len() > 5
    }

    /// Whether a manifest named `stem` is worth reading: always, unless the search
    /// is by name only; then when the lowercase name contains `query` or, for a
    /// search that may suggest similar names, when it scores against `matcher`.
    pub fn worth_reading(stem: &str, query: &str, matcher: &Query, names_only: bool, fuzzy: bool) -> (r:
        bool)
        ensures
            r == worth_reading_spec(stem@, query@, matcher.view(), names_only, fuzzy),
    {
        if !names_only {
            return true;
        }
        let lower = to_lowercase(stem);
        if contains(lower.as_str(), query) {
            return true;
        }
        fuzzy && matcher.score(lower.as_str()).is_some()
    }

    /// The buckets of `catalog` with packages whose name, or else (unless
    /// `names_only`) an executable, contains `query`; each bucket with its
    /// matches sorted by name, the buckets sorted by name.
    pub fn search(catalog: &Vec<Bucket>, query: &str, names_only: bool) -> (r: Vec<Bucket>)
        ensures
            bucket_views(r@) == searched(bucket_views(catalog@), query@, names_only),
            crate::order::in_name_order(r@),
            forall|i: int|
                0 <= i < r@.len() ==> #[trigger] r@[i].apps@.len() > 0 && crate::order::in_name_order(
                    r@[i].apps@,
                ),
    {
        let ghost all = bucket_views(catalog@);
        let mut found: Vec<Bucket> = Vec::new();
        let mut i: usize = 0;
        while i < catalog.len()
            invariant
                i <= catalog.len(),
                all == bucket_views(catalog@),
                bucket_views(found@) == bucket_results(all.take(i as int), query@, names_only),
                forall|k: int|
                    0 <= k < found@.len() ==> #[trigger] found@[k].apps@.len() > 0
                        && crate::order::in_name_order(found@[k].apps@),
            decreases catalog.len() - i,
        {
            proof {
                assert(all.take(i + 1).drop_last() =~= all.take(i as int));
                assert(all.take(i + 1).last() == catalog@[i as int]@);
            }
            let matches = matches_in(&catalog[i].apps, query, names_only);
            let apps = sort_by_name(matches);
            proof {
                lemma_app_sort_views(matches@);
                crate::order::lemma_sorted_by_name(matches@);
            }
            if apps.len() > 0 {
                let ghost before = found@;
                let b = Bucket { name: catalog[i].name.clone(), apps };
                assert(b.apps@.len() > 0 && crate::order::in_name_order(b.apps@));
                found.push(b);
                assert(bucket_views(found@) =~= bucket_views(before).push(b@));
                assert forall|k: int| 0 <= k < found@.len() implies #[trigger] found@[k].apps@.len() > 0
                    && crate::order::in_name_order(found@[k].apps@) by {
                    if k < before.len() {
                        assert(found@[k] == before[k]);
                    }
                }
            } else {
                proof {
                    crate::order::lemma_sorted_by_name(app_views(matches@));
                }
            }
            i += 1;
        }
        assert(all.take(catalog.len() as int) =~= all);
        let r = sort_by_name(found);
        proof {
            lemma_bucket_sort_views(found@);
            crate::order::lemma_sorted_by_name(found@);
            assert forall|i: int| 0 <= i < r@.len() implies #[trigger] r@[i].apps@.len() > 0
                && crate::order::in_name_order(r@[i].apps@) by {
                crate::order::lemma_sorted_by_name_contains(found@, i);
                let m = choose|m: int| 0 <= m < found@.len() && found@[m] == r@[i];
                assert(found@[m].apps@.len() > 0);
            }
        }
        r
    }

    /// Suggestions of packages of `catalog` similar to `query`, ranked (see
    /// `rank_suggestions`).
    pub fn fuzzy_search(catalog: &Vec<Bucket>, query: &str, names_only: bool) -> (r: Vec<Suggestion>)
        ensures
            suggestion_views(r@) == top_suggestions(
                catalog_suggestions(bucket_views(catalog@), spec_to_lowercase(query@), names_only),
            ),
            ranked_list(suggestion_views(r@)),
    {
        let r = Self::suggest(catalog, query, names_only, Vec::new());
        assert(catalog_suggestions(bucket_views(catalog@), spec_to_lowercase(query@), names_only)
            + suggestion_views(Seq::<Suggestion>::empty()) =~= catalog_suggestions(
            bucket_views(catalog@),
            spec_to_lowercase(query@),
            names_only,
        ));
        r
    }

    /// Suggestions of packages of `catalog` similar to `query`, together with
    /// the suggestions `more` from elsewhere, ranked as one list (see
    /// `rank_suggestions`).
    pub fn suggest(catalog: &Vec<Bucket>, query: &str, names_only: bool, more: Vec<Suggestion>) -> (r: Vec<
        Suggestion,
    >)
        ensures
            suggestion_views(r@) == top_suggestions(
                catalog_suggestions(bucket_views(catalog@), spec_to_lowercase(query@), names_only)
                    + suggestion_views(more@),
            ),
            ranked_list(suggestion_views(r@)),
    {
        let matcher = Query::new(query);
        let ghost all = bucket_views(catalog@);
        let mut out: Vec<Suggestion> = Vec::new();
        let mut i: usize = 0;
        while i < catalog.len()
            invariant
                i <= catalog.len(),
                all == bucket_views(catalog@),
                matcher.view() == spec_to_lowercase(query@),
                suggestion_views(out@) == catalog_suggestions(all.take(i as int), matcher.view(), names_only),
            decreases catalog.len() - i,
        {
            proof {
                assert(all.take(i + 1).drop_last() =~= all.take(i as int));
                assert(all.take(i + 1).last() == catalog@[i as int]@);
            }
            let mut found = suggestions_from(&catalog[i].name, &catalog[i].apps, &matcher, names_only, false);
            let ghost before = out@;
            let ghost extra = found@;
            out.append(&mut found);
            assert(suggestion_views(out@) =~= suggestion_views(before) + suggestion_views(extra));
            i += 1;
        }
        assert(all.take(catalog.len() as int) =~= all);
        let ghost local = out@;
        let mut more = more;
        let ghost extra = more@;
        out.append(&mut more);
        assert(suggestion_views(out@) =~= suggestion_views(local) + suggestion_views(extra));
        rank_suggestions(&mut out);
        out
    }

    /// The literal and the fuzzy matches among the packages of a remote bucket
    /// `name`, both by package name only: the bucket with the packages whose name
    /// contains `query` (in their order), and the suggestions for `matcher`.
    pub fn remote_results(name: &str, apps: Vec<App>, query: &str, matcher: &Query) -> (r: (
        Bucket,
        Vec<Suggestion>,
    ))
        ensures
            r.0@ == (name@, matches_of(app_views(apps@), query@, true)),
            suggestion_views(r.1@) == suggestions_in(name@, app_views(apps@), matcher.view(), true, true),
    {
        let name = crate::text::copy_str(name);
        let found = matches_in(&apps, query, true);
        let suggestions = suggestions_from(&name, &apps, matcher, true, true);
        (Bucket { name, apps: found }, suggestions)
    }
}

/// What the remote buckets searched so far gave: the buckets with literal
/// matches, and the suggestions.
pub struct RemoteResults {
    buckets: Vec<Bucket>,
    suggestions: Vec<Suggestion>,
}

impl RemoteResults {
    /// The buckets with literal matches, and the suggestions, in the order added.
    pub closed spec fn view(&self) -> (Seq<BucketView>, Seq<SuggestionView>) {
        (bucket_views(self.buckets@), suggestion_views(self.suggestions@))
    }

    /// Nothing searched yet.
    pub fn new() -> (r: RemoteResults)
        ensures
            r.view() == (Seq::<BucketView>::empty(), Seq::<SuggestionView>::empty()),
    {
        let r = RemoteResults { buckets: Vec::new(), suggestions: Vec::new() };
        assert(bucket_views(r.buckets@) =~= Seq::<BucketView>::empty());
        assert(suggestion_views(r.suggestions@) =~= Seq::<SuggestionView>::empty());
        r
    }

    /// Adds the packages `apps` of the remote bucket `name` (see
    /// `Bucket::remote_results`): the bucket where it has literal matches, and
    /// its suggestions.
    pub fn add(&mut self, name: &str, apps: Vec<App>, query: &str, matcher: &Query)
        ensures
            final(self).view().0 == {
                let found = matches_of(app_views(apps@), query@, true);
                if found.len() > 0 {
                    old(self).view().0.push((name@, found))
                } else {
                    old(self).view().0
                }
            },
            final(self).view().1 == old(self).view().1 + suggestions_in(
                name@,
                app_views(apps@),
                matcher.view(),
                true,
                true,
            ),
    {
        let (bucket, mut similar) = Bucket::remote_results(name, apps, query, matcher);
        if bucket.apps.len() > 0 {
            let ghost before = self.buckets@;
            self.buckets.push(bucket);
            assert(bucket_views(self.buckets@) =~= bucket_views(before).push(bucket@));
        }
        let ghost before = self.suggestions@;
        let ghost extra = similar@;
        self.suggestions.append(&mut similar);
        assert(suggestion_views(self.suggestions@) =~= suggestion_views(before) + suggestion_views(
            extra,
        ));
    }

    /// The buckets with literal matches sorted by name, and the suggestions
    /// ranked (see `rank_suggestions`).
    pub fn finish(self) -> (r: (Vec<Bucket>, Vec<Suggestion>))
        ensures
            bucket_views(r.0@) == sorted_by_name(self.view().0),
            suggestion_views(r.1@) == top_suggestions(self.view().1),
            ranked_list(suggestion_views(r.1@)),
    {
        let buckets = sort_by_name(self.buckets);
        proof {
            lemma_bucket_sort_views(self.buckets@);
        }
        let mut suggestions = self.suggestions;
        rank_suggestions(&mut suggestions);
        (buckets, suggestions)
    }
}

} // verus!
