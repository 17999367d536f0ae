//! What a search shows: the lines printed for buckets, packages and
//! suggestions, and which searches a command line asks for.
use vstd::prelude::*;
use vstd::string::StringExecFns;

use crate::app::{App, AppView};
use crate::bucket::{
    bucket_views, catalog_suggestions, searched, suggestion_views, top_suggestions, Bucket,
    BucketView, Suggestion, SuggestionView,
};
use crate::text::spec_to_lowercase;
use crate::installed::{label_of, Installed, InstalledView};
use crate::Args;

verus! {

/// The line of a package: indented, after `prefix`, its name; its version in
/// parentheses where known, with its first executable where it lists one; then
/// its installation label.
pub open spec fn app_line_of(prefix: Seq<char>, a: AppView, label: Seq<char>) -> Seq<char> {
    "    "@ + prefix + a.0 + (if a.1.len() == 0 {
        Seq::empty()
    } else if a.2.len() > 0 {
        " ("@ + a.1 + ") --> includes '"@ + a.2[0] + "'"@
    } else {
        " ("@ + a.1 + ")"@
    }) + label
}

/// The lines of the packages of a bucket.
pub open spec fn app_lines_of(bucket: Seq<char>, apps: Seq<AppView>, v: InstalledView) -> Seq<Seq<char>> {
    apps.map_values(|a: AppView| app_line_of(Seq::empty(), a, label_of(v, bucket, a.0)))
}

/// The lines of a bucket: a heading, its packages, a blank line.
pub open spec fn bucket_lines_of(b: BucketView, v: InstalledView) -> Seq<Seq<char>> {
    seq!["'"@ + b.0 + "' bucket:"@] + app_lines_of(b.0, b.1, v) + seq![Seq::<char>::empty()]
}

/// The lines of several buckets, in order.
pub open spec fn buckets_lines_of(bs: Seq<BucketView>, v: InstalledView) -> Seq<Seq<char>>
    decreases bs.len(),
{
    if bs.len() == 0 {
        Seq::empty()
    } else {
        buckets_lines_of(bs.drop_last(), v) + bucket_lines_of(bs.last(), v)
    }
}

/// The line of a suggestion: as a package line, prefixed by `bucket/`.
pub open spec fn suggestion_line_of(s: SuggestionView, v: InstalledView) -> Seq<char> {
    app_line_of(s.0 + "/"@, s.1, label_of(v, s.0, s.1.0))
}

/// The lines of suggestions.
pub open spec fn suggestion_lines_of(ss: Seq<SuggestionView>, v: InstalledView) -> Seq<Seq<char>> {
    ss.map_values(|s: SuggestionView| suggestion_line_of(s, v))
}

/// The heading before literal results from buckets that are not installed.
pub open spec fn remote_heading() -> Seq<Seq<char>> {
    seq![
        "Results from other known buckets..."@,
        "(add them using 'scoop bucket add <name>')"@,
        Seq::<char>::empty(),
    ]
}

/// All the output of a search. In fuzzy mode: the suggestions under a heading,
/// or that nothing matched. Otherwise: the buckets found (under a heading when
/// they are not installed); failing that, the suggestions under `Did you mean?`;
/// failing that, that nothing matched.
pub open spec fn report_of(
    fuzzy_mode: bool,
    found: Seq<BucketView>,
    found_remotely: bool,
    suggestions: Seq<SuggestionView>,
    v: InstalledView,
) -> Seq<Seq<char>> {
    if fuzzy_mode {
        if suggestions.len() == 0 {
            seq!["No matches found."@]
        } else {
            seq!["Fuzzy matches:"@] + suggestion_lines_of(suggestions, v)
        }
    } else if found.len() > 0 {
        (if found_remotely {
            remote_heading()
        } else {
            Seq::empty()
        }) + buckets_lines_of(found, v)
    } else if suggestions.len() > 0 {
        seq!["Did you mean?"@] + suggestion_lines_of(suggestions, v)
    } else {
        seq!["No matches found."@]
    }
}

/// A report that found nothing and has nothing to suggest says so, in every mode.
pub proof fn lemma_nothing_found(
    fuzzy_mode: bool,
    found: Seq<BucketView>,
    found_remotely: bool,
    suggestions: Seq<SuggestionView>,
    v: InstalledView,
)
    requires
        found.len() == 0,
        suggestions.len() == 0,
    ensures
        report_of(fuzzy_mode, found, found_remotely, suggestions, v) == seq!["No matches found."@],
{
}

proof fn lemma_first_bucket_line(bs: Seq<BucketView>, v: InstalledView)
    requires
        bs.len() > 0,
    ensures
        buckets_lines_of(bs, v).len() > 0,
        buckets_lines_of(bs, v)[0] == "'"@ + bs[0].0 + "' bucket:"@,
    decreases bs.len(),
{
    let d = bs.drop_last();
    if d.len() > 0 {
        lemma_first_bucket_line(d, v);
        assert(d[0] == bs[0]);
    } else {
        assert(bs.last() == bs[0]);
        assert(buckets_lines_of(d, v) =~= Seq::<Seq<char>>::empty());
    }
}

/// The heading `Fuzzy matches:` stands only above suggestions: a report that
/// begins with it lists at least one suggestion, one line each, and nothing else.
pub proof fn lemma_fuzzy_heading_above_suggestions(
    fuzzy_mode: bool,
    found: Seq<BucketView>,
    found_remotely: bool,
    suggestions: Seq<SuggestionView>,
    v: InstalledView,
)
    ensures
        report_of(fuzzy_mode, found, found_remotely, suggestions, v).len() > 0,
        report_of(fuzzy_mode, found, found_remotely, suggestions, v)[0] == "Fuzzy matches:"@ ==> {
            &&& suggestions.len() > 0
            &&& report_of(fuzzy_mode, found, found_remotely, suggestions, v) == seq!["Fuzzy matches:"@]
                + suggestion_lines_of(suggestions, v)
        },
{
    reveal_strlit("Fuzzy matches:");
    reveal_strlit("No matches found.");
    reveal_strlit("Did you mean?");
    reveal_strlit("Results from other known buckets...");
    reveal_strlit("'");
    let r = report_of(fuzzy_mode, found, found_remotely, suggestions, v);
    if !fuzzy_mode && found.len() > 0 {
        lemma_first_bucket_line(found, v);
        if found_remotely {
            assert(r[0] == "Results from other known buckets..."@);
            assert(r[0][0] != "Fuzzy matches:"@[0]);
        } else {
            assert(r[0] == "'"@ + found[0].0 + "' bucket:"@);
            assert(r[0][0] == '\'');
        }
    } else if !fuzzy_mode && suggestions.len() > 0 {
        assert(r[0] == "Did you mean?"@);
        assert(r[0][0] != "Fuzzy matches:"@[0]);
    } else if suggestions.len() == 0 {
        assert(r[0] == "No matches found."@);
        assert(r[0][0] != "Fuzzy matches:"@[0]);
    }
}

/// Suggestions are ranked from the local catalog and the remote buckets
/// together whenever they are shown: in fuzzy mode, or when no literal result
/// was found locally or remotely; otherwise none are shown. In fuzzy mode the
/// report is exactly those suggestions under `Fuzzy matches:`, or that nothing
/// matched.
pub proof fn lemma_suggestions_from_everywhere(
    fuzzy_mode: bool,
    query: Seq<char>,
    names_only: bool,
    catalog: Seq<BucketView>,
    local: Seq<BucketView>,
    remote: Option<(Seq<BucketView>, Seq<SuggestionView>)>,
    v: InstalledView,
)
    ensures
        ({
            let (found, from_remote, similar) = outcome(fuzzy_mode, query, names_only, catalog, local, remote);
            let remote_similar = match remote {
                Some(x) => x.1,
                None => Seq::<SuggestionView>::empty(),
            };
            let all = top_suggestions(
                catalog_suggestions(catalog, spec_to_lowercase(query), names_only) + remote_similar,
            );
            &&& (fuzzy_mode || found.len() == 0) ==> similar == all
            &&& !(fuzzy_mode || found.len() == 0) ==> similar.len() == 0
            &&& found.len() == 0 <==> (local.len() == 0 && (fuzzy_mode || match remote {
                Some(x) => x.0.len() == 0,
                None => true,
            }))
            &&& fuzzy_mode ==> report_of(fuzzy_mode, found, from_remote, similar, v) == if all.len() == 0 {
                seq!["No matches found."@]
            } else {
                seq!["Fuzzy matches:"@] + suggestion_lines_of(all, v)
            }
        }),
{
}

/// The line of a package of `bucket`, after `prefix`.
pub fn app_line(prefix: &str, app: &App, label: &str) -> (r: String)
    ensures
        r@ == app_line_of(prefix@, app@, label@),
{
    let mut r = String::new();
    r.append("    ");
    r.append(prefix);
    r.append(app.name.as_str());
    let ghost head = r@;
    if crate::text::chars_of(app.version.as_str()).len() == 0 {
        assert(r@ =~= head + Seq::<char>::empty());
    } else if app.bin.len() > 0 {
        r.append(" (");
        r.append(app.version.as_str());
        r.append(") --> includes '");
        r.append(app.bin[0].as_str());
        r.append("'");
        assert(app@.2[0] == app.bin@[0]@);
        assert(r@ =~= head + (" ("@ + app@.1 + ") --> includes '"@ + app@.2[0] + "'"@));
    } else {
        r.append(" (");
        r.append(app.version.as_str());
        r.append(")");
        assert(r@ =~= head + (" ("@ + app@.1 + ")"@));
    }
    r.append(label);
    assert(r@ =~= app_line_of(prefix@, app@, label@));
    r
}

/// The lines of a bucket: a heading, a line per package, a blank line.
pub fn bucket_lines(bucket: &Bucket, installed: &Installed) -> (r: Vec<String>)
    ensures
        crate::json::views(r@) == bucket_lines_of(bucket@, installed.view()),
{
    let mut r: Vec<String> = Vec::new();
    let mut heading = String::new();
    heading.append("'");
    heading.append(bucket.name.as_str());
    heading.append("' bucket:");
    r.push(heading);
    let ghost lines = app_lines_of(bucket.name@, crate::bucket::app_views(bucket.apps@), installed.view());
    let mut i: usize = 0;
    assert(crate::json::views(r@) =~= seq!["'"@ + bucket.name@ + "' bucket:"@] + lines.take(0));
    while i < bucket.apps.len()
        invariant
            i <= bucket.apps.len(),
            lines == app_lines_of(bucket.name@, crate::bucket::app_views(bucket.apps@), installed.view()),
            crate::json::views(r@) == seq!["'"@ + bucket.name@ + "' bucket:"@] + lines.take(i as int),
        decreases bucket.apps.len() - i,
    {
        let app = &bucket.apps[i];
        let label = installed.label(bucket.name.as_str(), app.name.as_str());
        let line = app_line("", app, label.as_str());
        let ghost before = crate::json::views(r@);
        r.push(line);
        proof {
            assert(""@ =~= Seq::<char>::empty()) by {
                reveal_strlit("");
            }
            assert(lines[i as int] == line@);
            assert(crate::json::views(r@) =~= before.push(line@));
            assert(lines.take(i + 1) =~= lines.take(i as int).push(lines[i as int]));
        }
        i += 1;
    }
    r.push(String::new());
    assert(lines.take(bucket.apps.len() as int) =~= lines);
    assert(crate::json::views(r@) =~= bucket_lines_of(bucket@, installed.view()));
    r
}

/// The line of a suggestion.
pub fn suggestion_line(s: &Suggestion, installed: &Installed) -> (r: String)
    ensures
        r@ == suggestion_line_of(s@, installed.view()),
{
    let mut prefix = String::new();
    prefix.append(s.bucket.as_str());
    prefix.append("/");
    let label = installed.label(s.bucket.as_str(), s.app.name.as_str());
    assert(prefix@ =~= s.bucket@ + "/"@);
    app_line(prefix.as_str(), &s.app, label.as_str())
}

fn push_suggestion_lines(out: &mut Vec<String>, suggestions: &Vec<Suggestion>, installed: &Installed)
    ensures
        crate::json::views(final(out)@) == crate::json::views(old(out)@) + suggestion_lines_of(
            suggestion_views(suggestions@),
            installed.view(),
        ),
{
    let ghost start = crate::json::views(out@);
    let ghost lines = suggestion_lines_of(suggestion_views(suggestions@), installed.view());
    let mut i: usize = 0;
    assert(start + lines.take(0) =~= start);
    while i < suggestions.len()
        invariant
            i <= suggestions.len(),
            lines == suggestion_lines_of(suggestion_views(suggestions@), installed.view()),
            crate::json::views(out@) == start + lines.take(i as int),
        decreases suggestions.len() - i,
    {
        let line = suggestion_line(&suggestions[i], installed);
        let ghost before = crate::json::views(out@);
        out.push(line);
        proof {
            assert(lines[i as int] == line@);
            assert(crate::json::views(out@) =~= before.push(line@));
            assert(start + lines.take(i + 1) =~= (start + lines.take(i as int)).push(lines[i as int]));
        }
        i += 1;
    }
    assert(lines.take(suggestions.len() as int) =~= lines);
}

impl Args {
    /// A fuzzy search: asked for, and with a query.
    pub open spec fn is_fuzzy_mode(&self) -> bool {
        self.fuzzy && self.query@.len() > 0
    }

    /// Whether the search ranks similar names rather than listing literal matches.
    pub fn fuzzy_mode(&self) -> (r: bool)
        ensures
            r == self.is_fuzzy_mode(),
    {
        self.fuzzy && crate::text::chars_of(self.query.as_str()).len() > 0
    }

    /// Whether to search the known buckets that are not installed: unless only
    /// local buckets may be searched, in a fuzzy search, or when nothing was
    /// found locally.
    pub fn wants_remote(&self, found_locally: bool) -> (r: bool)
        ensures
            r == (!self.local_only && (self.is_fuzzy_mode() || !found_locally)),
    {
        !self.local_only && (self.fuzzy_mode() || !found_locally)
    }

    /// The literal results in the local catalog: none in a fuzzy search, else
    /// those of `Bucket::search`.
    pub fn local_results(&self, catalog: &Vec<Bucket>) -> (r: Vec<Bucket>)
        ensures
            bucket_views(r@) == if self.is_fuzzy_mode() {
                Seq::<BucketView>::empty()
            } else {
                searched(bucket_views(catalog@), self.query@, self.exclude_bin)
            },
    {
        if self.fuzzy_mode() {
            let r: Vec<Bucket> = Vec::new();
            assert(bucket_views(r@) =~= Seq::<BucketView>::empty());
            r
        } else {
            Bucket::search(catalog, self.query.as_str(), self.exclude_bin)
        }
    }

    /// Whether the manifests skipped by a names-only literal search must be
    /// read after all, for suggestions: nothing was found locally, and the
    /// first reading did not already keep the names that score.
    pub fn rereads_for_suggestions(&self, found_locally: bool) -> (r: bool)
        ensures
            r == (self.exclude_bin && !self.is_fuzzy_mode() && !found_locally),
    {
        self.exclude_bin && !self.fuzzy_mode() && !found_locally
    }
}

/// The buckets of a search's literal results (with whether they are remote)
/// and its suggestions, from the local results, what the remote buckets gave
/// (where they were searched), and the catalog: local results where there are
/// any, else (outside fuzzy mode) remote ones; suggestions, from the catalog
/// and the remote buckets together, in fuzzy mode or where nothing was found.
pub open spec fn outcome(
    fuzzy_mode: bool,
    query: Seq<char>,
    names_only: bool,
    catalog: Seq<BucketView>,
    local: Seq<BucketView>,
    remote: Option<(Seq<BucketView>, Seq<SuggestionView>)>,
) -> (Seq<BucketView>, bool, Seq<SuggestionView>) {
    let (remote_found, remote_similar) = match remote {
        Some(x) => x,
        None => (Seq::<BucketView>::empty(), Seq::<SuggestionView>::empty()),
    };
    let from_remote = local.len() == 0 && !fuzzy_mode && remote_found.len() > 0;
    let found = if from_remote {
        remote_found
    } else {
        local
    };
    let similar = if fuzzy_mode || found.len() == 0 {
        top_suggestions(catalog_suggestions(catalog, spec_to_lowercase(query), names_only) + remote_similar)
    } else {
        Seq::empty()
    };
    (found, from_remote, similar)
}

/// All the lines a search prints, from the catalog, the local results, and what
/// the remote buckets gave where they were searched (see `outcome` and
/// `report_of`).
pub fn conclude(
    args: &Args,
    catalog: &Vec<Bucket>,
    local: Vec<Bucket>,
    remote: Option<(Vec<Bucket>, Vec<Suggestion>)>,
    installed: &Installed,
) -> (r: Vec<String>)
    ensures
        ({
            let (found, from_remote, similar) = outcome(
                args.is_fuzzy_mode(),
                args.query@,
                args.exclude_bin,
                bucket_views(catalog@),
                bucket_views(local@),
                match remote {
                    Some((b, s)) => Some((bucket_views(b@), suggestion_views(s@))),
                    None => None,
                },
            );
            crate::json::views(r@) == report_of(args.is_fuzzy_mode(), found, from_remote, similar, installed.view())
        }),
{
    let fuzzy = args.fuzzy_mode();
    let (remote_found, remote_similar) = match remote {
        Some(x) => x,
        None => (Vec::new(), Vec::new()),
    };
    assert(bucket_views(Seq::<Bucket>::empty()) =~= Seq::<BucketView>::empty());
    assert(suggestion_views(Seq::<Suggestion>::empty()) =~= Seq::<SuggestionView>::empty());
    let from_remote = local.len() == 0 && !fuzzy && remote_found.len() > 0;
    let found = if from_remote {
        remote_found
    } else {
        local
    };
    let similar = if fuzzy || found.len() == 0 {
        Bucket::suggest(catalog, args.query.as_str(), args.exclude_bin, remote_similar)
    } else {
        let v: Vec<Suggestion> = Vec::new();
        assert(suggestion_views(v@) =~= Seq::<SuggestionView>::empty());
        v
    };
    report(args, &found, from_remote, &similar, installed)
}


/// All the lines a search prints (see `report_of`).
pub fn report(
    args: &Args,
    found: &Vec<Bucket>,
    found_remotely: bool,
    suggestions: &Vec<Suggestion>,
    installed: &Installed,
) -> (r: Vec<String>)
    ensures
        crate::json::views(r@) == report_of(
            args.is_fuzzy_mode(),
            bucket_views(found@),
            found_remotely,
            suggestion_views(suggestions@),
            installed.view(),
        ),
{
    let mut out: Vec<String> = Vec::new();
    let ghost v = installed.view();
    if args.fuzzy_mode() {
        if suggestions.len() == 0 {
            out.push(crate::text::copy_str("No matches found."));
            assert(crate::json::views(out@) =~= seq!["No matches found."@]);
        } else {
            out.push(crate::text::copy_str("Fuzzy matches:"));
            assert(crate::json::views(out@) =~= seq!["Fuzzy matches:"@]);
            push_suggestion_lines(&mut out, suggestions, installed);
        }
        return out;
    }
    if found.len() > 0 {
        if found_remotely {
            out.push(crate::text::copy_str("Results from other known buckets..."));
            out.push(crate::text::copy_str("(add them using 'scoop bucket add <name>')"));
            out.push(String::new());
            assert(crate::json::views(out@) =~= remote_heading());
        } else {
            assert(crate::json::views(out@) =~= Seq::<Seq<char>>::empty());
        }
        let ghost head = crate::json::views(out@);
        let ghost bs = bucket_views(found@);
        let mut i: usize = 0;
        assert(head + buckets_lines_of(bs.take(0), v) =~= head);
        while i < found.len()
            invariant
                i <= found.len(),
                bs == bucket_views(found@),
                v == installed.view(),
                crate::json::views(out@) == head + buckets_lines_of(bs.take(i as int), v),
            decreases found.len() - i,
        {
            let mut lines = bucket_lines(&found[i], installed);
            let ghost before = out@;
            let ghost more = lines@;
            out.append(&mut lines);
            proof {
                assert(bs.take(i + 1).drop_last() =~= bs.take(i as int));
                assert(bs.take(i + 1).last() == found@[i as int]@);
                assert(crate::json::views(out@) =~= crate::json::views(before) + crate::json::views(more));
                assert(crate::json::views(out@) =~= head + buckets_lines_of(bs.take(i + 1), v));
            }
            i += 1;
        }
        assert(bs.take(found.len() as int) =~= bs);
        return out;
    }
    if suggestions.len() > 0 {
        out.push(crate::text::copy_str("Did you mean?"));
        assert(crate::json::views(out@) =~= seq!["Did you mean?"@]);
        push_suggestion_lines(&mut out, suggestions, installed);
        return out;
    }
    out.push(crate::text::copy_str("No matches found."));
    assert(crate::json::views(out@) =~= seq!["No matches found."@]);
    out
}

} // verus!
