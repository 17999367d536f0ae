//! What is installed: the version and source bucket of each installed
//! package, locally and globally, and the label shown beside search results.
use vstd::prelude::*;
use vstd::string::StringExecFns;

use crate::json::{parse_json_file, spec_parse_json, without_boms, Json};
use crate::scoop::{given, join_path, joined, path_at, path_of};
use crate::text::{
    chars_of, contains, eq_ignore_ascii_case, eq_ignore_case, lex_less, lex_lt, seq_contains,
    spec_to_lowercase, str_eq, to_lowercase,
};

verus! {

/// An installed version and the bucket it came from, if known.
#[derive(Debug)]
pub struct Record {
    pub bucket: Option<String>,
    pub version: String,
}

/// A record as plain values.
pub type RecordView = (Option<Seq<char>>, Seq<char>);

impl View for Record {
    type V = RecordView;

    open spec fn view(&self) -> RecordView {
        (
            match self.bucket {
                Some(b) => Some(b@),
                None => None,
            },
            self.version@,
        )
    }
}

/// The records of a list of (package, record) entries; a later entry for a
/// package replaces an earlier one.
pub open spec fn table(v: Seq<(String, Record)>) -> Map<Seq<char>, RecordView>
    decreases v.len(),
{
    if v.len() == 0 {
        Map::empty()
    } else {
        table(v.drop_last()).insert(v.last().0@, v.last().1@)
    }
}

/// The installed packages: local records and global records by lowercase name.
pub struct Installed {
    local: Vec<(String, Record)>,
    global: Vec<(String, Record)>,
}

/// Installed packages as plain values: local records, global records.
pub type InstalledView = (Map<Seq<char>, RecordView>, Map<Seq<char>, RecordView>);

/// The tag of a record in a label: the scope, whether the source is unknown,
/// and the version.
pub open spec fn tag(record: RecordView, scope: Seq<char>) -> Seq<char> {
    " ["@ + scope + (if record.0 is None {
        " (source unknown)"@
    } else {
        Seq::empty()
    }) + ": "@ + record.1 + "]"@
}

/// A record is shown beside packages of `bucket`: it comes from that bucket
/// (compared without regard to ASCII case), or from an unknown one.
pub open spec fn shown_for(record: RecordView, bucket: Seq<char>) -> bool {
    record.0 is None || eq_ignore_ascii_case(record.0->0, bucket)
}

/// The part of a label for one scope: the tag of the package's record there,
/// where it has one shown for `bucket`.
pub open spec fn scope_label(
    records: Map<Seq<char>, RecordView>,
    name: Seq<char>,
    bucket: Seq<char>,
    scope: Seq<char>,
) -> Seq<char> {
    if records.contains_key(name) && shown_for(records[name], bucket) {
        tag(records[name], scope)
    } else {
        Seq::empty()
    }
}

/// The label of package `name` of `bucket`: its local, then its global installation.
pub open spec fn label_of(v: InstalledView, bucket: Seq<char>, name: Seq<char>) -> Seq<char> {
    let n = spec_to_lowercase(name);
    scope_label(v.0, n, bucket, "installed"@) + scope_label(v.1, n, bucket, "installed globally"@)
}

/// What is recorded is shown: once an installation in directory `dir` is
/// recorded locally, the label of a package whose lowercase name is that of
/// `dir` begins with the record's tag where the record is shown for the bucket,
/// and shows no local record where it is not; the global part is unchanged.
pub proof fn lemma_label_shows_local(
    v: InstalledView,
    dir: Seq<char>,
    record: RecordView,
    bucket: Seq<char>,
    name: Seq<char>,
)
    requires
        spec_to_lowercase(name) == spec_to_lowercase(dir),
    ensures
        label_of((v.0.insert(spec_to_lowercase(dir), record), v.1), bucket, name) == (if shown_for(
            record,
            bucket,
        ) {
            tag(record, "installed"@)
        } else {
            Seq::empty()
        }) + scope_label(v.1, spec_to_lowercase(name), bucket, "installed globally"@),
{
}

/// The same for a global installation: the local part is unchanged and the
/// global part is the record's tag where it is shown for the bucket.
pub proof fn lemma_label_shows_global(
    v: InstalledView,
    dir: Seq<char>,
    record: RecordView,
    bucket: Seq<char>,
    name: Seq<char>,
)
    requires
        spec_to_lowercase(name) == spec_to_lowercase(dir),
    ensures
        label_of((v.0, v.1.insert(spec_to_lowercase(dir), record)), bucket, name) == scope_label(
            v.0,
            spec_to_lowercase(name),
            bucket,
            "installed"@,
        ) + (if shown_for(record, bucket) {
            tag(record, "installed globally"@)
        } else {
            Seq::empty()
        }),
{
    let x: Seq<char> = Seq::empty();
    assert(scope_label(v.0, spec_to_lowercase(name), bucket, "installed"@) + x =~= scope_label(
        v.0,
        spec_to_lowercase(name),
        bucket,
        "installed"@,
    ));
}

/// The label of a package installed only locally, from a bucket it is shown
/// for: ` [installed: <version>]`, with ` (source unknown)` after `installed`
/// where the record names no bucket.
pub proof fn lemma_local_label_text(
    v: InstalledView,
    dir: Seq<char>,
    record: RecordView,
    bucket: Seq<char>,
    name: Seq<char>,
)
    requires
        spec_to_lowercase(name) == spec_to_lowercase(dir),
        !v.1.contains_key(spec_to_lowercase(name)),
        shown_for(record, bucket),
    ensures
        label_of((v.0.insert(spec_to_lowercase(dir), record), v.1), bucket, name) == " [installed"@ + (
        if record.0 is None {
            " (source unknown)"@
        } else {
            Seq::empty()
        }) + ": "@ + record.1 + "]"@,
{
    reveal_strlit("installed");
    reveal_strlit(" [installed");
    reveal_strlit(" [");
    let x = " [installed"@ + (if record.0 is None {
        " (source unknown)"@
    } else {
        Seq::empty()
    }) + ": "@ + record.1 + "]"@;
    assert(" [installed"@ =~= " ["@ + "installed"@);
    assert(tag(record, "installed"@) =~= x);
    assert(x + Seq::<char>::empty() =~= x);
}

/// The label of a package installed only globally, from a bucket it is shown
/// for: ` [installed globally: <version>]`, with ` (source unknown)` after
/// `installed globally` where the record names no bucket.
pub proof fn lemma_global_label_text(
    v: InstalledView,
    dir: Seq<char>,
    record: RecordView,
    bucket: Seq<char>,
    name: Seq<char>,
)
    requires
        spec_to_lowercase(name) == spec_to_lowercase(dir),
        !v.0.contains_key(spec_to_lowercase(name)),
        shown_for(record, bucket),
    ensures
        label_of((v.0, v.1.insert(spec_to_lowercase(dir), record)), bucket, name) == " [installed globally"@
            + (if record.0 is None {
            " (source unknown)"@
        } else {
            Seq::empty()
        }) + ": "@ + record.1 + "]"@,
{
    reveal_strlit("installed globally");
    reveal_strlit(" [installed globally");
    reveal_strlit(" [");
    let x = " [installed globally"@ + (if record.0 is None {
        " (source unknown)"@
    } else {
        Seq::empty()
    }) + ": "@ + record.1 + "]"@;
    assert(" [installed globally"@ =~= " ["@ + "installed globally"@);
    assert(tag(record, "installed globally"@) =~= x);
    assert(Seq::<char>::empty() + x =~= x);
}

/// A record from another bucket (compared without regard to ASCII case) is
/// not shown: where it is the package's only record, the label is empty.
pub proof fn lemma_other_bucket_hidden(
    v: InstalledView,
    dir: Seq<char>,
    record: RecordView,
    bucket: Seq<char>,
    name: Seq<char>,
    global: bool,
)
    requires
        spec_to_lowercase(name) == spec_to_lowercase(dir),
        !v.0.contains_key(spec_to_lowercase(name)),
        !v.1.contains_key(spec_to_lowercase(name)),
        record.0 matches Some(b) && !eq_ignore_ascii_case(b, bucket),
    ensures
        label_of(
            if global {
                (v.0, v.1.insert(spec_to_lowercase(dir), record))
            } else {
                (v.0.insert(spec_to_lowercase(dir), record), v.1)
            },
            bucket,
            name,
        ) == Seq::<char>::empty(),
{
    assert(Seq::<char>::empty() + Seq::<char>::empty() =~= Seq::<char>::empty());
}

/// A directory of an installed package that may hold a version: not `current`,
/// and not a backup (`_<version>.old`).
pub open spec fn is_version_dir(name: Seq<char>) -> bool {
    name != "current"@ && !(name.len() > 0 && name[0] == '_' && seq_contains(name, ".old"@))
}

/// `a` is newer than `b`: a later time, or the same time and a later name.
pub open spec fn newer(a: (u128, Seq<char>), b: (u128, Seq<char>)) -> bool {
    a.0 > b.0 || (a.0 == b.0 && lex_lt(b.1, a.1))
}

/// `c[k]` is the newest candidate: none is newer, and it is newer than those
/// after it (so it is the last of the newest where several tie).
pub open spec fn is_newest(c: Seq<(u128, Seq<char>)>, k: int) -> bool {
    &&& 0 <= k < c.len()
    &&& forall|j: int| 0 <= j < c.len() ==> !newer(#[trigger] c[j], c[k])
    &&& forall|j: int| k < j < c.len() ==> newer(c[k], #[trigger] c[j])
}

/// Where the record of an installed package comes from.
#[derive(Debug)]
pub enum Found {
    /// The record read from `current`.
    Current(Record),
    /// The version directory of this index among the candidates is to be read.
    Version(usize),
    /// No record.
    Nothing,
}

/// The views of (time, name) candidates.
pub open spec fn candidate_views(v: Seq<(u128, String)>) -> Seq<(u128, Seq<char>)> {
    v.map_values(|c: (u128, String)| (c.0, c.1@))
}

/// The record of an installation: `info` (install.json) must be an object and
/// `manifest` must have a non-empty string version; the bucket is the
/// non-empty string `bucket` of `info`, lowercased.
pub open spec fn record_of(info: Json, manifest: Json) -> Option<RecordView> {
    if !(info is Object) {
        None
    } else {
        match manifest.field("version"@) {
            Some(Json::Str(v)) => if v@.len() == 0 {
                None
            } else {
                Some(
                    (
                        match info.field("bucket"@) {
                            Some(Json::Str(b)) => if b@.len() > 0 {
                                Some(spec_to_lowercase(b@))
                            } else {
                                None
                            },
                            _ => None,
                        },
                        v@,
                    ),
                )
            },
            _ => None,
        }
    }
}

proof fn lemma_table_suffix(v: Seq<(String, Record)>, i: int, k: Seq<char>)
    requires
        0 <= i <= v.len(),
        forall|j: int| i <= j < v.len() ==> (#[trigger] v[j]).0@ != k,
    ensures
        table(v).contains_key(k) == table(v.take(i)).contains_key(k),
        table(v).contains_key(k) ==> table(v)[k] == table(v.take(i))[k],
    decreases v.len(),
{
    if v.len() > i {
        let d = v.drop_last();
        assert forall|j: int| i <= j < d.len() implies (#[trigger] d[j]).0@ != k by {
            assert(d[j] == v[j]);
        }
        lemma_table_suffix(d, i, k);
        assert(d.take(i) =~= v.take(i));
    } else {
        assert(v.take(i) =~= v);
    }
}

fn find_record<'a>(v: &'a Vec<(String, Record)>, key: &str) -> (r: Option<&'a Record>)
    ensures
        match r {
            Some(rec) => table(v@).contains_key(key@) && table(v@)[key@] == rec@,
            None => !table(v@).contains_key(key@),
        },
{
    let mut i = v.len();
    while i > 0
        invariant
            i <= v.len(),
            forall|j: int| i <= j < v.len() ==> (#[trigger] v@[j]).0@ != key@,
        decreases i,
    {
        if str_eq(v[i - 1].0.as_str(), key) {
            proof {
                lemma_table_suffix(v@, i as int, key@);
                let t = v@.take(i as int);
                assert(t.drop_last() =~= v@.take(i - 1));
                assert(t.last() == v@[i - 1]);
            }
            return Some(&v[i - 1].1);
        }
        i -= 1;
    }
    proof {
        lemma_table_suffix(v@, 0, key@);
        assert(v@.take(0) =~= Seq::<(String, Record)>::empty());
    }
    None
}

impl Installed {
    /// The records, local and global.
    pub closed spec fn view(&self) -> InstalledView {
        (table(self.local@), table(self.global@))
    }

    /// Nothing installed.
    pub fn new() -> (r: Installed)
        ensures
            r.view() == (Map::<Seq<char>, RecordView>::empty(), Map::<Seq<char>, RecordView>::empty()),
    {
        Installed { local: Vec::new(), global: Vec::new() }
    }

    /// Records the installation in directory `dir_name`, locally or globally,
    /// under its lowercase name; it replaces a record of the same name.
    pub fn insert(&mut self, global: bool, dir_name: &str, record: Record)
        ensures
            final(self).view() == if global {
                (old(self).view().0, old(self).view().1.insert(spec_to_lowercase(dir_name@), record@))
            } else {
                (old(self).view().0.insert(spec_to_lowercase(dir_name@), record@), old(self).view().1)
            },
    {
        let name = to_lowercase(dir_name);
        if global {
            let ghost before = self.global@;
            self.global.push((name, record));
            assert(self.global@.drop_last() =~= before);
        } else {
            let ghost before = self.local@;
            self.local.push((name, record));
            assert(self.local@.drop_last() =~= before);
        }
    }

    fn scope_part(records: &Vec<(String, Record)>, name: &str, bucket: &str, scope: &str, out: &mut String)
        ensures
            final(out)@ == old(out)@ + scope_label(table(records@), name@, bucket@, scope@),
    {
        match find_record(records, name) {
            Some(record) => {
                let from_bucket = match &record.bucket {
                    Some(source) => eq_ignore_case(source.as_str(), bucket),
                    None => true,
                };
                if !from_bucket {
                    assert(old(out)@ + Seq::<char>::empty() =~= old(out)@);
                    return ;
                }
                let ghost start = out@;
                out.append(" [");
                out.append(scope);
                if record.bucket.is_none() {
                    out.append(" (source unknown)");
                } else {
                    assert(out@ + Seq::<char>::empty() =~= out@);
                }
                out.append(": ");
                out.append(record.version.as_str());
                out.append("]");
                proof {
                    let t = table(records@);
                    assert(t[name@] == record@);
                    assert(out@ =~= start + scope_label(t, name@, bucket@, scope@));
                }
            },
            None => {
                assert(old(out)@ + Seq::<char>::empty() =~= old(out)@);
            },
        }
    }

    /// The label shown beside package `name` of `bucket`: ` [installed: v]`
    /// and ` [installed globally: v]` for each record from that bucket, or from
    /// an unknown one (then marked `(source unknown)`).
    pub fn label(&self, bucket: &str, name: &str) -> (r: String)
        ensures
            r@ == label_of(self.view(), bucket@, name@),
    {
        let lower = to_lowercase(name);
        let mut result = String::new();
        Self::scope_part(&self.local, lower.as_str(), bucket, "installed", &mut result);
        Self::scope_part(&self.global, lower.as_str(), bucket, "installed globally", &mut result);
        assert(result@ =~= label_of(self.view(), bucket@, name@));
        result
    }

    /// The record of an installation from its install information (`info`) and
    /// its copy of the package manifest (`manifest`).
    pub fn read_record(info: &Json, manifest: &Json) -> (r: Option<Record>)
        ensures
            match r {
                Some(rec) => record_of(*info, *manifest) == Some(rec@),
                None => record_of(*info, *manifest) is None,
            },
    {
        match info {
            Json::Object(_) => {},
            _ => return None,
        }
        let version = match manifest.get("version") {
            Some(Json::Str(v)) => v,
            _ => return None,
        };
        if chars_of(version.as_str()).len() == 0 {
            return None;
        }
        let bucket = match info.get("bucket") {
            Some(Json::Str(b)) => if chars_of(b.as_str()).len() > 0 {
                Some(to_lowercase(b.as_str()))
            } else {
                None
            },
            _ => None,
        };
        Some(Record { bucket, version: version.clone() })
    }

    /// The record of an installation from the texts of its install information
    /// and its manifest copy, each read without leading byte order marks; none
    /// where either is not JSON (for `serde_json`).
    pub fn read_record_text(info: &str, manifest: &str) -> (r: Option<Record>)
        ensures
            match (spec_parse_json(without_boms(info@)), spec_parse_json(without_boms(manifest@))) {
                (Some(i), Some(m)) => match r {
                    Some(rec) => record_of(i, m) == Some(rec@),
                    None => record_of(i, m) is None,
                },
                _ => r is None,
            },
    {
        let i = match parse_json_file(info) {
            Some(i) => i,
            None => return None,
        };
        match parse_json_file(manifest) {
            Some(m) => Self::read_record(&i, &m),
            None => None,
        }
    }

    /// Scoop's configuration from its text, read without leading byte order
    /// marks; `Null` where the text is not JSON (for `serde_json`).
    pub fn config_from_text(text: &str) -> (r: Json)
        ensures
            r == match spec_parse_json(without_boms(text@)) {
                Some(d) => d,
                None => Json::Null,
            },
    {
        match parse_json_file(text) {
            Some(d) => d,
            None => Json::Null,
        }
    }

    /// Whether the directory `name` of an installed package may hold a version.
    pub fn is_version_dir(name: &str) -> (r: bool)
        ensures
            r == is_version_dir(name@),
    {
        if str_eq(name, "current") {
            return false;
        }
        let h = chars_of(name);
        !(h.len() > 0 && h[0] == '_' && contains(name, ".old"))
    }

    /// The newest of the candidate versions (time of `install.json`, directory
    /// name): the last of the newest where several tie.
    pub fn newest(candidates: &Vec<(u128, String)>) -> (r: Option<usize>)
        ensures
            match r {
                Some(k) => is_newest(candidate_views(candidates@), k as int),
                None => candidates@.len() == 0,
            },
    {
        if candidates.len() == 0 {
            return None;
        }
        let ghost c = candidate_views(candidates@);
        let mut best: usize = 0;
        let mut j: usize = 1;
        proof {
            crate::text::lemma_lex_irreflexive(c[0].1);
        }
        while j < candidates.len()
            invariant
                c == candidate_views(candidates@),
                best < j <= candidates.len(),
                forall|m: int| 0 <= m < j ==> !newer(#[trigger] c[m], c[best as int]),
                forall|m: int| best < m < j ==> newer(c[best as int], #[trigger] c[m]),
            decreases candidates.len() - j,
        {
            let a = &candidates[best];
            let b = &candidates[j];
            let b_older = a.0 > b.0 || (a.0 == b.0 && lex_less(b.1.as_str(), a.1.as_str()));
            proof {
                assert(c[best as int] == (a.0, a.1@));
                assert(c[j as int] == (b.0, b.1@));
                crate::text::lemma_lex_total(a.1@, b.1@);
            }
            if !b_older {
                proof {
                    assert forall|m: int| 0 <= m < j + 1 implies !newer(#[trigger] c[m], c[j as int]) by {
                        if m < j {
                            assert(!newer(c[m], c[best as int]));
                            if c[m].0 == c[best as int].0 && c[best as int].0 == c[j as int].0 {
                                if lex_lt(c[j as int].1, c[m].1) {
                                    if c[best as int].1 != c[j as int].1 {
                                        crate::text::lemma_lex_transitive(
                                            c[best as int].1,
                                            c[j as int].1,
                                            c[m].1,
                                        );
                                    }
                                }
                            }
                        } else {
                            crate::text::lemma_lex_irreflexive(c[j as int].1);
                        }
                    }
                }
                best = j;
            }
            j += 1;
        }
        Some(best)
    }

    /// Where the configuration read for installations is: `scoop/config.json`
    /// under the configuration directory where that is given (not empty), else
    /// under `.config` in the home directory whenever that is set, even empty;
    /// else nowhere.
    pub fn config_file(config_home: Option<String>, home: Option<String>, sep: char) -> (r: Option<
        String,
    >)
        ensures
            given(config_home) ==> (r matches Some(f) && f@ == joined(
                config_home->0@,
                "scoop/config.json"@,
                sep,
            )),
            !given(config_home) && home is Some ==> (r matches Some(f) && f@ == joined(
                joined(home->0@, ".config"@, sep),
                "scoop/config.json"@,
                sep,
            )),
            !given(config_home) && home is None ==> r is None,
    {
        let dir = match config_home {
            Some(d) => if chars_of(d.as_str()).len() > 0 {
                d
            } else {
                match home {
                    Some(h) => join_path(h.as_str(), ".config", sep),
                    None => return None,
                }
            },
            None => match home {
                Some(h) => join_path(h.as_str(), ".config", sep),
                None => return None,
            },
        };
        Some(join_path(dir.as_str(), "scoop/config.json", sep))
    }

    /// The root of global installations: the explicit directory where one is
    /// given (not empty), else the configured `global_path` where it is a
    /// non-empty string, else `scoop` under the program data directory where
    /// that is given; else none.
    pub fn global_root(explicit: Option<String>, config: &Json, program_data: Option<String>, sep: char) -> (r:
        Option<String>)
        ensures
            given(explicit) ==> (r matches Some(g) && g@ == explicit->0@),
            !given(explicit) ==> match path_of(*config, "global_path"@) {
                Some(p) => (r matches Some(g) && g@ == p),
                None => if given(program_data) {
                    (r matches Some(g) && g@ == joined(program_data->0@, "scoop"@, sep))
                } else {
                    r is None
                },
            },
    {
        if let Some(e) = explicit {
            if chars_of(e.as_str()).len() > 0 {
                return Some(e);
            }
        }
        match path_at(config, "global_path") {
            Some(p) => Some(p),
            None => match program_data {
                Some(d) => if chars_of(d.as_str()).len() > 0 {
                    Some(join_path(d.as_str(), "scoop", sep))
                } else {
                    None
                },
                None => None,
            },
        }
    }

    /// Which record describes an installed package: the one read from `current`
    /// (`current`, read only when junctions are enabled) where there is one,
    /// else the newest version directory among `candidates`, else none.
    pub fn pick(no_junction: bool, current: Option<Record>, candidates: &Vec<(u128, String)>) -> (r:
        Found)
        ensures
            !no_junction && current is Some ==> (r matches Found::Current(x) && x@ == current->0@),
            no_junction || current is None ==> match r {
                Found::Version(k) => is_newest(candidate_views(candidates@), k as int),
                Found::Nothing => candidates@.len() == 0,
                Found::Current(_) => false,
            },
    {
        if !no_junction {
            if let Some(x) = current {
                return Found::Current(x);
            }
        }
        match Self::newest(candidates) {
            Some(k) => Found::Version(k),
            None => Found::Nothing,
        }
    }

    /// Whether the configuration disables the `current` junctions
    /// (`no_junction` is `true`).
    pub fn no_junction(config: &Json) -> (r: bool)
        ensures
            r == (config.field("no_junction"@) == Some(Json::Bool(true))),
    {
        match config.get("no_junction") {
            Some(Json::Bool(b)) => *b,
            _ => false,
        }
    }
}

} // verus!
