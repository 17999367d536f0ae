//! Where Scoop lives: the precedence of the places that may name its root.
use vstd::prelude::*;
use vstd::string::StringExecFns;

use crate::json::{parse_json, spec_parse_json, Json};
use crate::text::{chars_of, copy_str, push_char};

verus! {

/// Scoop's root directory and the directory of its buckets.
#[derive(Debug)]
pub struct Scoop {
    pub dir: String,
    pub buckets_dir: String,
}

/// `base` is only a drive such as `C:`, where a backslash separates paths.
pub open spec fn drive_only(base: Seq<char>, sep: char) -> bool {
    &&& sep == '\\'
    &&& base.len() == 2
    &&& base[1] == ':'
    &&& (('a' <= base[0] && base[0] <= 'z') || ('A' <= base[0] && base[0] <= 'Z'))
}

/// `leaf` (a relative path) appended to `base`, with the separator `sep` between
/// them unless `base` is empty, already ends with `sep` or `/`, or is only a drive.
pub open spec fn joined(base: Seq<char>, leaf: Seq<char>, sep: char) -> Seq<char> {
    if base.len() == 0 {
        leaf
    } else if base.last() == sep || base.last() == '/' || drive_only(base, sep) {
        base + leaf
    } else {
        base.push(sep) + leaf
    }
}

/// A string that is present and not empty.
pub open spec fn given(s: Option<String>) -> bool {
    s matches Some(v) && v@.len() > 0
}

/// The message when no root can be found.
pub const NO_ROOT: &'static str = "Cannot locate Scoop: set SCOOP or USERPROFILE";

/// The value of `key` in `config` where it is a non-empty string.
pub open spec fn path_of(config: Json, key: Seq<char>) -> Option<Seq<char>> {
    match config.field(key) {
        Some(Json::Str(s)) => if s@.len() > 0 {
            Some(s@)
        } else {
            None
        },
        _ => None,
    }
}

/// The root named by a configuration: `root_path`, else the legacy `rootPath`.
pub open spec fn root_of(config: Json) -> Option<Seq<char>> {
    match path_of(config, "root_path"@) {
        Some(s) => Some(s),
        None => path_of(config, "rootPath"@),
    }
}

/// The non-empty string value of `key`.
pub(crate) fn path_at(config: &Json, key: &str) -> (r: Option<String>)
    ensures
        match r {
            Some(s) => path_of(*config, key@) == Some(s@),
            None => path_of(*config, key@) is None,
        },
{
    match config.get(key) {
        Some(Json::Str(v)) => if chars_of(v.as_str()).len() > 0 {
            Some(v.clone())
        } else {
            None
        },
        _ => None,
    }
}

/// Appends the relative path `leaf` to `base`, separated by `sep` unless `base`
/// is empty, already ends with a separator, or is only a drive.
pub fn join_path(base: &str, leaf: &str, sep: char) -> (r: String)
    ensures
        r@ == joined(base@, leaf@, sep),
{
    let b = chars_of(base);
    let mut r = copy_str(base);
    let drive = sep == '\\' && b.len() == 2 && b[1] == ':' && (('a' <= b[0] && b[0] <= 'z') || (
    'A' <= b[0] && b[0] <= 'Z'));
    if b.len() > 0 && b[b.len() - 1] != sep && b[b.len() - 1] != '/' && !drive {
        push_char(&mut r, sep);
    }
    r.append(leaf);
    r
}

/// Whether an optional string is present and not empty.
fn is_given(s: &Option<String>) -> (r: bool)
    ensures
        r == given(*s),
{
    match s {
        Some(v) => chars_of(v.as_str()).len() > 0,
        None => false,
    }
}

impl Scoop {
    /// The root named by Scoop's configuration: `root_path`, or else the legacy
    /// `rootPath`, where it is a non-empty string.
    pub fn configured_root(config: &Json) -> (r: Option<String>)
        ensures
            match r {
                Some(s) => root_of(*config) == Some(s@),
                None => root_of(*config) is None,
            },
    {
        match path_at(config, "root_path") {
            Some(s) => Some(s),
            None => path_at(config, "rootPath"),
        }
    }

    /// The root named by Scoop's configuration text (see `configured_root`);
    /// none where the text is not JSON (for `serde_json`).
    pub fn configured_root_text(text: &str) -> (r: Option<String>)
        ensures
            match r {
                Some(s) => spec_parse_json(text@) matches Some(d) && root_of(d) == Some(s@),
                None => match spec_parse_json(text@) {
                    Some(d) => root_of(d) is None,
                    None => true,
                },
            },
    {
        match parse_json(text) {
            Some(d) => Self::configured_root(&d),
            None => None,
        }
    }

    /// The directories of a Scoop installation rooted at `dir`: its buckets
    /// are in `buckets` under it.
    pub fn at(dir: String, sep: char) -> (r: Scoop)
        ensures
            r.dir@ == dir@,
            r.buckets_dir@ == joined(dir@, "buckets"@, sep),
    {
        let buckets_dir = join_path(dir.as_str(), "buckets", sep);
        Scoop { dir, buckets_dir }
    }

    /// Where Scoop's configuration file is: `scoop/config.json` under the
    /// configuration directory where that is given (not empty), else under
    /// `.config` in the home directory where that is given; else nowhere.
    pub fn config_file(config_home: Option<String>, home: Option<String>, sep: char) -> (r: Option<
        String,
    >)
        ensures
            given(config_home) ==> (r matches Some(f) && f@ == joined(
                joined(config_home->0@, "scoop"@, sep),
                "config.json"@,
                sep,
            )),
            !given(config_home) && given(home) ==> (r matches Some(f) && f@ == joined(
                joined(joined(home->0@, ".config"@, sep), "scoop"@, sep),
                "config.json"@,
                sep,
            )),
            !given(config_home) && !given(home) ==> r is None,
    {
        let dir = if is_given(&config_home) {
            match config_home {
                Some(d) => d,
                None => return None,
            }
        } else if is_given(&home) {
            match home {
                Some(h) => join_path(h.as_str(), ".config", sep),
                None => return None,
            }
        } else {
            return None;
        };
        let scoop = join_path(dir.as_str(), "scoop", sep);
        Some(join_path(scoop.as_str(), "config.json", sep))
    }

    /// Whether locating Scoop consults its configuration: only where no
    /// explicit root is given (see `resolve`).
    pub fn reads_config(scoop: &Option<String>) -> (r: bool)
        ensures
            r == !given(*scoop),
    {
        !is_given(scoop)
    }

    /// Locates Scoop: the explicit root where one is given (not empty), else the
    /// root named by the configuration, else `scoop` under the home directory
    /// where that is given; with none of them, `NO_ROOT`.
    pub fn resolve(scoop: Option<String>, home: Option<String>, configured: Option<String>, sep: char) -> (r:
        Result<Scoop, &'static str>)
        ensures
            given(scoop) ==> (r matches Ok(s) && s.dir@ == scoop->0@),
            !given(scoop) && configured is Some ==> (r matches Ok(s) && s.dir@ == configured->0@),
            !given(scoop) && configured is None && given(home) ==> (r matches Ok(s) && s.dir@
                == joined(home->0@, "scoop"@, sep)),
            !given(scoop) && configured is None && !given(home) ==> r == Err::<Scoop, &'static str>(
                NO_ROOT,
            ),
            (r matches Ok(s) ==> s.buckets_dir@ == joined(s.dir@, "buckets"@, sep)),
    {
        let dir = if is_given(&scoop) {
            match scoop {
                Some(d) => d,
                None => return Err(NO_ROOT),
            }
        } else {
            match configured {
                Some(c) => c,
                None => if is_given(&home) {
                    match home {
                        Some(h) => join_path(h.as_str(), "scoop", sep),
                        None => return Err(NO_ROOT),
                    }
                } else {
                    return Err(NO_ROOT);
                },
            }
        };
        Ok(Scoop::at(dir, sep))
    }
}

} // verus!
