//! Searching the manifests of Scoop buckets: packages by name and by the
//! executables they install, with ranked suggestions of similar names.
use vstd::prelude::*;

pub mod text;
pub mod json;
pub mod order;
pub mod fuzzy;
pub mod app;
pub mod bucket;
pub mod installed;
pub mod scoop;
pub mod report;

use crate::text::{
    ascii_lower, ascii_only, copy_str, spec_to_lowercase, starts_with, str_eq, to_lowercase,
};

verus! {

/// The command line, parsed.
#[derive(Debug)]
pub struct Args {
    /// The lowercase query; empty to list every package.
    pub query: String,
    /// Search package names only, not executables.
    pub exclude_bin: bool,
    /// Make no remote requests.
    pub local_only: bool,
    /// Show ranked similar names rather than literal matches.
    pub fuzzy: bool,
}

/// The state of argument parsing: (names only, local only, fuzzy, options
/// still recognised, query so far).
pub type ArgState = (bool, bool, bool, bool, Option<Seq<char>>);

/// Why the command line was refused.
pub enum ArgError {
    UnknownOption,
    SecondQuery,
}

/// The message for an unknown option.
pub const UNKNOWN_OPTION: &'static str = "Unknown option. Use --bin, --name-only, --local, --remote, --fuzzy, or -- before a literal query.";

/// The message for a second query.
pub const SECOND_QUERY: &'static str = "Expected at most one query.";

/// One argument applied to the state.
pub open spec fn arg_step(st: ArgState, a: Seq<char>) -> Result<ArgState, ArgError> {
    let (names_only, local_only, fuzzy, options, query) = st;
    if options && a == "--"@ {
        Ok((names_only, local_only, fuzzy, false, query))
    } else if options && a == "--bin"@ {
        Ok((false, local_only, fuzzy, options, query))
    } else if options && a == "--name-only"@ {
        Ok((true, local_only, fuzzy, options, query))
    } else if options && a == "--local"@ {
        Ok((names_only, true, fuzzy, options, query))
    } else if options && a == "--remote"@ {
        Ok((names_only, false, fuzzy, options, query))
    } else if options && a == "--fuzzy"@ {
        Ok((names_only, local_only, true, options, query))
    } else if options && "--"@.is_prefix_of(a) {
        Err(ArgError::UnknownOption)
    } else if query is Some {
        Err(ArgError::SecondQuery)
    } else {
        Ok((names_only, local_only, fuzzy, options, Some(a)))
    }
}

/// The arguments applied in order to the initial state: binaries searched,
/// local only, not fuzzy, options recognised, no query.
pub open spec fn arg_scan(args: Seq<Seq<char>>) -> Result<ArgState, ArgError>
    decreases args.len(),
{
    if args.len() == 0 {
        Ok((false, true, false, true, None))
    } else {
        match arg_scan(args.drop_last()) {
            Ok(st) => arg_step(st, args.last()),
            Err(e) => Err(e),
        }
    }
}

/// The query searched for: the given one unless it is `*`, else empty.
pub open spec fn effective_query(q: Option<Seq<char>>) -> Seq<char> {
    match q {
        Some(s) => if s == "*"@ {
            Seq::empty()
        } else {
            s
        },
        None => Seq::empty(),
    }
}

/// The arguments after the program name.
pub open spec fn words(args: Seq<String>) -> Seq<Seq<char>> {
    crate::json::views(args).skip(if args.len() > 0 { 1 } else { 0 })
}

/// The recognised options.
pub open spec fn is_option(o: Seq<char>) -> bool {
    o == "--"@ || o == "--bin"@ || o == "--name-only"@ || o == "--local"@ || o == "--remote"@ || o
        == "--fuzzy"@
}

/// By default executables are searched, only locally, literally.
pub proof fn lemma_defaults(q: Seq<char>)
    requires
        !"--"@.is_prefix_of(q),
    ensures
        arg_scan(seq![q]) == Ok::<ArgState, ArgError>((false, true, false, true, Some(q))),
{
    reveal_strlit("--");
    reveal_strlit("--bin");
    reveal_strlit("--name-only");
    reveal_strlit("--local");
    reveal_strlit("--remote");
    reveal_strlit("--fuzzy");
    lemma_not_option(q);
    let init: ArgState = (false, true, false, true, None);
    assert(seq![q].drop_last() =~= Seq::<Seq<char>>::empty());
    assert(arg_scan(Seq::<Seq<char>>::empty()) == Ok::<ArgState, ArgError>(init));
    assert(seq![q].last() == q);
    assert(arg_step(init, q) == Ok::<ArgState, ArgError>((false, true, false, true, Some(q))));
}

proof fn lemma_not_option(q: Seq<char>)
    requires
        !"--"@.is_prefix_of(q),
    ensures
        !is_option(q),
{
    reveal_strlit("--");
    reveal_strlit("--bin");
    reveal_strlit("--name-only");
    reveal_strlit("--local");
    reveal_strlit("--remote");
    reveal_strlit("--fuzzy");
    if is_option(q) {
        assert("--"@ =~= q.subrange(0, 2));
    }
}

/// Options may come before or after the query.
pub proof fn lemma_options_anywhere(o: Seq<char>, q: Seq<char>)
    requires
        is_option(o),
        !"--"@.is_prefix_of(q),
    ensures
        arg_scan(seq![o, q]) == arg_scan(seq![q, o]),
        arg_scan(seq![o, q]) is Ok,
{
    reveal_strlit("--");
    reveal_strlit("--bin");
    reveal_strlit("--name-only");
    reveal_strlit("--local");
    reveal_strlit("--remote");
    reveal_strlit("--fuzzy");
    lemma_not_option(q);
    let init: ArgState = (false, true, false, true, None);
    let e = Seq::<Seq<char>>::empty();
    assert(seq![o, q].drop_last() =~= seq![o]);
    assert(seq![q, o].drop_last() =~= seq![q]);
    assert(seq![o].drop_last() =~= e);
    assert(seq![q].drop_last() =~= e);
    assert(seq![o, q].last() == q);
    assert(seq![q, o].last() == o);
    assert(seq![o].last() == o);
    assert(seq![q].last() == q);
    assert(arg_scan(e) == Ok::<ArgState, ArgError>(init));
    let a = arg_step(init, o);
    assert(arg_scan(seq![o]) == a);
    assert(a is Ok);
    let b = arg_step(init, q);
    assert(arg_scan(seq![q]) == b);
    assert(b == Ok::<ArgState, ArgError>((false, true, false, true, Some(q))));
    assert(arg_scan(seq![o, q]) == arg_step(a->Ok_0, q));
    assert(arg_scan(seq![q, o]) == arg_step(b->Ok_0, o));
}

/// After `--`, a word is the query even if it looks like an option.
pub proof fn lemma_literal_after_separator(q: Seq<char>)
    ensures
        arg_scan(seq!["--"@, q]) == Ok::<ArgState, ArgError>((false, true, false, false, Some(q))),
{
    let init: ArgState = (false, true, false, true, None);
    let e = Seq::<Seq<char>>::empty();
    assert(seq!["--"@, q].drop_last() =~= seq!["--"@]);
    assert(seq!["--"@].drop_last() =~= e);
    assert(seq!["--"@, q].last() == q);
    assert(seq!["--"@].last() == "--"@);
    assert(arg_scan(e) == Ok::<ArgState, ArgError>(init));
    assert(arg_scan(seq!["--"@]) == Ok::<ArgState, ArgError>((false, true, false, false, None)));
}

proof fn lemma_scan_error_persists(w: Seq<Seq<char>>, i: int)
    requires
        0 <= i <= w.len(),
        arg_scan(w.take(i)) is Err,
    ensures
        arg_scan(w) == arg_scan(w.take(i)),
    decreases w.len(),
{
    if w.len() > i {
        let d = w.drop_last();
        assert(d.take(i) =~= w.take(i));
        lemma_scan_error_persists(d, i);
    } else {
        assert(w.take(i) =~= w);
    }
}

/// Parses the command line (the program name first). `--` ends the options;
/// `--bin` and `--name-only` choose whether executables are searched, the last
/// one winning, as do `--local` and `--remote`; `--fuzzy` asks for ranked
/// similar names. Any other word starting with `--` is refused while options
/// are recognised, and so is a second query. The query is lowercased, and `*`
/// stands for the empty query.
pub fn parse_args(args: Vec<String>) -> (r: Result<Args, &'static str>)
    ensures
        match r {
            Ok(a) => arg_scan(words(args@)) matches Ok(st) && {
                &&& a.exclude_bin == st.0
                &&& a.local_only == st.1
                &&& a.fuzzy == st.2
                &&& a.query@ == spec_to_lowercase(effective_query(st.4))
                &&& ascii_only(effective_query(st.4)) ==> a.query@ == ascii_lower(
                    effective_query(st.4),
                )
            },
            Err(e) => arg_scan(words(args@)) matches Err(k) && match k {
                ArgError::UnknownOption => e == UNKNOWN_OPTION,
                ArgError::SecondQuery => e == SECOND_QUERY,
            },
        },
{
    let ghost w = words(args@);
    let mut names_only = false;
    let mut local_only = true;
    let mut fuzzy = false;
    let mut options = true;
    let mut query: Option<String> = None;
    let mut i: usize = 1;
    assert(w.take(0) =~= Seq::<Seq<char>>::empty());
    if args.len() == 0 {
        assert(w =~= Seq::<Seq<char>>::empty());
    }
    while i < args.len()
        invariant
            1 <= i,
            w == words(args@),
            args.len() > 0 ==> i <= args.len(),
            args.len() == 0 ==> i == 1,
            args.len() > 0 ==> w.len() == args.len() - 1,
            arg_scan(w.take(i - 1)) == Ok::<ArgState, ArgError>(
                (
                    names_only,
                    local_only,
                    fuzzy,
                    options,
                    match query {
                        Some(q) => Some(q@),
                        None => None,
                    },
                ),
            ),
        decreases args.len() - i,
    {
        let a = args[i].as_str();
        proof {
            assert(w.take(i as int).drop_last() =~= w.take(i - 1));
            assert(w.take(i as int).last() == args@[i as int]@);
        }
        if options && str_eq(a, "--") {
            options = false;
        } else if options && str_eq(a, "--bin") {
            names_only = false;
        } else if options && str_eq(a, "--name-only") {
            names_only = true;
        } else if options && str_eq(a, "--local") {
            local_only = true;
        } else if options && str_eq(a, "--remote") {
            local_only = false;
        } else if options && str_eq(a, "--fuzzy") {
            fuzzy = true;
        } else if options && starts_with(a, "--") {
            proof {
                lemma_scan_error_persists(w, i as int);
            }
            return Err(UNKNOWN_OPTION);
        } else if query.is_some() {
            proof {
                lemma_scan_error_persists(w, i as int);
            }
            return Err(SECOND_QUERY);
        } else {
            query = Some(copy_str(a));
        }
        i += 1;
    }
    proof {
        if args.len() > 0 {
            assert(i == args.len());
            assert(w.take(i - 1) =~= w);
        } else {
            assert(w.take(0) =~= w);
        }
    }
    let ghost qv = match &query {
        Some(q) => Some(q@),
        None => None,
    };
    assert(arg_scan(w) == Ok::<ArgState, ArgError>((names_only, local_only, fuzzy, options, qv)));
    let text = match query {
        Some(q) => if str_eq(q.as_str(), "*") {
            String::new()
        } else {
            q
        },
        None => String::new(),
    };
    assert(text@ == effective_query(qv));
    Ok(Args { query: to_lowercase(text.as_str()), exclude_bin: names_only, local_only, fuzzy })
}

} // verus!
