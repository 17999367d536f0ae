//! Text primitives over the characters of a string: search, affixes,
//! path segments, ordering and case, each stated over `Seq<char>`.
use vstd::prelude::*;
use vstd::string::StringExecFns;

verus! {

// ----------------------------------------------------------------------
// Calls into std whose result is a named function of the argument.
// ----------------------------------------------------------------------

/// The characters of `str::to_lowercase` applied to a string with these characters.
pub uninterp spec fn spec_to_lowercase(s: Seq<char>) -> Seq<char>;

/// Whether `char::is_alphanumeric` holds of a character.
pub uninterp spec fn spec_is_alphanumeric(c: char) -> bool;

/// Calls `str::to_lowercase` (Unicode lowercase mapping). The contract claims that
/// the result is the same function of the input's characters on every call, and
/// that an ASCII string has its capital letters `A`-`Z` replaced by `a`-`z` and
/// nothing else changed; for other strings it says nothing more.
#[verifier::external_body]
pub(crate) fn to_lowercase(s: &str) -> (r: String)
    ensures
        r@ == spec_to_lowercase(s@),
        ascii_only(s@) ==> r@ == ascii_lower(s@),
{
    s.to_lowercase()
}

/// Calls `char::is_alphanumeric`. The contract claims only that the answer is a
/// function of the character.
#[verifier::external_body]
pub(crate) fn is_alphanumeric(c: char) -> (r: bool)
    ensures
        r == spec_is_alphanumeric(c),
{
    c.is_alphanumeric()
}

/// Calls `String::push`, which appends one character.
#[verifier::external_body]
pub(crate) fn push_char(s: &mut String, c: char)
    ensures
        final(s)@ == old(s)@.push(c),
{
    s.push(c)
}

// ----------------------------------------------------------------------
// Specifications
// ----------------------------------------------------------------------

/// Every character of `s` is ASCII.
pub open spec fn ascii_only(s: Seq<char>) -> bool {
    forall|i: int| 0 <= i < s.len() ==> (#[trigger] s[i] as u32) < 128
}

/// A character with an ASCII capital letter replaced by its small letter.
pub open spec fn ascii_lower_char(c: char) -> char {
    if is_ascii_upper(c) {
        ((c as u32) + 32) as char
    } else {
        c
    }
}

/// `s` with its ASCII capital letters replaced by small letters.
pub open spec fn ascii_lower(s: Seq<char>) -> Seq<char> {
    s.map_values(|c: char| ascii_lower_char(c))
}

/// `t` occurs in `s` starting at index `i`.
pub open spec fn occurs_at(s: Seq<char>, t: Seq<char>, i: int) -> bool {
    0 <= i && i + t.len() <= s.len() && s.subrange(i, i + t.len()) == t
}

/// `t` occurs somewhere in `s` (what `str::contains` answers).
pub open spec fn seq_contains(s: Seq<char>, t: Seq<char>) -> bool {
    exists|i: int| occurs_at(s, t, i)
}

/// The separators of a path segment: `/`, and `\` too when `backslash` holds.
pub open spec fn is_sep(c: char, backslash: bool) -> bool {
    c == '/' || (backslash && c == '\\')
}

/// What follows the last separator of `s` (all of `s` if it has none):
/// the first item of `rsplit` over the separators.
pub open spec fn last_segment(s: Seq<char>, backslash: bool) -> Seq<char>
    decreases s.len(),
{
    if s.len() == 0 {
        s
    } else if is_sep(s.last(), backslash) {
        Seq::empty()
    } else {
        last_segment(s.drop_last(), backslash).push(s.last())
    }
}

/// Strict lexicographic order on characters, as `str` orders its values.
pub open spec fn lex_lt(a: Seq<char>, b: Seq<char>) -> bool
    decreases a.len(),
{
    if a.len() == 0 {
        b.len() > 0
    } else if b.len() == 0 {
        false
    } else if a[0] != b[0] {
        (a[0] as int) < (b[0] as int)
    } else {
        lex_lt(a.drop_first(), b.drop_first())
    }
}

/// The characters that normalisation drops.
pub open spec fn is_filler(c: char) -> bool {
    c == '-' || c == '_' || c == ' '
}

/// `s` without `-`, `_` and spaces.
pub open spec fn normalized(s: Seq<char>) -> Seq<char> {
    s.filter(|c: char| !is_filler(c))
}

/// An ASCII capital letter.
pub open spec fn is_ascii_upper(c: char) -> bool {
    'A' <= c && c <= 'Z'
}

/// Two characters are equal once ASCII letters are folded to lower case.
pub open spec fn ascii_same(a: char, b: char) -> bool {
    a == b || (is_ascii_upper(a) && (a as u32) + 32 == (b as u32)) || (is_ascii_upper(b) && (b
        as u32) + 32 == (a as u32))
}

/// `str::eq_ignore_ascii_case` over characters.
pub open spec fn eq_ignore_ascii_case(a: Seq<char>, b: Seq<char>) -> bool {
    a.len() == b.len() && forall|i: int| 0 <= i < a.len() ==> ascii_same(#[trigger] a[i], b[i])
}

// ----------------------------------------------------------------------
// Laws of the order
// ----------------------------------------------------------------------

/// No sequence precedes itself.
pub proof fn lemma_lex_irreflexive(a: Seq<char>)
    ensures
        !lex_lt(a, a),
    decreases a.len(),
{
    if a.len() > 0 {
        lemma_lex_irreflexive(a.drop_first());
    }
}

/// The order is transitive.
pub proof fn lemma_lex_transitive(a: Seq<char>, b: Seq<char>, c: Seq<char>)
    requires
        lex_lt(a, b),
        lex_lt(b, c),
    ensures
        lex_lt(a, c),
    decreases a.len(),
{
    if a.len() > 0 && b.len() > 0 && c.len() > 0 {
        if a[0] == b[0] && b[0] == c[0] {
            lemma_lex_transitive(a.drop_first(), b.drop_first(), c.drop_first());
        }
    }
}

/// Two different sequences are ordered one way or the other, never both.
pub proof fn lemma_lex_total(a: Seq<char>, b: Seq<char>)
    ensures
        a != b ==> (lex_lt(a, b) || lex_lt(b, a)),
        !(lex_lt(a, b) && lex_lt(b, a)),
    decreases a.len(),
{
    if a.len() > 0 && b.len() > 0 {
        if a[0] == b[0] {
            lemma_lex_total(a.drop_first(), b.drop_first());
            if a.drop_first() == b.drop_first() {
                assert(a =~= seq![a[0]] + a.drop_first());
                assert(b =~= seq![b[0]] + b.drop_first());
            }
        } else {
        }
    } else if a.len() == 0 && b.len() == 0 {
        assert(a =~= b);
    }
}

/// Normalising twice is normalising once.
pub proof fn lemma_normalized_idempotent(s: Seq<char>)
    ensures
        normalized(normalized(s)) == normalized(s),
    decreases s.len(),
{
    let keep = |c: char| !is_filler(c);
    if s.len() == 0 {
        reveal_with_fuel(Seq::filter, 1);
        assert(normalized(s) =~= s);
    } else {
        let d = s.drop_last();
        lemma_normalized_idempotent(d);
        assert(s =~= d.push(s.last()));
        d.lemma_filter_push(s.last(), keep);
        if keep(s.last()) {
            d.filter(keep).lemma_filter_push(s.last(), keep);
        }
    }
}

proof fn lemma_lex_common_prefix(a: Seq<char>, b: Seq<char>, i: int)
    requires
        0 <= i <= a.len(),
        i <= b.len(),
        a.take(i) == b.take(i),
    ensures
        lex_lt(a, b) == lex_lt(a.skip(i), b.skip(i)),
    decreases i,
{
    if i > 0 {
        assert(a[0] == a.take(i)[0]);
        assert(b[0] == b.take(i)[0]);
        assert(a.drop_first().take(i - 1) =~= a.take(i).drop_first());
        assert(b.drop_first().take(i - 1) =~= b.take(i).drop_first());
        lemma_lex_common_prefix(a.drop_first(), b.drop_first(), i - 1);
        assert(a.drop_first().skip(i - 1) =~= a.skip(i));
        assert(b.drop_first().skip(i - 1) =~= b.skip(i));
    } else {
        assert(a.skip(0) =~= a);
        assert(b.skip(0) =~= b);
    }
}

proof fn lemma_last_segment_plain(s: Seq<char>, backslash: bool)
    ensures
        forall|j: int| 0 <= j < last_segment(s, backslash).len() ==> !is_sep(
            #[trigger] last_segment(s, backslash)[j],
            backslash,
        ),
    decreases s.len(),
{
    if s.len() > 0 && !is_sep(s.last(), backslash) {
        lemma_last_segment_plain(s.drop_last(), backslash);
        let r = last_segment(s.drop_last(), backslash);
        assert forall|j: int| 0 <= j < r.push(s.last()).len() implies !is_sep(#[trigger] r.push(s.last())[j], backslash) by {
            if j < r.len() {
                assert(r.push(s.last())[j] == r[j]);
            }
        }
    }
}

/// The last segment of a last segment is itself.
pub proof fn lemma_last_segment_idempotent(s: Seq<char>, backslash: bool)
    ensures
        last_segment(last_segment(s, backslash), backslash) == last_segment(s, backslash),
{
    let r = last_segment(s, backslash);
    lemma_last_segment_plain(s, backslash);
    lemma_last_segment_from(r, backslash, 0);
    assert(r.skip(0) =~= r);
}

proof fn lemma_last_segment_from(s: Seq<char>, backslash: bool, i: int)
    requires
        0 <= i <= s.len(),
        forall|j: int| i <= j < s.len() ==> !is_sep(#[trigger] s[j], backslash),
        i == 0 || is_sep(s[i - 1], backslash),
    ensures
        last_segment(s, backslash) == s.skip(i),
    decreases s.len(),
{
    if s.len() == 0 {
        assert(s.skip(i) =~= s);
    } else if i == s.len() {
        if i == 0 {
        } else {
            assert(s.skip(i) =~= Seq::<char>::empty());
        }
    } else {
        let d = s.drop_last();
        assert forall|j: int| i <= j < d.len() implies !is_sep(#[trigger] d[j], backslash) by {
            assert(d[j] == s[j]);
        }
        lemma_last_segment_from(d, backslash, i);
        assert(!is_sep(s.last(), backslash));
        assert(d.skip(i).push(s.last()) =~= s.skip(i));
    }
}

// ----------------------------------------------------------------------
// Executable functions
// ----------------------------------------------------------------------

/// The characters of `s`, in order.
pub fn chars_of(s: &str) -> (r: Vec<char>)
    ensures
        r@ == s@,
{
    let mut r: Vec<char> = Vec::new();
    for c in it: s.chars()
        invariant
            r@ == it.seq().take(it.index() as int),
            it.seq() == s@,
    {
        r.push(c);
    }
    r
}

/// The string of the characters `v[from..to]`.
pub fn string_of(v: &Vec<char>, from: usize, to: usize) -> (r: String)
    requires
        from <= to <= v.len(),
    ensures
        r@ == v@.subrange(from as int, to as int),
{
    let mut r = String::new();
    let mut i = from;
    while i < to
        invariant
            from <= i <= to <= v.len(),
            r@ == v@.subrange(from as int, i as int),
        decreases to - i,
    {
        push_char(&mut r, v[i]);
        i += 1;
        assert(r@ =~= v@.subrange(from as int, i as int));
    }
    r
}

/// A copy of `s`.
pub fn copy_str(s: &str) -> (r: String)
    ensures
        r@ == s@,
{
    let mut r = String::new();
    r.append(s);
    assert(r@ =~= s@);
    r
}

/// Character-wise equality of two strings.
pub fn str_eq(a: &str, b: &str) -> (r: bool)
    ensures
        r == (a@ == b@),
{
    let x = chars_of(a);
    let y = chars_of(b);
    if x.len() != y.len() {
        return false;
    }
    let mut i: usize = 0;
    while i < x.len()
        invariant
            x.len() == y.len(),
            x@ == a@,
            y@ == b@,
            i <= x.len(),
            forall|j: int| 0 <= j < i ==> x@[j] == y@[j],
        decreases x.len() - i,
    {
        if x[i] != y[i] {
            return false;
        }
        i += 1;
    }
    assert(x@ =~= y@);
    true
}

fn matches_at(h: &Vec<char>, n: &Vec<char>, i: usize) -> (r: bool)
    requires
        i + n.len() <= h.len(),
    ensures
        r == occurs_at(h@, n@, i as int),
{
    let mut k: usize = 0;
    while k < n.len()
        invariant
            i + n.len() <= h.len(),
            k <= n.len(),
            forall|j: int| 0 <= j < k ==> h@[i + j] == n@[j],
        decreases n.len() - k,
    {
        if h[i + k] != n[k] {
            assert(h@.subrange(i as int, i + n.len())[k as int] != n@[k as int]);
            return false;
        }
        k += 1;
    }
    assert(h@.subrange(i as int, i + n.len()) =~= n@);
    true
}

/// Whether `needle` occurs in `hay` (`str::contains`).
pub fn contains(hay: &str, needle: &str) -> (r: bool)
    ensures
        r == seq_contains(hay@, needle@),
{
    let h = chars_of(hay);
    let n = chars_of(needle);
    if n.len() > h.len() {
        return false;
    }
    let last = h.len() - n.len();
    let mut i: usize = 0;
    loop
        invariant
            n.len() <= h.len(),
            last == h.len() - n.len(),
            i <= last,
            h@ == hay@,
            n@ == needle@,
            forall|j: int| 0 <= j < i ==> !occurs_at(h@, n@, j),
        ensures
            forall|j: int| 0 <= j <= last ==> !occurs_at(h@, n@, j),
        decreases last - i,
    {
        if matches_at(&h, &n, i) {
            return true;
        }
        if i == last {
            break;
        }
        i += 1;
    }
    assert forall|j: int| !occurs_at(h@, n@, j) by {
        if j > last {
            assert(j + n@.len() > h@.len());
        }
    }
    false
}

/// Whether `s` begins with `p` (`str::starts_with`).
pub fn starts_with(s: &str, p: &str) -> (r: bool)
    ensures
        r == p@.is_prefix_of(s@),
{
    let h = chars_of(s);
    let n = chars_of(p);
    if n.len() > h.len() {
        return false;
    }
    let r = matches_at(&h, &n, 0);
    assert(r == occurs_at(h@, n@, 0));
    r
}

/// Whether `s` ends with `t` (`str::ends_with`).
pub fn ends_with(s: &str, t: &str) -> (r: bool)
    ensures
        r == t@.is_suffix_of(s@),
{
    let h = chars_of(s);
    let n = chars_of(t);
    if n.len() > h.len() {
        return false;
    }
    let r = matches_at(&h, &n, h.len() - n.len());
    r
}

/// `s` without the suffix `t`, if it ends with it (`str::strip_suffix`).
pub fn strip_suffix(s: &str, t: &str) -> (r: Option<String>)
    ensures
        match r {
            Some(x) => t@.is_suffix_of(s@) && x@ == s@.take(s@.len() - t@.len()),
            None => !t@.is_suffix_of(s@),
        },
{
    let h = chars_of(s);
    let n = chars_of(t);
    if n.len() > h.len() {
        return None;
    }
    if matches_at(&h, &n, h.len() - n.len()) {
        let x = string_of(&h, 0, h.len() - n.len());
        assert(x@ =~= s@.take(s@.len() - t@.len()));
        Some(x)
    } else {
        None
    }
}

/// What follows the last separator in `s`: the last path segment when
/// `backslash` holds (separators `/` and `\`), else what follows the last `/`.
pub fn last_segment_of(s: &str, backslash: bool) -> (r: String)
    ensures
        r@ == last_segment(s@, backslash),
{
    let h = chars_of(s);
    let mut i = h.len();
    while i > 0 && !(h[i - 1] == '/' || (backslash && h[i - 1] == '\\'))
        invariant
            i <= h.len(),
            forall|j: int| i <= j < h.len() ==> !is_sep(#[trigger] h@[j], backslash),
        decreases i,
    {
        i -= 1;
    }
    proof {
        lemma_last_segment_from(h@, backslash, i as int);
    }
    let r = string_of(&h, i, h.len());
    assert(r@ =~= h@.skip(i as int));
    r
}

/// Whether `a` precedes `b` in the lexicographic order of their characters.
pub fn lex_less(a: &str, b: &str) -> (r: bool)
    ensures
        r == lex_lt(a@, b@),
{
    let x = chars_of(a);
    let y = chars_of(b);
    let mut i: usize = 0;
    while i < x.len() && i < y.len() && x[i] == y[i]
        invariant
            i <= x.len(),
            i <= y.len(),
            x@.take(i as int) == y@.take(i as int),
        decreases x.len() - i,
    {
        assert(x@.take(i + 1) =~= x@.take(i as int).push(x@[i as int]));
        assert(y@.take(i + 1) =~= y@.take(i as int).push(y@[i as int]));
        i += 1;
    }
    proof {
        lemma_lex_common_prefix(x@, y@, i as int);
    }
    let ghost xs = x@.skip(i as int);
    let ghost ys = y@.skip(i as int);
    if i == x.len() {
        assert(xs.len() == 0);
        i < y.len()
    } else if i == y.len() {
        false
    } else {
        assert(xs[0] == x@[i as int]);
        assert(ys[0] == y@[i as int]);
        x[i] < y[i]
    }
}

/// `s` without `-`, `_` and spaces.
pub fn normalize(s: &str) -> (r: String)
    ensures
        r@ == normalized(s@),
{
    let h = chars_of(s);
    let mut r = String::new();
    let mut i: usize = 0;
    while i < h.len()
        invariant
            i <= h.len(),
            h@ == s@,
            r@ == normalized(h@.take(i as int)),
        decreases h.len() - i,
    {
        let c = h[i];
        proof {
            assert(h@.take(i + 1) =~= h@.take(i as int).push(c));
            h@.take(i as int).lemma_filter_push(c, |c: char| !is_filler(c));
        }
        if !(c == '-' || c == '_' || c == ' ') {
            push_char(&mut r, c);
        }
        i += 1;
    }
    assert(h@.take(h.len() as int) =~= h@);
    r
}

fn ascii_same_exec(a: char, b: char) -> (r: bool)
    ensures
        r == ascii_same(a, b),
{
    let x = a as u32;
    let y = b as u32;
    a == b || ('A' <= a && a <= 'Z' && x + 32 == y) || ('A' <= b && b <= 'Z' && y + 32 == x)
}

/// `str::eq_ignore_ascii_case`: equal once ASCII letters are folded to lower case.
pub fn eq_ignore_case(a: &str, b: &str) -> (r: bool)
    ensures
        r == eq_ignore_ascii_case(a@, b@),
{
    let x = chars_of(a);
    let y = chars_of(b);
    if x.len() != y.len() {
        return false;
    }
    let mut i: usize = 0;
    while i < x.len()
        invariant
            x.len() == y.len(),
            x@ == a@,
            y@ == b@,
            i <= x.len(),
            forall|j: int| 0 <= j < i ==> ascii_same(#[trigger] x@[j], y@[j]),
        decreases x.len() - i,
    {
        if !ascii_same_exec(x[i], y[i]) {
            return false;
        }
        i += 1;
    }
    true
}

/// Whether `s` holds the character `c`.
pub fn has_char(s: &str, c: char) -> (r: bool)
    ensures
        r == s@.contains(c),
{
    let h = chars_of(s);
    let mut i: usize = 0;
    while i < h.len()
        invariant
            h@ == s@,
            i <= h.len(),
            forall|j: int| 0 <= j < i ==> h@[j] != c,
        decreases h.len() - i,
    {
        if h[i] == c {
            assert(h@[i as int] == c);
            return true;
        }
        i += 1;
    }
    false
}

/// `s` without the prefix `p`, if it begins with it (`str::strip_prefix`).
pub fn strip_prefix(s: &str, p: &str) -> (r: Option<String>)
    ensures
        match r {
            Some(x) => p@.is_prefix_of(s@) && x@ == s@.skip(p@.len() as int),
            None => !p@.is_prefix_of(s@),
        },
{
    let h = chars_of(s);
    let n = chars_of(p);
    if n.len() > h.len() {
        return None;
    }
    if matches_at(&h, &n, 0) {
        let x = string_of(&h, n.len(), h.len());
        assert(x@ =~= s@.skip(p@.len() as int));
        Some(x)
    } else {
        None
    }
}

/// `s` without every trailing repetition of `t` (`str::trim_end_matches`).
pub open spec fn trim_end(s: Seq<char>, t: Seq<char>) -> Seq<char>
    decreases s.len(),
{
    if t.len() > 0 && t.is_suffix_of(s) {
        trim_end(s.take(s.len() - t.len()), t)
    } else {
        s
    }
}

/// `s` without every trailing repetition of `t`.
pub fn trim_end_matches(s: &str, t: &str) -> (r: String)
    ensures
        r@ == trim_end(s@, t@),
{
    let h = chars_of(s);
    let n = chars_of(t);
    let mut end = h.len();
    assert(h@.take(end as int) =~= h@);
    if n.len() == 0 {
        return string_of(&h, 0, end);
    }
    while end >= n.len() && matches_at(&h, &n, end - n.len())
        invariant
            end <= h.len(),
            n@ == t@,
            n.len() > 0,
            trim_end(h@, n@) == trim_end(h@.take(end as int), n@),
        decreases end,
    {
        proof {
            let c = h@.take(end as int);
            assert(c.subrange(c.len() - n.len(), c.len() as int) =~= h@.subrange(
                end - n.len(),
                end as int,
            ));
            assert(c.take(c.len() - n.len()) =~= h@.take(end - n.len()));
        }
        end -= n.len();
    }
    proof {
        let c = h@.take(end as int);
        if end >= n.len() {
            assert(c.subrange(c.len() - n.len(), c.len() as int) =~= h@.subrange(
                end - n.len(),
                end as int,
            ));
        }
    }
    let r = string_of(&h, 0, end);
    assert(r@ =~= h@.take(end as int));
    r
}

/// Being the character `c`.
pub open spec fn is_char(c: char) -> spec_fn(char) -> bool {
    |x: char| x == c
}

/// The number of times `c` occurs in `s`.
pub open spec fn count_char(s: Seq<char>, c: char) -> nat {
    s.filter(is_char(c)).len()
}

/// How many times `c` occurs in `s`.
pub fn count_of(s: &str, c: char) -> (r: usize)
    ensures
        r == count_char(s@, c),
{
    let h = chars_of(s);
    let mut k: usize = 0;
    let mut i: usize = 0;
    while i < h.len()
        invariant
            h@ == s@,
            i <= h.len(),
            k == count_char(h@.take(i as int), c),
            k <= i,
        decreases h.len() - i,
    {
        proof {
            assert(h@.take(i + 1) =~= h@.take(i as int).push(h@[i as int]));
            h@.take(i as int).lemma_filter_push(h@[i as int], is_char(c));
        }
        if h[i] == c {
            k += 1;
        }
        i += 1;
    }
    assert(h@.take(h.len() as int) =~= h@);
    k
}

/// Whether any character of `s` is alphanumeric.
pub fn any_alphanumeric(s: &str) -> (r: bool)
    ensures
        r == exists|i: int| 0 <= i < s@.len() && spec_is_alphanumeric(#[trigger] s@[i]),
{
    let h = chars_of(s);
    let mut i: usize = 0;
    while i < h.len()
        invariant
            h@ == s@,
            i <= h.len(),
            forall|j: int| 0 <= j < i ==> !spec_is_alphanumeric(#[trigger] h@[j]),
        decreases h.len() - i,
    {
        if is_alphanumeric(h[i]) {
            return true;
        }
        i += 1;
    }
    false
}

} // verus!
