//! Ordering of names: sets of names kept in strictly increasing order, and
//! the stable sort of named items.
use vstd::prelude::*;

use crate::json::views;
use crate::text::{lemma_lex_irreflexive, lemma_lex_total, lemma_lex_transitive, lex_less, lex_lt};

verus! {

/// Every name precedes the names after it: sorted, without repetition.
pub open spec fn strictly_sorted(s: Seq<Seq<char>>) -> bool {
    forall|i: int, j: int| 0 <= i < j < s.len() ==> lex_lt(#[trigger] s[i], #[trigger] s[j])
}

/// Inserts `x` into a strictly sorted vector of names unless it is there already.
pub fn insert_name(v: &mut Vec<String>, x: String)
    requires
        strictly_sorted(views(old(v)@)),
    ensures
        strictly_sorted(views(final(v)@)),
        views(final(v)@).to_set() == views(old(v)@).to_set().insert(x@),
{
    let ghost old_v = views(v@);
    let mut p: usize = 0;
    while p < v.len() && lex_less(v[p].as_str(), x.as_str())
        invariant
            p <= v.len(),
            views(v@) == old_v,
            forall|i: int| 0 <= i < p ==> lex_lt(#[trigger] views(v@)[i], x@),
        decreases v.len() - p,
    {
        p += 1;
    }
    if p < v.len() && crate::text::str_eq(v[p].as_str(), x.as_str()) {
        assert(views(v@)[p as int] == x@);
        assert(views(v@).to_set() =~= old_v.to_set().insert(x@));
        return ;
    }
    proof {
        if p < v.len() {
            lemma_lex_total(views(v@)[p as int], x@);
        }
    }
    v.insert(p, x);
    proof {
        let nv = views(v@);
        assert(nv =~= old_v.insert(p as int, x@));
        assert forall|i: int, j: int| 0 <= i < j < nv.len() implies lex_lt(
            #[trigger] nv[i],
            #[trigger] nv[j],
        ) by {
            if j < p {
            } else if j == p {
            } else if i < p {
                if j - 1 > p {
                    assert(lex_lt(old_v[p as int], old_v[j - 1]));
                    lemma_lex_transitive(x@, old_v[p as int], old_v[j - 1]);
                }
                lemma_lex_transitive(nv[i], x@, nv[j]);
            } else if i == p {
                if j - 1 > p {
                    assert(lex_lt(old_v[p as int], old_v[j - 1]));
                    lemma_lex_transitive(x@, old_v[p as int], old_v[j - 1]);
                }
            } else {
                assert(nv[i] == old_v[i - 1]);
                assert(nv[j] == old_v[j - 1]);
            }
        }
        assert forall|y: Seq<char>| nv.contains(y) <==> old_v.contains(y) || y == x@ by {
            if nv.contains(y) {
                let k = choose|k: int| 0 <= k < nv.len() && nv[k] == y;
                if k < p {
                    assert(old_v[k] == y);
                } else if k > p {
                    assert(old_v[k - 1] == y);
                }
            }
            if old_v.contains(y) {
                let k = choose|k: int| 0 <= k < old_v.len() && old_v[k] == y;
                if k < p {
                    assert(nv[k] == y);
                } else {
                    assert(nv[k + 1] == y);
                }
            }
            if y == x@ {
                assert(nv[p as int] == y);
            }
        }
        assert(nv.to_set() =~= old_v.to_set().insert(x@));
    }
}

/// Something with a name, by which it is sorted.
pub trait Keyed {
    spec fn key(&self) -> Seq<char>;
}

/// A value with a name that executable code can read.
pub trait Named: Keyed {
    fn name_str(&self) -> (r: &str)
        ensures
            r@ == self.key(),
    ;
}

/// Where `x` goes among `s`: before the first item whose name follows `k`.
pub open spec fn insert_at<T: Keyed>(s: Seq<T>, k: Seq<char>) -> int
    decreases s.len(),
{
    if s.len() == 0 {
        0
    } else if lex_lt(k, s[0].key()) {
        0
    } else {
        1 + insert_at(s.drop_first(), k)
    }
}

/// `s` in the order of names; items with equal names keep their order
/// (the result of a stable sort by name).
pub open spec fn sorted_by_name<T: Keyed>(s: Seq<T>) -> Seq<T>
    decreases s.len(),
{
    if s.len() == 0 {
        s
    } else {
        let r = sorted_by_name(s.drop_last());
        r.insert(insert_at(r, s.last().key()), s.last())
    }
}

/// No item's name follows the name of an item after it.
pub open spec fn in_name_order<T: Keyed>(s: Seq<T>) -> bool {
    forall|i: int, j: int| 0 <= i < j < s.len() ==> !lex_lt(#[trigger] s[j].key(), #[trigger] s[i].key())
}

/// Being named `k`.
pub open spec fn has_key<T: Keyed>(k: Seq<char>) -> spec_fn(T) -> bool {
    |x: T| x.key() == k
}

/// The items named `k`, in order.
pub open spec fn named<T: Keyed>(s: Seq<T>, k: Seq<char>) -> Seq<T> {
    s.filter(has_key(k))
}

proof fn lemma_insert_at_bounds<T: Keyed>(s: Seq<T>, k: Seq<char>)
    ensures
        0 <= insert_at(s, k) <= s.len(),
        forall|i: int| 0 <= i < insert_at(s, k) ==> !lex_lt(k, #[trigger] s[i].key()),
        insert_at(s, k) < s.len() ==> lex_lt(k, s[insert_at(s, k)].key()),
    decreases s.len(),
{
    if s.len() > 0 && !lex_lt(k, s[0].key()) {
        lemma_insert_at_bounds(s.drop_first(), k);
        assert forall|i: int| 0 <= i < insert_at(s, k) implies !lex_lt(k, #[trigger] s[i].key()) by {
            if i > 0 {
                assert(s[i] == s.drop_first()[i - 1]);
            }
        }
    }
}

proof fn lemma_insert_in_order<T: Keyed>(s: Seq<T>, x: T)
    requires
        in_name_order(s),
    ensures
        in_name_order(s.insert(insert_at(s, x.key()), x)),
        forall|i: int| insert_at(s, x.key()) <= i < s.len() ==> lex_lt(x.key(), #[trigger] s[i].key()),
{
    let p = insert_at(s, x.key());
    lemma_insert_at_bounds(s, x.key());
    assert forall|i: int| p <= i < s.len() implies lex_lt(x.key(), #[trigger] s[i].key()) by {
        if i > p {
            lemma_lex_total(s[p].key(), s[i].key());
            if s[p].key() != s[i].key() {
                lemma_lex_transitive(x.key(), s[p].key(), s[i].key());
            }
        }
    }
    let n = s.insert(p, x);
    s.insert_ensures(p, x);
    assert forall|i: int, j: int| 0 <= i < j < n.len() implies !lex_lt(
        #[trigger] n[j].key(),
        #[trigger] n[i].key(),
    ) by {
        if j < p {
        } else if j == p {
            lemma_lex_total(x.key(), n[i].key());
        } else if i < p {
            assert(n[j] == s[j - 1]);
            lemma_lex_total(n[j].key(), x.key());
            if lex_lt(n[j].key(), n[i].key()) {
                lemma_lex_total(x.key(), n[i].key());
                if x.key() == n[i].key() {
                } else {
                    lemma_lex_transitive(x.key(), n[j].key(), n[i].key());
                }
            }
        } else if i == p {
            assert(n[j] == s[j - 1]);
            lemma_lex_total(n[j].key(), x.key());
        } else {
            assert(n[i] == s[i - 1]);
            assert(n[j] == s[j - 1]);
        }
    }
}

proof fn lemma_insert_named<T: Keyed>(s: Seq<T>, x: T, k: Seq<char>)
    requires
        in_name_order(s),
    ensures
        named(s.insert(insert_at(s, x.key()), x), k) == if x.key() == k {
            named(s, k).push(x)
        } else {
            named(s, k)
        },
{
    let p = insert_at(s, x.key());
    lemma_insert_at_bounds(s, x.key());
    lemma_insert_in_order(s, x);
    let pred = has_key::<T>(k);
    let a = s.subrange(0, p);
    let b = s.subrange(p, s.len() as int);
    assert(s =~= a + b);
    assert(s.insert(p, x) =~= a.push(x) + b);
    Seq::filter_distributes_over_add(a, b, pred);
    Seq::filter_distributes_over_add(a.push(x), b, pred);
    a.lemma_filter_push(x, pred);
    if x.key() == k {
        assert forall|i: int| 0 <= i < b.len() implies !pred(#[trigger] b[i]) by {
            lemma_lex_irreflexive(k);
        }
        b.lemma_all_neg_filter_empty(pred);
        assert(b.filter(pred) =~= Seq::<T>::empty());
        assert(named(s, k) =~= a.filter(pred));
        assert(a.filter(pred).push(x) + b.filter(pred) =~= a.filter(pred).push(x));
    }
}

/// A stable sort by name orders the items by name and keeps, for each name,
/// the items of that name in their order.
pub proof fn lemma_sorted_by_name<T: Keyed>(s: Seq<T>)
    ensures
        in_name_order(sorted_by_name(s)),
        sorted_by_name(s).len() == s.len(),
        forall|k: Seq<char>| #[trigger] named(sorted_by_name(s), k) == named(s, k),
    decreases s.len(),
{
    if s.len() > 0 {
        let d = s.drop_last();
        lemma_sorted_by_name(d);
        let r = sorted_by_name(d);
        lemma_insert_in_order(r, s.last());
        lemma_insert_at_bounds(r, s.last().key());
        assert(s =~= d.push(s.last()));
        assert forall|k: Seq<char>| #[trigger] named(sorted_by_name(s), k) == named(s, k) by {
            lemma_insert_named(r, s.last(), k);
            d.lemma_filter_push(s.last(), has_key::<T>(k));
        }
    }
}

/// Every item of the sorted sequence is an item of the unsorted one.
pub proof fn lemma_sorted_by_name_contains<T: Keyed>(s: Seq<T>, i: int)
    requires
        0 <= i < sorted_by_name(s).len(),
    ensures
        s.contains(sorted_by_name(s)[i]),
    decreases s.len(),
{
    lemma_sorted_by_name(s);
    let d = s.drop_last();
    let r = sorted_by_name(d);
    lemma_sorted_by_name(d);
    let p = insert_at(r, s.last().key());
    lemma_insert_at_bounds(r, s.last().key());
    r.insert_ensures(p, s.last());
    if i == p {
        assert(s[s.len() - 1] == s.last());
    } else {
        let k = if i < p { i } else { i - 1 };
        assert(sorted_by_name(s)[i] == r[k]);
        lemma_sorted_by_name_contains(d, k);
        let m = choose|m: int| 0 <= m < d.len() && d[m] == r[k];
        assert(s[m] == d[m]);
    }
}

/// No two items share a name.
pub open spec fn distinct_keys<T: Keyed>(s: Seq<T>) -> bool {
    forall|i: int, j: int| 0 <= i < j < s.len() ==> #[trigger] s[i].key() != #[trigger] s[j].key()
}

proof fn lemma_named_two<T: Keyed>(s: Seq<T>, i: int, j: int)
    requires
        0 <= i < j < s.len(),
        s[i].key() == s[j].key(),
    ensures
        named(s, s[i].key()).len() >= 2,
    decreases s.len(),
{
    let k = s[i].key();
    let d = s.drop_last();
    assert(s =~= d.push(s.last()));
    d.lemma_filter_push(s.last(), has_key::<T>(k));
    if j < s.len() - 1 {
        assert(d[i] == s[i] && d[j] == s[j]);
        lemma_named_two(d, i, j);
        d.lemma_filter_len(has_key::<T>(k));
    } else {
        assert(d[i] == s[i]);
        d.lemma_filter_contains(has_key::<T>(k), i);
    }
}

proof fn lemma_named_at_most_one<T: Keyed>(s: Seq<T>, k: Seq<char>)
    requires
        distinct_keys(s),
    ensures
        named(s, k).len() <= 1,
    decreases s.len(),
{
    if s.len() > 0 {
        let d = s.drop_last();
        assert(s =~= d.push(s.last()));
        d.lemma_filter_push(s.last(), has_key::<T>(k));
        assert forall|i: int, j: int| 0 <= i < j < d.len() implies #[trigger] d[i].key() != #[trigger] d[j].key() by {
            assert(d[i] == s[i] && d[j] == s[j]);
        }
        lemma_named_at_most_one(d, k);
        if s.last().key() == k {
            assert forall|i: int| 0 <= i < d.len() implies !has_key::<T>(k)(#[trigger] d[i]) by {
                assert(d[i] == s[i]);
                assert(s[i].key() != s[s.len() - 1].key());
            }
            d.lemma_all_neg_filter_empty(has_key::<T>(k));
        }
    }
}

/// Sorting items with distinct names orders them strictly by name.
pub proof fn lemma_sorted_distinct<T: Keyed>(s: Seq<T>)
    requires
        distinct_keys(s),
    ensures
        forall|i: int, j: int|
            0 <= i < j < sorted_by_name(s).len() ==> lex_lt(
                #[trigger] sorted_by_name(s)[i].key(),
                #[trigger] sorted_by_name(s)[j].key(),
            ),
{
    let r = sorted_by_name(s);
    lemma_sorted_by_name(s);
    assert forall|i: int, j: int| 0 <= i < j < r.len() implies lex_lt(#[trigger] r[i].key(), #[trigger] r[j].key()) by {
        if r[i].key() == r[j].key() {
            lemma_named_two(r, i, j);
            lemma_named_at_most_one(s, r[i].key());
        }
        lemma_lex_total(r[i].key(), r[j].key());
    }
}

proof fn lemma_filter_in_order<T: Keyed>(s: Seq<T>, p: spec_fn(T) -> bool)
    requires
        in_name_order(s),
    ensures
        in_name_order(s.filter(p)),
    decreases s.len(),
{
    if s.len() == 0 {
        s.lemma_filter_len(p);
    } else {
        let d = s.drop_last();
        let x = s.last();
        assert(s =~= d.push(x));
        assert forall|i: int, j: int| 0 <= i < j < d.len() implies !lex_lt(#[trigger] d[j].key(), #[trigger] d[i].key()) by {
            assert(d[i] == s[i] && d[j] == s[j]);
        }
        lemma_filter_in_order(d, p);
        d.lemma_filter_push(x, p);
        if p(x) {
            let f = d.filter(p);
            let g = f.push(x);
            assert forall|i: int, j: int| 0 <= i < j < g.len() implies !lex_lt(#[trigger] g[j].key(), #[trigger] g[i].key()) by {
                if j == f.len() {
                    assert(g[i] == f[i]);
                    assert(f.contains(f[i]));
                    d.lemma_filter_contains_rev(p, f[i]);
                    let m = choose|m: int| 0 <= m < d.len() && d[m] == f[i];
                    assert(s[m] == d[m]);
                    assert(s[s.len() - 1] == x);
                } else {
                    assert(g[i] == f[i] && g[j] == f[j]);
                }
            }
        }
    }
}

proof fn lemma_named_filter<T: Keyed>(s: Seq<T>, p: spec_fn(T) -> bool, k: Seq<char>)
    ensures
        named(s.filter(p), k) == named(s, k).filter(p),
    decreases s.len(),
{
    reveal_with_fuel(Seq::filter, 1);
    if s.len() > 0 {
        let d = s.drop_last();
        let x = s.last();
        lemma_named_filter(d, p, k);
        assert(s =~= d.push(x));
        d.lemma_filter_push(x, p);
        d.lemma_filter_push(x, has_key::<T>(k));
        d.filter(p).lemma_filter_push(x, has_key::<T>(k));
        d.filter(has_key::<T>(k)).lemma_filter_push(x, p);
    }
}

proof fn lemma_named_empty<T: Keyed>(t: Seq<T>, k: Seq<char>)
    requires
        t.len() == 0,
    ensures
        named(t, k).len() == 0,
{
    t.lemma_filter_len(has_key::<T>(k));
}

proof fn lemma_key_present<T: Keyed>(t: Seq<T>, r: Seq<T>, i: int)
    requires
        0 <= i < t.len(),
        forall|k: Seq<char>| named(t, k) == named(r, k),
    ensures
        exists|m: int| 0 <= m < r.len() && #[trigger] r[m] == t[i],
{
    t.lemma_filter_contains(has_key::<T>(t[i].key()), i);
    assert(named(r, t[i].key()).contains(t[i]));
    r.lemma_filter_contains_rev(has_key::<T>(t[i].key()), t[i]);
}

proof fn lemma_stable_unique<T: Keyed>(t: Seq<T>, r: Seq<T>)
    requires
        in_name_order(t),
        in_name_order(r),
        forall|k: Seq<char>| named(t, k) == named(r, k),
    ensures
        t == r,
    decreases t.len() + r.len(),
{
    if t.len() == 0 || r.len() == 0 {
        if r.len() > 0 {
            lemma_key_present(r, t, 0);
        }
        if t.len() > 0 {
            lemma_key_present(t, r, 0);
        }
        assert(t =~= r);
    } else {
        let dt = t.drop_last();
        let dr = r.drop_last();
        let x = t.last();
        let y = r.last();
        lemma_key_present(t, r, t.len() - 1);
        lemma_key_present(r, t, r.len() - 1);
        let m = choose|m: int| 0 <= m < r.len() && #[trigger] r[m] == t[t.len() - 1];
        let n = choose|n: int| 0 <= n < t.len() && #[trigger] t[n] == r[r.len() - 1];
        if m < r.len() - 1 {
            assert(!lex_lt(r[r.len() - 1].key(), r[m].key()));
        }
        if n < t.len() - 1 {
            assert(!lex_lt(t[t.len() - 1].key(), t[n].key()));
        }
        lemma_lex_total(x.key(), y.key());
        let k0 = x.key();
        assert(t =~= dt.push(x));
        assert(r =~= dr.push(y));
        dt.lemma_filter_push(x, has_key::<T>(k0));
        dr.lemma_filter_push(y, has_key::<T>(k0));
        assert(named(t, k0).last() == x);
        assert(named(r, k0).last() == y);
        assert forall|k: Seq<char>| named(dt, k) == named(dr, k) by {
            dt.lemma_filter_push(x, has_key::<T>(k));
            dr.lemma_filter_push(y, has_key::<T>(k));
            if k == k0 {
                assert(named(dt, k) =~= named(t, k).drop_last());
                assert(named(dr, k) =~= named(r, k).drop_last());
            }
        }
        assert forall|i: int, j: int| 0 <= i < j < dt.len() implies !lex_lt(#[trigger] dt[j].key(), #[trigger] dt[i].key()) by {
            assert(dt[i] == t[i] && dt[j] == t[j]);
        }
        assert forall|i: int, j: int| 0 <= i < j < dr.len() implies !lex_lt(#[trigger] dr[j].key(), #[trigger] dr[i].key()) by {
            assert(dr[i] == r[i] && dr[j] == r[j]);
        }
        lemma_stable_unique(dt, dr);
    }
}

/// Sorting by name commutes with keeping the items that satisfy `p`.
pub proof fn lemma_sort_filter<T: Keyed>(s: Seq<T>, p: spec_fn(T) -> bool)
    ensures
        sorted_by_name(s.filter(p)) == sorted_by_name(s).filter(p),
{
    let r = sorted_by_name(s);
    lemma_sorted_by_name(s);
    lemma_sorted_by_name(s.filter(p));
    lemma_filter_in_order(r, p);
    assert forall|k: Seq<char>| named(r.filter(p), k) == named(sorted_by_name(s.filter(p)), k) by {
        lemma_named_filter(r, p, k);
        lemma_named_filter(s, p, k);
    }
    lemma_stable_unique(r.filter(p), sorted_by_name(s.filter(p)));
}

/// Inserts `x` after the items whose names do not follow its name.
pub fn insert_by_name<T: Named>(v: &mut Vec<T>, x: T)
    ensures
        final(v)@ == old(v)@.insert(insert_at(old(v)@, x.key()), x),
{
    let mut p: usize = 0;
    proof {
        lemma_insert_at_bounds(v@, x.key());
        assert(v@.skip(0) =~= v@);
    }
    while p < v.len() && !lex_less(x.name_str(), v[p].name_str())
        invariant
            p <= v.len(),
            v@ == old(v)@,
            insert_at(v@, x.key()) == p + insert_at(v@.skip(p as int), x.key()),
        decreases v.len() - p,
    {
        assert(v@.skip(p as int)[0] == v@[p as int]);
        assert(v@.skip(p as int).drop_first() =~= v@.skip(p + 1));
        p += 1;
    }
    proof {
        if p < v.len() {
            assert(v@.skip(p as int)[0] == v@[p as int]);
        }
    }
    v.insert(p, x);
}

/// The items of `v` sorted stably by name.
pub fn sort_by_name<T: Named>(v: Vec<T>) -> (r: Vec<T>)
    ensures
        r@ == sorted_by_name(v@),
{
    let mut r: Vec<T> = Vec::new();
    let ghost s = v@;
    for x in it: v
        invariant
            it.seq() == s,
            r@ == sorted_by_name(s.take(it.index() as int)),
    {
        proof {
            let i = it.index() as int;
            assert(s.take(i + 1).drop_last() =~= s.take(i));
            assert(s.take(i + 1).last() == x);
        }
        insert_by_name(&mut r, x);
    }
    assert(s.take(s.len() as int) =~= s);
    r
}

/// Sorting by name commutes with a map that keeps names.
pub proof fn lemma_sort_map<T: Keyed, U: Keyed>(s: Seq<T>, f: spec_fn(T) -> U)
    requires
        forall|x: T| #[trigger] f(x).key() == x.key(),
    ensures
        sorted_by_name(s).map_values(f) == sorted_by_name(s.map_values(f)),
    decreases s.len(),
{
    if s.len() > 0 {
        let d = s.drop_last();
        lemma_sort_map(d, f);
        assert(s.map_values(f).drop_last() =~= d.map_values(f));
        let r = sorted_by_name(d);
        let k = s.last().key();
        lemma_insert_at_map(r, f, k);
        let p = insert_at(r, k);
        lemma_insert_at_bounds(r, k);
        assert(r.insert(p, s.last()).map_values(f) =~= r.map_values(f).insert(p, f(s.last())));
    }
}

proof fn lemma_insert_at_map<T: Keyed, U: Keyed>(s: Seq<T>, f: spec_fn(T) -> U, k: Seq<char>)
    requires
        forall|x: T| #[trigger] f(x).key() == x.key(),
    ensures
        insert_at(s.map_values(f), k) == insert_at(s, k),
    decreases s.len(),
{
    if s.len() > 0 {
        assert(s.map_values(f).drop_first() =~= s.drop_first().map_values(f));
        assert(s.map_values(f)[0] == f(s[0]));
        lemma_insert_at_map(s.drop_first(), f, k);
    }
}

// ----------------------------------------------------------------------
// Strictly ordered listings of sets
// ----------------------------------------------------------------------

/// `lt` is a strict order: irreflexive and transitive.
pub open spec fn strict_order<A>(lt: spec_fn(A, A) -> bool) -> bool {
    &&& forall|a: A| !#[trigger] lt(a, a)
    &&& forall|a: A, b: A, c: A| #[trigger] lt(a, b) && #[trigger] lt(b, c) ==> lt(a, c)
}

/// Each element of `s` precedes, under `lt`, the elements after it.
pub open spec fn sorted_strict<A>(s: Seq<A>, lt: spec_fn(A, A) -> bool) -> bool {
    forall|i: int, j: int| 0 <= i < j < s.len() ==> #[trigger] lt(s[i], s[j])
}

/// The elements of `set` in increasing order under `lt`.
pub open spec fn listing<A>(set: Set<A>, lt: spec_fn(A, A) -> bool) -> Seq<A> {
    choose|l: Seq<A>| sorted_strict(l, lt) && l.to_set() == set
}

/// The lexicographic order of names, as a relation.
pub open spec fn by_name() -> spec_fn(Seq<char>, Seq<char>) -> bool {
    |a: Seq<char>, b: Seq<char>| lex_lt(a, b)
}

/// The lexicographic order of names is a strict order.
pub proof fn lemma_by_name_strict()
    ensures
        strict_order(by_name()),
{
    assert forall|a: Seq<char>| !#[trigger] by_name()(a, a) by {
        lemma_lex_irreflexive(a);
    }
    assert forall|a: Seq<char>, b: Seq<char>, c: Seq<char>| #[trigger]
        by_name()(a, b) && #[trigger] by_name()(b, c) implies by_name()(a, c) by {
        lemma_lex_transitive(a, b, c);
    }
}

/// Two sequences sorted strictly by the same order, with the same elements, are equal.
pub proof fn lemma_sorted_unique<A>(a: Seq<A>, b: Seq<A>, lt: spec_fn(A, A) -> bool)
    requires
        strict_order(lt),
        sorted_strict(a, lt),
        sorted_strict(b, lt),
        a.to_set() == b.to_set(),
    ensures
        a == b,
    decreases a.len(),
{
    if a.len() == 0 {
        if b.len() > 0 {
            assert(b.to_set().contains(b[0]));
        }
        assert(a =~= b);
    } else {
        assert(a.to_set().contains(a[0]));
        assert(b.contains(a[0]));
        let k = choose|k: int| 0 <= k < b.len() && b[k] == a[0];
        assert(b.to_set().contains(b[0]));
        assert(a.contains(b[0]));
        let m = choose|m: int| 0 <= m < a.len() && a[m] == b[0];
        if k > 0 {
            assert(lt(b[0], b[k]));
            if m > 0 {
                assert(lt(a[0], a[m]));
                assert(lt(b[0], b[0]));
            }
        }
        assert(a[0] == b[0]);
        let ta = a.drop_first();
        let tb = b.drop_first();
        assert forall|x: A| ta.to_set().contains(x) <==> tb.to_set().contains(x) by {
            if ta.to_set().contains(x) {
                let i = choose|i: int| 0 <= i < ta.len() && ta[i] == x;
                assert(lt(a[0], a[i + 1]));
                assert(a.to_set().contains(x));
                let j = choose|j: int| 0 <= j < b.len() && b[j] == x;
                if j == 0 {
                    assert(lt(x, x));
                }
                assert(tb[j - 1] == x);
            }
            if tb.to_set().contains(x) {
                let i = choose|i: int| 0 <= i < tb.len() && tb[i] == x;
                assert(lt(b[0], b[i + 1]));
                assert(b.to_set().contains(x));
                let j = choose|j: int| 0 <= j < a.len() && a[j] == x;
                if j == 0 {
                    assert(lt(x, x));
                }
                assert(ta[j - 1] == x);
            }
        }
        assert(ta.to_set() =~= tb.to_set());
        assert forall|i: int, j: int| 0 <= i < j < ta.len() implies #[trigger] lt(ta[i], ta[j]) by {
            assert(lt(a[i + 1], a[j + 1]));
        }
        assert forall|i: int, j: int| 0 <= i < j < tb.len() implies #[trigger] lt(tb[i], tb[j]) by {
            assert(lt(b[i + 1], b[j + 1]));
        }
        lemma_sorted_unique(ta, tb, lt);
        assert(a =~= seq![a[0]] + ta);
        assert(b =~= seq![b[0]] + tb);
    }
}

/// `x` inserted into `l` before the first element it precedes.
pub open spec fn insert_sorted<A>(l: Seq<A>, x: A, lt: spec_fn(A, A) -> bool) -> Seq<A>
    decreases l.len(),
{
    if l.len() == 0 {
        seq![x]
    } else if lt(x, l[0]) {
        seq![x] + l
    } else {
        seq![l[0]] + insert_sorted(l.drop_first(), x, lt)
    }
}

proof fn lemma_insert_sorted<A>(l: Seq<A>, x: A, lt: spec_fn(A, A) -> bool)
    requires
        strict_order(lt),
        sorted_strict(l, lt),
        forall|i: int| 0 <= i < l.len() ==> lt(x, #[trigger] l[i]) || lt(l[i], x),
    ensures
        sorted_strict(insert_sorted(l, x, lt), lt),
        insert_sorted(l, x, lt).to_set() == l.to_set().insert(x),
    decreases l.len(),
{
    let w = insert_sorted(l, x, lt);
    if l.len() == 0 {
        assert(w.to_set() =~= l.to_set().insert(x)) by {
            assert(w[0] == x);
        }
    } else if lt(x, l[0]) {
        assert(w =~= seq![x] + l);
        assert forall|i: int, j: int| 0 <= i < j < w.len() implies #[trigger] lt(w[i], w[j]) by {
            if i == 0 {
                if j > 1 {
                    assert(lt(l[0], l[j - 1]));
                }
                assert(w[j] == l[j - 1]);
            } else {
                assert(w[i] == l[i - 1] && w[j] == l[j - 1]);
            }
        }
        assert forall|y: A| w.to_set().contains(y) <==> l.to_set().insert(x).contains(y) by {
            if w.to_set().contains(y) {
                let k = choose|k: int| 0 <= k < w.len() && w[k] == y;
                if k > 0 {
                    assert(l[k - 1] == y);
                }
            }
            if l.to_set().contains(y) {
                let k = choose|k: int| 0 <= k < l.len() && l[k] == y;
                assert(w[k + 1] == y);
            }
            if y == x {
                assert(w[0] == x);
            }
        }
        assert(w.to_set() =~= l.to_set().insert(x));
    } else {
        let t = l.drop_first();
        assert forall|i: int, j: int| 0 <= i < j < t.len() implies #[trigger] lt(t[i], t[j]) by {
            assert(lt(l[i + 1], l[j + 1]));
        }
        assert forall|i: int| 0 <= i < t.len() implies lt(x, #[trigger] t[i]) || lt(t[i], x) by {
            assert(t[i] == l[i + 1]);
        }
        lemma_insert_sorted(t, x, lt);
        let u = insert_sorted(t, x, lt);
        assert(w =~= seq![l[0]] + u);
        assert(lt(l[0], x));
        assert forall|k: int| 0 <= k < u.len() implies lt(l[0], #[trigger] u[k]) by {
            assert(u.to_set().contains(u[k]));
            if u[k] != x {
                assert(t.to_set().contains(u[k]));
                let m = choose|m: int| 0 <= m < t.len() && t[m] == u[k];
                assert(lt(l[0], l[m + 1]));
            }
        }
        assert forall|i: int, j: int| 0 <= i < j < w.len() implies #[trigger] lt(w[i], w[j]) by {
            if i == 0 {
                assert(w[j] == u[j - 1]);
            } else {
                assert(w[i] == u[i - 1] && w[j] == u[j - 1]);
            }
        }
        assert forall|y: A| w.to_set().contains(y) <==> l.to_set().insert(x).contains(y) by {
            if w.to_set().contains(y) {
                let k = choose|k: int| 0 <= k < w.len() && w[k] == y;
                if k > 0 {
                    assert(u[k - 1] == y);
                    assert(u.to_set().contains(y));
                    if y != x {
                        let m = choose|m: int| 0 <= m < t.len() && t[m] == y;
                        assert(l[m + 1] == y);
                    }
                }
            }
            if l.to_set().contains(y) {
                let k = choose|k: int| 0 <= k < l.len() && l[k] == y;
                if k == 0 {
                    assert(w[0] == y);
                } else {
                    assert(t[k - 1] == y);
                    assert(t.to_set().contains(y));
                    assert(u.to_set().contains(y));
                    let m = choose|m: int| 0 <= m < u.len() && u[m] == y;
                    assert(w[m + 1] == y);
                }
            }
            if y == x {
                assert(u.to_set().contains(x));
                let m = choose|m: int| 0 <= m < u.len() && u[m] == x;
                assert(w[m + 1] == x);
            }
        }
        assert(w.to_set() =~= l.to_set().insert(x));
    }
}

/// A finite set whose distinct elements `lt` compares has a listing.
pub proof fn lemma_listing_exists<A>(s: Set<A>, lt: spec_fn(A, A) -> bool)
    requires
        s.finite(),
        strict_order(lt),
        forall|a: A, b: A| s.contains(a) && s.contains(b) && a != b ==> #[trigger] lt(a, b) || #[trigger] lt(b, a),
    ensures
        sorted_strict(listing(s, lt), lt),
        listing(s, lt).to_set() == s,
    decreases s.len(),
{
    if s.len() == 0 {
        let e = Seq::<A>::empty();
        assert(s =~= Set::<A>::empty());
        assert(e.to_set() =~= s);
        assert(sorted_strict(e, lt) && e.to_set() == s);
    } else {
        let x = s.choose();
        let rest = s.remove(x);
        lemma_listing_exists(rest, lt);
        let l = listing(rest, lt);
        assert forall|i: int| 0 <= i < l.len() implies lt(x, #[trigger] l[i]) || lt(l[i], x) by {
            assert(l.to_set().contains(l[i]));
        }
        lemma_insert_sorted(l, x, lt);
        let w = insert_sorted(l, x, lt);
        assert(w.to_set() =~= s);
        assert(sorted_strict(w, lt) && w.to_set() == s);
    }
}

/// A strictly sorted sequence is the listing of its elements.
pub proof fn lemma_listing<A>(l: Seq<A>, lt: spec_fn(A, A) -> bool)
    requires
        strict_order(lt),
        sorted_strict(l, lt),
    ensures
        listing(l.to_set(), lt) == l,
{
    let w = listing(l.to_set(), lt);
    assert(sorted_strict(w, lt) && w.to_set() == l.to_set());
    lemma_sorted_unique(w, l, lt);
}

} // verus!
