//! Type variables and what they stand for in an instance.

use super::super::repr::{
    all_concrete, canonical, canonical_order_keeps_variants, combine, fields_concrete, is_concrete,
    named_reprs_sem, normalize_union, reprs_sem, Repr, SRepr,
};
use crate::syntax::{names_of, opt_name_of, Node};
use crate::text::{chars_of, str_eq};
use vstd::prelude::*;

verus! {

/// What type variables stand for, in the order of their names.
pub type SSubst = Seq<(Seq<char>, SRepr)>;

/// Whether a name comes before another, by the first character in which they differ.
pub open spec fn before(a: Seq<char>, b: Seq<char>, i: int) -> bool
    decreases a.len() - i,
{
    if i >= b.len() {
        false
    } else if i >= a.len() {
        true
    } else if a[i] != b[i] {
        (a[i] as u32) < (b[i] as u32)
    } else {
        before(a, b, i + 1)
    }
}

/// What a variable stands for, from entry `k` on.
pub open spec fn bound_from(s: SSubst, name: Seq<char>, k: int) -> Option<SRepr>
    decreases s.len() - k,
{
    if k >= s.len() {
        None
    } else if s[k].0 == name {
        Some(s[k].1)
    } else {
        bound_from(s, name, k + 1)
    }
}

/// What a variable stands for.
pub open spec fn bound_to(s: SSubst, name: Seq<char>) -> Option<SRepr> {
    bound_from(s, name, 0)
}

/// The first entry from `k` on whose name does not come before another.
pub open spec fn place_from(s: SSubst, name: Seq<char>, k: int) -> int
    decreases s.len() - k,
{
    if k >= s.len() || !before(s[k].0, name, 0) {
        k
    } else {
        place_from(s, name, k + 1)
    }
}

/// A substitution with a variable bound, if it is not bound yet.
pub open spec fn with_new(s: SSubst, name: Seq<char>, r: SRepr) -> SSubst {
    if bound_to(s, name) is Some {
        s
    } else {
        s.insert(place_from(s, name, 0), (name, r))
    }
}

/// The first entry from `k` on of a name.
pub open spec fn index_from(s: SSubst, name: Seq<char>, k: int) -> int
    decreases s.len() - k,
{
    if k >= s.len() || s[k].0 == name {
        k
    } else {
        index_from(s, name, k + 1)
    }
}

/// A substitution with a variable bound, whether or not it was bound before.
pub open spec fn with_set(s: SSubst, name: Seq<char>, r: SRepr) -> SSubst {
    let i = index_from(s, name, 0);
    if i < s.len() {
        s.update(i, (name, r))
    } else {
        s.insert(place_from(s, name, 0), (name, r))
    }
}

/// A layout with its variables replaced by what they stand for. The variants of a union are
/// put in order anew, since what stands for a variable may come elsewhere among them.
pub open spec fn substituted(r: SRepr, s: SSubst) -> SRepr
    decreases r, 0int,
{
    match r {
        SRepr::Var(n) => match bound_to(s, n) {
            Some(x) => x,
            None => r,
        },
        SRepr::Record { name, fields } => SRepr::Record {
            name,
            fields: substituted_fields(fields, s),
        },
        SRepr::Tuple(rs) => SRepr::Tuple(all_substituted(rs, s)),
        SRepr::Union(rs) => combine(canonical(all_substituted(rs, s))),
        SRepr::List(e) => SRepr::List(Box::new(substituted(*e, s))),
        SRepr::Runtime { nominal, c_type, args } => SRepr::Runtime {
            nominal,
            c_type,
            args: all_substituted(args, s),
        },
        SRepr::Nullable(e) => SRepr::Nullable(Box::new(substituted(*e, s))),
        SRepr::Mapping(k, v) => SRepr::Mapping(
            Box::new(substituted(*k, s)),
            Box::new(substituted(*v, s)),
        ),
        SRepr::Closure { params, throws, ret } => SRepr::Closure {
            params: all_substituted(params, s),
            throws: Box::new(substituted(*throws, s)),
            ret: Box::new(substituted(*ret, s)),
        },
        _ => r,
    }
}

pub open spec fn all_substituted(rs: Seq<SRepr>, s: SSubst) -> Seq<SRepr>
    decreases rs, 0int,
{
    Seq::new(
        rs.len(),
        |i: int|
            if 0 <= i < rs.len() {
                substituted(rs[i], s)
            } else {
                arbitrary()
            },
    )
}

pub open spec fn substituted_fields(fs: Seq<(Seq<char>, SRepr)>, s: SSubst) -> Seq<
    (Seq<char>, SRepr),
>
    decreases fs, 0int,
{
    Seq::new(
        fs.len(),
        |i: int|
            if 0 <= i < fs.len() {
                (fs[i].0, substituted(fs[i].1, s))
            } else {
                arbitrary()
            },
    )
}

/// A substitution with the variables of a template bound to what they match in a layout.
/// What is bound already stays.
pub open spec fn matched(t: SRepr, c: SRepr, s: SSubst) -> SSubst
    decreases t, 0int,
{
    match (t, c) {
        (SRepr::Var(n), _) => with_new(s, n, c),
        (SRepr::List(a), SRepr::List(b)) => matched(*a, *b, s),
        (SRepr::Nullable(a), SRepr::Nullable(b)) => matched(*a, *b, s),
        (
            SRepr::Runtime { nominal: an, c_type: ac, args: aa },
            SRepr::Runtime { nominal: bn, c_type: bc, args: ba },
        ) => if an == bn && ac == bc {
            all_matched(aa, ba, aa.len() as int, s)
        } else {
            s
        },
        (SRepr::Mapping(ak, av), SRepr::Mapping(bk, bv)) => matched(
            *av,
            *bv,
            matched(*ak, *bk, s),
        ),
        (SRepr::Record { fields: a, .. }, SRepr::Record { fields: b, .. }) => fields_matched(
            a,
            b,
            a.len() as int,
            s,
        ),
        (SRepr::Tuple(a), SRepr::Tuple(b)) => all_matched(a, b, a.len() as int, s),
        (SRepr::Union(a), SRepr::Union(b)) => all_matched(a, b, a.len() as int, s),
        (SRepr::Nullable(a), _) => matched(*a, c, s),
        (SRepr::Union(a), _) => variants_matched(a, c, a.len() as int, s),
        (
            SRepr::Closure { params: ap, throws: at, ret: ar },
            SRepr::Closure { params: bp, throws: bt, ret: br },
        ) => matched(*ar, *br, matched(*at, *bt, all_matched(ap, bp, ap.len() as int, s))),
        _ => s,
    }
}

/// The first `k` layouts matched with others, as far as there are others.
pub open spec fn all_matched(a: Seq<SRepr>, b: Seq<SRepr>, k: int, s: SSubst) -> SSubst
    decreases a, k,
{
    if 0 < k <= a.len() {
        let r = all_matched(a, b, k - 1, s);
        if k <= b.len() {
            matched(a[k - 1], b[k - 1], r)
        } else {
            r
        }
    } else {
        s
    }
}

pub open spec fn fields_matched(
    a: Seq<(Seq<char>, SRepr)>,
    b: Seq<(Seq<char>, SRepr)>,
    k: int,
    s: SSubst,
) -> SSubst
    decreases a, k,
{
    if 0 < k <= a.len() {
        let r = fields_matched(a, b, k - 1, s);
        if k <= b.len() {
            matched(a[k - 1].1, b[k - 1].1, r)
        } else {
            r
        }
    } else {
        s
    }
}

/// Those of the first `k` variants that are variables, matched with one layout.
pub open spec fn variants_matched(a: Seq<SRepr>, c: SRepr, k: int, s: SSubst) -> SSubst
    decreases a, k,
{
    if 0 < k <= a.len() {
        let r = variants_matched(a, c, k - 1, s);
        match a[k - 1] {
            SRepr::Var(n) => with_new(r, n, c),
            _ => r,
        }
    } else {
        s
    }
}

pub open spec fn last_name(path: Seq<Seq<char>>) -> Seq<char> {
    if path.len() == 0 {
        seq![]
    } else {
        path.last()
    }
}

// ---- computing it ----

fn comes_before(a: &str, b: &str) -> (r: bool)
    ensures
        r == before(a@, b@, 0),
{
    let x = chars_of(a);
    let y = chars_of(b);
    let mut i: usize = 0;
    while i < y.len()
        invariant
            i <= x.len(),
            x@ == a@,
            y@ == b@,
            before(a@, b@, 0) == before(a@, b@, i as int),
        decreases y.len() - i,
    {
        if i >= x.len() {
            return true;
        }
        if x[i] != y[i] {
            return (x[i] as u32) < (y[i] as u32);
        }
        i += 1;
    }
    false
}

// ---- what substituting gives ----

/// Whether every variable of a layout is bound to a layout without variables.
pub open spec fn closes(r: SRepr, s: SSubst) -> bool
    decreases r, 0int,
{
    match r {
        SRepr::Var(n) => bound_to(s, n) matches Some(x) && is_concrete(x),
        SRepr::Record { fields, .. } => closes_fields(fields, s),
        SRepr::Tuple(rs) => closes_all(rs, s),
        SRepr::Union(rs) => closes_all(rs, s),
        SRepr::List(e) => closes(*e, s),
        SRepr::Nullable(e) => closes(*e, s),
        SRepr::Mapping(k, v) => closes(*k, s) && closes(*v, s),
        SRepr::Runtime { args, .. } => closes_all(args, s),
        SRepr::Closure { params, throws, ret } => closes_all(params, s) && closes(*throws, s)
            && closes(*ret, s),
        _ => true,
    }
}

pub open spec fn closes_all(rs: Seq<SRepr>, s: SSubst) -> bool
    decreases rs, 0int,
{
    forall|i: int| 0 <= i < rs.len() ==> closes(#[trigger] rs[i], s)
}

pub open spec fn closes_fields(fs: Seq<(Seq<char>, SRepr)>, s: SSubst) -> bool
    decreases fs, 0int,
{
    forall|i: int| 0 <= i < fs.len() ==> closes((#[trigger] fs[i]).1, s)
}

proof fn lemma_all_concrete(rs: Seq<SRepr>, n: int)
    requires
        forall|i: int| 0 <= i < rs.len() ==> is_concrete(#[trigger] rs[i]),
    ensures
        all_concrete(rs, n),
    decreases n,
{
    if 0 < n <= rs.len() {
        lemma_all_concrete(rs, n - 1);
    }
}

proof fn lemma_fields_concrete(fs: Seq<(Seq<char>, SRepr)>, n: int)
    requires
        forall|i: int| 0 <= i < fs.len() ==> is_concrete((#[trigger] fs[i]).1),
    ensures
        fields_concrete(fs, n),
    decreases n,
{
    if 0 < n <= fs.len() {
        lemma_fields_concrete(fs, n - 1);
    }
}

proof fn lemma_all_closed(rs: Seq<SRepr>, s: SSubst)
    requires
        closes_all(rs, s),
    ensures
        forall|i: int|
            0 <= i < all_substituted(rs, s).len() ==> is_concrete(
                #[trigger] all_substituted(rs, s)[i],
            ),
        all_concrete(all_substituted(rs, s), all_substituted(rs, s).len() as int),
    decreases rs, 0int,
{
    let xs = all_substituted(rs, s);
    assert forall|i: int| 0 <= i < xs.len() implies is_concrete(#[trigger] xs[i]) by {
        assert(closes(rs[i], s));
        substituting_closes(rs[i], s);
    }
    lemma_all_concrete(xs, xs.len() as int);
}

proof fn lemma_fields_closed(fs: Seq<(Seq<char>, SRepr)>, s: SSubst)
    requires
        closes_fields(fs, s),
    ensures
        fields_concrete(substituted_fields(fs, s), substituted_fields(fs, s).len() as int),
    decreases fs, 0int,
{
    let xs = substituted_fields(fs, s);
    assert forall|i: int| 0 <= i < xs.len() implies is_concrete((#[trigger] xs[i]).1) by {
        assert(closes(fs[i].1, s));
        substituting_closes(fs[i].1, s);
    }
    lemma_fields_concrete(xs, xs.len() as int);
}

/// A layout whose variables are all bound to layouts without variables has none left: what
/// an instance holds is known in full.
pub proof fn substituting_closes(r: SRepr, s: SSubst)
    requires
        closes(r, s),
    ensures
        is_concrete(substituted(r, s)),
    decreases r, 0int,
{
    match r {
        SRepr::Record { fields, .. } => lemma_fields_closed(fields, s),
        SRepr::Tuple(rs) => lemma_all_closed(rs, s),
        SRepr::Union(rs) => {
            lemma_all_closed(rs, s);
            let xs = all_substituted(rs, s);
            let ys = canonical(xs);
            canonical_order_keeps_variants(xs);
            assert forall|i: int| 0 <= i < ys.len() implies is_concrete(#[trigger] ys[i]) by {
                assert(ys.contains(ys[i]));
                assert(xs.contains(ys[i]));
            }
            lemma_all_concrete(ys, ys.len() as int);
        },
        SRepr::List(e) => substituting_closes(*e, s),
        SRepr::Nullable(e) => substituting_closes(*e, s),
        SRepr::Mapping(k, v) => {
            substituting_closes(*k, s);
            substituting_closes(*v, s);
        },
        SRepr::Runtime { args, .. } => lemma_all_closed(args, s),
        SRepr::Closure { params, throws, ret } => {
            lemma_all_closed(params, s);
            substituting_closes(*throws, s);
            substituting_closes(*ret, s);
        },
        _ => {},
    }
}

// ---- matching undoes substituting ----

/// Whether a substitution `r` binds every variable of a template, and as `s` does. The
/// variants of a union change places, so a template with one is not matched part by part.
pub open spec fn covers(t: SRepr, r: SSubst, s: SSubst) -> bool
    decreases t, 0int,
{
    match t {
        SRepr::Var(n) => bound_to(r, n) is Some && bound_to(r, n) == bound_to(s, n),
        SRepr::Record { fields, .. } => covers_fields(fields, r, s),
        SRepr::Tuple(rs) => covers_all(rs, r, s),
        SRepr::Union(_) => false,
        SRepr::List(e) => covers(*e, r, s),
        SRepr::Nullable(e) => covers(*e, r, s),
        SRepr::Mapping(k, v) => covers(*k, r, s) && covers(*v, r, s),
        SRepr::Runtime { args, .. } => covers_all(args, r, s),
        SRepr::Closure { params, throws, ret } => covers_all(params, r, s) && covers(*throws, r, s)
            && covers(*ret, r, s),
        _ => true,
    }
}

pub open spec fn covers_all(ts: Seq<SRepr>, r: SSubst, s: SSubst) -> bool
    decreases ts, 0int,
{
    forall|i: int| 0 <= i < ts.len() ==> covers(#[trigger] ts[i], r, s)
}

pub open spec fn covers_fields(fs: Seq<(Seq<char>, SRepr)>, r: SSubst, s: SSubst) -> bool
    decreases fs, 0int,
{
    forall|i: int| 0 <= i < fs.len() ==> covers((#[trigger] fs[i]).1, r, s)
}

/// Whether a substitution binds only what another binds, and as it does.
pub open spec fn agrees(r: SSubst, s: SSubst) -> bool {
    forall|n: Seq<char>| #[trigger] bound_to(r, n) is Some ==> bound_to(r, n) == bound_to(s, n)
}

/// Whether a substitution binds what another binds, as it does.
pub open spec fn extends(a: SSubst, b: SSubst) -> bool {
    forall|n: Seq<char>| #[trigger] bound_to(a, n) is Some ==> bound_to(b, n) == bound_to(a, n)
}

proof fn lemma_bound_insert(
    s: SSubst,
    at: int,
    name: Seq<char>,
    r: SRepr,
    n: Seq<char>,
    k: int,
)
    requires
        0 <= at <= s.len(),
        0 <= k,
        bound_to(s, name) is None,
    ensures
        k <= at ==> bound_from(s.insert(at, (name, r)), n, k) == if n == name && bound_from(
            s,
            name,
            k,
        ) is None {
            Some(r)
        } else {
            bound_from(s, n, k)
        },
        k > at ==> bound_from(s.insert(at, (name, r)), n, k) == bound_from(s, n, k - 1),
    decreases s.len() + 1 - k,
{
    let t = s.insert(at, (name, r));
    if k < t.len() {
        lemma_bound_insert(s, at, name, r, n, k + 1);
        lemma_unbound_from(s, name, 0, k);
        if k < at {
            assert(t[k] == s[k]);
        } else if k > at {
            assert(t[k] == s[k - 1]);
        } else {
            assert(t[k] == (name, r));
        }
    }
}

proof fn lemma_unbound_from(s: SSubst, name: Seq<char>, j: int, k: int)
    requires
        0 <= j <= k,
        bound_from(s, name, j) is None,
    ensures
        bound_from(s, name, k) is None,
    decreases k - j,
{
    if j < k {
        if j >= s.len() {
            assert(bound_from(s, name, k) is None);
        } else {
            lemma_unbound_from(s, name, j + 1, k);
        }
    }
}

proof fn lemma_place_in_range(s: SSubst, name: Seq<char>, k: int)
    requires
        0 <= k <= s.len(),
    ensures
        k <= place_from(s, name, k) <= s.len(),
    decreases s.len() - k,
{
    if k < s.len() && before(s[k].0, name, 0) {
        lemma_place_in_range(s, name, k + 1);
    }
}

proof fn lemma_with_new(acc: SSubst, name: Seq<char>, r: SRepr, s: SSubst)
    requires
        agrees(acc, s),
        bound_to(s, name) == Some(r),
    ensures
        agrees(with_new(acc, name, r), s),
        extends(acc, with_new(acc, name, r)),
        bound_to(with_new(acc, name, r), name) == Some(r),
{
    if bound_to(acc, name) is None {
        let at = place_from(acc, name, 0);
        lemma_place_in_range(acc, name, 0);
        let t = with_new(acc, name, r);
        assert forall|n: Seq<char>| #[trigger] bound_to(t, n) == if n == name {
            Some(r)
        } else {
            bound_to(acc, n)
        } by {
            lemma_bound_insert(acc, at, name, r, n, 0);
        }
    }
}

proof fn lemma_covers_on(t: SRepr, a: SSubst, b: SSubst, s: SSubst)
    requires
        covers(t, a, s),
        extends(a, b),
    ensures
        covers(t, b, s),
    decreases t, 0int,
{
    match t {
        SRepr::Record { fields, .. } => lemma_covers_fields_on(fields, a, b, s),
        SRepr::Tuple(rs) => lemma_covers_all_on(rs, a, b, s),
        SRepr::List(e) => lemma_covers_on(*e, a, b, s),
        SRepr::Nullable(e) => lemma_covers_on(*e, a, b, s),
        SRepr::Mapping(k, v) => {
            lemma_covers_on(*k, a, b, s);
            lemma_covers_on(*v, a, b, s);
        },
        SRepr::Runtime { args, .. } => lemma_covers_all_on(args, a, b, s),
        SRepr::Closure { params, throws, ret } => {
            lemma_covers_all_on(params, a, b, s);
            lemma_covers_on(*throws, a, b, s);
            lemma_covers_on(*ret, a, b, s);
        },
        _ => {},
    }
}

proof fn lemma_covers_all_on(ts: Seq<SRepr>, a: SSubst, b: SSubst, s: SSubst)
    requires
        covers_all(ts, a, s),
        extends(a, b),
    ensures
        covers_all(ts, b, s),
    decreases ts, 0int,
{
    assert forall|i: int| 0 <= i < ts.len() implies covers(#[trigger] ts[i], b, s) by {
        assert(covers(ts[i], a, s));
        lemma_covers_on(ts[i], a, b, s);
    }
}

proof fn lemma_covers_fields_on(fs: Seq<(Seq<char>, SRepr)>, a: SSubst, b: SSubst, s: SSubst)
    requires
        covers_fields(fs, a, s),
        extends(a, b),
    ensures
        covers_fields(fs, b, s),
    decreases fs, 0int,
{
    assert forall|i: int| 0 <= i < fs.len() implies covers((#[trigger] fs[i]).1, b, s) by {
        assert(covers(fs[i].1, a, s));
        lemma_covers_on(fs[i].1, a, b, s);
    }
}

proof fn lemma_same_layout(t: SRepr, r: SSubst, s: SSubst)
    requires
        covers(t, r, s),
    ensures
        substituted(t, r) == substituted(t, s),
    decreases t, 0int,
{
    match t {
        SRepr::Record { fields, .. } => lemma_same_fields(fields, r, s),
        SRepr::Tuple(rs) => lemma_same_layouts(rs, r, s),
        SRepr::List(e) => lemma_same_layout(*e, r, s),
        SRepr::Nullable(e) => lemma_same_layout(*e, r, s),
        SRepr::Mapping(k, v) => {
            lemma_same_layout(*k, r, s);
            lemma_same_layout(*v, r, s);
        },
        SRepr::Runtime { args, .. } => lemma_same_layouts(args, r, s),
        SRepr::Closure { params, throws, ret } => {
            lemma_same_layouts(params, r, s);
            lemma_same_layout(*throws, r, s);
            lemma_same_layout(*ret, r, s);
        },
        _ => {},
    }
}

proof fn lemma_same_fields(fs: Seq<(Seq<char>, SRepr)>, r: SSubst, s: SSubst)
    requires
        covers_fields(fs, r, s),
    ensures
        substituted_fields(fs, r) == substituted_fields(fs, s),
    decreases fs, 0int,
{
    assert forall|i: int| 0 <= i < fs.len() implies substituted_fields(fs, r)[i]
        == substituted_fields(fs, s)[i] by {
        assert(covers(fs[i].1, r, s));
        lemma_same_layout(fs[i].1, r, s);
    }
    assert(substituted_fields(fs, r) =~= substituted_fields(fs, s));
}

proof fn lemma_same_layouts(ts: Seq<SRepr>, r: SSubst, s: SSubst)
    requires
        covers_all(ts, r, s),
    ensures
        all_substituted(ts, r) == all_substituted(ts, s),
    decreases ts, 0int,
{
    assert forall|i: int| 0 <= i < ts.len() implies all_substituted(ts, r)[i] == all_substituted(
        ts,
        s,
    )[i] by {
        assert(covers(ts[i], r, s));
        lemma_same_layout(ts[i], r, s);
    }
    assert(all_substituted(ts, r) =~= all_substituted(ts, s));
}

proof fn lemma_matched(t: SRepr, acc: SSubst, s: SSubst)
    requires
        covers(t, s, s),
        agrees(acc, s),
    ensures
        agrees(matched(t, substituted(t, s), acc), s),
        extends(acc, matched(t, substituted(t, s), acc)),
        covers(t, matched(t, substituted(t, s), acc), s),
    decreases t, 0int,
{
    match t {
        SRepr::Var(n) => {
            assert(substituted(t, s) == bound_to(s, n)->0);
            let x = bound_to(s, n)->0;
            lemma_with_new(acc, n, x, s);
            assert(matched(t, x, acc) == with_new(acc, n, x));
        },
        SRepr::Record { name, fields } => lemma_fields_matched(
            fields,
            fields.len() as int,
            acc,
            s,
        ),
        SRepr::Tuple(rs) => lemma_all_matched(rs, rs.len() as int, acc, s),
        SRepr::List(e) => lemma_matched(*e, acc, s),
        SRepr::Nullable(e) => lemma_matched(*e, acc, s),
        SRepr::Mapping(k, v) => {
            lemma_matched(*k, acc, s);
            let a = matched(*k, substituted(*k, s), acc);
            lemma_matched(*v, a, s);
            lemma_covers_on(*k, a, matched(*v, substituted(*v, s), a), s);
        },
        SRepr::Runtime { args, .. } => lemma_all_matched(args, args.len() as int, acc, s),
        SRepr::Closure { params, throws, ret } => {
            lemma_all_matched(params, params.len() as int, acc, s);
            let a = all_matched(params, all_substituted(params, s), params.len() as int, acc);
            lemma_matched(*throws, a, s);
            let b = matched(*throws, substituted(*throws, s), a);
            lemma_matched(*ret, b, s);
            let d = matched(*ret, substituted(*ret, s), b);
            lemma_covers_all_on(params, a, b, s);
            lemma_covers_all_on(params, b, d, s);
            lemma_covers_on(*throws, b, d, s);
        },
        _ => {},
    }
}

proof fn lemma_all_matched(ts: Seq<SRepr>, k: int, acc: SSubst, s: SSubst)
    requires
        covers_all(ts, s, s),
        agrees(acc, s),
        0 <= k <= ts.len(),
    ensures
        agrees(all_matched(ts, all_substituted(ts, s), k, acc), s),
        extends(acc, all_matched(ts, all_substituted(ts, s), k, acc)),
        forall|i: int|
            0 <= i < k ==> covers(
                #[trigger] ts[i],
                all_matched(ts, all_substituted(ts, s), k, acc),
                s,
            ),
        k == ts.len() ==> covers_all(ts, all_matched(ts, all_substituted(ts, s), k, acc), s),
    decreases ts, k,
{
    if k > 0 {
        lemma_all_matched(ts, k - 1, acc, s);
        let cs = all_substituted(ts, s);
        let a = all_matched(ts, cs, k - 1, acc);
        assert(covers(ts[k - 1], s, s));
        lemma_matched(ts[k - 1], a, s);
        let b = matched(ts[k - 1], cs[k - 1], a);
        assert forall|i: int| 0 <= i < k implies covers(#[trigger] ts[i], b, s) by {
            if i < k - 1 {
                lemma_covers_on(ts[i], a, b, s);
            }
        }
    }
}

proof fn lemma_fields_matched(fs: Seq<(Seq<char>, SRepr)>, k: int, acc: SSubst, s: SSubst)
    requires
        covers_fields(fs, s, s),
        agrees(acc, s),
        0 <= k <= fs.len(),
    ensures
        agrees(fields_matched(fs, substituted_fields(fs, s), k, acc), s),
        extends(acc, fields_matched(fs, substituted_fields(fs, s), k, acc)),
        forall|i: int|
            0 <= i < k ==> covers(
                (#[trigger] fs[i]).1,
                fields_matched(fs, substituted_fields(fs, s), k, acc),
                s,
            ),
        k == fs.len() ==> covers_fields(
            fs,
            fields_matched(fs, substituted_fields(fs, s), k, acc),
            s,
        ),
    decreases fs, k,
{
    if k > 0 {
        lemma_fields_matched(fs, k - 1, acc, s);
        let cs = substituted_fields(fs, s);
        let a = fields_matched(fs, cs, k - 1, acc);
        assert(covers(fs[k - 1].1, s, s));
        lemma_matched(fs[k - 1].1, a, s);
        let b = matched(fs[k - 1].1, cs[k - 1].1, a);
        assert forall|i: int| 0 <= i < k implies covers((#[trigger] fs[i]).1, b, s) by {
            if i < k - 1 {
                lemma_covers_on(fs[i].1, a, b, s);
            }
        }
    }
}

/// Whether a variable stands in a layout.
pub open spec fn mentions(t: SRepr, n: Seq<char>) -> bool
    decreases t, 0int,
{
    match t {
        SRepr::Var(m) => m == n,
        SRepr::Record { fields, .. } => fields_mention(fields, n),
        SRepr::Tuple(rs) => any_mentions(rs, n),
        SRepr::Union(rs) => any_mentions(rs, n),
        SRepr::List(e) => mentions(*e, n),
        SRepr::Nullable(e) => mentions(*e, n),
        SRepr::Mapping(k, v) => mentions(*k, n) || mentions(*v, n),
        SRepr::Runtime { args, .. } => any_mentions(args, n),
        SRepr::Closure { params, throws, ret } => any_mentions(params, n) || mentions(*throws, n)
            || mentions(*ret, n),
        _ => false,
    }
}

pub open spec fn any_mentions(ts: Seq<SRepr>, n: Seq<char>) -> bool
    decreases ts, 0int,
{
    exists|i: int| 0 <= i < ts.len() && mentions(#[trigger] ts[i], n)
}

pub open spec fn fields_mention(fs: Seq<(Seq<char>, SRepr)>, n: Seq<char>) -> bool
    decreases fs, 0int,
{
    exists|i: int| 0 <= i < fs.len() && mentions((#[trigger] fs[i]).1, n)
}

proof fn lemma_binds_one(acc: SSubst, name: Seq<char>, r: SRepr, n: Seq<char>)
    ensures
        bound_to(with_new(acc, name, r), n) is Some ==> bound_to(acc, n) is Some || n == name,
{
    if bound_to(acc, name) is None {
        let at = place_from(acc, name, 0);
        lemma_place_in_range(acc, name, 0);
        lemma_bound_insert(acc, at, name, r, n, 0);
    }
}

/// Matching a template binds no variable that does not stand in it.
pub proof fn matching_binds_what_is_mentioned(t: SRepr, c: SRepr, acc: SSubst, n: Seq<char>)
    ensures
        bound_to(matched(t, c, acc), n) is Some ==> bound_to(acc, n) is Some || mentions(t, n),
    decreases t, 0int,
{
    match (t, c) {
        (SRepr::Var(m), _) => lemma_binds_one(acc, m, c, n),
        (SRepr::List(a), SRepr::List(b)) => matching_binds_what_is_mentioned(*a, *b, acc, n),
        (SRepr::Nullable(a), SRepr::Nullable(b)) => matching_binds_what_is_mentioned(
            *a,
            *b,
            acc,
            n,
        ),
        (SRepr::Runtime { args: a, .. }, SRepr::Runtime { args: b, .. }) => lemma_all_mentioned(
            a,
            b,
            a.len() as int,
            acc,
            n,
        ),
        (SRepr::Mapping(ak, av), SRepr::Mapping(bk, bv)) => {
            matching_binds_what_is_mentioned(*ak, *bk, acc, n);
            matching_binds_what_is_mentioned(*av, *bv, matched(*ak, *bk, acc), n);
        },
        (SRepr::Record { fields: a, .. }, SRepr::Record { fields: b, .. }) => {
            lemma_fields_mentioned(a, b, a.len() as int, acc, n);
        },
        (SRepr::Tuple(a), SRepr::Tuple(b)) => lemma_all_mentioned(a, b, a.len() as int, acc, n),
        (SRepr::Union(a), SRepr::Union(b)) => lemma_all_mentioned(a, b, a.len() as int, acc, n),
        (SRepr::Nullable(a), _) => matching_binds_what_is_mentioned(*a, c, acc, n),
        (SRepr::Union(a), _) => lemma_variants_mentioned(a, c, a.len() as int, acc, n),
        (
            SRepr::Closure { params: ap, throws: at, ret: ar },
            SRepr::Closure { params: bp, throws: bt, ret: br },
        ) => {
            let x = all_matched(ap, bp, ap.len() as int, acc);
            lemma_all_mentioned(ap, bp, ap.len() as int, acc, n);
            matching_binds_what_is_mentioned(*at, *bt, x, n);
            matching_binds_what_is_mentioned(*ar, *br, matched(*at, *bt, x), n);
        },
        _ => {},
    }
}

proof fn lemma_all_mentioned(a: Seq<SRepr>, b: Seq<SRepr>, k: int, acc: SSubst, n: Seq<char>)
    ensures
        bound_to(all_matched(a, b, k, acc), n) is Some ==> bound_to(acc, n) is Some
            || any_mentions(a, n),
    decreases a, k,
{
    if 0 < k <= a.len() {
        lemma_all_mentioned(a, b, k - 1, acc, n);
        if k <= b.len() {
            matching_binds_what_is_mentioned(
                a[k - 1],
                b[k - 1],
                all_matched(a, b, k - 1, acc),
                n,
            );
        }
    }
}

proof fn lemma_fields_mentioned(
    a: Seq<(Seq<char>, SRepr)>,
    b: Seq<(Seq<char>, SRepr)>,
    k: int,
    acc: SSubst,
    n: Seq<char>,
)
    ensures
        bound_to(fields_matched(a, b, k, acc), n) is Some ==> bound_to(acc, n) is Some
            || fields_mention(a, n),
    decreases a, k,
{
    if 0 < k <= a.len() {
        lemma_fields_mentioned(a, b, k - 1, acc, n);
        if k <= b.len() {
            matching_binds_what_is_mentioned(
                a[k - 1].1,
                b[k - 1].1,
                fields_matched(a, b, k - 1, acc),
                n,
            );
        }
    }
}

proof fn lemma_variants_mentioned(a: Seq<SRepr>, c: SRepr, k: int, acc: SSubst, n: Seq<char>)
    ensures
        bound_to(variants_matched(a, c, k, acc), n) is Some ==> bound_to(acc, n) is Some
            || any_mentions(a, n),
    decreases a, k,
{
    if 0 < k <= a.len() {
        lemma_variants_mentioned(a, c, k - 1, acc, n);
        if let SRepr::Var(m) = a[k - 1] {
            lemma_binds_one(variants_matched(a, c, k - 1, acc), m, c, n);
            assert(m == n ==> mentions(a[k - 1], n));
        }
    }
}

proof fn lemma_mentioned_is_bound(t: SRepr, r: SSubst, s: SSubst, n: Seq<char>)
    requires
        covers(t, r, s),
        mentions(t, n),
    ensures
        bound_to(r, n) is Some,
        bound_to(r, n) == bound_to(s, n),
    decreases t, 0int,
{
    match t {
        SRepr::Record { fields, .. } => lemma_mentioned_field_is_bound(fields, r, s, n),
        SRepr::Tuple(rs) => lemma_one_mentioned_is_bound(rs, r, s, n),
        SRepr::List(e) => lemma_mentioned_is_bound(*e, r, s, n),
        SRepr::Nullable(e) => lemma_mentioned_is_bound(*e, r, s, n),
        SRepr::Mapping(k, v) => if mentions(*k, n) {
            lemma_mentioned_is_bound(*k, r, s, n);
        } else {
            lemma_mentioned_is_bound(*v, r, s, n);
        },
        SRepr::Runtime { args, .. } => lemma_one_mentioned_is_bound(args, r, s, n),
        SRepr::Closure { params, throws, ret } => if any_mentions(params, n) {
            lemma_one_mentioned_is_bound(params, r, s, n);
        } else if mentions(*throws, n) {
            lemma_mentioned_is_bound(*throws, r, s, n);
        } else {
            lemma_mentioned_is_bound(*ret, r, s, n);
        },
        _ => {},
    }
}

proof fn lemma_mentioned_field_is_bound(
    fs: Seq<(Seq<char>, SRepr)>,
    r: SSubst,
    s: SSubst,
    n: Seq<char>,
)
    requires
        covers_fields(fs, r, s),
        fields_mention(fs, n),
    ensures
        bound_to(r, n) is Some,
        bound_to(r, n) == bound_to(s, n),
    decreases fs, 0int,
{
    let i = choose|i: int| 0 <= i < fs.len() && mentions((#[trigger] fs[i]).1, n);
    lemma_mentioned_is_bound(fs[i].1, r, s, n);
}

proof fn lemma_one_mentioned_is_bound(ts: Seq<SRepr>, r: SSubst, s: SSubst, n: Seq<char>)
    requires
        covers_all(ts, r, s),
        any_mentions(ts, n),
    ensures
        bound_to(r, n) is Some,
        bound_to(r, n) == bound_to(s, n),
    decreases ts, 0int,
{
    let i = choose|i: int| 0 <= i < ts.len() && mentions(#[trigger] ts[i], n);
    lemma_mentioned_is_bound(ts[i], r, s, n);
}

/// Matching a template without unions with what substituting makes of it finds what its
/// variables stood for: it binds exactly the variables that stand in the template, each as
/// the substitution does, and so gives the same layout.
pub proof fn matching_undoes_substituting(t: SRepr, s: SSubst)
    requires
        covers(t, s, s),
    ensures
        forall|n: Seq<char>|
            #![trigger bound_to(matched(t, substituted(t, s), seq![]), n)]
            bound_to(matched(t, substituted(t, s), seq![]), n) == if mentions(t, n) {
                bound_to(s, n)
            } else {
                None
            },
        forall|n: Seq<char>| #[trigger] mentions(t, n) ==> bound_to(s, n) is Some,
        substituted(t, matched(t, substituted(t, s), seq![])) == substituted(t, s),
{
    let r = matched(t, substituted(t, s), seq![]);
    lemma_matched(t, seq![], s);
    lemma_same_layout(t, r, s);
    assert forall|n: Seq<char>| #[trigger] mentions(t, n) implies bound_to(s, n) is Some by {
        lemma_mentioned_is_bound(t, s, s, n);
    }
    assert forall|n: Seq<char>| #![trigger bound_to(r, n)] bound_to(r, n) == if mentions(t, n) {
        bound_to(s, n)
    } else {
        None
    } by {
        matching_binds_what_is_mentioned(t, substituted(t, s), seq![], n);
        assert(bound_to(Seq::<(Seq<char>, SRepr)>::empty(), n) is None);
        if mentions(t, n) {
            lemma_mentioned_is_bound(t, r, s, n);
        }
    }
}

/// What type variables stand for.
pub struct Subst {
    pub binds: Vec<(String, Repr)>,
}

impl View for Subst {
    type V = SSubst;

    open spec fn view(&self) -> SSubst {
        named_reprs_sem(self.binds@)
    }
}

impl Subst {
    pub fn new() -> (r: Subst)
        ensures
            r@ == Seq::<(Seq<char>, SRepr)>::empty(),
    {
        let r = Subst { binds: Vec::new() };
        assert(r@ =~= seq![]);
        r
    }

    pub fn copy(&self) -> (r: Subst)
        ensures
            r@ == self@,
    {
        let mut binds: Vec<(String, Repr)> = Vec::new();
        let mut i: usize = 0;
        while i < self.binds.len()
            invariant
                i <= self.binds.len(),
                binds.len() == i,
                forall|k: int|
                    0 <= k < i ==> (#[trigger] binds[k]).0@ == self.binds[k].0@ && binds[k].1.sem()
                        == self.binds[k].1.sem(),
            decreases self.binds.len() - i,
        {
            binds.push((self.binds[i].0.clone(), self.binds[i].1.clone()));
            i += 1;
        }
        let r = Subst { binds };
        assert(r@ =~= self@);
        r
    }

    pub fn is_empty(&self) -> (r: bool)
        ensures
            r == (self@.len() == 0),
    {
        self.binds.len() == 0
    }

    /// What a variable stands for.
    pub fn get(&self, name: &str) -> (r: Option<Repr>)
        ensures
            r.sem() == bound_to(self@, name@),
    {
        let ghost s = self@;
        let mut k: usize = 0;
        while k < self.binds.len()
            invariant
                k <= self.binds.len(),
                s == self@,
                bound_to(s, name@) == bound_from(s, name@, k as int),
            decreases self.binds.len() - k,
        {
            assert(s[k as int] == (self.binds[k as int].0@, self.binds[k as int].1.sem()));
            if str_eq(self.binds[k].0.as_str(), name) {
                return Some(self.binds[k].1.clone());
            }
            k += 1;
        }
        None
    }

    fn place(&self, name: &str) -> (r: usize)
        ensures
            r == place_from(self@, name@, 0),
            r <= self.binds.len(),
    {
        let ghost s = self@;
        let mut k: usize = 0;
        while k < self.binds.len()
            invariant
                k <= self.binds.len(),
                s == self@,
                place_from(s, name@, 0) == place_from(s, name@, k as int),
            decreases self.binds.len() - k,
        {
            assert(s[k as int].0 == self.binds[k as int].0@);
            if !comes_before(self.binds[k].0.as_str(), name) {
                return k;
            }
            k += 1;
        }
        k
    }

    fn insert(&mut self, name: &str, r: Repr)
        ensures
            final(self)@ == old(self)@.insert(
                place_from(old(self)@, name@, 0),
                (name@, r.sem()),
            ),
    {
        let k: usize = self.place(name);
        let ghost s = self@;
        self.binds.insert(k, (name.to_owned(), r));
        assert(self@ =~= s.insert(k as int, (name@, r.sem())));
    }

    /// Bind a variable, if it is not bound yet.
    pub fn bind(&mut self, name: &str, r: &Repr)
        ensures
            final(self)@ == with_new(old(self)@, name@, r.sem()),
    {
        if self.get(name).is_none() {
            self.insert(name, r.clone());
        }
    }

    /// Bind a variable, whether or not it was bound before.
    pub fn set(&mut self, name: &str, r: Repr)
        ensures
            final(self)@ == with_set(old(self)@, name@, r.sem()),
    {
        let ghost s = self@;
        let mut k: usize = 0;
        while k < self.binds.len()
            invariant
                k <= self.binds.len(),
                s == self@,
                s == old(self)@,
                index_from(s, name@, 0) == index_from(s, name@, k as int),
            decreases self.binds.len() - k,
        {
            assert(s[k as int].0 == self.binds[k as int].0@);
            if str_eq(self.binds[k].0.as_str(), name) {
                self.binds.set(k, (name.to_owned(), r));
                assert(self@ =~= s.update(k as int, (name@, r.sem())));
                return ;
            }
            k += 1;
        }
        self.insert(name, r);
    }
}

/// Replace the variables of a layout by what they stand for.
pub fn substitute_repr(r: &Repr, s: &Subst) -> (x: Repr)
    ensures
        x.sem() == substituted(r.sem(), s@),
    decreases r, 1int,
{
    match r {
        Repr::Var(n) => match s.get(n.as_str()) {
            Some(x) => x,
            None => r.clone(),
        },
        Repr::Record { name, fields } => {
            let n = match name {
                Some(x) => Some(x.clone()),
                None => None,
            };
            assert(opt_name_of(n) == opt_name_of(*name));
            let fs = substitute_fields(fields, s);
            Repr::Record { name: n, fields: fs }
        },
        Repr::Tuple(rs) => Repr::Tuple(substitute_all(rs, s)),
        Repr::Union(rs) => normalize_union(substitute_all(rs, s)),
        Repr::List(e) => Repr::List(Box::new(substitute_repr(e, s))),
        Repr::Runtime { nominal, c_type, args } => Repr::Runtime {
            nominal: nominal.clone(),
            c_type: c_type.clone(),
            args: substitute_all(args, s),
        },
        Repr::Nullable(e) => Repr::Nullable(Box::new(substitute_repr(e, s))),
        Repr::Mapping(k, v) => Repr::Mapping(
            Box::new(substitute_repr(k, s)),
            Box::new(substitute_repr(v, s)),
        ),
        Repr::Closure { params, throws, ret } => Repr::Closure {
            params: substitute_all(params, s),
            throws: Box::new(substitute_repr(throws, s)),
            ret: Box::new(substitute_repr(ret, s)),
        },
        _ => r.clone(),
    }
}

fn substitute_all(rs: &Vec<Repr>, s: &Subst) -> (x: Vec<Repr>)
    ensures
        reprs_sem(x@) == all_substituted(reprs_sem(rs@), s@),
    decreases rs, 0int,
{
    let mut x: Vec<Repr> = Vec::new();
    let mut i: usize = 0;
    while i < rs.len()
        invariant
            i <= rs.len(),
            x.len() == i,
            forall|k: int|
                0 <= k < i ==> (#[trigger] x[k]).sem() == substituted(rs[k].sem(), s@),
        decreases rs.len() - i,
    {
        x.push(substitute_repr(&rs[i], s));
        i += 1;
    }
    assert(reprs_sem(x@) =~= all_substituted(reprs_sem(rs@), s@));
    x
}

fn substitute_fields(fs: &Vec<(String, Repr)>, s: &Subst) -> (x: Vec<(String, Repr)>)
    ensures
        named_reprs_sem(x@) == substituted_fields(named_reprs_sem(fs@), s@),
    decreases fs, 0int,
{
    let mut x: Vec<(String, Repr)> = Vec::new();
    let mut i: usize = 0;
    while i < fs.len()
        invariant
            i <= fs.len(),
            x.len() == i,
            forall|k: int|
                0 <= k < i ==> (#[trigger] x[k]).0@ == fs[k].0@ && x[k].1.sem() == substituted(
                    fs[k].1.sem(),
                    s@,
                ),
        decreases fs.len() - i,
    {
        x.push((fs[i].0.clone(), substitute_repr(&fs[i].1, s)));
        i += 1;
    }
    assert(named_reprs_sem(x@) =~= substituted_fields(named_reprs_sem(fs@), s@));
    x
}

/// Bind the variables of a template to what they match in a layout.
pub fn match_repr(t: &Repr, c: &Repr, s: &mut Subst)
    ensures
        final(s)@ == matched(t.sem(), c.sem(), old(s)@),
    decreases t, 1int,
{
    match (t, c) {
        (Repr::Var(n), _) => s.bind(n.as_str(), c),
        (Repr::List(a), Repr::List(b)) => match_repr(a, b, s),
        (Repr::Nullable(a), Repr::Nullable(b)) => match_repr(a, b, s),
        (
            Repr::Runtime { nominal: an, c_type: ac, args: aa },
            Repr::Runtime { nominal: bn, c_type: bc, args: ba },
        ) => if str_eq(an.as_str(), bn.as_str()) && str_eq(ac.as_str(), bc.as_str()) {
            match_all(aa, ba, s);
        },
        (Repr::Mapping(ak, av), Repr::Mapping(bk, bv)) => {
            match_repr(ak, bk, s);
            match_repr(av, bv, s);
        },
        (Repr::Record { fields: a, .. }, Repr::Record { fields: b, .. }) => match_fields(a, b, s),
        (Repr::Tuple(a), Repr::Tuple(b)) => match_all(a, b, s),
        (Repr::Union(a), Repr::Union(b)) => match_all(a, b, s),
        (Repr::Nullable(a), _) => match_repr(a, c, s),
        (Repr::Union(a), _) => match_variants(a, c, s),
        (
            Repr::Closure { params: ap, throws: at, ret: ar },
            Repr::Closure { params: bp, throws: bt, ret: br },
        ) => {
            match_all(ap, bp, s);
            match_repr(at, bt, s);
            match_repr(ar, br, s);
        },
        _ => {},
    }
}

fn match_all(a: &Vec<Repr>, b: &Vec<Repr>, s: &mut Subst)
    ensures
        final(s)@ == all_matched(reprs_sem(a@), reprs_sem(b@), a@.len() as int, old(s)@),
    decreases a, 0int,
{
    let ghost s0 = s@;
    let ghost (x, y) = (reprs_sem(a@), reprs_sem(b@));
    let mut k: usize = 0;
    while k < a.len()
        invariant
            k <= a.len(),
            x == reprs_sem(a@),
            y == reprs_sem(b@),
            s@ == all_matched(x, y, k as int, s0),
        decreases a.len() - k,
    {
        assert(x[k as int] == a[k as int].sem());
        if k < b.len() {
            assert(y[k as int] == b[k as int].sem());
            match_repr(&a[k], &b[k], s);
        }
        k += 1;
    }
}

fn match_fields(a: &Vec<(String, Repr)>, b: &Vec<(String, Repr)>, s: &mut Subst)
    ensures
        final(s)@ == fields_matched(
            named_reprs_sem(a@),
            named_reprs_sem(b@),
            a@.len() as int,
            old(s)@,
        ),
    decreases a, 0int,
{
    let ghost s0 = s@;
    let ghost (x, y) = (named_reprs_sem(a@), named_reprs_sem(b@));
    let mut k: usize = 0;
    while k < a.len()
        invariant
            k <= a.len(),
            x == named_reprs_sem(a@),
            y == named_reprs_sem(b@),
            s@ == fields_matched(x, y, k as int, s0),
        decreases a.len() - k,
    {
        assert(x[k as int].1 == a[k as int].1.sem());
        if k < b.len() {
            assert(y[k as int].1 == b[k as int].1.sem());
            match_repr(&a[k].1, &b[k].1, s);
        }
        k += 1;
    }
}

fn match_variants(a: &Vec<Repr>, c: &Repr, s: &mut Subst)
    ensures
        final(s)@ == variants_matched(reprs_sem(a@), c.sem(), a@.len() as int, old(s)@),
{
    let ghost s0 = s@;
    let ghost x = reprs_sem(a@);
    let mut k: usize = 0;
    while k < a.len()
        invariant
            k <= a.len(),
            x == reprs_sem(a@),
            s@ == variants_matched(x, c.sem(), k as int, s0),
        decreases a.len() - k,
    {
        assert(x[k as int] == a[k as int].sem());
        if let Repr::Var(n) = &a[k] {
            s.bind(n.as_str(), c);
        }
        k += 1;
    }
}

/// The last name of a path.
pub fn last_of(path: &Vec<String>) -> (r: String)
    ensures
        r@ == last_name(names_of(path@)),
{
    if path.len() == 0 {
        let r = String::new();
        assert(r@ =~= seq![]);
        r
    } else {
        assert(names_of(path@).last() == path[path.len() - 1]@);
        path[path.len() - 1].clone()
    }
}

} // verus!
