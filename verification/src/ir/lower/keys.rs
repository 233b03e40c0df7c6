//! What the names of instances keep apart.

use super::super::repr::SRepr;
use super::names::{
    bind_keys, field_key, field_keys, keys, mangled_instance, name_key, repr_key,
};
use super::subst::SSubst;
use crate::text::{dec, digit_char};
use vstd::prelude::*;

verus! {

// ---- numbers and names ----

pub open spec fn is_digit_char(c: char) -> bool {
    '0' <= c <= '9'
}

pub proof fn lemma_dec_digits(n: nat)
    ensures
        dec(n).len() >= 1,
        n < 10 <==> dec(n).len() == 1,
        forall|i: int| 0 <= i < dec(n).len() ==> is_digit_char(#[trigger] dec(n)[i]),
    decreases n,
{
    if n >= 10 {
        lemma_dec_digits(n / 10);
        let d = dec(n / 10);
        assert forall|i: int| 0 <= i < dec(n).len() implies is_digit_char(#[trigger] dec(n)[i]) by {
            if i < d.len() {
                assert(dec(n)[i] == d[i]);
            }
        }
    }
}

proof fn lemma_digit(d: int)
    requires
        0 <= d < 10,
    ensures
        digit_char(d) as u32 == 48 + d,
{
}

pub proof fn lemma_dec_apart(m: nat, n: nat)
    requires
        dec(m) == dec(n),
    ensures
        m == n,
    decreases m,
{
    lemma_dec_digits(m);
    lemma_dec_digits(n);
    lemma_digit((m % 10) as int);
    lemma_digit((n % 10) as int);
    if m < 10 {
        assert(dec(m)[0] == digit_char(m as int));
        assert(dec(n)[0] == digit_char(n as int));
    } else {
        assert(dec(m).drop_last() =~= dec(m / 10));
        assert(dec(n).drop_last() =~= dec(n / 10));
        lemma_dec_apart(m / 10, n / 10);
        assert(dec(m).last() == digit_char((m % 10) as int));
        assert(dec(n).last() == digit_char((n % 10) as int));
    }
}

/// What follows a number that something other than a digit ends.
proof fn lemma_dec_ends(m: nat, n: nat, x: Seq<char>, y: Seq<char>)
    requires
        dec(m) + x == dec(n) + y,
        x.len() > 0,
        y.len() > 0,
        !is_digit_char(x[0]),
        !is_digit_char(y[0]),
    ensures
        m == n,
        x == y,
{
    lemma_dec_digits(m);
    lemma_dec_digits(n);
    let (a, b) = (dec(m), dec(n));
    assert((a + x)[a.len() as int] == x[0]);
    assert((b + y)[b.len() as int] == y[0]);
    if a.len() < b.len() {
        assert((b + y)[a.len() as int] == b[a.len() as int]);
    } else if b.len() < a.len() {
        assert((a + x)[b.len() as int] == a[b.len() as int]);
    } else {
        lemma_same_len(a, b, x, y);
        lemma_dec_apart(m, n);
    }
}

proof fn lemma_same_len(a: Seq<char>, b: Seq<char>, x: Seq<char>, y: Seq<char>)
    requires
        a + x == b + y,
        a.len() == b.len(),
    ensures
        a == b,
        x == y,
{
    assert(a =~= (a + x).take(a.len() as int));
    assert(b =~= (b + y).take(a.len() as int));
    assert(x =~= (a + x).skip(a.len() as int));
    assert(y =~= (b + y).skip(a.len() as int));
}

proof fn lemma_name_ends(a: Seq<char>, b: Seq<char>, x: Seq<char>, y: Seq<char>)
    requires
        name_key(a) + x == name_key(b) + y,
    ensures
        a == b,
        x == y,
{
    reveal_strlit(":");
    let (p, q) = (":"@ + (a + x), ":"@ + (b + y));
    assert(name_key(a) + x =~= dec(a.len()) + p);
    assert(name_key(b) + y =~= dec(b.len()) + q);
    lemma_dec_ends(a.len(), b.len(), p, q);
    lemma_same_len(":"@, ":"@, a + x, b + y);
    lemma_same_len(a, b, x, y);
}

// ---- layouts ----

/// Which kind of layout a key begins with.
spec fn kind(s: Seq<char>) -> int {
    if s[0] == 'i' {
        1
    } else if s[0] == 'f' {
        if s[1] == '6' {
            2
        } else {
            3
        }
    } else if s[0] == 'b' {
        if s[2] == 'o' {
            4
        } else {
            5
        }
    } else if s[0] == 's' {
        6
    } else if s[0] == 'n' {
        if s[1] == 'u' {
            7
        } else {
            8
        }
    } else if s[0] == 'u' {
        if s[3] == 't' {
            9
        } else {
            10
        }
    } else if s[0] == 't' {
        if s[1] == 'a' {
            11
        } else {
            12
        }
    } else if s[0] == 'r' {
        if s[1] == 'e' {
            13
        } else {
            14
        }
    } else if s[0] == 'l' {
        15
    } else if s[0] == 'm' {
        if s[1] == 'a' {
            16
        } else {
            17
        }
    } else if s[0] == 'o' {
        18
    } else if s[0] == 'v' {
        19
    } else if s[0] == 'a' {
        20
    } else if is_digit_char(s[0]) {
        21
    } else {
        0
    }
}

spec fn kind_of(r: SRepr) -> int {
    match r {
        SRepr::I64 => 1,
        SRepr::F64 => 2,
        SRepr::Closure { .. } => 3,
        SRepr::Bool => 4,
        SRepr::BoxedRec(_) => 5,
        SRepr::Str => 6,
        SRepr::Null => 7,
        SRepr::Never => 8,
        SRepr::Unit => 9,
        SRepr::Union(_) => 10,
        SRepr::Tag => 11,
        SRepr::Tuple(_) => 12,
        SRepr::Record { name: None, .. } => 13,
        SRepr::Runtime { .. } => 14,
        SRepr::List(_) => 15,
        SRepr::Mapping(_, _) => 16,
        SRepr::Recursive(_) => 17,
        SRepr::Nullable(_) => 18,
        SRepr::Var(_) => 19,
        SRepr::Any => 20,
        SRepr::Record { name: Some(_), .. } => 21,
    }
}

proof fn lemma_kind(r: SRepr, x: Seq<char>)
    ensures
        kind(repr_key(r) + x) == kind_of(r),
        repr_key(r).len() > 0,
{
    reveal_strlit("i64");
    reveal_strlit("f64");
    reveal_strlit("fn[[");
    reveal_strlit("bool");
    reveal_strlit("box[");
    reveal_strlit("str");
    reveal_strlit("null");
    reveal_strlit("never");
    reveal_strlit("unit");
    reveal_strlit("union[");
    reveal_strlit("tag");
    reveal_strlit("tup[");
    reveal_strlit("rec{");
    reveal_strlit("rt[");
    reveal_strlit("list[");
    reveal_strlit("map[");
    reveal_strlit("mu[");
    reveal_strlit("opt[");
    reveal_strlit("var[");
    reveal_strlit("any");
    if let SRepr::Record { name: Some(n), .. } = r {
        lemma_dec_digits(n.len());
        assert((repr_key(r) + x)[0] == dec(n.len())[0]);
    }
}

proof fn lemma_head_ends(head: Seq<char>, p: Seq<char>, q: Seq<char>, x: Seq<char>, y: Seq<char>)
    requires
        (head + p) + x == (head + q) + y,
    ensures
        p + x == q + y,
{
    assert((head + p) + x =~= head + (p + x));
    assert((head + q) + y =~= head + (q + y));
    lemma_same_len(head, head, p + x, q + y);
}

proof fn lemma_regroup(a: Seq<char>, b: Seq<char>, x: Seq<char>)
    ensures
        (a + b) + x == a + (b + x),
{
    assert((a + b) + x =~= a + (b + x));
}

/// A key that begins as another does is that key.
proof fn lemma_key_ends(a: SRepr, b: SRepr, x: Seq<char>, y: Seq<char>)
    requires
        repr_key(a) + x == repr_key(b) + y,
    ensures
        a == b,
        x == y,
    decreases a, 0int,
{
    lemma_kind(a, x);
    lemma_kind(b, y);
    match a {
        SRepr::Runtime { nominal: n, c_type: c, args: rs } => if let SRepr::Runtime {
            nominal: m,
            c_type: d,
            args: ts,
        } = b {
            lemma_runtime_ends(n, m, c, d, keys(rs, 0), keys(ts, 0), x, y);
            lemma_keys_end(rs, ts, 0, x, y);
            assert(rs =~= ts);
        },
        SRepr::Record { name: Some(n), fields: fs } => if let SRepr::Record {
            name: Some(m),
            fields: gs,
        } = b {
            lemma_record_ends(n, m, field_keys(fs, 0), field_keys(gs, 0), x, y);
            lemma_field_keys_end(fs, gs, 0, x, y);
            assert(fs =~= gs);
        },
        SRepr::Record { name: None, fields: fs } => if let SRepr::Record { fields: gs, .. } = b {
            lemma_head_ends("rec{"@, field_keys(fs, 0), field_keys(gs, 0), x, y);
            lemma_field_keys_end(fs, gs, 0, x, y);
            assert(fs =~= gs);
        },
        SRepr::List(e) => if let SRepr::List(g) = b {
            lemma_inner_ends("list["@, repr_key(*e), repr_key(*g), x, y);
            lemma_key_ends(*e, *g, "]"@ + x, "]"@ + y);
            lemma_same_len("]"@, "]"@, x, y);
        },
        SRepr::Nullable(e) => if let SRepr::Nullable(g) = b {
            lemma_inner_ends("opt["@, repr_key(*e), repr_key(*g), x, y);
            lemma_key_ends(*e, *g, "]"@ + x, "]"@ + y);
            lemma_same_len("]"@, "]"@, x, y);
        },
        SRepr::Mapping(k, v) => if let SRepr::Mapping(l, w) = b {
            let (p, q) = (","@ + (repr_key(*v) + "]"@), ","@ + (repr_key(*w) + "]"@));
            lemma_two_end("map["@, repr_key(*k), repr_key(*l), p, q, x, y);
            lemma_key_ends(*k, *l, p + x, q + y);
            lemma_inner_ends(","@, repr_key(*v), repr_key(*w), x, y);
            lemma_key_ends(*v, *w, "]"@ + x, "]"@ + y);
            lemma_same_len("]"@, "]"@, x, y);
        },
        SRepr::Tuple(rs) => if let SRepr::Tuple(ts) = b {
            lemma_head_ends("tup["@, keys(rs, 0), keys(ts, 0), x, y);
            lemma_keys_end(rs, ts, 0, x, y);
            assert(rs =~= ts);
        },
        SRepr::Union(rs) => if let SRepr::Union(ts) = b {
            lemma_head_ends("union["@, keys(rs, 0), keys(ts, 0), x, y);
            lemma_keys_end(rs, ts, 0, x, y);
            assert(rs =~= ts);
        },
        SRepr::Closure { params: rs, throws: t, ret: v } => if let SRepr::Closure {
            params: ts,
            throws: u,
            ret: w,
        } = b {
            let (p, q) = (","@ + (repr_key(*v) + "]"@), ","@ + (repr_key(*w) + "]"@));
            let (g, h) = (repr_key(*t) + p, repr_key(*u) + q);
            lemma_two_end("fn[["@, keys(rs, 0), keys(ts, 0), g, h, x, y);
            lemma_keys_end(rs, ts, 0, g + x, h + y);
            assert(rs =~= ts);
            lemma_regroup(repr_key(*t), p, x);
            lemma_regroup(repr_key(*u), q, y);
            lemma_key_ends(*t, *u, p + x, q + y);
            lemma_inner_ends(","@, repr_key(*v), repr_key(*w), x, y);
            lemma_key_ends(*v, *w, "]"@ + x, "]"@ + y);
            lemma_same_len("]"@, "]"@, x, y);
        },
        SRepr::Var(n) => if let SRepr::Var(m) = b {
            lemma_inner_ends("var["@, name_key(n), name_key(m), x, y);
            lemma_name_ends(n, m, "]"@ + x, "]"@ + y);
            lemma_same_len("]"@, "]"@, x, y);
        },
        SRepr::Recursive(n) => if let SRepr::Recursive(m) = b {
            lemma_number_ends("mu["@, n.0 as nat, m.0 as nat, x, y);
        },
        SRepr::BoxedRec(n) => if let SRepr::BoxedRec(m) = b {
            lemma_number_ends("box["@, n as nat, m as nat, x, y);
        },
        _ => {
            assert(a == b);
            lemma_same_len(repr_key(a), repr_key(b), x, y);
        },
    }
}

proof fn lemma_runtime_ends(
    n: Seq<char>,
    m: Seq<char>,
    c: Seq<char>,
    d: Seq<char>,
    p: Seq<char>,
    q: Seq<char>,
    x: Seq<char>,
    y: Seq<char>,
)
    requires
        ("rt["@ + (name_key(n) + (name_key(c) + p))) + x == ("rt["@ + (name_key(m) + (name_key(d)
            + q))) + y,
    ensures
        n == m,
        c == d,
        p + x == q + y,
{
    let (f, g) = (name_key(c) + p, name_key(d) + q);
    lemma_two_end("rt["@, name_key(n), name_key(m), f, g, x, y);
    lemma_name_ends(n, m, f + x, g + y);
    lemma_regroup(name_key(c), p, x);
    lemma_regroup(name_key(d), q, y);
    lemma_name_ends(c, d, p + x, q + y);
}

proof fn lemma_record_ends(
    n: Seq<char>,
    m: Seq<char>,
    p: Seq<char>,
    q: Seq<char>,
    x: Seq<char>,
    y: Seq<char>,
)
    requires
        (name_key(n) + ("{"@ + p)) + x == (name_key(m) + ("{"@ + q)) + y,
    ensures
        n == m,
        p + x == q + y,
{
    lemma_regroup(name_key(n), "{"@ + p, x);
    lemma_regroup(name_key(m), "{"@ + q, y);
    lemma_name_ends(n, m, ("{"@ + p) + x, ("{"@ + q) + y);
    lemma_head_ends("{"@, p, q, x, y);
}

proof fn lemma_two_end(
    head: Seq<char>,
    a: Seq<char>,
    b: Seq<char>,
    p: Seq<char>,
    q: Seq<char>,
    x: Seq<char>,
    y: Seq<char>,
)
    requires
        (head + (a + p)) + x == (head + (b + q)) + y,
    ensures
        a + (p + x) == b + (q + y),
{
    lemma_head_ends(head, a + p, b + q, x, y);
    lemma_regroup(a, p, x);
    lemma_regroup(b, q, y);
}

proof fn lemma_inner_ends(head: Seq<char>, e: Seq<char>, g: Seq<char>, x: Seq<char>, y: Seq<char>)
    requires
        (head + (e + "]"@)) + x == (head + (g + "]"@)) + y,
    ensures
        e + ("]"@ + x) == g + ("]"@ + y),
{
    lemma_two_end(head, e, g, "]"@, "]"@, x, y);
}

proof fn lemma_number_ends(head: Seq<char>, n: nat, m: nat, x: Seq<char>, y: Seq<char>)
    requires
        (head + (dec(n) + "]"@)) + x == (head + (dec(m) + "]"@)) + y,
    ensures
        n == m,
        x == y,
{
    reveal_strlit("]");
    lemma_inner_ends(head, dec(n), dec(m), x, y);
    lemma_dec_ends(n, m, "]"@ + x, "]"@ + y);
    lemma_same_len("]"@, "]"@, x, y);
}

proof fn lemma_keys_end(rs: Seq<SRepr>, ts: Seq<SRepr>, k: int, x: Seq<char>, y: Seq<char>)
    requires
        0 <= k <= rs.len(),
        k <= ts.len(),
        keys(rs, k) + x == keys(ts, k) + y,
    ensures
        rs.len() == ts.len(),
        forall|j: int| k <= j < rs.len() ==> rs[j] == ts[j],
        x == y,
    decreases rs, rs.len() - k,
{
    reveal_strlit("]");
    if k < rs.len() && k < ts.len() {
        let (p, q) = (keys(rs, k + 1) + x, keys(ts, k + 1) + y);
        assert(keys(rs, k) + x =~= repr_key(rs[k]) + (","@ + p));
        assert(keys(ts, k) + y =~= repr_key(ts[k]) + (","@ + q));
        lemma_key_ends(rs[k], ts[k], ","@ + p, ","@ + q);
        lemma_same_len(","@, ","@, p, q);
        lemma_keys_end(rs, ts, k + 1, x, y);
    } else if k < rs.len() {
        let p = ","@ + keys(rs, k + 1) + x;
        assert(keys(rs, k) + x =~= repr_key(rs[k]) + p);
        lemma_kind(rs[k], p);
        assert((keys(ts, k) + y)[0] == ']');
    } else if k < ts.len() {
        let q = ","@ + keys(ts, k + 1) + y;
        assert(keys(ts, k) + y =~= repr_key(ts[k]) + q);
        lemma_kind(ts[k], q);
        assert((keys(rs, k) + x)[0] == ']');
    } else {
        lemma_same_len("]"@, "]"@, x, y);
    }
}

proof fn lemma_field_keys_end(
    fs: Seq<(Seq<char>, SRepr)>,
    gs: Seq<(Seq<char>, SRepr)>,
    k: int,
    x: Seq<char>,
    y: Seq<char>,
)
    requires
        0 <= k <= fs.len(),
        k <= gs.len(),
        field_keys(fs, k) + x == field_keys(gs, k) + y,
    ensures
        fs.len() == gs.len(),
        forall|j: int| k <= j < fs.len() ==> fs[j] == gs[j],
        x == y,
    decreases fs, fs.len() - k,
{
    reveal_strlit("}");
    if k < fs.len() {
        assert(field_key(fs[k]) == name_key(fs[k].0) + ("="@ + repr_key(fs[k].1)));
    }
    if k < gs.len() {
        assert(field_key(gs[k]) == name_key(gs[k].0) + ("="@ + repr_key(gs[k].1)));
    }
    if k < fs.len() && k < gs.len() {
        let (f, g) = (fs[k], gs[k]);
        let (p, q) = (field_keys(fs, k + 1) + x, field_keys(gs, k + 1) + y);
        let (v, w) = (repr_key(f.1) + (","@ + p), repr_key(g.1) + (","@ + q));
        assert(field_keys(fs, k) + x =~= name_key(f.0) + ("="@ + v));
        assert(field_keys(gs, k) + y =~= name_key(g.0) + ("="@ + w));
        lemma_name_ends(f.0, g.0, "="@ + v, "="@ + w);
        lemma_same_len("="@, "="@, v, w);
        lemma_key_ends(f.1, g.1, ","@ + p, ","@ + q);
        lemma_same_len(","@, ","@, p, q);
        lemma_field_keys_end(fs, gs, k + 1, x, y);
    } else if k < fs.len() {
        lemma_dec_digits(fs[k].0.len());
        assert((field_keys(fs, k) + x)[0] == dec(fs[k].0.len())[0]);
        assert((field_keys(gs, k) + y)[0] == '}');
    } else if k < gs.len() {
        lemma_dec_digits(gs[k].0.len());
        assert((field_keys(gs, k) + y)[0] == dec(gs[k].0.len())[0]);
        assert((field_keys(fs, k) + x)[0] == '}');
    } else {
        lemma_same_len("}"@, "}"@, x, y);
    }
}

/// No two layouts have the same key.
pub proof fn keys_tell_layouts_apart(a: SRepr, b: SRepr)
    requires
        repr_key(a) == repr_key(b),
    ensures
        a == b,
{
    lemma_key_ends(a, b, Seq::empty(), Seq::empty());
}

// ---- instances ----

proof fn lemma_bind_keys_end(s: SSubst, t: SSubst, k: int, x: Seq<char>, y: Seq<char>)
    requires
        0 <= k <= s.len(),
        k <= t.len(),
        forall|j: int| k <= j < s.len() ==> (#[trigger] s[j]).0 == t[j].0,
        s.len() == t.len(),
        bind_keys(s, k) + x == bind_keys(t, k) + y,
    ensures
        forall|j: int| k <= j < s.len() ==> s[j] == t[j],
        x == y,
    decreases s.len() - k,
{
    if k >= s.len() {
        lemma_same_len(""@, ""@, x, y);
    } else if k == s.len() - 1 {
        lemma_key_ends(s[k].1, t[k].1, x, y);
    } else {
        let (p, q) = (bind_keys(s, k + 1) + x, bind_keys(t, k + 1) + y);
        assert(bind_keys(s, k) + x =~= repr_key(s[k].1) + ("$"@ + p));
        assert(bind_keys(t, k) + y =~= repr_key(t[k].1) + ("$"@ + q));
        lemma_key_ends(s[k].1, t[k].1, "$"@ + p, "$"@ + q);
        lemma_same_len("$"@, "$"@, p, q);
        lemma_bind_keys_end(s, t, k + 1, x, y);
    }
}

/// Instances of one function that have the same name have the same layouts for its
/// variables: what a name stands for is one instance.
pub proof fn names_tell_instances_apart(base: Seq<char>, s: SSubst, t: SSubst)
    requires
        s.len() == t.len(),
        forall|i: int| 0 <= i < s.len() ==> (#[trigger] s[i]).0 == t[i].0,
        mangled_instance(base, s) == mangled_instance(base, t),
    ensures
        s == t,
{
    lemma_same_len(base + "$"@, base + "$"@, bind_keys(s, 0), bind_keys(t, 0));
    assert(bind_keys(s, 0) + Seq::empty() =~= bind_keys(s, 0));
    assert(bind_keys(t, 0) + Seq::empty() =~= bind_keys(t, 0));
    lemma_bind_keys_end(s, t, 0, Seq::empty(), Seq::empty());
    assert(s =~= t);
}

} // verus!
