//! Expressions as text, for the message of an assertion that fails.
//!
//! The text reads like what was written, on one line. Forms that no assertion is made of
//! stand as a placeholder.

use crate::ast::{Elem, Expr, ExprKind, StrPart, UnOp};
use crate::ops::{prec_of, text_of};
use crate::syntax::{
    lemma_elems_of, lemma_exprs_of, lemma_str_parts_of, sems, Node, SElem, SExpr, SExprKind,
    SStrPart,
};
use crate::text::{dec, join, join_all, push_dec};
use vstd::prelude::*;

verus! {

pub open spec fn prefix_text(op: UnOp) -> Seq<char> {
    match op {
        UnOp::Neg => "-"@,
        UnOp::Not => "not "@,
        UnOp::Bnot => "bnot "@,
    }
}

/// An expression as text.
pub open spec fn described(e: SExpr) -> Seq<char>
    decreases e, 2int,
{
    match e.kind {
        SExprKind::Int(n) => dec(n as nat),
        SExprKind::Float(s) => s,
        SExprKind::Bool(b) => if b {
            "true"@
        } else {
            "false"@
        },
        SExprKind::Null => "null"@,
        SExprKind::Rune(c) => seq!['\'', c, '\''],
        SExprKind::Atom(a) => ":"@ + a,
        SExprKind::Path(p) => join_all(p, "::"@),
        SExprKind::Str(parts) => "\""@ + parts_described(parts, parts.len() as int) + "\""@,
        SExprKind::Unary { op, rhs } => prefix_text(op) + described_operand(*rhs),
        SExprKind::Binary { op, lhs, rhs } => described_at(*lhs, prec_of(op)) + " "@ + text_of(op)
            + " "@ + described_at(*rhs, (prec_of(op) + 1) as u8),
        SExprKind::Call { callee, args, .. } => described_sub(*callee) + "("@ + all_described(
            args,
            args.len() as int,
        ) + ")"@,
        SExprKind::Index { base, index } => described_sub(*base) + "["@ + described(*index) + "]"@,
        SExprKind::Field { base, name } => described_sub(*base) + "."@ + name,
        SExprKind::Tuple(es) => "("@ + all_described(es, es.len() as int) + ")"@,
        SExprKind::List(es) => "["@ + elems_described(es, es.len() as int) + "]"@,
        SExprKind::Is { lhs, .. } => described_sub(*lhs) + " is _"@,
        SExprKind::As { lhs, .. } => described_sub(*lhs) + " as _"@,
        _ => "<expr>"@,
    }
}

/// The operand of a prefix operator, in brackets if an operator between two operands makes
/// it: a prefix operator binds more tightly than all of those.
pub open spec fn described_operand(e: SExpr) -> Seq<char>
    decreases e, 3int,
{
    if e.kind is Binary {
        "("@ + described(e) + ")"@
    } else {
        described(e)
    }
}

/// An operand, in brackets if it binds less tightly than `min_prec`. Operators group to the
/// left, so a right operand on the level of its operator needs brackets too.
pub open spec fn described_at(e: SExpr, min_prec: u8) -> Seq<char>
    decreases e, 3int,
{
    if e.kind matches SExprKind::Binary { op, .. } && prec_of(op) < min_prec {
        "("@ + described(e) + ")"@
    } else {
        described(e)
    }
}

/// What something is taken from, in brackets if it is an operator's.
pub open spec fn described_sub(e: SExpr) -> Seq<char>
    decreases e, 3int,
{
    if e.kind is Binary || e.kind is Unary {
        "("@ + described(e) + ")"@
    } else {
        described(e)
    }
}

/// The first `k` expressions, with commas between them.
pub open spec fn all_described(es: Seq<SExpr>, k: int) -> Seq<char>
    decreases es, k,
{
    if 0 < k <= es.len() {
        if k == 1 {
            described(es[0])
        } else {
            all_described(es, k - 1) + ", "@ + described(es[k - 1])
        }
    } else {
        ""@
    }
}

pub open spec fn elem_described(e: SElem) -> Seq<char>
    decreases e, 0int,
{
    match e {
        SElem::Value(x) => described(x),
        SElem::Spread(x) => ".."@ + described(x),
    }
}

pub open spec fn elems_described(es: Seq<SElem>, k: int) -> Seq<char>
    decreases es, k,
{
    if 0 < k <= es.len() {
        if k == 1 {
            elem_described(es[0])
        } else {
            elems_described(es, k - 1) + ", "@ + elem_described(es[k - 1])
        }
    } else {
        ""@
    }
}

pub open spec fn part_described(p: SStrPart) -> Seq<char>
    decreases p, 0int,
{
    match p {
        SStrPart::Text(t) => t,
        SStrPart::Interp(e) => "#{"@ + described(e) + "}"@,
    }
}

pub open spec fn parts_described(ps: Seq<SStrPart>, k: int) -> Seq<char>
    decreases ps, k,
{
    if 0 < k <= ps.len() {
        parts_described(ps, k - 1) + part_described(ps[k - 1])
    } else {
        ""@
    }
}

// ---- computing it ----

fn bracketed(e: &Expr) -> (r: String)
    ensures
        r@ == "("@ + described(e.sem()) + ")"@,
    decreases e, 3int,
{
    let mut r = "(".to_owned();
    let inner = describe(e);
    r.append(inner.as_str());
    r.append(")");
    r
}

fn describe_at(e: &Expr, min_prec: u8) -> (r: String)
    ensures
        r@ == described_at(e.sem(), min_prec),
    decreases e, 4int,
{
    let looser = match &e.kind {
        ExprKind::Binary { op, .. } => (*op).prec() < min_prec,
        _ => false,
    };
    if looser {
        bracketed(e)
    } else {
        describe(e)
    }
}

fn describe_operand(e: &Expr) -> (r: String)
    ensures
        r@ == described_operand(e.sem()),
    decreases e, 4int,
{
    match &e.kind {
        ExprKind::Binary { .. } => bracketed(e),
        _ => describe(e),
    }
}

fn describe_sub(e: &Expr) -> (r: String)
    ensures
        r@ == described_sub(e.sem()),
    decreases e, 4int,
{
    match &e.kind {
        ExprKind::Binary { .. } | ExprKind::Unary { .. } => bracketed(e),
        _ => describe(e),
    }
}

fn describe_all(es: &Vec<Expr>) -> (r: String)
    ensures
        r@ == all_described(sems(es@), es@.len() as int),
    decreases es, 0int,
{
    if es.len() == 0 {
        return "".to_owned();
    }
    let ghost ss = sems(es@);
    assert(ss[0] == es[0].sem());
    let mut r = describe(&es[0]);
    let mut k: usize = 1;
    while k < es.len()
        invariant
            1 <= k <= es.len(),
            ss == sems(es@),
            r@ == all_described(ss, k as int),
        decreases es.len() - k,
    {
        assert(ss[k as int] == es[k as int].sem());
        r.append(", ");
        let x = describe(&es[k]);
        r.append(x.as_str());
        k += 1;
    }
    r
}

fn describe_elem(e: &Elem) -> (r: String)
    ensures
        r@ == elem_described(e.sem()),
    decreases e, 5int,
{
    match e {
        Elem::Value(x) => describe(x),
        Elem::Spread(x) => {
            let mut r = "..".to_owned();
            let t = describe(x);
            r.append(t.as_str());
            r
        },
    }
}

fn describe_elems(es: &Vec<Elem>) -> (r: String)
    ensures
        r@ == elems_described(sems(es@), es@.len() as int),
    decreases es, 0int,
{
    if es.len() == 0 {
        return "".to_owned();
    }
    let ghost ss = sems(es@);
    assert(ss[0] == es[0].sem());
    let mut r = describe_elem(&es[0]);
    let mut k: usize = 1;
    while k < es.len()
        invariant
            1 <= k <= es.len(),
            ss == sems(es@),
            r@ == elems_described(ss, k as int),
        decreases es.len() - k,
    {
        assert(ss[k as int] == es[k as int].sem());
        r.append(", ");
        let x = describe_elem(&es[k]);
        r.append(x.as_str());
        k += 1;
    }
    r
}

fn describe_part(p: &StrPart) -> (r: String)
    ensures
        r@ == part_described(p.sem()),
    decreases p, 5int,
{
    match p {
        StrPart::Text(t) => t.clone(),
        StrPart::Interp(e) => {
            let mut r = "#{".to_owned();
            let t = describe(e);
            r.append(t.as_str());
            r.append("}");
            r
        },
    }
}

fn describe_parts(ps: &Vec<StrPart>) -> (r: String)
    ensures
        r@ == parts_described(sems(ps@), ps@.len() as int),
    decreases ps, 0int,
{
    let ghost ss = sems(ps@);
    let mut r = "".to_owned();
    let mut k: usize = 0;
    while k < ps.len()
        invariant
            k <= ps.len(),
            ss == sems(ps@),
            r@ == parts_described(ss, k as int),
        decreases ps.len() - k,
    {
        assert(ss[k as int] == ps[k as int].sem());
        let x = describe_part(&ps[k]);
        r.append(x.as_str());
        k += 1;
    }
    r
}

/// An expression as text.
pub fn describe(e: &Expr) -> (r: String)
    ensures
        r@ == described(e.sem()),
    decreases e, 2int,
{
    match &e.kind {
        ExprKind::Str(_)
        | ExprKind::Call { .. }
        | ExprKind::Tuple(_)
        | ExprKind::List(_) => describe_long(e),
        ExprKind::Unary { .. }
        | ExprKind::Binary { .. }
        | ExprKind::Index { .. }
        | ExprKind::Field { .. }
        | ExprKind::Is { .. }
        | ExprKind::As { .. } => describe_operation(e),
        _ => describe_leaf(e),
    }
}

fn describe_leaf(e: &Expr) -> (r: String)
    requires
        !(e.kind is Str),
        !(e.kind is Call),
        !(e.kind is Tuple),
        !(e.kind is List),
        !(e.kind is Unary),
        !(e.kind is Binary),
        !(e.kind is Index),
        !(e.kind is Field),
        !(e.kind is Is),
        !(e.kind is As),
    ensures
        r@ == described(e.sem()),
{
    match &e.kind {
        ExprKind::Int(n) => {
            let mut r = String::new();
            push_dec(&mut r, *n);
            assert(r@ =~= dec(*n as nat));
            r
        },
        ExprKind::Float(s) => s.clone(),
        ExprKind::Bool(b) => if *b {
            "true".to_owned()
        } else {
            "false".to_owned()
        },
        ExprKind::Null => "null".to_owned(),
        ExprKind::Rune(c) => {
            let mut r = String::new();
            r.push('\'');
            r.push(*c);
            r.push('\'');
            assert(r@ =~= seq!['\'', *c, '\'']);
            r
        },
        ExprKind::Atom(a) => {
            let mut r = ":".to_owned();
            r.append(a.as_str());
            r
        },
        ExprKind::Path(p) => join(p, "::"),
        _ => "<expr>".to_owned(),
    }
}

fn describe_operation(e: &Expr) -> (r: String)
    requires
        e.kind is Unary || e.kind is Binary || e.kind is Index || e.kind is Field || e.kind is Is
            || e.kind is As,
    ensures
        r@ == described(e.sem()),
    decreases e, 1int,
{
    match &e.kind {
        ExprKind::Unary { op, rhs } => {
            let mut r = match op {
                UnOp::Neg => "-".to_owned(),
                UnOp::Not => "not ".to_owned(),
                UnOp::Bnot => "bnot ".to_owned(),
            };
            let x = describe_operand(rhs);
            r.append(x.as_str());
            r
        },
        ExprKind::Binary { op, lhs, rhs } => {
            let mut r = describe_at(lhs, (*op).prec());
            r.append(" ");
            r.append((*op).text());
            r.append(" ");
            let x = describe_at(rhs, (*op).prec() + 1);
            r.append(x.as_str());
            r
        },
        ExprKind::Index { base, index } => {
            let mut r = describe_sub(base);
            r.append("[");
            let x = describe(index);
            r.append(x.as_str());
            r.append("]");
            r
        },
        ExprKind::Field { base, name } => {
            let mut r = describe_sub(base);
            r.append(".");
            r.append(name.as_str());
            r
        },
        ExprKind::Is { lhs, .. } => {
            let mut r = describe_sub(lhs);
            r.append(" is _");
            r
        },
        ExprKind::As { lhs, .. } => {
            let mut r = describe_sub(lhs);
            r.append(" as _");
            r
        },
        _ => "<expr>".to_owned(),
    }
}

fn describe_long(e: &Expr) -> (r: String)
    requires
        e.kind is Str || e.kind is Call || e.kind is Tuple || e.kind is List,
    ensures
        r@ == described(e.sem()),
    decreases e, 1int,
{
    match &e.kind {
        ExprKind::Str(parts) => {
            proof {
                lemma_str_parts_of(parts@);
            }
            let mut r = "\"".to_owned();
            let x = describe_parts(parts);
            r.append(x.as_str());
            r.append("\"");
            r
        },
        ExprKind::Call { callee, args, .. } => {
            proof {
                lemma_exprs_of(args@);
            }
            let mut r = describe_sub(callee);
            r.append("(");
            let x = describe_all(args);
            r.append(x.as_str());
            r.append(")");
            r
        },
        ExprKind::Tuple(es) => {
            proof {
                lemma_exprs_of(es@);
            }
            let mut r = "(".to_owned();
            let x = describe_all(es);
            r.append(x.as_str());
            r.append(")");
            r
        },
        ExprKind::List(es) => {
            proof {
                lemma_elems_of(es@);
            }
            let mut r = "[".to_owned();
            let x = describe_elems(es);
            r.append(x.as_str());
            r.append("]");
            r
        },
        _ => "<expr>".to_owned(),
    }
}

} // verus!
