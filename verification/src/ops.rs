//! The precedence ladder: how tightly each binary operator binds, and how it is spelled.
//!
//! The parser builds its levels from this ladder, and whatever prints expressions decides
//! parentheses by it. Nobody holds a second copy.

use crate::ast::BinOp;
use crate::lexer::token::spelling;
use crate::lexer::Token;
use vstd::prelude::*;

verus! {

/// One binary operator: how tightly it binds, and how it is spelled.
pub struct BinOpInfo {
    pub op: BinOp,
    /// [`MIN_PREC`] is loosest. Every binary operator is left-associative.
    pub prec: u8,
    /// The source spelling. `and` and `bsl` are words, not symbols.
    pub text: &'static str,
}

/// The loosest binary level.
pub const MIN_PREC: u8 = 1;

/// The tightest binary level. Anything above this is not a binary operator.
pub const MAX_PREC: u8 = 11;

/// Every operator, loosest first. `and` binds tighter than `or`; `|>` binds tighter than
/// comparison, because a pipe is a call.
pub open spec fn ladder() -> Seq<BinOp> {
    seq![
        BinOp::Orelse,
        BinOp::Or,
        BinOp::And,
        BinOp::Eq,
        BinOp::Ne,
        BinOp::Le,
        BinOp::Ge,
        BinOp::Lt,
        BinOp::Gt,
        BinOp::Pipe,
        BinOp::Bor,
        BinOp::Bxor,
        BinOp::Band,
        BinOp::Bsl,
        BinOp::Bsr,
        BinOp::Add,
        BinOp::Sub,
        BinOp::Mul,
        BinOp::Div,
        BinOp::Rem,
    ]
}

/// How tightly an operator binds.
pub open spec fn prec_of(op: BinOp) -> u8 {
    match op {
        BinOp::Orelse => 1,
        BinOp::Or => 2,
        BinOp::And => 3,
        BinOp::Eq => 4,
        BinOp::Ne => 4,
        BinOp::Le => 4,
        BinOp::Ge => 4,
        BinOp::Lt => 4,
        BinOp::Gt => 4,
        BinOp::Pipe => 5,
        BinOp::Bor => 6,
        BinOp::Bxor => 7,
        BinOp::Band => 8,
        BinOp::Bsl => 9,
        BinOp::Bsr => 9,
        BinOp::Add => 10,
        BinOp::Sub => 10,
        BinOp::Mul => 11,
        BinOp::Div => 11,
        BinOp::Rem => 11,
    }
}

/// How an operator is spelled.
pub open spec fn text_of(op: BinOp) -> Seq<char> {
    match op {
        BinOp::Orelse => "orelse"@,
        BinOp::Or => "or"@,
        BinOp::And => "and"@,
        BinOp::Eq => "=="@,
        BinOp::Ne => "!="@,
        BinOp::Le => "<="@,
        BinOp::Ge => ">="@,
        BinOp::Lt => "<"@,
        BinOp::Gt => ">"@,
        BinOp::Pipe => "|>"@,
        BinOp::Bor => "bor"@,
        BinOp::Bxor => "bxor"@,
        BinOp::Band => "band"@,
        BinOp::Bsl => "bsl"@,
        BinOp::Bsr => "bsr"@,
        BinOp::Add => "+"@,
        BinOp::Sub => "-"@,
        BinOp::Mul => "*"@,
        BinOp::Div => "/"@,
        BinOp::Rem => "%"@,
    }
}

/// The token that spells an operator.
pub open spec fn token_of(op: BinOp) -> Token {
    match op {
        BinOp::Orelse => Token::Orelse,
        BinOp::Or => Token::Or,
        BinOp::And => Token::And,
        BinOp::Eq => Token::EqEq,
        BinOp::Ne => Token::NotEq,
        BinOp::Le => Token::LtEq,
        BinOp::Ge => Token::GtEq,
        BinOp::Lt => Token::Lt,
        BinOp::Gt => Token::Gt,
        BinOp::Pipe => Token::Pipe,
        BinOp::Bor => Token::Bor,
        BinOp::Bxor => Token::Bxor,
        BinOp::Band => Token::Band,
        BinOp::Bsl => Token::Bsl,
        BinOp::Bsr => Token::Bsr,
        BinOp::Add => Token::Plus,
        BinOp::Sub => Token::Minus,
        BinOp::Mul => Token::Star,
        BinOp::Div => Token::Slash,
        BinOp::Rem => Token::Percent,
    }
}

/// The operator that a token spells, if it spells one.
pub open spec fn op_of(t: Token) -> Option<BinOp> {
    match t {
        Token::Orelse => Some(BinOp::Orelse),
        Token::Or => Some(BinOp::Or),
        Token::And => Some(BinOp::And),
        Token::EqEq => Some(BinOp::Eq),
        Token::NotEq => Some(BinOp::Ne),
        Token::LtEq => Some(BinOp::Le),
        Token::GtEq => Some(BinOp::Ge),
        Token::Lt => Some(BinOp::Lt),
        Token::Gt => Some(BinOp::Gt),
        Token::Pipe => Some(BinOp::Pipe),
        Token::Bor => Some(BinOp::Bor),
        Token::Bxor => Some(BinOp::Bxor),
        Token::Band => Some(BinOp::Band),
        Token::Bsl => Some(BinOp::Bsl),
        Token::Bsr => Some(BinOp::Bsr),
        Token::Plus => Some(BinOp::Add),
        Token::Minus => Some(BinOp::Sub),
        Token::Star => Some(BinOp::Mul),
        Token::Slash => Some(BinOp::Div),
        Token::Percent => Some(BinOp::Rem),
        _ => None,
    }
}

/// The operators of one level, in ladder order.
pub open spec fn level_of(prec: u8) -> Seq<BinOp> {
    ladder().filter(|op: BinOp| prec_of(op) == prec)
}

/// The ladder as a table, loosest first.
pub fn binary_ops() -> (r: Vec<BinOpInfo>)
    ensures
        r.len() == ladder().len(),
        forall|i: int|
            0 <= i < r.len() ==> {
                &&& (#[trigger] r[i]).op == ladder()[i]
                &&& r[i].prec == prec_of(ladder()[i])
                &&& r[i].text@ == text_of(ladder()[i])
            },
{
    let mut r: Vec<BinOpInfo> = Vec::new();
    r.push(BinOpInfo { op: BinOp::Orelse, prec: 1, text: "orelse" });
    r.push(BinOpInfo { op: BinOp::Or, prec: 2, text: "or" });
    r.push(BinOpInfo { op: BinOp::And, prec: 3, text: "and" });
    r.push(BinOpInfo { op: BinOp::Eq, prec: 4, text: "==" });
    r.push(BinOpInfo { op: BinOp::Ne, prec: 4, text: "!=" });
    r.push(BinOpInfo { op: BinOp::Le, prec: 4, text: "<=" });
    r.push(BinOpInfo { op: BinOp::Ge, prec: 4, text: ">=" });
    r.push(BinOpInfo { op: BinOp::Lt, prec: 4, text: "<" });
    r.push(BinOpInfo { op: BinOp::Gt, prec: 4, text: ">" });
    r.push(BinOpInfo { op: BinOp::Pipe, prec: 5, text: "|>" });
    r.push(BinOpInfo { op: BinOp::Bor, prec: 6, text: "bor" });
    r.push(BinOpInfo { op: BinOp::Bxor, prec: 7, text: "bxor" });
    r.push(BinOpInfo { op: BinOp::Band, prec: 8, text: "band" });
    r.push(BinOpInfo { op: BinOp::Bsl, prec: 9, text: "bsl" });
    r.push(BinOpInfo { op: BinOp::Bsr, prec: 9, text: "bsr" });
    r.push(BinOpInfo { op: BinOp::Add, prec: 10, text: "+" });
    r.push(BinOpInfo { op: BinOp::Sub, prec: 10, text: "-" });
    r.push(BinOpInfo { op: BinOp::Mul, prec: 11, text: "*" });
    r.push(BinOpInfo { op: BinOp::Div, prec: 11, text: "/" });
    r.push(BinOpInfo { op: BinOp::Rem, prec: 11, text: "%" });
    r
}

impl BinOp {
    pub fn prec(self) -> (r: u8)
        ensures
            r == prec_of(self),
    {
        match self {
            BinOp::Orelse => 1,
            BinOp::Or => 2,
            BinOp::And => 3,
            BinOp::Eq => 4,
            BinOp::Ne => 4,
            BinOp::Le => 4,
            BinOp::Ge => 4,
            BinOp::Lt => 4,
            BinOp::Gt => 4,
            BinOp::Pipe => 5,
            BinOp::Bor => 6,
            BinOp::Bxor => 7,
            BinOp::Band => 8,
            BinOp::Bsl => 9,
            BinOp::Bsr => 9,
            BinOp::Add => 10,
            BinOp::Sub => 10,
            BinOp::Mul => 11,
            BinOp::Div => 11,
            BinOp::Rem => 11,
        }
    }

    pub fn text(self) -> (r: &'static str)
        ensures
            r@ == text_of(self),
    {
        match self {
            BinOp::Orelse => "orelse",
            BinOp::Or => "or",
            BinOp::And => "and",
            BinOp::Eq => "==",
            BinOp::Ne => "!=",
            BinOp::Le => "<=",
            BinOp::Ge => ">=",
            BinOp::Lt => "<",
            BinOp::Gt => ">",
            BinOp::Pipe => "|>",
            BinOp::Bor => "bor",
            BinOp::Bxor => "bxor",
            BinOp::Band => "band",
            BinOp::Bsl => "bsl",
            BinOp::Bsr => "bsr",
            BinOp::Add => "+",
            BinOp::Sub => "-",
            BinOp::Mul => "*",
            BinOp::Div => "/",
            BinOp::Rem => "%",
        }
    }

    /// The token that spells this operator.
    pub fn token(self) -> (r: Token)
        ensures
            r == token_of(self),
    {
        match self {
            BinOp::Orelse => Token::Orelse,
            BinOp::Or => Token::Or,
            BinOp::And => Token::And,
            BinOp::Eq => Token::EqEq,
            BinOp::Ne => Token::NotEq,
            BinOp::Le => Token::LtEq,
            BinOp::Ge => Token::GtEq,
            BinOp::Lt => Token::Lt,
            BinOp::Gt => Token::Gt,
            BinOp::Pipe => Token::Pipe,
            BinOp::Bor => Token::Bor,
            BinOp::Bxor => Token::Bxor,
            BinOp::Band => Token::Band,
            BinOp::Bsl => Token::Bsl,
            BinOp::Bsr => Token::Bsr,
            BinOp::Add => Token::Plus,
            BinOp::Sub => Token::Minus,
            BinOp::Mul => Token::Star,
            BinOp::Div => Token::Slash,
            BinOp::Rem => Token::Percent,
        }
    }

    /// The operator that a token spells, if it spells one.
    pub fn from_token(token: &Token) -> (r: Option<BinOp>)
        ensures
            r == op_of(*token),
    {
        match token {
            Token::Orelse => Some(BinOp::Orelse),
            Token::Or => Some(BinOp::Or),
            Token::And => Some(BinOp::And),
            Token::EqEq => Some(BinOp::Eq),
            Token::NotEq => Some(BinOp::Ne),
            Token::LtEq => Some(BinOp::Le),
            Token::GtEq => Some(BinOp::Ge),
            Token::Lt => Some(BinOp::Lt),
            Token::Gt => Some(BinOp::Gt),
            Token::Pipe => Some(BinOp::Pipe),
            Token::Bor => Some(BinOp::Bor),
            Token::Bxor => Some(BinOp::Bxor),
            Token::Band => Some(BinOp::Band),
            Token::Bsl => Some(BinOp::Bsl),
            Token::Bsr => Some(BinOp::Bsr),
            Token::Plus => Some(BinOp::Add),
            Token::Minus => Some(BinOp::Sub),
            Token::Star => Some(BinOp::Mul),
            Token::Slash => Some(BinOp::Div),
            Token::Percent => Some(BinOp::Rem),
            _ => None,
        }
    }
}

/// The operators sharing a single precedence level, in ladder order.
pub fn ops_at(prec: u8) -> (r: Vec<BinOp>)
    ensures
        r@ == level_of(prec),
{
    let all = binary_ops();
    let mut r: Vec<BinOp> = Vec::new();
    let mut i: usize = 0;
    let ghost keep = |op: BinOp| prec_of(op) == prec;
    assert(ladder().take(0).filter(keep) =~= seq![]) by {
        reveal(Seq::filter);
    }
    while i < all.len()
        invariant
            i <= all.len(),
            all.len() == ladder().len(),
            forall|j: int|
                0 <= j < all.len() ==> (#[trigger] all[j]).op == ladder()[j] && all[j].prec
                    == prec_of(ladder()[j]),
            keep == (|op: BinOp| prec_of(op) == prec),
            r@ == ladder().take(i as int).filter(keep),
        decreases all.len() - i,
    {
        proof {
            let longer = ladder().take(i + 1);
            assert(longer.drop_last() =~= ladder().take(i as int));
            assert(longer.last() == ladder()[i as int]);
            reveal(Seq::filter);
        }
        if all[i].prec == prec {
            r.push(all[i].op);
        }
        i += 1;
    }
    assert(ladder().take(i as int) =~= ladder());
    r
}

// ---- laws ----

/// The ladder holds every operator, each once.
pub proof fn ladder_covers_every_operator(op: BinOp)
    ensures
        ladder().contains(op),
        forall|i: int, j: int|
            0 <= i < ladder().len() && 0 <= j < ladder().len() && ladder()[i] == ladder()[j] ==> i
                == j,
{
    let s = ladder();
    assert(s[0] == BinOp::Orelse);
    assert(s[1] == BinOp::Or);
    assert(s[2] == BinOp::And);
    assert(s[3] == BinOp::Eq);
    assert(s[4] == BinOp::Ne);
    assert(s[5] == BinOp::Le);
    assert(s[6] == BinOp::Ge);
    assert(s[7] == BinOp::Lt);
    assert(s[8] == BinOp::Gt);
    assert(s[9] == BinOp::Pipe);
    assert(s[10] == BinOp::Bor);
    assert(s[11] == BinOp::Bxor);
    assert(s[12] == BinOp::Band);
    assert(s[13] == BinOp::Bsl);
    assert(s[14] == BinOp::Bsr);
    assert(s[15] == BinOp::Add);
    assert(s[16] == BinOp::Sub);
    assert(s[17] == BinOp::Mul);
    assert(s[18] == BinOp::Div);
    assert(s[19] == BinOp::Rem);
}

pub open spec fn is_multiplicative(op: BinOp) -> bool {
    op is Mul || op is Div || op is Rem
}

pub open spec fn is_additive(op: BinOp) -> bool {
    op is Add || op is Sub
}

pub open spec fn is_shift(op: BinOp) -> bool {
    op is Bsl || op is Bsr
}

pub open spec fn is_comparison(op: BinOp) -> bool {
    op is Eq || op is Ne || op is Lt || op is Le || op is Gt || op is Ge
}

/// Multiplication, division and remainder bind tightest. Then come, each looser than the one
/// before: sums and differences, shifts, `band`, `bxor`, `bor`, the pipe, comparisons, `and`,
/// `or`, and `orelse`, which binds loosest.
pub proof fn each_kind_binds_looser_than_the_one_before(a: BinOp, b: BinOp)
    ensures
        is_multiplicative(a) ==> prec_of(a) == MAX_PREC,
        is_multiplicative(a) && is_additive(b) ==> prec_of(a) == prec_of(b) + 1,
        is_additive(a) && is_shift(b) ==> prec_of(a) == prec_of(b) + 1,
        is_shift(a) && b is Band ==> prec_of(a) == prec_of(b) + 1,
        a is Band && b is Bxor ==> prec_of(a) == prec_of(b) + 1,
        a is Bxor && b is Bor ==> prec_of(a) == prec_of(b) + 1,
        a is Bor && b is Pipe ==> prec_of(a) == prec_of(b) + 1,
        a is Pipe && is_comparison(b) ==> prec_of(a) == prec_of(b) + 1,
        is_comparison(a) && b is And ==> prec_of(a) == prec_of(b) + 1,
        a is And && b is Or ==> prec_of(a) == prec_of(b) + 1,
        a is Or && b is Orelse ==> prec_of(a) == prec_of(b) + 1,
        a is Orelse ==> prec_of(a) == MIN_PREC,
{
}

/// The ladder goes up: no operator on it binds looser than one before it.
pub proof fn the_ladder_goes_up(i: int, j: int)
    requires
        0 <= i <= j < ladder().len(),
    ensures
        prec_of(ladder()[i]) <= prec_of(ladder()[j]),
        MIN_PREC <= prec_of(ladder()[i]) <= MAX_PREC,
{
}

/// An operator is spelled by the sign that it has in arithmetic, or by its own name.
pub proof fn operators_are_spelled_as_in_arithmetic()
    ensures
        text_of(BinOp::Add) == seq!['+'],
        text_of(BinOp::Sub) == seq!['-'],
        text_of(BinOp::Mul) == seq!['*'],
        text_of(BinOp::Div) == seq!['/'],
        text_of(BinOp::Rem) == seq!['%'],
        text_of(BinOp::Lt) == seq!['<'],
        text_of(BinOp::Gt) == seq!['>'],
        text_of(BinOp::Le) == text_of(BinOp::Lt) + seq!['='],
        text_of(BinOp::Ge) == text_of(BinOp::Gt) + seq!['='],
        text_of(BinOp::Eq) == seq!['=', '='],
        text_of(BinOp::Ne) == seq!['!', '='],
        text_of(BinOp::Pipe) == seq!['|', '>'],
        text_of(BinOp::Or) == seq!['o', 'r'],
        text_of(BinOp::And) == seq!['a', 'n', 'd'],
        text_of(BinOp::Orelse) == text_of(BinOp::Or) + seq!['e', 'l', 's', 'e'],
        text_of(BinOp::Bor) == seq!['b'] + text_of(BinOp::Or),
        text_of(BinOp::Band) == seq!['b'] + text_of(BinOp::And),
        text_of(BinOp::Bxor) == seq!['b', 'x'] + text_of(BinOp::Or),
        text_of(BinOp::Bsl) == seq!['b', 's', 'l'],
        text_of(BinOp::Bsr) == seq!['b', 's', 'r'],
{
    reveal_strlit("+");
    reveal_strlit("-");
    reveal_strlit("*");
    reveal_strlit("/");
    reveal_strlit("%");
    reveal_strlit("<");
    reveal_strlit(">");
    reveal_strlit("<=");
    reveal_strlit(">=");
    reveal_strlit("==");
    reveal_strlit("!=");
    reveal_strlit("|>");
    reveal_strlit("or");
    reveal_strlit("and");
    reveal_strlit("orelse");
    reveal_strlit("bor");
    reveal_strlit("band");
    reveal_strlit("bxor");
    reveal_strlit("bsl");
    reveal_strlit("bsr");
    assert("+"@ =~= seq!['+']);
    assert("-"@ =~= seq!['-']);
    assert("*"@ =~= seq!['*']);
    assert("/"@ =~= seq!['/']);
    assert("%"@ =~= seq!['%']);
    assert("<"@ =~= seq!['<']);
    assert(">"@ =~= seq!['>']);
    assert("<="@ =~= "<"@ + seq!['=']);
    assert(">="@ =~= ">"@ + seq!['=']);
    assert("=="@ =~= seq!['=', '=']);
    assert("!="@ =~= seq!['!', '=']);
    assert("|>"@ =~= seq!['|', '>']);
    assert("or"@ =~= seq!['o', 'r']);
    assert("and"@ =~= seq!['a', 'n', 'd']);
    assert("orelse"@ =~= "or"@ + seq!['e', 'l', 's', 'e']);
    assert("bor"@ =~= seq!['b'] + "or"@);
    assert("band"@ =~= seq!['b'] + "and"@);
    assert("bxor"@ =~= seq!['b', 'x'] + "or"@);
    assert("bsl"@ =~= seq!['b', 's', 'l']);
    assert("bsr"@ =~= seq!['b', 's', 'r']);
}

/// An operator's token reads back as the operator, and no other token does.
pub proof fn tokens_read_back(op: BinOp, t: Token)
    ensures
        op_of(token_of(op)) == Some(op),
        op_of(t) == Some(op) <==> t == token_of(op),
{
}

/// An operator and its token are spelled alike.
pub proof fn operator_spelled_as_its_token(op: BinOp)
    ensures
        text_of(op) == spelling(token_of(op)),
{
}

/// The levels from [`MIN_PREC`] to [`MAX_PREC`] are all in use, and no others.
pub proof fn levels_are_contiguous(prec: u8)
    ensures
        MIN_PREC <= prec <= MAX_PREC <==> exists|op: BinOp| #[trigger] prec_of(op) == prec,
{
    assert(prec_of(BinOp::Orelse) == 1);
    assert(prec_of(BinOp::Or) == 2);
    assert(prec_of(BinOp::And) == 3);
    assert(prec_of(BinOp::Eq) == 4);
    assert(prec_of(BinOp::Pipe) == 5);
    assert(prec_of(BinOp::Bor) == 6);
    assert(prec_of(BinOp::Bxor) == 7);
    assert(prec_of(BinOp::Band) == 8);
    assert(prec_of(BinOp::Bsl) == 9);
    assert(prec_of(BinOp::Add) == 10);
    assert(prec_of(BinOp::Mul) == 11);
}

} // verus!
