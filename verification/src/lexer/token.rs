//! Tokens: what the lexer hands the parser, and how each is named in a diagnostic.

use crate::text::{dec, push_dec, str_eq};
use vstd::prelude::*;
use vstd::string::*;

verus! {

/// A range of bytes of the source text.
pub type Span = core::ops::Range<usize>;

/// A token and where it stands.
#[derive(Debug, PartialEq)]
pub struct Spanned {
    pub token: Token,
    pub span: Span,
}

/// A token.
///
/// A string literal is a flat run of tokens rather than one value, because interpolation
/// nests: `"a #{x} b"` is `StrStart StrText("a ") InterpStart Ident("x") InterpEnd
/// StrText(" b") StrEnd`, and the parser puts the tree together.
#[derive(Debug, PartialEq)]
pub enum Token {
    // Declarations
    Fn,
    Let,
    Record,
    Opaque,
    Newtype,
    Type,
    /// `mu type A = ...`: an explicit recursive-type binder.
    Mu,
    Protocol,
    /// `marker Ord`: a bound with no methods, satisfied by a compiler rule rather than by an
    /// impl.
    Marker,
    Impl,
    Where,
    Use,
    Mod,
    Internal,
    Const,
    // Control flow
    If,
    Else,
    Match,
    Loop,
    While,
    For,
    In,
    Break,
    Continue,
    Return,
    // Errors
    Throws,
    Throw,
    Try,
    Catch,
    Orelse,
    // Tests
    Test,
    Bench,
    Assert,
    AssertEq,
    AssertNe,
    AssertThrows,
    // Operators that are words
    And,
    Or,
    Band,
    Bor,
    Bxor,
    Bnot,
    Bsl,
    Bsr,
    Is,
    As,
    // Literals that are words
    Null,
    True,
    False,
    // Punctuation
    Plus,
    Minus,
    Star,
    Slash,
    Percent,
    Eq,
    EqEq,
    NotEq,
    Lt,
    LtEq,
    Gt,
    GtEq,
    Arrow,
    FatArrow,
    Pipe,
    /// Record and list spread. There is no `..=`: ranges are `range(a, b)`.
    DotDot,
    Question,
    Bang,
    Colon,
    ColonColon,
    Comma,
    Dot,
    Semi,
    At,
    LParen,
    RParen,
    LBracket,
    RBracket,
    LBrace,
    RBrace,
    Ampersand,
    Bar,
    // Values
    Ident(String),
    Atom(String),
    /// The magnitude, unsigned: `-9223372036854775808` is a minus applied to
    /// 9223372036854775808, which no `i64` holds.
    Int(u64),
    /// The spelling, without underscores.
    Float(String),
    Rune(char),
    // Strings
    StrStart,
    StrText(String),
    InterpStart,
    InterpEnd,
    StrEnd,
}

/// What a token says: its kind, and its text as a sequence of characters.
pub enum Lexeme {
    /// A token without a payload.
    Fixed(Token),
    Ident(Seq<char>),
    Atom(Seq<char>),
    Int(u64),
    Float(Seq<char>),
    Rune(char),
    Text(Seq<char>),
}

impl View for Token {
    type V = Lexeme;

    open spec fn view(&self) -> Lexeme {
        match *self {
            Token::Ident(s) => Lexeme::Ident(s@),
            Token::Atom(s) => Lexeme::Atom(s@),
            Token::Int(n) => Lexeme::Int(n),
            Token::Float(s) => Lexeme::Float(s@),
            Token::Rune(c) => Lexeme::Rune(c),
            Token::StrText(s) => Lexeme::Text(s@),
            t => Lexeme::Fixed(t),
        }
    }
}

/// A token with its place in the source.
pub struct Piece {
    pub lexeme: Lexeme,
    pub start: int,
    pub end: int,
}

impl View for Spanned {
    type V = Piece;

    open spec fn view(&self) -> Piece {
        Piece { lexeme: self.token@, start: self.span.start as int, end: self.span.end as int }
    }
}

/// The keyword that a word spells, if it is one.
///
/// `enum` is not among them: sum types are unions of records, and `enum` is an ordinary
/// identifier.
pub open spec fn keyword_of(word: Seq<char>) -> Option<Token> {
    if word == "fn"@ {
        Some(Token::Fn)
    } else if word == "let"@ {
        Some(Token::Let)
    } else if word == "record"@ {
        Some(Token::Record)
    } else if word == "opaque"@ {
        Some(Token::Opaque)
    } else if word == "newtype"@ {
        Some(Token::Newtype)
    } else if word == "type"@ {
        Some(Token::Type)
    } else if word == "mu"@ {
        Some(Token::Mu)
    } else if word == "protocol"@ {
        Some(Token::Protocol)
    } else if word == "marker"@ {
        Some(Token::Marker)
    } else if word == "impl"@ {
        Some(Token::Impl)
    } else if word == "where"@ {
        Some(Token::Where)
    } else if word == "use"@ {
        Some(Token::Use)
    } else if word == "mod"@ {
        Some(Token::Mod)
    } else if word == "internal"@ {
        Some(Token::Internal)
    } else if word == "const"@ {
        Some(Token::Const)
    } else if word == "if"@ {
        Some(Token::If)
    } else if word == "else"@ {
        Some(Token::Else)
    } else if word == "match"@ {
        Some(Token::Match)
    } else if word == "loop"@ {
        Some(Token::Loop)
    } else if word == "while"@ {
        Some(Token::While)
    } else if word == "for"@ {
        Some(Token::For)
    } else if word == "in"@ {
        Some(Token::In)
    } else if word == "break"@ {
        Some(Token::Break)
    } else if word == "continue"@ {
        Some(Token::Continue)
    } else if word == "return"@ {
        Some(Token::Return)
    } else if word == "throws"@ {
        Some(Token::Throws)
    } else if word == "throw"@ {
        Some(Token::Throw)
    } else if word == "try"@ {
        Some(Token::Try)
    } else if word == "catch"@ {
        Some(Token::Catch)
    } else if word == "orelse"@ {
        Some(Token::Orelse)
    } else if word == "test"@ {
        Some(Token::Test)
    } else if word == "bench"@ {
        Some(Token::Bench)
    } else if word == "assert"@ {
        Some(Token::Assert)
    } else if word == "assert_eq"@ {
        Some(Token::AssertEq)
    } else if word == "assert_ne"@ {
        Some(Token::AssertNe)
    } else if word == "assert_throws"@ {
        Some(Token::AssertThrows)
    } else if word == "and"@ {
        Some(Token::And)
    } else if word == "or"@ {
        Some(Token::Or)
    } else if word == "band"@ {
        Some(Token::Band)
    } else if word == "bor"@ {
        Some(Token::Bor)
    } else if word == "bxor"@ {
        Some(Token::Bxor)
    } else if word == "bnot"@ {
        Some(Token::Bnot)
    } else if word == "bsl"@ {
        Some(Token::Bsl)
    } else if word == "bsr"@ {
        Some(Token::Bsr)
    } else if word == "is"@ {
        Some(Token::Is)
    } else if word == "as"@ {
        Some(Token::As)
    } else if word == "null"@ {
        Some(Token::Null)
    } else if word == "true"@ {
        Some(Token::True)
    } else if word == "false"@ {
        Some(Token::False)
    } else {
        None
    }
}

/// The spelling of a token without a payload.
pub open spec fn spelling(t: Token) -> Seq<char> {
    match t {
        Token::Fn => "fn"@,
        Token::Let => "let"@,
        Token::Record => "record"@,
        Token::Opaque => "opaque"@,
        Token::Newtype => "newtype"@,
        Token::Type => "type"@,
        Token::Mu => "mu"@,
        Token::Protocol => "protocol"@,
        Token::Marker => "marker"@,
        Token::Impl => "impl"@,
        Token::Where => "where"@,
        Token::Use => "use"@,
        Token::Mod => "mod"@,
        Token::Internal => "internal"@,
        Token::Const => "const"@,
        Token::If => "if"@,
        Token::Else => "else"@,
        Token::Match => "match"@,
        Token::Loop => "loop"@,
        Token::While => "while"@,
        Token::For => "for"@,
        Token::In => "in"@,
        Token::Break => "break"@,
        Token::Continue => "continue"@,
        Token::Return => "return"@,
        Token::Throws => "throws"@,
        Token::Throw => "throw"@,
        Token::Try => "try"@,
        Token::Catch => "catch"@,
        Token::Orelse => "orelse"@,
        Token::Test => "test"@,
        Token::Bench => "bench"@,
        Token::Assert => "assert"@,
        Token::AssertEq => "assert_eq"@,
        Token::AssertNe => "assert_ne"@,
        Token::AssertThrows => "assert_throws"@,
        Token::And => "and"@,
        Token::Or => "or"@,
        Token::Band => "band"@,
        Token::Bor => "bor"@,
        Token::Bxor => "bxor"@,
        Token::Bnot => "bnot"@,
        Token::Bsl => "bsl"@,
        Token::Bsr => "bsr"@,
        Token::Is => "is"@,
        Token::As => "as"@,
        Token::Null => "null"@,
        Token::True => "true"@,
        Token::False => "false"@,
        Token::Plus => "+"@,
        Token::Minus => "-"@,
        Token::Star => "*"@,
        Token::Slash => "/"@,
        Token::Percent => "%"@,
        Token::Eq => "="@,
        Token::EqEq => "=="@,
        Token::NotEq => "!="@,
        Token::Lt => "<"@,
        Token::LtEq => "<="@,
        Token::Gt => ">"@,
        Token::GtEq => ">="@,
        Token::Arrow => "->"@,
        Token::FatArrow => "=>"@,
        Token::Pipe => "|>"@,
        Token::DotDot => ".."@,
        Token::Question => "?"@,
        Token::Bang => "!"@,
        Token::Colon => ":"@,
        Token::ColonColon => "::"@,
        Token::Comma => ","@,
        Token::Dot => "."@,
        Token::Semi => ";"@,
        Token::At => "@"@,
        Token::LParen => "("@,
        Token::RParen => ")"@,
        Token::LBracket => "["@,
        Token::RBracket => "]"@,
        Token::LBrace => "{"@,
        Token::RBrace => "}"@,
        Token::Ampersand => "&"@,
        Token::Bar => "|"@,
        Token::StrStart => "`\"`"@,
        Token::StrEnd => "`\"`"@,
        Token::StrText(_) => "string text"@,
        Token::InterpStart => "`#{`"@,
        Token::InterpEnd => "`}`"@,
        _ => seq![],
    }
}

/// How a diagnostic names a token.
pub open spec fn token_name(t: Token) -> Seq<char> {
    match t {
        Token::Ident(s) => "identifier `"@ + s@ + "`"@,
        Token::Atom(s) => "atom `:"@ + s@ + "`"@,
        Token::Int(n) => "integer `"@ + dec(n as nat) + "`"@,
        Token::Float(s) => "float `"@ + s@ + "`"@,
        Token::Rune(c) => "rune `"@ + seq![c] + "`"@,
        _ => "`"@ + spelling(t) + "`"@,
    }
}

/// Whether a token is a word of the language.
pub open spec fn is_keyword(t: Token) -> bool {
    match t {
        Token::Fn | Token::Let | Token::Record | Token::Opaque | Token::Newtype | Token::Type
        | Token::Mu | Token::Protocol | Token::Marker | Token::Impl | Token::Where | Token::Use
        | Token::Mod | Token::Internal | Token::Const | Token::If | Token::Else | Token::Match
        | Token::Loop | Token::While | Token::For | Token::In | Token::Break | Token::Continue
        | Token::Return | Token::Throws | Token::Throw | Token::Try | Token::Catch | Token::Orelse
        | Token::Test | Token::Bench | Token::Assert | Token::AssertEq | Token::AssertNe | Token::AssertThrows
        | Token::And | Token::Or | Token::Band | Token::Bor | Token::Bxor | Token::Bnot
        | Token::Bsl | Token::Bsr | Token::Is | Token::As | Token::Null | Token::True
        | Token::False
        => true,
        _ => false,
    }
}

impl Token {
    /// The keyword that a word spells, if it is one.
    pub fn keyword(word: &str) -> (r: Option<Token>)
        ensures
            r == keyword_of(word@),
    {
        if str_eq(word, "fn") {
            Some(Token::Fn)
        } else if str_eq(word, "let") {
            Some(Token::Let)
        } else if str_eq(word, "record") {
            Some(Token::Record)
        } else if str_eq(word, "opaque") {
            Some(Token::Opaque)
        } else if str_eq(word, "newtype") {
            Some(Token::Newtype)
        } else if str_eq(word, "type") {
            Some(Token::Type)
        } else if str_eq(word, "mu") {
            Some(Token::Mu)
        } else if str_eq(word, "protocol") {
            Some(Token::Protocol)
        } else if str_eq(word, "marker") {
            Some(Token::Marker)
        } else if str_eq(word, "impl") {
            Some(Token::Impl)
        } else if str_eq(word, "where") {
            Some(Token::Where)
        } else if str_eq(word, "use") {
            Some(Token::Use)
        } else if str_eq(word, "mod") {
            Some(Token::Mod)
        } else if str_eq(word, "internal") {
            Some(Token::Internal)
        } else if str_eq(word, "const") {
            Some(Token::Const)
        } else if str_eq(word, "if") {
            Some(Token::If)
        } else if str_eq(word, "else") {
            Some(Token::Else)
        } else if str_eq(word, "match") {
            Some(Token::Match)
        } else if str_eq(word, "loop") {
            Some(Token::Loop)
        } else if str_eq(word, "while") {
            Some(Token::While)
        } else if str_eq(word, "for") {
            Some(Token::For)
        } else if str_eq(word, "in") {
            Some(Token::In)
        } else if str_eq(word, "break") {
            Some(Token::Break)
        } else if str_eq(word, "continue") {
            Some(Token::Continue)
        } else if str_eq(word, "return") {
            Some(Token::Return)
        } else if str_eq(word, "throws") {
            Some(Token::Throws)
        } else if str_eq(word, "throw") {
            Some(Token::Throw)
        } else if str_eq(word, "try") {
            Some(Token::Try)
        } else if str_eq(word, "catch") {
            Some(Token::Catch)
        } else if str_eq(word, "orelse") {
            Some(Token::Orelse)
        } else if str_eq(word, "test") {
            Some(Token::Test)
        } else if str_eq(word, "bench") {
            Some(Token::Bench)
        } else if str_eq(word, "assert") {
            Some(Token::Assert)
        } else if str_eq(word, "assert_eq") {
            Some(Token::AssertEq)
        } else if str_eq(word, "assert_ne") {
            Some(Token::AssertNe)
        } else if str_eq(word, "assert_throws") {
            Some(Token::AssertThrows)
        } else if str_eq(word, "and") {
            Some(Token::And)
        } else if str_eq(word, "or") {
            Some(Token::Or)
        } else if str_eq(word, "band") {
            Some(Token::Band)
        } else if str_eq(word, "bor") {
            Some(Token::Bor)
        } else if str_eq(word, "bxor") {
            Some(Token::Bxor)
        } else if str_eq(word, "bnot") {
            Some(Token::Bnot)
        } else if str_eq(word, "bsl") {
            Some(Token::Bsl)
        } else if str_eq(word, "bsr") {
            Some(Token::Bsr)
        } else if str_eq(word, "is") {
            Some(Token::Is)
        } else if str_eq(word, "as") {
            Some(Token::As)
        } else if str_eq(word, "null") {
            Some(Token::Null)
        } else if str_eq(word, "true") {
            Some(Token::True)
        } else if str_eq(word, "false") {
            Some(Token::False)
        } else {
            None
        }
    }

    /// The spelling of a token without a payload.
    fn fixed(&self) -> (r: &'static str)
        requires
            self@ is Fixed || self is StrText,
        ensures
            r@ == spelling(*self),
    {
        match self {
            Token::Fn => "fn",
            Token::Let => "let",
            Token::Record => "record",
            Token::Opaque => "opaque",
            Token::Newtype => "newtype",
            Token::Type => "type",
            Token::Mu => "mu",
            Token::Protocol => "protocol",
            Token::Marker => "marker",
            Token::Impl => "impl",
            Token::Where => "where",
            Token::Use => "use",
            Token::Mod => "mod",
            Token::Internal => "internal",
            Token::Const => "const",
            Token::If => "if",
            Token::Else => "else",
            Token::Match => "match",
            Token::Loop => "loop",
            Token::While => "while",
            Token::For => "for",
            Token::In => "in",
            Token::Break => "break",
            Token::Continue => "continue",
            Token::Return => "return",
            Token::Throws => "throws",
            Token::Throw => "throw",
            Token::Try => "try",
            Token::Catch => "catch",
            Token::Orelse => "orelse",
            Token::Test => "test",
            Token::Bench => "bench",
            Token::Assert => "assert",
            Token::AssertEq => "assert_eq",
            Token::AssertNe => "assert_ne",
            Token::AssertThrows => "assert_throws",
            Token::And => "and",
            Token::Or => "or",
            Token::Band => "band",
            Token::Bor => "bor",
            Token::Bxor => "bxor",
            Token::Bnot => "bnot",
            Token::Bsl => "bsl",
            Token::Bsr => "bsr",
            Token::Is => "is",
            Token::As => "as",
            Token::Null => "null",
            Token::True => "true",
            Token::False => "false",
            Token::Plus => "+",
            Token::Minus => "-",
            Token::Star => "*",
            Token::Slash => "/",
            Token::Percent => "%",
            Token::Eq => "=",
            Token::EqEq => "==",
            Token::NotEq => "!=",
            Token::Lt => "<",
            Token::LtEq => "<=",
            Token::Gt => ">",
            Token::GtEq => ">=",
            Token::Arrow => "->",
            Token::FatArrow => "=>",
            Token::Pipe => "|>",
            Token::DotDot => "..",
            Token::Question => "?",
            Token::Bang => "!",
            Token::Colon => ":",
            Token::ColonColon => "::",
            Token::Comma => ",",
            Token::Dot => ".",
            Token::Semi => ";",
            Token::At => "@",
            Token::LParen => "(",
            Token::RParen => ")",
            Token::LBracket => "[",
            Token::RBracket => "]",
            Token::LBrace => "{",
            Token::RBrace => "}",
            Token::Ampersand => "&",
            Token::Bar => "|",
            Token::StrStart => "`\"`",
            Token::StrEnd => "`\"`",
            Token::StrText(_) => "string text",
            Token::InterpStart => "`#{`",
            Token::InterpEnd => "`}`",
            _ => "",
        }
    }

    /// How a diagnostic names this token.
    pub fn describe(&self) -> (r: String)
        ensures
            r@ == token_name(*self),
    {
        let mut out = String::new();
        match self {
            Token::Ident(s) => {
                out.append("identifier `");
                out.append(s.as_str());
            },
            Token::Atom(s) => {
                out.append("atom `:");
                out.append(s.as_str());
            },
            Token::Int(n) => {
                out.append("integer `");
                push_dec(&mut out, *n);
            },
            Token::Float(s) => {
                out.append("float `");
                out.append(s.as_str());
            },
            Token::Rune(c) => {
                out.append("rune `");
                out.push(*c);
            },
            t => {
                out.append("`");
                out.append(t.fixed());
            },
        }
        out.append("`");
        assert(out@ =~= token_name(*self));
        out
    }

}

impl Clone for Token {
    fn clone(&self) -> (r: Token)
        ensures
            r == *self,
    {
        match self {
            Token::Fn => Token::Fn,
            Token::Let => Token::Let,
            Token::Record => Token::Record,
            Token::Opaque => Token::Opaque,
            Token::Newtype => Token::Newtype,
            Token::Type => Token::Type,
            Token::Mu => Token::Mu,
            Token::Protocol => Token::Protocol,
            Token::Marker => Token::Marker,
            Token::Impl => Token::Impl,
            Token::Where => Token::Where,
            Token::Use => Token::Use,
            Token::Mod => Token::Mod,
            Token::Internal => Token::Internal,
            Token::Const => Token::Const,
            Token::If => Token::If,
            Token::Else => Token::Else,
            Token::Match => Token::Match,
            Token::Loop => Token::Loop,
            Token::While => Token::While,
            Token::For => Token::For,
            Token::In => Token::In,
            Token::Break => Token::Break,
            Token::Continue => Token::Continue,
            Token::Return => Token::Return,
            Token::Throws => Token::Throws,
            Token::Throw => Token::Throw,
            Token::Try => Token::Try,
            Token::Catch => Token::Catch,
            Token::Orelse => Token::Orelse,
            Token::Test => Token::Test,
            Token::Bench => Token::Bench,
            Token::Assert => Token::Assert,
            Token::AssertEq => Token::AssertEq,
            Token::AssertNe => Token::AssertNe,
            Token::AssertThrows => Token::AssertThrows,
            Token::And => Token::And,
            Token::Or => Token::Or,
            Token::Band => Token::Band,
            Token::Bor => Token::Bor,
            Token::Bxor => Token::Bxor,
            Token::Bnot => Token::Bnot,
            Token::Bsl => Token::Bsl,
            Token::Bsr => Token::Bsr,
            Token::Is => Token::Is,
            Token::As => Token::As,
            Token::Null => Token::Null,
            Token::True => Token::True,
            Token::False => Token::False,
            Token::Plus => Token::Plus,
            Token::Minus => Token::Minus,
            Token::Star => Token::Star,
            Token::Slash => Token::Slash,
            Token::Percent => Token::Percent,
            Token::Eq => Token::Eq,
            Token::EqEq => Token::EqEq,
            Token::NotEq => Token::NotEq,
            Token::Lt => Token::Lt,
            Token::LtEq => Token::LtEq,
            Token::Gt => Token::Gt,
            Token::GtEq => Token::GtEq,
            Token::Arrow => Token::Arrow,
            Token::FatArrow => Token::FatArrow,
            Token::Pipe => Token::Pipe,
            Token::DotDot => Token::DotDot,
            Token::Question => Token::Question,
            Token::Bang => Token::Bang,
            Token::Colon => Token::Colon,
            Token::ColonColon => Token::ColonColon,
            Token::Comma => Token::Comma,
            Token::Dot => Token::Dot,
            Token::Semi => Token::Semi,
            Token::At => Token::At,
            Token::LParen => Token::LParen,
            Token::RParen => Token::RParen,
            Token::LBracket => Token::LBracket,
            Token::RBracket => Token::RBracket,
            Token::LBrace => Token::LBrace,
            Token::RBrace => Token::RBrace,
            Token::Ampersand => Token::Ampersand,
            Token::Bar => Token::Bar,
            Token::StrStart => Token::StrStart,
            Token::InterpStart => Token::InterpStart,
            Token::InterpEnd => Token::InterpEnd,
            Token::StrEnd => Token::StrEnd,
            Token::Ident(s) => Token::Ident(s.clone()),
            Token::Atom(s) => Token::Atom(s.clone()),
            Token::Float(s) => Token::Float(s.clone()),
            Token::StrText(s) => Token::StrText(s.clone()),
            Token::Int(v) => Token::Int(*v),
            Token::Rune(v) => Token::Rune(*v),
        }
    }
}

/// Every keyword is what its own spelling reads as.
pub proof fn keyword_reads_back(t: Token)
    requires
        is_keyword(t),
    ensures
        keyword_of(spelling(t)) == Some(t),
{
    reveal_strlit("fn");
    reveal_strlit("let");
    reveal_strlit("record");
    reveal_strlit("opaque");
    reveal_strlit("newtype");
    reveal_strlit("type");
    reveal_strlit("mu");
    reveal_strlit("protocol");
    reveal_strlit("marker");
    reveal_strlit("impl");
    reveal_strlit("where");
    reveal_strlit("use");
    reveal_strlit("mod");
    reveal_strlit("internal");
    reveal_strlit("const");
    reveal_strlit("if");
    reveal_strlit("else");
    reveal_strlit("match");
    reveal_strlit("loop");
    reveal_strlit("while");
    reveal_strlit("for");
    reveal_strlit("in");
    reveal_strlit("break");
    reveal_strlit("continue");
    reveal_strlit("return");
    reveal_strlit("throws");
    reveal_strlit("throw");
    reveal_strlit("try");
    reveal_strlit("catch");
    reveal_strlit("orelse");
    reveal_strlit("test");
    reveal_strlit("bench");
    reveal_strlit("assert");
    reveal_strlit("assert_eq");
    reveal_strlit("assert_ne");
    reveal_strlit("assert_throws");
    reveal_strlit("and");
    reveal_strlit("or");
    reveal_strlit("band");
    reveal_strlit("bor");
    reveal_strlit("bxor");
    reveal_strlit("bnot");
    reveal_strlit("bsl");
    reveal_strlit("bsr");
    reveal_strlit("is");
    reveal_strlit("as");
    reveal_strlit("null");
    reveal_strlit("true");
    reveal_strlit("false");
    // Words of one length differ in one of these letters, and the rest in their length.
    assert("fn"@.len() == 2 && "fn"@[0] == 'f' && "fn"@[1] == 'n');
    assert("mu"@.len() == 2 && "mu"@[0] == 'm' && "mu"@[1] == 'u');
    assert("if"@.len() == 2 && "if"@[0] == 'i' && "if"@[1] == 'f');
    assert("in"@.len() == 2 && "in"@[0] == 'i' && "in"@[1] == 'n');
    assert("or"@.len() == 2 && "or"@[0] == 'o' && "or"@[1] == 'r');
    assert("is"@.len() == 2 && "is"@[0] == 'i' && "is"@[1] == 's');
    assert("as"@.len() == 2 && "as"@[0] == 'a' && "as"@[1] == 's');
    assert("let"@.len() == 3 && "let"@[0] == 'l' && "let"@[1] == 'e' && "let"@[2] == 't');
    assert("use"@.len() == 3 && "use"@[0] == 'u' && "use"@[1] == 's' && "use"@[2] == 'e');
    assert("mod"@.len() == 3 && "mod"@[0] == 'm' && "mod"@[1] == 'o' && "mod"@[2] == 'd');
    assert("for"@.len() == 3 && "for"@[0] == 'f' && "for"@[1] == 'o' && "for"@[2] == 'r');
    assert("try"@.len() == 3 && "try"@[0] == 't' && "try"@[1] == 'r' && "try"@[2] == 'y');
    assert("and"@.len() == 3 && "and"@[0] == 'a' && "and"@[1] == 'n' && "and"@[2] == 'd');
    assert("bor"@.len() == 3 && "bor"@[0] == 'b' && "bor"@[1] == 'o' && "bor"@[2] == 'r');
    assert("bsl"@.len() == 3 && "bsl"@[0] == 'b' && "bsl"@[1] == 's' && "bsl"@[2] == 'l');
    assert("bsr"@.len() == 3 && "bsr"@[0] == 'b' && "bsr"@[1] == 's' && "bsr"@[2] == 'r');
    assert("type"@.len() == 4 && "type"@[1] == 'y');
    assert("impl"@.len() == 4 && "impl"@[1] == 'm');
    assert("else"@.len() == 4 && "else"@[1] == 'l');
    assert("loop"@.len() == 4 && "loop"@[1] == 'o');
    assert("test"@.len() == 4 && "test"@[1] == 'e');
    assert("band"@.len() == 4 && "band"@[1] == 'a');
    assert("bxor"@.len() == 4 && "bxor"@[1] == 'x');
    assert("bnot"@.len() == 4 && "bnot"@[1] == 'n');
    assert("null"@.len() == 4 && "null"@[1] == 'u');
    assert("true"@.len() == 4 && "true"@[1] == 'r');
    assert("where"@.len() == 5 && "where"@[0] == 'w' && "where"@[2] == 'e');
    assert("const"@.len() == 5 && "const"@[0] == 'c' && "const"@[2] == 'n');
    assert("match"@.len() == 5 && "match"@[0] == 'm' && "match"@[2] == 't');
    assert("while"@.len() == 5 && "while"@[0] == 'w' && "while"@[2] == 'i');
    assert("break"@.len() == 5 && "break"@[0] == 'b' && "break"@[2] == 'e');
    assert("throw"@.len() == 5 && "throw"@[0] == 't' && "throw"@[2] == 'r');
    assert("catch"@.len() == 5 && "catch"@[0] == 'c' && "catch"@[2] == 't');
    assert("bench"@.len() == 5 && "bench"@[0] == 'b' && "bench"@[2] == 'n');
    assert("false"@.len() == 5 && "false"@[0] == 'f' && "false"@[2] == 'l');
    assert("record"@.len() == 6 && "record"@[0] == 'r' && "record"@[2] == 'c');
    assert("opaque"@.len() == 6 && "opaque"@[0] == 'o' && "opaque"@[2] == 'a');
    assert("marker"@.len() == 6 && "marker"@[0] == 'm' && "marker"@[2] == 'r');
    assert("return"@.len() == 6 && "return"@[0] == 'r' && "return"@[2] == 't');
    assert("throws"@.len() == 6 && "throws"@[0] == 't' && "throws"@[2] == 'r');
    assert("orelse"@.len() == 6 && "orelse"@[0] == 'o' && "orelse"@[2] == 'e');
    assert("assert"@.len() == 6 && "assert"@[0] == 'a' && "assert"@[2] == 's');
    assert("newtype"@.len() == 7 && "newtype"@[0] == 'n');
    assert("protocol"@.len() == 8 && "protocol"@[0] == 'p');
    assert("internal"@.len() == 8 && "internal"@[0] == 'i');
    assert("continue"@.len() == 8 && "continue"@[0] == 'c');
    assert("assert_eq"@.len() == 9 && "assert_eq"@[7] == 'e');
    assert("assert_ne"@.len() == 9 && "assert_ne"@[7] == 'n');
    assert("assert_throws"@.len() == 13 && "assert_throws"@[0] == 'a');
}

/// The place of a token among the tokens without a payload.
pub open spec fn code_of(t: Token) -> int {
    match t {
        Token::Fn => 0,
        Token::Let => 1,
        Token::Record => 2,
        Token::Opaque => 3,
        Token::Newtype => 4,
        Token::Type => 5,
        Token::Mu => 6,
        Token::Protocol => 7,
        Token::Marker => 8,
        Token::Impl => 9,
        Token::Where => 10,
        Token::Use => 11,
        Token::Mod => 12,
        Token::Internal => 13,
        Token::Const => 14,
        Token::If => 15,
        Token::Else => 16,
        Token::Match => 17,
        Token::Loop => 18,
        Token::While => 19,
        Token::For => 20,
        Token::In => 21,
        Token::Break => 22,
        Token::Continue => 23,
        Token::Return => 24,
        Token::Throws => 25,
        Token::Throw => 26,
        Token::Try => 27,
        Token::Catch => 28,
        Token::Orelse => 29,
        Token::Test => 30,
        Token::Bench => 31,
        Token::Assert => 32,
        Token::AssertEq => 33,
        Token::AssertNe => 34,
        Token::AssertThrows => 35,
        Token::And => 36,
        Token::Or => 37,
        Token::Band => 38,
        Token::Bor => 39,
        Token::Bxor => 40,
        Token::Bnot => 41,
        Token::Bsl => 42,
        Token::Bsr => 43,
        Token::Is => 44,
        Token::As => 45,
        Token::Null => 46,
        Token::True => 47,
        Token::False => 48,
        Token::Plus => 49,
        Token::Minus => 50,
        Token::Star => 51,
        Token::Slash => 52,
        Token::Percent => 53,
        Token::Eq => 54,
        Token::EqEq => 55,
        Token::NotEq => 56,
        Token::Lt => 57,
        Token::LtEq => 58,
        Token::Gt => 59,
        Token::GtEq => 60,
        Token::Arrow => 61,
        Token::FatArrow => 62,
        Token::Pipe => 63,
        Token::DotDot => 64,
        Token::Question => 65,
        Token::Bang => 66,
        Token::Colon => 67,
        Token::ColonColon => 68,
        Token::Comma => 69,
        Token::Dot => 70,
        Token::Semi => 71,
        Token::At => 72,
        Token::LParen => 73,
        Token::RParen => 74,
        Token::LBracket => 75,
        Token::RBracket => 76,
        Token::LBrace => 77,
        Token::RBrace => 78,
        Token::Ampersand => 79,
        Token::Bar => 80,
        Token::StrStart => 81,
        Token::InterpStart => 82,
        Token::InterpEnd => 83,
        Token::StrEnd => 84,
        _ => -1,
    }
}

/// Tokens without a payload are told apart by their place.
pub proof fn codes_tell_apart(a: Token, b: Token)
    requires
        b@ is Fixed,
        code_of(a) == code_of(b),
    ensures
        a == b,
{
}

impl Token {
    fn code(&self) -> (r: i32)
        ensures
            r == code_of(*self),
    {
        match self {
            Token::Fn => 0,
            Token::Let => 1,
            Token::Record => 2,
            Token::Opaque => 3,
            Token::Newtype => 4,
            Token::Type => 5,
            Token::Mu => 6,
            Token::Protocol => 7,
            Token::Marker => 8,
            Token::Impl => 9,
            Token::Where => 10,
            Token::Use => 11,
            Token::Mod => 12,
            Token::Internal => 13,
            Token::Const => 14,
            Token::If => 15,
            Token::Else => 16,
            Token::Match => 17,
            Token::Loop => 18,
            Token::While => 19,
            Token::For => 20,
            Token::In => 21,
            Token::Break => 22,
            Token::Continue => 23,
            Token::Return => 24,
            Token::Throws => 25,
            Token::Throw => 26,
            Token::Try => 27,
            Token::Catch => 28,
            Token::Orelse => 29,
            Token::Test => 30,
            Token::Bench => 31,
            Token::Assert => 32,
            Token::AssertEq => 33,
            Token::AssertNe => 34,
            Token::AssertThrows => 35,
            Token::And => 36,
            Token::Or => 37,
            Token::Band => 38,
            Token::Bor => 39,
            Token::Bxor => 40,
            Token::Bnot => 41,
            Token::Bsl => 42,
            Token::Bsr => 43,
            Token::Is => 44,
            Token::As => 45,
            Token::Null => 46,
            Token::True => 47,
            Token::False => 48,
            Token::Plus => 49,
            Token::Minus => 50,
            Token::Star => 51,
            Token::Slash => 52,
            Token::Percent => 53,
            Token::Eq => 54,
            Token::EqEq => 55,
            Token::NotEq => 56,
            Token::Lt => 57,
            Token::LtEq => 58,
            Token::Gt => 59,
            Token::GtEq => 60,
            Token::Arrow => 61,
            Token::FatArrow => 62,
            Token::Pipe => 63,
            Token::DotDot => 64,
            Token::Question => 65,
            Token::Bang => 66,
            Token::Colon => 67,
            Token::ColonColon => 68,
            Token::Comma => 69,
            Token::Dot => 70,
            Token::Semi => 71,
            Token::At => 72,
            Token::LParen => 73,
            Token::RParen => 74,
            Token::LBracket => 75,
            Token::RBracket => 76,
            Token::LBrace => 77,
            Token::RBrace => 78,
            Token::Ampersand => 79,
            Token::Bar => 80,
            Token::StrStart => 81,
            Token::InterpStart => 82,
            Token::InterpEnd => 83,
            Token::StrEnd => 84,
            _ => -1,
        }
    }

    /// Whether this token is `other`, which has no payload.
    pub fn is(&self, other: &Token) -> (r: bool)
        requires
            other@ is Fixed,
        ensures
            r == (*self == *other),
    {
        proof {
            if code_of(*self) == code_of(*other) {
                codes_tell_apart(*self, *other);
            }
        }
        self.code() == other.code()
    }
}

/// A word reads as a keyword only if it is that keyword's spelling.
pub proof fn keyword_is_its_spelling(word: Seq<char>)
    ensures
        match keyword_of(word) {
            Some(t) => is_keyword(t) && spelling(t) == word,
            None => forall|t: Token| is_keyword(t) ==> #[trigger] spelling(t) != word,
        },
{
}

} // verus!
