//! The lexical grammar: what each piece of source text reads as.
//!
//! Everything here is a function of the source text `s` and a character position `k`.
//! Places are reported in bytes, so an offset is taken wherever a result leaves this file.

use super::error::{Fault, LexErrorKind};
use super::token::{keyword_of, Lexeme, Piece, Token};
use super::trivia::{Comment, TriviaKind};
use crate::text::offset;
use vstd::prelude::*;

verus! {

// ---- characters ----

/// Whether `unicode_ident::is_xid_start` holds of a character.
pub uninterp spec fn xid_start(c: char) -> bool;

/// Whether `unicode_ident::is_xid_continue` holds of a character.
pub uninterp spec fn xid_continue(c: char) -> bool;

/// What `unicode_normalization`'s `nfc` makes of a text.
pub uninterp spec fn nfc(text: Seq<char>) -> Seq<char>;

pub open spec fn is_ascii(c: char) -> bool {
    (c as u32) < 0x80
}

pub open spec fn is_letter(c: char) -> bool {
    'a' <= c <= 'z' || 'A' <= c <= 'Z'
}

/// Whether an identifier may start with `c`.
pub open spec fn ident_start(c: char) -> bool {
    if is_ascii(c) {
        is_letter(c) || c == '_'
    } else {
        xid_start(c)
    }
}

/// Whether an identifier may go on with `c`.
pub open spec fn ident_continue(c: char) -> bool {
    if is_ascii(c) {
        is_letter(c) || '0' <= c <= '9' || c == '_'
    } else {
        xid_continue(c)
    }
}

pub open spec fn is_space(c: char) -> bool {
    c == ' ' || c == '\t' || c == '\n' || c == '\r' || c == '\x0c'
}

/// The value of a digit in bases up to sixteen; 16 for any other character.
pub open spec fn digit_value(c: char) -> int {
    if '0' <= c <= '9' {
        c as int - '0' as int
    } else if 'a' <= c <= 'f' {
        c as int - 'a' as int + 10
    } else if 'A' <= c <= 'F' {
        c as int - 'A' as int + 10
    } else {
        16
    }
}

pub open spec fn is_digit(c: char, radix: int) -> bool {
    digit_value(c) < radix
}

/// The number that a run of digits stands for.
pub open spec fn value_of(digits: Seq<char>, radix: int) -> int
    decreases digits.len(),
{
    if digits.len() == 0 {
        0
    } else {
        value_of(digits.drop_last(), radix) * radix + digit_value(digits.last())
    }
}

/// Whether character `k` exists and is `c`.
pub open spec fn at(s: Seq<char>, k: int, c: char) -> bool {
    0 <= k < s.len() && s[k] == c
}

/// The first position from `k` on that holds `c`, or the end.
pub open spec fn find(s: Seq<char>, k: int, c: char) -> int
    decreases s.len() - k,
{
    if k >= s.len() || s[k] == c {
        k
    } else {
        find(s, k + 1, c)
    }
}

/// The first position from `k` on that does not hold `c`, or the end.
pub open spec fn skip(s: Seq<char>, k: int, c: char) -> int
    decreases s.len() - k,
{
    if k >= s.len() || s[k] != c {
        k
    } else {
        skip(s, k + 1, c)
    }
}

pub open spec fn fault(s: Seq<char>, kind: LexErrorKind, from: int, to: int) -> Fault {
    Fault { kind, start: offset(s, from) as int, end: offset(s, to) as int }
}

pub open spec fn piece(s: Seq<char>, lexeme: Lexeme, from: int, to: int) -> Piece {
    Piece { lexeme, start: offset(s, from) as int, end: offset(s, to) as int }
}

// ---- between tokens ----

/// Where a block comment ends that is `depth` deep at `k`, if it ever does. Comments nest.
pub open spec fn block_end(s: Seq<char>, k: int, depth: nat) -> Option<int>
    decreases s.len() - k,
{
    if depth == 0 {
        Some(k)
    } else if k >= s.len() {
        None
    } else if s[k] == '/' && at(s, k + 1, '*') {
        block_end(s, k + 2, depth + 1)
    } else if s[k] == '*' && at(s, k + 1, '/') {
        block_end(s, k + 2, (depth - 1) as nat)
    } else {
        block_end(s, k + 1, depth)
    }
}

/// What the stretch of whitespace and comments at some position holds.
pub struct Gap {
    pub end: int,
    pub comments: Seq<Comment>,
    pub faults: Seq<Fault>,
}

/// Whether a line comment that starts at `k` is a doc comment: three slashes, not four.
pub open spec fn is_doc(s: Seq<char>, k: int) -> bool {
    at(s, k + 2, '/') && !at(s, k + 3, '/')
}

/// The line comment at `k`, up to the end of its line.
pub open spec fn line_comment(s: Seq<char>, k: int) -> Comment {
    let text = if is_doc(s, k) {
        k + 3
    } else {
        k + 2
    };
    let end = find(s, text, '\n');
    Comment {
        kind: if is_doc(s, k) {
            TriviaKind::Doc
        } else {
            TriviaKind::Line
        },
        start: offset(s, k) as int,
        end: offset(s, end) as int,
        text: s.subrange(text, end),
    }
}

/// Where the line comment at `k` ends.
pub open spec fn line_comment_end(s: Seq<char>, k: int) -> int {
    find(
        s,
        if is_doc(s, k) {
            k + 3
        } else {
            k + 2
        },
        '\n',
    )
}

/// The block comment from `k` to `end`.
pub open spec fn block_comment(s: Seq<char>, k: int, end: int) -> Comment {
    Comment {
        kind: TriviaKind::Block,
        start: offset(s, k) as int,
        end: offset(s, end) as int,
        text: s.subrange(k + 2, end - 2),
    }
}

/// Whitespace and comments from `k` on. A block comment that never closes takes the rest
/// of the text with it.
pub open spec fn gap(s: Seq<char>, k: int) -> Gap
    decreases s.len() - k,
{
    if k >= s.len() {
        Gap { end: k, comments: seq![], faults: seq![] }
    } else if is_space(s[k]) {
        gap(s, k + 1)
    } else if s[k] == '/' && at(s, k + 1, '/') {
        let end = line_comment_end(s, k);
        if !(k < end <= s.len()) {
            Gap { end, comments: seq![], faults: seq![] }
        } else {
            let rest = gap(s, end);
            Gap { comments: seq![line_comment(s, k)] + rest.comments, ..rest }
        }
    } else if s[k] == '/' && at(s, k + 1, '*') {
        match block_end(s, k + 2, 1) {
            Some(end) => if !(k < end <= s.len()) {
                Gap { end, comments: seq![], faults: seq![] }
            } else {
                let rest = gap(s, end);
                Gap { comments: seq![block_comment(s, k, end)] + rest.comments, ..rest }
            },
            None => Gap {
                end: s.len() as int,
                comments: seq![],
                faults: seq![
                    fault(s, LexErrorKind::UnterminatedBlockComment, k, s.len() as int),
                ],
            },
        }
    } else {
        Gap { end: k, comments: seq![], faults: seq![] }
    }
}

// ---- tokens ----

/// What a scan at some position found: at most one token, where it ends, and complaints.
pub struct Found {
    pub lexeme: Option<Lexeme>,
    pub end: int,
    pub faults: Seq<Fault>,
}

/// Where the identifier whose first character is at `k - 1` ends.
pub open spec fn ident_end(s: Seq<char>, k: int) -> int
    decreases s.len() - k,
{
    if k < s.len() && ident_continue(s[k]) {
        ident_end(s, k + 1)
    } else {
        k
    }
}

pub open spec fn all_ascii(t: Seq<char>) -> bool {
    forall|i: int| 0 <= i < t.len() ==> is_ascii(#[trigger] t[i])
}

/// An identifier's name: its text, in normalization form C unless it is all ASCII.
pub open spec fn ident_name(raw: Seq<char>) -> Seq<char> {
    if all_ascii(raw) {
        raw
    } else {
        nfc(raw)
    }
}

/// What a word is: a keyword, or an identifier.
pub open spec fn word_lexeme(word: Seq<char>) -> Lexeme {
    match keyword_of(word) {
        Some(t) => Lexeme::Fixed(t),
        None => Lexeme::Ident(word),
    }
}

/// Punctuation of two characters.
pub open spec fn pair_token(a: char, b: char) -> Option<Token> {
    if a == '-' && b == '>' {
        Some(Token::Arrow)
    } else if a == '=' && b == '=' {
        Some(Token::EqEq)
    } else if a == '=' && b == '>' {
        Some(Token::FatArrow)
    } else if a == '!' && b == '=' {
        Some(Token::NotEq)
    } else if a == '<' && b == '=' {
        Some(Token::LtEq)
    } else if a == '>' && b == '=' {
        Some(Token::GtEq)
    } else if a == '|' && b == '>' {
        Some(Token::Pipe)
    } else if a == '.' && b == '.' {
        Some(Token::DotDot)
    } else if a == ':' && b == ':' {
        Some(Token::ColonColon)
    } else {
        None
    }
}

/// Punctuation of one character.
pub open spec fn single_token(c: char) -> Option<Token> {
    match c {
        '+' => Some(Token::Plus),
        '-' => Some(Token::Minus),
        '*' => Some(Token::Star),
        '/' => Some(Token::Slash),
        '%' => Some(Token::Percent),
        '=' => Some(Token::Eq),
        '!' => Some(Token::Bang),
        '<' => Some(Token::Lt),
        '>' => Some(Token::Gt),
        '|' => Some(Token::Bar),
        '.' => Some(Token::Dot),
        ':' => Some(Token::Colon),
        '?' => Some(Token::Question),
        ',' => Some(Token::Comma),
        ';' => Some(Token::Semi),
        '@' => Some(Token::At),
        '&' => Some(Token::Ampersand),
        '(' => Some(Token::LParen),
        ')' => Some(Token::RParen),
        '[' => Some(Token::LBracket),
        ']' => Some(Token::RBracket),
        '{' => Some(Token::LBrace),
        '}' => Some(Token::RBrace),
        _ => None,
    }
}

/// The punctuation at `k`, the longest that fits, and where it ends.
pub open spec fn punct(s: Seq<char>, k: int) -> (Option<Token>, int) {
    if k + 1 < s.len() && pair_token(s[k], s[k + 1]) is Some {
        (pair_token(s[k], s[k + 1]), k + 2)
    } else {
        (single_token(s[k]), k + 1)
    }
}

/// A run of digits: the digits themselves, where the run ends, and complaints about
/// underscores.
pub struct Digits {
    pub digits: Seq<char>,
    pub end: int,
    pub faults: Seq<Fault>,
}

/// The digits from `k` on. `after` says whether a digit stands right before `k`. An
/// underscore must stand alone between two digits; a run of them is one complaint.
pub open spec fn digits(s: Seq<char>, k: int, radix: int, after: bool) -> Digits
    decreases s.len() - k,
{
    if k >= s.len() {
        Digits { digits: seq![], end: k, faults: seq![] }
    } else if s[k] == '_' {
        let end = skip(s, k + 1, '_');
        if !(k < end <= s.len()) {
            Digits { digits: seq![], end, faults: seq![] }
        } else {
            let rest = digits(s, end, radix, false);
            if after && end == k + 1 && end < s.len() && is_digit(s[end], radix) {
                rest
            } else {
                Digits {
                    faults: seq![fault(s, LexErrorKind::MisplacedUnderscore, k, end)] + rest.faults,
                    ..rest
                }
            }
        }
    } else if is_digit(s[k], radix) {
        let rest = digits(s, k + 1, radix, true);
        Digits { digits: seq![s[k]] + rest.digits, ..rest }
    } else {
        Digits { digits: seq![], end: k, faults: seq![] }
    }
}

/// The base that a number starting at `k` is written in.
pub open spec fn radix_at(s: Seq<char>, k: int) -> int {
    if !at(s, k, '0') {
        10
    } else if at(s, k + 1, 'x') || at(s, k + 1, 'X') {
        16
    } else if at(s, k + 1, 'o') || at(s, k + 1, 'O') {
        8
    } else if at(s, k + 1, 'b') || at(s, k + 1, 'B') {
        2
    } else {
        10
    }
}

/// The text without its underscores.
pub open spec fn without_underscores(t: Seq<char>) -> Seq<char>
    decreases t.len(),
{
    if t.len() == 0 {
        seq![]
    } else if t.last() == '_' {
        without_underscores(t.drop_last())
    } else {
        without_underscores(t.drop_last()).push(t.last())
    }
}

/// An integer literal from `start` whose digits have been read.
pub open spec fn integer(s: Seq<char>, start: int, d: Digits, radix: int) -> Found {
    if value_of(d.digits, radix) <= u64::MAX {
        Found {
            lexeme: Some(Lexeme::Int(value_of(d.digits, radix) as u64)),
            end: d.end,
            faults: d.faults,
        }
    } else {
        Found {
            lexeme: None,
            end: d.end,
            faults: d.faults.push(fault(s, LexErrorKind::IntegerOverflow, start, d.end)),
        }
    }
}

pub open spec fn empty_number(s: Seq<char>, start: int, end: int, faults: Seq<Fault>) -> Found {
    Found {
        lexeme: None,
        end,
        faults: faults.push(fault(s, LexErrorKind::EmptyIntLiteral, start, end)),
    }
}

pub open spec fn float(s: Seq<char>, start: int, end: int, faults: Seq<Fault>) -> Found {
    Found {
        lexeme: Some(Lexeme::Float(without_underscores(s.subrange(start, end)))),
        end,
        faults,
    }
}

/// Whether an exponent starts at `k`.
pub open spec fn exponent_at(s: Seq<char>, k: int) -> bool {
    at(s, k, 'e') || at(s, k, 'E')
}

/// The rest of a float after its digits before and after the point, which end at `k`.
pub open spec fn exponent(s: Seq<char>, start: int, k: int, faults: Seq<Fault>) -> Found {
    if exponent_at(s, k) {
        let from = if at(s, k + 1, '+') || at(s, k + 1, '-') {
            k + 2
        } else {
            k + 1
        };
        let d = digits(s, from, 10, false);
        if d.digits.len() == 0 {
            empty_number(s, start, d.end, faults + d.faults)
        } else {
            float(s, start, d.end, faults + d.faults)
        }
    } else {
        float(s, start, k, faults)
    }
}

/// The number at `k`. A float needs a digit after its point, so `t.0` and `xs..1` are not
/// floats; it keeps its spelling.
pub open spec fn number(s: Seq<char>, k: int) -> Found {
    let radix = radix_at(s, k);
    if radix != 10 {
        let d = digits(s, k + 2, radix, false);
        if d.digits.len() == 0 {
            empty_number(s, k, d.end, d.faults)
        } else {
            integer(s, k, d, radix)
        }
    } else {
        let d = digits(s, k, 10, false);
        let point = at(s, d.end, '.') && d.end + 1 < s.len() && is_digit(s[d.end + 1], 10);
        if point {
            let frac = digits(s, d.end + 1, 10, false);
            exponent(s, k, frac.end, d.faults + frac.faults)
        } else if exponent_at(s, d.end) {
            exponent(s, k, d.end, d.faults)
        } else {
            integer(s, k, d, 10)
        }
    }
}

// ---- characters in quotes ----

/// Where the run of at most `room` hexadecimal digits from `k` ends.
pub open spec fn hex_end(s: Seq<char>, k: int, room: nat) -> int
    decreases room,
{
    if room > 0 && k < s.len() && is_digit(s[k], 16) {
        hex_end(s, k + 1, (room - 1) as nat)
    } else {
        k
    }
}

/// Whether a number is a character: neither a surrogate nor past the last plane.
pub open spec fn is_char(v: int) -> bool {
    0 <= v < 0xD800 || 0xE000 <= v <= 0x10FFFF
}

/// The character that an escape stands for, or why there is none; and where it ends.
pub open spec fn escape(s: Seq<char>, k: int) -> (Result<char, LexErrorKind>, int) {
    if k >= s.len() {
        (Err(LexErrorKind::UnterminatedString), k)
    } else {
        match s[k] {
            'n' => (Ok('\n'), k + 1),
            'r' => (Ok('\r'), k + 1),
            't' => (Ok('\t'), k + 1),
            '0' => (Ok('\0'), k + 1),
            '\\' => (Ok('\\'), k + 1),
            '"' => (Ok('"'), k + 1),
            '\'' => (Ok('\''), k + 1),
            'x' => hex_escape(s, k + 1),
            'u' => unicode_escape(s, k + 1),
            c => (Err(LexErrorKind::UnknownEscape(c)), k + 1),
        }
    }
}

/// The rest of `\xHH` after the `x`: exactly two digits.
pub open spec fn hex_escape(s: Seq<char>, k: int) -> (Result<char, LexErrorKind>, int) {
    let end = hex_end(s, k, 2);
    if end == k + 2 {
        (Ok(value_of(s.subrange(k, end), 16) as char), end)
    } else {
        (Err(LexErrorKind::BadHexEscape), end)
    }
}

/// The rest of `\u{H..}` after the `u`: one to six digits that name a character.
pub open spec fn unicode_escape(s: Seq<char>, k: int) -> (Result<char, LexErrorKind>, int) {
    if !at(s, k, '{') {
        (Err(LexErrorKind::BadUnicodeEscape), k)
    } else {
        let end = hex_end(s, k + 1, 6);
        let v = value_of(s.subrange(k + 1, end), 16);
        if !at(s, end, '}') {
            (Err(LexErrorKind::BadUnicodeEscape), end)
        } else if end > k + 1 && is_char(v) {
            (Ok(v as char), end + 1)
        } else {
            (Err(LexErrorKind::BadUnicodeEscape), end + 1)
        }
    }
}

/// The first quote or line break from `k` on, or the end.
pub open spec fn rune_stop(s: Seq<char>, k: int) -> int
    decreases s.len() - k,
{
    if k >= s.len() || s[k] == '\'' || s[k] == '\n' {
        k
    } else {
        rune_stop(s, k + 1)
    }
}

/// A rune literal from `start` whose character `c` has been read up to `k`.
pub open spec fn rune_close(s: Seq<char>, start: int, c: char, k: int) -> Found {
    if at(s, k, '\'') {
        Found { lexeme: Some(Lexeme::Rune(c)), end: k + 1, faults: seq![] }
    } else {
        let stop = rune_stop(s, k);
        if at(s, stop, '\'') {
            Found {
                lexeme: None,
                end: stop + 1,
                faults: seq![fault(s, LexErrorKind::OvershortRune, start, stop + 1)],
            }
        } else {
            Found {
                lexeme: None,
                end: stop,
                faults: seq![fault(s, LexErrorKind::UnterminatedRune, start, stop)],
            }
        }
    }
}

/// The position after the next quote from `k` on, or the end.
pub open spec fn past_quote(s: Seq<char>, k: int) -> int {
    let q = find(s, k, '\'');
    if q < s.len() {
        q + 1
    } else {
        q
    }
}

/// The rune literal whose opening quote is at `k`.
pub open spec fn rune(s: Seq<char>, k: int) -> Found {
    if k + 1 >= s.len() {
        Found {
            lexeme: None,
            end: k + 1,
            faults: seq![fault(s, LexErrorKind::UnterminatedRune, k, k + 1)],
        }
    } else if s[k + 1] == '\'' {
        Found {
            lexeme: None,
            end: k + 2,
            faults: seq![fault(s, LexErrorKind::EmptyRune, k, k + 2)],
        }
    } else if s[k + 1] == '\\' {
        let (c, end) = escape(s, k + 2);
        match c {
            Ok(c) => rune_close(s, k, c, end),
            Err(kind) => Found {
                lexeme: None,
                end: past_quote(s, end),
                faults: seq![fault(s, kind, k + 1, end)],
            },
        }
    } else {
        rune_close(s, k, s[k + 1], k + 2)
    }
}

/// A run of string text: what it says, where it ends, and complaints about escapes.
pub struct TextRun {
    pub text: Seq<char>,
    pub end: int,
    pub faults: Seq<Fault>,
}

/// The string text from `k` up to a closing quote, a `#{`, or the end. A bare `#` is text,
/// and so is `\#`.
pub open spec fn text_run(s: Seq<char>, k: int) -> TextRun
    decreases s.len() - k,
{
    if k >= s.len() || s[k] == '"' || (s[k] == '#' && at(s, k + 1, '{')) {
        TextRun { text: seq![], end: k, faults: seq![] }
    } else if s[k] == '\\' {
        if at(s, k + 1, '#') {
            let rest = text_run(s, k + 2);
            TextRun { text: seq!['#'] + rest.text, ..rest }
        } else {
            let (c, end) = escape(s, k + 1);
            if !(k < end <= s.len()) {
                TextRun { text: seq![], end: k, faults: seq![] }
            } else {
                let rest = text_run(s, end);
                match c {
                    Ok(c) => TextRun { text: seq![c] + rest.text, ..rest },
                    Err(kind) => TextRun {
                        faults: seq![fault(s, kind, k, end)] + rest.faults,
                        ..rest
                    },
                }
            }
        }
    } else {
        let rest = text_run(s, k + 1);
        TextRun { text: seq![s[k]] + rest.text, ..rest }
    }
}

// ---- the whole text ----

/// What the lexer is inside of.
pub enum Frame {
    Code,
    /// A string literal, and where its quote is.
    Str { open: int },
    /// A hole in a string, where its `#{` is, and how many braces are open in it.
    Interp { open: int, depth: nat },
}

/// How far the text has been read, and what it gave so far.
pub struct LexState {
    pub pos: int,
    pub frames: Seq<Frame>,
    pub pieces: Seq<Piece>,
    pub comments: Seq<Comment>,
    pub faults: Seq<Fault>,
}

/// Whether the last token is an identifier that ends right at `k`.
pub open spec fn glued(s: Seq<char>, pieces: Seq<Piece>, k: int) -> bool {
    pieces.len() > 0 && pieces.last().end == offset(s, k) && pieces.last().lexeme is Ident
}

/// Whether the colon at `k` starts an atom: an identifier follows it, and none stands
/// right before it. So `{ x:y }` and `{ x: y }` read alike.
pub open spec fn atom_at(s: Seq<char>, pieces: Seq<Piece>, k: int) -> bool {
    !glued(s, pieces, k) && k + 1 < s.len() && ident_start(s[k + 1])
}

/// The state after a scan that found at most one token.
pub open spec fn after(s: Seq<char>, st: LexState, f: Found) -> LexState {
    LexState {
        pos: f.end,
        pieces: match f.lexeme {
            Some(x) => st.pieces.push(piece(s, x, st.pos, f.end)),
            None => st.pieces,
        },
        faults: st.faults + f.faults,
        ..st
    }
}

/// A character that no token starts with.
pub open spec fn stray(s: Seq<char>, k: int) -> Found {
    Found {
        lexeme: None,
        end: k + 1,
        faults: seq![
            fault(
                s,
                if s[k] == '\u{feff}' {
                    LexErrorKind::UnexpectedBom
                } else {
                    LexErrorKind::UnexpectedChar(s[k])
                },
                k,
                k + 1,
            ),
        ],
    }
}

/// The state after the punctuation at the current position. Inside a hole braces are
/// counted, so that a record literal there finds its own `}` before the hole's.
pub open spec fn after_punct(s: Seq<char>, st: LexState) -> LexState {
    let (t, end) = punct(s, st.pos);
    match t {
        None => after(s, st, stray(s, st.pos)),
        Some(t) => {
            let plain = after(
                s,
                st,
                Found { lexeme: Some(Lexeme::Fixed(t)), end, faults: seq![] },
            );
            match st.frames.last() {
                Frame::Interp { open, depth } => if t is LBrace {
                    LexState {
                        frames: st.frames.drop_last().push(Frame::Interp { open, depth: depth + 1 }),
                        ..plain
                    }
                } else if t is RBrace && depth == 0 {
                    LexState {
                        frames: st.frames.drop_last(),
                        pieces: st.pieces.push(
                            piece(s, Lexeme::Fixed(Token::InterpEnd), st.pos, end),
                        ),
                        ..plain
                    }
                } else if t is RBrace {
                    LexState {
                        frames: st.frames.drop_last().push(
                            Frame::Interp { open, depth: (depth - 1) as nat },
                        ),
                        ..plain
                    }
                } else {
                    plain
                },
                _ => plain,
            }
        },
    }
}

/// The state after the token at the current position, outside a string.
pub open spec fn after_token(s: Seq<char>, st: LexState) -> LexState {
    let k = st.pos;
    let c = s[k];
    if c == '"' {
        LexState {
            frames: st.frames.push(Frame::Str { open: offset(s, k) as int }),
            ..after(
                s,
                st,
                Found { lexeme: Some(Lexeme::Fixed(Token::StrStart)), end: k + 1, faults: seq![] },
            )
        }
    } else if c == '\'' {
        after(s, st, rune(s, k))
    } else if '0' <= c <= '9' {
        after(s, st, number(s, k))
    } else if c == ':' && atom_at(s, st.pieces, k) {
        let end = ident_end(s, k + 2);
        after(
            s,
            st,
            Found {
                lexeme: Some(Lexeme::Atom(ident_name(s.subrange(k + 1, end)))),
                end,
                faults: seq![],
            },
        )
    } else if ident_start(c) {
        let end = ident_end(s, k + 1);
        after(
            s,
            st,
            Found {
                lexeme: Some(word_lexeme(ident_name(s.subrange(k, end)))),
                end,
                faults: seq![],
            },
        )
    } else if !is_ascii(c) {
        after(s, st, stray(s, k))
    } else {
        after_punct(s, st)
    }
}

/// The state after the whitespace and comments at the current position.
pub open spec fn after_gap(s: Seq<char>, st: LexState) -> LexState {
    let g = gap(s, st.pos);
    LexState {
        pos: g.end,
        comments: st.comments + g.comments,
        faults: st.faults + g.faults,
        ..st
    }
}

/// The state after a run of string text and what ends it.
pub open spec fn after_text(s: Seq<char>, st: LexState) -> LexState {
    let run = text_run(s, st.pos);
    let read = LexState {
        pos: run.end,
        pieces: if run.text.len() > 0 {
            st.pieces.push(piece(s, Lexeme::Text(run.text), st.pos, run.end))
        } else {
            st.pieces
        },
        faults: st.faults + run.faults,
        ..st
    };
    let k = run.end;
    if at(s, k, '"') {
        LexState {
            pos: k + 1,
            frames: st.frames.drop_last(),
            pieces: read.pieces.push(piece(s, Lexeme::Fixed(Token::StrEnd), k, k + 1)),
            ..read
        }
    } else if at(s, k, '#') {
        LexState {
            pos: k + 2,
            frames: st.frames.push(Frame::Interp { open: offset(s, k) as int, depth: 0 }),
            pieces: read.pieces.push(piece(s, Lexeme::Fixed(Token::InterpStart), k, k + 2)),
            ..read
        }
    } else {
        read
    }
}

/// One step of the lexer.
pub open spec fn step(s: Seq<char>, st: LexState) -> LexState {
    if st.frames.last() is Str {
        after_text(s, st)
    } else {
        let g = after_gap(s, st);
        if g.pos < s.len() {
            after_token(s, g)
        } else {
            g
        }
    }
}

/// The state when the text has been read to its end.
pub open spec fn finish(s: Seq<char>, st: LexState) -> LexState
    decreases s.len() - st.pos,
{
    if st.pos >= s.len() {
        st
    } else {
        let next = step(s, st);
        if st.pos < next.pos <= s.len() {
            finish(s, next)
        } else {
            next
        }
    }
}

/// The state before anything has been read. A byte-order mark at the start is skipped.
pub open spec fn start(s: Seq<char>) -> LexState {
    LexState {
        pos: if at(s, 0, '\u{feff}') {
            1
        } else {
            0
        },
        frames: seq![Frame::Code],
        pieces: seq![],
        comments: seq![],
        faults: seq![],
    }
}

/// Where the outermost hole that is still open starts.
pub open spec fn open_interp(frames: Seq<Frame>) -> Option<int>
    decreases frames.len(),
{
    if frames.len() == 0 {
        None
    } else {
        match open_interp(frames.drop_last()) {
            Some(open) => Some(open),
            None => match frames.last() {
                Frame::Interp { open, .. } => Some(open),
                _ => None,
            },
        }
    }
}

/// Where the outermost string that is still open starts.
pub open spec fn open_str(frames: Seq<Frame>) -> Option<int>
    decreases frames.len(),
{
    if frames.len() == 0 {
        None
    } else {
        match open_str(frames.drop_last()) {
            Some(open) => Some(open),
            None => match frames.last() {
                Frame::Str { open } => Some(open),
                _ => None,
            },
        }
    }
}

/// What is wrong with what is still open at the end. A hole outranks a string: in
/// `"value: #{n"` the last quote opened a string inside the hole, and the mistake is the
/// missing `}`.
pub open spec fn unclosed(frames: Seq<Frame>) -> Seq<Fault> {
    match open_interp(frames) {
        Some(open) => seq![
            Fault { kind: LexErrorKind::UnterminatedInterp, start: open, end: open + 2 },
        ],
        None => match open_str(frames) {
            Some(open) => seq![
                Fault { kind: LexErrorKind::UnterminatedString, start: open, end: open + 1 },
            ],
            None => seq![],
        },
    }
}

/// Everything that is wrong with a text.
pub open spec fn faults_of(s: Seq<char>) -> Seq<Fault> {
    let end = finish(s, start(s));
    end.faults + unclosed(end.frames)
}

/// The tokens of a text.
pub open spec fn pieces_of(s: Seq<char>) -> Seq<Piece> {
    finish(s, start(s)).pieces
}

/// The comments of a text.
pub open spec fn comments_of(s: Seq<char>) -> Seq<Comment> {
    finish(s, start(s)).comments
}

/// Where the lines of the first `k` characters start, in bytes.
pub open spec fn line_starts_to(s: Seq<char>, k: int) -> Seq<usize>
    decreases k,
{
    if k <= 0 {
        seq![0usize]
    } else if s[k - 1] == '\n' {
        line_starts_to(s, k - 1).push(offset(s, k) as usize)
    } else {
        line_starts_to(s, k - 1)
    }
}

} // verus!
