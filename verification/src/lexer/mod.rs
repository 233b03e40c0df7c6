//! Source text to tokens, in one pass.
//!
//! String interpolation nests: `"a #{f("b")} c"` puts a string inside a hole inside a
//! string. So the lexer carries a stack of modes rather than a flag, and a string literal
//! comes out as a flat run of tokens that the parser puts together again.
//!
//! Comments and line starts go into side tables, not into the token stream: the parser's
//! input is exactly the grammar's alphabet.
//!
//! Errors accumulate: the lexer always runs to the end of the text, so one bad escape
//! does not hide the mistakes after it. [`grammar`] says what a text reads as; the
//! functions here compute it.

pub mod error;
pub mod grammar;
pub mod laws;
pub mod numbers;
pub mod token;
pub mod trivia;
pub mod unicode;
pub mod words;

pub use error::{LexError, LexErrorKind};
pub use token::{Span, Spanned, Token};
pub use trivia::{Lexed, Trivia, TriviaKind};

use crate::text::{
    char_width, chars_of, lemma_offset_grows, lemma_offset_is_encoded_len, offset, string_of,
};
use error::Fault;
use grammar::{Digits, Found, Frame, LexState, TextRun};
use token::{Lexeme, Piece};
use trivia::Comment;
use vstd::prelude::*;
use vstd::string::*;

verus! {

/// What the lexer is inside of. Each mode remembers where it was opened, so that what is
/// left open can be pointed at.
#[derive(Clone, Copy, PartialEq, Eq, Structural)]
enum Mode {
    Code,
    Str { open: usize },
    /// Inside `#{ .. }`, with the number of braces open there.
    Interp { open: usize, depth: usize },
}

impl View for Mode {
    type V = Frame;

    closed spec fn view(&self) -> Frame {
        match *self {
            Mode::Code => Frame::Code,
            Mode::Str { open } => Frame::Str { open: open as int },
            Mode::Interp { open, depth } => Frame::Interp { open: open as int, depth: depth as nat },
        }
    }
}

spec fn frames(modes: Seq<Mode>) -> Seq<Frame> {
    modes.map_values(|m: Mode| m@)
}

pub open spec fn pieces(tokens: Seq<Spanned>) -> Seq<Piece> {
    tokens.map_values(|t: Spanned| t@)
}

pub open spec fn comments(trivia: Seq<Trivia>) -> Seq<Comment> {
    trivia.map_values(|t: Trivia| t@)
}

pub open spec fn faults(errors: Seq<LexError>) -> Seq<Fault> {
    errors.map_values(|e: LexError| e@)
}

/// The source text, with the byte offset of every character.
struct Source {
    chars: Vec<char>,
    offsets: Vec<usize>,
}

impl Source {
    spec fn wf(&self) -> bool {
        &&& self.offsets.len() == self.chars.len() + 1
        &&& forall|k: int|
            0 <= k <= self.chars.len() ==> #[trigger] self.offsets[k] == offset(self.chars@, k)
    }

    fn new(text: &str) -> (r: Source)
        ensures
            r.wf(),
            r.chars@ == text@,
    {
        let chars = chars_of(text);
        let bytes = text.as_bytes();
        let total: usize = bytes.len();
        proof {
            lemma_offset_is_encoded_len(text@);
        }
        let mut offsets: Vec<usize> = Vec::new();
        offsets.push(0);
        let mut i: usize = 0;
        let mut at: usize = 0;
        while i < chars.len()
            invariant
                i <= chars.len(),
                at == offset(chars@, i as int),
                total == offset(chars@, chars.len() as int),
                offsets.len() == i + 1,
                forall|k: int| 0 <= k <= i ==> #[trigger] offsets[k] == offset(chars@, k),
            decreases chars.len() - i,
        {
            proof {
                lemma_offset_grows(chars@, i + 1, chars.len() as int);
            }
            at += char_width(chars[i]);
            i += 1;
            offsets.push(at);
        }
        Source { chars, offsets }
    }

    /// Whether character `k` exists and is `c`.
    fn at(&self, k: usize, c: char) -> (r: bool)
        ensures
            r == grammar::at(self.chars@, k as int, c),
    {
        k < self.chars.len() && self.chars[k] == c
    }

    /// The bytes from character `from` to character `to`.
    fn span(&self, from: usize, to: usize) -> (r: Span)
        requires
            self.wf(),
            from <= self.chars.len(),
            to <= self.chars.len(),
        ensures
            r.start == offset(self.chars@, from as int),
            r.end == offset(self.chars@, to as int),
    {
        self.offsets[from]..self.offsets[to]
    }

    fn fault(&self, kind: LexErrorKind, from: usize, to: usize) -> (r: LexError)
        requires
            self.wf(),
            from <= self.chars.len(),
            to <= self.chars.len(),
        ensures
            r@ == grammar::fault(self.chars@, kind, from as int, to as int),
    {
        LexError::new(kind, self.span(from, to))
    }

    fn find(&self, k: usize, c: char) -> (r: usize)
        requires
            k <= self.chars.len(),
        ensures
            r == grammar::find(self.chars@, k as int, c),
            k <= r <= self.chars.len(),
    {
        let mut i: usize = k;
        while i < self.chars.len() && self.chars[i] != c
            invariant
                k <= i <= self.chars.len(),
                grammar::find(self.chars@, k as int, c) == grammar::find(self.chars@, i as int, c),
            decreases self.chars.len() - i,
        {
            i += 1;
        }
        i
    }

    fn skip(&self, k: usize, c: char) -> (r: usize)
        requires
            k <= self.chars.len(),
        ensures
            r == grammar::skip(self.chars@, k as int, c),
            k <= r <= self.chars.len(),
    {
        let mut i: usize = k;
        while i < self.chars.len() && self.chars[i] == c
            invariant
                k <= i <= self.chars.len(),
                grammar::skip(self.chars@, k as int, c) == grammar::skip(self.chars@, i as int, c),
            decreases self.chars.len() - i,
        {
            i += 1;
        }
        i
    }
}

// ---- scanning ----
//
// Each of these reads the text from a position and says what it found there.

/// At most one token, where it ends, and complaints.
struct Scan {
    token: Option<Token>,
    end: usize,
    errors: Vec<LexError>,
}

impl View for Scan {
    type V = Found;

    closed spec fn view(&self) -> Found {
        Found {
            lexeme: match self.token {
                Some(t) => Some(t@),
                None => None,
            },
            end: self.end as int,
            faults: faults(self.errors@),
        }
    }
}

fn found(token: Token, end: usize) -> (r: Scan)
    ensures
        r@ == (Found { lexeme: Some(token@), end: end as int, faults: seq![] }),
{
    let r = Scan { token: Some(token), end, errors: Vec::new() };
    assert(r@.faults =~= seq![]);
    r
}

/// The value of a digit in bases up to sixteen; 16 for any other character.
fn digit_value(c: char) -> (r: u32)
    ensures
        r == grammar::digit_value(c),
        r <= 16,
{
    if '0' <= c && c <= '9' {
        c as u32 - '0' as u32
    } else if 'a' <= c && c <= 'f' {
        c as u32 - 'a' as u32 + 10
    } else if 'A' <= c && c <= 'F' {
        c as u32 - 'A' as u32 + 10
    } else {
        16
    }
}

/// Values grow with every digit.
proof fn lemma_value_grows(digits: Seq<char>, radix: int, k: int)
    requires
        0 <= k <= digits.len(),
        radix >= 1,
        forall|i: int| 0 <= i < digits.len() ==> 0 <= grammar::digit_value(#[trigger] digits[i]),
    ensures
        0 <= grammar::value_of(digits.take(k), radix) <= grammar::value_of(digits, radix),
    decreases digits.len(),
{
    if k < digits.len() {
        let shorter = digits.drop_last();
        lemma_value_grows(shorter, radix, k);
        assert(shorter.take(k) =~= digits.take(k));
        let v = grammar::value_of(shorter, radix);
        assert(v * radix >= v) by (nonlinear_arith)
            requires
                radix >= 1,
                v >= 0,
        ;
    } else {
        assert(digits.take(k) =~= digits);
        lemma_value_nonneg(digits, radix);
    }
}

proof fn lemma_value_nonneg(digits: Seq<char>, radix: int)
    requires
        radix >= 1,
    ensures
        grammar::value_of(digits, radix) >= 0,
    decreases digits.len(),
{
    if digits.len() > 0 {
        lemma_value_nonneg(digits.drop_last(), radix);
        let v = grammar::value_of(digits.drop_last(), radix);
        assert(v * radix >= 0) by (nonlinear_arith)
            requires
                radix >= 1,
                v >= 0,
        ;
    }
}

/// The number that a run of digits stands for, if it fits 64 bits.
fn parse_digits(digits: &Vec<char>, radix: u32) -> (r: Option<u64>)
    requires
        2 <= radix <= 16,
    ensures
        match r {
            Some(v) => v == grammar::value_of(digits@, radix as int),
            None => grammar::value_of(digits@, radix as int) > u64::MAX,
        },
{
    let mut v: u64 = 0;
    let mut i: usize = 0;
    while i < digits.len()
        invariant
            i <= digits.len(),
            2 <= radix <= 16,
            v == grammar::value_of(digits@.take(i as int), radix as int),
        decreases digits.len() - i,
    {
        assert(digits@.take(i + 1).drop_last() =~= digits@.take(i as int));
        let d: u32 = digit_value(digits[i]);
        assert(0 <= v * radix <= 0xffff_ffff_ffff_ffff * 16) by (nonlinear_arith)
            requires
                0 <= v <= 0xffff_ffff_ffff_ffff,
                2 <= radix <= 16,
        ;
        let wide: u128 = v as u128 * radix as u128 + d as u128;
        assert(wide == grammar::value_of(digits@.take(i + 1), radix as int));
        if wide > u64::MAX as u128 {
            proof {
                lemma_value_grows(digits@, radix as int, i + 1);
            }
            return None;
        }
        v = wide as u64;
        i += 1;
    }
    assert(digits@.take(i as int) =~= digits@);
    Some(v)
}

/// A run of digits, where it ends, and complaints about underscores.
struct DigitRun {
    digits: Vec<char>,
    end: usize,
    errors: Vec<LexError>,
}

impl View for DigitRun {
    type V = Digits;

    closed spec fn view(&self) -> Digits {
        Digits { digits: self.digits@, end: self.end as int, faults: faults(self.errors@) }
    }
}

/// Append the complaints of one scan to those of another.
fn join(mut a: Vec<LexError>, b: Vec<LexError>) -> (r: Vec<LexError>)
    ensures
        faults(r@) == faults(a@) + faults(b@),
{
    let ghost a0 = a@;
    let ghost b0 = b@;
    let mut b = b;
    a.append(&mut b);
    assert(faults(a@) =~= faults(a0) + faults(b0));
    a
}

impl Source {
    /// Digits from `k` on, with underscores between them left out.
    fn take_digits(&self, k: usize, radix: u32) -> (r: DigitRun)
        requires
            self.wf(),
            k <= self.chars.len(),
            2 <= radix <= 16,
        ensures
            r@ == grammar::digits(self.chars@, k as int, radix as int, false),
            k <= r.end <= self.chars.len(),
    {
        let ghost s = self.chars@;
        let ghost whole = grammar::digits(s, k as int, radix as int, false);
        let mut digits: Vec<char> = Vec::new();
        let mut errors: Vec<LexError> = Vec::new();
        let mut i: usize = k;
        let mut after: bool = false;
        while i < self.chars.len() && (self.chars[i] == '_' || digit_value(self.chars[i]) < radix)
            invariant
                self.wf(),
                s == self.chars@,
                k <= i <= self.chars.len(),
                2 <= radix <= 16,
                whole.end == grammar::digits(s, i as int, radix as int, after).end,
                whole.digits == digits@ + grammar::digits(s, i as int, radix as int, after).digits,
                whole.faults == faults(errors@) + grammar::digits(
                    s,
                    i as int,
                    radix as int,
                    after,
                ).faults,
            decreases self.chars.len() - i,
        {
            let ghost rest = grammar::digits(s, i as int, radix as int, after);
            if self.chars[i] == '_' {
                let end: usize = self.skip(i + 1, '_');
                let fine = after && end == i + 1 && end < self.chars.len() && digit_value(
                    self.chars[end],
                ) < radix;
                let ghost next = grammar::digits(s, end as int, radix as int, false);
                if !fine {
                    let ghost e0 = errors@;
                    let e = self.fault(LexErrorKind::MisplacedUnderscore, i, end);
                    errors.push(e);
                    assert(faults(errors@) =~= faults(e0).push(e@));
                    assert(faults(e0) + rest.faults =~= faults(errors@) + next.faults);
                }
                after = false;
                i = end;
            } else {
                let ghost next = grammar::digits(s, i + 1, radix as int, true);
                let ghost d0 = digits@;
                digits.push(self.chars[i]);
                assert(d0 + rest.digits =~= digits@ + next.digits);
                after = true;
                i += 1;
            }
        }
        let r = DigitRun { digits, end: i, errors };
        assert(r@.digits =~= whole.digits);
        assert(r@.faults =~= whole.faults);
        r
    }

    /// An integer literal from `start` whose digits have been read.
    fn integer(&self, start: usize, d: DigitRun, radix: u32) -> (r: Scan)
        requires
            self.wf(),
            start <= self.chars.len(),
            d.end <= self.chars.len(),
            2 <= radix <= 16,
        ensures
            r@ == grammar::integer(self.chars@, start as int, d@, radix as int),
    {
        match parse_digits(&d.digits, radix) {
            Some(v) => Scan { token: Some(Token::Int(v)), end: d.end, errors: d.errors },
            None => {
                let ghost e0 = d.errors@;
                let mut errors = d.errors;
                let e = self.fault(LexErrorKind::IntegerOverflow, start, d.end);
                errors.push(e);
                assert(faults(errors@) =~= faults(e0).push(e@));
                Scan { token: None, end: d.end, errors }
            },
        }
    }

    fn empty_number(&self, start: usize, end: usize, errors: Vec<LexError>) -> (r: Scan)
        requires
            self.wf(),
            start <= self.chars.len(),
            end <= self.chars.len(),
        ensures
            r@ == grammar::empty_number(
                self.chars@,
                start as int,
                end as int,
                faults(errors@),
            ),
    {
        let ghost e0 = errors@;
        let mut errors = errors;
        let e = self.fault(LexErrorKind::EmptyIntLiteral, start, end);
        errors.push(e);
        assert(faults(errors@) =~= faults(e0).push(e@));
        Scan { token: None, end, errors }
    }

    /// The float literal from `start` to `end`, which keeps its spelling.
    fn float(&self, start: usize, end: usize, errors: Vec<LexError>) -> (r: Scan)
        requires
            start <= end <= self.chars.len(),
        ensures
            r@ == grammar::float(self.chars@, start as int, end as int, faults(errors@)),
    {
        let ghost t = self.chars@.subrange(start as int, end as int);
        let mut text = String::new();
        let mut i: usize = start;
        while i < end
            invariant
                start <= i <= end <= self.chars.len(),
                t == self.chars@.subrange(start as int, end as int),
                text@ == grammar::without_underscores(t.take(i - start)),
            decreases end - i,
        {
            assert(t.take(i - start + 1).drop_last() =~= t.take(i - start));
            if self.chars[i] != '_' {
                text.push(self.chars[i]);
            }
            i += 1;
        }
        assert(t.take(i - start) =~= t);
        Scan { token: Some(Token::Float(text)), end, errors }
    }

    /// The rest of a float from `start` whose digits before the exponent end at `k`.
    fn exponent(&self, start: usize, k: usize, errors: Vec<LexError>) -> (r: Scan)
        requires
            self.wf(),
            start <= k <= self.chars.len(),
        ensures
            r@ == grammar::exponent(self.chars@, start as int, k as int, faults(errors@)),
            k <= r.end <= self.chars.len(),
    {
        if self.at(k, 'e') || self.at(k, 'E') {
            let mut from: usize = k + 1;
            if self.at(from, '+') || self.at(from, '-') {
                from += 1;
            }
            let d = self.take_digits(from, 10);
            let end: usize = d.end;
            let none = d.digits.len() == 0;
            let all = join(errors, d.errors);
            if none {
                self.empty_number(start, end, all)
            } else {
                self.float(start, end, all)
            }
        } else {
            self.float(start, k, errors)
        }
    }

    /// The integer or float literal at `k`.
    ///
    /// Only the magnitude is read; a leading minus is a token of its own.
    fn number(&self, k: usize) -> (r: Scan)
        requires
            self.wf(),
            k < self.chars.len(),
            '0' <= self.chars@[k as int] <= '9',
        ensures
            r@ == grammar::number(self.chars@, k as int),
            k < r.end <= self.chars.len(),
    {
        let radix: u32 = if !self.at(k, '0') {
            10
        } else if self.at(k + 1, 'x') || self.at(k + 1, 'X') {
            16
        } else if self.at(k + 1, 'o') || self.at(k + 1, 'O') {
            8
        } else if self.at(k + 1, 'b') || self.at(k + 1, 'B') {
            2
        } else {
            10
        };
        if radix != 10 {
            let d = self.take_digits(k + 2, radix);
            if d.digits.len() == 0 {
                return self.empty_number(k, d.end, d.errors);
            }
            return self.integer(k, d, radix);
        }
        let d = self.take_digits(k, 10);
        proof {
            lemma_digits_advance(self.chars@, k as int, 10, false);
            lemma_digits_advance(self.chars@, k + 1, 10, true);
        }
        let end: usize = d.end;
        if self.at(end, '.') && end + 1 < self.chars.len() && digit_value(self.chars[end + 1]) < 10 {
            let frac = self.take_digits(end + 1, 10);
            let all = join(d.errors, frac.errors);
            self.exponent(k, frac.end, all)
        } else if self.at(end, 'e') || self.at(end, 'E') {
            self.exponent(k, end, d.errors)
        } else {
            self.integer(k, d, 10)
        }
    }
}

/// A run of digits never ends before it starts.
proof fn lemma_digits_advance(s: Seq<char>, k: int, radix: int, after: bool)
    requires
        0 <= k,
    ensures
        grammar::digits(s, k, radix, after).end >= k,
    decreases s.len() - k,
{
    if k < s.len() {
        if s[k] == '_' {
            let end = grammar::skip(s, k + 1, '_');
            if k < end <= s.len() {
                lemma_digits_advance(s, end, radix, false);
            }
            lemma_skip_advances(s, k + 1, '_');
        } else if grammar::is_digit(s[k], radix) {
            lemma_digits_advance(s, k + 1, radix, true);
        }
    }
}

proof fn lemma_skip_advances(s: Seq<char>, k: int, c: char)
    ensures
        grammar::skip(s, k, c) >= k,
    decreases s.len() - k,
{
    if k < s.len() && s[k] == c {
        lemma_skip_advances(s, k + 1, c);
    }
}

// ---- quoted characters ----

impl Source {
    fn hex_end(&self, k: usize, room: usize) -> (r: usize)
        requires
            k <= self.chars.len(),
        ensures
            r == grammar::hex_end(self.chars@, k as int, room as nat),
            k <= r <= self.chars.len(),
            r <= k + room,
            forall|i: int| k <= i < r ==> grammar::digit_value(#[trigger] self.chars@[i]) < 16,
    {
        let mut i: usize = k;
        let mut left: usize = room;
        while left > 0 && i < self.chars.len() && digit_value(self.chars[i]) < 16
            invariant
                k <= i <= self.chars.len(),
                i + left == k + room,
                forall|j: int| k <= j < i ==> grammar::digit_value(#[trigger] self.chars@[j]) < 16,
                grammar::hex_end(self.chars@, k as int, room as nat) == grammar::hex_end(
                    self.chars@,
                    i as int,
                    left as nat,
                ),
            decreases left,
        {
            i += 1;
            left -= 1;
        }
        i
    }

    /// The value of the hexadecimal digits from `from` to `to`, at most six of them.
    fn hex_value(&self, from: usize, to: usize) -> (r: u32)
        requires
            from <= to <= self.chars.len(),
            to - from <= 6,
            forall|i: int|
                from <= i < to ==> grammar::digit_value(#[trigger] self.chars@[i]) < 16,
        ensures
            r == grammar::value_of(self.chars@.subrange(from as int, to as int), 16),
            to - from <= 2 ==> r < 256,
    {
        let ghost t = self.chars@.subrange(from as int, to as int);
        let mut v: u32 = 0;
        let mut i: usize = from;
        proof {
            reveal_with_fuel(pow16, 7);
        }
        while i < to
            invariant
                from <= i <= to <= self.chars.len(),
                to - from <= 6,
                t == self.chars@.subrange(from as int, to as int),
                forall|j: int|
                    from <= j < to ==> grammar::digit_value(#[trigger] self.chars@[j]) < 16,
                v == grammar::value_of(t.take(i - from), 16),
                v < pow16((i - from) as nat),
            decreases to - i,
        {
            assert(t.take(i - from + 1).drop_last() =~= t.take(i - from));
            assert(pow16((i - from) as nat) <= 0x10_0000) by {
                reveal_with_fuel(pow16, 7);
            }
            v = v * 16 + digit_value(self.chars[i]);
            i += 1;
        }
        assert(t.take(i - from) =~= t);
        v
    }

    /// The rest of `\\xHH` after the `x`.
    fn hex_escape(&self, k: usize) -> (r: (Result<char, LexErrorKind>, usize))
        requires
            k <= self.chars.len(),
        ensures
            (r.0, r.1 as int) == grammar::hex_escape(self.chars@, k as int),
            k <= r.1 <= self.chars.len(),
    {
        let end: usize = self.hex_end(k, 2);
        if end - k == 2 {
            let v: u32 = self.hex_value(k, end);
            let c: char = v as u8 as char;
            (Ok(c), end)
        } else {
            (Err(LexErrorKind::BadHexEscape), end)
        }
    }

    /// The rest of `\\u{H..}` after the `u`.
    fn unicode_escape(&self, k: usize) -> (r: (Result<char, LexErrorKind>, usize))
        requires
            k <= self.chars.len(),
        ensures
            (r.0, r.1 as int) == grammar::unicode_escape(self.chars@, k as int),
            k <= r.1 <= self.chars.len(),
    {
        if !self.at(k, '{') {
            return (Err(LexErrorKind::BadUnicodeEscape), k);
        }
        let end: usize = self.hex_end(k + 1, 6);
        if !self.at(end, '}') {
            return (Err(LexErrorKind::BadUnicodeEscape), end);
        }
        if end == k + 1 {
            return (Err(LexErrorKind::BadUnicodeEscape), end + 1);
        }
        match char::from_u32(self.hex_value(k + 1, end)) {
            Some(c) => (Ok(c), end + 1),
            None => (Err(LexErrorKind::BadUnicodeEscape), end + 1),
        }
    }

    /// The character that the escape at `k`, just after its backslash, stands for. Strings
    /// and runes share this.
    fn escape(&self, k: usize) -> (r: (Result<char, LexErrorKind>, usize))
        requires
            k <= self.chars.len(),
        ensures
            (r.0, r.1 as int) == grammar::escape(self.chars@, k as int),
            k <= r.1 <= self.chars.len(),
    {
        if k >= self.chars.len() {
            return (Err(LexErrorKind::UnterminatedString), k);
        }
        match self.chars[k] {
            'n' => (Ok('\n'), k + 1),
            'r' => (Ok('\r'), k + 1),
            't' => (Ok('\t'), k + 1),
            '0' => (Ok('\0'), k + 1),
            '\\' => (Ok('\\'), k + 1),
            '"' => (Ok('"'), k + 1),
            '\'' => (Ok('\''), k + 1),
            'x' => self.hex_escape(k + 1),
            'u' => self.unicode_escape(k + 1),
            c => (Err(LexErrorKind::UnknownEscape(c)), k + 1),
        }
    }

    fn complaint(&self, kind: LexErrorKind, from: usize, to: usize, end: usize) -> (r: Scan)
        requires
            self.wf(),
            from <= self.chars.len(),
            to <= self.chars.len(),
        ensures
            r@ == (Found {
                lexeme: None,
                end: end as int,
                faults: seq![grammar::fault(self.chars@, kind, from as int, to as int)],
            }),
            r.end == end,
    {
        let mut errors: Vec<LexError> = Vec::new();
        errors.push(self.fault(kind, from, to));
        let r = Scan { token: None, end, errors };
        assert(r@.faults =~= seq![grammar::fault(self.chars@, kind, from as int, to as int)]);
        r
    }

    /// A rune literal from `start` whose character `c` has been read up to `k`.
    fn rune_close(&self, start: usize, c: char, k: usize) -> (r: Scan)
        requires
            self.wf(),
            start <= k <= self.chars.len(),
        ensures
            r@ == grammar::rune_close(self.chars@, start as int, c, k as int),
            k <= r.end <= self.chars.len(),
    {
        if self.at(k, '\'') {
            return found(Token::Rune(c), k + 1);
        }
        let mut i: usize = k;
        while i < self.chars.len() && self.chars[i] != '\'' && self.chars[i] != '\n'
            invariant
                k <= i <= self.chars.len(),
                grammar::rune_stop(self.chars@, k as int) == grammar::rune_stop(
                    self.chars@,
                    i as int,
                ),
            decreases self.chars.len() - i,
        {
            i += 1;
        }
        if self.at(i, '\'') {
            self.complaint(LexErrorKind::OvershortRune, start, i + 1, i + 1)
        } else {
            self.complaint(LexErrorKind::UnterminatedRune, start, i, i)
        }
    }

    /// The rune literal whose opening quote is at `k`.
    fn rune(&self, k: usize) -> (r: Scan)
        requires
            self.wf(),
            k < self.chars.len(),
        ensures
            r@ == grammar::rune(self.chars@, k as int),
            k < r.end <= self.chars.len(),
    {
        if k + 1 >= self.chars.len() {
            return self.complaint(LexErrorKind::UnterminatedRune, k, k + 1, k + 1);
        }
        let c: char = self.chars[k + 1];
        if c == '\'' {
            return self.complaint(LexErrorKind::EmptyRune, k, k + 2, k + 2);
        }
        if c == '\\' {
            let (c, end) = self.escape(k + 2);
            match c {
                Ok(c) => self.rune_close(k, c, end),
                Err(kind) => {
                    // On to the closing quote, so that one bad rune does not spoil
                    // every token after it.
                    let q: usize = self.find(end, '\'');
                    let past: usize = if q < self.chars.len() {
                        q + 1
                    } else {
                        q
                    };
                    self.complaint(kind, k + 1, end, past)
                },
            }
        } else {
            self.rune_close(k, c, k + 2)
        }
    }
}

spec fn pow16(n: nat) -> int
    decreases n,
{
    if n == 0 {
        1
    } else {
        16 * pow16((n - 1) as nat)
    }
}

/// Some string text, where it ends, and complaints about its escapes.
struct Run {
    text: String,
    end: usize,
    errors: Vec<LexError>,
}

impl View for Run {
    type V = TextRun;

    closed spec fn view(&self) -> TextRun {
        TextRun { text: self.text@, end: self.end as int, faults: faults(self.errors@) }
    }
}

impl Source {
    /// The string text from `k` up to a closing quote, a `#{`, or the end. Escapes are
    /// decoded, so the text is the value.
    fn text_run(&self, k: usize) -> (r: Run)
        requires
            self.wf(),
            k <= self.chars.len(),
        ensures
            r@ == grammar::text_run(self.chars@, k as int),
            k <= r.end <= self.chars.len(),
            r.end < self.chars.len() ==> (self.chars@[r.end as int] == '"' || (
            self.chars@[r.end as int] == '#' && grammar::at(self.chars@, r.end + 1, '{'))),
    {
        let ghost s = self.chars@;
        let ghost whole = grammar::text_run(s, k as int);
        let mut text = String::new();
        let mut errors: Vec<LexError> = Vec::new();
        let mut i: usize = k;
        while i < self.chars.len() && self.chars[i] != '"' && !(self.chars[i] == '#' && self.at(
            i + 1,
            '{',
        ))
            invariant
                self.wf(),
                s == self.chars@,
                k <= i <= self.chars.len(),
                whole.end == grammar::text_run(s, i as int).end,
                whole.text == text@ + grammar::text_run(s, i as int).text,
                whole.faults == faults(errors@) + grammar::text_run(s, i as int).faults,
            decreases self.chars.len() - i,
        {
            let ghost rest = grammar::text_run(s, i as int);
            let ghost t0 = text@;
            if self.chars[i] == '\\' {
                if self.at(i + 1, '#') {
                    let ghost next = grammar::text_run(s, i + 2);
                    text.push('#');
                    assert(t0 + rest.text =~= text@ + next.text);
                    i += 2;
                } else {
                    let (c, end) = self.escape(i + 1);
                    let ghost next = grammar::text_run(s, end as int);
                    match c {
                        Ok(c) => {
                            text.push(c);
                            assert(t0 + rest.text =~= text@ + next.text);
                        },
                        // One typo does not swallow the rest of the text.
                        Err(kind) => {
                            let ghost e0 = errors@;
                            let e = self.fault(kind, i, end);
                            errors.push(e);
                            assert(faults(errors@) =~= faults(e0).push(e@));
                            assert(faults(e0) + rest.faults =~= faults(errors@) + next.faults);
                        },
                    }
                    i = end;
                }
            } else {
                let ghost next = grammar::text_run(s, i + 1);
                text.push(self.chars[i]);
                assert(t0 + rest.text =~= text@ + next.text);
                i += 1;
            }
        }
        let r = Run { text, end: i, errors };
        assert(r@.text =~= whole.text);
        assert(r@.faults =~= whole.faults);
        r
    }
}

// ---- words ----

fn is_ascii(c: char) -> (r: bool)
    ensures
        r == grammar::is_ascii(c),
{
    (c as u32) < 0x80
}

fn is_letter(c: char) -> (r: bool)
    ensures
        r == grammar::is_letter(c),
{
    ('a' <= c && c <= 'z') || ('A' <= c && c <= 'Z')
}

fn is_ident_start(c: char) -> (r: bool)
    ensures
        r == grammar::ident_start(c),
{
    if is_ascii(c) {
        is_letter(c) || c == '_'
    } else {
        unicode_ident::is_xid_start(c)
    }
}

fn is_ident_continue(c: char) -> (r: bool)
    ensures
        r == grammar::ident_continue(c),
{
    if is_ascii(c) {
        is_letter(c) || ('0' <= c && c <= '9') || c == '_'
    } else {
        unicode_ident::is_xid_continue(c)
    }
}

/// What a word is: a keyword, or an identifier.
pub fn word_token(word: String) -> (r: Token)
    ensures
        r@ == grammar::word_lexeme(word@),
        r@ is Fixed || r == Token::Ident(word),
{
    proof {
        token::keyword_is_its_spelling(word@);
    }
    match Token::keyword(word.as_str()) {
        Some(t) => t,
        None => Token::Ident(word),
    }
}

impl Source {
    /// The name of the identifier from `start` to its end, and that end. The character at
    /// `start` is known to start one.
    ///
    /// Names are in normalization form C: a composed and a decomposed spelling of the same
    /// word are one name. ASCII text cannot need it.
    fn take_ident_text(&self, start: usize) -> (r: (String, usize))
        requires
            start < self.chars.len(),
        ensures
            r.1 == grammar::ident_end(self.chars@, start + 1),
            start < r.1 <= self.chars.len(),
            r.0@ == grammar::ident_name(self.chars@.subrange(start as int, r.1 as int)),
    {
        let mut end: usize = start + 1;
        let mut ascii_only: bool = is_ascii(self.chars[start]);
        assert(self.chars@.subrange(start as int, end as int)[0] == self.chars@[start as int]);
        while end < self.chars.len() && is_ident_continue(self.chars[end])
            invariant
                start < end <= self.chars.len(),
                ascii_only == grammar::all_ascii(self.chars@.subrange(start as int, end as int)),
                grammar::ident_end(self.chars@, start + 1) == grammar::ident_end(
                    self.chars@,
                    end as int,
                ),
            decreases self.chars.len() - end,
        {
            let ghost before = self.chars@.subrange(start as int, end as int);
            let ghost after = self.chars@.subrange(start as int, end + 1);
            assert(after =~= before.push(self.chars@[end as int]));
            assert(after.last() == self.chars@[end as int]);
            assert(forall|i: int| 0 <= i < before.len() ==> before[i] == after[i]);
            if !is_ascii(self.chars[end]) {
                ascii_only = false;
            }
            end += 1;
        }
        let raw = string_of(&self.chars, start, end);
        if ascii_only {
            (raw, end)
        } else {
            (unicode::to_nfc(raw.as_str()), end)
        }
    }

    /// The punctuation at `k`, the longest that fits, and where it ends.
    fn punct(&self, k: usize) -> (r: (Option<Token>, usize))
        requires
            k < self.chars.len(),
        ensures
            (r.0, r.1 as int) == grammar::punct(self.chars@, k as int),
            k < r.1 <= self.chars.len(),
    {
        let b: char = self.chars[k];
        if k + 1 < self.chars.len() {
            let d: char = self.chars[k + 1];
            let pair: Option<Token> = match b {
                '-' if d == '>' => Some(Token::Arrow),
                '=' if d == '=' => Some(Token::EqEq),
                '=' if d == '>' => Some(Token::FatArrow),
                '!' if d == '=' => Some(Token::NotEq),
                '<' if d == '=' => Some(Token::LtEq),
                '>' if d == '=' => Some(Token::GtEq),
                '|' if d == '>' => Some(Token::Pipe),
                '.' if d == '.' => Some(Token::DotDot),
                ':' if d == ':' => Some(Token::ColonColon),
                _ => None,
            };
            if pair.is_some() {
                return (pair, k + 2);
            }
        }
        let single: Option<Token> = match b {
            '+' => Some(Token::Plus),
            '-' => Some(Token::Minus),
            '*' => Some(Token::Star),
            '/' => Some(Token::Slash),
            '%' => Some(Token::Percent),
            '=' => Some(Token::Eq),
            '!' => Some(Token::Bang),
            '<' => Some(Token::Lt),
            '>' => Some(Token::Gt),
            '|' => Some(Token::Bar),
            '.' => Some(Token::Dot),
            ':' => Some(Token::Colon),
            '?' => Some(Token::Question),
            ',' => Some(Token::Comma),
            ';' => Some(Token::Semi),
            '@' => Some(Token::At),
            '&' => Some(Token::Ampersand),
            '(' => Some(Token::LParen),
            ')' => Some(Token::RParen),
            '[' => Some(Token::LBracket),
            ']' => Some(Token::RBracket),
            '{' => Some(Token::LBrace),
            '}' => Some(Token::RBrace),
            _ => None,
        };
        (single, k + 1)
    }

    /// The end of the block comment that is open at `k`, one deep.
    fn block_end(&self, k: usize) -> (r: Option<usize>)
        requires
            k <= self.chars.len(),
        ensures
            match r {
                Some(end) => grammar::block_end(self.chars@, k as int, 1) == Some(end as int) && k
                    + 2 <= end <= self.chars.len(),
                None => grammar::block_end(self.chars@, k as int, 1) is None,
            },
    {
        let mut i: usize = k;
        let mut depth: usize = 1;
        while depth > 0
            invariant
                k <= i <= self.chars.len(),
                depth <= i + 1,
                depth != 1 ==> k + 2 <= i,
                grammar::block_end(self.chars@, k as int, 1) == grammar::block_end(
                    self.chars@,
                    i as int,
                    depth as nat,
                ),
            decreases self.chars.len() - i,
        {
            if i >= self.chars.len() {
                return None;
            }
            if self.chars[i] == '/' && self.at(i + 1, '*') {
                i += 2;
                depth += 1;
            } else if self.chars[i] == '*' && self.at(i + 1, '/') {
                i += 2;
                depth -= 1;
            } else {
                i += 1;
            }
        }
        Some(i)
    }
}

// ---- the lexer ----

struct Lexer {
    src: Source,
    pos: usize,
    modes: Vec<Mode>,
    out: Vec<Spanned>,
    trivia: Vec<Trivia>,
    errors: Vec<LexError>,
}

impl View for Lexer {
    type V = LexState;

    closed spec fn view(&self) -> LexState {
        LexState {
            pos: self.pos as int,
            frames: frames(self.modes@),
            pieces: pieces(self.out@),
            comments: comments(self.trivia@),
            faults: faults(self.errors@),
        }
    }
}

/// Whether a mode's opener and brace count lie within what has been read of the text.
spec fn mode_fits(s: Seq<char>, pos: int, m: Mode) -> bool {
    match m {
        Mode::Code => true,
        Mode::Str { open } => exists|k: int|
            0 <= k < s.len() && k + 1 <= pos && open == #[trigger] offset(s, k),
        Mode::Interp { open, depth } => depth <= pos && exists|k: int|
            0 <= k && k + 2 <= pos && pos <= s.len() && open == #[trigger] offset(s, k),
    }
}

impl Lexer {
    /// The stack starts with the code mode and every other mode has something to point at.
    spec fn wf(&self) -> bool {
        &&& self.src.wf()
        &&& self.pos <= self.src.chars.len()
        &&& self.modes.len() > 0
        &&& self.modes[0] is Code
        &&& forall|i: int| 1 <= i < self.modes.len() ==> !(#[trigger] self.modes[i] is Code)
        &&& forall|i: int|
            0 <= i < self.modes.len() ==> mode_fits(
                self.src.chars@,
                self.pos as int,
                #[trigger] self.modes[i],
            )
    }

    fn new(text: &str) -> (r: Lexer)
        ensures
            r.wf(),
            r.src.chars@ == text@,
            r@ == grammar::start(text@),
    {
        let src = Source::new(text);
        let pos: usize = if src.at(0, '\u{feff}') {
            1
        } else {
            0
        };
        let mut modes: Vec<Mode> = Vec::new();
        modes.push(Mode::Code);
        let r = Lexer {
            src,
            pos,
            modes,
            out: Vec::new(),
            trivia: Vec::new(),
            errors: Vec::new(),
        };
        assert(r@.frames =~= seq![Frame::Code]);
        assert(r@.pieces =~= seq![]);
        assert(r@.comments =~= seq![]);
        assert(r@.faults =~= seq![]);
        r
    }

    fn push(&mut self, token: Token, start: usize)
        requires
            old(self).wf(),
            start <= old(self).src.chars.len(),
        ensures
            final(self).wf(),
            final(self).src == old(self).src,
            final(self)@ == (LexState {
                pieces: old(self)@.pieces.push(
                    grammar::piece(
                        old(self).src.chars@,
                        token@,
                        start as int,
                        old(self).pos as int,
                    ),
                ),
                ..old(self)@
            }),
    {
        let span = self.src.span(start, self.pos);
        self.out.push(Spanned { token, span });
        assert(pieces(self.out@) =~= old(self)@.pieces.push(
            grammar::piece(old(self).src.chars@, token@, start as int, old(self).pos as int),
        ));
    }

    /// Move on to `end`. What is open stays open.
    fn advance(&mut self, end: usize)
        requires
            old(self).wf(),
            old(self).pos <= end <= old(self).src.chars.len(),
        ensures
            final(self).wf(),
            final(self).src == old(self).src,
            final(self)@ == (LexState { pos: end as int, ..old(self)@ }),
    {
        self.pos = end;
        assert forall|i: int| 0 <= i < self.modes.len() implies mode_fits(
            self.src.chars@,
            self.pos as int,
            #[trigger] self.modes[i],
        ) by {
            let m = self.modes[i];
            assert(mode_fits(old(self).src.chars@, old(self).pos as int, old(self).modes[i]));
            match m {
                Mode::Code => {},
                Mode::Str { open } => {
                    let k = choose|k: int|
                        0 <= k < self.src.chars@.len() && k + 1 <= old(self).pos && open
                            == #[trigger] offset(self.src.chars@, k);
                    assert(open == offset(self.src.chars@, k));
                },
                Mode::Interp { open, depth } => {
                    let k = choose|k: int|
                        0 <= k && k + 2 <= old(self).pos && old(self).pos
                            <= self.src.chars@.len() && open == #[trigger] offset(
                            self.src.chars@,
                            k,
                        );
                    assert(open == offset(self.src.chars@, k));
                },
            }
        }
    }

    /// Take up what a scan at the current position found.
    fn take(&mut self, scan: Scan)
        requires
            old(self).wf(),
            old(self).pos <= scan.end <= old(self).src.chars.len(),
        ensures
            final(self).wf(),
            final(self).src == old(self).src,
            final(self)@ == grammar::after(old(self).src.chars@, old(self)@, scan@),
    {
        let start: usize = self.pos;
        self.advance(scan.end);
        if let Some(token) = scan.token {
            self.push(token, start);
        }
        let ghost before = self.errors@;
        let ghost more = scan.errors@;
        let mut errors = scan.errors;
        self.errors.append(&mut errors);
        assert(faults(self.errors@) =~= faults(before) + faults(more));
    }

    /// Whether the colon at the current position starts an atom.
    fn atom_ahead(&self) -> (r: bool)
        requires
            self.wf(),
            self.pos < self.src.chars.len(),
        ensures
            r == grammar::atom_at(self.src.chars@, self@.pieces, self.pos as int),
    {
        if self.out.len() > 0 {
            let last: &Spanned = &self.out[self.out.len() - 1];
            assert(self@.pieces.last() == last@);
            let ident = match last.token {
                Token::Ident(_) => true,
                _ => false,
            };
            if ident && last.span.end == self.src.offsets[self.pos] {
                return false;
            }
        }
        self.pos + 1 < self.src.chars.len() && is_ident_start(self.src.chars[self.pos + 1])
    }
}

impl Lexer {
    /// Whitespace, line comments, and nested block comments.
    fn skip_trivia(&mut self)
        requires
            old(self).wf(),
        ensures
            final(self).wf(),
            final(self).src == old(self).src,
            final(self)@ == grammar::after_gap(old(self).src.chars@, old(self)@),
            final(self).pos >= old(self).pos,
    {
        let ghost s = self.src.chars@;
        let ghost whole = grammar::gap(s, self.pos as int);
        let ghost st0 = self@;
        let ghost src0 = self.src;
        loop
            invariant_except_break
                self.wf(),
                self.src == src0,
                s == self.src.chars@,
                st0.pos <= self.pos,
                st0 == (LexState { pos: st0.pos, comments: st0.comments, ..self@ }),
                whole == grammar::gap(s, st0.pos),
                whole.end == grammar::gap(s, self.pos as int).end,
                whole.faults == grammar::gap(s, self.pos as int).faults,
                st0.comments + whole.comments == self@.comments + grammar::gap(
                    s,
                    self.pos as int,
                ).comments,
            ensures
                self.wf(),
                self.src == src0,
                st0.pos <= self.pos,
                self@ == grammar::after_gap(s, st0),
            decreases self.src.chars.len() - self.pos,
        {
            let k: usize = self.pos;
            let ghost rest = grammar::gap(s, k as int);
            if k >= self.src.chars.len() {
                assert(self@.comments + rest.comments =~= self@.comments);
                assert(self@.faults + rest.faults =~= self@.faults);
                break;
            }
            let c: char = self.src.chars[k];
            if c == ' ' || c == '\t' || c == '\n' || c == '\r' || c == '\x0c' {
                self.advance(k + 1);
            } else if c == '/' && self.src.at(k + 1, '/') {
                // `///` is a doc comment and `////` is not.
                let doc = self.src.at(k + 2, '/') && !self.src.at(k + 3, '/');
                let text_start: usize = if doc {
                    k + 3
                } else {
                    k + 2
                };
                let end: usize = self.src.find(text_start, '\n');
                let text = string_of(&self.src.chars, text_start, end);
                let span = self.src.span(k, end);
                self.note(
                    Trivia {
                        kind: if doc {
                            TriviaKind::Doc
                        } else {
                            TriviaKind::Line
                        },
                        span,
                        text,
                    },
                    end,
                );
                let ghost next = grammar::gap(s, end as int);
                assert(rest.comments =~= seq![grammar::line_comment(s, k as int)] + next.comments);
            } else if c == '/' && self.src.at(k + 1, '*') {
                match self.src.block_end(k + 2) {
                    Some(end) => {
                        let text = string_of(&self.src.chars, k + 2, end - 2);
                        let span = self.src.span(k, end);
                        self.note(Trivia { kind: TriviaKind::Block, span, text }, end);
                        let ghost next = grammar::gap(s, end as int);
                        assert(rest.comments =~= seq![
                            grammar::block_comment(s, k as int, end as int),
                        ] + next.comments);
                    },
                    None => {
                        let n: usize = self.src.chars.len();
                        let ghost before = self.errors@;
                        let e = self.src.fault(LexErrorKind::UnterminatedBlockComment, k, n);
                        self.errors.push(e);
                        assert(faults(self.errors@) =~= faults(before) + seq![e@]);
                        assert(rest.comments =~= seq![]);
                        self.advance(n);
                        assert(self@.comments =~= st0.comments + whole.comments);
                        break;
                    },
                }
            } else {
                assert(self@.comments + rest.comments =~= self@.comments);
                assert(self@.faults + rest.faults =~= self@.faults);
                break;
            }
        }
    }

    /// Record a comment that ends at `end`.
    fn note(&mut self, t: Trivia, end: usize)
        requires
            old(self).wf(),
            old(self).pos <= end <= old(self).src.chars.len(),
        ensures
            final(self).wf(),
            final(self).src == old(self).src,
            final(self)@ == (LexState {
                pos: end as int,
                comments: old(self)@.comments + seq![t@],
                ..old(self)@
            }),
    {
        self.advance(end);
        let ghost before = self.trivia@;
        self.trivia.push(t);
        assert(comments(self.trivia@) =~= comments(before) + seq![t@]);
    }

    /// A character that no token starts with.
    fn stray(&mut self)
        requires
            old(self).wf(),
            old(self).pos < old(self).src.chars.len(),
        ensures
            final(self).wf(),
            final(self).src == old(self).src,
            final(self)@ == grammar::after(
                old(self).src.chars@,
                old(self)@,
                grammar::stray(old(self).src.chars@, old(self).pos as int),
            ),
            final(self).pos == old(self).pos + 1,
    {
        let k: usize = self.pos;
        let c: char = self.src.chars[k];
        let kind = if c == '\u{feff}' {
            LexErrorKind::UnexpectedBom
        } else {
            LexErrorKind::UnexpectedChar(c)
        };
        let scan = self.src.complaint(kind, k, k + 1, k + 1);
        self.take(scan);
    }

    /// Put another mode on top of the stack.
    fn enter(&mut self, m: Mode)
        requires
            old(self).wf(),
            !(m is Code),
            mode_fits(old(self).src.chars@, old(self).pos as int, m),
        ensures
            final(self).wf(),
            final(self).src == old(self).src,
            final(self)@ == (LexState { frames: old(self)@.frames.push(m@), ..old(self)@ }),
    {
        self.modes.push(m);
        assert(frames(self.modes@) =~= old(self)@.frames.push(m@));
    }

    /// Take the top mode off the stack.
    fn leave(&mut self)
        requires
            old(self).wf(),
            !(old(self).modes@.last() is Code),
        ensures
            final(self).wf(),
            final(self).src == old(self).src,
            final(self)@ == (LexState { frames: old(self)@.frames.drop_last(), ..old(self)@ }),
    {
        let _ = self.modes.pop();
        assert(frames(self.modes@) =~= old(self)@.frames.drop_last());
    }

    /// The punctuation at the current position. Inside a hole braces are counted.
    fn punct(&mut self)
        requires
            old(self).wf(),
            old(self).pos < old(self).src.chars.len(),
        ensures
            final(self).wf(),
            final(self).src == old(self).src,
            final(self)@ == grammar::after_punct(old(self).src.chars@, old(self)@),
            final(self).pos > old(self).pos,
    {
        let start: usize = self.pos;
        let top: Mode = self.modes[self.modes.len() - 1];
        assert(self@.frames.last() == top@);
        let (tok, end) = self.src.punct(start);
        let ghost plain = grammar::after(
            self.src.chars@,
            self@,
            Found { lexeme: Some(Lexeme::Fixed(tok->0)), end: end as int, faults: seq![] },
        );
        assert(self@.faults + seq![] =~= self@.faults);
        match tok {
            None => self.stray(),
            Some(Token::LBrace) => {
                self.advance(end);
                self.push(Token::LBrace, start);
                if let Mode::Interp { open, depth } = top {
                    self.leave();
                    assert(mode_fits(self.src.chars@, old(self).pos as int, top));
                    proof {
                        let k = choose|k: int|
                            0 <= k && k + 2 <= old(self).pos && old(self).pos
                                <= self.src.chars@.len() && open == #[trigger] offset(
                                self.src.chars@,
                                k,
                            );
                        assert(open == offset(self.src.chars@, k));
                    }
                    self.enter(Mode::Interp { open, depth: depth + 1 });
                }
            },
            Some(Token::RBrace) => {
                self.advance(end);
                match top {
                    // No brace is open in the hole: this one closes the hole itself.
                    Mode::Interp { open, depth } => {
                        self.leave();
                        if depth == 0 {
                            self.push(Token::InterpEnd, start);
                        } else {
                            assert(mode_fits(self.src.chars@, old(self).pos as int, top));
                            proof {
                                let k = choose|k: int|
                                    0 <= k && k + 2 <= old(self).pos && old(self).pos
                                        <= self.src.chars@.len() && open == #[trigger] offset(
                                        self.src.chars@,
                                        k,
                                    );
                                assert(open == offset(self.src.chars@, k));
                            }
                            self.enter(Mode::Interp { open, depth: depth - 1 });
                            self.push(Token::RBrace, start);
                        }
                    },
                    _ => self.push(Token::RBrace, start),
                }
            },
            Some(t) => {
                self.advance(end);
                self.push(t, start);
            },
        }
    }

    /// The token at the current position, outside a string.
    fn code_token(&mut self)
        requires
            old(self).wf(),
            old(self).pos < old(self).src.chars.len(),
            !(old(self).modes@.last() is Str),
        ensures
            final(self).wf(),
            final(self).src == old(self).src,
            final(self)@ == grammar::step(old(self).src.chars@, old(self)@),
            final(self).pos > old(self).pos,
    {
        let ghost s = self.src.chars@;
        let ghost st0 = self@;
        assert(st0.frames.last() == self.modes@.last()@);
        self.skip_trivia();
        let ghost g = self@;
        assert(g.frames.last() == st0.frames.last());
        let k: usize = self.pos;
        if k >= self.src.chars.len() {
            return;
        }
        let c: char = self.src.chars[k];
        if c == '"' {
            assert(self@.faults + seq![] =~= self@.faults);
            self.take(found(Token::StrStart, k + 1));
            let open: usize = self.src.offsets[k];
            assert(open == offset(s, k as int));
            self.enter(Mode::Str { open });
        } else if c == '\'' {
            let scan = self.src.rune(k);
            self.take(scan);
        } else if '0' <= c && c <= '9' {
            let scan = self.src.number(k);
            self.take(scan);
        } else if c == ':' && self.atom_ahead() {
            let (name, end) = self.src.take_ident_text(k + 1);
            self.take(found(Token::Atom(name), end));
        } else if is_ident_start(c) {
            let (word, end) = self.src.take_ident_text(k);
            self.take(found(word_token(word), end));
        } else if !is_ascii(c) {
            self.stray();
        } else {
            self.punct();
        }
    }

    /// A run of string text and what ends it: the closing quote, a `#{`, or the end of
    /// the text.
    fn string_body(&mut self)
        requires
            old(self).wf(),
            old(self).pos < old(self).src.chars.len(),
            old(self).modes@.last() is Str,
        ensures
            final(self).wf(),
            final(self).src == old(self).src,
            final(self)@ == grammar::step(old(self).src.chars@, old(self)@),
            final(self).pos > old(self).pos,
    {
        let ghost st0 = self@;
        assert(st0.frames.last() == self.modes@.last()@);
        let start: usize = self.pos;
        let run = self.src.text_run(start);
        let k: usize = run.end;
        self.advance(k);
        if run.text.as_str().unicode_len() > 0 {
            self.push(Token::StrText(run.text), start);
        }
        let ghost before = self.errors@;
        let ghost more = run.errors@;
        let mut errors = run.errors;
        self.errors.append(&mut errors);
        assert(faults(self.errors@) =~= faults(before) + faults(more));
        if self.src.at(k, '"') {
            self.leave();
            self.advance(k + 1);
            self.push(Token::StrEnd, k);
        } else if self.src.at(k, '#') {
            self.advance(k + 2);
            self.push(Token::InterpStart, k);
            let open: usize = self.src.offsets[k];
            assert(open == offset(self.src.chars@, k as int));
            self.enter(Mode::Interp { open, depth: 0 });
        }
    }
}

impl Lexer {
    /// What is still open at the end of the text. A hole outranks a string.
    fn report_unclosed(&mut self)
        requires
            old(self).wf(),
        ensures
            final(self).wf(),
            final(self).src == old(self).src,
            final(self)@ == (LexState {
                faults: old(self)@.faults + grammar::unclosed(old(self)@.frames),
                ..old(self)@
            }),
    {
        let ghost fs = self@.frames;
        let mut interp: Option<usize> = None;
        let mut string: Option<usize> = None;
        let mut i: usize = 0;
        while i < self.modes.len()
            invariant
                i <= self.modes.len(),
                fs == frames(self.modes@),
                match interp {
                    Some(open) => grammar::open_interp(fs.take(i as int)) == Some(open as int),
                    None => grammar::open_interp(fs.take(i as int)) is None,
                },
                match string {
                    Some(open) => grammar::open_str(fs.take(i as int)) == Some(open as int),
                    None => grammar::open_str(fs.take(i as int)) is None,
                },
                interp is Some ==> exists|j: int|
                    0 <= j < i && (#[trigger] self.modes[j] matches Mode::Interp { open, .. }
                        && interp == Some(open)),
                string is Some ==> exists|j: int|
                    0 <= j < i && (#[trigger] self.modes[j] matches Mode::Str { open } && string
                        == Some(open)),
            decreases self.modes.len() - i,
        {
            assert(fs.take(i + 1).drop_last() =~= fs.take(i as int));
            assert(fs.take(i + 1).last() == self.modes[i as int]@);
            match self.modes[i] {
                Mode::Code => {},
                Mode::Str { open } => {
                    if string.is_none() {
                        string = Some(open);
                        assert(self.modes[i as int] == Mode::Str { open });
                    }
                },
                Mode::Interp { open, depth } => {
                    if interp.is_none() {
                        interp = Some(open);
                        assert(self.modes[i as int] == Mode::Interp { open, depth });
                    }
                },
            }
            i += 1;
        }
        assert(fs.take(i as int) =~= fs);
        let ghost n = self.src.chars@.len() as int;
        let ghost before = self.errors@;
        if let Some(open) = interp {
            proof {
                let j = choose|j: int|
                    0 <= j < i && (#[trigger] self.modes[j] matches Mode::Interp { open, .. }
                        && interp == Some(open));
                assert(mode_fits(self.src.chars@, self.pos as int, self.modes[j]));
                let k = choose|k: int|
                    0 <= k && k + 2 <= self.pos && self.pos <= n && open == #[trigger] offset(
                        self.src.chars@,
                        k,
                    );
                lemma_offset_grows(self.src.chars@, k, n);
                assert(self.src.offsets[n] == offset(self.src.chars@, n));
            }
            let e = LexError::new(LexErrorKind::UnterminatedInterp, open..open + 2);
            self.errors.push(e);
            assert(faults(self.errors@) =~= faults(before) + seq![e@]);
        } else if let Some(open) = string {
            proof {
                let j = choose|j: int|
                    0 <= j < i && (#[trigger] self.modes[j] matches Mode::Str { open } && string
                        == Some(open));
                assert(mode_fits(self.src.chars@, self.pos as int, self.modes[j]));
                let k = choose|k: int|
                    0 <= k < self.src.chars@.len() && k + 1 <= self.pos && open
                        == #[trigger] offset(self.src.chars@, k);
                lemma_offset_grows(self.src.chars@, k, n);
                assert(self.src.offsets[n] == offset(self.src.chars@, n));
            }
            let e = LexError::new(LexErrorKind::UnterminatedString, open..open + 1);
            self.errors.push(e);
            assert(faults(self.errors@) =~= faults(before) + seq![e@]);
        } else {
            assert(faults(before) + seq![] =~= faults(before));
        }
    }

    /// The whole text, in one pass driven by the mode stack.
    ///
    /// The tables are handed out only when nothing is wrong: nobody sees a half-read text.
    fn run(self) -> (r: Result<Lexed, Vec<LexError>>)
        requires
            self.wf(),
            self@ == grammar::start(self.src.chars@),
        ensures
            lexes_as(self.src.chars@, r),
    {
        let mut lx = self;
        let ghost s = lx.src.chars@;
        let ghost end = grammar::finish(s, lx@);
        while lx.pos < lx.src.chars.len()
            invariant
                lx.wf(),
                s == lx.src.chars@,
                end == grammar::finish(s, lx@),
            decreases lx.src.chars.len() - lx.pos,
        {
            let top: Mode = lx.modes[lx.modes.len() - 1];
            match top {
                Mode::Str { .. } => lx.string_body(),
                _ => lx.code_token(),
            }
        }
        lx.report_unclosed();
        if lx.errors.len() > 0 {
            assert(faults(lx.errors@).len() > 0);
            return Err(lx.errors);
        }
        assert(faults(lx.errors@) =~= seq![]);
        let mut line_starts: Vec<usize> = Vec::new();
        line_starts.push(0);
        let mut i: usize = 0;
        assert(line_starts@ =~= grammar::line_starts_to(s, 0));
        while i < lx.src.chars.len()
            invariant
                i <= lx.src.chars.len(),
                lx.src.wf(),
                s == lx.src.chars@,
                line_starts@ == grammar::line_starts_to(s, i as int),
            decreases lx.src.chars.len() - i,
        {
            if lx.src.chars[i] == '\n' {
                line_starts.push(lx.src.offsets[i + 1]);
            }
            i += 1;
        }
        Ok(Lexed { tokens: lx.out, trivia: lx.trivia, line_starts })
    }
}

/// What lexing a text gives: its tokens, comments and line starts if nothing is wrong with
/// it, and otherwise everything that is.
pub open spec fn lexes_as(s: Seq<char>, r: Result<Lexed, Vec<LexError>>) -> bool {
    match r {
        Ok(l) => {
            &&& grammar::faults_of(s) == Seq::<Fault>::empty()
            &&& pieces(l.tokens@) == grammar::pieces_of(s)
            &&& comments(l.trivia@) == grammar::comments_of(s)
            &&& l.line_starts@ == grammar::line_starts_to(s, s.len() as int)
        },
        Err(es) => {
            &&& grammar::faults_of(s).len() > 0
            &&& faults(es@) == grammar::faults_of(s)
        },
    }
}

/// Tokens only, which is all that the parser wants.
pub fn lex(source: &str) -> (r: Result<Vec<Spanned>, Vec<LexError>>)
    ensures
        match r {
            Ok(tokens) => grammar::faults_of(source@) == Seq::<Fault>::empty() && pieces(tokens@)
                == grammar::pieces_of(source@),
            Err(es) => grammar::faults_of(source@).len() > 0 && faults(es@) == grammar::faults_of(
                source@,
            ),
        },
{
    match lex_full(source) {
        Ok(l) => Ok(l.tokens),
        Err(es) => Err(es),
    }
}

/// Tokens, comments and line starts: all that is needed to put a text back the way its
/// author left it.
pub fn lex_full(source: &str) -> (r: Result<Lexed, Vec<LexError>>)
    ensures
        lexes_as(source@, r),
{
    Lexer::new(source).run()
}

} // verus!
