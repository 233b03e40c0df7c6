//! Numbers read back as they are written.

use super::grammar::{
    at, digit_value, digits, exponent_at, faults_of, finish, gap, after_gap, is_digit, number,
    piece, pieces_of, radix_at, start, step, value_of, Digits, Found,
};
use super::error::Fault;
use super::token::Lexeme;
use super::words::lemma_nothing_open;
use crate::text::{dec, digit_char};
use vstd::prelude::*;

verus! {

proof fn lemma_dec_shape(n: nat)
    ensures
        dec(n).len() >= 1,
        forall|i: int| 0 <= i < dec(n).len() ==> '0' <= #[trigger] dec(n)[i] <= '9',
        value_of(dec(n), 10) == n,
    decreases n,
{
    let s = dec(n);
    if n >= 10 {
        lemma_dec_shape(n / 10);
        assert(s.drop_last() =~= dec(n / 10));
        assert(s.last() == digit_char((n % 10) as int));
        assert forall|i: int| 0 <= i < s.len() implies '0' <= #[trigger] s[i] <= '9' by {
            if i < s.len() - 1 {
                assert(s[i] == dec(n / 10)[i]);
            }
        }
        assert(digit_value(s.last()) == n % 10);
    } else {
        assert(s.drop_last() =~= seq![]);
        assert(s.last() == digit_char(n as int));
        assert(digit_value(s.last()) == n);
        assert(value_of(s.drop_last(), 10) == 0);
    }
}

proof fn lemma_digits_run(s: Seq<char>, k: int, after: bool)
    requires
        0 <= k <= s.len(),
        forall|i: int| 0 <= i < s.len() ==> '0' <= #[trigger] s[i] <= '9',
    ensures
        digits(s, k, 10, after) == (Digits { digits: s.skip(k), end: s.len() as int, faults: seq![] }),
    decreases s.len() - k,
{
    if k < s.len() {
        lemma_digits_run(s, k + 1, true);
        assert('0' <= s[k] <= '9');
        assert(seq![s[k]] + s.skip(k + 1) =~= s.skip(k));
    } else {
        assert(s.skip(k) =~= seq![]);
    }
}

/// A number in decimal is read as that number, and to its end.
pub proof fn decimal_numbers_read_back(n: u64)
    ensures
        number(dec(n as nat), 0) == (Found {
            lexeme: Some(Lexeme::Int(n)),
            end: dec(n as nat).len() as int,
            faults: seq![],
        }),
{
    let s = dec(n as nat);
    lemma_dec_shape(n as nat);
    lemma_digits_run(s, 0, false);
    assert(s.skip(0) =~= s);
    if s.len() > 1 {
        assert('0' <= s[1] <= '9');
    }
    assert(radix_at(s, 0) == 10);
    assert(!at(s, s.len() as int, '.'));
    assert(!exponent_at(s, s.len() as int));
}

/// A number in decimal is one token, that number.
pub proof fn a_decimal_number_is_one_token(n: u64)
    ensures
        pieces_of(dec(n as nat)) == seq![
            piece(dec(n as nat), Lexeme::Int(n), 0, dec(n as nat).len() as int),
        ],
        faults_of(dec(n as nat)) == Seq::<Fault>::empty(),
{
    let s = dec(n as nat);
    decimal_numbers_read_back(n);
    lemma_dec_shape(n as nat);
    let st = start(s);
    assert('0' <= s[0] <= '9');
    assert(st.pos == 0);
    assert(st.frames.last() is Code);
    assert(gap(s, 0).end == 0);
    let g = after_gap(s, st);
    assert(g.comments =~= seq![]);
    assert(g.faults =~= seq![]);
    let m = step(s, st);
    assert(m.pos == s.len());
    assert(m.pieces =~= seq![piece(s, Lexeme::Int(n), 0, s.len() as int)]);
    assert(m.faults =~= seq![]);
    assert(finish(s, m) == m);
    assert(finish(s, st) == m);
    lemma_nothing_open(m.frames);
    assert(faults_of(s) =~= seq![]);
}

/// The digits up to nine stand for themselves in every base, and the letters go on from ten,
/// small or large.
pub proof fn digits_stand_for_their_values(d: int)
    ensures
        0 <= d < 10 ==> digit_value((48 + d) as char) == d,
        0 <= d < 6 ==> digit_value((97 + d) as char) == 10 + d && digit_value((65 + d) as char) == 10
            + d,
        is_digit('0', 2) && is_digit('1', 2) && !is_digit('2', 2),
        is_digit('7', 8) && !is_digit('8', 8),
        is_digit('9', 10) && !is_digit('a', 10),
        is_digit('f', 16) && is_digit('F', 16) && !is_digit('g', 16) && !is_digit('_', 16),
{
}

/// A digit more multiplies what stands before it by the base.
pub proof fn a_digit_more_multiplies(ds: Seq<char>, c: char, radix: int)
    ensures
        value_of(ds.push(c), radix) == value_of(ds, radix) * radix + digit_value(c),
        value_of(Seq::<char>::empty(), radix) == 0,
{
    assert(ds.push(c).drop_last() =~= ds);
}

/// `0x`, `0o` and `0b` say sixteen, eight and two; everything else is in ten.
pub proof fn prefixes_say_the_base(s: Seq<char>)
    requires
        s.len() >= 2,
    ensures
        s[0] == '0' && (s[1] == 'x' || s[1] == 'X') ==> radix_at(s, 0) == 16,
        s[0] == '0' && (s[1] == 'o' || s[1] == 'O') ==> radix_at(s, 0) == 8,
        s[0] == '0' && (s[1] == 'b' || s[1] == 'B') ==> radix_at(s, 0) == 2,
        s[0] != '0' ==> radix_at(s, 0) == 10,
{
}

} // verus!
