//! What holds of every text's tokens.

use super::grammar::{
    after_gap, after_token, at, block_end, digits, escape, exponent, exponent_at, find, finish, gap,
    hex_end, ident_continue, ident_end, is_digit, is_doc, is_space, line_comment_end,
    line_starts_to, number, pieces_of, radix_at, rune, rune_stop, skip, start, step, text_run,
    LexState,
};
use super::token::Piece;
use crate::text::{lemma_offset_grows, offset};
use vstd::prelude::*;

verus! {

proof fn find_range(s: Seq<char>, k: int, c: char)
    requires
        0 <= k <= s.len(),
    ensures
        k <= find(s, k, c) <= s.len(),
    decreases s.len() - k,
{
    if k < s.len() && s[k] != c {
        find_range(s, k + 1, c);
    }
}

proof fn skip_range(s: Seq<char>, k: int, c: char)
    requires
        0 <= k <= s.len(),
    ensures
        k <= skip(s, k, c) <= s.len(),
    decreases s.len() - k,
{
    if k < s.len() && s[k] == c {
        skip_range(s, k + 1, c);
    }
}

proof fn block_end_range(s: Seq<char>, k: int, depth: nat)
    requires
        0 <= k <= s.len(),
    ensures
        match block_end(s, k, depth) {
            Some(end) => k <= end <= s.len(),
            None => true,
        },
    decreases s.len() - k,
{
    if depth > 0 && k < s.len() {
        if s[k] == '/' && at(s, k + 1, '*') {
            block_end_range(s, k + 2, depth + 1);
        } else if s[k] == '*' && at(s, k + 1, '/') {
            block_end_range(s, k + 2, (depth - 1) as nat);
        } else {
            block_end_range(s, k + 1, depth);
        }
    }
}

proof fn gap_range(s: Seq<char>, k: int)
    requires
        0 <= k <= s.len(),
    ensures
        k <= gap(s, k).end <= s.len(),
    decreases s.len() - k,
{
    if k < s.len() {
        if is_space(s[k]) {
            gap_range(s, k + 1);
        } else if s[k] == '/' && at(s, k + 1, '/') {
            let text = if is_doc(s, k) {
                k + 3
            } else {
                k + 2
            };
            find_range(s, text, '\n');
            gap_range(s, line_comment_end(s, k));
        } else if s[k] == '/' && at(s, k + 1, '*') {
            block_end_range(s, k + 2, 1);
            if let Some(end) = block_end(s, k + 2, 1) {
                gap_range(s, end);
            }
        }
    }
}

proof fn ident_end_range(s: Seq<char>, k: int)
    requires
        0 <= k <= s.len(),
    ensures
        k <= ident_end(s, k) <= s.len(),
    decreases s.len() - k,
{
    if k < s.len() && ident_continue(s[k]) {
        ident_end_range(s, k + 1);
    }
}

proof fn digits_range(s: Seq<char>, k: int, radix: int, after: bool)
    requires
        0 <= k <= s.len(),
    ensures
        k <= digits(s, k, radix, after).end <= s.len(),
    decreases s.len() - k,
{
    if k < s.len() {
        if s[k] == '_' {
            skip_range(s, k + 1, '_');
            digits_range(s, skip(s, k + 1, '_'), radix, false);
        } else if is_digit(s[k], radix) {
            digits_range(s, k + 1, radix, true);
        }
    }
}

proof fn exponent_range(s: Seq<char>, start: int, k: int, fs: Seq<super::error::Fault>)
    requires
        0 <= k <= s.len(),
    ensures
        k <= exponent(s, start, k, fs).end <= s.len(),
{
    if exponent_at(s, k) {
        let from = if at(s, k + 1, '+') || at(s, k + 1, '-') {
            k + 2
        } else {
            k + 1
        };
        digits_range(s, from, 10, false);
    }
}

proof fn number_range(s: Seq<char>, k: int)
    requires
        0 <= k < s.len(),
        '0' <= s[k] <= '9',
    ensures
        k < number(s, k).end <= s.len(),
{
    let radix = radix_at(s, k);
    if radix != 10 {
        digits_range(s, k + 2, radix, false);
    } else {
        let d = digits(s, k, 10, false);
        digits_range(s, k + 1, 10, true);
        if at(s, d.end, '.') {
            let frac = digits(s, d.end + 1, 10, false);
            digits_range(s, d.end + 1, 10, false);
            exponent_range(s, k, frac.end, d.faults + frac.faults);
        }
        exponent_range(s, k, d.end, d.faults);
    }
}

proof fn hex_end_range(s: Seq<char>, k: int, room: nat)
    requires
        0 <= k <= s.len(),
    ensures
        k <= hex_end(s, k, room) <= s.len(),
    decreases room,
{
    if room > 0 && k < s.len() && is_digit(s[k], 16) {
        hex_end_range(s, k + 1, (room - 1) as nat);
    }
}

proof fn escape_range(s: Seq<char>, k: int)
    requires
        0 <= k <= s.len(),
    ensures
        k <= escape(s, k).1 <= s.len(),
{
    if k < s.len() {
        hex_end_range(s, k + 1, 2);
        if at(s, k + 1, '{') {
            hex_end_range(s, k + 2, 6);
        }
    }
}

proof fn rune_stop_range(s: Seq<char>, k: int)
    requires
        0 <= k <= s.len(),
    ensures
        k <= rune_stop(s, k) <= s.len(),
    decreases s.len() - k,
{
    if k < s.len() && s[k] != '\'' && s[k] != '\n' {
        rune_stop_range(s, k + 1);
    }
}

proof fn rune_range(s: Seq<char>, k: int)
    requires
        0 <= k < s.len(),
    ensures
        k < rune(s, k).end <= s.len(),
{
    if k + 1 < s.len() {
        rune_stop_range(s, k + 2);
        escape_range(s, k + 2);
        let end = escape(s, k + 2).1;
        rune_stop_range(s, end);
        find_range(s, end, '\'');
    }
}

proof fn text_run_range(s: Seq<char>, k: int)
    requires
        0 <= k <= s.len(),
    ensures
        k <= text_run(s, k).end <= s.len(),
        text_run(s, k).text.len() > 0 ==> k < text_run(s, k).end,
        text_run(s, k).end < s.len() ==> at(s, text_run(s, k).end, '"') || (at(
            s,
            text_run(s, k).end,
            '#',
        ) && at(s, text_run(s, k).end + 1, '{')),
    decreases s.len() - k,
{
    if k >= s.len() || s[k] == '"' || (s[k] == '#' && at(s, k + 1, '{')) {
    } else if s[k] == '\\' {
        if at(s, k + 1, '#') {
            text_run_range(s, k + 2);
        } else {
            escape_range(s, k + 1);
            text_run_range(s, escape(s, k + 1).1);
        }
    } else {
        text_run_range(s, k + 1);
    }
}

/// The tokens lie in order, none empty, none overlapping the next, and all before byte
/// `limit`.
pub open spec fn in_order(ps: Seq<Piece>, limit: int) -> bool {
    &&& forall|i: int|
        0 <= i < ps.len() ==> 0 <= (#[trigger] ps[i]).start < ps[i].end && ps[i].end <= limit
    &&& forall|i: int, j: int| 0 <= i < j < ps.len() ==> (#[trigger] ps[i]).end <= (
    #[trigger] ps[j]).start
}

/// The state is inside the text, its tokens in order, and its stack starts with code.
spec fn tidy(s: Seq<char>, st: LexState) -> bool {
    &&& 0 <= st.pos <= s.len()
    &&& in_order(st.pieces, offset(s, st.pos) as int)
}

proof fn step_tidy(s: Seq<char>, st: LexState)
    requires
        tidy(s, st),
        st.pos < s.len(),
    ensures
        tidy(s, step(s, st)),
        step(s, st).pos > st.pos,
{
    let k = st.pos;
    if st.frames.last() is Str {
        text_run_range(s, k);
        let e = text_run(s, k).end;
        lemma_offset_grows(s, k, e);
        if at(s, e, '"') {
            lemma_offset_grows(s, e, e + 1);
        } else if at(s, e, '#') {
            lemma_offset_grows(s, e, e + 2);
        }
    } else {
        gap_range(s, k);
        let g = after_gap(s, st);
        lemma_offset_grows(s, k, g.pos);
        if g.pos < s.len() {
            let j = g.pos;
            rune_range(s, j);
            if '0' <= s[j] <= '9' {
                number_range(s, j);
            }
            ident_end_range(s, j + 1);
            if j + 1 < s.len() {
                ident_end_range(s, j + 2);
            }
            let n = after_token(s, g);
            assert(j < n.pos <= s.len());
            lemma_offset_grows(s, j, n.pos);
        }
    }
}

proof fn finish_tidy(s: Seq<char>, st: LexState)
    requires
        tidy(s, st),
    ensures
        tidy(s, finish(s, st)),
        finish(s, st).pos == s.len(),
    decreases s.len() - st.pos,
{
    if st.pos < s.len() {
        step_tidy(s, st);
        finish_tidy(s, step(s, st));
    }
}

/// Every text is read to its end, and its tokens lie in order: each takes at least one
/// byte, none overlaps the next, and all lie inside the text.
pub proof fn tokens_lie_in_order(s: Seq<char>)
    ensures
        finish(s, start(s)).pos == s.len(),
        in_order(pieces_of(s), offset(s, s.len() as int) as int),
{
    finish_tidy(s, start(s));
}

/// Line starts strictly increase, the first is 0, and none lies past the text.
pub proof fn line_starts_increase(s: Seq<char>, k: int)
    requires
        0 <= k <= s.len(),
        offset(s, s.len() as int) <= usize::MAX,
    ensures
        line_starts_to(s, k).len() > 0,
        line_starts_to(s, k)[0] == 0,
        forall|i: int, j: int|
            0 <= i < j < line_starts_to(s, k).len() ==> line_starts_to(s, k)[i]
                < line_starts_to(s, k)[j],
        forall|i: int|
            0 <= i < line_starts_to(s, k).len() ==> #[trigger] line_starts_to(s, k)[i] <= offset(
                s,
                k,
            ),
    decreases k,
{
    if k > 0 {
        line_starts_increase(s, k - 1);
        lemma_offset_grows(s, k - 1, k);
        lemma_offset_grows(s, k, s.len() as int);
    }
}

} // verus!
