//! Keywords and operators on their own.

use super::grammar::{
    after_gap, after_punct, faults_of, finish, gap, ident_end, ident_start, is_ascii, is_letter,
    is_space, number, open_interp, open_str, piece, pieces_of, pair_token, punct, rune,
    single_token, start, step, unclosed, word_lexeme, Frame, LexState,
};
use super::error::Fault;
use super::token::{
    keyword_is_its_spelling, keyword_of, keyword_reads_back, token_name, Lexeme, Piece, Token,
};
use crate::ast::BinOp;
use crate::ops::{operator_spelled_as_its_token, text_of, token_of};
use vstd::prelude::*;

verus! {

// ---- one word ----

/// Letters and underscores.
pub open spec fn plain_char(c: char) -> bool {
    is_letter(c) || c == '_'
}

/// Whether the first `k` characters are letters and underscores.
pub open spec fn plain_to(w: Seq<char>, k: int) -> bool
    decreases k,
{
    k <= 0 || (plain_char(w[k - 1]) && plain_to(w, k - 1))
}

proof fn lemma_plain(w: Seq<char>, k: int, i: int)
    requires
        plain_to(w, k),
        0 <= i < k,
    ensures
        plain_char(w[i]),
    decreases k,
{
    if i < k - 1 {
        lemma_plain(w, k - 1, i);
    }
}

proof fn lemma_word_end(w: Seq<char>, k: int)
    requires
        plain_to(w, w.len() as int),
        0 <= k <= w.len(),
    ensures
        ident_end(w, k) == w.len(),
    decreases w.len() - k,
{
    if k < w.len() {
        lemma_plain(w, w.len() as int, k);
        lemma_word_end(w, k + 1);
    }
}

pub(super) proof fn lemma_nothing_open(frames: Seq<Frame>)
    requires
        frames == seq![Frame::Code],
    ensures
        unclosed(frames) == Seq::<Fault>::empty(),
{
    assert(frames.drop_last() =~= seq![]);
    assert(open_interp(frames.drop_last()) is None);
    assert(open_str(frames.drop_last()) is None);
    assert(open_interp(frames) is None);
    assert(open_str(frames) is None);
}

/// A word of letters and underscores is one token.
pub proof fn a_word_is_one_token(w: Seq<char>)
    requires
        w.len() > 0,
        plain_to(w, w.len() as int),
    ensures
        pieces_of(w) == seq![piece(w, word_lexeme(w), 0, w.len() as int)],
        faults_of(w) == Seq::<Fault>::empty(),
{
    let st = start(w);
    lemma_plain(w, w.len() as int, 0);
    lemma_word_end(w, 1);
    assert(st.pos == 0);
    assert(st.frames.last() is Code);
    assert(gap(w, 0).end == 0);
    let g = after_gap(w, st);
    assert(g.comments =~= seq![]);
    assert(g.faults =~= seq![]);
    assert(w.subrange(0, w.len() as int) =~= w);
    assert(super::grammar::all_ascii(w)) by {
        assert forall|i: int| 0 <= i < w.len() implies is_ascii(#[trigger] w[i]) by {
            lemma_plain(w, w.len() as int, i);
        }
    }
    let n = step(w, st);
    assert(n.pos == w.len());
    assert(n.pieces =~= seq![piece(w, word_lexeme(w), 0, w.len() as int)]);
    assert(n.faults =~= seq![]);
    assert(finish(w, n) == n);
    assert(finish(w, st) == n);
    lemma_nothing_open(n.frames);
    assert(faults_of(w) =~= seq![]);
}

proof fn lemma_keywords_are_plain(word: Seq<char>)
    requires
        keyword_of(word) is Some,
    ensures
        word.len() > 0,
        plain_to(word, word.len() as int),
{
    reveal_strlit("fn");
    reveal_strlit("let");
    reveal_strlit("record");
    reveal_strlit("opaque");
    reveal_strlit("newtype");
    reveal_strlit("type");
    reveal_strlit("mu");
    reveal_strlit("protocol");
    reveal_strlit("marker");
    reveal_strlit("impl");
    reveal_strlit("where");
    reveal_strlit("use");
    reveal_strlit("mod");
    reveal_strlit("internal");
    reveal_strlit("const");
    reveal_strlit("if");
    reveal_strlit("else");
    reveal_strlit("match");
    reveal_strlit("loop");
    reveal_strlit("while");
    reveal_strlit("for");
    reveal_strlit("in");
    reveal_strlit("break");
    reveal_strlit("continue");
    reveal_strlit("return");
    reveal_strlit("throws");
    reveal_strlit("throw");
    reveal_strlit("try");
    reveal_strlit("catch");
    reveal_strlit("orelse");
    reveal_strlit("test");
    reveal_strlit("bench");
    reveal_strlit("assert");
    reveal_strlit("assert_eq");
    reveal_strlit("assert_ne");
    reveal_strlit("assert_throws");
    reveal_strlit("and");
    reveal_strlit("or");
    reveal_strlit("band");
    reveal_strlit("bor");
    reveal_strlit("bxor");
    reveal_strlit("bnot");
    reveal_strlit("bsl");
    reveal_strlit("bsr");
    reveal_strlit("is");
    reveal_strlit("as");
    reveal_strlit("null");
    reveal_strlit("true");
    reveal_strlit("false");
    if word == "fn"@ {
        assert(plain_to(word, word.len() as int)) by {
            reveal_strlit("fn");
            reveal_with_fuel(plain_to, 3);
        }
    }
    if word == "let"@ {
        assert(plain_to(word, word.len() as int)) by {
            reveal_strlit("let");
            reveal_with_fuel(plain_to, 4);
        }
    }
    if word == "record"@ {
        assert(plain_to(word, word.len() as int)) by {
            reveal_strlit("record");
            reveal_with_fuel(plain_to, 7);
        }
    }
    if word == "opaque"@ {
        assert(plain_to(word, word.len() as int)) by {
            reveal_strlit("opaque");
            reveal_with_fuel(plain_to, 7);
        }
    }
    if word == "newtype"@ {
        assert(plain_to(word, word.len() as int)) by {
            reveal_strlit("newtype");
            reveal_with_fuel(plain_to, 8);
        }
    }
    if word == "type"@ {
        assert(plain_to(word, word.len() as int)) by {
            reveal_strlit("type");
            reveal_with_fuel(plain_to, 5);
        }
    }
    if word == "mu"@ {
        assert(plain_to(word, word.len() as int)) by {
            reveal_strlit("mu");
            reveal_with_fuel(plain_to, 3);
        }
    }
    if word == "protocol"@ {
        assert(plain_to(word, word.len() as int)) by {
            reveal_strlit("protocol");
            reveal_with_fuel(plain_to, 9);
        }
    }
    if word == "marker"@ {
        assert(plain_to(word, word.len() as int)) by {
            reveal_strlit("marker");
            reveal_with_fuel(plain_to, 7);
        }
    }
    if word == "impl"@ {
        assert(plain_to(word, word.len() as int)) by {
            reveal_strlit("impl");
            reveal_with_fuel(plain_to, 5);
        }
    }
    if word == "where"@ {
        assert(plain_to(word, word.len() as int)) by {
            reveal_strlit("where");
            reveal_with_fuel(plain_to, 6);
        }
    }
    if word == "use"@ {
        assert(plain_to(word, word.len() as int)) by {
            reveal_strlit("use");
            reveal_with_fuel(plain_to, 4);
        }
    }
    if word == "mod"@ {
        assert(plain_to(word, word.len() as int)) by {
            reveal_strlit("mod");
            reveal_with_fuel(plain_to, 4);
        }
    }
    if word == "internal"@ {
        assert(plain_to(word, word.len() as int)) by {
            reveal_strlit("internal");
            reveal_with_fuel(plain_to, 9);
        }
    }
    if word == "const"@ {
        assert(plain_to(word, word.len() as int)) by {
            reveal_strlit("const");
            reveal_with_fuel(plain_to, 6);
        }
    }
    if word == "if"@ {
        assert(plain_to(word, word.len() as int)) by {
            reveal_strlit("if");
            reveal_with_fuel(plain_to, 3);
        }
    }
    if word == "else"@ {
        assert(plain_to(word, word.len() as int)) by {
            reveal_strlit("else");
            reveal_with_fuel(plain_to, 5);
        }
    }
    if word == "match"@ {
        assert(plain_to(word, word.len() as int)) by {
            reveal_strlit("match");
            reveal_with_fuel(plain_to, 6);
        }
    }
    if word == "loop"@ {
        assert(plain_to(word, word.len() as int)) by {
            reveal_strlit("loop");
            reveal_with_fuel(plain_to, 5);
        }
    }
    if word == "while"@ {
        assert(plain_to(word, word.len() as int)) by {
            reveal_strlit("while");
            reveal_with_fuel(plain_to, 6);
        }
    }
    if word == "for"@ {
        assert(plain_to(word, word.len() as int)) by {
            reveal_strlit("for");
            reveal_with_fuel(plain_to, 4);
        }
    }
    if word == "in"@ {
        assert(plain_to(word, word.len() as int)) by {
            reveal_strlit("in");
            reveal_with_fuel(plain_to, 3);
        }
    }
    if word == "break"@ {
        assert(plain_to(word, word.len() as int)) by {
            reveal_strlit("break");
            reveal_with_fuel(plain_to, 6);
        }
    }
    if word == "continue"@ {
        assert(plain_to(word, word.len() as int)) by {
            reveal_strlit("continue");
            reveal_with_fuel(plain_to, 9);
        }
    }
    if word == "return"@ {
        assert(plain_to(word, word.len() as int)) by {
            reveal_strlit("return");
            reveal_with_fuel(plain_to, 7);
        }
    }
    if word == "throws"@ {
        assert(plain_to(word, word.len() as int)) by {
            reveal_strlit("throws");
            reveal_with_fuel(plain_to, 7);
        }
    }
    if word == "throw"@ {
        assert(plain_to(word, word.len() as int)) by {
            reveal_strlit("throw");
            reveal_with_fuel(plain_to, 6);
        }
    }
    if word == "try"@ {
        assert(plain_to(word, word.len() as int)) by {
            reveal_strlit("try");
            reveal_with_fuel(plain_to, 4);
        }
    }
    if word == "catch"@ {
        assert(plain_to(word, word.len() as int)) by {
            reveal_strlit("catch");
            reveal_with_fuel(plain_to, 6);
        }
    }
    if word == "orelse"@ {
        assert(plain_to(word, word.len() as int)) by {
            reveal_strlit("orelse");
            reveal_with_fuel(plain_to, 7);
        }
    }
    if word == "test"@ {
        assert(plain_to(word, word.len() as int)) by {
            reveal_strlit("test");
            reveal_with_fuel(plain_to, 5);
        }
    }
    if word == "bench"@ {
        assert(plain_to(word, word.len() as int)) by {
            reveal_strlit("bench");
            reveal_with_fuel(plain_to, 6);
        }
    }
    if word == "assert"@ {
        assert(plain_to(word, word.len() as int)) by {
            reveal_strlit("assert");
            reveal_with_fuel(plain_to, 7);
        }
    }
    if word == "assert_eq"@ {
        assert(plain_to(word, word.len() as int)) by {
            reveal_strlit("assert_eq");
            reveal_with_fuel(plain_to, 10);
        }
    }
    if word == "assert_ne"@ {
        assert(plain_to(word, word.len() as int)) by {
            reveal_strlit("assert_ne");
            reveal_with_fuel(plain_to, 10);
        }
    }
    if word == "assert_throws"@ {
        assert(plain_to(word, word.len() as int)) by {
            reveal_strlit("assert_throws");
            reveal_with_fuel(plain_to, 14);
        }
    }
    if word == "and"@ {
        assert(plain_to(word, word.len() as int)) by {
            reveal_strlit("and");
            reveal_with_fuel(plain_to, 4);
        }
    }
    if word == "or"@ {
        assert(plain_to(word, word.len() as int)) by {
            reveal_strlit("or");
            reveal_with_fuel(plain_to, 3);
        }
    }
    if word == "band"@ {
        assert(plain_to(word, word.len() as int)) by {
            reveal_strlit("band");
            reveal_with_fuel(plain_to, 5);
        }
    }
    if word == "bor"@ {
        assert(plain_to(word, word.len() as int)) by {
            reveal_strlit("bor");
            reveal_with_fuel(plain_to, 4);
        }
    }
    if word == "bxor"@ {
        assert(plain_to(word, word.len() as int)) by {
            reveal_strlit("bxor");
            reveal_with_fuel(plain_to, 5);
        }
    }
    if word == "bnot"@ {
        assert(plain_to(word, word.len() as int)) by {
            reveal_strlit("bnot");
            reveal_with_fuel(plain_to, 5);
        }
    }
    if word == "bsl"@ {
        assert(plain_to(word, word.len() as int)) by {
            reveal_strlit("bsl");
            reveal_with_fuel(plain_to, 4);
        }
    }
    if word == "bsr"@ {
        assert(plain_to(word, word.len() as int)) by {
            reveal_strlit("bsr");
            reveal_with_fuel(plain_to, 4);
        }
    }
    if word == "is"@ {
        assert(plain_to(word, word.len() as int)) by {
            reveal_strlit("is");
            reveal_with_fuel(plain_to, 3);
        }
    }
    if word == "as"@ {
        assert(plain_to(word, word.len() as int)) by {
            reveal_strlit("as");
            reveal_with_fuel(plain_to, 3);
        }
    }
    if word == "null"@ {
        assert(plain_to(word, word.len() as int)) by {
            reveal_strlit("null");
            reveal_with_fuel(plain_to, 5);
        }
    }
    if word == "true"@ {
        assert(plain_to(word, word.len() as int)) by {
            reveal_strlit("true");
            reveal_with_fuel(plain_to, 5);
        }
    }
    if word == "false"@ {
        assert(plain_to(word, word.len() as int)) by {
            reveal_strlit("false");
            reveal_with_fuel(plain_to, 6);
        }
    }
}

/// The text of a keyword is read as just that keyword, and is what the keyword is named by.
pub proof fn a_keyword_is_one_token(word: Seq<char>, t: Token)
    requires
        keyword_of(word) == Some(t),
    ensures
        pieces_of(word) == seq![piece(word, Lexeme::Fixed(t), 0, word.len() as int)],
        faults_of(word) == Seq::<Fault>::empty(),
        token_name(t) == "`"@ + word + "`"@,
{
    keyword_is_its_spelling(word);
    lemma_keywords_are_plain(word);
    a_word_is_one_token(word);
}

// ---- operators ----

proof fn lemma_sign_is_one_token(w: Seq<char>, t: Token)
    requires
        w.len() == 1 || w.len() == 2,
        is_ascii(w[0]),
        !ident_start(w[0]),
        !is_space(w[0]),
        w[0] != '"',
        w[0] != '\'',
        w[0] != ':',
        !('0' <= w[0] <= '9'),
        w[0] == '/' ==> w.len() == 1,
        w.len() == 1 ==> single_token(w[0]) == Some(t),
        w.len() == 2 ==> pair_token(w[0], w[1]) == Some(t),
    ensures
        pieces_of(w) == seq![piece(w, Lexeme::Fixed(t), 0, w.len() as int)],
        faults_of(w) == Seq::<Fault>::empty(),
{
    let st = start(w);
    assert(st.pos == 0);
    assert(st.frames.last() is Code);
    assert(gap(w, 0).end == 0);
    let g = after_gap(w, st);
    assert(g.comments =~= seq![]);
    assert(g.faults =~= seq![]);
    assert(punct(w, 0) == (Some(t), w.len() as int));
    let n = step(w, st);
    assert(n == after_punct(w, g));
    assert(n.pos == w.len());
    assert(n.pieces =~= seq![piece(w, Lexeme::Fixed(t), 0, w.len() as int)]);
    assert(n.faults =~= seq![]);
    assert(finish(w, n) == n);
    assert(finish(w, st) == n);
    lemma_nothing_open(n.frames);
    assert(faults_of(w) =~= seq![]);
}

/// The text of an operator is read as just its token.
pub proof fn an_operator_is_one_token(op: BinOp)
    ensures
        pieces_of(text_of(op)) == seq![
            piece(text_of(op), Lexeme::Fixed(token_of(op)), 0, text_of(op).len() as int),
        ],
        faults_of(text_of(op)) == Seq::<Fault>::empty(),
{
    let (w, t) = (text_of(op), token_of(op));
    reveal_strlit("==");
    reveal_strlit("!=");
    reveal_strlit("<=");
    reveal_strlit(">=");
    reveal_strlit("<");
    reveal_strlit(">");
    reveal_strlit("|>");
    reveal_strlit("+");
    reveal_strlit("-");
    reveal_strlit("*");
    reveal_strlit("/");
    reveal_strlit("%");
    match op {
        BinOp::Orelse
        | BinOp::Or
        | BinOp::And
        | BinOp::Bor
        | BinOp::Bxor
        | BinOp::Band
        | BinOp::Bsl
        | BinOp::Bsr => {
            operator_spelled_as_its_token(op);
            keyword_reads_back(t);
            a_keyword_is_one_token(w, t);
        },
        _ => {
            lemma_sign_is_one_token(w, t);
        },
    }
}

// ---- identifiers ----

/// Whether no identifier among some tokens spells a keyword.
pub open spec fn no_keywords(ps: Seq<Piece>) -> bool {
    forall|i: int|
        0 <= i < ps.len() ==> ((#[trigger] ps[i]).lexeme matches Lexeme::Ident(w) ==> keyword_of(w)
            is None)
}

proof fn lemma_step(s: Seq<char>, st: LexState)
    requires
        no_keywords(st.pieces),
    ensures
        no_keywords(step(s, st).pieces),
{
    if !(st.frames.last() is Str) {
        let g = after_gap(s, st);
        if g.pos < s.len() {
            let k = g.pos;
            assert(!(number(s, k).lexeme matches Some(Lexeme::Ident(_))));
            assert(!(rune(s, k).lexeme matches Some(Lexeme::Ident(_))));
        }
    }
}

proof fn lemma_finish(s: Seq<char>, st: LexState)
    requires
        no_keywords(st.pieces),
    ensures
        no_keywords(finish(s, st).pieces),
    decreases s.len() - st.pos,
{
    if st.pos < s.len() {
        lemma_step(s, st);
        let next = step(s, st);
        if st.pos < next.pos <= s.len() {
            lemma_finish(s, next);
        }
    }
}

/// No identifier spells a keyword.
pub proof fn identifiers_are_no_keywords(s: Seq<char>)
    ensures
        no_keywords(pieces_of(s)),
{
    lemma_finish(s, start(s));
}

} // verus!
