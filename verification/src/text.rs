//! Text: the character sequences that the rest of the crate reads and writes.
//!
//! Source text is handled as a sequence of characters. Positions that leave the
//! crate are byte offsets into the UTF-8 encoding, and [`offset`] is the map from one
//! to the other.

use crate::syntax::names_of;
use vstd::prelude::*;
use vstd::string::*;
use vstd::utf8::*;

verus! {

/// `std::string::String::push`: appends one character to the end of the string.
pub assume_specification[ String::push ](s: &mut String, c: char)
    ensures
        final(s)@ == old(s)@.push(c),
;

/// Whether two strings hold the same characters.
pub fn str_eq(a: &str, b: &str) -> (r: bool)
    ensures
        r == (a@ == b@),
{
    a.to_owned() == b.to_owned()
}

/// Whether `s` begins with `p`.
pub open spec fn has_prefix(s: Seq<char>, p: Seq<char>) -> bool {
    p.len() <= s.len() && s.take(p.len() as int) == p
}

/// The characters of a string, in order.
pub fn chars_of(src: &str) -> (r: Vec<char>)
    ensures
        r@ == src@,
{
    let mut out: Vec<char> = Vec::new();
    for c in it: src.chars()
        invariant
            out@ == src@.take(it.index()),
            it.seq() == src@,
    {
        out.push(c);
        assert(out@ =~= src@.take(it.index() + 1));
    }
    assert(src@.take(src@.len() as int) =~= src@);
    out
}

/// Whether `s` begins with `p`, by comparing character by character.
pub fn starts_with(s: &str, p: &str) -> (r: bool)
    ensures
        r == has_prefix(s@, p@),
{
    let sc = chars_of(s);
    let pc = chars_of(p);
    if pc.len() > sc.len() {
        return false;
    }
    let mut i: usize = 0;
    while i < pc.len()
        invariant
            i <= pc.len() <= sc.len(),
            sc@ == s@,
            pc@ == p@,
            forall|j: int| 0 <= j < i ==> sc@[j] == pc@[j],
        decreases pc.len() - i,
    {
        if sc[i] != pc[i] {
            assert(s@.take(p@.len() as int)[i as int] != p@[i as int]);
            return false;
        }
        i += 1;
    }
    assert(s@.take(p@.len() as int) =~= p@);
    true
}

/// The string holding the characters `cs[from..to]`.
pub fn string_of(cs: &Vec<char>, from: usize, to: usize) -> (r: String)
    requires
        from <= to <= cs.len(),
    ensures
        r@ == cs@.subrange(from as int, to as int),
{
    let mut out = String::new();
    let mut i: usize = from;
    while i < to
        invariant
            from <= i <= to <= cs.len(),
            out@ == cs@.subrange(from as int, i as int),
        decreases to - i,
    {
        out.push(cs[i]);
        i += 1;
        assert(out@ =~= cs@.subrange(from as int, i as int));
    }
    out
}

// ---- byte offsets ----

/// How many bytes a character takes in UTF-8.
pub open spec fn utf8_len(c: char) -> nat {
    let v = c as u32;
    if v < 0x80 {
        1
    } else if v < 0x800 {
        2
    } else if v < 0x10000 {
        3
    } else {
        4
    }
}

/// How many bytes a character takes in UTF-8.
pub fn char_width(c: char) -> (n: usize)
    ensures
        n == utf8_len(c),
{
    let v: u32 = c as u32;
    if v < 0x80 {
        1
    } else if v < 0x800 {
        2
    } else if v < 0x10000 {
        3
    } else {
        4
    }
}

/// The byte offset of character `k`: the bytes that the characters before it take.
pub open spec fn offset(s: Seq<char>, k: int) -> nat
    decreases k,
{
    if k <= 0 {
        0
    } else {
        offset(s, k - 1) + utf8_len(s[k - 1])
    }
}

/// Offsets grow with the position, by at least one byte per character.
pub proof fn lemma_offset_grows(s: Seq<char>, i: int, j: int)
    requires
        0 <= i <= j,
    ensures
        offset(s, i) + (j - i) <= offset(s, j),
    decreases j,
{
    if i < j {
        lemma_offset_grows(s, i, j - 1);
    }
}

/// The offset only depends on the characters before the position.
pub proof fn lemma_offset_prefix(s: Seq<char>, t: Seq<char>, k: int)
    requires
        0 <= k <= s.len(),
        k <= t.len(),
        forall|i: int| 0 <= i < k ==> s[i] == t[i],
    ensures
        offset(s, k) == offset(t, k),
    decreases k,
{
    if k > 0 {
        lemma_offset_prefix(s, t, k - 1);
    }
}

/// Dropping the first character shifts every offset by its width.
proof fn lemma_offset_drop_first(s: Seq<char>, k: int)
    requires
        1 <= k <= s.len(),
    ensures
        offset(s, k) == utf8_len(s[0]) + offset(s.drop_first(), k - 1),
    decreases k,
{
    if k > 1 {
        lemma_offset_drop_first(s, k - 1);
        assert(s[k - 1] == s.drop_first()[k - 2]);
    } else {
        assert(offset(s, 0) == 0);
        assert(offset(s.drop_first(), 0) == 0);
    }
}

/// The offset of the end of the text is the length of its UTF-8 encoding.
pub proof fn lemma_offset_is_encoded_len(s: Seq<char>)
    ensures
        offset(s, s.len() as int) == encode_utf8(s).len(),
    decreases s.len(),
{
    if s.len() > 0 {
        lemma_offset_is_encoded_len(s.drop_first());
        lemma_offset_drop_first(s, s.len() as int);
        encode_utf8_first_scalar(s);
        char_is_scalar(s[0]);
    }
}

// ---- numbers ----

/// The decimal digit `d`, as a character.
pub open spec fn digit_char(d: int) -> char {
    (48 + d) as char
}

/// A number in decimal, without leading zeros.
pub open spec fn dec(n: nat) -> Seq<char>
    decreases n,
{
    if n < 10 {
        seq![digit_char(n as int)]
    } else {
        dec(n / 10).push(digit_char((n % 10) as int))
    }
}

/// A signed number in decimal.
pub open spec fn dec_int(n: int) -> Seq<char> {
    if n < 0 {
        seq!['-'] + dec((-n) as nat)
    } else {
        dec(n as nat)
    }
}

/// Append `n` in decimal.
pub fn push_dec(out: &mut String, n: u64)
    ensures
        final(out)@ == old(out)@ + dec(n as nat),
    decreases n,
{
    if n >= 10 {
        push_dec(out, n / 10);
    }
    let d: u8 = (n % 10) as u8;
    out.push((48 + d) as char);
    assert(out@ =~= old(out)@ + dec(n as nat));
}

/// Append `n` in decimal, with a minus sign when it is negative.
pub fn push_dec_int(out: &mut String, n: i64)
    ensures
        final(out)@ == old(out)@ + dec_int(n as int),
{
    if n < 0 {
        out.push('-');
        let m: i128 = -(n as i128);
        push_dec(out, m as u64);
        assert(out@ =~= old(out)@ + dec_int(n as int));
    } else {
        push_dec(out, n as u64);
    }
}

/// The first `k` names, with a separator between them.
pub open spec fn joined(names: Seq<Seq<char>>, sep: Seq<char>, k: int) -> Seq<char>
    decreases k,
{
    if k <= 0 {
        seq![]
    } else if k == 1 {
        names[0]
    } else {
        joined(names, sep, k - 1) + sep + names[k - 1]
    }
}

/// All names, with a separator between them.
pub open spec fn join_all(names: Seq<Seq<char>>, sep: Seq<char>) -> Seq<char> {
    joined(names, sep, names.len() as int)
}

/// Join names with a separator.
pub fn join(names: &Vec<String>, sep: &str) -> (r: String)
    ensures
        r@ == join_all(names_of(names@), sep@),
{
    if names.len() == 0 {
        let r = String::new();
        assert(r@ =~= seq![]);
        return r;
    }
    let ghost ns = names_of(names@);
    let mut r = names[0].clone();
    let mut k: usize = 1;
    while k < names.len()
        invariant
            1 <= k <= names.len(),
            ns == names_of(names@),
            r@ == joined(ns, sep@, k as int),
        decreases names.len() - k,
    {
        r.append(sep);
        r.append(names[k].as_str());
        k += 1;
    }
    r
}

/// Two texts, one after the other.
pub fn cat(a: &str, b: &str) -> (r: String)
    ensures
        r@ == a@ + b@,
{
    let mut r = a.to_owned();
    r.append(b);
    r
}

} // verus!
