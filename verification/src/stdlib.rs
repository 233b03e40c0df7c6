//! From files of a library to modules.
//!
//! Nothing is read here: whoever has the files hands in their names and their text. The
//! file `std/io.neon` becomes the module `std::io`.

use crate::ast::{ExprId, Module};
use crate::check::Env;
use crate::ir::lower::{libs_sem, SLib};
use crate::lexer::error::{Fault, LexError};
use crate::lexer::grammar::{faults_of, pieces_of};
use crate::lexer::token::Spanned;
use crate::lexer::{faults, lex, pieces};
use crate::number::laws::{
    count_module, ids_module, lemma_module, lemma_run, lemma_run_apart, lemma_run_none, nth, run,
};
use crate::number::{number_exprs_from, numbered_module};
use crate::parser::error::ParseError;
use crate::parser::grammar::module;
use crate::parser::{errs, parse as parse_tokens};
use crate::syntax::{names_of, Node};
use crate::text::{chars_of, join_all, joined, str_eq, string_of};
use vstd::prelude::*;
use vstd::utf8::encode_utf8;

verus! {

// ---- names of modules ----

/// A name without `.neon` at its end.
pub open spec fn stem(rel: Seq<char>) -> Seq<char> {
    let n = rel.len() - 5;
    if n >= 0 && rel.skip(n) == ".neon"@ {
        rel.take(n)
    } else {
        rel
    }
}

pub open spec fn is_separator(c: char) -> bool {
    c == '/' || c == '\\'
}

/// The first `k` characters cut at separators: the parts that are done, and the one that is
/// not. Empty parts are dropped.
pub open spec fn cut(s: Seq<char>, k: int) -> (Seq<Seq<char>>, Seq<char>)
    decreases k,
{
    if k <= 0 {
        (seq![], seq![])
    } else {
        let (parts, part) = cut(s, k - 1);
        if is_separator(s[k - 1]) {
            (with_part(parts, part), seq![])
        } else {
            (parts, part.push(s[k - 1]))
        }
    }
}

pub open spec fn with_part(parts: Seq<Seq<char>>, part: Seq<char>) -> Seq<Seq<char>> {
    if part.len() == 0 {
        parts
    } else {
        parts.push(part)
    }
}

/// The path of the module that a file becomes. The prelude has a path of its own.
pub open spec fn path_of(rel: Seq<char>) -> Seq<Seq<char>> {
    let s = stem(rel);
    if s == "prelude"@ {
        seq![Env::PRELUDE@]
    } else {
        let (parts, part) = cut(s, s.len() as int);
        with_part(parts, part)
    }
}

/// A part of a path: it is not empty and holds no separator.
pub open spec fn is_part(p: Seq<char>) -> bool {
    p.len() > 0 && forall|j: int| 0 <= j < p.len() ==> !is_separator(#[trigger] p[j])
}

proof fn lemma_cut(s: Seq<char>, k: int)
    requires
        0 <= k <= s.len(),
    ensures
        forall|i: int| 0 <= i < cut(s, k).0.len() ==> is_part(#[trigger] cut(s, k).0[i]),
        cut(s, k).1.len() > 0 ==> is_part(cut(s, k).1),
    decreases k,
{
    if k > 0 {
        lemma_cut(s, k - 1);
        let (parts, part) = cut(s, k - 1);
        assert forall|i: int| 0 <= i < cut(s, k).0.len() implies is_part(
            #[trigger] cut(s, k).0[i],
        ) by {
            if i < parts.len() {
                assert(cut(s, k).0[i] == parts[i]);
            } else {
                assert(cut(s, k).0[i] == part);
            }
        }
        if !is_separator(s[k - 1]) {
            let p = part.push(s[k - 1]);
            assert forall|j: int| 0 <= j < p.len() implies !is_separator(#[trigger] p[j]) by {
                if j < part.len() {
                    assert(p[j] == part[j]);
                }
            }
        }
    }
}

/// Every part of the path of a module, other than the prelude's, is a name.
pub proof fn parts_are_names(rel: Seq<char>, i: int)
    requires
        stem(rel) != "prelude"@,
        0 <= i < path_of(rel).len(),
    ensures
        is_part(path_of(rel)[i]),
{
    let (parts, part) = cut(stem(rel), stem(rel).len() as int);
    lemma_cut(stem(rel), stem(rel).len() as int);
    if i < parts.len() {
        assert(path_of(rel)[i] == parts[i]);
    } else {
        assert(path_of(rel)[i] == part);
    }
}

fn without_suffix(rel: &str) -> (r: Vec<char>)
    ensures
        r@ == stem(rel@),
{
    let mut cs = chars_of(rel);
    let end = chars_of(".neon");
    proof {
        reveal_strlit(".neon");
    }
    if cs.len() < 5 {
        return cs;
    }
    let n: usize = cs.len() - 5;
    let mut i: usize = 0;
    while i < 5
        invariant
            i <= 5,
            n + 5 == cs.len(),
            end.len() == 5,
            end@ == ".neon"@,
            cs@ == rel@,
            forall|k: int| 0 <= k < i ==> rel@.skip(n as int)[k] == end[k],
        decreases 5 - i,
    {
        assert(rel@.skip(n as int)[i as int] == cs[n + i]);
        if cs[n + i] != end[i] {
            return cs;
        }
        i += 1;
    }
    assert(rel@.skip(n as int) =~= ".neon"@);
    cs.truncate(n);
    assert(cs@ =~= rel@.take(n as int));
    cs
}

/// The path of the module that a file becomes: `std/io.neon` is `std::io`.
pub fn module_prefix(rel: &str) -> (r: Vec<String>)
    ensures
        names_of(r@) == path_of(rel@),
{
    let cs = without_suffix(rel);
    let ghost s = stem(rel@);
    let whole = string_of(&cs, 0, cs.len());
    assert(whole@ =~= s);
    let mut r: Vec<String> = Vec::new();
    if str_eq(whole.as_str(), "prelude") {
        r.push(Env::PRELUDE.to_owned());
        assert(names_of(r@) =~= seq![Env::PRELUDE@]);
        return r;
    }
    assert(names_of(r@) =~= seq![]);
    let mut part = String::new();
    let mut k: usize = 0;
    while k < cs.len()
        invariant
            k <= cs.len(),
            cs@ == s,
            (names_of(r@), part@) == cut(s, k as int),
        decreases cs.len() - k,
    {
        let ghost before = names_of(r@);
        if cs[k] == '/' || cs[k] == '\\' {
            if !part.as_str().is_empty() {
                let ghost p = part@;
                r.push(part);
                assert(names_of(r@) =~= before.push(p));
            }
            part = String::new();
            assert(part@ =~= seq![]);
        } else {
            part.push(cs[k]);
        }
        k += 1;
    }
    let ghost before = names_of(r@);
    if !part.as_str().is_empty() {
        let ghost p = part@;
        r.push(part);
        assert(names_of(r@) =~= before.push(p));
    }
    r
}

// ---- reading ----

/// Why a file could not be read.
#[derive(Debug, PartialEq)]
pub enum LoadFault {
    Lex(Vec<LexError>),
    Parse(Vec<ParseError>),
}

/// A file of the library that could not be read, and why.
#[derive(Debug, PartialEq)]
pub struct LoadError {
    pub file: String,
    pub fault: LoadFault,
}

/// The tokens of a text.
pub open spec fn tokens_of(src: Seq<char>, ts: Seq<Spanned>) -> bool {
    faults_of(src) == Seq::<Fault>::empty() && pieces(ts) == pieces_of(src)
}

/// Where a text ends.
pub open spec fn end_of(src: Seq<char>) -> usize {
    encode_utf8(src).len() as usize
}

/// Tokens of a text that make up a module without an error.
pub open spec fn well_written(src: Seq<char>, ts: Seq<Spanned>) -> bool {
    tokens_of(src, ts) && module(ts, end_of(src)).0 is Some && module(ts, end_of(src)).1.len() == 0
}

/// The files before `k` are well written.
pub open spec fn all_well_written(
    files: Seq<(String, String)>,
    tokens: Seq<Seq<Spanned>>,
    k: int,
) -> bool {
    forall|i: int| 0 <= i < k ==> well_written(files[i].1@, #[trigger] tokens[i])
}

/// The modules of the first `k` files, numbered from `base` on, and the next number.
pub open spec fn loaded(
    files: Seq<(String, String)>,
    tokens: Seq<Seq<Spanned>>,
    base: u32,
    k: int,
) -> (Seq<SLib>, u32)
    decreases k,
{
    if k <= 0 {
        (seq![], base)
    } else {
        let (libs, n) = loaded(files, tokens, base, k - 1);
        let m = module(tokens[k - 1], end_of(files[k - 1].1@)).0->0;
        let (m1, next) = numbered_module(m, n);
        (libs.push((path_of(files[k - 1].0@), m1)), next)
    }
}

/// The modules of the first `k` files as they are read, without numbers.
pub open spec fn read_libs(
    files: Seq<(String, String)>,
    tokens: Seq<Seq<Spanned>>,
    k: int,
) -> Seq<SLib>
    decreases k,
{
    if k <= 0 {
        seq![]
    } else {
        read_libs(files, tokens, k - 1).push(
            (path_of(files[k - 1].0@), module(tokens[k - 1], end_of(files[k - 1].1@)).0->0),
        )
    }
}

/// The first `k` modules, numbered from `base` on one after the other, and the next number.
pub open spec fn numbered_libs(libs: Seq<SLib>, base: u32, k: int) -> (Seq<SLib>, u32)
    decreases k,
{
    if k <= 0 {
        (seq![], base)
    } else {
        let (done, n) = numbered_libs(libs, base, k - 1);
        let (m, next) = numbered_module(libs[k - 1].1, n);
        (done.push((libs[k - 1].0, m)), next)
    }
}

/// Why a text is not well written.
pub open spec fn is_fault(src: Seq<char>, fault: LoadFault) -> bool {
    match fault {
        LoadFault::Lex(es) => es.len() > 0 && faults(es@) == faults_of(src),
        LoadFault::Parse(es) => es.len() > 0 && exists|ts: Seq<Spanned>|
            #[trigger] tokens_of(src, ts) && errs(es@) == module(ts, end_of(src)).1,
    }
}

/// What reading files comes to: all the modules, or the first file that is not well written.
pub open spec fn loads(
    files: Seq<(String, String)>,
    base: u32,
    r: Result<(Vec<(Vec<String>, Module)>, u32), LoadError>,
) -> bool {
    match r {
        Ok((ms, next)) => exists|tokens: Seq<Seq<Spanned>>|
            #[trigger] all_well_written(files, tokens, files.len() as int) && tokens.len()
                == files.len() && (libs_sem(ms@), next) == loaded(
                files,
                tokens,
                base,
                files.len() as int,
            ),
        Err(e) => exists|tokens: Seq<Seq<Spanned>>|
            #[trigger] all_well_written(files, tokens, tokens.len() as int) && tokens.len()
                < files.len() && e.file@ == files[tokens.len() as int].0@ && is_fault(
                files[tokens.len() as int].1@,
                e.fault,
            ),
    }
}

/// Modules that reading files gives, whatever the next number.
pub open spec fn loads_some(files: Seq<(String, String)>, ms: Vec<(Vec<String>, Module)>) -> bool {
    exists|tokens: Seq<Seq<Spanned>>|
        #[trigger] all_well_written(files, tokens, files.len() as int) && tokens.len()
            == files.len() && libs_sem(ms@) == loaded(files, tokens, 0, files.len() as int).0
}

/// Read a text.
fn read(src: &str) -> (r: Result<Module, LoadFault>)
    ensures
        match r {
            Ok(m) => exists|ts: Seq<Spanned>| #[trigger]
                well_written(src@, ts) && m.sem() == module(ts, end_of(src@)).0->0,
            Err(f) => is_fault(src@, f),
        },
{
    match lex(src) {
        Err(es) => {
            assert(faults(es@).len() == es.len());
            Err(LoadFault::Lex(es))
        },
        Ok(tokens) => {
            assert(tokens_of(src@, tokens@));
            let n: usize = src.len();
            assert(n == end_of(src@));
            let (m, errors) = parse_tokens(tokens.as_slice(), n);
            assert(errs(errors@).len() == errors.len());
            match m {
                Some(m) => if errors.len() == 0 {
                    assert(well_written(src@, tokens@));
                    Ok(m)
                } else {
                    Err(LoadFault::Parse(errors))
                },
                None => Err(LoadFault::Parse(errors)),
            }
        },
    }
}

/// What reading files without numbering them comes to.
pub open spec fn reads(
    files: Seq<(String, String)>,
    r: Result<Vec<(Vec<String>, Module)>, LoadError>,
) -> bool {
    match r {
        Ok(ms) => exists|tokens: Seq<Seq<Spanned>>|
            #[trigger] all_well_written(files, tokens, files.len() as int) && tokens.len()
                == files.len() && libs_sem(ms@) == read_libs(files, tokens, files.len() as int),
        Err(e) => loads(files, 0, Err(e)),
    }
}

/// Read the files of a library, given by name and text. The modules are as they are written:
/// nothing is numbered, and no annotation is acted on. One that acts on annotations comes
/// next, and [`number_libs`] after it.
pub fn read_files(sources: &Vec<(String, String)>) -> (r: Result<
    Vec<(Vec<String>, Module)>,
    LoadError,
>)
    ensures
        reads(sources@, r),
{
    let mut out: Vec<(Vec<String>, Module)> = Vec::new();
    let ghost mut tokens: Seq<Seq<Spanned>> = seq![];
    assert(libs_sem(out@) =~= seq![]);
    let mut k: usize = 0;
    while k < sources.len()
        invariant
            k <= sources.len(),
            tokens.len() == k,
            all_well_written(sources@, tokens, k as int),
            libs_sem(out@) == read_libs(sources@, tokens, k as int),
        decreases sources.len() - k,
    {
        let (rel, src) = &sources[k];
        match read(src.as_str()) {
            Err(fault) => {
                return Err(LoadError { file: rel.clone(), fault });
            },
            Ok(m) => {
                let ghost ts = choose|ts: Seq<Spanned>| #[trigger]
                    well_written(src@, ts) && m.sem() == module(ts, end_of(src@)).0->0;
                let ghost more = tokens.push(ts);
                let ghost before = libs_sem(out@);
                proof {
                    lemma_read_depends(sources@, tokens, more, k as int);
                    assert(more[k as int] == ts);
                    assert forall|i: int| 0 <= i < k + 1 implies well_written(
                        sources@[i].1@,
                        #[trigger] more[i],
                    ) by {
                        if i < k {
                            assert(more[i] == tokens[i]);
                        }
                    }
                    tokens = more;
                }
                let path = module_prefix(rel.as_str());
                out.push((path, m));
                assert(libs_sem(out@) =~= before.push((path_of(rel@), m.sem())));
                k += 1;
            },
        }
    }
    Ok(out)
}

/// Number the expressions of modules from `base` on, so that numbers stay apart across them.
/// Gives the next number.
pub fn number_libs(libs: &mut Vec<(Vec<String>, Module)>, base: u32) -> (next: u32)
    ensures
        (libs_sem(final(libs)@), next) == numbered_libs(
            libs_sem(old(libs)@),
            base,
            old(libs).len() as int,
        ),
        final(libs).len() == old(libs).len(),
{
    let ghost a = libs_sem(libs@);
    let mut next: u32 = base;
    let mut k: usize = 0;
    assert(libs_sem(libs@).take(0) =~= numbered_libs(a, base, 0).0);
    while k < libs.len()
        invariant
            k <= libs.len() == old(libs).len(),
            a == libs_sem(old(libs)@),
            (libs_sem(libs@).take(k as int), next) == numbered_libs(a, base, k as int),
            forall|i: int| k <= i < libs.len() ==> libs_sem(libs@)[i] == #[trigger] a[i],
        decreases libs.len() - k,
    {
        let ghost before = libs_sem(libs@);
        assert(before[k as int] == a[k as int]);
        next = number_exprs_from(&mut libs[k].1, next);
        let ghost after = libs_sem(libs@);
        assert forall|i: int| 0 <= i < after.len() && i != k implies after[i] == before[i] by {}
        assert(after.take(k + 1) =~= before.take(k as int).push(after[k as int]));
        k += 1;
        assert forall|i: int| k <= i < libs.len() implies libs_sem(libs@)[i] == #[trigger] a[i] by {
            assert(before[i] == a[i]);
        }
    }
    assert(libs_sem(libs@).take(k as int) =~= libs_sem(libs@));
    next
}

/// Read the files of a library, given by name and text, and number their expressions from
/// `base` on, so that numbers stay apart across files. Gives the modules and the next
/// number. No annotation is acted on: where some are to be, [`read_files`] and
/// [`number_libs`] are called with what acts on them in between.
pub fn parse_from(sources: &Vec<(String, String)>, base: u32) -> (r: Result<
    (Vec<(Vec<String>, Module)>, u32),
    LoadError,
>)
    ensures
        loads(sources@, base, r),
{
    match read_files(sources) {
        Err(e) => Err(e),
        Ok(libs) => {
            let mut ms = libs;
            let ghost tokens = choose|tokens: Seq<Seq<Spanned>>|
                #[trigger] all_well_written(sources@, tokens, sources.len() as int) && tokens.len()
                    == sources.len() && libs_sem(ms@) == read_libs(
                    sources@,
                    tokens,
                    sources.len() as int,
                );
            proof {
                numbering_what_is_read_is_loading(sources@, tokens, base, sources.len() as int);
            }
            let next = number_libs(&mut ms, base);
            Ok((ms, next))
        },
    }
}

proof fn lemma_read_depends(
    files: Seq<(String, String)>,
    a: Seq<Seq<Spanned>>,
    b: Seq<Seq<Spanned>>,
    k: int,
)
    requires
        k <= a.len() <= b.len(),
        forall|i: int| 0 <= i < a.len() ==> a[i] == b[i],
    ensures
        read_libs(files, a, k) == read_libs(files, b, k),
    decreases k,
{
    if k > 0 {
        lemma_read_depends(files, a, b, k - 1);
    }
}

proof fn lemma_numbering_depends(a: Seq<SLib>, b: Seq<SLib>, base: u32, k: int)
    requires
        k <= a.len() <= b.len(),
        forall|i: int| 0 <= i < a.len() ==> a[i] == b[i],
    ensures
        numbered_libs(a, base, k) == numbered_libs(b, base, k),
    decreases k,
{
    if k > 0 {
        lemma_numbering_depends(a, b, base, k - 1);
    }
}

/// Reading files and numbering the modules afterwards is what reading and numbering them file
/// by file is.
pub proof fn numbering_what_is_read_is_loading(
    files: Seq<(String, String)>,
    tokens: Seq<Seq<Spanned>>,
    base: u32,
    k: int,
)
    requires
        k >= 0,
    ensures
        read_libs(files, tokens, k).len() == k,
        numbered_libs(read_libs(files, tokens, k), base, k) == loaded(files, tokens, base, k),
    decreases k,
{
    if k > 0 {
        numbering_what_is_read_is_loading(files, tokens, base, k - 1);
        let (a, b) = (read_libs(files, tokens, k - 1), read_libs(files, tokens, k));
        lemma_numbering_depends(a, b, base, k - 1);
    }
}

/// How many expressions and patterns the first `k` files hold.
pub open spec fn counted(
    files: Seq<(String, String)>,
    tokens: Seq<Seq<Spanned>>,
    k: int,
) -> nat
    decreases k,
{
    if k <= 0 {
        0
    } else {
        counted(files, tokens, k - 1) + count_module(
            module(tokens[k - 1], end_of(files[k - 1].1@)).0->0,
        )
    }
}

/// The numbers of the first `k` modules.
pub open spec fn ids_of_libs(libs: Seq<SLib>, k: int) -> Seq<ExprId>
    decreases k,
{
    if k <= 0 {
        seq![]
    } else {
        ids_module(libs[k - 1].1, ids_of_libs(libs, k - 1))
    }
}

proof fn lemma_ids_of_prefix(a: Seq<SLib>, b: Seq<SLib>, k: int)
    requires
        k <= a.len() <= b.len(),
        forall|i: int| 0 <= i < a.len() ==> a[i] == b[i],
    ensures
        ids_of_libs(a, k) == ids_of_libs(b, k),
    decreases k,
{
    if k > 0 {
        lemma_ids_of_prefix(a, b, k - 1);
        assert(a[k - 1] == b[k - 1]);
    }
}

proof fn lemma_numbers_of_files(
    files: Seq<(String, String)>,
    tokens: Seq<Seq<Spanned>>,
    base: u32,
    k: int,
)
    requires
        k >= 0,
    ensures
        loaded(files, tokens, base, k).0.len() == k,
        loaded(files, tokens, base, k).1 == nth(base, counted(files, tokens, k)),
        ids_of_libs(loaded(files, tokens, base, k).0, k) == run(
            seq![],
            base,
            counted(files, tokens, k),
        ),
    decreases k,
{
    if k > 0 {
        lemma_numbers_of_files(files, tokens, base, k - 1);
        let (libs, n) = loaded(files, tokens, base, k - 1);
        let c = counted(files, tokens, k - 1);
        let m = module(tokens[k - 1], end_of(files[k - 1].1@)).0->0;
        lemma_module(m, n, run(seq![], base, c));
        lemma_run(seq![], base, c, count_module(m));
        let all = loaded(files, tokens, base, k).0;
        lemma_ids_of_prefix(libs, all, k - 1);
        assert(all[k - 1].1 == numbered_module(m, n).0);
    } else {
        lemma_run_none(seq![], base);
    }
}

/// No two expressions of a library share a number, whichever files they stand in: numbers
/// run on from `base` through all files, as long as there are as many as there are
/// expressions.
pub proof fn numbers_stay_apart(
    files: Seq<(String, String)>,
    tokens: Seq<Seq<Spanned>>,
    base: u32,
)
    requires
        counted(files, tokens, files.len() as int) <= 0x1_0000_0000,
    ensures
        ids_of_libs(
            loaded(files, tokens, base, files.len() as int).0,
            files.len() as int,
        ).no_duplicates(),
        loaded(files, tokens, base, files.len() as int).1 == nth(
            base,
            counted(files, tokens, files.len() as int),
        ),
{
    lemma_numbers_of_files(files, tokens, base, files.len() as int);
    lemma_run_apart(base, counted(files, tokens, files.len() as int));
}

proof fn lemma_read_on(
    a: Seq<(String, String)>,
    b: Seq<(String, String)>,
    ta: Seq<Seq<Spanned>>,
    tb: Seq<Seq<Spanned>>,
    base: u32,
    k: int,
)
    requires
        ta.len() == a.len(),
        tb.len() == b.len(),
        0 <= k <= b.len(),
    ensures
        ({
            let (ma, n) = loaded(a, ta, base, a.len() as int);
            let (mb, m) = loaded(b, tb, n, k);
            loaded(a + b, ta + tb, base, a.len() + k) == (ma + mb, m)
        }),
    decreases k,
{
    let (ma, n) = loaded(a, ta, base, a.len() as int);
    if k == 0 {
        lemma_loaded_prefix(a, b, ta, tb, base, a.len() as int);
        assert(ma + Seq::<SLib>::empty() =~= ma);
    } else {
        lemma_read_on(a, b, ta, tb, base, k - 1);
        let at = a.len() + k - 1;
        assert((a + b)[at] == b[k - 1]);
        assert((ta + tb)[at] == tb[k - 1]);
        let (mb, m) = loaded(b, tb, n, k - 1);
        let more = loaded(b, tb, n, k).0;
        assert(more == mb.push(more.last()));
        assert((ma + mb).push(more.last()) =~= ma + more);
    }
}

proof fn lemma_loaded_prefix(
    a: Seq<(String, String)>,
    b: Seq<(String, String)>,
    ta: Seq<Seq<Spanned>>,
    tb: Seq<Seq<Spanned>>,
    base: u32,
    k: int,
)
    requires
        ta.len() == a.len(),
        k <= a.len(),
    ensures
        loaded(a + b, ta + tb, base, k) == loaded(a, ta, base, k),
    decreases k,
{
    if k > 0 {
        lemma_loaded_prefix(a, b, ta, tb, base, k - 1);
        assert((a + b)[k - 1] == a[k - 1]);
        assert((ta + tb)[k - 1] == ta[k - 1]);
    }
}

/// Reading files and then more files, numbered on from where the first end, is reading all of
/// them together.
pub proof fn files_are_read_one_after_the_other(
    a: Seq<(String, String)>,
    b: Seq<(String, String)>,
    base: u32,
    ma: Vec<(Vec<String>, Module)>,
    n: u32,
    mb: Vec<(Vec<String>, Module)>,
    m: u32,
    all: Vec<(Vec<String>, Module)>,
)
    requires
        loads(a, base, Ok((ma, n))),
        loads(b, n, Ok((mb, m))),
        libs_sem(all@) == libs_sem(ma@) + libs_sem(mb@),
    ensures
        loads(a + b, base, Ok((all, m))),
{
    let ta = choose|t: Seq<Seq<Spanned>>|
        #[trigger] all_well_written(a, t, a.len() as int) && t.len() == a.len() && (
            libs_sem(ma@),
            n,
        ) == loaded(a, t, base, a.len() as int);
    let tb = choose|t: Seq<Seq<Spanned>>|
        #[trigger] all_well_written(b, t, b.len() as int) && t.len() == b.len() && (
            libs_sem(mb@),
            m,
        ) == loaded(b, t, n, b.len() as int);
    let (f, t) = (a + b, ta + tb);
    lemma_read_on(a, b, ta, tb, base, b.len() as int);
    assert forall|i: int| 0 <= i < f.len() implies well_written(f[i].1@, #[trigger] t[i]) by {
        if i < a.len() {
            assert(t[i] == ta[i] && f[i] == a[i]);
        } else {
            assert(t[i] == tb[i - a.len()] && f[i] == b[i - a.len()]);
        }
    }
    assert(all_well_written(f, t, f.len() as int));
}

/// Read the files of a library, numbered from zero on. No annotation is acted on.
pub fn parse(sources: &Vec<(String, String)>) -> (r: Result<
    Vec<(Vec<String>, Module)>,
    LoadError,
>)
    ensures
        match r {
            Ok(ms) => loads_some(sources@, ms),
            Err(e) => loads(sources@, 0, Err(e)),
        },
{
    match parse_from(sources, 0) {
        Ok((ms, _)) => Ok(ms),
        Err(e) => Err(e),
    }
}

proof fn lemma_cut_part(s: Seq<char>, from: int, k: int, parts: Seq<Seq<char>>)
    requires
        0 <= from <= k <= s.len(),
        cut(s, from) == (parts, Seq::<char>::empty()),
        forall|i: int| from <= i < k ==> !is_separator(#[trigger] s[i]),
    ensures
        cut(s, k) == (parts, s.subrange(from, k)),
    decreases k,
{
    if from < k {
        lemma_cut_part(s, from, k - 1, parts);
        assert(!is_separator(s[k - 1]));
        assert(s.subrange(from, k - 1).push(s[k - 1]) =~= s.subrange(from, k));
    } else {
        assert(s.subrange(from, k) =~= seq![]);
    }
}

proof fn lemma_cut_starts(s: Seq<char>, t: Seq<char>, k: int)
    requires
        0 <= k <= s.len(),
        k <= t.len(),
        forall|i: int| 0 <= i < k ==> s[i] == t[i],
    ensures
        cut(s, k) == cut(t, k),
    decreases k,
{
    if k > 0 {
        lemma_cut_starts(s, t, k - 1);
    }
}

proof fn lemma_cut_joined(parts: Seq<Seq<char>>, n: int)
    requires
        1 <= n <= parts.len(),
        forall|i: int| 0 <= i < parts.len() ==> is_part(#[trigger] parts[i]),
    ensures
        ({
            let s = joined(parts, seq!['/'], n);
            cut(s, s.len() as int) == (parts.take(n - 1), parts[n - 1])
        }),
    decreases n,
{
    let s = joined(parts, seq!['/'], n);
    let p = parts[n - 1];
    assert(is_part(p));
    if n == 1 {
        assert(s =~= p);
        assert forall|i: int| 0 <= i < s.len() implies !is_separator(#[trigger] s[i]) by {
            assert(s[i] == p[i]);
        }
        lemma_cut_part(s, 0, s.len() as int, seq![]);
        assert(s.subrange(0, s.len() as int) =~= p);
        assert(parts.take(0) =~= seq![]);
    } else {
        lemma_cut_joined(parts, n - 1);
        let before = joined(parts, seq!['/'], n - 1);
        let m = before.len() as int;
        assert(s =~= before + seq!['/'] + p);
        lemma_cut_starts(before, s, m);
        assert(s[m] == '/');
        let done = with_part(parts.take(n - 2), parts[n - 2]);
        assert(is_part(parts[n - 2]));
        assert(done =~= parts.take(n - 1));
        assert(cut(s, m + 1) == (done, Seq::<char>::empty()));
        assert forall|i: int| m + 1 <= i < s.len() implies !is_separator(#[trigger] s[i]) by {
            assert(s[i] == p[i - m - 1]);
        }
        lemma_cut_part(s, m + 1, s.len() as int, done);
        assert(s.subrange(m + 1, s.len() as int) =~= p);
    }
}

/// The path of a module reads back from the name of its file: the parts of a path, put
/// together with slashes and `.neon` at the end, are the parts of the module again.
pub proof fn paths_read_back(parts: Seq<Seq<char>>)
    requires
        parts.len() >= 1,
        forall|i: int| 0 <= i < parts.len() ==> is_part(#[trigger] parts[i]),
        join_all(parts, seq!['/']) != "prelude"@,
    ensures
        path_of(join_all(parts, seq!['/']) + ".neon"@) == parts,
{
    let s = join_all(parts, seq!['/']);
    reveal_strlit(".neon");
    let rel = s + ".neon"@;
    assert(rel.skip(rel.len() - 5) =~= ".neon"@);
    assert(rel.take(rel.len() - 5) =~= s);
    assert(stem(rel) == s);
    let n = parts.len() as int;
    lemma_cut_joined(parts, n);
    assert(is_part(parts[n - 1]));
    assert(parts.take(n - 1).push(parts[n - 1]) =~= parts);
}

} // verus!
