use neon::ast::{AnnArg, Annotation, DeclKind, ExprId, Module};
use neon::check::Env;
use neon::lexer::LexErrorKind;
use neon::lint::{all, allows, Lint};
use neon::stdlib::{module_prefix, number_libs, parse, parse_from, read_files, LoadFault};

#[test]
fn module_path_from_relative() {
    assert_eq!(module_prefix("std/io.neon"), vec!["std", "io"]);
    assert_eq!(module_prefix("std/collections/list.neon"), vec!["std", "collections", "list"]);
    // The prelude has a path of its own, not that of the program.
    assert_eq!(module_prefix("prelude.neon"), vec![Env::PRELUDE]);
    // Only the toolchain's own `prelude.neon` is special; a file that merely happens
    // to be named `prelude` inside a library is an ordinary module.
    assert_eq!(module_prefix("std/prelude.neon"), vec!["std", "prelude"]);
}

#[test]
fn separators_of_both_kinds_cut_and_empty_parts_are_dropped() {
    assert_eq!(module_prefix("std\\io"), vec!["std", "io"]);
    assert_eq!(module_prefix("/std//io.neon/"), vec!["std", "io.neon"]);
    assert!(module_prefix(".neon").is_empty());
}

#[test]
fn parses_a_native_signature() {
    let src = "@native(\"neon_io_println\") fn println(s: str)".to_string();
    let loaded = parse(&vec![("std/io.neon".to_string(), src)]).expect("parses");
    assert_eq!(loaded.len(), 1);
    assert_eq!(loaded[0].0, vec!["std", "io"]);
}

#[test]
fn numbers_run_on_from_file_to_file() {
    let src = "fn f() -> i64 { 1 }".to_string();
    let one = vec![("a.neon".to_string(), "fn f() -> i64 { 1 }".to_string())];
    let two = vec![("a.neon".to_string(), src), ("b.neon".to_string(), "fn g() -> i64 { 2 }".to_string())];
    let (_, after_one) = parse_from(&one, 10).expect("parses");
    let (ms, after_two) = parse_from(&two, 10).expect("parses");
    assert_eq!(after_one, 11);
    assert_eq!(after_two, 12);
    assert_eq!(ms.len(), 2);
}

#[test]
fn files_read_one_after_the_other_are_files_read_together() {
    let file = |n: &str| (format!("{n}.neon"), format!("fn {n}() -> i64 {{ 1 + 2 }}"));
    let (a, b) = (vec![file("a")], vec![file("b"), file("c")]);
    let (mut ma, n) = parse_from(&a, 3).expect("parses");
    let (mb, m) = parse_from(&b, n).expect("parses");
    ma.extend(mb);
    let together = vec![file("a"), file("b"), file("c")];
    assert_eq!(parse_from(&together, 3), Ok((ma, m)));
    assert_eq!((n, m), (6, 12));
}

#[test]
fn a_file_that_does_not_lex_is_named() {
    let files = vec![
        ("a.neon".to_string(), "fn f() {}".to_string()),
        ("b.neon".to_string(), "fn g() { \"\\q\" }".to_string()),
    ];
    let e = parse(&files).expect_err("does not lex");
    assert_eq!(e.file, "b.neon");
    match e.fault {
        LoadFault::Lex(es) => assert_eq!(es[0].kind, LexErrorKind::UnknownEscape('q')),
        other => panic!("expected a lexical fault, got {other:?}"),
    }
}

#[test]
fn a_file_that_does_not_parse_is_named() {
    let e = parse(&vec![("a.neon".to_string(), "fn (".to_string())]).expect_err("does not parse");
    assert_eq!(e.file, "a.neon");
    assert!(matches!(e.fault, LoadFault::Parse(_)));
}

fn item(path: &[&str], args: Vec<AnnArg>) -> AnnArg {
    AnnArg::Item { path: path.iter().map(|s| s.to_string()).collect(), args }
}

fn annotation(name: &str, args: Vec<AnnArg>) -> Annotation {
    Annotation { name: name.to_string(), arg: None, args, span: 0..0 }
}

#[test]
fn lints_are_found_by_name() {
    assert_eq!(all(), vec![Lint::StaleWrite]);
    assert_eq!(Lint::StaleWrite.name(), "stale_write");
    assert_eq!(Lint::from_name("stale_write"), Some(Lint::StaleWrite));
    assert_eq!(Lint::from_name("stale"), None);
}

#[test]
fn allow_turns_a_lint_off() {
    let lint = || item(&["stale_write"], vec![]);
    let off = |args| allows(&vec![annotation("allow", args)], Lint::StaleWrite);
    assert!(off(vec![lint()]));
    assert!(off(vec![item(&["other"], vec![]), lint()]));
    assert!(!allows(&vec![annotation("deny", vec![lint()])], Lint::StaleWrite));
    assert!(!off(vec![item(&["other"], vec![])]));
    assert!(!off(vec![item(&["lints", "stale_write"], vec![])]));
    assert!(!off(vec![item(&["stale_write"], vec![lint()])]));
    assert!(!off(vec![AnnArg::Text("stale_write".to_string())]));
    assert!(!off(vec![]));
    assert!(!allows(&vec![], Lint::StaleWrite));
}

#[test]
fn files_can_be_read_and_numbered_apart() {
    let sources = vec![
        ("a.neon".to_string(), "@cfg(\"never\") fn f() -> i64 { 1 } fn h() -> i64 { 3 }".to_string()),
        ("b.neon".to_string(), "fn g() -> i64 { 2 }".to_string()),
    ];
    let mut libs = read_files(&sources).expect("reads");
    let next = number_libs(&mut libs, 10);
    assert_eq!(parse_from(&sources, 10), Ok((libs, next)));
    assert_eq!(next, 13);
    // What is left out in between takes no numbers.
    let mut libs = read_files(&sources).expect("reads");
    libs[0].1.decls.remove(0);
    assert_eq!(number_libs(&mut libs, 10), 12);
    let bad = vec![("c.neon".to_string(), "fn".to_string())];
    assert_eq!(read_files(&bad), parse(&bad));
    assert!(read_files(&bad).is_err());
}

#[test]
fn numbers_begin_anew_behind_the_last() {
    let sources = vec![
        ("a.neon".to_string(), "fn f() -> i64 { 1 }".to_string()),
        ("b.neon".to_string(), "fn g() -> i64 { 2 }".to_string()),
    ];
    let (libs, next) = parse_from(&sources, u32::MAX).expect("parses");
    let id = |m: &Module| match &m.decls[0].kind {
        DeclKind::Fn(f) => f.body.as_ref().and_then(|b| b.tail.as_ref()).expect("a tail").id,
        _ => panic!("a fn"),
    };
    assert_eq!(id(&libs[0].1), ExprId(u32::MAX));
    assert_eq!(id(&libs[1].1), ExprId(0));
    assert_eq!(next, 1);
}
