use mash::aliases::AliasTable;
use mash::args::Args;
use mash::cmd::{BuiltinType, Cmd};
use mash::parser::{Expr, Parser};
use mash::state::ShellState;
use mash::stream::PeekableArgs;

fn state_with(aliases: &[(&str, &str)]) -> ShellState {
    let mut table = AliasTable::new();
    for (a, r) in aliases {
        table.insert(a.to_string(), r.to_string());
    }
    ShellState::new(table)
}

fn compile(line: &str, state: &ShellState) -> Result<Vec<Expr>, Vec<String>> {
    let parser = Parser::new(PeekableArgs::new(Args::new(line)), state);
    parser.compile()
}

/// A compact rendering of an expression, for comparisons.
fn show(e: &Expr) -> String {
    match e {
        Expr::Cmd(Cmd::External(c)) => {
            let mut s = format!("ext:{}", c.program());
            for a in c.args() {
                s.push_str(&format!(" {}", a));
            }
            s
        }
        Expr::Cmd(Cmd::Builtin(b)) => {
            let mut s = format!("builtin:{:?}", b.typ());
            for a in b.args() {
                s.push_str(&format!(" {}", a));
            }
            s
        }
        Expr::OverwriteOutToFile(x, f) => format!("({} > {})", show(x), f),
        Expr::AppendOutToFile(x, f) => format!("({} >> {})", show(x), f),
        Expr::OverwriteErrToFile(x, f) => format!("({} 2> {})", show(x), f),
        Expr::AppendErrToFile(x, f) => format!("({} 2>> {})", show(x), f),
        Expr::Pipe(l, r) => format!("({} | {})", show(l), show(r)),
        Expr::Error => "error".to_string(),
    }
}

fn parse_ok(line: &str, state: &ShellState) -> Vec<String> {
    match compile(line, state) {
        Ok(exprs) => exprs.iter().map(show).collect(),
        Err(errs) => panic!("unexpected errors {:?}", errs),
    }
}

fn parse_err(line: &str, state: &ShellState) -> Vec<String> {
    match compile(line, state) {
        Ok(exprs) => panic!("unexpected success {:?}", exprs.iter().map(show).collect::<Vec<_>>()),
        Err(errs) => errs,
    }
}

#[test]
fn command_with_arguments() {
    let st = state_with(&[]);
    assert_eq!(parse_ok("ls -la /tmp", &st), vec!["ext:ls -la /tmp"]);
    assert_eq!(parse_ok("echo hello world", &st), vec!["builtin:Echo hello world"]);
}

#[test]
fn builtin_names_resolve_to_builtins() {
    let st = state_with(&[]);
    assert_eq!(parse_ok("history 3", &st), vec!["builtin:History 3"]);
    assert_eq!(parse_ok("unalias x", &st), vec!["builtin:Unalias x"]);
    assert_eq!(BuiltinType::from_str("cd"), Ok(BuiltinType::Cd));
    assert_eq!(BuiltinType::from_str("cat"), Err(()));
}

#[test]
fn pipes_are_left_associative() {
    let st = state_with(&[]);
    assert_eq!(parse_ok("a | b | c", &st), vec!["((ext:a | ext:b) | ext:c)"]);
}

#[test]
fn redirection_binds_tighter_than_pipe() {
    let st = state_with(&[]);
    assert_eq!(parse_ok("a | b > f", &st), vec!["(ext:a | (ext:b > f))"]);
    assert_eq!(parse_ok("a > f | b", &st), vec!["((ext:a > f) | ext:b)"]);
    assert_eq!(parse_ok("a 2>> e >> o", &st), vec!["((ext:a 2>> e) >> o)"]);
}

#[test]
fn words_after_a_redirection_file_are_an_error() {
    let st = state_with(&[]);
    assert_eq!(
        parse_err("a > f b", &st),
        vec!["Unexpected start of expression, expected newline or expression seperator"]
    );
}

#[test]
fn newline_word_separates_expressions() {
    let st = state_with(&[]);
    assert_eq!(parse_ok("a > f '\n' b x", &st), vec!["(ext:a > f)", "ext:b x"]);
}

#[test]
fn syntax_errors_are_all_reported() {
    let st = state_with(&[]);
    assert_eq!(parse_err("| a", &st), vec!["Invalid start of expression: Pipe", "Unexpected start of expression, expected newline or expression seperator"]);
    assert_eq!(parse_err("|", &st), vec!["Invalid start of expression: Pipe"]);
    assert_eq!(
        parse_err("> f", &st),
        vec!["Invalid start of expression: OverwriteOutToFile", "Unexpected start of expression, expected newline or expression seperator"]
    );
    assert_eq!(parse_err("2>>", &st), vec!["Invalid start of expression: AppendErrToFile"]);
    assert_eq!(parse_err("a |", &st), vec!["Invalid start of expression: EOF"]);
    assert_eq!(parse_err("a >", &st), vec!["Expected filename after redirect"]);
    assert_eq!(
        parse_err("a > | b >", &st),
        vec!["Expected filename after redirect", "Expected filename after redirect"]
    );
    assert_eq!(parse_err("", &st), vec!["Invalid start of expression: EOF"]);
}

#[test]
fn aliases_expand_in_command_position() {
    let st = state_with(&[("ll", "ls -l")]);
    assert_eq!(parse_ok("ll /tmp", &st), vec!["ext:ls -l /tmp"]);
    assert_eq!(parse_ok("echo ll", &st), vec!["builtin:Echo ll"]);
    assert_eq!(parse_ok("x | ll", &st), vec!["(ext:x | ext:ls -l)"]);
}

#[test]
fn alias_to_operators_and_empty_text() {
    let st = state_with(&[("p", "a |"), ("e", "")]);
    assert_eq!(parse_ok("p b", &st), vec!["(ext:a | ext:b)"]);
    assert_eq!(parse_ok("e ls", &st), vec!["ext:ls"]);
}

#[test]
fn recursive_alias_stops_at_the_depth_limit() {
    let st = state_with(&[("ls", "ls --color")]);
    let parser = Parser::new(PeekableArgs::new(Args::new("ls")), &st);
    let compiled = parser.compile_with_notes();
    assert_eq!(compiled.notes, vec!["Max recursion depth reached; results may be unexpected"]);
    let exprs = match compiled.result {
        Ok(e) => e,
        Err(_) => panic!("errors"),
    };
    let expected = format!("ext:ls{}", " --color".repeat(10));
    assert_eq!(exprs.iter().map(show).collect::<Vec<_>>(), vec![expected]);
}

#[test]
fn mutually_recursive_aliases_terminate() {
    let st = state_with(&[("a", "b x"), ("b", "a y")]);
    let out = parse_ok("a", &st);
    assert_eq!(out.len(), 1);
    assert!(out[0].starts_with("ext:"));
}

#[test]
fn doubled_quotes_close_an_empty_piece() {
    let st = state_with(&[]);
    assert_eq!(parse_ok("cat \"\"\"\" x", &st), vec!["ext:cat x"]);
    assert_eq!(parse_ok("echo 'a''''b'", &st), vec!["builtin:Echo ab"]);
}

#[test]
fn successful_parse_has_no_error_placeholder_and_failure_has_a_message() {
    let st = state_with(&[]);
    match compile("a | b > f 2>> g", &st) {
        Ok(exprs) => assert!(exprs.iter().all(|e| !show(e).contains("error"))),
        Err(_) => panic!("expected a parse"),
    }
    match compile("| a", &st) {
        Ok(_) => panic!("expected errors"),
        Err(errs) => assert!(!errs.is_empty()),
    }
}
