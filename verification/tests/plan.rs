use mash::aliases::AliasTable;
use mash::args::Args;
use mash::cmd::Cmd;
use mash::parser::Parser;
use mash::plan::{execution_plan, Step};
use mash::state::ShellState;
use mash::stream::PeekableArgs;

fn plan_of(line: &str) -> Vec<String> {
    let st = ShellState::new(AliasTable::new());
    let parser = Parser::new(PeekableArgs::new(Args::new(line)), &st);
    let mut exprs = match parser.compile() {
        Ok(e) => e,
        Err(e) => panic!("{:?}", e),
    };
    assert_eq!(exprs.len(), 1);
    let steps = execution_plan(exprs.remove(0));
    steps
        .iter()
        .map(|s| match s {
            Step::Start(Cmd::External(c)) => format!("start {}", c.program()),
            Step::Start(Cmd::Builtin(b)) => format!("start {:?}", b.typ()),
            Step::RedirectStdout { path, append } => format!("out {} {}", path, append),
            Step::RedirectStderr { path, append } => format!("err {} {}", path, append),
            Step::Pipe => "pipe".to_string(),
        })
        .collect()
}

#[test]
fn plan_of_a_pipeline() {
    assert_eq!(
        plan_of("a | b | c"),
        vec!["start a", "start b", "pipe", "start c", "pipe"]
    );
}

#[test]
fn plan_opens_files_after_their_command() {
    assert_eq!(
        plan_of("a > f | b 2>> g"),
        vec!["start a", "out f false", "start b", "err g true", "pipe"]
    );
    assert_eq!(plan_of("echo x >> log"), vec!["start Echo", "out log true"]);
}

#[test]
fn plan_leaves_one_command() {
    for line in ["a", "a | b", "a > f | b | c 2> e", "a >> x > y"] {
        let steps = plan_of(line);
        let mut depth: i64 = 0;
        for s in &steps {
            if s.starts_with("start") {
                depth += 1;
            } else if s == "pipe" {
                assert!(depth >= 2);
                depth -= 1;
            } else {
                assert!(depth >= 1);
            }
        }
        assert_eq!(depth, 1);
    }
}
