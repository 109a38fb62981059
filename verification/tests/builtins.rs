use mash::aliases::AliasTable;
use mash::builtin::{
    cd_failure_output, create_path, pwd_output, type_search_output, CompletionUpdate, Outcome,
    Request, Stream,
};
use mash::cmd::Builtin;
use mash::state::ShellState;
use rustyline::history::{FileHistory, History};

fn run(name: &str, args: &[&str], state: &mut ShellState, history: &FileHistory) -> Outcome {
    let mut b = match Builtin::new(name) {
        Ok(b) => b,
        Err(()) => panic!("not a builtin"),
    };
    let mut v: Vec<String> = args.iter().map(|s| s.to_string()).collect();
    b.set_args(&mut v);
    assert!(v.is_empty());
    b.execute(state, history, "/home/u")
}

fn writes(o: &Outcome) -> Vec<(Stream, String)> {
    o.writes.iter().map(|w| (w.stream, w.text.clone())).collect()
}

fn empty_state() -> ShellState {
    ShellState::new(AliasTable::new())
}

#[test]
fn echo_joins_arguments() {
    let mut st = empty_state();
    let h = FileHistory::new();
    let o = run("echo", &["a", "b  c", "d"], &mut st, &h);
    assert_eq!(writes(&o), vec![(Stream::Stdout, "a b  c d\n".to_string())]);
    assert!(matches!(o.request, Request::Nothing));
    let o = run("echo", &[], &mut st, &h);
    assert_eq!(writes(&o), vec![(Stream::Stdout, "\n".to_string())]);
}

#[test]
fn exit_and_pwd_are_requests() {
    let mut st = empty_state();
    let h = FileHistory::new();
    assert!(matches!(run("exit", &[], &mut st, &h).request, Request::Exit));
    let o = run("pwd", &["ignored"], &mut st, &h);
    assert!(matches!(o.request, Request::PrintWorkingDir));
    assert!(o.writes.is_empty());
    let w = pwd_output(Some("/tmp".to_string()));
    assert_eq!((w.stream, w.text), (Stream::Stdout, "/tmp\n".to_string()));
    let w = pwd_output(None);
    assert_eq!(
        (w.stream, w.text),
        (
            Stream::Stderr,
            "Current working directory either doesn't exist or you have insufficient privileges\n"
                .to_string()
        )
    );
}

#[test]
fn cd_expands_tilde() {
    let mut st = empty_state();
    let h = FileHistory::new();
    match run("cd", &["~/src", "other"], &mut st, &h).request {
        Request::ChangeDir(p) => assert_eq!(p, "/home/u/src"),
        _ => panic!("expected a directory change"),
    }
    assert_eq!(create_path("a~b~", "H"), "aHbH");
    assert_eq!(create_path("plain", "H"), "plain");
    let o = run("cd", &[], &mut st, &h);
    assert_eq!(
        writes(&o),
        vec![(
            Stream::Stderr,
            "Cd requires at least one argument. If more than one are provided all but the first are discarded.\n"
                .to_string()
        )]
    );
    let w = cd_failure_output("/nope");
    assert_eq!((w.stream, w.text), (Stream::Stderr, "cd: /nope: No such file or directory\n".to_string()));
}

#[test]
fn type_reports_aliases_builtins_and_programs() {
    let mut st = empty_state();
    let h = FileHistory::new();
    run("alias", &["ll", "ls -l"], &mut st, &h);
    let o = run("type", &["ll"], &mut st, &h);
    assert_eq!(writes(&o), vec![(Stream::Stdout, "ll is a alias for ls -l\n".to_string())]);
    let o = run("type", &["history"], &mut st, &h);
    assert_eq!(writes(&o), vec![(Stream::Stdout, "history is a shell builtin\n".to_string())]);
    match run("type", &["cat"], &mut st, &h).request {
        Request::LocateExecutable(n) => assert_eq!(n, "cat"),
        _ => panic!("expected a search"),
    }
    let w = type_search_output("cat", Some("/bin/cat".to_string()));
    assert_eq!((w.stream, w.text), (Stream::Stdout, "/bin/cat\n".to_string()));
    let w = type_search_output("nope", None);
    assert_eq!((w.stream, w.text), (Stream::Stdout, "nope: not found\n".to_string()));
    let o = run("type", &[], &mut st, &h);
    assert_eq!(o.writes[0].stream, Stream::Stderr);
    assert_eq!(
        o.writes[0].text,
        "Type requires at least one argument. If more than one are provided all but the first are discarded.\n"
    );
}

#[test]
fn alias_and_unalias_change_the_table() {
    let mut st = empty_state();
    let h = FileHistory::new();
    let o = run("alias", &["g", "git status"], &mut st, &h);
    assert!(o.writes.is_empty());
    match o.completion {
        CompletionUpdate::Insert(n) => assert_eq!(n, "g"),
        _ => panic!("expected an insertion"),
    }
    assert_eq!(st.aliases.get("g").map(|s| s.as_str()), Some("git status"));
    run("alias", &["g", "git log"], &mut st, &h);
    assert_eq!(st.aliases.get("g").map(|s| s.as_str()), Some("git log"));
    assert_eq!(st.aliases.len(), 1);
    let o = run("unalias", &["g"], &mut st, &h);
    match o.completion {
        CompletionUpdate::Remove(n) => assert_eq!(n, "g"),
        _ => panic!("expected a removal"),
    }
    assert_eq!(st.aliases.get("g"), None);
    let o = run("type", &["g"], &mut st, &h);
    assert!(matches!(o.request, Request::LocateExecutable(_)));
}

#[test]
fn alias_errors() {
    let mut st = empty_state();
    let h = FileHistory::new();
    let o = run("alias", &["a=b", "c"], &mut st, &h);
    assert_eq!(writes(&o), vec![(Stream::Stderr, "Alias can't contain '='.".to_string())]);
    assert_eq!(st.aliases.len(), 0);
    let o = run("alias", &["a"], &mut st, &h);
    assert_eq!(writes(&o), vec![(Stream::Stderr, "Alias requires at least two arguments.\n".to_string())]);
    let o = run("unalias", &[], &mut st, &h);
    assert_eq!(writes(&o), vec![(Stream::Stderr, "Unalias requires one argument.\n".to_string())]);
}

#[test]
fn history_lists_the_last_entries() {
    let mut st = empty_state();
    let mut h = FileHistory::new();
    for line in ["one", "two", "three"] {
        h.add(line).unwrap();
    }
    let o = run("history", &[], &mut st, &h);
    assert_eq!(
        writes(&o),
        vec![
            (Stream::Stdout, "    1  one\n".to_string()),
            (Stream::Stdout, "    2  two\n".to_string()),
            (Stream::Stdout, "    3  three\n".to_string()),
        ]
    );
    let o = run("history", &["2"], &mut st, &h);
    assert_eq!(
        writes(&o),
        vec![(Stream::Stdout, "    1  two\n".to_string()), (Stream::Stdout, "    2  three\n".to_string())]
    );
    let o = run("history", &["0"], &mut st, &h);
    assert!(o.writes.is_empty());
    let o = run("history", &["99"], &mut st, &h);
    assert_eq!(o.writes.len(), 3);
    let o = run("history", &["x"], &mut st, &h);
    assert_eq!(o.writes.len(), 3);
    let o = run("history", &["+1"], &mut st, &h);
    assert_eq!(writes(&o), vec![(Stream::Stdout, "    1  three\n".to_string())]);
}

#[test]
fn history_numbers_are_right_aligned() {
    let mut st = empty_state();
    let mut h = FileHistory::new();
    for i in 0..12 {
        h.add(&format!("c{}", i)).unwrap();
    }
    let o = run("history", &[], &mut st, &h);
    assert_eq!(o.writes.len(), 12);
    assert_eq!(o.writes[9].text, "   10  c9\n");
    assert_eq!(o.writes[11].text, "   12  c11\n");
}
