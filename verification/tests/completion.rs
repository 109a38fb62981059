use mash::completion::{CommandSet, Completion};

fn commands(c: &Completion) -> (usize, Vec<String>) {
    match c {
        Completion::Commands { start, candidates } => (*start, candidates.clone()),
        Completion::Files => panic!("expected commands"),
    }
}

#[test]
fn first_word_completes_from_commands() {
    let set = CommandSet::new();
    assert_eq!(commands(&set.complete("e")), (0, vec!["exit".to_string(), "echo".to_string()]));
    assert_eq!(commands(&set.complete("  hi")), (2, vec!["history".to_string()]));
    assert_eq!(commands(&set.complete("")).1.len(), 8);
    assert_eq!(commands(&set.complete("a")), (0, vec!["alias".to_string()]));
    assert_eq!(commands(&set.complete("un")), (0, vec!["unalias".to_string()]));
    assert_eq!(commands(&set.complete("zz")), (0, vec![]));
}

#[test]
fn later_words_complete_files() {
    let set = CommandSet::new();
    assert!(matches!(set.complete("cat REA"), Completion::Files));
    assert!(matches!(set.complete("echo "), Completion::Files));
}

#[test]
fn offsets_are_in_bytes() {
    let set = CommandSet::new();
    assert_eq!(commands(&set.complete("\u{A0}\u{A0} c")), (5, vec!["cd".to_string()]));
}

#[test]
fn aliases_join_and_leave_the_candidates() {
    let mut set = CommandSet::new();
    set.insert("ll".to_string());
    set.insert("ll".to_string());
    assert_eq!(commands(&set.complete("l")), (0, vec!["ll".to_string()]));
    set.remove("ll");
    assert_eq!(commands(&set.complete("l")), (0, vec![]));
    set.remove("cd");
    assert_eq!(commands(&set.complete("c")), (0, vec![]));
}
