use mash::aliases::{split_alias_line, AliasTable};

fn lines(v: &[&str]) -> Vec<String> {
    v.iter().map(|s| s.to_string()).collect()
}

#[test]
fn insert_get_remove() {
    let mut t = AliasTable::new();
    assert_eq!(t.len(), 0);
    t.insert("b".to_string(), "2".to_string());
    t.insert("a".to_string(), "1".to_string());
    t.insert("c".to_string(), "3".to_string());
    assert_eq!(t.get("a").map(|s| s.as_str()), Some("1"));
    assert_eq!(t.get("b").map(|s| s.as_str()), Some("2"));
    assert_eq!(t.get("d"), None);
    t.insert("b".to_string(), "22".to_string());
    assert_eq!(t.get("b").map(|s| s.as_str()), Some("22"));
    assert_eq!(t.len(), 3);
    t.remove("b");
    t.remove("zz");
    assert_eq!(t.get("b"), None);
    assert_eq!(t.len(), 2);
}

#[test]
fn saved_lines_are_sorted_by_name() {
    let mut t = AliasTable::new();
    t.insert("zeta".to_string(), "z".to_string());
    t.insert("Alpha".to_string(), "A=1".to_string());
    t.insert("alpha".to_string(), "a".to_string());
    t.insert("é".to_string(), "accent".to_string());
    assert_eq!(t.save_lines(), lines(&["Alpha=A=1", "alpha=a", "zeta=z", "é=accent"]));
}

#[test]
fn sorting_matches_string_order() {
    let names = ["b", "ab", "a", "abc", "B", "~", "a b", "ä", "aa"];
    let mut t = AliasTable::new();
    for n in names {
        t.insert(n.to_string(), "x".to_string());
    }
    let mut sorted: Vec<&str> = names.to_vec();
    sorted.sort();
    let expected: Vec<String> = sorted.iter().map(|n| format!("{}=x", n)).collect();
    assert_eq!(t.save_lines(), expected);
}

#[test]
fn reading_alias_lines() {
    assert_eq!(split_alias_line("ll=ls -l"), Some(("ll".to_string(), "ls -l".to_string())));
    assert_eq!(split_alias_line("x=a=b"), Some(("x".to_string(), "a=b".to_string())));
    assert_eq!(split_alias_line("x="), Some(("x".to_string(), "".to_string())));
    assert_eq!(split_alias_line("=x"), None);
    assert_eq!(split_alias_line("no equals"), None);
    assert_eq!(split_alias_line("   "), None);
    assert_eq!(split_alias_line(""), None);
    assert_eq!(split_alias_line(" a =b"), Some((" a ".to_string(), "b".to_string())));
}

#[test]
fn later_lines_override_earlier_ones() {
    let t = AliasTable::from_lines(&lines(&["a=1", "", "junk", "b=2", "a=3", "=4"]));
    assert_eq!(t.len(), 2);
    assert_eq!(t.get("a").map(|s| s.as_str()), Some("3"));
    assert_eq!(t.get("b").map(|s| s.as_str()), Some("2"));
}

#[test]
fn save_then_load_gives_the_same_aliases() {
    let mut t = AliasTable::new();
    t.insert("ll".to_string(), "ls -l".to_string());
    t.insert("eq".to_string(), "a=b".to_string());
    t.insert("empty".to_string(), "".to_string());
    let saved = t.save_lines();
    let back = AliasTable::from_lines(&saved);
    assert_eq!(back.save_lines(), saved);
    assert_eq!(back.get("eq").map(|s| s.as_str()), Some("a=b"));
    assert_eq!(back.get("empty").map(|s| s.as_str()), Some(""));
}
