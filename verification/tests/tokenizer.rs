use mash::args::{Args, Token};
use mash::stream::PeekableArgs;

fn tokens(line: &str) -> Vec<Token> {
    let mut args = Args::new(line);
    let mut out = Vec::new();
    loop {
        match args.next_token() {
            Some(t) => out.push(t),
            None => break,
        }
    }
    out
}

fn sym(s: &str) -> Token {
    Token::Symbol(s.to_string())
}

#[test]
fn splits_plain_words() {
    assert_eq!(tokens("ls -la  /tmp"), vec![sym("ls"), sym("-la"), sym("/tmp")]);
    assert_eq!(tokens("   "), vec![]);
    assert_eq!(tokens(""), vec![]);
    assert_eq!(tokens("\tcat\r\nREADME.md "), vec![sym("cat"), sym("README.md")]);
}

#[test]
fn non_ascii_white_space_is_part_of_a_word() {
    assert_eq!(tokens("a\u{A0}b c"), vec![sym("a\u{A0}b"), sym("c")]);
    assert_eq!(tokens("héllo wörld"), vec![sym("héllo"), sym("wörld")]);
}

#[test]
fn single_quotes_keep_everything() {
    assert_eq!(tokens("echo 'a b \\ \" $x'"), vec![sym("echo"), sym("a b \\ \" $x")]);
    assert_eq!(tokens("'|' '>'"), vec![sym("|"), sym(">")]);
    assert_eq!(tokens("''"), vec![]);
}

#[test]
fn double_quotes_escape_only_some_characters() {
    assert_eq!(tokens("\"a\\\"b\""), vec![sym("a\"b")]);
    assert_eq!(tokens("\"a\\\\b\""), vec![sym("a\\b")]);
    assert_eq!(tokens("\"a\\nb\""), vec![sym("a\\nb")]);
    assert_eq!(tokens("\"a\\$b\""), vec![sym("a$b")]);
    assert_eq!(tokens("\"x y\"z"), vec![sym("x yz")]);
}

#[test]
fn backslash_escapes_outside_quotes() {
    assert_eq!(tokens("a\\ b c"), vec![sym("a b"), sym("c")]);
    assert_eq!(tokens("\\>x"), vec![sym(">x")]);
    assert_eq!(tokens("ab\\"), vec![sym("ab\\")]);
    assert_eq!(tokens("\\"), vec![]);
}

#[test]
fn quotes_join_pieces_of_a_word() {
    assert_eq!(tokens("a'b c'd"), vec![sym("ab cd")]);
    assert_eq!(tokens("\"ab\"\"cd\""), vec![sym("abcd")]);
}

#[test]
fn operators_at_the_start_of_a_token() {
    assert_eq!(
        tokens("a > f >> g 2> h 2>> i 1> j 1>> k | l"),
        vec![
            sym("a"),
            Token::OverwriteOutToFile,
            sym("f"),
            Token::AppendOutToFile,
            sym("g"),
            Token::OverwriteErrToFile,
            sym("h"),
            Token::AppendErrToFile,
            sym("i"),
            Token::OverwriteOutToFile,
            sym("j"),
            Token::AppendOutToFile,
            sym("k"),
            Token::Pipe,
            sym("l"),
        ]
    );
    assert_eq!(tokens(">f"), vec![Token::OverwriteOutToFile, sym("f")]);
    assert_eq!(tokens("|x"), vec![Token::Pipe, sym("x")]);
}

#[test]
fn operators_inside_a_word_stay_in_it() {
    assert_eq!(tokens("a>b"), vec![sym("a>b")]);
    assert_eq!(tokens("hi|grep"), vec![sym("hi|grep")]);
    assert_eq!(tokens("12> x"), vec![sym("12>"), sym("x")]);
}

#[test]
fn doubled_quotes_then_a_closing_quote_close_an_empty_piece() {
    assert_eq!(tokens("\"\"\"\""), vec![]);
    assert_eq!(tokens("''''"), vec![]);
    assert_eq!(tokens("'a''''b'"), vec![sym("ab")]);
    assert_eq!(tokens("x \"\"\"\" y"), vec![sym("x"), sym("y")]);
    let mut args = Args::new("''''");
    assert_eq!(args.next_token(), None);
    assert_eq!(args.next_token(), None);
}

#[test]
fn token_texts() {
    assert_eq!(sym("word").as_text(), "word");
    assert_eq!(Token::OverwriteOutToFile.as_text(), ">");
    assert_eq!(Token::AppendOutToFile.as_text(), ">>");
    assert_eq!(Token::OverwriteErrToFile.as_text(), "2>");
    assert_eq!(Token::AppendErrToFile.as_text(), "2>>");
    assert_eq!(Token::Pipe.as_text(), "|");
}

#[test]
fn operator_text_reads_back_as_the_operator() {
    for t in [
        Token::OverwriteOutToFile,
        Token::AppendOutToFile,
        Token::OverwriteErrToFile,
        Token::AppendErrToFile,
        Token::Pipe,
    ] {
        let text = t.as_text();
        assert_eq!(tokens(&text), vec![t]);
    }
}

#[test]
fn single_quoted_text_reads_back_literally() {
    for inside in ["a b", "\\\"|>", "  ", "x"] {
        let text = format!("'{}'", inside);
        assert_eq!(tokens(&text), vec![sym(inside)]);
    }
}

#[test]
fn end_of_input_repeats() {
    let mut args = Args::new("a");
    assert_eq!(args.next(), Some(sym("a")));
    assert_eq!(args.next(), None);
    assert_eq!(args.next(), None);
}

#[test]
fn peeking_does_not_consume() {
    let mut src = PeekableArgs::new(Args::new("a b"));
    assert_eq!(src.peek(), Some(sym("a")));
    assert_eq!(src.peek(), Some(sym("a")));
    assert_eq!(src.next(), Some(sym("a")));
    assert_eq!(src.next(), Some(sym("b")));
    assert_eq!(src.peek(), None);
    assert_eq!(src.next(), None);
}

#[test]
fn words_with_operator_characters_split_on_white_space() {
    assert_eq!(
        tokens("a>b  c|d\te2>f"),
        vec![sym("a>b"), sym("c|d"), sym("e2>f")]
    );
}

#[test]
fn every_escaped_character_is_literal() {
    let s = " '\"\\|>x";
    let escaped: String = s.chars().flat_map(|c| ['\\', c]).collect();
    assert_eq!(tokens(&escaped), vec![sym(s)]);
    assert_eq!(tokens("\\ "), vec![sym(" ")]);
}

#[test]
fn emitted_words_are_never_empty() {
    assert_eq!(tokens("''"), vec![]);
    assert_eq!(tokens(" \t "), vec![]);
    assert_eq!(tokens("'' \"\" x ''"), vec![sym("x")]);
}

#[test]
fn simple_words_read_back_as_themselves() {
    for w in ["a>b", "x|y", "12>", "hello", "-la"] {
        let t = sym(w);
        let text = t.as_text();
        let mut args = Args::new(&text);
        assert_eq!(args.next_token(), Some(t));
        assert_eq!(args.next_token(), None);
    }
}

#[test]
fn at_most_one_token_per_character_then_the_end_repeats() {
    let line = "a | b > c 2>> d";
    let mut args = Args::new(line);
    let mut n = 0;
    while args.next_token().is_some() {
        n += 1;
    }
    assert!(n <= line.len());
    assert_eq!(n, 7);
    assert_eq!(args.next_token(), None);
    assert_eq!(args.next(), None);
}

#[test]
fn operators_are_recognised_only_before_a_word_begins() {
    assert_eq!(tokens(">a"), vec![Token::OverwriteOutToFile, sym("a")]);
    assert_eq!(tokens("  2>>a"), vec![Token::AppendErrToFile, sym("a")]);
    assert_eq!(tokens("x>y"), vec![sym("x>y")]);
    assert_eq!(tokens("'x'>y"), vec![sym("x>y")]);
    assert_eq!(tokens("\\>y"), vec![sym(">y")]);
    assert_eq!(tokens("\"|\"|"), vec![sym("||")]);
    assert_eq!(tokens("''|a"), vec![Token::Pipe, sym("a")]);
}
