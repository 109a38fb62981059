//! The tokenizer: splits a command line into words and the redirection and
//! pipe operators, honouring single quotes, double quotes and backslashes.
use vstd::prelude::*;
use crate::text::{chars_of, is_ascii_ws, push_range, string_from_chars};

verus! {

/// A token of a command line.
#[derive(Debug, PartialEq)]
pub enum Token {
    /// A word, with its quotes and escapes resolved.
    Symbol(String),
    /// `>` or `1>`.
    OverwriteOutToFile,
    /// `2>`.
    OverwriteErrToFile,
    /// `>>` or `1>>`.
    AppendOutToFile,
    /// `2>>`.
    AppendErrToFile,
    /// `|`.
    Pipe,
}

/// The mathematical value of a `Token`.
pub enum TokenView {
    Symbol(Seq<char>),
    OverwriteOutToFile,
    OverwriteErrToFile,
    AppendOutToFile,
    AppendErrToFile,
    Pipe,
}

impl View for Token {
    type V = TokenView;

    open spec fn view(&self) -> TokenView {
        match self {
            Token::Symbol(s) => TokenView::Symbol(s@),
            Token::OverwriteOutToFile => TokenView::OverwriteOutToFile,
            Token::OverwriteErrToFile => TokenView::OverwriteErrToFile,
            Token::AppendOutToFile => TokenView::AppendOutToFile,
            Token::AppendErrToFile => TokenView::AppendErrToFile,
            Token::Pipe => TokenView::Pipe,
        }
    }
}

/// The view of an optional token.
pub open spec fn opt_token_view(t: Option<Token>) -> Option<TokenView> {
    match t {
        Some(t) => Some(t@),
        None => None,
    }
}

/// The text that a token stands for: a word's characters, or the operator's
/// canonical spelling.
pub open spec fn token_text(t: TokenView) -> Seq<char> {
    match t {
        TokenView::Symbol(s) => s,
        TokenView::OverwriteOutToFile => seq!['>'],
        TokenView::Pipe => seq!['|'],
        TokenView::OverwriteErrToFile => seq!['2', '>'],
        TokenView::AppendOutToFile => seq!['>', '>'],
        TokenView::AppendErrToFile => seq!['2', '>', '>'],
    }
}

impl Token {
    /// The text of the token: the word itself, or the operator's spelling.
    pub fn as_text(&self) -> (r: String)
        ensures
            r@ == token_text(self@),
    {
        match self {
            Token::Symbol(s) => s.clone(),
            Token::OverwriteOutToFile => {
                let r = ">".to_string();
                proof {
                    reveal_strlit(">");
                }
                r
            },
            Token::Pipe => {
                let r = "|".to_string();
                proof {
                    reveal_strlit("|");
                }
                r
            },
            Token::OverwriteErrToFile => {
                let r = "2>".to_string();
                proof {
                    reveal_strlit("2>");
                }
                r
            },
            Token::AppendOutToFile => {
                let r = ">>".to_string();
                proof {
                    reveal_strlit(">>");
                }
                r
            },
            Token::AppendErrToFile => {
                let r = "2>>".to_string();
                proof {
                    reveal_strlit("2>>");
                }
                r
            },
        }
    }

    /// A token equal to this one.
    pub fn duplicate(&self) -> (r: Token)
        ensures
            r@ == self@,
    {
        match self {
            Token::Symbol(s) => Token::Symbol(s.clone()),
            Token::OverwriteOutToFile => Token::OverwriteOutToFile,
            Token::OverwriteErrToFile => Token::OverwriteErrToFile,
            Token::AppendOutToFile => Token::AppendOutToFile,
            Token::AppendErrToFile => Token::AppendErrToFile,
            Token::Pipe => Token::Pipe,
        }
    }
}

/// The scanner's state between two characters: the position, where the
/// pending piece of the current word starts, the open quote, and the pieces
/// of the word collected so far.
pub struct ScanState {
    pub pos: int,
    pub start: Option<int>,
    pub quotes: Option<char>,
    pub segments: Seq<char>,
}

/// The characters that a backslash escapes inside double quotes.
pub open spec fn escapable_in_double_quotes(c: char) -> bool {
    c == '\\' || c == '"' || c == '$' || c == '\n' || c == '`'
}

/// The character at `i`, if there is one.
pub open spec fn char_at(text: Seq<char>, i: int) -> Option<char> {
    if 0 <= i < text.len() {
        Some(text[i])
    } else {
        None
    }
}

/// The operator that starts at `pos`, with the position just after it.
pub open spec fn operator_at(text: Seq<char>, pos: int) -> Option<(TokenView, int)> {
    let b = text[pos];
    if b == '>' {
        if char_at(text, pos + 1) == Some('>') {
            Some((TokenView::AppendOutToFile, pos + 2))
        } else {
            Some((TokenView::OverwriteOutToFile, pos + 1))
        }
    } else if (b == '1' || b == '2') && char_at(text, pos + 1) == Some('>') {
        let append = char_at(text, pos + 2) == Some('>');
        let tok = if b == '1' {
            if append {
                TokenView::AppendOutToFile
            } else {
                TokenView::OverwriteOutToFile
            }
        } else {
            if append {
                TokenView::AppendErrToFile
            } else {
                TokenView::OverwriteErrToFile
            }
        };
        Some((tok, if append { pos + 3 } else { pos + 2 }))
    } else if b == '|' {
        Some((TokenView::Pipe, pos + 1))
    } else {
        None
    }
}

/// The state after skipping the character at `st.pos`.
pub open spec fn skip_one(st: ScanState) -> ScanState {
    ScanState { pos: st.pos + 1, start: st.start, quotes: st.quotes, segments: st.segments }
}

/// The scanner run from `st` to the end of the token it is in.
pub open spec fn scan(text: Seq<char>, st: ScanState) -> (Option<TokenView>, int)
    decreases text.len() - st.pos,
{
    let len = text.len() as int;
    let pos = st.pos;
    if pos >= len {
        let seg = match st.start {
            Some(s) => st.segments + text.subrange(s, len),
            None => st.segments,
        };
        if seg.len() == 0 {
            (None, pos)
        } else {
            (Some(TokenView::Symbol(seg)), pos)
        }
    } else {
        let b = text[pos];
        let from = match st.start {
            Some(s) => s,
            None => pos,
        };
        if b == '\\' && st.quotes != Some('\'') {
            if pos + 1 < len && (st.quotes is None || escapable_in_double_quotes(text[pos + 1])) {
                scan(
                    text,
                    ScanState {
                        pos: pos + 2,
                        start: Some(pos + 1),
                        quotes: st.quotes,
                        segments: st.segments + text.subrange(from, pos),
                    },
                )
            } else {
                scan(text, skip_one(st))
            }
        } else if b == '\'' || b == '"' {
            if st.quotes is None {
                scan(
                    text,
                    ScanState {
                        pos: pos + 1,
                        start: Some(pos + 1),
                        quotes: Some(b),
                        segments: st.segments + text.subrange(from, pos),
                    },
                )
            } else if st.quotes == Some(b) {
                let seg = st.segments + text.subrange(from, pos);
                if pos + 1 < len && text[pos + 1] == b {
                    scan(text, ScanState { pos: pos + 2, start: None, quotes: st.quotes, segments: seg })
                } else {
                    scan(text, ScanState { pos: pos + 1, start: None, quotes: None, segments: seg })
                }
            } else {
                scan(text, skip_one(st))
            }
        } else if is_ascii_ws(b) && st.quotes is None {
            match st.start {
                Some(s) => (Some(TokenView::Symbol(st.segments + text.subrange(s, pos))), pos),
                None => if st.segments.len() > 0 {
                    (Some(TokenView::Symbol(st.segments)), pos)
                } else {
                    scan(text, skip_one(st))
                },
            }
        } else if st.start is None {
            if st.segments.len() == 0 && operator_at(text, pos) is Some {
                (Some(operator_at(text, pos).unwrap().0), operator_at(text, pos).unwrap().1)
            } else {
                scan(
                    text,
                    ScanState { pos: pos + 1, start: Some(pos), quotes: st.quotes, segments: st.segments },
                )
            }
        } else {
            scan(text, skip_one(st))
        }
    }
}

/// The next token of `text` from position `pos`.
pub open spec fn scan_token(text: Seq<char>, pos: int) -> (Option<TokenView>, int) {
    scan(text, ScanState { pos: pos, start: None, quotes: None, segments: Seq::empty() })
}

/// The well-formedness of a scanner state: its positions lie in the text.
pub open spec fn scan_state_wf(text: Seq<char>, st: ScanState) -> bool {
    &&& 0 <= st.pos
    &&& match st.start {
        Some(s) => 0 <= s <= st.pos && s <= text.len(),
        None => true,
    }
}

/// Outside quotes, a pending piece of a word always holds at least one
/// character.
pub open spec fn start_before_pos(st: ScanState) -> bool {
    st.quotes is None ==> match st.start {
        Some(s) => s < st.pos,
        None => true,
    }
}

proof fn lemma_scan_bounds(text: Seq<char>, st: ScanState)
    requires
        scan_state_wf(text, st),
    ensures
        st.pos <= scan(text, st).1,
        st.pos <= text.len() ==> scan(text, st).1 <= text.len(),
        scan(text, st).0 is None ==> scan(text, st).1 == text.len() || st.pos > text.len(),
        start_before_pos(st) ==> (scan(text, st).0 matches Some(TokenView::Symbol(w)) ==> w.len() > 0),
    decreases text.len() - st.pos,
{
    let len = text.len() as int;
    let pos = st.pos;
    if pos < len {
        let b = text[pos];
        let from = match st.start {
            Some(s) => s,
            None => pos,
        };
        if b == '\\' && st.quotes != Some('\'') {
            if pos + 1 < len && (st.quotes is None || escapable_in_double_quotes(text[pos + 1])) {
                lemma_scan_bounds(
                    text,
                    ScanState {
                        pos: pos + 2,
                        start: Some(pos + 1),
                        quotes: st.quotes,
                        segments: st.segments + text.subrange(from, pos),
                    },
                );
            } else {
                lemma_scan_bounds(text, skip_one(st));
            }
        } else if b == '\'' || b == '"' {
            if st.quotes is None {
                lemma_scan_bounds(
                    text,
                    ScanState {
                        pos: pos + 1,
                        start: Some(pos + 1),
                        quotes: Some(b),
                        segments: st.segments + text.subrange(from, pos),
                    },
                );
            } else if st.quotes == Some(b) {
                let seg = st.segments + text.subrange(from, pos);
                if pos + 1 < len && text[pos + 1] == b {
                    lemma_scan_bounds(
                        text,
                        ScanState { pos: pos + 2, start: None, quotes: st.quotes, segments: seg },
                    );
                } else {
                    lemma_scan_bounds(
                        text,
                        ScanState { pos: pos + 1, start: None, quotes: None, segments: seg },
                    );
                }
            } else {
                lemma_scan_bounds(text, skip_one(st));
            }
        } else if is_ascii_ws(b) && st.quotes is None {
            if st.start is None && st.segments.len() == 0 {
                lemma_scan_bounds(text, skip_one(st));
            }
        } else if st.start is None {
            if !(st.segments.len() == 0 && operator_at(text, pos) is Some) {
                lemma_scan_bounds(
                    text,
                    ScanState { pos: pos + 1, start: Some(pos), quotes: st.quotes, segments: st.segments },
                );
            }
        } else {
            lemma_scan_bounds(text, skip_one(st));
        }
    }
}

/// A token is never found without moving past at least one character, the
/// scanner never leaves the text, and it stops at the end when no token is left.
pub proof fn lemma_scan_token_progress(text: Seq<char>, pos: int)
    requires
        0 <= pos <= text.len(),
    ensures
        pos <= scan_token(text, pos).1 <= text.len(),
        scan_token(text, pos).0 is Some ==> pos < scan_token(text, pos).1,
        scan_token(text, pos).0 is None ==> scan_token(text, pos).1 == text.len(),
{
    let st = ScanState { pos: pos, start: None, quotes: None, segments: Seq::empty() };
    lemma_scan_bounds(text, st);
    if pos < text.len() {
        let b = text[pos];
        if b == '\\' {
            if pos + 1 < text.len() {
                lemma_scan_bounds(
                    text,
                    ScanState {
                        pos: pos + 2,
                        start: Some(pos + 1),
                        quotes: None,
                        segments: Seq::empty() + text.subrange(pos, pos),
                    },
                );
            } else {
                lemma_scan_bounds(text, skip_one(st));
            }
        } else if b == '\'' || b == '"' {
            lemma_scan_bounds(
                text,
                ScanState {
                    pos: pos + 1,
                    start: Some(pos + 1),
                    quotes: Some(b),
                    segments: Seq::empty() + text.subrange(pos, pos),
                },
            );
        } else if is_ascii_ws(b) {
            lemma_scan_bounds(text, skip_one(st));
        } else if !(operator_at(text, pos) is Some) {
            lemma_scan_bounds(
                text,
                ScanState { pos: pos + 1, start: Some(pos), quotes: None, segments: Seq::empty() },
            );
        }
    }
}

/// A word that the tokenizer yields is never empty: empty quotes and white
/// space alone yield nothing.
pub proof fn lemma_words_nonempty(text: Seq<char>, pos: int)
    requires
        0 <= pos <= text.len(),
    ensures
        scan_token(text, pos).0 matches Some(TokenView::Symbol(w)) ==> w.len() > 0,
{
    lemma_scan_bounds(text, ScanState { pos: pos, start: None, quotes: None, segments: Seq::empty() });
}

/// The tokens of `text` from `pos` on, as repeated calls of the tokenizer
/// yield them before it first reports the end.
pub open spec fn scan_all(text: Seq<char>, pos: int) -> Seq<TokenView>
    decreases text.len() - pos,
{
    if pos < 0 || pos >= text.len() {
        Seq::empty()
    } else {
        let (t, p) = scan_token(text, pos);
        proof {
            lemma_scan_token_progress(text, pos);
        }
        match t {
            Some(tok) => if pos < p {
                seq![tok] + scan_all(text, p)
            } else {
                Seq::empty()
            },
            None => Seq::empty(),
        }
    }
}

/// Once the tokenizer reports the end, every later call reports it again;
/// before that it yields at most one token per character of the text, each
/// call yielding the next token of `scan_all`.
pub proof fn lemma_end_repeats(text: Seq<char>, pos: int)
    requires
        0 <= pos <= text.len(),
    ensures
        scan_token(text, pos).0 is None ==> scan_token(text, scan_token(text, pos).1) == (
            None::<TokenView>,
            text.len() as int,
        ),
        scan_token(text, pos).0 matches Some(t) ==> scan_all(text, pos) == seq![t] + scan_all(
            text,
            scan_token(text, pos).1,
        ),
        scan_token(text, pos).0 is None ==> scan_all(text, pos) == Seq::<TokenView>::empty(),
        scan_all(text, pos).len() <= text.len() - pos,
    decreases text.len() - pos,
{
    lemma_scan_token_progress(text, pos);
    let (t, p) = scan_token(text, pos);
    if t is None {
        assert(scan_token(text, text.len() as int) == (None::<TokenView>, text.len() as int));
    } else {
        lemma_end_repeats(text, p);
    }
}

/// A cursor over the characters of a command line that yields its tokens.
pub struct Args {
    raw: Vec<char>,
    pos: usize,
}

impl Args {
    /// The characters being tokenized.
    pub closed spec fn text(&self) -> Seq<char> {
        self.raw@
    }

    /// The position of the cursor.
    pub closed spec fn position(&self) -> int {
        self.pos as int
    }

    /// The cursor lies within the text.
    pub closed spec fn wf(&self) -> bool {
        self.pos <= self.raw@.len()
    }

    pub proof fn lemma_wf(&self)
        requires
            self.wf(),
        ensures
            0 <= self.position() <= self.text().len(),
    {
    }

    /// A tokenizer at the start of `raw`.
    pub fn new(raw: &str) -> (r: Args)
        ensures
            r.wf(),
            r.text() == raw@,
            r.position() == 0,
    {
        Args { raw: chars_of(raw), pos: 0 }
    }

    /// The next token of the line, or `None` at its end.
    pub fn next_token(&mut self) -> (r: Option<Token>)
        requires
            old(self).wf(),
        ensures
            final(self).wf(),
            final(self).text() == old(self).text(),
            scan_token(old(self).text(), old(self).position()) == (
                opt_token_view(r),
                final(self).position(),
            ),
    {
        let len = self.raw.len();
        let ghost text = self.raw@;
        let ghost init = ScanState {
            pos: self.pos as int,
            start: None,
            quotes: None,
            segments: Seq::empty(),
        };
        let mut start: Option<usize> = None;
        let mut quotes: Option<char> = None;
        let mut segments: Vec<char> = Vec::new();
        loop
            invariant
                len == self.raw@.len(),
                text == self.raw@,
                text == old(self).raw@,
                init == (ScanState {
                    pos: old(self).pos as int,
                    start: None,
                    quotes: None,
                    segments: Seq::empty(),
                }),
                self.pos <= len,
                match start {
                    Some(s) => s <= self.pos,
                    None => true,
                },
                scan(
                    text,
                    ScanState {
                        pos: self.pos as int,
                        start: match start {
                            Some(s) => Some(s as int),
                            None => None,
                        },
                        quotes: quotes,
                        segments: segments@,
                    },
                ) == scan(text, init),
            ensures
                len == self.raw@.len(),
                text == self.raw@,
                text == old(self).raw@,
                init == (ScanState {
                    pos: old(self).pos as int,
                    start: None,
                    quotes: None,
                    segments: Seq::empty(),
                }),
                self.pos == len,
                match start {
                    Some(s) => s <= self.pos,
                    None => true,
                },
                scan(
                    text,
                    ScanState {
                        pos: self.pos as int,
                        start: match start {
                            Some(s) => Some(s as int),
                            None => None,
                        },
                        quotes: quotes,
                        segments: segments@,
                    },
                ) == scan(text, init),
            decreases len - self.pos,
        {
            if self.pos >= len {
                break;
            }
            let pos = self.pos;
            let b = self.raw[pos];
            let from = match start {
                Some(s) => s,
                None => pos,
            };
            if b == '\\' && quotes != Some('\'') {
                if pos + 1 < len && (quotes.is_none() || {
                    let n = self.raw[pos + 1];
                    n == '\\' || n == '"' || n == '$' || n == '\n' || n == '`'
                }) {
                    push_range(&mut segments, &self.raw, from, pos);
                    start = Some(pos + 1);
                    self.pos = pos + 2;
                } else {
                    self.pos = pos + 1;
                }
            } else if b == '\'' || b == '"' {
                if quotes.is_none() {
                    quotes = Some(b);
                    push_range(&mut segments, &self.raw, from, pos);
                    start = Some(pos + 1);
                    self.pos = pos + 1;
                } else if quotes == Some(b) {
                    push_range(&mut segments, &self.raw, from, pos);
                    start = None;
                    if pos + 1 < len && self.raw[pos + 1] == b {
                        self.pos = pos + 2;
                    } else {
                        quotes = None;
                        self.pos = pos + 1;
                    }
                } else {
                    self.pos = pos + 1;
                }
            } else if (b == ' ' || b == '\t' || b == '\n' || b == '\x0C' || b == '\r')
                && quotes.is_none() {
                match start {
                    Some(s) => {
                        push_range(&mut segments, &self.raw, s, pos);
                        return Some(Token::Symbol(string_from_chars(&segments)));
                    },
                    None => {
                        if segments.len() > 0 {
                            return Some(Token::Symbol(string_from_chars(&segments)));
                        }
                        self.pos = pos + 1;
                    },
                }
            } else if start.is_none() {
                if segments.len() == 0 {
                    let next = if pos + 1 < len {
                        Some(self.raw[pos + 1])
                    } else {
                        None
                    };
                    let after = if pos + 1 < len && pos + 2 < len {
                        Some(self.raw[pos + 2])
                    } else {
                        None
                    };
                    if b == '>' {
                        if next == Some('>') {
                            self.pos = pos + 2;
                            return Some(Token::AppendOutToFile);
                        } else {
                            self.pos = pos + 1;
                            return Some(Token::OverwriteOutToFile);
                        }
                    } else if b == '1' && next == Some('>') {
                        if after == Some('>') {
                            self.pos = pos + 3;
                            return Some(Token::AppendOutToFile);
                        } else {
                            self.pos = pos + 2;
                            return Some(Token::OverwriteOutToFile);
                        }
                    } else if b == '2' && next == Some('>') {
                        if after == Some('>') {
                            self.pos = pos + 3;
                            return Some(Token::AppendErrToFile);
                        } else {
                            self.pos = pos + 2;
                            return Some(Token::OverwriteErrToFile);
                        }
                    } else if b == '|' {
                        self.pos = pos + 1;
                        return Some(Token::Pipe);
                    }
                }
                start = Some(pos);
                self.pos = pos + 1;
            } else {
                self.pos = pos + 1;
            }
        }
        match start {
            Some(s) => {
                push_range(&mut segments, &self.raw, s, len);
            },
            None => {},
        }
        if segments.len() == 0 {
            None
        } else {
            Some(Token::Symbol(string_from_chars(&segments)))
        }
    }

    /// Iterator-style access to the next token: the same as `next_token`.
    pub fn next(&mut self) -> (r: Option<Token>)
        requires
            old(self).wf(),
        ensures
            final(self).wf(),
            final(self).text() == old(self).text(),
            scan_token(old(self).text(), old(self).position()) == (
                opt_token_view(r),
                final(self).position(),
            ),
    {
        self.next_token()
    }
}

/// The characters that open a quote or escape the next character.
pub open spec fn is_quote_or_escape(c: char) -> bool {
    c == '\\' || c == '\'' || c == '"'
}

/// `i` is where a white-space separated word of `text` starts.
pub open spec fn word_start(text: Seq<char>, i: int) -> bool {
    &&& 0 <= i < text.len()
    &&& !is_ascii_ws(text[i])
    &&& (i == 0 || is_ascii_ws(text[i - 1]))
}

/// A text with no quote or backslash, none of whose words starts with an
/// operator (`>`, `|`, `1>` or `2>`); operator characters inside a word are
/// allowed.
pub open spec fn unquoted_words(text: Seq<char>) -> bool {
    &&& forall|i: int| 0 <= i < text.len() ==> !is_quote_or_escape(#[trigger] text[i])
    &&& forall|i: int| #[trigger] word_start(text, i) ==> operator_at(text, i) is None
}

/// `pos` lies between two words: at the start or end of the text, or next
/// to white space.
pub open spec fn at_word_boundary(text: Seq<char>, pos: int) -> bool {
    ||| pos == 0
    ||| pos == text.len()
    ||| (0 < pos <= text.len() && is_ascii_ws(text[pos - 1]))
    ||| (0 <= pos < text.len() && is_ascii_ws(text[pos]))
}

/// The first position at or after `pos` that does not hold white space.
pub open spec fn skip_white(text: Seq<char>, pos: int) -> int
    decreases text.len() - pos,
{
    if pos >= text.len() {
        pos
    } else if is_ascii_ws(text[pos]) {
        skip_white(text, pos + 1)
    } else {
        pos
    }
}

/// The first position at or after `pos` that holds white space, or the end.
pub open spec fn word_end(text: Seq<char>, pos: int) -> int
    decreases text.len() - pos,
{
    if pos >= text.len() {
        pos
    } else if is_ascii_ws(text[pos]) {
        pos
    } else {
        word_end(text, pos + 1)
    }
}

/// `skip_white` moves forward over white space only, and stops on a
/// character that is not white space, or at the end.
pub proof fn lemma_skip_white(text: Seq<char>, pos: int)
    requires
        0 <= pos,
    ensures
        pos <= skip_white(text, pos),
        pos <= text.len() ==> skip_white(text, pos) <= text.len(),
        skip_white(text, pos) < text.len() ==> !is_ascii_ws(text[skip_white(text, pos)]),
        forall|i: int| pos <= i < skip_white(text, pos) ==> is_ascii_ws(#[trigger] text[i]),
    decreases text.len() - pos,
{
    if pos < text.len() && is_ascii_ws(text[pos]) {
        lemma_skip_white(text, pos + 1);
    }
}

/// `word_end` moves forward over non-white-space characters only, and stops
/// on white space, or at the end.
pub proof fn lemma_word_end(text: Seq<char>, pos: int)
    requires
        0 <= pos,
    ensures
        pos <= word_end(text, pos),
        pos <= text.len() ==> word_end(text, pos) <= text.len(),
        word_end(text, pos) < text.len() ==> is_ascii_ws(text[word_end(text, pos)]),
        forall|i: int| pos <= i < word_end(text, pos) ==> !is_ascii_ws(#[trigger] text[i]),
    decreases text.len() - pos,
{
    if pos < text.len() && !is_ascii_ws(text[pos]) {
        lemma_word_end(text, pos + 1);
    }
}

/// The white-space separated words of `text` from `pos` on, in order.
pub open spec fn words_from(text: Seq<char>, pos: int) -> Seq<Seq<char>>
    decreases text.len() - pos,
{
    if pos < 0 || pos >= text.len() {
        Seq::empty()
    } else {
        let s = skip_white(text, pos);
        if s >= text.len() {
            Seq::empty()
        } else {
            let w = word_end(text, s);
            proof {
                lemma_skip_white(text, pos);
                lemma_word_end(text, s);
            }
            seq![text.subrange(s, w)] + words_from(text, w)
        }
    }
}

proof fn lemma_scan_in_word(text: Seq<char>, s: int, p: int)
    requires
        forall|i: int| 0 <= i < text.len() ==> !is_quote_or_escape(#[trigger] text[i]),
        0 <= s < p <= text.len(),
    ensures
        scan(text, ScanState { pos: p, start: Some(s), quotes: None, segments: Seq::empty() })
            == (Some(TokenView::Symbol(text.subrange(s, word_end(text, p)))), word_end(text, p)),
    decreases text.len() - p,
{
    let st = ScanState { pos: p, start: Some(s), quotes: None, segments: Seq::empty() };
    if p >= text.len() {
        assert(Seq::<char>::empty() + text.subrange(s, text.len() as int) =~= text.subrange(s, text.len() as int));
    } else {
        assert(!is_quote_or_escape(text[p]));
        if is_ascii_ws(text[p]) {
            assert(Seq::<char>::empty() + text.subrange(s, p) =~= text.subrange(s, p));
        } else {
            lemma_scan_in_word(text, s, p + 1);
            assert(skip_one(st) == ScanState { pos: p + 1, start: Some(s), quotes: None, segments: Seq::empty() });
        }
    }
}

/// On a text with no quote or backslash whose words do not start with an
/// operator, the tokenizer yields, from a word boundary, the next
/// white-space separated word, or the end.
pub proof fn lemma_plain_words(text: Seq<char>, pos: int)
    requires
        unquoted_words(text),
        0 <= pos <= text.len(),
        at_word_boundary(text, pos),
    ensures
        scan_token(text, pos) == if skip_white(text, pos) >= text.len() {
            (None::<TokenView>, text.len() as int)
        } else {
            let s = skip_white(text, pos);
            (Some(TokenView::Symbol(text.subrange(s, word_end(text, s)))), word_end(text, s))
        },
    decreases text.len() - pos,
{
    let st = ScanState { pos: pos, start: None, quotes: None, segments: Seq::empty() };
    if pos < text.len() {
        let b = text[pos];
        assert(!is_quote_or_escape(b));
        if is_ascii_ws(b) {
            lemma_plain_words(text, pos + 1);
            assert(skip_one(st) == ScanState { pos: pos + 1, start: None, quotes: None, segments: Seq::empty() });
        } else {
            assert(word_start(text, pos));
            assert(operator_at(text, pos) is None);
            lemma_scan_in_word(text, pos, pos + 1);
        }
    }
}

/// On a text with no quote or backslash whose words do not start with an
/// operator, the tokens are exactly its white-space separated words, in
/// order, followed by the end.
pub proof fn lemma_plain_line(text: Seq<char>, pos: int)
    requires
        unquoted_words(text),
        0 <= pos <= text.len(),
        at_word_boundary(text, pos),
    ensures
        scan_all(text, pos) == words_from(text, pos).map_values(|w: Seq<char>| TokenView::Symbol(w)),
    decreases text.len() - pos,
{
    lemma_plain_words(text, pos);
    lemma_skip_white(text, pos);
    if pos < text.len() {
        let s = skip_white(text, pos);
        if s < text.len() {
            let w = word_end(text, s);
            lemma_word_end(text, s);
            lemma_plain_line(text, w);
            let rest = words_from(text, w).map_values(|x: Seq<char>| TokenView::Symbol(x));
            assert(words_from(text, pos).map_values(|x: Seq<char>| TokenView::Symbol(x)) =~= seq![
                TokenView::Symbol(text.subrange(s, w)),
            ] + rest);
        } else {
            assert(words_from(text, pos).map_values(|x: Seq<char>| TokenView::Symbol(x)) =~= Seq::<
                TokenView,
            >::empty());
        }
    } else {
        assert(words_from(text, pos).map_values(|x: Seq<char>| TokenView::Symbol(x)) =~= Seq::<
            TokenView,
        >::empty());
    }
}

proof fn lemma_quoted(q: char, inside: Seq<char>)
    requires
        q == '\'' || q == '"',
        !inside.contains(q),
        q == '"' ==> !inside.contains('\\'),
    ensures
        scan_token(seq![q] + inside + seq![q], 0) == (
            if inside.len() == 0 {
                None
            } else {
                Some(TokenView::Symbol(inside))
            },
            inside.len() + 2int,
        ),
{
    let text = seq![q] + inside + seq![q];
    let n = inside.len() as int;
    assert forall|i: int| 1 <= i < n + 1 implies text[i] != q && (q == '"' ==> text[i] != '\\') by {
        assert(text[i] == inside[i - 1]);
    }
    lemma_quoted_run(text, 1, n + 1, q, 1, Seq::empty());
    let st0 = ScanState { pos: 0, start: None, quotes: None, segments: Seq::empty() };
    let st1 = ScanState { pos: 1, start: Some(1), quotes: Some(q), segments: Seq::empty() };
    let stc = ScanState { pos: n + 1, start: Some(1), quotes: Some(q), segments: Seq::empty() };
    let ste = ScanState { pos: n + 2, start: None, quotes: None, segments: inside };
    assert(Seq::<char>::empty() + text.subrange(0, 0) =~= Seq::<char>::empty());
    assert(scan(text, st0) == scan(text, st1));
    assert(text.subrange(1, n + 1) =~= inside);
    assert(Seq::<char>::empty() + text.subrange(1, n + 1) =~= inside);
    assert(text[n + 1] == q);
    assert(scan(text, stc) == scan(text, ste));
}

/// A single-quoted text with no single quote inside yields exactly its
/// inside, taken literally (nothing when it is empty).
pub proof fn lemma_single_quoted(inside: Seq<char>)
    requires
        !inside.contains('\''),
    ensures
        scan_token(seq!['\''] + inside + seq!['\''], 0) == (
            if inside.len() == 0 {
                None
            } else {
                Some(TokenView::Symbol(inside))
            },
            inside.len() + 2int,
        ),
{
    lemma_quoted('\'', inside);
}

proof fn lemma_quoted_run(text: Seq<char>, p: int, close: int, q: char, s: int, segs: Seq<char>)
    requires
        q == '\'' || q == '"',
        0 <= s <= p <= close < text.len(),
        text[close] == q,
        forall|i: int| p <= i < close ==> text[i] != q && (q == '"' ==> text[i] != '\\'),
    ensures
        scan(text, ScanState { pos: p, start: Some(s), quotes: Some(q), segments: segs })
            == scan(text, ScanState { pos: close, start: Some(s), quotes: Some(q), segments: segs }),
    decreases close - p,
{
    if p < close {
        lemma_quoted_run(text, p + 1, close, q, s, segs);
        let st = ScanState { pos: p, start: Some(s), quotes: Some(q), segments: segs };
        assert(skip_one(st) == ScanState { pos: p + 1, start: Some(s), quotes: Some(q), segments: segs });
    }
}

/// A double-quoted text with no double quote or backslash inside yields
/// exactly its inside, taken literally (nothing when it is empty).
pub proof fn lemma_double_quoted(inside: Seq<char>)
    requires
        !inside.contains('"'),
        !inside.contains('\\'),
    ensures
        scan_token(seq!['"'] + inside + seq!['"'], 0) == (
            if inside.len() == 0 {
                None
            } else {
                Some(TokenView::Symbol(inside))
            },
            inside.len() + 2int,
        ),
{
    lemma_quoted('"', inside);
}

/// A quote that closes a quoted part right after a doubled quote closes an
/// empty piece: four quotes in a row yield nothing, and `'a''''b'` yields
/// the word `ab`.
pub proof fn lemma_doubled_quotes_close_empty(q: char, a: char, b: char)
    requires
        q == '\'' || q == '"',
        a != q && a != '\\',
        b != '\'' && b != '"' && b != '\\',
    ensures
        scan_token(seq![q, q, q, q], 0) == (None::<TokenView>, 4int),
        scan_token(seq![q, a, q, q, q, q, b, q], 0) == (Some(TokenView::Symbol(seq![a, b])), 8int),
{
    let e = Seq::<char>::empty();
    let t4 = seq![q, q, q, q];
    assert(e + t4.subrange(0, 0) =~= e);
    assert(e + t4.subrange(1, 1) =~= e);
    assert(e + t4.subrange(3, 3) =~= e);
    let s0 = ScanState { pos: 0, start: None, quotes: None, segments: e };
    let s1 = ScanState { pos: 1, start: Some(1), quotes: Some(q), segments: e };
    let s3 = ScanState { pos: 3, start: None, quotes: Some(q), segments: e };
    let s4 = ScanState { pos: 4, start: None, quotes: None, segments: e };
    assert(scan(t4, s0) == scan(t4, s1));
    assert(scan(t4, s1) == scan(t4, s3));
    assert(scan(t4, s3) == scan(t4, s4));
    let t8 = seq![q, a, q, q, q, q, b, q];
    let ab = seq![a, b];
    assert(e + t8.subrange(0, 0) =~= e);
    assert(e + t8.subrange(1, 2) =~= seq![a]);
    assert(seq![a] + t8.subrange(4, 4) =~= seq![a]);
    assert(seq![a] + t8.subrange(6, 7) =~= ab);
    let u1 = ScanState { pos: 1, start: Some(1), quotes: Some(q), segments: e };
    let u2 = ScanState { pos: 2, start: Some(1), quotes: Some(q), segments: e };
    let u4 = ScanState { pos: 4, start: None, quotes: Some(q), segments: seq![a] };
    let u6 = ScanState { pos: 6, start: None, quotes: Some(q), segments: seq![a] };
    let u7 = ScanState { pos: 7, start: Some(6), quotes: Some(q), segments: seq![a] };
    let u8 = ScanState { pos: 8, start: None, quotes: None, segments: ab };
    assert(scan(t8, s0) == scan(t8, u1));
    assert(scan(t8, u1) == scan(t8, u2));
    assert(scan(t8, u2) == scan(t8, u4));
    assert(scan(t8, u4) == scan(t8, u6));
    assert(scan(t8, u6) == scan(t8, u7));
    assert(scan(t8, u7) == scan(t8, u8));
}

/// Each character of `s` preceded by a backslash.
pub open spec fn escape_each(s: Seq<char>) -> Seq<char> {
    Seq::new(2 * s.len(), |i: int| if i % 2 == 0 { '\\' } else { s[i / 2] })
}

proof fn lemma_escape_run(s: Seq<char>, k: int)
    requires
        1 <= k <= s.len(),
    ensures
        scan(
            escape_each(s),
            ScanState { pos: 2 * k, start: Some(2 * k - 1), quotes: None, segments: s.take(k - 1) },
        ) == (Some(TokenView::Symbol(s)), 2 * s.len() as int),
    decreases s.len() - k,
{
    let text = escape_each(s);
    let n = s.len() as int;
    assert(text.len() == 2 * n);
    if k == n {
        assert(text.subrange(2 * n - 1, 2 * n) =~= seq![s[n - 1]]) by {
            assert(text[2 * n - 1] == s[n - 1]);
        }
        assert(s.take(n - 1) + seq![s[n - 1]] =~= s);
    } else {
        assert(text[2 * k] == '\\');
        assert(text.subrange(2 * k - 1, 2 * k) =~= seq![s[k - 1]]) by {
            assert(text[2 * k - 1] == s[k - 1]);
        }
        assert(s.take(k - 1) + seq![s[k - 1]] =~= s.take(k));
        lemma_escape_run(s, k + 1);
    }
}

/// Outside quotes a backslash makes the next character literal: a nonempty
/// text with every character preceded by a backslash (white space, quotes,
/// backslashes and operator characters included) yields exactly that text,
/// as one word.
pub proof fn lemma_escaped_text(s: Seq<char>)
    requires
        s.len() > 0,
    ensures
        scan_token(escape_each(s), 0) == (Some(TokenView::Symbol(s)), 2 * s.len() as int),
{
    let text = escape_each(s);
    assert(text[0] == '\\');
    assert(text[1] == s[0]);
    assert(Seq::<char>::empty() + text.subrange(0, 0) =~= s.take(0));
    lemma_escape_run(s, 1);
}

/// A word that reads back as itself: not empty, with no white space, quote
/// or backslash, and not starting with an operator.
pub open spec fn simple_word(s: Seq<char>) -> bool {
    &&& s.len() > 0
    &&& forall|i: int| 0 <= i < s.len() ==> !is_ascii_ws(#[trigger] s[i]) && !is_quote_or_escape(s[i])
    &&& operator_at(s, 0) is None
}

/// Tokenizing the text of a token gives the token back, and then the end:
/// for every operator, and for every word that needs no quoting.
pub proof fn lemma_token_text_roundtrip(t: TokenView)
    requires
        t matches TokenView::Symbol(s) ==> simple_word(s),
    ensures
        scan_token(token_text(t), 0) == (Some(t), token_text(t).len() as int),
        scan_token(token_text(t), token_text(t).len() as int) == (
            None::<TokenView>,
            token_text(t).len() as int,
        ),
{
    match t {
        TokenView::Symbol(s) => {
            assert(unquoted_words(s)) by {
                assert forall|i: int| #[trigger] word_start(s, i) implies operator_at(s, i) is None by {
                    if i > 0 {
                        assert(!is_ascii_ws(s[i - 1]));
                    }
                }
            }
            lemma_plain_words(s, 0);
            lemma_word_end(s, 0);
            assert(word_end(s, 0) == s.len());
            assert(s.subrange(0, s.len() as int) =~= s);
        },
        _ => {},
    }
}


/// A character that can begin a word: neither white space, nor a quote, nor
/// a backslash.
pub open spec fn is_word_char(c: char) -> bool {
    !is_ascii_ws(c) && !is_quote_or_escape(c)
}

/// Something has been collected for the current word: a piece already
/// taken, or a pending piece with at least one character.
pub open spec fn word_begun(st: ScanState) -> bool {
    st.segments.len() > 0 || (st.start matches Some(s) && s < st.pos)
}

/// Nothing has been collected for the current word: at most a quote has
/// just been opened.
pub open spec fn word_not_begun(st: ScanState) -> bool {
    &&& st.segments.len() == 0
    &&& match st.start {
        Some(s) => s == st.pos && st.quotes is Some,
        None => true,
    }
}

/// Operator `t`, ending at `end`, is spelled at some position from `pos` on
/// that only white space, quotes and backslashes precede.
pub open spec fn operator_spelled_after(text: Seq<char>, pos: int, t: TokenView, end: int) -> bool {
    exists|q: int|
        pos <= q < text.len() && operator_at(text, q) == Some((t, end)) && forall|i: int|
            pos <= i < q ==> !is_word_char(#[trigger] text[i])
}

proof fn lemma_no_operator_in_word(text: Seq<char>, st: ScanState)
    requires
        scan_state_wf(text, st),
        word_begun(st),
    ensures
        scan(text, st).0 matches Some(t) ==> t is Symbol,
    decreases text.len() - st.pos,
{
    let len = text.len() as int;
    let pos = st.pos;
    if pos < len {
        let b = text[pos];
        let from = match st.start {
            Some(s) => s,
            None => pos,
        };
        if b == '\\' && st.quotes != Some('\'') {
            if pos + 1 < len && (st.quotes is None || escapable_in_double_quotes(text[pos + 1])) {
                lemma_no_operator_in_word(
                    text,
                    ScanState {
                        pos: pos + 2,
                        start: Some(pos + 1),
                        quotes: st.quotes,
                        segments: st.segments + text.subrange(from, pos),
                    },
                );
            } else {
                lemma_no_operator_in_word(text, skip_one(st));
            }
        } else if b == '\'' || b == '"' {
            if st.quotes is None {
                lemma_no_operator_in_word(
                    text,
                    ScanState {
                        pos: pos + 1,
                        start: Some(pos + 1),
                        quotes: Some(b),
                        segments: st.segments + text.subrange(from, pos),
                    },
                );
            } else if st.quotes == Some(b) {
                let seg = st.segments + text.subrange(from, pos);
                if pos + 1 < len && text[pos + 1] == b {
                    lemma_no_operator_in_word(
                        text,
                        ScanState { pos: pos + 2, start: None, quotes: st.quotes, segments: seg },
                    );
                } else {
                    lemma_no_operator_in_word(
                        text,
                        ScanState { pos: pos + 1, start: None, quotes: None, segments: seg },
                    );
                }
            } else {
                lemma_no_operator_in_word(text, skip_one(st));
            }
        } else if is_ascii_ws(b) && st.quotes is None {
        } else if st.start is None {
            lemma_no_operator_in_word(
                text,
                ScanState { pos: pos + 1, start: Some(pos), quotes: st.quotes, segments: st.segments },
            );
        } else {
            lemma_no_operator_in_word(text, skip_one(st));
        }
    }
}

proof fn lemma_operator_before_word(text: Seq<char>, st: ScanState)
    requires
        scan_state_wf(text, st),
        word_not_begun(st),
    ensures
        match scan(text, st).0 {
            Some(t) => !(t is Symbol) ==> operator_spelled_after(text, st.pos, t, scan(text, st).1),
            None => true,
        },
    decreases text.len() - st.pos,
{
    let len = text.len() as int;
    let pos = st.pos;
    if pos < len {
        let b = text[pos];
        let from = match st.start {
            Some(s) => s,
            None => pos,
        };
        let (r, end) = scan(text, st);
        if b == '\\' && st.quotes != Some('\'') {
            if pos + 1 < len && (st.quotes is None || escapable_in_double_quotes(text[pos + 1])) {
                lemma_no_operator_in_word(
                    text,
                    ScanState {
                        pos: pos + 2,
                        start: Some(pos + 1),
                        quotes: st.quotes,
                        segments: st.segments + text.subrange(from, pos),
                    },
                );
            } else if st.start is Some {
                lemma_no_operator_in_word(text, skip_one(st));
            } else {
                lemma_operator_before_word(text, skip_one(st));
                if r is Some && !(r->0 is Symbol) {
                    let t = r->0;
                    let q = choose|q: int|
                        pos + 1 <= q < text.len() && operator_at(text, q) == Some((t, end)) && forall|
                            i: int,
                        | pos + 1 <= i < q ==> !is_word_char(#[trigger] text[i]);
                    assert(forall|i: int| pos <= i < q ==> !is_word_char(#[trigger] text[i]));
                }
            }
        } else if b == '\'' || b == '"' {
            if st.quotes is None {
                let st1 = ScanState {
                    pos: pos + 1,
                    start: Some(pos + 1),
                    quotes: Some(b),
                    segments: st.segments + text.subrange(from, pos),
                };
                assert(st1.segments =~= Seq::<char>::empty());
                lemma_operator_before_word(text, st1);
                if r is Some && !(r->0 is Symbol) {
                    let t = r->0;
                    let q = choose|q: int|
                        pos + 1 <= q < text.len() && operator_at(text, q) == Some((t, end)) && forall|
                            i: int,
                        | pos + 1 <= i < q ==> !is_word_char(#[trigger] text[i]);
                    assert(forall|i: int| pos <= i < q ==> !is_word_char(#[trigger] text[i]));
                }
            } else if st.quotes == Some(b) {
                let seg = st.segments + text.subrange(from, pos);
                assert(seg =~= Seq::<char>::empty());
                if pos + 1 < len && text[pos + 1] == b {
                    lemma_operator_before_word(
                        text,
                        ScanState { pos: pos + 2, start: None, quotes: st.quotes, segments: seg },
                    );
                    if r is Some && !(r->0 is Symbol) {
                        let t = r->0;
                        let q = choose|q: int|
                            pos + 2 <= q < text.len() && operator_at(text, q) == Some((t, end))
                                && forall|i: int| pos + 2 <= i < q ==> !is_word_char(#[trigger] text[i]);
                        assert(forall|i: int| pos <= i < q ==> !is_word_char(#[trigger] text[i]));
                    }
                } else {
                    lemma_operator_before_word(
                        text,
                        ScanState { pos: pos + 1, start: None, quotes: None, segments: seg },
                    );
                    if r is Some && !(r->0 is Symbol) {
                        let t = r->0;
                        let q = choose|q: int|
                            pos + 1 <= q < text.len() && operator_at(text, q) == Some((t, end))
                                && forall|i: int| pos + 1 <= i < q ==> !is_word_char(#[trigger] text[i]);
                        assert(forall|i: int| pos <= i < q ==> !is_word_char(#[trigger] text[i]));
                    }
                }
            } else if st.start is Some {
                lemma_no_operator_in_word(text, skip_one(st));
            } else {
                lemma_operator_before_word(text, skip_one(st));
                if r is Some && !(r->0 is Symbol) {
                    let t = r->0;
                    let q = choose|q: int|
                        pos + 1 <= q < text.len() && operator_at(text, q) == Some((t, end)) && forall|
                            i: int,
                        | pos + 1 <= i < q ==> !is_word_char(#[trigger] text[i]);
                    assert(forall|i: int| pos <= i < q ==> !is_word_char(#[trigger] text[i]));
                }
            }
        } else if is_ascii_ws(b) && st.quotes is None {
            lemma_operator_before_word(text, skip_one(st));
            if r is Some && !(r->0 is Symbol) {
                let t = r->0;
                let q = choose|q: int|
                    pos + 1 <= q < text.len() && operator_at(text, q) == Some((t, end)) && forall|
                        i: int,
                    | pos + 1 <= i < q ==> !is_word_char(#[trigger] text[i]);
                assert(forall|i: int| pos <= i < q ==> !is_word_char(#[trigger] text[i]));
            }
        } else if st.start is None {
            if st.segments.len() == 0 && operator_at(text, pos) is Some {
                assert(operator_at(text, pos) == Some((r->0, end)));
            } else {
                lemma_no_operator_in_word(
                    text,
                    ScanState { pos: pos + 1, start: Some(pos), quotes: st.quotes, segments: st.segments },
                );
            }
        } else {
            lemma_no_operator_in_word(text, skip_one(st));
        }
    }
}

/// Operators are recognised only where no word has begun: the operator
/// that the tokenizer yields is spelled at a position that, within the
/// token, only white space, quotes and backslashes precede. Once a word
/// character, an escaped character or a quoted character has been taken,
/// `>` and `|` are ordinary characters of the word.
pub proof fn lemma_operators_only_at_word_start(text: Seq<char>, pos: int)
    requires
        0 <= pos <= text.len(),
    ensures
        match scan_token(text, pos).0 {
            Some(t) => !(t is Symbol) ==> operator_spelled_after(text, pos, t, scan_token(text, pos).1),
            None => true,
        },
{
    lemma_operator_before_word(text, ScanState { pos: pos, start: None, quotes: None, segments: Seq::empty() });
}


proof fn lemma_word_run(text: Seq<char>, s: int, p: int, end: int, segs: Seq<char>)
    requires
        0 <= s < p <= end <= text.len(),
        forall|i: int| p <= i < end ==> is_word_char(#[trigger] text[i]),
    ensures
        scan(text, ScanState { pos: p, start: Some(s), quotes: None, segments: segs })
            == scan(text, ScanState { pos: end, start: Some(s), quotes: None, segments: segs }),
    decreases end - p,
{
    if p < end {
        assert(is_word_char(text[p]));
        lemma_word_run(text, s, p + 1, end, segs);
        let st = ScanState { pos: p, start: Some(s), quotes: None, segments: segs };
        assert(skip_one(st) == ScanState { pos: p + 1, start: Some(s), quotes: None, segments: segs });
    }
}

/// A quoted part joins the word in front of it: a word `u` that needs no
/// quoting followed by a quoted part (single or double quotes; for double
/// quotes with no backslash inside) is one token, `u` followed by the
/// inside of the quotes, and then the end.
pub proof fn lemma_word_then_quoted(u: Seq<char>, q: char, inside: Seq<char>)
    requires
        simple_word(u),
        q == '\'' || q == '"',
        !inside.contains(q),
        q == '"' ==> !inside.contains('\\'),
    ensures
        scan_token(u + seq![q] + inside + seq![q], 0) == (
            Some(TokenView::Symbol(u + inside)),
            (u.len() + inside.len() + 2) as int,
        ),
        scan_token(u + seq![q] + inside + seq![q], (u.len() + inside.len() + 2) as int) == (
            None::<TokenView>,
            (u.len() + inside.len() + 2) as int,
        ),
{
    let text = u + seq![q] + inside + seq![q];
    let n = u.len() as int;
    let m = inside.len() as int;
    let len = n + m + 2;
    assert(text.len() == len);
    assert forall|i: int| 0 <= i < n implies text[i] == u[i] by {}
    assert(text[n] == q);
    assert forall|i: int| n + 1 <= i < n + 1 + m implies text[i] == inside[i - n - 1] by {}
    assert(text[n + 1 + m] == q);
    assert(is_word_char(u[0]));
    assert(operator_at(text, 0) is None) by {
        if n > 1 {
            assert(text[1] == u[1]);
        } else {
            assert(text[1] == q);
        }
        if n > 2 {
            assert(text[2] == u[2]);
        }
    }
    let e = Seq::<char>::empty();
    let s0 = ScanState { pos: 0, start: None, quotes: None, segments: e };
    let s1 = ScanState { pos: 1, start: Some(0), quotes: None, segments: e };
    let sn = ScanState { pos: n, start: Some(0), quotes: None, segments: e };
    assert(scan(text, s0) == scan(text, s1));
    assert forall|i: int| 1 <= i < n implies is_word_char(#[trigger] text[i]) by {
        assert(text[i] == u[i]);
    }
    lemma_word_run(text, 0, 1, n, e);
    assert(e + text.subrange(0, n) =~= u);
    let so = ScanState { pos: n + 1, start: Some(n + 1), quotes: Some(q), segments: u };
    assert(scan(text, sn) == scan(text, so));
    assert forall|i: int| n + 1 <= i < n + 1 + m implies text[i] != q && (q == '"' ==> text[i] != '\\') by {
        assert(text[i] == inside[i - n - 1]);
    }
    lemma_quoted_run(text, n + 1, n + 1 + m, q, n + 1, u);
    let sc = ScanState { pos: n + 1 + m, start: Some(n + 1), quotes: Some(q), segments: u };
    assert(text.subrange(n + 1, n + 1 + m) =~= inside);
    let se = ScanState { pos: len, start: None, quotes: None, segments: u + inside };
    assert(scan(text, sc) == scan(text, se));
    assert(scan(text, se) == (Some(TokenView::Symbol(u + inside)), len));
}

} // verus!
