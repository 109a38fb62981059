//! The Pratt parser: turns the tokens of a command line into expressions,
//! expanding aliases in command position.
use vstd::prelude::*;
use crate::aliases::{alias_lookup, longest_replacement, lemma_lookup_shorter_than_longest};
use crate::args::{Args, Token, TokenView};
use crate::cmd::{command_for, Cmd, CmdView};
use crate::state::ShellState;
use crate::plan::{has_error, lemma_compiled_without_errors};
use crate::stream::{
    fresh_source, lemma_push_fresh, lemma_queue_next, lemma_queue_peek, queue_measure, queue_next,
    queue_peek, queue_wf, trim_queue, weight, PeekableArgs, SourceView,
};
use crate::text::{chars_of, string_views};

verus! {

/// How many token sources alias expansion may stack before it stops expanding.
pub const MAX_ALIAS_DEPTH: usize = 10;

/// A shell expression: a command, a redirection of an expression's output
/// or error stream to a file, a pipe between two expressions, or the
/// placeholder left where a syntax error was found.
#[derive(Debug)]
pub enum Expr {
    Cmd(Cmd),
    OverwriteOutToFile(Box<Expr>, String),
    AppendOutToFile(Box<Expr>, String),
    OverwriteErrToFile(Box<Expr>, String),
    AppendErrToFile(Box<Expr>, String),
    Pipe(Box<Expr>, Box<Expr>),
    Error,
}

/// The mathematical value of an expression.
pub enum ExprView {
    Cmd(CmdView),
    OverwriteOutToFile(Box<ExprView>, Seq<char>),
    AppendOutToFile(Box<ExprView>, Seq<char>),
    OverwriteErrToFile(Box<ExprView>, Seq<char>),
    AppendErrToFile(Box<ExprView>, Seq<char>),
    Pipe(Box<ExprView>, Box<ExprView>),
    Error,
}

/// The view of an expression.
pub open spec fn expr_view(e: Expr) -> ExprView
    decreases e,
{
    match e {
        Expr::Cmd(c) => ExprView::Cmd(c@),
        Expr::OverwriteOutToFile(x, f) => ExprView::OverwriteOutToFile(Box::new(expr_view(*x)), f@),
        Expr::AppendOutToFile(x, f) => ExprView::AppendOutToFile(Box::new(expr_view(*x)), f@),
        Expr::OverwriteErrToFile(x, f) => ExprView::OverwriteErrToFile(Box::new(expr_view(*x)), f@),
        Expr::AppendErrToFile(x, f) => ExprView::AppendErrToFile(Box::new(expr_view(*x)), f@),
        Expr::Pipe(l, r) => ExprView::Pipe(Box::new(expr_view(*l)), Box::new(expr_view(*r))),
        Expr::Error => ExprView::Error,
    }
}

impl View for Expr {
    type V = ExprView;

    open spec fn view(&self) -> ExprView {
        expr_view(*self)
    }
}

/// The views of a sequence of expressions.
pub open spec fn expr_views(v: Seq<Expr>) -> Seq<ExprView> {
    v.map_values(|x: Expr| x@)
}

/// The parser's state: the stack of token sources, the errors found, and
/// the notes written along the way.
pub struct ParseState {
    pub queue: Seq<SourceView>,
    pub errors: Seq<Seq<char>>,
    pub notes: Seq<Seq<char>>,
}

/// The entries of an alias table, in order.
pub type AliasEntries = Seq<(Seq<char>, Seq<char>)>;

/// The weight base of the measure: more than any replacement's length.
pub open spec fn alias_bound(e: AliasEntries) -> nat {
    longest_replacement(e) + 2
}

/// What the parser can still read, for alias table `e`.
pub open spec fn measure_of(q: Seq<SourceView>, e: AliasEntries) -> nat {
    queue_measure(q, alias_bound(e))
}

/// The error for an expression that starts at the end of the input.
pub open spec fn msg_eof() -> Seq<char> {
    "Invalid start of expression: EOF"@
}

/// The error for a missing file name after a redirection.
pub open spec fn msg_redirect() -> Seq<char> {
    "Expected filename after redirect"@
}

/// The error for something other than a newline after an expression.
pub open spec fn msg_unexpected() -> Seq<char> {
    "Unexpected start of expression, expected newline or expression seperator"@
}

/// The note written when alias expansion reaches its depth limit.
pub open spec fn note_depth() -> Seq<char> {
    "Max recursion depth reached; results may be unexpected"@
}

/// The error for an expression that starts with an operator.
pub open spec fn msg_invalid_start(t: TokenView) -> Seq<char> {
    match t {
        TokenView::Symbol(_) => "Invalid start of expression: Symbol"@,
        TokenView::OverwriteOutToFile => "Invalid start of expression: OverwriteOutToFile"@,
        TokenView::OverwriteErrToFile => "Invalid start of expression: OverwriteErrToFile"@,
        TokenView::AppendOutToFile => "Invalid start of expression: AppendOutToFile"@,
        TokenView::AppendErrToFile => "Invalid start of expression: AppendErrToFile"@,
        TokenView::Pipe => "Invalid start of expression: Pipe"@,
    }
}

/// The binding power of an infix operator; words are not infix operators.
pub open spec fn infix_precedence(t: TokenView) -> Option<nat> {
    match t {
        TokenView::Symbol(_) => None,
        TokenView::Pipe => Some(5),
        _ => Some(10),
    }
}

/// The redirection of `lhs` that operator `t` builds with file name `file`.
pub open spec fn redirect_expr(t: TokenView, lhs: ExprView, file: Seq<char>) -> ExprView {
    match t {
        TokenView::OverwriteOutToFile => ExprView::OverwriteOutToFile(Box::new(lhs), file),
        TokenView::AppendOutToFile => ExprView::AppendOutToFile(Box::new(lhs), file),
        TokenView::OverwriteErrToFile => ExprView::OverwriteErrToFile(Box::new(lhs), file),
        TokenView::AppendErrToFile => ExprView::AppendErrToFile(Box::new(lhs), file),
        _ => ExprView::Error,
    }
}

/// Takes the next token; a word that names an alias is replaced by the
/// tokens of its replacement (recursively, until `MAX_ALIAS_DEPTH` sources
/// are stacked, where a note is written and the word is kept). `None` only
/// where an expansion would not shrink the measure, which never happens.
pub open spec fn next_aliased(q: Seq<SourceView>, e: AliasEntries, notes: Seq<Seq<char>>) -> Option<
    (Option<TokenView>, Seq<SourceView>, Seq<Seq<char>>),
>
    decreases measure_of(q, e),
{
    let (t, q2) = queue_next(q);
    match t {
        Some(TokenView::Symbol(sym)) => if q2.len() <= MAX_ALIAS_DEPTH {
            match alias_lookup(e, sym) {
                Some(rep) => {
                    let q3 = q2.push(fresh_source(rep));
                    if measure_of(q3, e) < measure_of(q, e) {
                        next_aliased(q3, e, notes)
                    } else {
                        None
                    }
                },
                None => Some((t, q2, notes)),
            }
        } else {
            Some((t, q2, notes.push(note_depth())))
        },
        _ => Some((t, q2, notes)),
    }
}

/// Takes the next token if it is a word, and yields the word.
pub open spec fn consume_symbol(q: Seq<SourceView>) -> (Option<Seq<char>>, Seq<SourceView>) {
    let (t, q1) = queue_peek(q);
    match t {
        Some(TokenView::Symbol(s)) => (Some(s), queue_next(q1).1),
        _ => (None, q1),
    }
}

/// Takes the words that follow, up to the first token that is not a word.
pub open spec fn collect_args(q: Seq<SourceView>) -> Option<(Seq<Seq<char>>, Seq<SourceView>)>
    decreases queue_measure(q, 1),
{
    let (w, q1) = consume_symbol(q);
    match w {
        None => Some((Seq::empty(), q1)),
        Some(s) => if queue_measure(q1, 1) < queue_measure(q, 1) {
            match collect_args(q1) {
                None => None,
                Some((rest, q2)) => Some((seq![s] + rest, q2)),
            }
        } else {
            None
        },
    }
}

/// Parses an expression whose operators bind tighter than `min`.
pub open spec fn parse_prec(st: ParseState, e: AliasEntries, min: nat) -> Option<(ExprView, ParseState)>
    decreases measure_of(st.queue, e),
{
    match next_aliased(st.queue, e, st.notes) {
        None => None,
        Some((t, q1, n1)) => match t {
            None => Some(
                (
                    ExprView::Error,
                    ParseState { queue: q1, errors: st.errors.push(msg_eof()), notes: n1 },
                ),
            ),
            Some(TokenView::Symbol(name)) => match collect_args(q1) {
                None => None,
                Some((args, q2)) => if measure_of(q2, e) < measure_of(st.queue, e) {
                    infix_loop(
                        ParseState { queue: q2, errors: st.errors, notes: n1 },
                        e,
                        min,
                        ExprView::Cmd(command_for(name, args)),
                    )
                } else {
                    None
                },
            },
            Some(tok) => Some(
                (
                    ExprView::Error,
                    ParseState { queue: q1, errors: st.errors.push(msg_invalid_start(tok)), notes: n1 },
                ),
            ),
        },
    }
}

/// Applies the infix operators that bind tighter than `min` to `lhs`.
pub open spec fn infix_loop(st: ParseState, e: AliasEntries, min: nat, lhs: ExprView) -> Option<
    (ExprView, ParseState),
>
    decreases measure_of(st.queue, e),
{
    let (t, q1) = queue_peek(st.queue);
    let st1 = ParseState { queue: q1, errors: st.errors, notes: st.notes };
    match t {
        Some(tok) => match infix_precedence(tok) {
            Some(prec) => if prec > min {
                let q2 = queue_next(q1).1;
                if measure_of(q2, e) < measure_of(st.queue, e) {
                    if tok is Pipe {
                        match parse_prec(ParseState { queue: q2, errors: st.errors, notes: st.notes }, e, 5) {
                            None => None,
                            Some((rhs, st3)) => if measure_of(st3.queue, e) < measure_of(st.queue, e) {
                                infix_loop(st3, e, min, ExprView::Pipe(Box::new(lhs), Box::new(rhs)))
                            } else {
                                None
                            },
                        }
                    } else {
                        let (f, q3) = consume_symbol(q2);
                        if measure_of(q3, e) < measure_of(st.queue, e) {
                            match f {
                                Some(file) => infix_loop(
                                    ParseState { queue: q3, errors: st.errors, notes: st.notes },
                                    e,
                                    min,
                                    redirect_expr(tok, lhs, file),
                                ),
                                None => infix_loop(
                                    ParseState {
                                        queue: q3,
                                        errors: st.errors.push(msg_redirect()),
                                        notes: st.notes,
                                    },
                                    e,
                                    min,
                                    ExprView::Error,
                                ),
                            }
                        } else {
                            None
                        }
                    }
                } else {
                    None
                }
            } else {
                Some((lhs, st1))
            },
            None => Some((lhs, st1)),
        },
        None => Some((lhs, st1)),
    }
}

/// Parses the expressions that follow, each after a newline word, until
/// the input ends or something else follows an expression.
pub open spec fn compile_loop(st: ParseState, e: AliasEntries, exprs: Seq<ExprView>) -> Option<
    (Seq<ExprView>, ParseState),
>
    decreases measure_of(st.queue, e),
{
    let (t, q1) = queue_peek(st.queue);
    match t {
        None => Some((exprs, ParseState { queue: q1, errors: st.errors, notes: st.notes })),
        Some(tok) => if tok == TokenView::Symbol(seq!['\n']) {
            let q2 = queue_next(q1).1;
            if measure_of(q2, e) < measure_of(st.queue, e) {
                match parse_prec(ParseState { queue: q2, errors: st.errors, notes: st.notes }, e, 0) {
                    None => None,
                    Some((x, st3)) => if measure_of(st3.queue, e) < measure_of(st.queue, e) {
                        compile_loop(st3, e, exprs.push(x))
                    } else {
                        None
                    },
                }
            } else {
                None
            }
        } else {
            Some(
                (
                    exprs.push(ExprView::Error),
                    ParseState { queue: q1, errors: st.errors.push(msg_unexpected()), notes: st.notes },
                ),
            )
        },
    }
}

/// Parses a whole input: the expressions, and the state at the end. (The
/// parse of a well-formed stack always has a result: see `Parser::compile`.)
pub open spec fn compile_spec(st: ParseState, e: AliasEntries) -> Option<(Seq<ExprView>, ParseState)> {
    match parse_prec(st, e, 0) {
        None => None,
        Some((x, st1)) => compile_loop(st1, e, seq![x]),
    }
}

proof fn lemma_weight_positive_at(b: nat, e: nat)
    requires
        b >= 1,
    ensures
        weight(b, e) >= 1,
{
    crate::stream::lemma_weight_positive(b, e);
}

/// `r` with `acc` put in front of the words it collected.
pub open spec fn prepend_args(acc: Seq<Seq<char>>, r: Option<(Seq<Seq<char>>, Seq<SourceView>)>) -> Option<
    (Seq<Seq<char>>, Seq<SourceView>),
> {
    match r {
        None => None,
        Some((rest, q)) => Some((acc + rest, q)),
    }
}

proof fn lemma_prepend_twice(
    acc: Seq<Seq<char>>,
    w: Seq<char>,
    r: Option<(Seq<Seq<char>>, Seq<SourceView>)>,
)
    ensures
        prepend_args(acc, prepend_args(seq![w], r)) == prepend_args(acc.push(w), r),
{
    match r {
        None => {},
        Some((rest, q)) => {
            assert(acc + (seq![w] + rest) =~= acc.push(w) + rest);
        },
    }
}

/// Whether a token is the word made of one newline.
fn is_newline_symbol(t: &Token) -> (r: bool)
    ensures
        r == (t@ == TokenView::Symbol(seq!['\n'])),
{
    match t {
        Token::Symbol(s) => {
            let v = chars_of(s.as_str());
            let r = v.len() == 1 && v[0] == '\n';
            if r {
                assert(v@ =~= seq!['\n']);
            }
            r
        },
        _ => false,
    }
}

/// The error message for an expression that starts with operator `t`.
fn invalid_start_message(t: &Token) -> (r: String)
    ensures
        r@ == msg_invalid_start(t@),
{
    match t {
        Token::Symbol(_) => "Invalid start of expression: Symbol".to_string(),
        Token::OverwriteOutToFile => "Invalid start of expression: OverwriteOutToFile".to_string(),
        Token::OverwriteErrToFile => "Invalid start of expression: OverwriteErrToFile".to_string(),
        Token::AppendOutToFile => "Invalid start of expression: AppendOutToFile".to_string(),
        Token::AppendErrToFile => "Invalid start of expression: AppendErrToFile".to_string(),
        Token::Pipe => "Invalid start of expression: Pipe".to_string(),
    }
}

/// The redirection of `lhs` that operator `t` builds with file name `file`.
fn make_redirect(t: &Token, lhs: Expr, file: String) -> (r: Expr)
    requires
        !(t@ is Symbol),
        !(t@ is Pipe),
    ensures
        r@ == redirect_expr(t@, lhs@, file@),
{
    match t {
        Token::OverwriteOutToFile => Expr::OverwriteOutToFile(Box::new(lhs), file),
        Token::AppendOutToFile => Expr::AppendOutToFile(Box::new(lhs), file),
        Token::OverwriteErrToFile => Expr::OverwriteErrToFile(Box::new(lhs), file),
        _ => Expr::AppendErrToFile(Box::new(lhs), file),
    }
}

/// The result of parsing a whole input: the expressions, or every syntax
/// error found; and the notes written while expanding aliases.
pub struct Compiled {
    pub result: Result<Vec<Expr>, Vec<String>>,
    pub notes: Vec<String>,
}

/// What parsing from `st` yields, as a `Compiled` value would hold it.
pub open spec fn compiled_matches(c: Compiled, exprs: Seq<ExprView>, st: ParseState) -> bool {
    &&& string_views(c.notes@) == st.notes
    &&& if st.errors.len() == 0 {
        c.result matches Ok(v) && expr_views(v@) == exprs
    } else {
        c.result matches Err(errs) && string_views(errs@) == st.errors
    }
}

/// Pratt parser that turns tokenized shell input into expressions, resolving
/// aliases before building each command expression.
pub struct Parser<'a> {
    expressions: Vec<Expr>,
    errors: Vec<String>,
    notes: Vec<String>,
    state: &'a ShellState,
    queue: Vec<PeekableArgs>,
}

impl<'a> Parser<'a> {
    /// The views of the stacked sources.
    pub closed spec fn queue_view(&self) -> Seq<SourceView> {
        self.queue@.map_values(|a: PeekableArgs| a@)
    }

    /// The parser's state.
    pub closed spec fn pstate(&self) -> ParseState {
        ParseState {
            queue: self.queue_view(),
            errors: string_views(self.errors@),
            notes: string_views(self.notes@),
        }
    }

    /// The aliases the parser expands.
    pub closed spec fn aliases(&self) -> AliasEntries {
        self.state.aliases.entries()
    }

    /// The expressions parsed so far.
    pub closed spec fn expressions_view(&self) -> Seq<ExprView> {
        expr_views(self.expressions@)
    }

    /// Every source is well formed.
    pub closed spec fn wf(&self) -> bool {
        &&& self.state.wf()
        &&& forall|i: int| 0 <= i < self.queue@.len() ==> (#[trigger] self.queue@[i]).wf()
    }

    proof fn lemma_queue_wf(&self)
        requires
            self.wf(),
        ensures
            queue_wf(self.queue_view()),
    {
        assert forall|i: int| 0 <= i < self.queue_view().len() implies #[trigger] crate::stream::source_wf(
            self.queue_view()[i],
        ) by {
            assert(self.queue@[i].wf());
            self.queue@[i].lemma_wf();
        }
    }

    /// A parser over the tokens of `args`, expanding the aliases of `state`.
    pub fn new(args: PeekableArgs, state: &'a ShellState) -> (r: Parser<'a>)
        requires
            args.wf(),
            state.wf(),
        ensures
            r.wf(),
            r.pstate() == (ParseState {
                queue: seq![args@],
                errors: Seq::empty(),
                notes: Seq::empty(),
            }),
            r.aliases() == state.aliases.entries(),
            r.expressions_view() == Seq::<ExprView>::empty(),
    {
        let mut queue = Vec::new();
        queue.push(args);
        let r = Parser { expressions: Vec::new(), errors: Vec::new(), notes: Vec::new(), state, queue };
        assert(r.queue_view() =~= seq![args@]);
        assert(string_views(r.errors@) =~= Seq::<Seq<char>>::empty());
        assert(string_views(r.notes@) =~= Seq::<Seq<char>>::empty());
        assert(r.expressions_view() =~= Seq::<ExprView>::empty());
        r
    }

    /// Pops the exhausted sources.
    fn trim_queue(&mut self)
        requires
            old(self).wf(),
        ensures
            final(self).wf(),
            final(self).state == old(self).state,
            final(self).errors == old(self).errors,
            final(self).notes == old(self).notes,
            final(self).expressions == old(self).expressions,
            final(self).queue_view() == trim_queue(old(self).queue_view()),
    {
        loop
            invariant
                self.wf(),
                self.state == old(self).state,
                self.errors == old(self).errors,
                self.notes == old(self).notes,
                self.expressions == old(self).expressions,
                trim_queue(self.queue_view()) == trim_queue(old(self).queue_view()),
            decreases self.queue@.len(),
        {
            if self.queue.len() == 0 {
                return;
            }
            let ghost q = self.queue_view();
            let mut last = self.queue.pop().unwrap();
            assert(self.queue_view() =~= q.drop_last());
            assert(last@ == q.last());
            match last.peek() {
                None => {},
                Some(_) => {
                    self.queue.push(last);
                    assert(self.queue_view() =~= q.drop_last().push(last@));
                    return;
                },
            }
        }
    }

    /// Takes the next token of the top source that has one.
    fn next_token(&mut self) -> (r: Option<Token>)
        requires
            old(self).wf(),
        ensures
            final(self).wf(),
            final(self).state == old(self).state,
            final(self).errors == old(self).errors,
            final(self).notes == old(self).notes,
            final(self).expressions == old(self).expressions,
            queue_next(old(self).queue_view()) == (
                crate::args::opt_token_view(r),
                final(self).queue_view(),
            ),
    {
        self.trim_queue();
        if self.queue.len() == 0 {
            return None;
        }
        let ghost q = self.queue_view();
        let mut last = self.queue.pop().unwrap();
        assert(self.queue_view() =~= q.drop_last());
        let t = last.next();
        self.queue.push(last);
        assert(self.queue_view() =~= q.drop_last().push(last@));
        t
    }

    /// Looks at the next token of the top source that has one.
    fn peek_token(&mut self) -> (r: Option<Token>)
        requires
            old(self).wf(),
        ensures
            final(self).wf(),
            final(self).state == old(self).state,
            final(self).errors == old(self).errors,
            final(self).notes == old(self).notes,
            final(self).expressions == old(self).expressions,
            queue_peek(old(self).queue_view()) == (
                crate::args::opt_token_view(r),
                final(self).queue_view(),
            ),
    {
        self.trim_queue();
        if self.queue.len() == 0 {
            return None;
        }
        let ghost q = self.queue_view();
        let mut last = self.queue.pop().unwrap();
        assert(self.queue_view() =~= q.drop_last());
        let t = last.peek();
        self.queue.push(last);
        assert(self.queue_view() =~= q.drop_last().push(last@));
        t
    }

    /// Takes the next token, replacing a word that names an alias by the
    /// tokens of its replacement.
    fn next_token_aliased(&mut self) -> (r: Option<Token>)
        requires
            old(self).wf(),
            old(self).state.wf(),
        ensures
            final(self).wf(),
            final(self).state == old(self).state,
            final(self).errors == old(self).errors,
            final(self).expressions == old(self).expressions,
            next_aliased(old(self).queue_view(), old(self).aliases(), old(self).pstate().notes) == Some(
                (crate::args::opt_token_view(r), final(self).queue_view(), final(self).pstate().notes),
            ),
            measure_of(final(self).queue_view(), final(self).aliases()) <= measure_of(
                old(self).queue_view(),
                old(self).aliases(),
            ),
            r is Some ==> final(self).queue_view().len() > 0 && measure_of(
                final(self).queue_view(),
                final(self).aliases(),
            ) + weight(alias_bound(final(self).aliases()), (11 - final(self).queue_view().len()) as nat)
                <= measure_of(old(self).queue_view(), old(self).aliases()),
        decreases measure_of(old(self).queue_view(), old(self).aliases()),
    {
        let ghost q0 = self.queue_view();
        let ghost e = self.aliases();
        let ghost b = alias_bound(e);
        proof {
            self.lemma_queue_wf();
            lemma_queue_next(q0, b);
        }
        let next = self.next_token();
        match next {
            Some(Token::Symbol(sym)) => {
                if self.queue.len() <= MAX_ALIAS_DEPTH {
                    let state = self.state;
                    match state.aliases.get(sym.as_str()) {
                        Some(replacement) => {
                            let ghost q2 = self.queue_view();
                            proof {
                                lemma_lookup_shorter_than_longest(e, sym@);
                                lemma_push_fresh(q2, replacement@, b);
                            }
                            let src = PeekableArgs::new(Args::new(replacement.as_str()));
                            self.queue.push(src);
                            assert(self.queue_view() =~= q2.push(fresh_source(replacement@)));
                            assert(measure_of(self.queue_view(), e) < measure_of(q0, e));
                            return self.next_token_aliased();
                        },
                        None => {
                            return Some(Token::Symbol(sym));
                        },
                    }
                } else {
                    let ghost n = self.pstate().notes;
                    self.notes.push("Max recursion depth reached; results may be unexpected".to_string());
                    assert(self.pstate().notes =~= n.push(note_depth()));
                    return Some(Token::Symbol(sym));
                }
            },
            other => other,
        }
    }

    /// Takes the next token if it is a word, and yields the word.
    fn consume_symbol(&mut self) -> (r: Option<String>)
        requires
            old(self).wf(),
        ensures
            final(self).wf(),
            final(self).state == old(self).state,
            final(self).errors == old(self).errors,
            final(self).notes == old(self).notes,
            final(self).expressions == old(self).expressions,
            consume_symbol(old(self).queue_view()) == (
                match r {
                    Some(s) => Some(s@),
                    None => None,
                },
                final(self).queue_view(),
            ),
            queue_measure(final(self).queue_view(), 1) <= queue_measure(old(self).queue_view(), 1),
            measure_of(final(self).queue_view(), final(self).aliases()) <= measure_of(
                old(self).queue_view(),
                old(self).aliases(),
            ),
            r is Some ==> queue_measure(final(self).queue_view(), 1) < queue_measure(
                old(self).queue_view(),
                1,
            ),
    {
        let ghost q0 = self.queue_view();
        proof {
            self.lemma_queue_wf();
            lemma_queue_peek(q0, 1);
            lemma_queue_peek(q0, alias_bound(self.aliases()));
        }
        match self.peek_token() {
            Some(Token::Symbol(s)) => {
                proof {
                    let (t2, q3) = queue_next(self.queue_view());
                    lemma_weight_positive_at(1, (11 - q3.len()) as nat);
                }
                self.next_token();
                Some(s)
            },
            _ => None,
        }
    }

    /// Records a syntax error, and yields the placeholder expression.
    fn error(&mut self, msg: String) -> (r: Expr)
        ensures
            r@ == ExprView::Error,
            final(self).pstate() == (ParseState {
                queue: old(self).pstate().queue,
                errors: old(self).pstate().errors.push(msg@),
                notes: old(self).pstate().notes,
            }),
            final(self).queue == old(self).queue,
            final(self).notes == old(self).notes,
            final(self).state == old(self).state,
            final(self).expressions == old(self).expressions,
    {
        let ghost errs = string_views(self.errors@);
        self.errors.push(msg);
        assert(string_views(self.errors@) =~= errs.push(msg@));
        Expr::Error
    }

    /// Parses an expression whose operators bind tighter than `min_prec`.
    #[verifier::loop_isolation(false)]
    fn parse_precedence(&mut self, min_prec: u32) -> (r: Expr)
        requires
            old(self).wf(),
            old(self).state.wf(),
        ensures
            final(self).wf(),
            final(self).state == old(self).state,
            final(self).expressions == old(self).expressions,
            parse_prec(old(self).pstate(), old(self).aliases(), min_prec as nat) == Some(
                (r@, final(self).pstate()),
            ),
            measure_of(final(self).queue_view(), final(self).aliases()) <= measure_of(
                old(self).queue_view(),
                old(self).aliases(),
            ),
        decreases measure_of(old(self).queue_view(), old(self).aliases()),
    {
        let ghost st0 = self.pstate();
        let ghost e = self.aliases();
        let prefix = self.next_token_aliased();
        match prefix {
            None => {
                let m = "Invalid start of expression: EOF".to_string();
                self.error(m)
            },
            Some(Token::Symbol(name)) => {
                let ghost q1 = self.queue_view();
                let ghost n1 = self.pstate().notes;
                proof {
                    lemma_weight_positive_at(alias_bound(e), (11 - q1.len()) as nat);
                }
                let mut arguments: Vec<String> = Vec::new();
                loop
                    invariant
                        self.wf(),
                        self.state == old(self).state,
                        self.expressions == old(self).expressions,
                        self.errors == old(self).errors,
                        self.pstate().notes == n1,
                        collect_args(q1) == prepend_args(
                            string_views(arguments@),
                            collect_args(self.queue_view()),
                        ),
                        measure_of(self.queue_view(), e) <= measure_of(q1, e),
                    decreases queue_measure(self.queue_view(), 1),
                {
                    let ghost qc = self.queue_view();
                    let ghost acc = string_views(arguments@);
                    match self.consume_symbol() {
                        Some(arg) => {
                            proof {
                                let rest = collect_args(self.queue_view());
                                assert(collect_args(qc) == prepend_args(seq![arg@], rest));
                                lemma_prepend_twice(acc, arg@, rest);
                            }
                            arguments.push(arg);
                            assert(string_views(arguments@) =~= acc.push(arg@));
                        },
                        None => {
                            assert(collect_args(qc) == Some((Seq::<Seq<char>>::empty(), self.queue_view())));
                            assert(acc + Seq::<Seq<char>>::empty() =~= acc);
                            break ;
                        },
                    }
                }
                let ghost args_view = string_views(arguments@);
                let mut command = Cmd::new(name.as_str());
                command.set_args(&mut arguments);
                assert(Seq::<Seq<char>>::empty() + args_view =~= args_view);
                let lhs = Expr::Cmd(command);
                assert(lhs@ == ExprView::Cmd(command_for(name@, args_view)));
                assert(parse_prec(st0, e, min_prec as nat) == infix_loop(
                    self.pstate(),
                    e,
                    min_prec as nat,
                    lhs@,
                ));
                self.parse_infix(min_prec, lhs)
            },
            Some(tok) => {
                let m = invalid_start_message(&tok);
                self.error(m)
            },
        }
    }

    /// Applies the infix operators that bind tighter than `min_prec` to `lhs`.
    fn parse_infix(&mut self, min_prec: u32, lhs: Expr) -> (r: Expr)
        requires
            old(self).wf(),
            old(self).state.wf(),
        ensures
            final(self).wf(),
            final(self).state == old(self).state,
            final(self).expressions == old(self).expressions,
            infix_loop(old(self).pstate(), old(self).aliases(), min_prec as nat, lhs@) == Some(
                (r@, final(self).pstate()),
            ),
            measure_of(final(self).queue_view(), final(self).aliases()) <= measure_of(
                old(self).queue_view(),
                old(self).aliases(),
            ),
        decreases measure_of(old(self).queue_view(), old(self).aliases()),
    {
        let ghost st0 = self.pstate();
        let ghost e = self.aliases();
        let ghost b = alias_bound(e);
        proof {
            self.lemma_queue_wf();
            lemma_queue_peek(st0.queue, b);
        }
        let peeked = self.peek_token();
        let ghost q1 = self.queue_view();
        let tok = match peeked {
            None => {
                return lhs;
            },
            Some(tok) => tok,
        };
        let infix = match tok {
            Token::Symbol(_) => false,
            Token::Pipe => 5 > min_prec,
            _ => 10 > min_prec,
        };
        if !infix {
            return lhs;
        }
        proof {
            let (t2, q2) = queue_next(q1);
            lemma_weight_positive_at(b, (11 - q2.len()) as nat);
        }
        self.next_token();
        let ghost q2 = self.queue_view();
        assert(measure_of(q2, e) < measure_of(st0.queue, e));
        match tok {
            Token::Pipe => {
                let rhs = self.parse_precedence(5);
                let next = Expr::Pipe(Box::new(lhs), Box::new(rhs));
                self.parse_infix(min_prec, next)
            },
            _ => {
                proof {
                    self.lemma_queue_wf();
                    lemma_queue_peek(q2, b);
                }
                match self.consume_symbol() {
                    Some(file) => {
                        let next = make_redirect(&tok, lhs, file);
                        self.parse_infix(min_prec, next)
                    },
                    None => {
                        let m = "Expected filename after redirect".to_string();
                        let next = self.error(m);
                        self.parse_infix(min_prec, next)
                    },
                }
            },
        }
    }

    /// Parses one expression.
    fn expression(&mut self) -> (r: Expr)
        requires
            old(self).wf(),
            old(self).state.wf(),
        ensures
            final(self).wf(),
            final(self).state == old(self).state,
            final(self).expressions == old(self).expressions,
            parse_prec(old(self).pstate(), old(self).aliases(), 0) == Some((r@, final(self).pstate())),
            measure_of(final(self).queue_view(), final(self).aliases()) <= measure_of(
                old(self).queue_view(),
                old(self).aliases(),
            ),
    {
        self.parse_precedence(0)
    }

    /// Parses the whole input into expressions, keeping the notes written
    /// while expanding aliases beside the result.
    #[verifier::loop_isolation(false)]
    pub fn compile_with_notes(self) -> (r: Compiled)
        requires
            self.wf(),
            self.expressions_view() == Seq::<ExprView>::empty(),
        ensures
            compile_spec(self.pstate(), self.aliases()) matches Some((exprs, st)) && compiled_matches(
                r,
                exprs,
                st,
            ),
    {
        let mut parser = self;
        parser.run()
    }

    /// Parses the whole input; the body of `compile_with_notes`.
    #[verifier::loop_isolation(false)]
    fn run(&mut self) -> (r: Compiled)
        requires
            old(self).wf(),
            old(self).state.wf(),
            old(self).expressions_view() == Seq::<ExprView>::empty(),
        ensures
            compile_spec(old(self).pstate(), old(self).aliases()) matches Some((exprs, st))
                && compiled_matches(r, exprs, st),
    {
        let ghost st0 = self.pstate();
        let ghost e = self.aliases();
        let ghost b = alias_bound(e);
        let first = self.expression();
        self.expressions.push(first);
        assert(self.expressions_view() =~= seq![first@]);
        let ghost target = compile_spec(st0, e);
        loop
            invariant
                self.wf(),
                self.state.wf(),
                self.aliases() == e,
                compile_loop(self.pstate(), e, self.expressions_view()) == target,
            decreases measure_of(self.queue_view(), e),
        {
            let ghost stc = self.pstate();
            let ghost xs = self.expressions_view();
            proof {
                self.lemma_queue_wf();
                lemma_queue_peek(stc.queue, b);
            }
            let peeked = self.peek_token();
            let ghost q1 = self.queue_view();
            match peeked {
                None => {
                    break ;
                },
                Some(tok) => {
                    if is_newline_symbol(&tok) {
                        proof {
                            let (t2, q2) = queue_next(q1);
                            lemma_weight_positive_at(b, (11 - q2.len()) as nat);
                        }
                        self.next_token();
                        let next = self.expression();
                        self.expressions.push(next);
                        assert(self.expressions_view() =~= xs.push(next@));
                    } else {
                        let m = "Unexpected start of expression, expected newline or expression seperator".to_string();
                        let err = self.error(m);
                        self.expressions.push(err);
                        assert(self.expressions_view() =~= xs.push(ExprView::Error));
                        break ;
                    }
                },
            }
        }
        let mut expressions = Vec::new();
        std::mem::swap(&mut expressions, &mut self.expressions);
        let mut errors = Vec::new();
        std::mem::swap(&mut errors, &mut self.errors);
        let mut notes = Vec::new();
        std::mem::swap(&mut notes, &mut self.notes);
        if errors.len() == 0 {
            Compiled { result: Ok(expressions), notes }
        } else {
            Compiled { result: Err(errors), notes }
        }
    }

    /// Parses the whole input into expressions: all of them when no syntax
    /// error was found, and then none of them is an error placeholder; or
    /// else every syntax error found, at least one.
    pub fn compile(self) -> (r: Result<Vec<Expr>, Vec<String>>)
        requires
            self.wf(),
            self.expressions_view() == Seq::<ExprView>::empty(),
        ensures
            compile_spec(self.pstate(), self.aliases()) is Some,
            ({
                let (exprs, st) = compile_spec(self.pstate(), self.aliases()).unwrap();
                if st.errors.len() == 0 {
                    r matches Ok(v) && expr_views(v@) == exprs
                } else {
                    r matches Err(errs) && string_views(errs@) == st.errors
                }
            }),
            r matches Ok(v) ==> forall|i: int| 0 <= i < v@.len() ==> !has_error(#[trigger] v@[i]@),
            r matches Err(errs) ==> errs@.len() > 0,
    {
        let ghost st0 = self.pstate();
        let ghost e = self.aliases();
        let c = self.compile_with_notes();
        proof {
            lemma_compiled_without_errors(st0, e);
            let (exprs, st) = compile_spec(st0, e).unwrap();
            if c.result is Ok {
                let v = c.result->Ok_0;
                assert forall|i: int| 0 <= i < v@.len() implies !has_error(#[trigger] v@[i]@) by {
                    assert(expr_views(v@)[i] == v@[i]@);
                }
            } else {
                let errs = c.result->Err_0;
                assert(string_views(errs@).len() == errs@.len());
            }
        }
        c.result
    }
}

} // verus!
