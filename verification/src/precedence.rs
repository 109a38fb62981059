//! How the operators of a command line bind and what they build: a
//! redirection binds tighter than a pipe, pipes associate to the left, and
//! each redirection operator builds the redirection of its own name.
use vstd::prelude::*;
use crate::aliases::alias_lookup;
use crate::args::{lemma_end_repeats, lemma_scan_token_progress, scan_all, scan_token, TokenView};
use crate::cmd::command_for;
use crate::parser::{
    alias_bound, collect_args, compile_loop, compile_spec, consume_symbol, infix_loop, measure_of,
    next_aliased, parse_prec, redirect_expr, AliasEntries, ExprView, ParseState,
};
use crate::stream::{
    fresh_source, lemma_weight_positive, queue_measure, queue_next, queue_peek, source_peek,
    source_rem, trim_queue, weight, SourceView,
};

verus! {

/// A stack of one source over `text` at `pos`, with look-ahead `pk`.
pub open spec fn one(text: Seq<char>, pos: int, pk: Option<Option<TokenView>>) -> Seq<SourceView> {
    seq![SourceView { text: text, pos: pos, peeked: pk }]
}

/// The state of a parse of a single source with nothing reported yet.
pub open spec fn clean(q: Seq<SourceView>) -> ParseState {
    ParseState { queue: q, errors: Seq::empty(), notes: Seq::empty() }
}

proof fn lemma_first_token(text: Seq<char>, pos: int) -> (p: int)
    requires
        0 <= pos <= text.len(),
        scan_all(text, pos).len() > 0,
    ensures
        scan_token(text, pos) == (Some(scan_all(text, pos)[0]), p),
        pos < p <= text.len(),
        scan_all(text, p) == scan_all(text, pos).drop_first(),
{
    lemma_end_repeats(text, pos);
    lemma_scan_token_progress(text, pos);
    let (t, p) = scan_token(text, pos);
    let rest = scan_all(text, p);
    assert((seq![t->0] + rest).drop_first() =~= rest);
    p
}

proof fn lemma_no_token(text: Seq<char>, pos: int)
    requires
        0 <= pos <= text.len(),
        scan_all(text, pos).len() == 0,
    ensures
        scan_token(text, pos) == (None::<TokenView>, text.len() as int),
{
    lemma_end_repeats(text, pos);
    lemma_scan_token_progress(text, pos);
}

proof fn lemma_step_fresh(text: Seq<char>, p: int)
    requires
        0 <= p <= text.len(),
    ensures
        ({
            let (t, p2) = scan_token(text, p);
            &&& t is Some ==> queue_peek(one(text, p, None)) == (t, one(text, p2, Some(t)))
            &&& t is Some ==> queue_next(one(text, p, None)) == (t, one(text, p2, None))
            &&& t is None ==> queue_peek(one(text, p, None)) == (None::<TokenView>, Seq::<SourceView>::empty())
            &&& t is None ==> queue_next(one(text, p, None)) == (None::<TokenView>, Seq::<SourceView>::empty())
        }),
{
    let (t, p2) = scan_token(text, p);
    let q = one(text, p, None);
    let s2 = SourceView { text: text, pos: p2, peeked: Some(t) };
    assert(q.drop_last() =~= Seq::<SourceView>::empty());
    assert(source_peek(q.last()) == (t, s2));
    if t is Some {
        assert(q.drop_last().push(s2) =~= one(text, p2, Some(t)));
        assert(trim_queue(q) == one(text, p2, Some(t)));
        let q1 = one(text, p2, Some(t));
        assert(q1.drop_last().push(q1.last()) =~= q1);
        assert(q1.drop_last().push(SourceView { text: text, pos: p2, peeked: None }) =~= one(text, p2, None));
    } else {
        assert(trim_queue(Seq::<SourceView>::empty()) == Seq::<SourceView>::empty());
        assert(trim_queue(q) == Seq::<SourceView>::empty());
    }
}

proof fn lemma_step_peeked(text: Seq<char>, p: int, t: TokenView)
    ensures
        queue_peek(one(text, p, Some(Some(t)))) == (Some(t), one(text, p, Some(Some(t)))),
        queue_next(one(text, p, Some(Some(t)))) == (Some(t), one(text, p, None)),
{
    let q = one(text, p, Some(Some(t)));
    assert(q.drop_last().push(q.last()) =~= q);
    assert(trim_queue(q) == q);
    assert(q.drop_last().push(SourceView { text: text, pos: p, peeked: None }) =~= one(text, p, None));
}

proof fn lemma_trim_empty()
    ensures
        queue_peek(Seq::<SourceView>::empty()) == (None::<TokenView>, Seq::<SourceView>::empty()),
{
    assert(trim_queue(Seq::<SourceView>::empty()) == Seq::<SourceView>::empty());
}

/// The measure of one source is what it can still yield, scaled by one weight.
proof fn lemma_measure_one(text: Seq<char>, p: int, pk: Option<Option<TokenView>>, e: AliasEntries)
    ensures
        measure_of(one(text, p, pk), e) == source_rem(one(text, p, pk)[0]) * weight(alias_bound(e), 10),
        weight(alias_bound(e), 10) >= 1,
{
    let q = one(text, p, pk);
    assert(q.drop_last() =~= Seq::<SourceView>::empty());
    assert(queue_measure(Seq::<SourceView>::empty(), alias_bound(e)) == 0);
    lemma_weight_positive(alias_bound(e), 10);
}

proof fn lemma_scaled_lt(a: nat, c: nat, w: nat)
    requires
        a < c,
        w >= 1,
    ensures
        a * w < c * w,
{
    assert(a * w < c * w) by (nonlinear_arith)
        requires
            a < c,
            w >= 1,
    ;
}

proof fn lemma_empty_measure(e: AliasEntries)
    ensures
        measure_of(Seq::<SourceView>::empty(), e) == 0,
{
}

/// The right operand of a pipe stops at the next pipe: from a state whose
/// next token is a pipe, the loop of operators binding tighter than a pipe
/// takes nothing.
pub proof fn lemma_pipe_operand_stops_at_pipe(st: ParseState, e: AliasEntries, lhs: ExprView)
    requires
        queue_peek(st.queue).0 == Some(TokenView::Pipe),
    ensures
        infix_loop(st, e, 5, lhs) == Some(
            (lhs, ParseState { queue: queue_peek(st.queue).1, errors: st.errors, notes: st.notes }),
        ),
{
}

/// A redirection binds tighter than a pipe: a line whose tokens are
/// `x | y` followed by a redirection and a file name `f` parses as `x`
/// piped into `y` redirected to `f`, when neither `x` nor `y` names an alias.
pub proof fn lemma_redirect_binds_tighter(
    text: Seq<char>,
    x: Seq<char>,
    y: Seq<char>,
    r: TokenView,
    f: Seq<char>,
    e: AliasEntries,
)
    requires
        !(r is Symbol),
        !(r is Pipe),
        scan_all(text, 0) == seq![
            TokenView::Symbol(x),
            TokenView::Pipe,
            TokenView::Symbol(y),
            r,
            TokenView::Symbol(f),
        ],
        alias_lookup(e, x) is None,
        alias_lookup(e, y) is None,
    ensures
        compile_spec(clean(seq![fresh_source(text)]), e) == Some(
            (
                seq![
                    ExprView::Pipe(
                        Box::new(ExprView::Cmd(command_for(x, Seq::empty()))),
                        Box::new(redirect_expr(r, ExprView::Cmd(command_for(y, Seq::empty())), f)),
                    ),
                ],
                clean(Seq::empty()),
            ),
        ),
{
    let n = text.len() as int;
    let sx = TokenView::Symbol(x);
    let sy = TokenView::Symbol(y);
    let sf = TokenView::Symbol(f);
    let pp = TokenView::Pipe;
    let p1 = lemma_first_token(text, 0);
    let p2 = lemma_first_token(text, p1);
    let p3 = lemma_first_token(text, p2);
    let p4 = lemma_first_token(text, p3);
    let p5 = lemma_first_token(text, p4);
    lemma_no_token(text, p5);
    let w = weight(alias_bound(e), 10);
    let empty = Seq::<SourceView>::empty();
    assert(seq![fresh_source(text)] == one(text, 0, None));
    lemma_step_fresh(text, 0);
    lemma_step_fresh(text, p1);
    lemma_step_peeked(text, p2, pp);
    lemma_step_fresh(text, p2);
    lemma_step_fresh(text, p3);
    lemma_step_peeked(text, p4, r);
    lemma_step_fresh(text, p4);
    lemma_step_peeked(text, p5, sf);
    lemma_step_fresh(text, p5);
    lemma_trim_empty();
    lemma_measure_one(text, 0, None, e);
    lemma_measure_one(text, p2, Some(Some(pp)), e);
    lemma_measure_one(text, p2, None, e);
    lemma_measure_one(text, p4, Some(Some(r)), e);
    lemma_measure_one(text, p4, None, e);
    lemma_measure_one(text, p5, None, e);
    lemma_empty_measure(e);
    lemma_scaled_lt((n - p2 + 1) as nat, n as nat, w);
    lemma_scaled_lt((n - p2) as nat, (n - p2 + 1) as nat, w);
    lemma_scaled_lt((n - p4 + 1) as nat, (n - p2) as nat, w);
    lemma_scaled_lt((n - p4) as nat, (n - p4 + 1) as nat, w);
    lemma_scaled_lt((n - p5) as nat, (n - p4 + 1) as nat, w);
    lemma_scaled_lt(0, (n - p2 + 1) as nat, w);
    let cx = ExprView::Cmd(command_for(x, Seq::empty()));
    let cy = ExprView::Cmd(command_for(y, Seq::empty()));
    let red = redirect_expr(r, cy, f);
    // the operand after the pipe
    assert(next_aliased(one(text, p2, None), e, Seq::empty()) == Some(
        (Some(sy), one(text, p3, None), Seq::<Seq<char>>::empty()),
    ));
    assert(consume_symbol(one(text, p3, None)) == (None::<Seq<char>>, one(text, p4, Some(Some(r)))));
    assert(collect_args(one(text, p3, None)) == Some((Seq::<Seq<char>>::empty(), one(text, p4, Some(Some(r))))));
    assert(consume_symbol(one(text, p4, None)) == (Some(f), one(text, p5, None)));
    assert(infix_loop(clean(one(text, p5, None)), e, 5, red) == Some((red, clean(empty))));
    assert(infix_loop(clean(one(text, p4, Some(Some(r)))), e, 5, cy) == Some((red, clean(empty))));
    assert(parse_prec(clean(one(text, p2, None)), e, 5) == Some((red, clean(empty))));
    // the whole line
    let whole = ExprView::Pipe(Box::new(cx), Box::new(red));
    assert(infix_loop(clean(empty), e, 0, whole) == Some((whole, clean(empty))));
    assert(next_aliased(one(text, 0, None), e, Seq::empty()) == Some(
        (Some(sx), one(text, p1, None), Seq::<Seq<char>>::empty()),
    ));
    assert(consume_symbol(one(text, p1, None)) == (None::<Seq<char>>, one(text, p2, Some(Some(pp)))));
    assert(collect_args(one(text, p1, None)) == Some((Seq::<Seq<char>>::empty(), one(text, p2, Some(Some(pp))))));
    assert(infix_loop(clean(one(text, p2, Some(Some(pp)))), e, 0, cx) == Some((whole, clean(empty))));
    assert(parse_prec(clean(one(text, 0, None)), e, 0) == Some((whole, clean(empty))));
    assert(compile_loop(clean(empty), e, seq![whole]) == Some((seq![whole], clean(empty))));
}

/// Pipes associate to the left: a line whose tokens are `x | y | z`
/// parses as `x` piped into `y`, that pipe piped into `z`, when none of the
/// three names an alias.
pub proof fn lemma_pipes_associate_left(
    text: Seq<char>,
    x: Seq<char>,
    y: Seq<char>,
    z: Seq<char>,
    e: AliasEntries,
)
    requires
        scan_all(text, 0) == seq![
            TokenView::Symbol(x),
            TokenView::Pipe,
            TokenView::Symbol(y),
            TokenView::Pipe,
            TokenView::Symbol(z),
        ],
        alias_lookup(e, x) is None,
        alias_lookup(e, y) is None,
        alias_lookup(e, z) is None,
    ensures
        compile_spec(clean(seq![fresh_source(text)]), e) == Some(
            (
                seq![
                    ExprView::Pipe(
                        Box::new(
                            ExprView::Pipe(
                                Box::new(ExprView::Cmd(command_for(x, Seq::empty()))),
                                Box::new(ExprView::Cmd(command_for(y, Seq::empty()))),
                            ),
                        ),
                        Box::new(ExprView::Cmd(command_for(z, Seq::empty()))),
                    ),
                ],
                clean(Seq::empty()),
            ),
        ),
{
    let n = text.len() as int;
    let sx = TokenView::Symbol(x);
    let sy = TokenView::Symbol(y);
    let sz = TokenView::Symbol(z);
    let pp = TokenView::Pipe;
    let p1 = lemma_first_token(text, 0);
    let p2 = lemma_first_token(text, p1);
    let p3 = lemma_first_token(text, p2);
    let p4 = lemma_first_token(text, p3);
    let p5 = lemma_first_token(text, p4);
    lemma_no_token(text, p5);
    let w = weight(alias_bound(e), 10);
    let empty = Seq::<SourceView>::empty();
    assert(seq![fresh_source(text)] == one(text, 0, None));
    lemma_step_fresh(text, 0);
    lemma_step_fresh(text, p1);
    lemma_step_peeked(text, p2, pp);
    lemma_step_fresh(text, p2);
    lemma_step_fresh(text, p3);
    lemma_step_peeked(text, p4, pp);
    lemma_step_fresh(text, p4);
    lemma_step_fresh(text, p5);
    lemma_trim_empty();
    lemma_measure_one(text, 0, None, e);
    lemma_measure_one(text, p2, Some(Some(pp)), e);
    lemma_measure_one(text, p2, None, e);
    lemma_measure_one(text, p4, Some(Some(pp)), e);
    lemma_measure_one(text, p4, None, e);
    lemma_empty_measure(e);
    lemma_scaled_lt((n - p2 + 1) as nat, n as nat, w);
    lemma_scaled_lt((n - p2) as nat, (n - p2 + 1) as nat, w);
    lemma_scaled_lt((n - p4 + 1) as nat, (n - p2) as nat, w);
    lemma_scaled_lt((n - p4 + 1) as nat, (n - p2 + 1) as nat, w);
    lemma_scaled_lt((n - p4) as nat, (n - p4 + 1) as nat, w);
    lemma_scaled_lt(0, (n - p4) as nat, w);
    lemma_scaled_lt(0, (n - p4 + 1) as nat, w);
    let cx = ExprView::Cmd(command_for(x, Seq::empty()));
    let cy = ExprView::Cmd(command_for(y, Seq::empty()));
    let cz = ExprView::Cmd(command_for(z, Seq::empty()));
    let left = ExprView::Pipe(Box::new(cx), Box::new(cy));
    let whole = ExprView::Pipe(Box::new(left), Box::new(cz));
    // the last operand
    assert(next_aliased(one(text, p4, None), e, Seq::empty()) == Some(
        (Some(sz), one(text, p5, None), Seq::<Seq<char>>::empty()),
    ));
    assert(consume_symbol(one(text, p5, None)) == (None::<Seq<char>>, empty));
    assert(collect_args(one(text, p5, None)) == Some((Seq::<Seq<char>>::empty(), empty)));
    assert(infix_loop(clean(empty), e, 5, cz) == Some((cz, clean(empty))));
    assert(parse_prec(clean(one(text, p4, None)), e, 5) == Some((cz, clean(empty))));
    assert(infix_loop(clean(empty), e, 0, whole) == Some((whole, clean(empty))));
    assert(infix_loop(clean(one(text, p4, Some(Some(pp)))), e, 0, left) == Some((whole, clean(empty))));
    // the middle operand stops at the second pipe
    assert(next_aliased(one(text, p2, None), e, Seq::empty()) == Some(
        (Some(sy), one(text, p3, None), Seq::<Seq<char>>::empty()),
    ));
    assert(consume_symbol(one(text, p3, None)) == (None::<Seq<char>>, one(text, p4, Some(Some(pp)))));
    assert(collect_args(one(text, p3, None)) == Some((Seq::<Seq<char>>::empty(), one(text, p4, Some(Some(pp))))));
    assert(infix_loop(clean(one(text, p4, Some(Some(pp)))), e, 5, cy) == Some(
        (cy, clean(one(text, p4, Some(Some(pp))))),
    ));
    assert(parse_prec(clean(one(text, p2, None)), e, 5) == Some((cy, clean(one(text, p4, Some(Some(pp)))))));
    // the first operand
    assert(next_aliased(one(text, 0, None), e, Seq::empty()) == Some(
        (Some(sx), one(text, p1, None), Seq::<Seq<char>>::empty()),
    ));
    assert(consume_symbol(one(text, p1, None)) == (None::<Seq<char>>, one(text, p2, Some(Some(pp)))));
    assert(collect_args(one(text, p1, None)) == Some((Seq::<Seq<char>>::empty(), one(text, p2, Some(Some(pp))))));
    assert(infix_loop(clean(one(text, p2, Some(Some(pp)))), e, 0, cx) == Some((whole, clean(empty))));
    assert(parse_prec(clean(one(text, 0, None)), e, 0) == Some((whole, clean(empty))));
    assert(compile_loop(clean(empty), e, seq![whole]) == Some((seq![whole], clean(empty))));
}

/// Each redirection operator builds the redirection of the same name: `>`
/// and `1>` send standard output to the file, truncating it; `>>` and `1>>`
/// append standard output; `2>` sends standard error, truncating; `2>>`
/// appends standard error.
pub proof fn lemma_redirect_constructors(lhs: ExprView, f: Seq<char>)
    ensures
        redirect_expr(TokenView::OverwriteOutToFile, lhs, f) == ExprView::OverwriteOutToFile(
            Box::new(lhs),
            f,
        ),
        redirect_expr(TokenView::AppendOutToFile, lhs, f) == ExprView::AppendOutToFile(Box::new(lhs), f),
        redirect_expr(TokenView::OverwriteErrToFile, lhs, f) == ExprView::OverwriteErrToFile(
            Box::new(lhs),
            f,
        ),
        redirect_expr(TokenView::AppendErrToFile, lhs, f) == ExprView::AppendErrToFile(Box::new(lhs), f),
{
}

/// A line whose tokens are a word `w` (no alias), a redirection operator
/// and a file name `f` parses as the command `w` with no arguments,
/// redirected by the expression of the operator's own name.
pub proof fn lemma_single_redirect(text: Seq<char>, w: Seq<char>, r: TokenView, f: Seq<char>, e: AliasEntries)
    requires
        !(r is Symbol),
        !(r is Pipe),
        scan_all(text, 0) == seq![TokenView::Symbol(w), r, TokenView::Symbol(f)],
        alias_lookup(e, w) is None,
    ensures
        compile_spec(clean(seq![fresh_source(text)]), e) == Some(
            (
                seq![
                    match r {
                        TokenView::OverwriteOutToFile => ExprView::OverwriteOutToFile(
                            Box::new(ExprView::Cmd(command_for(w, Seq::empty()))),
                            f,
                        ),
                        TokenView::AppendOutToFile => ExprView::AppendOutToFile(
                            Box::new(ExprView::Cmd(command_for(w, Seq::empty()))),
                            f,
                        ),
                        TokenView::OverwriteErrToFile => ExprView::OverwriteErrToFile(
                            Box::new(ExprView::Cmd(command_for(w, Seq::empty()))),
                            f,
                        ),
                        _ => ExprView::AppendErrToFile(
                            Box::new(ExprView::Cmd(command_for(w, Seq::empty()))),
                            f,
                        ),
                    },
                ],
                clean(Seq::empty()),
            ),
        ),
{
    let n = text.len() as int;
    let sw = TokenView::Symbol(w);
    let sf = TokenView::Symbol(f);
    let p1 = lemma_first_token(text, 0);
    let p2 = lemma_first_token(text, p1);
    let p3 = lemma_first_token(text, p2);
    lemma_no_token(text, p3);
    let w8 = weight(alias_bound(e), 10);
    let empty = Seq::<SourceView>::empty();
    assert(seq![fresh_source(text)] == one(text, 0, None));
    lemma_step_fresh(text, 0);
    lemma_step_fresh(text, p1);
    lemma_step_peeked(text, p2, r);
    lemma_step_fresh(text, p2);
    lemma_step_peeked(text, p3, sf);
    lemma_step_fresh(text, p3);
    lemma_trim_empty();
    lemma_measure_one(text, 0, None, e);
    lemma_measure_one(text, p2, Some(Some(r)), e);
    lemma_measure_one(text, p2, None, e);
    lemma_measure_one(text, p3, None, e);
    lemma_empty_measure(e);
    lemma_scaled_lt((n - p2 + 1) as nat, n as nat, w8);
    lemma_scaled_lt((n - p2) as nat, (n - p2 + 1) as nat, w8);
    lemma_scaled_lt((n - p3) as nat, (n - p2 + 1) as nat, w8);
    let cw = ExprView::Cmd(command_for(w, Seq::empty()));
    let red = redirect_expr(r, cw, f);
    assert(next_aliased(one(text, 0, None), e, Seq::empty()) == Some(
        (Some(sw), one(text, p1, None), Seq::<Seq<char>>::empty()),
    ));
    assert(consume_symbol(one(text, p1, None)) == (None::<Seq<char>>, one(text, p2, Some(Some(r)))));
    assert(collect_args(one(text, p1, None)) == Some((Seq::<Seq<char>>::empty(), one(text, p2, Some(Some(r))))));
    assert(consume_symbol(one(text, p2, None)) == (Some(f), one(text, p3, None)));
    assert(infix_loop(clean(one(text, p3, None)), e, 0, red) == Some((red, clean(empty))));
    assert(infix_loop(clean(one(text, p2, Some(Some(r)))), e, 0, cw) == Some((red, clean(empty))));
    assert(parse_prec(clean(one(text, 0, None)), e, 0) == Some((red, clean(empty))));
    assert(compile_loop(clean(empty), e, seq![red]) == Some((seq![red], clean(empty))));
}

} // verus!
