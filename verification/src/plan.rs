//! Running an expression: the order in which its commands are started,
//! its files opened and its pipes connected, as a program for a stack of
//! commands.
use vstd::prelude::*;
use crate::cmd::{Cmd, CmdView};
use crate::parser::{
    collect_args, compile_loop, compile_spec, consume_symbol, infix_loop, infix_precedence,
    measure_of, next_aliased, parse_prec, redirect_expr, AliasEntries, Expr, ExprView, ParseState,
};
use crate::args::TokenView;
use crate::cmd::command_for;
use crate::stream::{fresh_source, queue_next, queue_peek};
use crate::args::scan_all;
use crate::aliases::alias_lookup;
use crate::precedence::{clean, lemma_single_redirect};

verus! {

/// One step of running an expression.
#[derive(Debug)]
pub enum Step {
    /// Push this command.
    Start(Cmd),
    /// Send the standard output of the command on top to this file
    /// (appending, or truncating it first).
    RedirectStdout { path: String, append: bool },
    /// Send the standard error of the command on top to this file.
    RedirectStderr { path: String, append: bool },
    /// Pop the two commands on top, connect the output of the lower one to
    /// the input of the upper one, run the lower one to completion, and push
    /// the upper one back.
    Pipe,
}

/// The mathematical value of a step.
pub enum StepView {
    Start(CmdView),
    RedirectStdout(Seq<char>, bool),
    RedirectStderr(Seq<char>, bool),
    Pipe,
}

/// The view of a step.
pub open spec fn step_view(s: Step) -> StepView {
    match s {
        Step::Start(c) => StepView::Start(c@),
        Step::RedirectStdout { path, append } => StepView::RedirectStdout(path@, append),
        Step::RedirectStderr { path, append } => StepView::RedirectStderr(path@, append),
        Step::Pipe => StepView::Pipe,
    }
}

/// The views of a sequence of steps.
pub open spec fn step_views(v: Seq<Step>) -> Seq<StepView> {
    v.map_values(|s: Step| step_view(s))
}

/// Whether an expression holds an error placeholder.
pub open spec fn has_error(e: ExprView) -> bool
    decreases e,
{
    match e {
        ExprView::Cmd(_) => false,
        ExprView::OverwriteOutToFile(x, _) => has_error(*x),
        ExprView::AppendOutToFile(x, _) => has_error(*x),
        ExprView::OverwriteErrToFile(x, _) => has_error(*x),
        ExprView::AppendErrToFile(x, _) => has_error(*x),
        ExprView::Pipe(l, r) => has_error(*l) || has_error(*r),
        ExprView::Error => true,
    }
}

/// The steps that run an expression: the steps of the operands first, then
/// the operator's own step.
pub open spec fn plan_of(e: ExprView) -> Seq<StepView>
    decreases e,
{
    match e {
        ExprView::Cmd(c) => seq![StepView::Start(c)],
        ExprView::OverwriteOutToFile(x, f) => plan_of(*x).push(StepView::RedirectStdout(f, false)),
        ExprView::AppendOutToFile(x, f) => plan_of(*x).push(StepView::RedirectStdout(f, true)),
        ExprView::OverwriteErrToFile(x, f) => plan_of(*x).push(StepView::RedirectStderr(f, false)),
        ExprView::AppendErrToFile(x, f) => plan_of(*x).push(StepView::RedirectStderr(f, true)),
        ExprView::Pipe(l, r) => plan_of(*l) + plan_of(*r) + seq![StepView::Pipe],
        ExprView::Error => Seq::empty(),
    }
}

/// The number of commands on the stack after running `steps` from a stack
/// of `depth` commands; `None` if a step finds too few commands.
pub open spec fn stack_after(steps: Seq<StepView>, depth: int) -> Option<int>
    decreases steps.len(),
{
    if steps.len() == 0 {
        Some(depth)
    } else {
        let d = match steps[0] {
            StepView::Start(_) => Some(depth + 1),
            StepView::RedirectStdout(_, _) => if depth >= 1 {
                Some(depth)
            } else {
                None
            },
            StepView::RedirectStderr(_, _) => if depth >= 1 {
                Some(depth)
            } else {
                None
            },
            StepView::Pipe => if depth >= 2 {
                Some(depth - 1)
            } else {
                None
            },
        };
        match d {
            Some(d) => stack_after(steps.drop_first(), d),
            None => None,
        }
    }
}

proof fn lemma_stack_after_append(a: Seq<StepView>, b: Seq<StepView>, depth: int)
    ensures
        stack_after(a + b, depth) == match stack_after(a, depth) {
            Some(d) => stack_after(b, d),
            None => None,
        },
    decreases a.len(),
{
    if a.len() == 0 {
        assert(a + b =~= b);
    } else {
        assert((a + b).drop_first() =~= a.drop_first() + b);
        assert((a + b)[0] == a[0]);
        let d = match a[0] {
            StepView::Start(_) => Some(depth + 1),
            StepView::RedirectStdout(_, _) => if depth >= 1 {
                Some(depth)
            } else {
                None
            },
            StepView::RedirectStderr(_, _) => if depth >= 1 {
                Some(depth)
            } else {
                None
            },
            StepView::Pipe => if depth >= 2 {
                Some(depth - 1)
            } else {
                None
            },
        };
        match d {
            Some(d) => lemma_stack_after_append(a.drop_first(), b, d),
            None => {},
        }
    }
}

/// Running the plan of an expression without error placeholders on any
/// stack never finds too few commands, and leaves exactly one more command:
/// the one whose output ends the expression.
pub proof fn lemma_plan_leaves_one_command(e: ExprView, depth: int)
    requires
        !has_error(e),
        depth >= 0,
    ensures
        stack_after(plan_of(e), depth) == Some(depth + 1),
    decreases e,
{
    reveal_with_fuel(stack_after, 2);
    match e {
        ExprView::Cmd(c) => {
            assert(seq![StepView::Start(c)].drop_first() =~= Seq::<StepView>::empty());
        },
        ExprView::OverwriteOutToFile(x, f) => {
            let step = StepView::RedirectStdout(f, false);
            lemma_plan_leaves_one_command(*x, depth);
            assert(plan_of(*x).push(step) =~= plan_of(*x) + seq![step]);
            lemma_stack_after_append(plan_of(*x), seq![step], depth);
            assert(seq![step].drop_first() =~= Seq::<StepView>::empty());
        },
        ExprView::AppendOutToFile(x, f) => {
            let step = StepView::RedirectStdout(f, true);
            lemma_plan_leaves_one_command(*x, depth);
            assert(plan_of(*x).push(step) =~= plan_of(*x) + seq![step]);
            lemma_stack_after_append(plan_of(*x), seq![step], depth);
            assert(seq![step].drop_first() =~= Seq::<StepView>::empty());
        },
        ExprView::OverwriteErrToFile(x, f) => {
            let step = StepView::RedirectStderr(f, false);
            lemma_plan_leaves_one_command(*x, depth);
            assert(plan_of(*x).push(step) =~= plan_of(*x) + seq![step]);
            lemma_stack_after_append(plan_of(*x), seq![step], depth);
            assert(seq![step].drop_first() =~= Seq::<StepView>::empty());
        },
        ExprView::AppendErrToFile(x, f) => {
            let step = StepView::RedirectStderr(f, true);
            lemma_plan_leaves_one_command(*x, depth);
            assert(plan_of(*x).push(step) =~= plan_of(*x) + seq![step]);
            lemma_stack_after_append(plan_of(*x), seq![step], depth);
            assert(seq![step].drop_first() =~= Seq::<StepView>::empty());
        },
        ExprView::Pipe(l, r) => {
            lemma_plan_leaves_one_command(*l, depth);
            lemma_plan_leaves_one_command(*r, depth + 1);
            lemma_stack_after_append(plan_of(*l), plan_of(*r), depth);
            lemma_stack_after_append(plan_of(*l) + plan_of(*r), seq![StepView::Pipe], depth);
            assert(seq![StepView::Pipe].drop_first() =~= Seq::<StepView>::empty());
        },
        ExprView::Error => {},
    }
}

/// The steps that run `expr`, which holds no error placeholder.
pub fn execution_plan(expr: Expr) -> (r: Vec<Step>)
    requires
        !has_error(expr@),
    ensures
        step_views(r@) == plan_of(expr@),
    decreases expr,
{
    match expr {
        Expr::Cmd(cmd) => {
            let mut v = Vec::new();
            v.push(Step::Start(cmd));
            assert(step_views(v@) =~= plan_of(expr@));
            v
        },
        Expr::OverwriteOutToFile(inner, path) => {
            let mut v = execution_plan(*inner);
            let ghost before = v@;
            let s = Step::RedirectStdout { path, append: false };
            v.push(s);
            assert(step_views(v@) =~= step_views(before).push(step_view(s)));
            v
        },
        Expr::AppendOutToFile(inner, path) => {
            let mut v = execution_plan(*inner);
            let ghost before = v@;
            let s = Step::RedirectStdout { path, append: true };
            v.push(s);
            assert(step_views(v@) =~= step_views(before).push(step_view(s)));
            v
        },
        Expr::OverwriteErrToFile(inner, path) => {
            let mut v = execution_plan(*inner);
            let ghost before = v@;
            let s = Step::RedirectStderr { path, append: false };
            v.push(s);
            assert(step_views(v@) =~= step_views(before).push(step_view(s)));
            v
        },
        Expr::AppendErrToFile(inner, path) => {
            let mut v = execution_plan(*inner);
            let ghost before = v@;
            let s = Step::RedirectStderr { path, append: true };
            v.push(s);
            assert(step_views(v@) =~= step_views(before).push(step_view(s)));
            v
        },
        Expr::Pipe(lhs, rhs) => {
            let mut v = execution_plan(*lhs);
            let mut w = execution_plan(*rhs);
            let ghost a = v@;
            let ghost b = w@;
            v.append(&mut w);
            v.push(Step::Pipe);
            assert(step_views(v@) =~= step_views(a) + step_views(b) + seq![StepView::Pipe]);
            v
        },
        Expr::Error => {
            proof {
                assert(false);
            }
            Vec::new()
        },
    }
}

proof fn lemma_parse_prec_errors(st: ParseState, e: AliasEntries, min: nat)
    ensures
        parse_prec(st, e, min) matches Some((x, st2)) ==> st2.errors.len() >= st.errors.len() && (
        has_error(x) ==> st2.errors.len() > st.errors.len()),
    decreases measure_of(st.queue, e), 1nat,
{
    match next_aliased(st.queue, e, st.notes) {
        None => {},
        Some((t, q1, n1)) => match t {
            Some(TokenView::Symbol(name)) => match collect_args(q1) {
                None => {},
                Some((args, q2)) => if measure_of(q2, e) < measure_of(st.queue, e) {
                    lemma_infix_errors(
                        ParseState { queue: q2, errors: st.errors, notes: n1 },
                        e,
                        min,
                        ExprView::Cmd(command_for(name, args)),
                    );
                },
            },
            _ => {},
        },
    }
}

proof fn lemma_infix_errors(st: ParseState, e: AliasEntries, min: nat, lhs: ExprView)
    ensures
        infix_loop(st, e, min, lhs) matches Some((x, st2)) ==> st2.errors.len() >= st.errors.len() && (
        has_error(x) ==> has_error(lhs) || st2.errors.len() > st.errors.len()),
    decreases measure_of(st.queue, e), 0nat,
{
    let (t, q1) = queue_peek(st.queue);
    match t {
        Some(tok) => match infix_precedence(tok) {
            Some(prec) => if prec > min {
                let q2 = queue_next(q1).1;
                if measure_of(q2, e) < measure_of(st.queue, e) {
                    if tok is Pipe {
                        let st2 = ParseState { queue: q2, errors: st.errors, notes: st.notes };
                        lemma_parse_prec_errors(st2, e, 5);
                        match parse_prec(st2, e, 5) {
                            None => {},
                            Some((rhs, st3)) => if measure_of(st3.queue, e) < measure_of(st.queue, e) {
                                lemma_infix_errors(st3, e, min, ExprView::Pipe(Box::new(lhs), Box::new(rhs)));
                            },
                        }
                    } else {
                        let (f, q3) = consume_symbol(q2);
                        if measure_of(q3, e) < measure_of(st.queue, e) {
                            match f {
                                Some(file) => {
                                    lemma_infix_errors(
                                        ParseState { queue: q3, errors: st.errors, notes: st.notes },
                                        e,
                                        min,
                                        redirect_expr(tok, lhs, file),
                                    );
                                },
                                None => {
                                    lemma_infix_errors(
                                        ParseState {
                                            queue: q3,
                                            errors: st.errors.push(crate::parser::msg_redirect()),
                                            notes: st.notes,
                                        },
                                        e,
                                        min,
                                        ExprView::Error,
                                    );
                                },
                            }
                        }
                    }
                }
            },
            None => {},
        },
        None => {},
    }
}

proof fn lemma_compile_loop_errors(st: ParseState, e: AliasEntries, exprs: Seq<ExprView>)
    ensures
        compile_loop(st, e, exprs) matches Some((xs, st2)) ==> st2.errors.len() >= st.errors.len() && (
        (exists|i: int| 0 <= i < xs.len() && has_error(#[trigger] xs[i])) ==> (exists|j: int|
            0 <= j < exprs.len() && has_error(#[trigger] exprs[j])) || st2.errors.len()
            > st.errors.len()),
    decreases measure_of(st.queue, e),
{
    let (t, q1) = queue_peek(st.queue);
    match t {
        None => {},
        Some(tok) => if tok == TokenView::Symbol(seq!['\n']) {
            let q2 = queue_next(q1).1;
            if measure_of(q2, e) < measure_of(st.queue, e) {
                let st2 = ParseState { queue: q2, errors: st.errors, notes: st.notes };
                lemma_parse_prec_errors(st2, e, 0);
                match parse_prec(st2, e, 0) {
                    None => {},
                    Some((x, st3)) => if measure_of(st3.queue, e) < measure_of(st.queue, e) {
                        lemma_compile_loop_errors(st3, e, exprs.push(x));
                        if compile_loop(st3, e, exprs.push(x)) is Some {
                            let (xs, st4) = compile_loop(st3, e, exprs.push(x)).unwrap();
                            if exists|i: int| 0 <= i < xs.len() && has_error(#[trigger] xs[i]) {
                                if exists|j: int|
                                    0 <= j < exprs.push(x).len() && has_error(#[trigger] exprs.push(x)[j]) {
                                    let j = choose|j: int|
                                        0 <= j < exprs.push(x).len() && has_error(
                                            #[trigger] exprs.push(x)[j],
                                        );
                                    if j < exprs.len() {
                                        assert(exprs[j] == exprs.push(x)[j]);
                                    }
                                }
                            }
                        }
                    },
                }
            }
        } else {
            let xs = exprs.push(ExprView::Error);
            if exists|i: int| 0 <= i < xs.len() && has_error(#[trigger] xs[i]) {
                let i = choose|i: int| 0 <= i < xs.len() && has_error(#[trigger] xs[i]);
                if i < exprs.len() {
                    assert(exprs[i] == xs[i]);
                }
            }
        },
    }
}

/// A parse that reports no syntax error yields no error placeholder: every
/// expression it yields can be run.
pub proof fn lemma_compiled_without_errors(st: ParseState, e: AliasEntries)
    ensures
        compile_spec(st, e) matches Some((exprs, st2)) ==> (st2.errors.len() == 0 ==> forall|i: int|
            0 <= i < exprs.len() ==> !has_error(#[trigger] exprs[i])),
{
    lemma_parse_prec_errors(st, e, 0);
    match parse_prec(st, e, 0) {
        None => {},
        Some((x, st1)) => {
            lemma_compile_loop_errors(st1, e, seq![x]);
            if compile_spec(st, e) is Some {
                let (exprs, st2) = compile_spec(st, e).unwrap();
                if st2.errors.len() == 0 {
                    assert forall|i: int| 0 <= i < exprs.len() implies !has_error(#[trigger] exprs[i]) by {
                        if has_error(exprs[i]) {
                            assert(exists|k: int| 0 <= k < exprs.len() && has_error(#[trigger] exprs[k]));
                            if exists|j: int| 0 <= j < seq![x].len() && has_error(#[trigger] seq![x][j]) {
                                let j = choose|j: int| 0 <= j < seq![x].len() && has_error(#[trigger] seq![x][j]);
                                assert(seq![x][j] == x);
                            }
                        }
                    }
                }
            }
        },
    }
}

/// The plan of a redirection is the plan of its operand followed by
/// exactly one step: for `>` and `>>` a redirection of the standard output
/// of the command on top, for `2>` and `2>>` one of its standard error; the
/// file is truncated for `>` and `2>`, appended to for `>>` and `2>>`.
pub proof fn lemma_redirect_steps(x: ExprView, f: Seq<char>)
    ensures
        plan_of(ExprView::OverwriteOutToFile(Box::new(x), f)) == plan_of(x) + seq![
            StepView::RedirectStdout(f, false),
        ],
        plan_of(ExprView::AppendOutToFile(Box::new(x), f)) == plan_of(x) + seq![
            StepView::RedirectStdout(f, true),
        ],
        plan_of(ExprView::OverwriteErrToFile(Box::new(x), f)) == plan_of(x) + seq![
            StepView::RedirectStderr(f, false),
        ],
        plan_of(ExprView::AppendErrToFile(Box::new(x), f)) == plan_of(x) + seq![
            StepView::RedirectStderr(f, true),
        ],
{
    assert(plan_of(x).push(StepView::RedirectStdout(f, false)) =~= plan_of(x) + seq![StepView::RedirectStdout(f, false)]);
    assert(plan_of(x).push(StepView::RedirectStdout(f, true)) =~= plan_of(x) + seq![StepView::RedirectStdout(f, true)]);
    assert(plan_of(x).push(StepView::RedirectStderr(f, false)) =~= plan_of(x) + seq![StepView::RedirectStderr(f, false)]);
    assert(plan_of(x).push(StepView::RedirectStderr(f, true)) =~= plan_of(x) + seq![StepView::RedirectStderr(f, true)]);
}

/// From text to steps: a line whose tokens are a word `w` (no alias), a
/// redirection operator and a file name `f` parses into one expression,
/// whose plan starts `w` and then redirects the stream the operator names,
/// in the operator's mode.
pub proof fn lemma_single_redirect_plan(text: Seq<char>, w: Seq<char>, r: TokenView, f: Seq<char>, e: AliasEntries)
    requires
        !(r is Symbol),
        !(r is Pipe),
        scan_all(text, 0) == seq![TokenView::Symbol(w), r, TokenView::Symbol(f)],
        alias_lookup(e, w) is None,
    ensures
        compile_spec(clean(seq![fresh_source(text)]), e) matches Some((exprs, _)) && exprs.len() == 1
            && plan_of(exprs[0]) == seq![
            StepView::Start(command_for(w, Seq::empty())),
            match r {
                TokenView::OverwriteOutToFile => StepView::RedirectStdout(f, false),
                TokenView::AppendOutToFile => StepView::RedirectStdout(f, true),
                TokenView::OverwriteErrToFile => StepView::RedirectStderr(f, false),
                _ => StepView::RedirectStderr(f, true),
            },
        ],
{
    lemma_single_redirect(text, w, r, f, e);
    let cw = ExprView::Cmd(command_for(w, Seq::empty()));
    lemma_redirect_steps(cw, f);
    assert(plan_of(cw) == seq![StepView::Start(command_for(w, Seq::empty()))]);
    let x = compile_spec(clean(seq![fresh_source(text)]), e).unwrap().0[0];
    assert(seq![StepView::Start(command_for(w, Seq::empty()))] + seq![StepView::RedirectStdout(f, false)] =~= seq![StepView::Start(command_for(w, Seq::empty())), StepView::RedirectStdout(f, false)]);
    assert(seq![StepView::Start(command_for(w, Seq::empty()))] + seq![StepView::RedirectStdout(f, true)] =~= seq![StepView::Start(command_for(w, Seq::empty())), StepView::RedirectStdout(f, true)]);
    assert(seq![StepView::Start(command_for(w, Seq::empty()))] + seq![StepView::RedirectStderr(f, false)] =~= seq![StepView::Start(command_for(w, Seq::empty())), StepView::RedirectStderr(f, false)]);
    assert(seq![StepView::Start(command_for(w, Seq::empty()))] + seq![StepView::RedirectStderr(f, true)] =~= seq![StepView::Start(command_for(w, Seq::empty())), StepView::RedirectStderr(f, true)]);
}

} // verus!
