//! Token sources with one token of look-ahead, and the stack of sources that
//! alias expansion works on.
use vstd::prelude::*;
use crate::args::{opt_token_view, scan_token, lemma_scan_token_progress, Args, Token, TokenView};

verus! {

/// The state of a token source: the text, the tokenizer's position, and the
/// token already looked at (`Some(None)` when the look-ahead found the end).
pub struct SourceView {
    pub text: Seq<char>,
    pub pos: int,
    pub peeked: Option<Option<TokenView>>,
}

/// A source's position lies in its text.
pub open spec fn source_wf(s: SourceView) -> bool {
    0 <= s.pos <= s.text.len()
}

/// A source at the start of `text`.
pub open spec fn fresh_source(text: Seq<char>) -> SourceView {
    SourceView { text: text, pos: 0, peeked: None }
}

/// Takes the next token of a source.
pub open spec fn source_next(s: SourceView) -> (Option<TokenView>, SourceView) {
    match s.peeked {
        Some(t) => (t, SourceView { text: s.text, pos: s.pos, peeked: None }),
        None => {
            let (t, p) = scan_token(s.text, s.pos);
            (t, SourceView { text: s.text, pos: p, peeked: None })
        },
    }
}

/// Looks at the next token of a source without taking it.
pub open spec fn source_peek(s: SourceView) -> (Option<TokenView>, SourceView) {
    match s.peeked {
        Some(t) => (t, s),
        None => {
            let (t, p) = scan_token(s.text, s.pos);
            (t, SourceView { text: s.text, pos: p, peeked: Some(t) })
        },
    }
}

/// The source holds a looked-at token.
pub open spec fn holds_token(s: SourceView) -> bool {
    s.peeked matches Some(Some(_))
}

/// How much a source can still yield: its unread characters, plus one for a
/// token held in the look-ahead.
pub open spec fn source_rem(s: SourceView) -> nat {
    (s.text.len() - s.pos) as nat + if s.peeked matches Some(Some(_)) {
        1nat
    } else {
        0nat
    }
}

pub proof fn lemma_source_peek(s: SourceView)
    requires
        source_wf(s),
    ensures
        ({
            let (t, s2) = source_peek(s);
            &&& source_wf(s2)
            &&& s2.text == s.text
            &&& s2.peeked == Some(t)
            &&& source_rem(s2) <= source_rem(s)
            &&& source_peek(s2) == (t, s2)
            &&& source_next(s2) == (t, SourceView { text: s2.text, pos: s2.pos, peeked: None })
            &&& (t is Some ==> source_rem(SourceView { text: s2.text, pos: s2.pos, peeked: None })
                < source_rem(s))
        }),
{
    lemma_scan_token_progress(s.text, s.pos);
}

pub proof fn lemma_source_next(s: SourceView)
    requires
        source_wf(s),
    ensures
        ({
            let (t, s2) = source_next(s);
            &&& source_wf(s2)
            &&& s2.text == s.text
            &&& source_rem(s2) <= source_rem(s)
            &&& (t is Some ==> source_rem(s2) < source_rem(s))
        }),
{
    lemma_scan_token_progress(s.text, s.pos);
}

/// A token source with one token of look-ahead.
pub struct PeekableArgs {
    args: Args,
    peeked: Option<Option<Token>>,
}

impl View for PeekableArgs {
    type V = SourceView;

    closed spec fn view(&self) -> SourceView {
        SourceView {
            text: self.args.text(),
            pos: self.args.position(),
            peeked: match self.peeked {
                Some(t) => Some(opt_token_view(t)),
                None => None,
            },
        }
    }
}

impl PeekableArgs {
    /// The source is well formed.
    pub closed spec fn wf(&self) -> bool {
        self.args.wf()
    }

    pub proof fn lemma_wf(&self)
        requires
            self.wf(),
        ensures
            source_wf(self@),
    {
        self.args.lemma_wf();
    }

    /// A source over `args`, with nothing looked at yet.
    pub fn new(args: Args) -> (r: PeekableArgs)
        requires
            args.wf(),
        ensures
            r.wf(),
            r@ == (SourceView { text: args.text(), pos: args.position(), peeked: None }),
    {
        PeekableArgs { args, peeked: None }
    }

    /// Takes the next token.
    pub fn next(&mut self) -> (r: Option<Token>)
        requires
            old(self).wf(),
        ensures
            final(self).wf(),
            source_next(old(self)@) == (opt_token_view(r), final(self)@),
    {
        match self.peeked.take() {
            Some(t) => t,
            None => self.args.next_token(),
        }
    }

    /// Looks at the next token; the token returned is a copy of it.
    pub fn peek(&mut self) -> (r: Option<Token>)
        requires
            old(self).wf(),
        ensures
            final(self).wf(),
            source_peek(old(self)@) == (opt_token_view(r), final(self)@),
    {
        match &self.peeked {
            Some(t) => {
                let copy = match t {
                    Some(tok) => Some(tok.duplicate()),
                    None => None,
                };
                return copy;
            },
            None => {},
        }
        let t = self.args.next_token();
        let copy = match &t {
            Some(tok) => Some(tok.duplicate()),
            None => None,
        };
        self.peeked = Some(t);
        copy
    }
}

/// The weight of the unread part of the source at depth `11 - e`: `b` to the power `e`.
pub open spec fn weight(b: nat, e: nat) -> nat
    decreases e,
{
    if e == 0 {
        1
    } else {
        b * weight(b, (e - 1) as nat)
    }
}

/// A measure of what a stack of sources can still yield: the unread part of
/// each source, weighted so that one token taken from a source outweighs a
/// whole source of at most `b - 1` characters pushed on top of it.
pub open spec fn queue_measure(q: Seq<SourceView>, b: nat) -> nat
    decreases q.len(),
{
    if q.len() == 0 {
        0
    } else {
        queue_measure(q.drop_last(), b) + source_rem(q.last()) * weight(b, (11 - q.len()) as nat)
    }
}

/// Every source of the stack is well formed.
pub open spec fn queue_wf(q: Seq<SourceView>) -> bool {
    forall|i: int| 0 <= i < q.len() ==> #[trigger] source_wf(q[i])
}

/// Pops the exhausted sources off the top of the stack.
pub open spec fn trim_queue(q: Seq<SourceView>) -> Seq<SourceView>
    decreases q.len(),
{
    if q.len() == 0 {
        q
    } else {
        let (t, s) = source_peek(q.last());
        if t is None {
            trim_queue(q.drop_last())
        } else {
            q.drop_last().push(s)
        }
    }
}

/// Takes the next token of the top source that has one.
pub open spec fn queue_next(q: Seq<SourceView>) -> (Option<TokenView>, Seq<SourceView>) {
    let q1 = trim_queue(q);
    if q1.len() == 0 {
        (None, q1)
    } else {
        let (t, s) = source_next(q1.last());
        (t, q1.drop_last().push(s))
    }
}

/// Looks at the next token of the top source that has one.
pub open spec fn queue_peek(q: Seq<SourceView>) -> (Option<TokenView>, Seq<SourceView>) {
    let q1 = trim_queue(q);
    if q1.len() == 0 {
        (None, q1)
    } else {
        let (t, s) = source_peek(q1.last());
        (t, q1.drop_last().push(s))
    }
}

pub proof fn lemma_weight_positive(b: nat, e: nat)
    requires
        b >= 1,
    ensures
        weight(b, e) >= 1,
    decreases e,
{
    if e > 0 {
        lemma_weight_positive(b, (e - 1) as nat);
        let w = weight(b, (e - 1) as nat);
        assert(b * w >= 1) by (nonlinear_arith)
            requires
                b >= 1,
                w >= 1,
        ;
    }
}

/// Replacing the top source changes the measure by the change of its weighted rest.
pub proof fn lemma_measure_replace_last(q: Seq<SourceView>, s: SourceView, b: nat)
    requires
        q.len() > 0,
    ensures
        queue_measure(q.drop_last().push(s), b) == queue_measure(q.drop_last(), b) + source_rem(s)
            * weight(b, (11 - q.len()) as nat),
        queue_measure(q, b) == queue_measure(q.drop_last(), b) + source_rem(q.last()) * weight(
            b,
            (11 - q.len()) as nat,
        ),
{
    assert(q.drop_last().push(s).drop_last() =~= q.drop_last());
}

/// Replacing the top source by one with no more left does not raise the measure.
pub proof fn lemma_measure_replace_le(q: Seq<SourceView>, s: SourceView, b: nat)
    requires
        q.len() > 0,
        source_rem(s) <= source_rem(q.last()),
    ensures
        queue_measure(q.drop_last().push(s), b) <= queue_measure(q, b),
        source_rem(s) < source_rem(q.last()) ==> queue_measure(q.drop_last().push(s), b) + weight(
            b,
            (11 - q.len()) as nat,
        ) <= queue_measure(q, b),
{
    lemma_measure_replace_last(q, s, b);
    let w = weight(b, (11 - q.len()) as nat);
    let r1 = source_rem(s);
    let r2 = source_rem(q.last());
    assert(r1 * w <= r2 * w) by (nonlinear_arith)
        requires
            r1 <= r2,
    ;
    if r1 < r2 {
        assert(r1 * w + w <= r2 * w) by (nonlinear_arith)
            requires
                r1 < r2,
        ;
    }
}

pub proof fn lemma_trim_queue(q: Seq<SourceView>, b: nat)
    requires
        queue_wf(q),
    ensures
        ({
            let q1 = trim_queue(q);
            &&& queue_wf(q1)
            &&& queue_measure(q1, b) <= queue_measure(q, b)
            &&& q1.len() <= q.len()
            &&& q1.len() > 0 ==> holds_token(q1.last())
            &&& q1.len() > 0 ==> source_peek(q1.last()) == (q1.last().peeked.unwrap(), q1.last())
            &&& q1.len() > 0 ==> source_next(q1.last()) == (
                q1.last().peeked.unwrap(),
                SourceView { text: q1.last().text, pos: q1.last().pos, peeked: None },
            )
            &&& trim_queue(q1) == q1
        }),
    decreases q.len(),
{
    if q.len() > 0 {
        assert(source_wf(q[q.len() - 1]));
        lemma_source_peek(q.last());
        let (t, s) = source_peek(q.last());
        assert(queue_wf(q.drop_last())) by {
            assert forall|i: int| 0 <= i < q.drop_last().len() implies #[trigger] source_wf(
                q.drop_last()[i],
            ) by {
                assert(source_wf(q[i]));
            }
        }
        lemma_measure_replace_last(q, s, b);
        if t is None {
            lemma_trim_queue(q.drop_last(), b);
            let w = weight(b, (11 - q.len()) as nat);
            assert(source_rem(q.last()) * w >= 0) by (nonlinear_arith);
        } else {
            let q1 = q.drop_last().push(s);
            lemma_measure_replace_le(q, s, b);
            assert(queue_wf(q1)) by {
                assert forall|i: int| 0 <= i < q1.len() implies #[trigger] source_wf(q1[i]) by {
                    if i < q.len() - 1 {
                        assert(source_wf(q[i]));
                    }
                }
            }
            assert(q1.last() == s);
            assert(q1.drop_last() =~= q.drop_last());
        }
    }
}

/// Taking a token never raises the measure, and taking one lowers it by at
/// least the weight of the source it came from.
pub proof fn lemma_queue_next(q: Seq<SourceView>, b: nat)
    requires
        queue_wf(q),
    ensures
        ({
            let (t, q2) = queue_next(q);
            &&& queue_wf(q2)
            &&& queue_measure(q2, b) <= queue_measure(q, b)
            &&& q2.len() <= q.len()
            &&& t is Some ==> q2.len() > 0 && queue_measure(q2, b) + weight(b, (11 - q2.len()) as nat)
                <= queue_measure(q, b)
        }),
{
    lemma_trim_queue(q, b);
    let q1 = trim_queue(q);
    if q1.len() > 0 {
        assert(source_wf(q1[q1.len() - 1]));
        lemma_source_next(q1.last());
        let (t, s) = source_next(q1.last());
        let q2 = q1.drop_last().push(s);
        lemma_measure_replace_le(q1, s, b);
        assert(queue_wf(q2)) by {
            assert forall|i: int| 0 <= i < q2.len() implies #[trigger] source_wf(q2[i]) by {
                if i < q1.len() - 1 {
                    assert(source_wf(q1[i]));
                }
            }
        }
    }
}

/// Looking at a token never raises the measure, and looking twice changes nothing.
pub proof fn lemma_queue_peek(q: Seq<SourceView>, b: nat)
    requires
        queue_wf(q),
    ensures
        ({
            let (t, q2) = queue_peek(q);
            &&& queue_wf(q2)
            &&& queue_measure(q2, b) <= queue_measure(q, b)
            &&& q2.len() <= q.len()
            &&& queue_peek(q2) == (t, q2)
            &&& t is Some ==> q2.len() > 0 && q2.last().peeked == Some(t) && trim_queue(q2) == q2
            &&& t is Some ==> {
                let (t2, q3) = queue_next(q2);
                &&& t2 == t
                &&& queue_measure(q3, b) + weight(b, (11 - q3.len()) as nat) <= queue_measure(q, b)
                &&& queue_wf(q3)
                &&& q3.len() == q2.len()
            }
            &&& t is None ==> q2.len() == 0
        }),
{
    lemma_trim_queue(q, b);
    let q1 = trim_queue(q);
    if q1.len() > 0 {
        assert(source_wf(q1[q1.len() - 1]));
        lemma_source_peek(q1.last());
        let (t, s) = source_peek(q1.last());
        let q2 = q1.drop_last().push(s);
        assert(q2.drop_last() =~= q1.drop_last());
        assert(q2.last() == s);
        assert(q2 =~= q1);
        assert(queue_wf(q2));
        lemma_trim_queue(q2, b);
        let s3 = SourceView { text: s.text, pos: s.pos, peeked: None };
        let q3 = q2.drop_last().push(s3);
        lemma_measure_replace_le(q2, s3, b);
        assert(queue_wf(q3)) by {
            assert forall|i: int| 0 <= i < q3.len() implies #[trigger] source_wf(q3[i]) by {
                if i < q2.len() - 1 {
                    assert(source_wf(q2[i]));
                }
            }
        }
    }
}

/// A source of at most `b - 2` characters pushed on a stack of at most ten
/// sources weighs less than one token of the source below it.
pub proof fn lemma_push_fresh(q: Seq<SourceView>, text: Seq<char>, b: nat)
    requires
        q.len() <= 10,
        text.len() + 2 <= b,
    ensures
        queue_measure(q.push(fresh_source(text)), b) < queue_measure(q, b) + weight(
            b,
            (11 - q.len()) as nat,
        ),
{
    let q3 = q.push(fresh_source(text));
    assert(q3.drop_last() =~= q);
    let e = (10 - q.len()) as nat;
    assert((11 - q3.len()) as nat == e);
    assert(weight(b, (11 - q.len()) as nat) == b * weight(b, e));
    lemma_weight_positive(b, e);
    let w = weight(b, e);
    let n = text.len();
    assert(source_rem(fresh_source(text)) == n);
    assert(n * w < b * w) by (nonlinear_arith)
        requires
            n + 2 <= b,
            w >= 1,
    ;
}

} // verus!
