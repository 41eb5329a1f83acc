//! The leaves of a parsed tree, and the law that an error-free declaration's
//! leaves are exactly the tokens it consumed.
use vstd::prelude::*;
use crate::grammar::{
    expression_clean, is_trivia, parser_tokens, program_spec, significant, statement_clean,
    sync_declaration_spec, body_spec, climb_spec, declaration_spec, expect_spec, expression_spec,
    identifier_spec, parenthesized_spec, primary_spec, statement_spec, token_at,
};
use crate::lexer::{lemma_lexed_source_covered, lexed_tokens, WideToken};
use crate::utf8::byte_len;
use crate::span::{Span, Spanned};
use crate::tree::{
    binding_powers, operator_of, Expression, FatalParserError, FunctionView, ParsedNode, Statement,
};

verus! {

/// Spans of tokens `p` up to, not including, `q`.
pub open spec fn token_spans(t: Seq<Spanned<WideToken>>, p: int, q: int) -> Seq<Span> {
    t.subrange(p, q).map_values(|x: Spanned<WideToken>| x.span)
}

/// Spans of the single-token nodes of an expression, left to right.
pub open spec fn expression_leaves(n: ParsedNode<Expression>) -> Seq<Span>
    decreases n,
{
    match n.node {
        Ok(Expression::Binary(b)) => expression_leaves(*b.left) + seq![b.operator.span]
            + expression_leaves(*b.right),
        Ok(Expression::Parenthesized(p)) => seq![p.open_round.span] + expression_leaves(*p.inner)
            + seq![p.close_round.span],
        _ => seq![n.span],
    }
}

pub open spec fn statement_leaves(n: ParsedNode<Statement>) -> Seq<Span> {
    match n.node {
        Ok(Statement::Let(l)) => seq![l.introducer.span, l.identifier.span, l.equal.span]
            + expression_leaves(l.value),
        Err(_) => seq![n.span],
    }
}

pub open spec fn body_leaves(body: Seq<ParsedNode<Statement>>) -> Seq<Span>
    decreases body.len(),
{
    if body.len() == 0 {
        Seq::empty()
    } else {
        statement_leaves(body[0]) + body_leaves(body.drop_first())
    }
}

pub open spec fn body_clean(body: Seq<ParsedNode<Statement>>) -> bool {
    forall|i: int| 0 <= i < body.len() ==> statement_clean(#[trigger] body[i])
}

pub open spec fn function_leaves(f: FunctionView) -> Seq<Span> {
    seq![f.introducer.span, f.identifier.span, f.open_round.span, f.close_round.span]
        + body_leaves(f.body) + seq![f.end.span]
}

pub open spec fn function_clean(f: FunctionView) -> bool {
    &&& f.introducer.node is Ok
    &&& f.identifier.node is Ok
    &&& f.open_round.node is Ok
    &&& f.close_round.node is Ok
    &&& body_clean(f.body)
    &&& f.end.node is Ok
}

proof fn lemma_spans_split(t: Seq<Spanned<WideToken>>, p: int, m: int, q: int)
    requires
        0 <= p <= m <= q <= t.len(),
    ensures
        token_spans(t, p, q) == token_spans(t, p, m) + token_spans(t, m, q),
{
    assert(token_spans(t, p, q) =~= token_spans(t, p, m) + token_spans(t, m, q));
}

proof fn lemma_spans_one(t: Seq<Spanned<WideToken>>, p: int)
    requires
        0 <= p < t.len(),
    ensures
        token_spans(t, p, p + 1) == seq![t[p].span],
{
    assert(token_spans(t, p, p + 1) =~= seq![t[p].span]);
}

proof fn lemma_primary_leaves(t: Seq<Spanned<WideToken>>, p: int)
    requires
        0 <= p <= t.len(),
        primary_spec(t, p).0 is Ok,
        expression_clean(primary_spec(t, p).0->Ok_0),
    ensures
        p < primary_spec(t, p).1 <= t.len(),
        expression_leaves(primary_spec(t, p).0->Ok_0) == token_spans(t, p, primary_spec(t, p).1),
    decreases t.len() - p, 1int,
{
    let x = t[p];
    if x.value == WideToken::OpenRound {
        lemma_parenthesized_leaves(t, p);
    } else {
        lemma_spans_one(t, p);
    }
}

proof fn lemma_parenthesized_leaves(t: Seq<Spanned<WideToken>>, p: int)
    requires
        0 <= p < t.len(),
        parenthesized_spec(t, p).0 is Ok,
        expression_clean(parenthesized_spec(t, p).0->Ok_0),
    ensures
        p < parenthesized_spec(t, p).1 <= t.len(),
        expression_leaves(parenthesized_spec(t, p).0->Ok_0) == token_spans(
            t,
            p,
            parenthesized_spec(t, p).1,
        ),
    decreases t.len() - p, 0int,
{
    let (inner, p1) = expression_spec(t, p + 1, 0);
    lemma_expression_leaves(t, p + 1, 0);
    lemma_spans_one(t, p);
    lemma_spans_one(t, p1);
    lemma_spans_split(t, p, p + 1, p1);
    lemma_spans_split(t, p, p1, p1 + 1);
}

proof fn lemma_expression_leaves(t: Seq<Spanned<WideToken>>, p: int, min: u8)
    requires
        0 <= p <= t.len(),
        expression_spec(t, p, min).0 is Ok,
        expression_clean(expression_spec(t, p, min).0->Ok_0),
    ensures
        p < expression_spec(t, p, min).1 <= t.len(),
        expression_leaves(expression_spec(t, p, min).0->Ok_0) == token_spans(
            t,
            p,
            expression_spec(t, p, min).1,
        ),
    decreases t.len() - p, 2int,
{
    let (left, p1) = primary_spec(t, p);
    lemma_primary_clean_of_climb(t, p, min);
    lemma_primary_leaves(t, p);
    lemma_climb_leaves(t, p1, min, left->Ok_0, p);
}

/// An error-free expression starts with an error-free primary.
pub(crate) proof fn lemma_primary_clean_of_climb(t: Seq<Spanned<WideToken>>, p: int, min: u8)
    requires
        0 <= p <= t.len(),
        expression_spec(t, p, min).0 is Ok,
        expression_clean(expression_spec(t, p, min).0->Ok_0),
    ensures
        primary_spec(t, p).0 is Ok,
        expression_clean(primary_spec(t, p).0->Ok_0),
{
    let (left, p1) = primary_spec(t, p);
    if left is Ok && p < p1 <= t.len() {
        lemma_climb_keeps_left_clean(t, p1, min, left->Ok_0);
    }
}

proof fn lemma_climb_keeps_left_clean(
    t: Seq<Spanned<WideToken>>,
    q: int,
    min: u8,
    left: ParsedNode<Expression>,
)
    requires
        0 <= q <= t.len(),
        climb_spec(t, q, min, left).0 is Ok,
        expression_clean(climb_spec(t, q, min, left).0->Ok_0),
    ensures
        expression_clean(left),
    decreases t.len() - q,
{
    match token_at(t, q) {
        Some(x) => match operator_of(x.value) {
            Some(op) => if binding_powers(op).0 >= min {
                let (right, p2) = expression_spec(t, q + 1, binding_powers(op).1);
                if right is Ok && q < p2 <= t.len() {
                    let node = ParsedNode {
                        node: Ok(
                            Expression::Binary(
                                crate::tree::Binary {
                                    left: Box::new(left),
                                    operator: ParsedNode { node: Ok(op), span: x.span },
                                    right: Box::new(right->Ok_0),
                                },
                            ),
                        ),
                        span: Span { start: left.span.start, end: right->Ok_0.span.end },
                    };
                    lemma_climb_keeps_left_clean(t, p2, min, node);
                }
            },
            None => {},
        },
        None => {},
    }
}

proof fn lemma_climb_leaves(
    t: Seq<Spanned<WideToken>>,
    q: int,
    min: u8,
    left: ParsedNode<Expression>,
    p0: int,
)
    requires
        0 <= p0 < q <= t.len(),
        expression_leaves(left) == token_spans(t, p0, q),
        climb_spec(t, q, min, left).0 is Ok,
        expression_clean(climb_spec(t, q, min, left).0->Ok_0),
    ensures
        q <= climb_spec(t, q, min, left).1 <= t.len(),
        expression_leaves(climb_spec(t, q, min, left).0->Ok_0) == token_spans(
            t,
            p0,
            climb_spec(t, q, min, left).1,
        ),
    decreases t.len() - q, 3int,
{
    match token_at(t, q) {
        Some(x) => match operator_of(x.value) {
            Some(op) => if binding_powers(op).0 >= min {
                let (right, p2) = expression_spec(t, q + 1, binding_powers(op).1);
                let r = right->Ok_0;
                let node = ParsedNode {
                    node: Ok(
                        Expression::Binary(
                            crate::tree::Binary {
                                left: Box::new(left),
                                operator: ParsedNode { node: Ok(op), span: x.span },
                                right: Box::new(r),
                            },
                        ),
                    ),
                    span: Span { start: left.span.start, end: r.span.end },
                };
                if q < p2 <= t.len() {
                    lemma_climb_keeps_left_clean(t, p2, min, node);
                }
                lemma_expression_leaves(t, q + 1, binding_powers(op).1);
                lemma_spans_one(t, q);
                lemma_spans_split(t, p0, q, q + 1);
                lemma_spans_split(t, p0, q + 1, p2);
                assert(expression_leaves(node) =~= token_spans(t, p0, p2));
                lemma_climb_leaves(t, p2, min, node, p0);
            },
            None => {},
        },
        None => {},
    }
}

proof fn lemma_statement_leaves(t: Seq<Spanned<WideToken>>, p: int)
    requires
        0 <= p <= t.len(),
        statement_spec(t, p).0 is Ok,
        statement_clean(statement_spec(t, p).0->Ok_0),
    ensures
        p < statement_spec(t, p).1 <= t.len(),
        statement_leaves(statement_spec(t, p).0->Ok_0) == token_spans(t, p, statement_spec(t, p).1),
{
    let (identifier, p1) = identifier_spec(t, p + 1);
    let (equal, p2) = expect_spec(t, p1, WideToken::Equal);
    let (value, p3) = expression_spec(t, p2, 0);
    lemma_expression_leaves(t, p2, 0);
    lemma_spans_one(t, p);
    lemma_spans_one(t, p + 1);
    lemma_spans_one(t, p + 2);
    lemma_spans_split(t, p, p + 1, p + 2);
    lemma_spans_split(t, p, p + 2, p + 3);
    lemma_spans_split(t, p, p + 3, p3);
    assert(statement_leaves(statement_spec(t, p).0->Ok_0) =~= token_spans(t, p, p3));
}

proof fn lemma_body_leaves(t: Seq<Spanned<WideToken>>, p: int)
    requires
        0 <= p <= t.len(),
        body_spec(t, p).0 is Ok,
        body_clean(body_spec(t, p).0->Ok_0),
    ensures
        p <= body_spec(t, p).1 <= t.len(),
        body_leaves(body_spec(t, p).0->Ok_0) == token_spans(t, p, body_spec(t, p).1),
    decreases t.len() - p,
{
    if p < t.len() && t[p].value == WideToken::EndKeyword {
        assert(token_spans(t, p, p) =~= Seq::<Span>::empty());
    } else {
        let (statement, p1) = statement_spec(t, p);
        let body = body_spec(t, p).0->Ok_0;
        assert(body[0] == statement->Ok_0);
        lemma_statement_leaves(t, p);
        let rest = body_spec(t, p1);
        assert(rest.0->Ok_0 =~= body.drop_first());
        assert forall|i: int| 0 <= i < body.drop_first().len() implies statement_clean(
            #[trigger] body.drop_first()[i],
        ) by {
            assert(body.drop_first()[i] == body[i + 1]);
        }
        lemma_body_leaves(t, p1);
        lemma_spans_split(t, p, p1, rest.1);
    }
}

/// Round-trip span coverage: the leaves of a declaration parsed without any
/// error are, in order, exactly the spans of the tokens it consumed; no
/// significant token is skipped or used twice.
pub proof fn lemma_declaration_leaves(t: Seq<Spanned<WideToken>>, p: int)
    requires
        0 <= p <= t.len(),
        declaration_spec(t, p).0 matches Ok(parsed) && parsed.node matches Ok(f) && function_clean(f),
    ensures
        function_leaves(declaration_spec(t, p).0->Ok_0.node->Ok_0) == token_spans(
            t,
            p,
            declaration_spec(t, p).1,
        ),
        declaration_spec(t, p).0->Ok_0.span == (Span {
            start: function_leaves(declaration_spec(t, p).0->Ok_0.node->Ok_0)[0].start,
            end: function_leaves(declaration_spec(t, p).0->Ok_0.node->Ok_0).last().end,
        }),
{
    let (identifier, p1) = identifier_spec(t, p + 1);
    let (open_round, p2) = expect_spec(t, p1, WideToken::OpenRound);
    let (close_round, p3) = expect_spec(t, p2, WideToken::CloseRound);
    let (body, p4) = body_spec(t, p3);
    let (end, p5) = expect_spec(t, p4, WideToken::EndKeyword);
    let f = declaration_spec(t, p).0->Ok_0.node->Ok_0;
    assert(f.body == body->Ok_0);
    lemma_body_leaves(t, p3);
    lemma_spans_one(t, p);
    lemma_spans_one(t, p + 1);
    lemma_spans_one(t, p + 2);
    lemma_spans_one(t, p + 3);
    lemma_spans_one(t, p4);
    lemma_spans_split(t, p, p + 1, p + 2);
    lemma_spans_split(t, p, p + 2, p + 3);
    lemma_spans_split(t, p, p + 3, p + 4);
    lemma_spans_split(t, p, p + 4, p4);
    lemma_spans_split(t, p, p4, p5);
    assert(function_leaves(f) =~= token_spans(t, p, p5));
}

/// Spans follow each other with no gap and no overlap.
pub open spec fn contiguous(w: Seq<Spanned<WideToken>>) -> bool {
    forall|i: int| 0 <= i < w.len() - 1 ==> (#[trigger] w[i]).span.end == w[i + 1].span.start
}

/// Byte `b` lies in the span of an invisible or comment token of `w`.
pub open spec fn in_trivia(w: Seq<Spanned<WideToken>>, b: int) -> bool {
    exists|j: int|
        0 <= j < w.len() && is_trivia(w[j].value) && #[trigger] w[j].span.start <= b < w[j].span.end
}

pub proof fn lemma_significant_push(w: Seq<Spanned<WideToken>>, x: Spanned<WideToken>)
    ensures
        significant(w.push(x)) == if is_trivia(x.value) {
            significant(w)
        } else {
            significant(w).push(x)
        },
{
    reveal(Seq::filter);
    assert(w.push(x).drop_last() =~= w);
}

proof fn lemma_in_trivia_prefix(w: Seq<Spanned<WideToken>>, x: Spanned<WideToken>, b: int)
    requires
        in_trivia(w, b),
    ensures
        in_trivia(w.push(x), b),
{
    let j = choose|j: int|
        0 <= j < w.len() && is_trivia(w[j].value) && #[trigger] w[j].span.start <= b < w[j].span.end;
    assert(w.push(x)[j] == w[j]);
}

/// After the last significant token, the rest of `w` is invisible or comment
/// tokens.
proof fn lemma_trivia_tail(w: Seq<Spanned<WideToken>>)
    requires
        contiguous(w),
        significant(w).len() > 0,
    ensures
        forall|b: int|
            significant(w).last().span.end <= b < w.last().span.end ==> in_trivia(w, b),
    decreases w.len(),
{
    let v = w.drop_last();
    let x = w.last();
    assert(w =~= v.push(x));
    lemma_significant_push(v, x);
    if is_trivia(x.value) {
        assert(contiguous(v)) by {
            assert forall|i: int| 0 <= i < v.len() - 1 implies (#[trigger] v[i]).span.end == v[i
                + 1].span.start by {
                assert(v[i] == w[i] && v[i + 1] == w[i + 1]);
            }
        }
        lemma_trivia_tail(v);
        assert forall|b: int| significant(w).last().span.end <= b < w.last().span.end implies in_trivia(w, b) by {
            if b < x.span.start {
                assert(w[v.len() - 1] == v.last());
                lemma_in_trivia_prefix(v, x, b);
            } else {
                assert(w[w.len() - 1] == x);
            }
        }
    }
}

/// Between two consecutive significant tokens, every byte of a contiguous
/// token sequence lies in an invisible or comment token.
pub proof fn lemma_gaps_are_trivia(w: Seq<Spanned<WideToken>>)
    requires
        contiguous(w),
    ensures
        forall|k: int, b: int|
            0 <= k < significant(w).len() - 1 && (#[trigger] significant(w)[k]).span.end <= b
                < significant(w)[k + 1].span.start ==> #[trigger] in_trivia(w, b),
    decreases w.len(),
{
    if w.len() > 0 {
        let v = w.drop_last();
        let x = w.last();
        assert(w =~= v.push(x));
        lemma_significant_push(v, x);
        assert(contiguous(v)) by {
            assert forall|i: int| 0 <= i < v.len() - 1 implies (#[trigger] v[i]).span.end == v[i
                + 1].span.start by {
                assert(v[i] == w[i] && v[i + 1] == w[i + 1]);
            }
        }
        lemma_gaps_are_trivia(v);
        let t = significant(w);
        let u = significant(v);
        assert forall|k: int, b: int|
            0 <= k < t.len() - 1 && (#[trigger] t[k]).span.end <= b < t[k + 1].span.start implies #[trigger] in_trivia(
            w,
            b,
        ) by {
            if k < u.len() - 1 {
                assert(t[k] == u[k] && t[k + 1] == u[k + 1]);
                lemma_in_trivia_prefix(v, x, b);
            } else {
                assert(!is_trivia(x.value));
                assert(t[k] == u.last() && t[k + 1] == x);
                assert(w[v.len() - 1] == v.last());
                lemma_trivia_tail(v);
                lemma_in_trivia_prefix(v, x, b);
            }
        }
    }
}

/// Round-trip span coverage of source text. When the declaration at
/// position `p` of the parser's tokens parses with no error anywhere, its
/// leaves are, in order, the spans of the tokens it consumed, and every byte
/// between two consecutive leaves lies in an invisible or comment token: the
/// leaves and those tokens together make up the consumed slice of source.
pub proof fn lemma_source_span_coverage(source: Seq<char>, p: int)
    requires
        byte_len(source) <= usize::MAX,
        0 <= p <= parser_tokens(source).len(),
        declaration_spec(parser_tokens(source), p).0 matches Ok(parsed) && parsed.node matches Ok(f)
            && function_clean(f),
    ensures
        function_leaves(declaration_spec(parser_tokens(source), p).0->Ok_0.node->Ok_0)
            == token_spans(parser_tokens(source), p, declaration_spec(parser_tokens(source), p).1),
        forall|k: int, b: int|
            p <= k < declaration_spec(parser_tokens(source), p).1 - 1 && (#[trigger] parser_tokens(
                source,
            )[k]).span.end <= b < parser_tokens(source)[k + 1].span.start ==> #[trigger] in_trivia(
                lexed_tokens(source),
                b,
            ),
{
    let t = parser_tokens(source);
    lemma_declaration_leaves(t, p);
    lemma_lexed_source_covered(source);
    lemma_gaps_are_trivia(lexed_tokens(source));
}

/// Item `d` of the parser's output is the declaration parsed at token `p`.
pub open spec fn parsed_at(
    t: Seq<Spanned<WideToken>>,
    d: Result<ParsedNode<FunctionView>, FatalParserError>,
    p: int,
) -> bool {
    0 <= p < t.len() && declaration_spec(t, p).0 == d
}

pub open spec fn parsed_somewhere(
    t: Seq<Spanned<WideToken>>,
    d: Result<ParsedNode<FunctionView>, FatalParserError>,
) -> bool {
    exists|p: int| #[trigger] parsed_at(t, d, p)
}

/// Every item of the parser's output is the declaration parsed at some token
/// position.
pub proof fn lemma_program_items(t: Seq<Spanned<WideToken>>, q: int)
    requires
        0 <= q <= t.len(),
    ensures
        forall|i: int|
            0 <= i < program_spec(t, q).len() ==> #[trigger] parsed_somewhere(t, program_spec(t, q)[i]),
    decreases t.len() - q,
{
    if q < t.len() {
        let (declaration, p1) = declaration_spec(t, q);
        let p2 = if declaration is Err {
            sync_declaration_spec(t, p1)
        } else {
            p1
        };
        assert(parsed_at(t, declaration, q));
        assert(parsed_somewhere(t, declaration));
        if q < p2 <= t.len() {
            lemma_program_items(t, p2);
            assert forall|i: int| 0 <= i < program_spec(t, q).len() implies #[trigger] parsed_somewhere(
                t,
                program_spec(t, q)[i],
            ) by {
                if i > 0 {
                    assert(program_spec(t, q)[i] == program_spec(t, p2)[i - 1]);
                    assert(parsed_somewhere(t, program_spec(t, p2)[i - 1]));
                }
            }
        } else {
            assert(parsed_somewhere(t, program_spec(t, q)[0]));
        }
    }
}

/// Round-trip span coverage of the parsed output of source text: item `i` of
/// what the front end returns for `source`, when it is a declaration with no
/// error anywhere, was parsed at some token position, and from any such
/// position its leaves are the consumed tokens' spans, in order, with only
/// invisible and comment text between them.
pub proof fn lemma_output_span_coverage(source: Seq<char>, i: int)
    requires
        byte_len(source) <= usize::MAX,
        0 <= i < program_spec(parser_tokens(source), 0).len(),
        program_spec(parser_tokens(source), 0)[i] matches Ok(parsed) && parsed.node matches Ok(f)
            && function_clean(f),
    ensures
        parsed_somewhere(parser_tokens(source), program_spec(parser_tokens(source), 0)[i]),
        forall|p: int|
            #[trigger] parsed_at(parser_tokens(source), program_spec(parser_tokens(source), 0)[i], p) ==> {
                let d = program_spec(parser_tokens(source), 0)[i]->Ok_0;
                let q = declaration_spec(parser_tokens(source), p).1;
                &&& function_leaves(d.node->Ok_0) == token_spans(parser_tokens(source), p, q)
                &&& d.span.start == function_leaves(d.node->Ok_0)[0].start
                &&& d.span.end == function_leaves(d.node->Ok_0).last().end
                &&& forall|k: int, b: int|
                    p <= k < q - 1 && (#[trigger] parser_tokens(source)[k]).span.end <= b
                        < parser_tokens(source)[k + 1].span.start ==> #[trigger] in_trivia(
                        lexed_tokens(source),
                        b,
                    )
            },
{
    let t = parser_tokens(source);
    lemma_program_items(t, 0);
    assert forall|p: int| #[trigger] parsed_at(t, program_spec(t, 0)[i], p) implies {
        let d = program_spec(t, 0)[i]->Ok_0;
        let q = declaration_spec(t, p).1;
        &&& function_leaves(d.node->Ok_0) == token_spans(t, p, q)
        &&& d.span.start == function_leaves(d.node->Ok_0)[0].start
        &&& d.span.end == function_leaves(d.node->Ok_0).last().end
        &&& forall|k: int, b: int|
            p <= k < q - 1 && (#[trigger] t[k]).span.end <= b < t[k + 1].span.start ==> #[trigger] in_trivia(
                lexed_tokens(source),
                b,
            )
    } by {
        lemma_source_span_coverage(source, p);
        lemma_declaration_leaves(t, p);
    }
}

} // verus!
