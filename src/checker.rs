//! Flattens the errors embedded in parsed declarations into a list, in
//! source order.
use vstd::prelude::*;
use crate::grammar::{
    at_boundary, body_spec, expression_clean, expression_spec, is_statement_boundary, mismatch, statement_clean, statement_spec,
    sync_statement_spec,
};
use crate::lexer::WideToken;
use crate::span::{IntoSpanned, Span, Spanned};
use crate::utf8::{char_width, chars_of, width};
use vstd::string::StrSliceExecFns;
use crate::tree::{
    declaration_view, declaration_views, Declaration, Expression, FatalParserError, Function, FunctionView, NodeError,
    ParsedNode, Statement,
};

verus! {

/// One error found in the tree.
#[derive(Debug, Clone, Copy, PartialEq, Eq)]
pub enum Report {
    /// An error held by a node, with the node's span.
    Node(Spanned<NodeError>),
    /// An error that stopped a declaration; it has no span.
    Fatal(FatalParserError),
}

/// The report of a node that holds an error, if it does.
pub open spec fn slot_reports<T>(n: ParsedNode<T>) -> Seq<Report> {
    match n.node {
        Err(e) => seq![Report::Node(Spanned { value: e, span: n.span })],
        Ok(_) => Seq::empty(),
    }
}

pub open spec fn expression_reports(n: ParsedNode<Expression>) -> Seq<Report>
    decreases n,
{
    match n.node {
        Err(e) => seq![Report::Node(Spanned { value: e, span: n.span })],
        Ok(Expression::Binary(b)) => expression_reports(*b.left) + slot_reports(b.operator)
            + expression_reports(*b.right),
        Ok(Expression::Parenthesized(p)) => slot_reports(p.open_round) + expression_reports(*p.inner)
            + slot_reports(p.close_round),
        Ok(_) => Seq::empty(),
    }
}

pub open spec fn statement_reports(n: ParsedNode<Statement>) -> Seq<Report> {
    match n.node {
        Err(e) => seq![Report::Node(Spanned { value: e, span: n.span })],
        Ok(Statement::Let(l)) => slot_reports(l.introducer) + slot_reports(l.identifier)
            + slot_reports(l.equal) + expression_reports(l.value),
    }
}

pub open spec fn body_reports(body: Seq<ParsedNode<Statement>>) -> Seq<Report>
    decreases body.len(),
{
    if body.len() == 0 {
        Seq::empty()
    } else {
        body_reports(body.drop_last()) + statement_reports(body.last())
    }
}

pub open spec fn function_reports(f: FunctionView) -> Seq<Report> {
    slot_reports(f.introducer) + slot_reports(f.identifier) + slot_reports(f.open_round)
        + slot_reports(f.close_round) + body_reports(f.body) + slot_reports(f.end)
}

pub open spec fn declaration_reports(r: Result<ParsedNode<FunctionView>, FatalParserError>) -> Seq<
    Report,
> {
    match r {
        Err(f) => seq![Report::Fatal(f)],
        Ok(parsed) => match parsed.node {
            Err(e) => seq![Report::Node(Spanned { value: e, span: parsed.span })],
            Ok(f) => function_reports(f),
        },
    }
}

/// Every error of every declaration, declaration by declaration.
pub open spec fn program_reports(
    tree: Seq<Result<ParsedNode<FunctionView>, FatalParserError>>,
) -> Seq<Report>
    decreases tree.len(),
{
    if tree.len() == 0 {
        Seq::empty()
    } else {
        program_reports(tree.drop_last()) + declaration_reports(tree.last())
    }
}

pub proof fn lemma_clean_expression_reports(n: ParsedNode<Expression>)
    requires
        expression_clean(n),
    ensures
        expression_reports(n) == Seq::<Report>::empty(),
    decreases n,
{
    match n.node {
        Ok(Expression::Binary(b)) => {
            lemma_clean_expression_reports(*b.left);
            lemma_clean_expression_reports(*b.right);
            assert(expression_reports(n) =~= Seq::<Report>::empty());
        },
        Ok(Expression::Parenthesized(p)) => {
            lemma_clean_expression_reports(*p.inner);
            assert(expression_reports(n) =~= Seq::<Report>::empty());
        },
        _ => {},
    }
}

/// Error locality: in `let x ? e` with an error-free expression `e`, where
/// the token in place of `=` is any other token but `let` or `end`, the statement is still a
/// `let` whose equals slot alone holds an error, it is the only error
/// reported, and when a `let` or `end` follows, parsing resumes right there,
/// as it would with no error.
pub proof fn lemma_error_locality(t: Seq<Spanned<WideToken>>, p: int)
    requires
        0 <= p,
        p + 3 <= t.len(),
        t[p].value == WideToken::LetKeyword,
        t[p + 1].value == WideToken::Identifier,
        t[p + 2].value != WideToken::Equal,
        !is_statement_boundary(t[p + 2].value),
        expression_spec(t, p + 3, 0).0 is Ok,
        expression_clean(expression_spec(t, p + 3, 0).0->Ok_0),
        p + 3 < expression_spec(t, p + 3, 0).1 < t.len(),
        is_statement_boundary(t[expression_spec(t, p + 3, 0).1].value),
    ensures
        statement_spec(t, p).0 matches Ok(parsed) && parsed.node matches Ok(Statement::Let(l)) && l.equal.node
            == Err::<WideToken, NodeError>(mismatch(t[p + 2].value)) && l.identifier.node is Ok
            && expression_clean(l.value),
        statement_reports(statement_spec(t, p).0->Ok_0) == seq![
            Report::Node(Spanned { value: mismatch(t[p + 2].value), span: t[p + 2].span }),
        ],
        statement_spec(t, p).1 == expression_spec(t, p + 3, 0).1,
        sync_statement_spec(t, statement_spec(t, p).1) == statement_spec(t, p).1,
{
    let (value, q) = expression_spec(t, p + 3, 0);
    lemma_clean_expression_reports(value->Ok_0);
    assert(!at_boundary(t, p + 3)) by {
        crate::leaves::lemma_primary_clean_of_climb(t, p + 3, 0);
    }
    let parsed = statement_spec(t, p).0->Ok_0;
    assert(statement_reports(parsed) =~= seq![
        Report::Node(Spanned { value: mismatch(t[p + 2].value), span: t[p + 2].span }),
    ]);
}

/// Synchronization bound: in `let ? end`, where the token in place of the
/// identifier is neither an identifier nor a `let` or `end`, the statement
/// takes that one token, fails with exactly one error, and leaves the `end`
/// unconsumed; the body is then that one failed statement and parsing
/// resumes at the `end`.
pub proof fn lemma_synchronization_bound(t: Seq<Spanned<WideToken>>, p: int)
    requires
        0 <= p,
        p + 3 <= t.len(),
        t[p].value == WideToken::LetKeyword,
        t[p + 1].value != WideToken::Identifier,
        !is_statement_boundary(t[p + 1].value),
        t[p + 2].value == WideToken::EndKeyword,
    ensures
        statement_spec(t, p) == (
            Ok::<ParsedNode<Statement>, FatalParserError>(
                ParsedNode { node: Err(mismatch(t[p + 1].value)), span: t[p + 1].span },
            ),
            p + 2,
        ),
        statement_reports(statement_spec(t, p).0->Ok_0) == seq![
            Report::Node(Spanned { value: mismatch(t[p + 1].value), span: t[p + 1].span }),
        ],
        body_spec(t, p) == (
            Ok::<Seq<ParsedNode<Statement>>, FatalParserError>(seq![statement_spec(t, p).0->Ok_0]),
            p + 2,
        ),
{
    let statement = statement_spec(t, p).0->Ok_0;
    assert(!statement_clean(statement));
    assert(sync_statement_spec(t, p + 2) == p + 2);
    assert(body_spec(t, p + 2) == (Ok::<Seq<ParsedNode<Statement>>, FatalParserError>(Seq::empty()), p + 2));
    assert(seq![statement] + Seq::<ParsedNode<Statement>>::empty() =~= seq![statement]);
}

/// Number of whole characters of `s` within its first `bytes` bytes.
pub open spec fn chars_within(s: Seq<char>, bytes: int) -> nat
    decreases s.len(),
{
    if s.len() > 0 && width(s[0]) <= bytes {
        1 + chars_within(s.drop_first(), bytes - width(s[0]))
    } else {
        0
    }
}

/// Start of the line that holds character `i`.
pub open spec fn line_start(s: Seq<char>, i: int) -> int
    decreases i,
{
    if i <= 0 || s[i - 1] == '\n' {
        i
    } else {
        line_start(s, i - 1)
    }
}

/// End of the line that holds character `i`, before its newline.
pub open spec fn line_end(s: Seq<char>, i: int) -> int
    decreases s.len() - i,
{
    if i >= s.len() || s[i] == '\n' {
        i
    } else {
        line_end(s, i + 1)
    }
}

/// The whole lines of `s` that `span` touches, without the final newline.
pub open spec fn preview_of(s: Seq<char>, span: Span) -> Seq<char> {
    s.subrange(
        line_start(s, chars_within(s, span.start as int) as int),
        line_end(s, chars_within(s, span.end as int) as int),
    )
}

pub proof fn lemma_chars_within_bounds(s: Seq<char>, a: int, b: int)
    requires
        a <= b,
    ensures
        chars_within(s, a) <= chars_within(s, b),
        chars_within(s, b) <= s.len(),
    decreases s.len(),
{
    if s.len() > 0 {
        lemma_chars_within_bounds(s.drop_first(), a - width(s[0]), b - width(s[0]));
    }
}

pub proof fn lemma_line_bounds(s: Seq<char>, i: int)
    requires
        0 <= i <= s.len(),
    ensures
        0 <= line_start(s, i) <= i,
        i <= line_end(s, i) <= s.len(),
    decreases s.len() - i,
{
    lemma_line_start_bound(s, i);
    if i < s.len() && s[i] != '\n' {
        lemma_line_bounds(s, i + 1);
    }
}

proof fn lemma_line_start_bound(s: Seq<char>, i: int)
    requires
        0 <= i <= s.len(),
    ensures
        0 <= line_start(s, i) <= i,
    decreases i,
{
    if i > 0 && s[i - 1] != '\n' {
        lemma_line_start_bound(s, i - 1);
    }
}

impl Report {
    /// The source lines around the reported span, for display.
    pub fn preview(&self, source: &str) -> (r: String)
        requires
            self matches Report::Node(e) && e.span.start <= e.span.end,
        ensures
            r@ == preview_of(source@, self->Node_0.span),
    {
        let span = match self {
            Report::Node(error) => error.span,
            Report::Fatal(_) => Span { start: 0, end: 0 },
        };
        let chars = chars_of(source);
        let first = Self::chars_within(&chars, span.start);
        let last = Self::chars_within(&chars, span.end);
        proof {
            lemma_chars_within_bounds(chars@, span.start as int, span.end as int);
        }
        let mut start = first;
        while start > 0 && chars[start - 1] != '\n'
            invariant
                start <= first <= chars@.len(),
                line_start(chars@, first as int) == line_start(chars@, start as int),
            decreases start,
        {
            start = start - 1;
        }
        let mut end = last;
        while end < chars.len() && chars[end] != '\n'
            invariant
                last <= end <= chars@.len(),
                line_end(chars@, last as int) == line_end(chars@, end as int),
            decreases chars.len() - end,
        {
            end = end + 1;
        }
        source.substring_char(start, end).to_owned()
    }

    /// Pairs the report with the source text it is about.
    pub fn with_preview(self, source: &str) -> (r: FullReport)
        ensures
            r.report == self,
            r.source@ == source@,
    {
        FullReport::new(self, source)
    }

    fn chars_within(chars: &Vec<char>, bytes: usize) -> (r: usize)
        ensures
            r == chars_within(chars@, bytes as int),
    {
        let mut i: usize = 0;
        let mut used: usize = 0;
        assert(chars@.skip(0) =~= chars@);
        while i < chars.len() && char_width(chars[i]) <= bytes - used
            invariant
                i <= chars@.len(),
                used <= bytes,
                chars_within(chars@, bytes as int) == i + chars_within(
                    chars@.skip(i as int),
                    bytes - used,
                ),
            decreases chars.len() - i,
        {
            let w = char_width(chars[i]);
            proof {
                assert(chars@.skip(i as int).drop_first() =~= chars@.skip(i + 1));
            }
            used = used + w;
            i = i + 1;
        }
        i
    }
}

/// A report together with the source text, from which its lines are shown.
pub struct FullReport {
    pub report: Report,
    pub source: String,
}

impl FullReport {
    pub fn new(report: Report, source: &str) -> (r: FullReport)
        ensures
            r.report == report,
            r.source@ == source@,
    {
        FullReport { report, source: source.to_owned() }
    }
}

/// Collects the errors of a parsed tree.
pub struct ErrorUnroller;

impl ErrorUnroller {
    /// Every error in `tree`, in the order in which it appears.
    pub fn unroll(tree: Vec<Result<ParsedNode<Declaration>, FatalParserError>>) -> (r: Vec<Report>)
        ensures
            r@ == program_reports(declaration_views(tree@)),
    {
        let ghost views = declaration_views(tree@);
        let mut pool: Vec<Report> = Vec::new();
        let mut i: usize = 0;
        assert(views.take(0) =~= Seq::<Result<ParsedNode<FunctionView>, FatalParserError>>::empty());
        while i < tree.len()
            invariant
                i <= tree.len(),
                views == declaration_views(tree@),
                pool@ == program_reports(views.take(i as int)),
            decreases tree.len() - i,
        {
            Self::unroll_declaration(&tree[i], &mut pool);
            proof {
                assert(views.take(i + 1).drop_last() =~= views.take(i as int));
            }
            i = i + 1;
        }
        assert(views.take(tree.len() as int) =~= views);
        pool
    }

    fn unroll_declaration(
        declaration: &Result<ParsedNode<Declaration>, FatalParserError>,
        pool: &mut Vec<Report>,
    )
        ensures
            final(pool)@ == old(pool)@ + declaration_reports(declaration_view(*declaration)),
    {
        match declaration {
            Ok(parsed) => match &parsed.node {
                Ok(Declaration::Function(function)) => Self::unroll_function(function, pool),
                Err(e) => {
                    pool.push(Report::Node((*e).into_spanned(parsed.span)));
                },
            },
            Err(error) => {
                pool.push(Report::Fatal(*error));
            },
        }
    }

    fn unroll_function(function: &Function, pool: &mut Vec<Report>)
        ensures
            final(pool)@ == old(pool)@ + function_reports(function.view()),
    {
        let ghost start = pool@;
        Self::unroll_slot(&function.introducer, pool);
        Self::unroll_slot(&function.identifier, pool);
        Self::unroll_slot(&function.open_round, pool);
        Self::unroll_slot(&function.close_round, pool);
        let ghost before_body = pool@;
        let mut i: usize = 0;
        assert(function.body@.take(0) =~= Seq::<ParsedNode<Statement>>::empty());
        while i < function.body.len()
            invariant
                i <= function.body.len(),
                pool@ == before_body + body_reports(function.body@.take(i as int)),
            decreases function.body.len() - i,
        {
            Self::unroll_statement(&function.body[i], pool);
            proof {
                assert(function.body@.take(i + 1).drop_last() =~= function.body@.take(i as int));
            }
            i = i + 1;
        }
        assert(function.body@.take(function.body.len() as int) =~= function.body@);
        Self::unroll_slot(&function.end, pool);
        assert(pool@ =~= start + function_reports(function.view()));
    }

    fn unroll_statement(statement: &ParsedNode<Statement>, pool: &mut Vec<Report>)
        ensures
            final(pool)@ == old(pool)@ + statement_reports(*statement),
    {
        match &statement.node {
            Ok(Statement::Let(let_)) => {
                let ghost start = pool@;
                Self::unroll_slot(&let_.introducer, pool);
                Self::unroll_slot(&let_.identifier, pool);
                Self::unroll_slot(&let_.equal, pool);
                Self::unroll_expression(&let_.value, pool);
                assert(pool@ =~= start + statement_reports(*statement));
            },
            Err(e) => {
                pool.push(Report::Node((*e).into_spanned(statement.span)));
            },
        }
    }

    fn unroll_expression(expression: &ParsedNode<Expression>, pool: &mut Vec<Report>)
        ensures
            final(pool)@ == old(pool)@ + expression_reports(*expression),
        decreases *expression,
    {
        let ghost start = pool@;
        match &expression.node {
            Ok(Expression::Binary(binary)) => {
                Self::unroll_expression(&binary.left, pool);
                Self::unroll_slot(&binary.operator, pool);
                Self::unroll_expression(&binary.right, pool);
                assert(pool@ =~= start + expression_reports(*expression));
            },
            Ok(Expression::Parenthesized(parenthesized)) => {
                Self::unroll_slot(&parenthesized.open_round, pool);
                Self::unroll_expression(&parenthesized.inner, pool);
                Self::unroll_slot(&parenthesized.close_round, pool);
                assert(pool@ =~= start + expression_reports(*expression));
            },
            Ok(_) => {
                assert(pool@ =~= start + expression_reports(*expression));
            },
            Err(e) => {
                pool.push(Report::Node((*e).into_spanned(expression.span)));
            },
        }
    }

    fn unroll_slot<T>(slot: &ParsedNode<T>, pool: &mut Vec<Report>)
        ensures
            final(pool)@ == old(pool)@ + slot_reports(*slot),
    {
        match &slot.node {
            Ok(_) => {
                assert(old(pool)@ + slot_reports(*slot) =~= old(pool)@);
            },
            Err(e) => {
                pool.push(Report::Node((*e).into_spanned(slot.span)));
            },
        }
    }
}

/// Checks a parsed tree and reports its errors.
pub struct TreeChecker;

impl TreeChecker {
    /// Every error in `tree`, in the order in which it appears.
    pub fn check(tree: Vec<Result<ParsedNode<Declaration>, FatalParserError>>) -> (r: Vec<Report>)
        ensures
            r@ == program_reports(declaration_views(tree@)),
    {
        ErrorUnroller::unroll(tree)
    }
}

} // verus!
