use crate::errors::{diagnostic_views, token_diagnostic, token_error, Diagnostic, DiagnosticView};
use crate::lexer::{render, Expression, ExpressionView, Literal, LiteralView};
use crate::scan::{lemma_first_literal_rescans, scan};
use crate::tokens::{literal_type, token_views, Token, TokenType, TokenView};
use std::rc::Rc;
use vstd::prelude::*;

verus! {

/// What a grammar rule does from a position: the tree it builds (none when it fails), how
/// many tokens it consumes, and the diagnostics it reports.
pub struct ParseResult {
    pub expr: Option<ExpressionView>,
    pub used: nat,
    pub diagnostics: Seq<DiagnosticView>,
}

pub open spec fn parse_failure(used: nat, diagnostics: Seq<DiagnosticView>) -> ParseResult {
    ParseResult { expr: None, used, diagnostics }
}

/// The operators of a binary precedence level: 1 factor, 2 term, 3 comparison, 4 equality.
pub open spec fn level_operator(level: nat, t: TokenType) -> bool {
    if level == 1 {
        t == TokenType::Slash || t == TokenType::Star
    } else if level == 2 {
        t == TokenType::Minus || t == TokenType::Plus
    } else if level == 3 {
        t == TokenType::Greater || t == TokenType::GreaterEqual || t == TokenType::Less || t
            == TokenType::LessEqual
    } else {
        t == TokenType::BangEqual || t == TokenType::EqualEqual
    }
}

/// The number of tokens from position `p` to the end.
pub open spec fn remaining(t: Seq<TokenView>, p: int) -> nat {
    if p < t.len() {
        (t.len() - p) as nat
    } else {
        0
    }
}

/// primary → NUMBER | STRING | "true" | "false" | "nil" | "(" expression ")"
pub open spec fn parse_primary(t: Seq<TokenView>, p: int) -> ParseResult
    decreases remaining(t, p), 0nat,
{
    if p < 0 || p >= t.len() {
        parse_failure(0, Seq::empty())
    } else {
        let tok = t[p];
        let k = tok.token_type;
        if k == TokenType::False || k == TokenType::True || k == TokenType::Nil {
            ParseResult {
                expr: Some(ExpressionView::Literal(LiteralView::Keyword(tok))),
                used: 1,
                diagnostics: Seq::empty(),
            }
        } else if k == TokenType::String {
            ParseResult {
                expr: Some(ExpressionView::Literal(LiteralView::Str(tok))),
                used: 1,
                diagnostics: Seq::empty(),
            }
        } else if k == TokenType::Number {
            ParseResult {
                expr: Some(ExpressionView::Literal(LiteralView::Number(tok))),
                used: 1,
                diagnostics: Seq::empty(),
            }
        } else if k == TokenType::LeftParen {
            let inner = parse_expression(t, p + 1);
            match inner.expr {
                None => parse_failure(1 + inner.used, inner.diagnostics),
                Some(e) => {
                    let q = p + 1 + inner.used;
                    if q < t.len() && t[q].token_type == TokenType::RightParen {
                        ParseResult {
                            expr: Some(ExpressionView::Grouping(Box::new(e))),
                            used: inner.used + 2,
                            diagnostics: inner.diagnostics,
                        }
                    } else {
                        ParseResult {
                            expr: Some(ExpressionView::Grouping(Box::new(e))),
                            used: inner.used + 1,
                            diagnostics: inner.diagnostics.push(
                                token_diagnostic(t[q], "Expect ) after expression"@),
                            ),
                        }
                    }
                },
            }
        } else {
            parse_failure(0, seq![token_diagnostic(tok, "Expect expression"@)])
        }
    }
}

/// unary → ("!" | "-") unary | primary
pub open spec fn parse_unary(t: Seq<TokenView>, p: int) -> ParseResult
    decreases remaining(t, p), 1nat,
{
    if p < 0 || p >= t.len() {
        parse_failure(0, Seq::empty())
    } else if t[p].token_type == TokenType::Bang || t[p].token_type == TokenType::Minus {
        let r = parse_unary(t, p + 1);
        match r.expr {
            None => parse_failure(1 + r.used, r.diagnostics),
            Some(e) => ParseResult {
                expr: Some(ExpressionView::Unary(t[p], Box::new(e))),
                used: 1 + r.used,
                diagnostics: r.diagnostics,
            },
        }
    } else {
        parse_primary(t, p)
    }
}

/// One binary level: an operand of the next level up, then any number of
/// (operator, operand) pairs, folded to the left.
pub open spec fn parse_binary(t: Seq<TokenView>, p: int, level: nat) -> ParseResult
    decreases remaining(t, p), 2 * level + 2,
{
    if p < 0 || p >= t.len() {
        parse_failure(0, Seq::empty())
    } else {
        let r = if level <= 1 {
            parse_unary(t, p)
        } else {
            parse_binary(t, p, (level - 1) as nat)
        };
        match r.expr {
            None => r,
            Some(e) => {
                let rest = parse_binary_rest(t, p + r.used, level, e);
                ParseResult {
                    expr: rest.expr,
                    used: r.used + rest.used,
                    diagnostics: r.diagnostics + rest.diagnostics,
                }
            },
        }
    }
}

/// The (operator, operand) pairs of a binary level after the left operand `left`, from `q` on.
pub open spec fn parse_binary_rest(t: Seq<TokenView>, q: int, level: nat, left: ExpressionView) -> ParseResult
    decreases remaining(t, q), 2 * level + 1,
{
    if q < 0 || q >= t.len() || !level_operator(level, t[q].token_type) {
        ParseResult { expr: Some(left), used: 0, diagnostics: Seq::empty() }
    } else {
        let r = if level <= 1 {
            parse_unary(t, q + 1)
        } else {
            parse_binary(t, q + 1, (level - 1) as nat)
        };
        match r.expr {
            None => parse_failure(1 + r.used, r.diagnostics),
            Some(e) => {
                let rest = parse_binary_rest(
                    t,
                    q + 1 + r.used,
                    level,
                    ExpressionView::Binary(Box::new(left), t[q], Box::new(e)),
                );
                ParseResult {
                    expr: rest.expr,
                    used: 1 + r.used + rest.used,
                    diagnostics: r.diagnostics + rest.diagnostics,
                }
            },
        }
    }
}

/// expression → equality
pub open spec fn parse_expression(t: Seq<TokenView>, p: int) -> ParseResult
    decreases remaining(t, p), 11nat,
{
    if p < 0 || p >= t.len() {
        parse_failure(0, Seq::empty())
    } else {
        parse_binary(t, p, 4)
    }
}

/// The expression that a token sequence parses to from its start, if any.
pub open spec fn parse_tokens(t: Seq<TokenView>) -> Option<ExpressionView> {
    parse_expression(t, 0).expr
}

pub open spec fn opt_expression_view(o: Option<Expression>) -> Option<ExpressionView> {
    match o {
        Some(e) => Some(e@),
        None => None,
    }
}

/// The categories that begin a statement, where recovery after an error may resume.
pub open spec fn statement_start(k: TokenType) -> bool {
    k == TokenType::Class || k == TokenType::Fun || k == TokenType::Var || k == TokenType::For || k
        == TokenType::If || k == TokenType::While || k == TokenType::Print || k == TokenType::Return
}

/// Where recovery stops from `q` on: at the end of input, after a `;`, or before a token
/// that begins a statement.
pub open spec fn sync_from(t: Seq<TokenView>, q: int) -> int
    decreases t.len() - q,
{
    if q < 0 || q >= t.len() || t[q].token_type == TokenType::Eof {
        q
    } else if q > 0 && t[q - 1].token_type == TokenType::Semicolon {
        q
    } else if statement_start(t[q].token_type) {
        q
    } else {
        sync_from(t, q + 1)
    }
}

/// Where recovery from an error at `p` stops: it first discards the token at `p`.
pub open spec fn synchronized(t: Seq<TokenView>, p: int) -> int {
    if t[p].token_type == TokenType::Eof {
        sync_from(t, p)
    } else {
        sync_from(t, p + 1)
    }
}

/// The literal node `primary` builds from a literal token.
pub open spec fn literal_of(tok: TokenView) -> LiteralView {
    if tok.token_type == TokenType::Number {
        LiteralView::Number(tok)
    } else if tok.token_type == TokenType::String {
        LiteralView::Str(tok)
    } else {
        LiteralView::Keyword(tok)
    }
}

/// The parse is a literal.
pub open spec fn is_literal(e: Option<ExpressionView>) -> bool {
    match e {
        Some(ExpressionView::Literal(_)) => true,
        _ => false,
    }
}

proof fn lemma_rest_literal(t: Seq<TokenView>, q: int, level: nat, left: ExpressionView)
    requires
        is_literal(parse_binary_rest(t, q, level, left).expr),
    ensures
        parse_binary_rest(t, q, level, left).expr == Some(left),
    decreases remaining(t, q),
{
    if !(q < 0 || q >= t.len() || !level_operator(level, t[q].token_type)) {
        let r = if level <= 1 {
            parse_unary(t, q + 1)
        } else {
            parse_binary(t, q + 1, (level - 1) as nat)
        };
        if let Some(e) = r.expr {
            let next = ExpressionView::Binary(Box::new(left), t[q], Box::new(e));
            lemma_rest_literal(t, q + 1 + r.used, level, next);
        }
    }
}

proof fn lemma_binary_literal(t: Seq<TokenView>, p: int, level: nat)
    requires
        is_literal(parse_binary(t, p, level).expr),
    ensures
        parse_binary(t, p, level).expr == parse_unary(t, p).expr,
    decreases level,
{
    if !(p < 0 || p >= t.len()) {
        let r = if level <= 1 {
            parse_unary(t, p)
        } else {
            parse_binary(t, p, (level - 1) as nat)
        };
        if let Some(e) = r.expr {
            lemma_rest_literal(t, p + r.used, level, e);
            if level > 1 {
                lemma_binary_literal(t, p, (level - 1) as nat);
            }
        }
    }
}

/// When a token sequence parses to a literal, that literal is its first token, which is
/// of a literal category.
pub proof fn lemma_literal_parse(t: Seq<TokenView>)
    requires
        is_literal(parse_tokens(t)),
    ensures
        t.len() > 0,
        literal_type(t[0].token_type),
        parse_tokens(t) == Some(ExpressionView::Literal(literal_of(t[0]))),
{
    lemma_binary_literal(t, 0, 4);
}

/// A literal token followed by the end of input parses to that literal.
pub proof fn lemma_parse_single_literal(tok: TokenView, eof: TokenView)
    requires
        literal_type(tok.token_type),
        eof.token_type == TokenType::Eof,
    ensures
        parse_tokens(seq![tok, eof]) == Some(ExpressionView::Literal(literal_of(tok))),
{
    let t = seq![tok, eof];
    let e = ExpressionView::Literal(literal_of(tok));
    assert(t[0] == tok && t[1] == eof);
    assert(parse_primary(t, 0).expr == Some(e));
    assert(parse_unary(t, 0) == parse_primary(t, 0));
    assert(parse_binary_rest(t, 1, 1, e).expr == Some(e));
    assert(parse_binary(t, 0, 1).expr == Some(e));
    assert(parse_binary_rest(t, 1, 2, e).expr == Some(e));
    assert(parse_binary(t, 0, 2).expr == Some(e));
    assert(parse_binary_rest(t, 1, 3, e).expr == Some(e));
    assert(parse_binary(t, 0, 3).expr == Some(e));
    assert(parse_binary_rest(t, 1, 4, e).expr == Some(e));
    assert(parse_binary(t, 0, 4).expr == Some(e));
}

/// Rendering is stable through text: when a source parses to a literal, scanning and parsing
/// its rendering gives a tree with the same rendering. Other trees render in prefix form,
/// which the grammar does not read back (`-1` renders as `(- 1)`, which parses to a
/// grouping), so the law is stated for literals.
pub proof fn rendering_is_stable(s: Seq<char>)
    requires
        is_literal(parse_tokens(scan(s).0)),
    ensures
        ({
            let once = render(parse_tokens(scan(s).0)->Some_0);
            let again = parse_tokens(scan(once).0);
            again is Some && render(again->Some_0) == once
        }),
{
    let t = scan(s).0;
    lemma_literal_parse(t);
    lemma_first_literal_rescans(s);
    let tok = t[0];
    let t2 = scan(tok.lexeme).0;
    assert(t2 =~= seq![t2[0], t2[1]]);
    lemma_parse_single_literal(t2[0], t2[1]);
}

/// The state of a parser, as values.
pub struct ParserView {
    pub tokens: Seq<TokenView>,
    pub current: nat,
    pub diagnostics: Seq<DiagnosticView>,
}

/// Builds an expression tree from a token sequence by recursive descent.
pub struct Parser {
    tokens: Vec<Token>,
    current: usize,
    diagnostics: Vec<Diagnostic>,
}

impl View for Parser {
    type V = ParserView;

    closed spec fn view(&self) -> ParserView {
        ParserView {
            tokens: token_views(self.tokens@),
            current: self.current as nat,
            diagnostics: diagnostic_views(self.diagnostics@),
        }
    }
}

impl Parser {
    pub closed spec fn wf(&self) -> bool {
        &&& self.tokens@.len() > 0
        &&& self.tokens@.last().token_type == TokenType::Eof
        &&& self.current < self.tokens@.len()
    }

    /// From `prev`, the parser did what `pr` describes and returned `r`.
    closed spec fn produced(&self, prev: Parser, r: Option<Expression>, pr: ParseResult) -> bool {
        &&& self.tokens == prev.tokens
        &&& opt_expression_view(r) == pr.expr
        &&& self.current == prev.current + pr.used
        &&& diagnostic_views(self.diagnostics@) == diagnostic_views(prev.diagnostics@)
            + pr.diagnostics
    }

    /// A parser at the start of `tokens`, which must end with the end-of-input token.
    pub fn new(tokens: Vec<Token>) -> (r: Self)
        requires
            tokens@.len() > 0,
            tokens@.last().token_type == TokenType::Eof,
        ensures
            r.wf(),
            r@ == (ParserView {
                tokens: token_views(tokens@),
                current: 0,
                diagnostics: Seq::empty(),
            }),
    {
        let r = Self { tokens, current: 0, diagnostics: Vec::new() };
        assert(diagnostic_views(r.diagnostics@) =~= Seq::empty());
        r
    }

    /// The diagnostics reported so far.
    pub fn diagnostics(&self) -> (r: &Vec<Diagnostic>)
        ensures
            diagnostic_views(r@) == self@.diagnostics,
    {
        &self.diagnostics
    }

    /// Parses one expression from the cursor. When none can be built, recovers to the next
    /// statement boundary and returns `None`; the reasons are in the diagnostics.
    pub fn parse(&mut self) -> (r: Option<Expression>)
        requires
            old(self).wf(),
        ensures
            final(self).wf(),
            final(self)@.tokens == old(self)@.tokens,
            opt_expression_view(r) == parse_expression(
                old(self)@.tokens,
                old(self)@.current as int,
            ).expr,
            final(self)@.diagnostics == old(self)@.diagnostics + parse_expression(
                old(self)@.tokens,
                old(self)@.current as int,
            ).diagnostics,
            r is Some ==> final(self)@.current == old(self)@.current + parse_expression(
                old(self)@.tokens,
                old(self)@.current as int,
            ).used,
            r is None ==> final(self)@.current == synchronized(
                old(self)@.tokens,
                (old(self)@.current + parse_expression(
                    old(self)@.tokens,
                    old(self)@.current as int,
                ).used) as int,
            ),
    {
        let expression = self.expression();
        if expression.is_none() {
            self.synchronize();
        }
        expression
    }

    /// Discards tokens up to the next statement boundary.
    fn synchronize(&mut self)
        requires
            old(self).wf(),
        ensures
            final(self).wf(),
            final(self).tokens == old(self).tokens,
            final(self).diagnostics == old(self).diagnostics,
            final(self).current == synchronized(token_views(old(self).tokens@), old(self).current as int),
    {
        let ghost t = token_views(self.tokens@);
        self.advance();
        while !self.is_at_end()
            invariant
                self.wf(),
                t == token_views(self.tokens@),
                self.current > 0 || self.tokens@[self.current as int].token_type == TokenType::Eof,
                sync_from(t, self.current as int) == synchronized(t, old(self).current as int),
                self.tokens == old(self).tokens,
                self.diagnostics == old(self).diagnostics,
            decreases self.tokens@.len() - self.current,
        {
            if self.previous().token_type == TokenType::Semicolon {
                return ;
            }
            let k = self.peek().token_type;
            match k {
                TokenType::Class | TokenType::Fun | TokenType::Var | TokenType::For | TokenType::If
                | TokenType::While | TokenType::Print | TokenType::Return => return ,
                _ => {},
            }
            self.advance();
        }
    }

    fn expression(&mut self) -> (r: Option<Expression>)
        requires
            old(self).wf(),
        ensures
            final(self).wf(),
            final(self).produced(
                *old(self),
                r,
                parse_expression(token_views(old(self).tokens@), old(self).current as int),
            ),
        decreases remaining(token_views(old(self).tokens@), old(self).current as int), 11nat,
    {
        self.equality()
    }

    fn factor(&mut self) -> (r: Option<Expression>)
        requires
            old(self).wf(),
        ensures
            final(self).wf(),
            final(self).produced(
                *old(self),
                r,
                parse_binary(token_views(old(self).tokens@), old(self).current as int, 1),
            ),
        decreases remaining(token_views(old(self).tokens@), old(self).current as int), 4nat,
    {
        let ghost t = token_views(self.tokens@);
        let ghost prev = *self;
        let ghost total = parse_binary(t, prev.current as int, 1);
        let first = self.unary();
        let mut base_expr = match first {
            Some(e) => e,
            None => return None,
        };
        proof {
            let r1 = parse_unary(t, prev.current as int);
            let rest = parse_binary_rest(t, self.current as int, 1, base_expr@);
            assert(diagnostic_views(self.diagnostics@) + rest.diagnostics =~= diagnostic_views(
                prev.diagnostics@,
            ) + total.diagnostics);
        }
        while self.at_operator(1)
            invariant
                self.wf(),
                prev == *old(self),
                self.tokens == prev.tokens,
                t == token_views(self.tokens@),
                prev.current <= self.current,
                total == parse_binary(t, prev.current as int, 1),
                total.expr == parse_binary_rest(t, self.current as int, 1, base_expr@).expr,
                total.used == (self.current - prev.current) + parse_binary_rest(
                    t,
                    self.current as int,
                    1,
                    base_expr@,
                ).used,
                diagnostic_views(self.diagnostics@) + parse_binary_rest(
                    t,
                    self.current as int,
                    1,
                    base_expr@,
                ).diagnostics == diagnostic_views(prev.diagnostics@) + total.diagnostics,
            decreases remaining(t, self.current as int),
        {
            let ghost q = self.current as int;
            let ghost before = *self;
            let ghost left = base_expr@;
            let operator = self.advance();
            let right = match self.unary() {
                Some(e) => e,
                None => {
                    proof {
                        let r = parse_unary(t, q + 1);
                        assert(diagnostic_views(self.diagnostics@) =~= diagnostic_views(
                            before.diagnostics@,
                        ) + r.diagnostics);
                        assert(diagnostic_views(self.diagnostics@) =~= diagnostic_views(
                            prev.diagnostics@,
                        ) + total.diagnostics);
                    }
                    return None;
                },
            };
            base_expr = Expression::Binary {
                left: Rc::new(base_expr),
                operator,
                right: Rc::new(right),
            };
            proof {
                let r = parse_unary(t, q + 1);
                let rest = parse_binary_rest(t, self.current as int, 1, base_expr@);
                assert(base_expr@ == ExpressionView::Binary(Box::new(left), t[q], Box::new(right@)));
                assert(diagnostic_views(self.diagnostics@) + rest.diagnostics =~= diagnostic_views(
                    before.diagnostics@,
                ) + (r.diagnostics + rest.diagnostics));
            }
        }
        proof {
            let rest = parse_binary_rest(t, self.current as int, 1, base_expr@);
            assert(diagnostic_views(self.diagnostics@) + rest.diagnostics =~= diagnostic_views(
                self.diagnostics@,
            ));
        }
        Some(base_expr)
    }

    fn term(&mut self) -> (r: Option<Expression>)
        requires
            old(self).wf(),
        ensures
            final(self).wf(),
            final(self).produced(
                *old(self),
                r,
                parse_binary(token_views(old(self).tokens@), old(self).current as int, 2),
            ),
        decreases remaining(token_views(old(self).tokens@), old(self).current as int), 6nat,
    {
        let ghost t = token_views(self.tokens@);
        let ghost prev = *self;
        let ghost total = parse_binary(t, prev.current as int, 2);
        let first = self.factor();
        let mut base_expr = match first {
            Some(e) => e,
            None => return None,
        };
        proof {
            let r1 = parse_binary(t, prev.current as int, 1);
            let rest = parse_binary_rest(t, self.current as int, 2, base_expr@);
            assert(diagnostic_views(self.diagnostics@) + rest.diagnostics =~= diagnostic_views(
                prev.diagnostics@,
            ) + total.diagnostics);
        }
        while self.at_operator(2)
            invariant
                self.wf(),
                prev == *old(self),
                self.tokens == prev.tokens,
                t == token_views(self.tokens@),
                prev.current <= self.current,
                total == parse_binary(t, prev.current as int, 2),
                total.expr == parse_binary_rest(t, self.current as int, 2, base_expr@).expr,
                total.used == (self.current - prev.current) + parse_binary_rest(
                    t,
                    self.current as int,
                    2,
                    base_expr@,
                ).used,
                diagnostic_views(self.diagnostics@) + parse_binary_rest(
                    t,
                    self.current as int,
                    2,
                    base_expr@,
                ).diagnostics == diagnostic_views(prev.diagnostics@) + total.diagnostics,
            decreases remaining(t, self.current as int),
        {
            let ghost q = self.current as int;
            let ghost before = *self;
            let ghost left = base_expr@;
            let operator = self.advance();
            let right = match self.factor() {
                Some(e) => e,
                None => {
                    proof {
                        let r = parse_binary(t, q + 1, 1);
                        assert(diagnostic_views(self.diagnostics@) =~= diagnostic_views(
                            before.diagnostics@,
                        ) + r.diagnostics);
                        assert(diagnostic_views(self.diagnostics@) =~= diagnostic_views(
                            prev.diagnostics@,
                        ) + total.diagnostics);
                    }
                    return None;
                },
            };
            base_expr = Expression::Binary {
                left: Rc::new(base_expr),
                operator,
                right: Rc::new(right),
            };
            proof {
                let r = parse_binary(t, q + 1, 1);
                let rest = parse_binary_rest(t, self.current as int, 2, base_expr@);
                assert(base_expr@ == ExpressionView::Binary(Box::new(left), t[q], Box::new(right@)));
                assert(diagnostic_views(self.diagnostics@) + rest.diagnostics =~= diagnostic_views(
                    before.diagnostics@,
                ) + (r.diagnostics + rest.diagnostics));
            }
        }
        proof {
            let rest = parse_binary_rest(t, self.current as int, 2, base_expr@);
            assert(diagnostic_views(self.diagnostics@) + rest.diagnostics =~= diagnostic_views(
                self.diagnostics@,
            ));
        }
        Some(base_expr)
    }

    fn comparison(&mut self) -> (r: Option<Expression>)
        requires
            old(self).wf(),
        ensures
            final(self).wf(),
            final(self).produced(
                *old(self),
                r,
                parse_binary(token_views(old(self).tokens@), old(self).current as int, 3),
            ),
        decreases remaining(token_views(old(self).tokens@), old(self).current as int), 8nat,
    {
        let ghost t = token_views(self.tokens@);
        let ghost prev = *self;
        let ghost total = parse_binary(t, prev.current as int, 3);
        let first = self.term();
        let mut base_expr = match first {
            Some(e) => e,
            None => return None,
        };
        proof {
            let r1 = parse_binary(t, prev.current as int, 2);
            let rest = parse_binary_rest(t, self.current as int, 3, base_expr@);
            assert(diagnostic_views(self.diagnostics@) + rest.diagnostics =~= diagnostic_views(
                prev.diagnostics@,
            ) + total.diagnostics);
        }
        while self.at_operator(3)
            invariant
                self.wf(),
                prev == *old(self),
                self.tokens == prev.tokens,
                t == token_views(self.tokens@),
                prev.current <= self.current,
                total == parse_binary(t, prev.current as int, 3),
                total.expr == parse_binary_rest(t, self.current as int, 3, base_expr@).expr,
                total.used == (self.current - prev.current) + parse_binary_rest(
                    t,
                    self.current as int,
                    3,
                    base_expr@,
                ).used,
                diagnostic_views(self.diagnostics@) + parse_binary_rest(
                    t,
                    self.current as int,
                    3,
                    base_expr@,
                ).diagnostics == diagnostic_views(prev.diagnostics@) + total.diagnostics,
            decreases remaining(t, self.current as int),
        {
            let ghost q = self.current as int;
            let ghost before = *self;
            let ghost left = base_expr@;
            let operator = self.advance();
            let right = match self.term() {
                Some(e) => e,
                None => {
                    proof {
                        let r = parse_binary(t, q + 1, 2);
                        assert(diagnostic_views(self.diagnostics@) =~= diagnostic_views(
                            before.diagnostics@,
                        ) + r.diagnostics);
                        assert(diagnostic_views(self.diagnostics@) =~= diagnostic_views(
                            prev.diagnostics@,
                        ) + total.diagnostics);
                    }
                    return None;
                },
            };
            base_expr = Expression::Binary {
                left: Rc::new(base_expr),
                operator,
                right: Rc::new(right),
            };
            proof {
                let r = parse_binary(t, q + 1, 2);
                let rest = parse_binary_rest(t, self.current as int, 3, base_expr@);
                assert(base_expr@ == ExpressionView::Binary(Box::new(left), t[q], Box::new(right@)));
                assert(diagnostic_views(self.diagnostics@) + rest.diagnostics =~= diagnostic_views(
                    before.diagnostics@,
                ) + (r.diagnostics + rest.diagnostics));
            }
        }
        proof {
            let rest = parse_binary_rest(t, self.current as int, 3, base_expr@);
            assert(diagnostic_views(self.diagnostics@) + rest.diagnostics =~= diagnostic_views(
                self.diagnostics@,
            ));
        }
        Some(base_expr)
    }

    fn equality(&mut self) -> (r: Option<Expression>)
        requires
            old(self).wf(),
        ensures
            final(self).wf(),
            final(self).produced(
                *old(self),
                r,
                parse_binary(token_views(old(self).tokens@), old(self).current as int, 4),
            ),
        decreases remaining(token_views(old(self).tokens@), old(self).current as int), 10nat,
    {
        let ghost t = token_views(self.tokens@);
        let ghost prev = *self;
        let ghost total = parse_binary(t, prev.current as int, 4);
        let first = self.comparison();
        let mut base_expr = match first {
            Some(e) => e,
            None => return None,
        };
        proof {
            let r1 = parse_binary(t, prev.current as int, 3);
            let rest = parse_binary_rest(t, self.current as int, 4, base_expr@);
            assert(diagnostic_views(self.diagnostics@) + rest.diagnostics =~= diagnostic_views(
                prev.diagnostics@,
            ) + total.diagnostics);
        }
        while self.at_operator(4)
            invariant
                self.wf(),
                prev == *old(self),
                self.tokens == prev.tokens,
                t == token_views(self.tokens@),
                prev.current <= self.current,
                total == parse_binary(t, prev.current as int, 4),
                total.expr == parse_binary_rest(t, self.current as int, 4, base_expr@).expr,
                total.used == (self.current - prev.current) + parse_binary_rest(
                    t,
                    self.current as int,
                    4,
                    base_expr@,
                ).used,
                diagnostic_views(self.diagnostics@) + parse_binary_rest(
                    t,
                    self.current as int,
                    4,
                    base_expr@,
                ).diagnostics == diagnostic_views(prev.diagnostics@) + total.diagnostics,
            decreases remaining(t, self.current as int),
        {
            let ghost q = self.current as int;
            let ghost before = *self;
            let ghost left = base_expr@;
            let operator = self.advance();
            let right = match self.comparison() {
                Some(e) => e,
                None => {
                    proof {
                        let r = parse_binary(t, q + 1, 3);
                        assert(diagnostic_views(self.diagnostics@) =~= diagnostic_views(
                            before.diagnostics@,
                        ) + r.diagnostics);
                        assert(diagnostic_views(self.diagnostics@) =~= diagnostic_views(
                            prev.diagnostics@,
                        ) + total.diagnostics);
                    }
                    return None;
                },
            };
            base_expr = Expression::Binary {
                left: Rc::new(base_expr),
                operator,
                right: Rc::new(right),
            };
            proof {
                let r = parse_binary(t, q + 1, 3);
                let rest = parse_binary_rest(t, self.current as int, 4, base_expr@);
                assert(base_expr@ == ExpressionView::Binary(Box::new(left), t[q], Box::new(right@)));
                assert(diagnostic_views(self.diagnostics@) + rest.diagnostics =~= diagnostic_views(
                    before.diagnostics@,
                ) + (r.diagnostics + rest.diagnostics));
            }
        }
        proof {
            let rest = parse_binary_rest(t, self.current as int, 4, base_expr@);
            assert(diagnostic_views(self.diagnostics@) + rest.diagnostics =~= diagnostic_views(
                self.diagnostics@,
            ));
        }
        Some(base_expr)
    }

    fn unary(&mut self) -> (r: Option<Expression>)
        requires
            old(self).wf(),
        ensures
            final(self).wf(),
            final(self).produced(
                *old(self),
                r,
                parse_unary(token_views(old(self).tokens@), old(self).current as int),
            ),
        decreases remaining(token_views(old(self).tokens@), old(self).current as int), 1nat,
    {
        let k = self.peek().token_type;
        if k == TokenType::Bang || k == TokenType::Minus {
            let operator = self.advance();
            match self.unary() {
                Some(e) => Some(Expression::Unary { operator, value: Rc::new(e) }),
                None => None,
            }
        } else {
            self.primary()
        }
    }

    fn primary(&mut self) -> (r: Option<Expression>)
        requires
            old(self).wf(),
        ensures
            final(self).wf(),
            final(self).produced(
                *old(self),
                r,
                parse_primary(token_views(old(self).tokens@), old(self).current as int),
            ),
        decreases remaining(token_views(old(self).tokens@), old(self).current as int), 0nat,
    {
        let ghost t = token_views(self.tokens@);
        let ghost prev = *self;
        let k = self.peek().token_type;
        if k == TokenType::False || k == TokenType::True || k == TokenType::Nil {
            let token = self.advance();
            assert(diagnostic_views(self.diagnostics@) =~= diagnostic_views(self.diagnostics@)
                + Seq::empty());
            Some(Expression::Literal(Literal::KEYWORD(token)))
        } else if k == TokenType::String {
            let token = self.advance();
            assert(diagnostic_views(self.diagnostics@) =~= diagnostic_views(self.diagnostics@)
                + Seq::empty());
            Some(Expression::Literal(Literal::STRING(token)))
        } else if k == TokenType::Number {
            let token = self.advance();
            assert(diagnostic_views(self.diagnostics@) =~= diagnostic_views(self.diagnostics@)
                + Seq::empty());
            Some(Expression::Literal(Literal::NUMBER(token)))
        } else if k == TokenType::LeftParen {
            self.advance();
            let inner = self.expression();
            match inner {
                Some(e) => {
                    let ghost mid = *self;
                    self.consume(TokenType::RightParen, "Expect ) after expression");
                    proof {
                        let pr = parse_expression(t, prev.current + 1);
                        if self.current == mid.current {
                            assert(diagnostic_views(self.diagnostics@) =~= diagnostic_views(
                                prev.diagnostics@,
                            ) + pr.diagnostics.push(
                                token_diagnostic(
                                    t[mid.current as int],
                                    "Expect ) after expression"@,
                                ),
                            ));
                        }
                    }
                    Some(Expression::Grouping { interior: Rc::new(e) })
                },
                None => {
                    assert(diagnostic_views(self.diagnostics@) =~= diagnostic_views(
                        prev.diagnostics@,
                    ) + parse_expression(t, prev.current + 1).diagnostics);
                    None
                },
            }
        } else {
            let token = self.peek().clone();
            self.error(token, "Expect expression");
            assert(diagnostic_views(self.diagnostics@) =~= diagnostic_views(prev.diagnostics@)
                + seq![token_diagnostic(t[prev.current as int], "Expect expression"@)]);
            None
        }
    }

    /// Consumes a token of category `check_on`, or reports `message` at the cursor.
    fn consume(&mut self, check_on: TokenType, message: &str)
        requires
            old(self).wf(),
            check_on != TokenType::Eof,
        ensures
            final(self).wf(),
            final(self).tokens == old(self).tokens,
            old(self).tokens@[old(self).current as int].token_type == check_on ==> {
                &&& final(self).current == old(self).current + 1
                &&& final(self).diagnostics == old(self).diagnostics
            },
            old(self).tokens@[old(self).current as int].token_type != check_on ==> {
                &&& final(self).current == old(self).current
                &&& diagnostic_views(final(self).diagnostics@) == diagnostic_views(
                    old(self).diagnostics@,
                ).push(token_diagnostic(old(self).tokens@[old(self).current as int]@, message@))
            },
    {
        if self.check(check_on) {
            self.advance();
        } else {
            let token = self.peek().clone();
            self.error(token, message);
        }
    }

    /// Reports `message` at `token`.
    fn error(&mut self, token: Token, message: &str)
        ensures
            final(self).tokens == old(self).tokens,
            final(self).current == old(self).current,
            diagnostic_views(final(self).diagnostics@) == diagnostic_views(
                old(self).diagnostics@,
            ).push(token_diagnostic(token@, message@)),
    {
        let ghost before = self.diagnostics@;
        self.diagnostics.push(token_error(token, message));
        assert(diagnostic_views(self.diagnostics@) =~= diagnostic_views(before).push(
            self.diagnostics@.last()@,
        ));
    }

    /// The cursor's token has category `check_on`, and is not the end of input.
    fn check(&self, check_on: TokenType) -> (r: bool)
        requires
            self.wf(),
        ensures
            r == (self.tokens@[self.current as int].token_type != TokenType::Eof
                && self.tokens@[self.current as int].token_type == check_on),
    {
        if !self.is_at_end() {
            self.peek().token_type == check_on
        } else {
            false
        }
    }

    /// The cursor's token is an operator of the binary level `level`.
    fn at_operator(&self, level: u8) -> (r: bool)
        requires
            self.wf(),
        ensures
            r == level_operator(level as nat, self.tokens@[self.current as int].token_type),
    {
        let k = self.peek().token_type;
        if level == 1 {
            k == TokenType::Slash || k == TokenType::Star
        } else if level == 2 {
            k == TokenType::Minus || k == TokenType::Plus
        } else if level == 3 {
            k == TokenType::Greater || k == TokenType::GreaterEqual || k == TokenType::Less || k
                == TokenType::LessEqual
        } else {
            k == TokenType::BangEqual || k == TokenType::EqualEqual
        }
    }

    /// Returns the cursor's token and moves past it, unless it is the end of input.
    fn advance(&mut self) -> (r: Token)
        requires
            old(self).wf(),
        ensures
            final(self).wf(),
            final(self).tokens == old(self).tokens,
            final(self).diagnostics == old(self).diagnostics,
            r == old(self).tokens@[old(self).current as int],
            final(self).current == if r.token_type == TokenType::Eof {
                old(self).current as int
            } else {
                old(self).current + 1
            },
    {
        let token = self.tokens[self.current].clone();
        assert(self.tokens@.last() == self.tokens@[self.tokens@.len() - 1]);
        if !self.is_at_end() {
            assert(self.current + 1 < self.tokens.len());
            self.current = self.current + 1;
        }
        token
    }

    fn is_at_end(&self) -> (r: bool)
        requires
            self.wf(),
        ensures
            r == (self.tokens@[self.current as int].token_type == TokenType::Eof),
    {
        self.peek().token_type == TokenType::Eof
    }

    fn peek(&self) -> (r: &Token)
        requires
            self.wf(),
        ensures
            *r == self.tokens@[self.current as int],
    {
        &self.tokens[self.current]
    }

    fn previous(&self) -> (r: &Token)
        requires
            self.wf(),
            self.current > 0,
        ensures
            *r == self.tokens@[self.current - 1],
    {
        &self.tokens[self.current - 1]
    }
}

} // verus!
