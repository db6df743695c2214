use crate::tokens::{Token, TokenType, TokenView};
use std::rc::Rc;
use vstd::prelude::*;

verus! {

/// A literal leaf of an expression, by the kind of token it wraps.
#[derive(Debug, PartialEq)]
pub enum Literal {
    NUMBER(Token),
    STRING(Token),
    KEYWORD(Token),
}

/// An expression node. Children are shared and never mutated.
#[derive(Debug, PartialEq)]
pub enum Expression {
    Unary { operator: Token, value: Rc<Expression> },
    Binary { left: Rc<Expression>, operator: Token, right: Rc<Expression> },
    Grouping { interior: Rc<Expression> },
    Literal(Literal),
}

/// The mathematical content of a literal.
pub enum LiteralView {
    Number(TokenView),
    Str(TokenView),
    Keyword(TokenView),
}

/// The mathematical content of an expression tree.
pub enum ExpressionView {
    Unary(TokenView, Box<ExpressionView>),
    Binary(Box<ExpressionView>, TokenView, Box<ExpressionView>),
    Grouping(Box<ExpressionView>),
    Literal(LiteralView),
}

pub open spec fn literal_view(l: Literal) -> LiteralView {
    match l {
        Literal::NUMBER(t) => LiteralView::Number(t@),
        Literal::STRING(t) => LiteralView::Str(t@),
        Literal::KEYWORD(t) => LiteralView::Keyword(t@),
    }
}

pub open spec fn expression_view(e: Expression) -> ExpressionView
    decreases e,
{
    match e {
        Expression::Unary { operator, value } => ExpressionView::Unary(
            operator@,
            Box::new(expression_view(*value)),
        ),
        Expression::Binary { left, operator, right } => ExpressionView::Binary(
            Box::new(expression_view(*left)),
            operator@,
            Box::new(expression_view(*right)),
        ),
        Expression::Grouping { interior } => ExpressionView::Grouping(
            Box::new(expression_view(*interior)),
        ),
        Expression::Literal(l) => ExpressionView::Literal(literal_view(l)),
    }
}

impl View for Expression {
    type V = ExpressionView;

    open spec fn view(&self) -> ExpressionView {
        expression_view(*self)
    }
}

/// The canonical rendering: `(op operand...)` for operators, `(group inner)` for groupings,
/// the lexeme for literals, except that the keyword `nil` is always `nil`.
pub open spec fn render(e: ExpressionView) -> Seq<char>
    decreases e,
{
    match e {
        ExpressionView::Unary(op, value) => "("@ + op.lexeme + " "@ + render(*value) + ")"@,
        ExpressionView::Binary(left, op, right) => "("@ + op.lexeme + " "@ + render(*left) + " "@
            + render(*right) + ")"@,
        ExpressionView::Grouping(interior) => "("@ + "group"@ + " "@ + render(*interior) + ")"@,
        ExpressionView::Literal(l) => match l {
            LiteralView::Number(t) => t.lexeme,
            LiteralView::Str(t) => t.lexeme,
            LiteralView::Keyword(t) => if t.token_type == TokenType::Nil {
                "nil"@
            } else {
                t.lexeme
            },
        },
    }
}

/// Each part preceded by a space, all run together.
pub open spec fn spaced(parts: Seq<Seq<char>>) -> Seq<char>
    decreases parts.len(),
{
    if parts.len() == 0 {
        Seq::empty()
    } else {
        spaced(parts.drop_last()) + " "@ + parts.last()
    }
}

pub open spec fn string_views(v: Seq<String>) -> Seq<Seq<char>> {
    v.map_values(|s: String| s@)
}

/// `(name part...)`, the parts already rendered.
fn parenthesize(name: &str, parts: &Vec<String>) -> (r: String)
    ensures
        r@ == "("@ + name@ + spaced(string_views(parts@)) + ")"@,
{
    let mut out = "(".to_owned();
    out.append(name);
    let mut i: usize = 0;
    while i < parts.len()
        invariant
            i <= parts@.len(),
            out@ == "("@ + name@ + spaced(string_views(parts@.subrange(0, i as int))),
        decreases parts@.len() - i,
    {
        let ghost before = out@;
        out.append(" ");
        out.append(parts[i].as_str());
        proof {
            let ps = string_views(parts@.subrange(0, i + 1));
            assert(ps.drop_last() =~= string_views(parts@.subrange(0, i as int)));
            assert(ps.last() == parts@[i as int]@);
            assert(out@ =~= "("@ + name@ + spaced(ps));
        }
        i = i + 1;
    }
    assert(parts@.subrange(0, parts@.len() as int) =~= parts@);
    out.append(")");
    out
}

proof fn lemma_spaced_one(a: Seq<char>)
    ensures
        spaced(seq![a]) == " "@ + a,
{
    assert(seq![a].drop_last() =~= Seq::<Seq<char>>::empty());
    assert(spaced(Seq::<Seq<char>>::empty()) == Seq::<char>::empty());
    assert(seq![a].last() == a);
    assert(Seq::<char>::empty() + " "@ + a =~= " "@ + a);
}

proof fn lemma_spaced_two(a: Seq<char>, b: Seq<char>)
    ensures
        spaced(seq![a, b]) == " "@ + a + " "@ + b,
{
    assert(seq![a, b].drop_last() =~= seq![a]);
    lemma_spaced_one(a);
}

impl Expression {
    /// The expression in its canonical rendering.
    pub fn print(&self) -> (r: String)
        ensures
            r@ == render(self@),
        decreases self,
    {
        match self {
            Expression::Unary { operator, value } => {
                let parts = vec![value.print()];
                proof {
                    assert(string_views(parts@) =~= seq![parts@[0]@]);
                    lemma_spaced_one(parts@[0]@);
                }
                let r = parenthesize(operator.lexeme.as_str(), &parts);
                assert(r@ =~= render(self@));
                r
            },
            Expression::Binary { left, operator, right } => {
                let parts = vec![left.print(), right.print()];
                proof {
                    assert(string_views(parts@) =~= seq![parts@[0]@, parts@[1]@]);
                    lemma_spaced_two(parts@[0]@, parts@[1]@);
                }
                let r = parenthesize(operator.lexeme.as_str(), &parts);
                assert(r@ =~= render(self@));
                r
            },
            Expression::Grouping { interior } => {
                let parts = vec![interior.print()];
                proof {
                    assert(string_views(parts@) =~= seq![parts@[0]@]);
                    lemma_spaced_one(parts@[0]@);
                }
                let r = parenthesize("group", &parts);
                assert(r@ =~= render(self@));
                r
            },
            Expression::Literal(c) => match c {
                Literal::NUMBER(t) => t.lexeme.clone(),
                Literal::STRING(t) => t.lexeme.clone(),
                Literal::KEYWORD(t) => {
                    if t.token_type == TokenType::Nil {
                        return "nil".to_owned();
                    }
                    t.lexeme.clone()
                },
            },
        }
    }
}

/// A sequence of expression roots.
pub struct AST {
    ast: Vec<Rc<Expression>>,
}

/// The renderings of a sequence of expressions, run together.
pub open spec fn render_all(es: Seq<ExpressionView>) -> Seq<char>
    decreases es.len(),
{
    if es.len() == 0 {
        Seq::empty()
    } else {
        render_all(es.drop_last()) + render(es.last())
    }
}

impl AST {
    pub closed spec fn roots(&self) -> Seq<ExpressionView> {
        self.ast@.map_values(|e: Rc<Expression>| (*e)@)
    }

    pub fn new(ast: Vec<Rc<Expression>>) -> (r: Self)
        ensures
            r.roots() == ast@.map_values(|e: Rc<Expression>| (*e)@),
    {
        AST { ast }
    }

    /// The renderings of all roots, in order, run together.
    pub fn print(&self) -> (r: String)
        ensures
            r@ == render_all(self.roots()),
    {
        let mut out = String::new();
        let mut i: usize = 0;
        while i < self.ast.len()
            invariant
                i <= self.ast@.len(),
                out@ == render_all(self.roots().subrange(0, i as int)),
            decreases self.ast@.len() - i,
        {
            let text = self.ast[i].print();
            out.append(text.as_str());
            proof {
                let rs = self.roots().subrange(0, i + 1);
                assert(rs.drop_last() =~= self.roots().subrange(0, i as int));
            }
            i = i + 1;
        }
        assert(self.roots().subrange(0, self.ast@.len() as int) =~= self.roots());
        out
    }
}

} // verus!
