//! The data model: operators, dice terms, expression trees, entities, and the
//! tokens of a flat roll.

use vstd::prelude::*;
use crate::text::{decimal, push_decimal};

verus! {

/// The integers that the grammar reads and the evaluator computes with.
pub type Int = i64;

/// The operators: `Add` and `Sub` bind loosest, `Mul` and `Div` tighter, and
/// `Max` and `Min` are prefix operators that reduce the draws of a dice term.
#[derive(Debug, PartialOrd, PartialEq, Eq, Ord, Hash, Clone, Copy, Structural)]
pub enum Operator {
    Add,
    Sub,
    Mul,
    Div,
    Max,
    Min,
}

/// The display glyph of an operator.
pub open spec fn glyph(op: Operator) -> Seq<char> {
    match op {
        Operator::Add => seq!['+'],
        Operator::Sub => seq!['-'],
        Operator::Mul => seq!['×'],
        Operator::Div => seq!['÷'],
        Operator::Max => seq!['m', 'a', 'x'],
        Operator::Min => seq!['m', 'i', 'n'],
    }
}

impl Operator {
    /// The display glyph: `+ - × ÷ max min`.
    pub fn show(&self) -> (r: &'static str)
        ensures
            r@ == glyph(*self),
    {
        match self {
            Operator::Add => {
                proof {
                    reveal_strlit("+");
                }
                "+"
            },
            Operator::Sub => {
                proof {
                    reveal_strlit("-");
                }
                "-"
            },
            Operator::Mul => {
                proof {
                    reveal_strlit("×");
                }
                "×"
            },
            Operator::Div => {
                proof {
                    reveal_strlit("÷");
                }
                "÷"
            },
            Operator::Max => {
                proof {
                    reveal_strlit("max");
                }
                "max"
            },
            Operator::Min => {
                proof {
                    reveal_strlit("min");
                }
                "min"
            },
        }
    }
}

/// A dice term: `number` dice of `face` faces each. A face of `None` stands
/// for the default face of the evaluation context.
#[derive(Debug, PartialOrd, PartialEq, Eq, Ord, Hash, Clone, Copy, Structural)]
pub struct Dice {
    pub face: Option<Int>,
    pub number: Int,
}

impl Default for Dice {
    /// One die of the default face.
    fn default() -> (r: Dice)
        ensures
            r == (Dice { face: None, number: 1 }),
    {
        Dice { face: None, number: 1 }
    }
}

/// `NdF`, or `Nd` when the face is left to the context.
pub open spec fn dice_text(d: Dice) -> Seq<char> {
    decimal(d.number as int) + seq!['d'] + match d.face {
        Some(f) => decimal(f as int),
        None => Seq::empty(),
    }
}

impl Dice {
    /// `NdF`, or `Nd` when the face is left to the context.
    pub fn show(&self) -> (r: String)
        ensures
            r@ == dice_text(*self),
    {
        let mut out = String::new();
        push_decimal(&mut out, self.number);
        out.push('d');
        if let Some(face) = self.face {
            push_decimal(&mut out, face);
        }
        assert(out@ =~= dice_text(*self));
        out
    }
}

/// An expression tree. Each node owns its children.
#[derive(Debug, PartialOrd, PartialEq, Eq, Ord, Hash)]
pub enum Expr {
    /// A prefix operator (`max`, `min`) applied to one operand.
    Prefix(Operator, Box<Expr>),
    /// A binary operation.
    Infix(Box<Expr>, Operator, Box<Expr>),
    /// A numeral.
    Num(Int),
    /// A dice term.
    Roll(Dice),
    /// A parenthesized expression, kept so that it renders with its parentheses.
    Child(Box<Expr>),
}

/// The canonical rendering of an expression.
pub open spec fn expr_text(e: Expr) -> Seq<char>
    decreases e,
{
    match e {
        Expr::Prefix(op, x) => glyph(op) + seq![' '] + expr_text(*x),
        Expr::Infix(l, op, r) => expr_text(*l) + seq![' '] + glyph(op) + seq![' '] + expr_text(
            *r,
        ),
        Expr::Num(n) => decimal(n as int),
        Expr::Roll(d) => dice_text(d),
        Expr::Child(x) => seq!['('] + expr_text(*x) + seq![')'],
    }
}

/// Appends `s` to `out`.
pub fn push_str(out: &mut String, s: &str)
    ensures
        final(out)@ == old(out)@ + s@,
{
    out.append(s);
}

impl Clone for Expr {
    fn clone(&self) -> (r: Expr)
        ensures
            r == *self,
        decreases self,
    {
        match self {
            Expr::Prefix(op, x) => Expr::Prefix(*op, Box::new((**x).clone())),
            Expr::Infix(l, op, r) => Expr::Infix(
                Box::new((**l).clone()),
                *op,
                Box::new((**r).clone()),
            ),
            Expr::Num(n) => Expr::Num(*n),
            Expr::Roll(d) => Expr::Roll(*d),
            Expr::Child(x) => Expr::Child(Box::new((**x).clone())),
        }
    }
}

impl Expr {
    /// Appends the rendering of this expression to `out`.
    pub fn write_to(&self, out: &mut String)
        ensures
            final(out)@ == old(out)@ + expr_text(*self),
        decreases self,
    {
        match self {
            Expr::Prefix(op, x) => {
                push_str(out, op.show());
                out.push(' ');
                x.write_to(out);
            },
            Expr::Infix(l, op, r) => {
                l.write_to(out);
                out.push(' ');
                push_str(out, op.show());
                out.push(' ');
                r.write_to(out);
            },
            Expr::Num(n) => {
                push_decimal(out, *n);
            },
            Expr::Roll(d) => {
                let t = d.show();
                push_str(out, t.as_str());
            },
            Expr::Child(x) => {
                out.push('(');
                x.write_to(out);
                out.push(')');
            },
        }
        assert(final(out)@ =~= old(out)@ + expr_text(*self));
    }

    /// The canonical rendering: `l op r` for a binary operation, `op e` for a
    /// prefix operation, `(e)` for a parenthesized one, numerals in decimal and
    /// dice terms as `NdF` or `Nd`.
    pub fn show(&self) -> (r: String)
        ensures
            r@ == expr_text(*self),
    {
        let mut out = String::new();
        self.write_to(&mut out);
        assert(out@ =~= expr_text(*self));
        out
    }
}

/// One segment of parsed text, in the order of the text.
#[derive(Debug, PartialOrd, PartialEq, Eq, Ord, Hash, Clone)]
pub enum Entity {
    /// Free text, kept verbatim.
    Description(String),
    /// A recognized expression.
    Expression(Expr),
}

/// The text of an entity: a description as it stands, an expression rendered.
pub open spec fn entity_text(e: Entity) -> Seq<char> {
    match e {
        Entity::Description(s) => s@,
        Entity::Expression(x) => expr_text(x),
    }
}

impl Entity {
    /// A description as it stands, an expression rendered.
    pub fn show(&self) -> (r: String)
        ensures
            r@ == entity_text(*self),
    {
        match self {
            Entity::Description(s) => {
                let mut out = String::new();
                push_str(&mut out, s.as_str());
                assert(out@ =~= s@);
                out
            },
            Entity::Expression(x) => x.show(),
        }
    }
}

/// What an entity holds, with a description's text as a sequence of characters.
pub enum EntityView {
    Description(Seq<char>),
    Expression(Expr),
}

impl View for Entity {
    type V = EntityView;

    open spec fn view(&self) -> EntityView {
        match self {
            Entity::Description(s) => EntityView::Description(s@),
            Entity::Expression(e) => EntityView::Expression(*e),
        }
    }
}

/// The views of a sequence of entities.
pub open spec fn views(es: Seq<Entity>) -> Seq<EntityView> {
    es.map_values(|e: Entity| e@)
}

/// One token of a flat roll: a sequence read left to right, in which
/// operators apply to the term that follows them.
#[derive(Debug, PartialOrd, PartialEq, Eq, Ord, Hash, Clone)]
pub enum Token {
    Num(Int),
    Dice(Dice),
    Operator(Operator),
    Description(String),
    /// A variable reference (`'name`); evaluation does not support it.
    Variable(String),
}

} // verus!
