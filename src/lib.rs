//! Parsing and evaluation of free-form dice notation.
//!
//! Text such as `小圆roll了 4d100+1d6` is split into an ordered sequence of
//! entities: free-text descriptions kept verbatim, and arithmetic expressions
//! over dice terms and numerals. An expression evaluates to a number together
//! with a readable trace of how it was computed.

pub mod text;
pub mod types;
pub mod parser;
pub mod evaluator;

use vstd::prelude::*;
use crate::evaluator::{
    agrees, entities_in_bounds, entity_faces, draws_fit, has_expression, text_outcome, Context,
    EvalError, DEFAULT_FACE,
};
use crate::parser::segment;
use crate::types::{views, Entity, Int};

verus! {

/// The context that `eval` evaluates with: dice without a face have
/// `DEFAULT_FACE` faces.
pub open spec fn default_context() -> Context {
    Context { default_face: DEFAULT_FACE }
}

/// Splits `s` into descriptions and expressions, in order. This never fails:
/// what does not parse as an expression is kept as description.
pub fn parse(s: String) -> (r: Vec<Entity>)
    ensures
        views(r@) == segment(s@),
{
    parser::parse(s.as_str())
}

/// Parses `s` and evaluates it with the default context: the expressions are
/// evaluated and summed, and the trace holds each expression's trace and each
/// description, in order. Fails with `ParseFailure` when `s` holds no
/// expression, with `DiceBoundsExceeded` when a dice term cannot be drawn, and
/// with `ArithmeticError` on overflow or division by zero.
pub fn eval(s: String) -> (r: Result<(Int, String), EvalError>)
    ensures
        !has_expression(segment(s@)) ==> r == Err::<(Int, String), EvalError>(EvalError::ParseFailure),
        has_expression(segment(s@)) && !entities_in_bounds(default_context(), segment(s@)) ==> r
            == Err::<(Int, String), EvalError>(EvalError::DiceBoundsExceeded),
        has_expression(segment(s@)) && entities_in_bounds(default_context(), segment(s@)) ==> exists|
            ds: Seq<Int>,
        |
            draws_fit(ds, entity_faces(default_context(), segment(s@))) && agrees(
                r,
                #[trigger] text_outcome(segment(s@), ds),
            ),
{
    let context = Context::new();
    let es = parser::parse(s.as_str());
    evaluator::eval_entities(&context, &es)
}

} // verus!
