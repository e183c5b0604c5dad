//! Evaluation of expressions and of flat rolls into a value and a trace.
//!
//! Dice are drawn first, then folded: the functions that take the draws as an
//! argument (`eval_expr_with`, `eval_roll_with`, `eval_entities_with`) are
//! exact for every value of them, and the functions that draw (`eval_expr`,
//! `eval_roll`, `eval`) state what holds of every outcome.

use vstd::prelude::*;
use crate::text::{decimal, push_decimal};
use crate::types::{glyph, push_str, views, Dice, Entity, EntityView, Expr, Int, Operator, Token};

verus! {

/// The largest number of dice in one term.
pub const MAX_DICE: Int = 999;

/// The largest face of a die.
pub const MAX_FACE: Int = 10000;

/// The face of a die when a dice term leaves it out.
pub const DEFAULT_FACE: Int = 100;

/// Why an evaluation failed.
#[derive(Debug, PartialEq, Eq, Clone, Copy, Structural)]
pub enum EvalError {
    /// The text holds no expression to evaluate.
    ParseFailure,
    /// A dice term asks for more than `MAX_DICE` dice, for a negative count,
    /// or for a face outside `1..=MAX_FACE`.
    DiceBoundsExceeded,
    /// A step overflowed, or divided by zero.
    ArithmeticError,
}

/// Settings of an evaluation.
#[derive(Debug, Clone, Copy)]
pub struct Context {
    /// The face of a die whose term leaves the face out.
    pub default_face: Int,
}

/// The face that a die of face `face` has under `ctx`.
pub open spec fn resolved_face(ctx: Context, face: Option<Int>) -> Int {
    match face {
        Some(f) => f,
        None => ctx.default_face,
    }
}

/// Whether `d` can be drawn under `ctx`: at most `MAX_DICE` dice, none
/// negative, of a face in `1..=MAX_FACE`.
pub open spec fn dice_in_bounds(ctx: Context, d: Dice) -> bool {
    &&& 0 <= d.number <= MAX_DICE
    &&& 1 <= resolved_face(ctx, d.face) <= MAX_FACE
}

/// Whether every draw of `ds` lies between `1` and its face in `fs`.
pub open spec fn draws_fit(ds: Seq<Int>, fs: Seq<Int>) -> bool {
    &&& ds.len() == fs.len()
    &&& forall|k: int| 0 <= k < ds.len() ==> 1 <= #[trigger] ds[k] <= fs[k]
}

/// Relies on rand's `Rng::gen_range(low, high)` on `thread_rng()`: a value in
/// `low..high`; it panics when `low >= high`.
#[verifier::external_body]
fn random_in(low: Int, high: Int) -> (r: Int)
    requires
        low < high,
    ensures
        low <= r < high,
{
    rand::Rng::gen_range(&mut rand::thread_rng(), low, high)
}

impl Context {
    /// A context whose default face is `DEFAULT_FACE` (100).
    pub fn new() -> (r: Context)
        ensures
            r.default_face == DEFAULT_FACE,
    {
        Context { default_face: DEFAULT_FACE }
    }

    /// One uniform draw of a die of face `n` (the default face when `None`).
    /// A face of 1 gives 1 without drawing.
    pub fn roll(&self, n: Option<Int>) -> (r: Int)
        requires
            1 <= resolved_face(*self, n) < Int::MAX,
        ensures
            1 <= r <= resolved_face(*self, n),
    {
        let face = match n {
            Some(f) => f,
            None => self.default_face,
        };
        if face == 1 {
            return 1;
        }
        random_in(1, face + 1)
    }
}

/// The draws of a dice term: `number` draws, each between 1 and the face.
pub fn dice_roll(context: &Context, dice: Dice) -> (r: Result<Vec<Int>, EvalError>)
    ensures
        r is Ok <==> dice_in_bounds(*context, dice),
        r is Err ==> r->Err_0 == EvalError::DiceBoundsExceeded,
        r is Ok ==> draws_fit(r->Ok_0@, Seq::new(dice.number as nat, |k: int| resolved_face(*context, dice.face))),
{
    let face = match dice.face {
        Some(f) => f,
        None => context.default_face,
    };
    if face < 1 || face > MAX_FACE || dice.number < 0 || dice.number > MAX_DICE {
        return Err(EvalError::DiceBoundsExceeded);
    }
    let mut out: Vec<Int> = Vec::new();
    let mut k: Int = 0;
    while k < dice.number
        invariant
            0 <= k <= dice.number,
            1 <= face <= MAX_FACE,
            face == resolved_face(*context, dice.face),
            out@.len() == k,
            forall|m: int| 0 <= m < k ==> 1 <= #[trigger] out@[m] <= face,
        decreases dice.number - k,
    {
        let x = context.roll(dice.face);
        out.push(x);
        k += 1;
    }
    Ok(out)
}

/// `a op b`, or `None` on overflow or division by zero. Division truncates
/// toward zero; `Max` and `Min` pick one of the two.
pub open spec fn apply(op: Operator, a: Int, b: Int) -> Option<Int> {
    match op {
        Operator::Add => a.checked_add(b),
        Operator::Sub => a.checked_sub(b),
        Operator::Mul => a.checked_mul(b),
        Operator::Div => a.checked_div(b),
        Operator::Max => Some(if a >= b { a } else { b }),
        Operator::Min => Some(if a <= b { a } else { b }),
    }
}

/// `a op b`, or `None` on overflow or division by zero.
pub fn apply_op(op: Operator, a: Int, b: Int) -> (r: Option<Int>)
    ensures
        r == apply(op, a, b),
{
    match op {
        Operator::Add => a.checked_add(b),
        Operator::Sub => a.checked_sub(b),
        Operator::Mul => a.checked_mul(b),
        Operator::Div => a.checked_div(b),
        Operator::Max => Some(if a >= b { a } else { b }),
        Operator::Min => Some(if a <= b { a } else { b }),
    }
}

/// The sum of `xs`, added left to right, or `None` if a partial sum overflows.
pub open spec fn checked_sum(xs: Seq<Int>) -> Option<Int>
    decreases xs.len(),
{
    if xs.len() == 0 {
        Some(0)
    } else {
        match checked_sum(xs.drop_last()) {
            Some(a) => a.checked_add(xs.last()),
            None => None,
        }
    }
}

/// The larger of `a` and `b` for `Max`, the smaller for `Min`.
pub open spec fn pick(op: Operator, a: Int, b: Int) -> Int {
    if op == Operator::Min {
        if a <= b { a } else { b }
    } else {
        if a >= b { a } else { b }
    }
}

/// The largest (for `Max`) or smallest (for `Min`) element of `xs`; `0` when
/// `xs` is empty.
pub open spec fn extreme(op: Operator, xs: Seq<Int>) -> Int
    decreases xs.len(),
{
    if xs.len() == 0 {
        0
    } else if xs.len() == 1 {
        xs[0]
    } else {
        pick(op, extreme(op, xs.drop_last()), xs.last())
    }
}

/// The elements of `xs` in decimal, separated by `, `.
pub open spec fn list_items(xs: Seq<Int>) -> Seq<char>
    decreases xs.len(),
{
    if xs.len() == 0 {
        Seq::empty()
    } else if xs.len() == 1 {
        decimal(xs[0] as int)
    } else {
        list_items(xs.drop_last()) + seq![',', ' '] + decimal(xs.last() as int)
    }
}

/// `xs` as a list: `[3, 5, 1]`.
pub open spec fn list_text(xs: Seq<Int>) -> Seq<char> {
    seq!['['] + list_items(xs) + seq![']']
}

/// How the draws `xs` of a dice term came to `total`: `[3, 5] = 8` for more
/// than one draw, else the total alone.
pub open spec fn roll_text(xs: Seq<Int>, total: Int) -> Seq<char> {
    if xs.len() > 1 {
        list_text(xs) + seq![' ', '=', ' '] + decimal(total as int)
    } else {
        decimal(total as int)
    }
}

proof fn lemma_checked_sum_stays_none(ds: Seq<Int>, from: int, k: int, to: int)
    requires
        0 <= from <= k <= to <= ds.len(),
        checked_sum(ds.subrange(from, k)) is None,
    ensures
        checked_sum(ds.subrange(from, to)) is None,
    decreases to - k,
{
    if k < to {
        assert(ds.subrange(from, k + 1).drop_last() =~= ds.subrange(from, k));
        lemma_checked_sum_stays_none(ds, from, k + 1, to);
    }
}

/// The sum of `ds[from..to]`, or `None` if a partial sum overflows.
fn sum_range(ds: &Vec<Int>, from: usize, to: usize) -> (r: Option<Int>)
    requires
        from <= to <= ds.len(),
    ensures
        r == checked_sum(ds@.subrange(from as int, to as int)),
{
    let mut acc: Int = 0;
    let mut k = from;
    assert(ds@.subrange(from as int, from as int) =~= Seq::<Int>::empty());
    while k < to
        invariant
            from <= k <= to <= ds.len(),
            checked_sum(ds@.subrange(from as int, k as int)) == Some(acc),
        decreases to - k,
    {
        assert(ds@.subrange(from as int, k + 1).drop_last() =~= ds@.subrange(from as int, k as int));
        match acc.checked_add(ds[k]) {
            None => {
                proof {
                    lemma_checked_sum_stays_none(ds@, from as int, k + 1, to as int);
                }
                return None;
            },
            Some(v) => {
                acc = v;
            },
        }
        k += 1;
    }
    Some(acc)
}

/// The largest (for `Max`) or smallest (for `Min`) of `ds[from..to]`; `0`
/// when the range is empty.
fn extreme_range(op: Operator, ds: &Vec<Int>, from: usize, to: usize) -> (r: Int)
    requires
        from <= to <= ds.len(),
    ensures
        r == extreme(op, ds@.subrange(from as int, to as int)),
{
    if from == to {
        return 0;
    }
    let mut acc: Int = ds[from];
    let mut k = from + 1;
    assert(ds@.subrange(from as int, k as int) =~= seq![ds@[from as int]]);
    while k < to
        invariant
            from < k <= to <= ds.len(),
            acc == extreme(op, ds@.subrange(from as int, k as int)),
        decreases to - k,
    {
        assert(ds@.subrange(from as int, k + 1).drop_last() =~= ds@.subrange(from as int, k as int));
        let x = ds[k];
        if op == Operator::Min {
            if x < acc {
                acc = x;
            }
        } else {
            if x > acc {
                acc = x;
            }
        }
        k += 1;
    }
    acc
}

/// Appends `ds[from..to]` as a list, `[3, 5, 1]`, to `out`.
fn push_list(out: &mut String, ds: &Vec<Int>, from: usize, to: usize)
    requires
        from <= to <= ds.len(),
    ensures
        final(out)@ == old(out)@ + list_text(ds@.subrange(from as int, to as int)),
{
    let ghost start = out@;
    out.push('[');
    let mut k = from;
    assert(ds@.subrange(from as int, k as int) =~= Seq::<Int>::empty());
    while k < to
        invariant
            from <= k <= to <= ds.len(),
            out@ == start + seq!['['] + list_items(ds@.subrange(from as int, k as int)),
        decreases to - k,
    {
        assert(ds@.subrange(from as int, k + 1).drop_last() =~= ds@.subrange(from as int, k as int));
        if k > from {
            out.push(',');
            out.push(' ');
        }
        push_decimal(out, ds[k]);
        k += 1;
        assert(out@ =~= start + seq!['['] + list_items(ds@.subrange(from as int, k as int)));
    }
    out.push(']');
    assert(out@ =~= start + list_text(ds@.subrange(from as int, to as int)));
}

/// Appends how the draws `ds[from..to]` came to `total` to `out`.
fn push_roll(out: &mut String, ds: &Vec<Int>, from: usize, to: usize, total: Int)
    requires
        from <= to <= ds.len(),
    ensures
        final(out)@ == old(out)@ + roll_text(ds@.subrange(from as int, to as int), total),
{
    let ghost start = out@;
    if to - from > 1 {
        push_list(out, ds, from, to);
        out.push(' ');
        out.push('=');
        out.push(' ');
    }
    push_decimal(out, total);
    assert(out@ =~= start + roll_text(ds@.subrange(from as int, to as int), total));
}

/// The number of draws that a dice term makes.
pub open spec fn dice_count(d: Dice) -> nat {
    if d.number > 0 {
        d.number as nat
    } else {
        0
    }
}

/// The number of draws that evaluating `e` makes.
pub open spec fn draw_count(e: Expr) -> nat
    decreases e,
{
    match e {
        Expr::Prefix(_, x) => draw_count(*x),
        Expr::Infix(l, _, r) => draw_count(*l) + draw_count(*r),
        Expr::Num(_) => 0,
        Expr::Roll(d) => dice_count(d),
        Expr::Child(x) => draw_count(*x),
    }
}

/// The faces of the draws that evaluating `e` makes, in order.
pub open spec fn faces(ctx: Context, e: Expr) -> Seq<Int>
    decreases e,
{
    match e {
        Expr::Prefix(_, x) => faces(ctx, *x),
        Expr::Infix(l, _, r) => faces(ctx, *l) + faces(ctx, *r),
        Expr::Num(_) => Seq::empty(),
        Expr::Roll(d) => Seq::new(dice_count(d), |k: int| resolved_face(ctx, d.face)),
        Expr::Child(x) => faces(ctx, *x),
    }
}

/// Whether every dice term of `e` can be drawn under `ctx`.
pub open spec fn expr_in_bounds(ctx: Context, e: Expr) -> bool
    decreases e,
{
    match e {
        Expr::Prefix(_, x) => expr_in_bounds(ctx, *x),
        Expr::Infix(l, _, r) => expr_in_bounds(ctx, *l) && expr_in_bounds(ctx, *r),
        Expr::Num(_) => true,
        Expr::Roll(d) => dice_in_bounds(ctx, d),
        Expr::Child(x) => expr_in_bounds(ctx, *x),
    }
}

/// Whether `e` is a dice term.
pub open spec fn is_roll(e: Expr) -> bool {
    e is Roll
}

/// A prefix operator applied to the value `v` of a term that is not a dice
/// term: `Max` and `Min` of one value is that value; an arithmetic operator
/// applies to `0` and `v`.
pub open spec fn unary(op: Operator, v: Int) -> Option<Int> {
    if op == Operator::Max || op == Operator::Min {
        Some(v)
    } else {
        apply(op, 0, v)
    }
}

/// The value and trace of `e`, where `ds` are its draws in order. A dice term
/// sums its draws; `max` or `min` over a dice term keeps its largest or
/// smallest draw; a binary operation folds its two sides. Every step is
/// checked.
pub open spec fn eval_tree(e: Expr, ds: Seq<Int>) -> Result<(Int, Seq<char>), EvalError>
    decreases e,
{
    match e {
        Expr::Num(n) => Ok((n, decimal(n as int))),
        Expr::Roll(_) => match checked_sum(ds) {
            Some(total) => Ok((total, roll_text(ds, total))),
            None => Err(EvalError::ArithmeticError),
        },
        Expr::Prefix(op, x) => if (op == Operator::Max || op == Operator::Min) && is_roll(*x) {
            let v = extreme(op, ds);
            Ok((v, glyph(op) + seq![' '] + roll_text(ds, v)))
        } else {
            match eval_tree(*x, ds) {
                Ok((v, tx)) => match unary(op, v) {
                    Some(w) => Ok((w, glyph(op) + seq![' '] + tx)),
                    None => Err(EvalError::ArithmeticError),
                },
                Err(err) => Err(err),
            }
        },
        Expr::Infix(l, op, r) => {
            let c = draw_count(*l);
            match eval_tree(*l, ds.take(c as int)) {
                Ok((a, tl)) => match eval_tree(*r, ds.skip(c as int)) {
                    Ok((b, tr)) => match apply(op, a, b) {
                        Some(v) => Ok((v, tl + seq![' '] + glyph(op) + seq![' '] + tr)),
                        None => Err(EvalError::ArithmeticError),
                    },
                    Err(err) => Err(err),
                },
                Err(err) => Err(err),
            }
        },
        Expr::Child(x) => match eval_tree(*x, ds) {
            Ok((v, tx)) => Ok((v, seq!['('] + tx + seq![')'])),
            Err(err) => Err(err),
        },
    }
}

/// Whether the result `r` of an evaluation is the outcome `o`.
pub open spec fn agrees(r: Result<(Int, String), EvalError>, o: Result<(Int, Seq<char>), EvalError>) -> bool {
    match (r, o) {
        (Ok((v, t)), Ok((w, u))) => v == w && t@ == u,
        (Err(a), Err(b)) => a == b,
        _ => false,
    }
}

/// Whether `r`, the result of evaluating with the draws from `from` on, is the
/// outcome `o`, with `count` draws taken.
pub open spec fn folded(
    r: Result<(Int, String, usize), EvalError>,
    o: Result<(Int, Seq<char>), EvalError>,
    from: int,
    count: nat,
) -> bool {
    match (r, o) {
        (Ok((v, t, next)), Ok((w, u))) => v == w && t@ == u && next == from + count,
        (Err(a), Err(b)) => a == b,
        _ => false,
    }
}

/// The position after the draws of a dice term that starts at `from`.
fn dice_end(d: Dice, from: usize, len: usize) -> (r: usize)
    requires
        from + dice_count(d) <= len,
    ensures
        r == from + dice_count(d),
{
    if d.number > 0 {
        from + d.number as usize
    } else {
        from
    }
}

/// A dice term with its draws at `ds[from..]`.
fn fold_roll(d: Dice, ds: &Vec<Int>, from: usize) -> (r: Result<(Int, String, usize), EvalError>)
    requires
        from + dice_count(d) <= ds.len(),
    ensures
        folded(
            r,
            eval_tree(Expr::Roll(d), ds@.subrange(from as int, from + dice_count(d))),
            from as int,
            dice_count(d),
        ),
{
    let to = dice_end(d, from, ds.len());
    match sum_range(ds, from, to) {
        Some(total) => {
            let mut out = String::new();
            push_roll(&mut out, ds, from, to, total);
            assert(out@ =~= roll_text(ds@.subrange(from as int, to as int), total));
            Ok((total, out, to))
        },
        None => Err(EvalError::ArithmeticError),
    }
}

/// `max` or `min` over a dice term, with its draws at `ds[from..]`.
fn fold_extreme(op: Operator, d: Dice, ds: &Vec<Int>, from: usize) -> (r: Result<(Int, String, usize), EvalError>)
    requires
        from + dice_count(d) <= ds.len(),
        op == Operator::Max || op == Operator::Min,
    ensures
        folded(
            r,
            eval_tree(
                Expr::Prefix(op, Box::new(Expr::Roll(d))),
                ds@.subrange(from as int, from + dice_count(d)),
            ),
            from as int,
            dice_count(d),
        ),
{
    let to = dice_end(d, from, ds.len());
    let v = extreme_range(op, ds, from, to);
    let mut out = String::new();
    push_str(&mut out, op.show());
    out.push(' ');
    push_roll(&mut out, ds, from, to, v);
    assert(out@ =~= glyph(op) + seq![' '] + roll_text(ds@.subrange(from as int, to as int), v));
    Ok((v, out, to))
}

/// Evaluates `e` with its draws at `ds[from..]`: the value, the trace, and the
/// position after its draws.
fn fold_expr(e: &Expr, ds: &Vec<Int>, from: usize) -> (r: Result<(Int, String, usize), EvalError>)
    requires
        from + draw_count(*e) <= ds.len(),
    ensures
        folded(r, eval_tree(*e, ds@.subrange(from as int, from + draw_count(*e))), from as int, draw_count(*e)),
    decreases e, 1nat,
{
    match e {
        Expr::Num(n) => {
            let mut out = String::new();
            push_decimal(&mut out, *n);
            assert(out@ =~= decimal(*n as int));
            Ok((*n, out, from))
        },
        Expr::Roll(d) => fold_roll(*d, ds, from),
        Expr::Prefix(op, x) => {
            if let Expr::Roll(d) = &**x {
                if *op == Operator::Max || *op == Operator::Min {
                    assert(**x == Expr::Roll(*d));
                    assert(draw_count(**x) == dice_count(*d));
                    assert(draw_count(*e) == dice_count(*d));
                    assert(*e == Expr::Prefix(*op, Box::new(Expr::Roll(*d))));
                    return fold_extreme(*op, *d, ds, from);
                }
            }
            fold_prefix(e, ds, from)
        },
        Expr::Infix(_, _, _) => fold_infix(e, ds, from),
        Expr::Child(x) => match fold_expr(x, ds, from) {
            Ok((v, tx, next)) => {
                let mut out = String::new();
                out.push('(');
                push_str(&mut out, tx.as_str());
                out.push(')');
                assert(out@ =~= seq!['('] + tx@ + seq![')']);
                Ok((v, out, next))
            },
            Err(err) => Err(err),
        },
    }
}

/// A prefix operation that does not reduce a dice term.
fn fold_prefix(e: &Expr, ds: &Vec<Int>, from: usize) -> (r: Result<(Int, String, usize), EvalError>)
    requires
        e is Prefix,
        !((e->Prefix_0 == Operator::Max || e->Prefix_0 == Operator::Min) && is_roll(*e->Prefix_1)),
        from + draw_count(*e) <= ds.len(),
    ensures
        folded(r, eval_tree(*e, ds@.subrange(from as int, from + draw_count(*e))), from as int, draw_count(*e)),
    decreases e, 0nat,
{
    match e {
        Expr::Prefix(op, x) => match fold_expr(x, ds, from) {
            Ok((v, tx, next)) => {
                let w = if *op == Operator::Max || *op == Operator::Min {
                    Some(v)
                } else {
                    apply_op(*op, 0, v)
                };
                match w {
                    Some(w) => {
                        let mut out = String::new();
                        push_str(&mut out, op.show());
                        out.push(' ');
                        push_str(&mut out, tx.as_str());
                        assert(out@ =~= glyph(*op) + seq![' '] + tx@);
                        Ok((w, out, next))
                    },
                    None => Err(EvalError::ArithmeticError),
                }
            },
            Err(err) => Err(err),
        },
        _ => Err(EvalError::ArithmeticError),
    }
}

/// A binary operation: the left side with the first draws, the right side
/// with the rest.
fn fold_infix(e: &Expr, ds: &Vec<Int>, from: usize) -> (r: Result<(Int, String, usize), EvalError>)
    requires
        e is Infix,
        from + draw_count(*e) <= ds.len(),
    ensures
        folded(r, eval_tree(*e, ds@.subrange(from as int, from + draw_count(*e))), from as int, draw_count(*e)),
    decreases e, 0nat,
{
    match e {
        Expr::Infix(l, op, r) => {
            let ghost xs = ds@.subrange(from as int, from + draw_count(*e));
            let ghost c = draw_count(**l);
            assert(xs.take(c as int) =~= ds@.subrange(from as int, from + c));
            assert(xs.skip(c as int) =~= ds@.subrange(from + c, from + draw_count(*e)));
            match fold_expr(l, ds, from) {
                Ok((a, tl, mid)) => match fold_expr(r, ds, mid) {
                    Ok((b, tr, next)) => match apply_op(*op, a, b) {
                        Some(v) => {
                            let mut out = tl;
                            out.push(' ');
                            push_str(&mut out, op.show());
                            out.push(' ');
                            push_str(&mut out, tr.as_str());
                            assert(out@ =~= tl@ + seq![' '] + glyph(*op) + seq![' '] + tr@);
                            Ok((v, out, next))
                        },
                        None => Err(EvalError::ArithmeticError),
                    },
                    Err(err) => Err(err),
                },
                Err(err) => Err(err),
            }
        },
        _ => Err(EvalError::ArithmeticError),
    }
}

/// Evaluates `e` with the draws `draws`, one per die of its dice terms in
/// order. Fails with `ArithmeticError` on overflow or division by zero.
pub fn eval_expr_with(e: &Expr, draws: &Vec<Int>) -> (r: Result<(Int, String), EvalError>)
    requires
        draws.len() == draw_count(*e),
    ensures
        agrees(r, eval_tree(*e, draws@)),
{
    assert(draws@.subrange(0, draw_count(*e) as int) =~= draws@);
    match fold_expr(e, draws, 0) {
        Ok((v, t, _)) => Ok((v, t)),
        Err(err) => Err(err),
    }
}

proof fn lemma_draws_fit_concat(a: Seq<Int>, fa: Seq<Int>, b: Seq<Int>, fb: Seq<Int>)
    requires
        draws_fit(a, fa),
        draws_fit(b, fb),
    ensures
        draws_fit(a + b, fa + fb),
{
    assert forall|k: int| 0 <= k < (a + b).len() implies 1 <= #[trigger] (a + b)[k] <= (fa + fb)[k] by {
        if k >= a.len() {
            assert(b[k - a.len()] == (a + b)[k]);
        } else {
            assert(a[k] == (a + b)[k]);
        }
    }
}

/// Draws the dice of `e` in order and appends the draws to `out`.
fn draw_expr(context: &Context, e: &Expr, out: &mut Vec<Int>) -> (r: Result<(), EvalError>)
    ensures
        r is Ok <==> expr_in_bounds(*context, *e),
        r is Err ==> r->Err_0 == EvalError::DiceBoundsExceeded,
        r is Ok ==> old(out)@.len() <= final(out)@.len(),
        r is Ok ==> final(out)@.take(old(out)@.len() as int) == old(out)@,
        r is Ok ==> draws_fit(final(out)@.skip(old(out)@.len() as int), faces(*context, *e)),
    decreases e,
{
    let ghost before = out@;
    match e {
        Expr::Num(_) => {
            assert(out@.skip(before.len() as int) =~= Seq::<Int>::empty());
            assert(out@.take(before.len() as int) =~= before);
            Ok(())
        },
        Expr::Roll(d) => match dice_roll(context, *d) {
            Err(err) => Err(err),
            Ok(mut v) => {
                let ghost drawn = v@;
                out.append(&mut v);
                assert(out@.skip(before.len() as int) =~= drawn);
                assert(out@.take(before.len() as int) =~= before);
                assert(faces(*context, *e) =~= Seq::new(d.number as nat, |k: int| resolved_face(*context, d.face)));
                Ok(())
            },
        },
        Expr::Prefix(_, x) => draw_expr(context, x, out),
        Expr::Child(x) => draw_expr(context, x, out),
        Expr::Infix(l, _, r) => {
            match draw_expr(context, l, out) {
                Err(err) => Err(err),
                Ok(()) => {
                    let ghost mid = out@;
                    match draw_expr(context, r, out) {
                        Err(err) => Err(err),
                        Ok(()) => {
                            assert(out@.take(mid.len() as int) == mid);
                            assert(out@.take(before.len() as int) =~= before) by {
                                assert(out@.take(before.len() as int) =~= mid.take(before.len() as int));
                            }
                            assert(out@.skip(before.len() as int) =~= mid.skip(before.len() as int) + out@.skip(mid.len() as int)) by {
                                assert(mid =~= out@.take(mid.len() as int));
                            }
                            proof {
                                lemma_draws_fit_concat(
                                    mid.skip(before.len() as int),
                                    faces(*context, **l),
                                    out@.skip(mid.len() as int),
                                    faces(*context, **r),
                                );
                            }
                            Ok(())
                        },
                    }
                },
            }
        },
    }
}

/// Whether `ds` are draws of the dice of `e` under `ctx`: one per die, in
/// order, each between 1 and its face.
pub open spec fn draws_of(ctx: Context, e: Expr, ds: Seq<Int>) -> bool {
    draws_fit(ds, faces(ctx, e))
}

/// Evaluates `e`: draws its dice, then folds. Fails with
/// `DiceBoundsExceeded` exactly when a dice term cannot be drawn, before any
/// draw; else the result is the fold of `e` over some draws of its dice.
pub fn eval_expr(context: &Context, e: &Expr) -> (r: Result<(Int, String), EvalError>)
    ensures
        !expr_in_bounds(*context, *e) ==> r == Err::<(Int, String), EvalError>(EvalError::DiceBoundsExceeded),
        expr_in_bounds(*context, *e) ==> exists|ds: Seq<Int>|
            draws_of(*context, *e, ds) && agrees(r, #[trigger] eval_tree(*e, ds)),
{
    let mut ds: Vec<Int> = Vec::new();
    match draw_expr(context, e, &mut ds) {
        Err(err) => Err(err),
        Ok(()) => {
            assert(ds@.skip(0) =~= ds@);
            proof {
                lemma_faces_len(*context, *e);
            }
            let r = eval_expr_with(e, &ds);
            assert(draws_of(*context, *e, ds@));
            r
        },
    }
}

/// The state of a flat roll: the running value, the pending operators (the
/// last one applies first), and the trace so far.
pub struct RollState {
    pub value: Int,
    pub ops: Seq<Operator>,
    pub trace: Seq<char>,
    /// Whether the trace holds a piece yet; pieces are separated by a space.
    pub started: bool,
}

/// The state before the first token: value 0, `Add` pending, empty trace.
pub open spec fn initial_state() -> RollState {
    RollState { value: 0, ops: seq![Operator::Add], trace: Seq::empty(), started: false }
}

/// `st` with `piece` added to its trace.
pub open spec fn logged(st: RollState, piece: Seq<char>) -> RollState {
    RollState {
        trace: if st.started { st.trace + seq![' '] + piece } else { st.trace + piece },
        started: true,
        ..st
    }
}

/// Folds the operands `xs` of a term into `st`: pending operators are taken
/// from the last one; `max` and `min` reduce `xs` to its largest or smallest
/// element and go on; any other operator sums `xs` into the value and stops.
pub open spec fn settle(st: RollState, xs: Seq<Int>) -> Result<RollState, EvalError>
    decreases st.ops.len(),
{
    if st.ops.len() == 0 {
        Ok(st)
    } else {
        let op = st.ops.last();
        let popped = RollState { ops: st.ops.drop_last(), ..st };
        let st1 = if xs.len() > 1 {
            logged(popped, list_text(xs) + seq![' ', '='])
        } else {
            popped
        };
        if op == Operator::Max || op == Operator::Min {
            settle(st1, if xs.len() == 0 { Seq::empty() } else { seq![extreme(op, xs)] })
        } else {
            match checked_sum(xs) {
                None => Err(EvalError::ArithmeticError),
                Some(x) => match apply(op, st1.value, x) {
                    None => Err(EvalError::ArithmeticError),
                    Some(v) => Ok(RollState { value: v, ..logged(st1, decimal(x as int)) }),
                },
            }
        }
    }
}

/// The trace piece of an unsupported variable reference.
pub open spec fn unsupported_text(name: Seq<char>) -> Seq<char> {
    seq!['.'] + name + seq!['(', 'u', 'n', 's', 'u', 'p', 'p', 'o', 'r', 't', 'e', 'd', ')']
}

/// `st` after a term with operands `xs`: folded, then `Add` pending again.
pub open spec fn after_term(st: RollState, xs: Seq<Int>) -> Result<RollState, EvalError> {
    match settle(st, xs) {
        Ok(s) => Ok(RollState { ops: seq![Operator::Add], ..s }),
        Err(err) => Err(err),
    }
}

/// `st` after the token `tok`, whose draws are `xs`.
pub open spec fn step(st: RollState, tok: Token, xs: Seq<Int>) -> Result<RollState, EvalError> {
    match tok {
        Token::Num(x) => after_term(st, seq![x]),
        Token::Dice(_) => after_term(st, xs),
        Token::Operator(op) => Ok(logged(RollState { ops: st.ops.push(op), ..st }, glyph(op))),
        Token::Description(d) => Ok(logged(st, d@)),
        Token::Variable(v) => Ok(logged(st, unsupported_text(v@))),
    }
}

/// The number of draws that the token makes.
pub open spec fn token_count(tok: Token) -> nat {
    match tok {
        Token::Dice(d) => dice_count(d),
        _ => 0,
    }
}

/// The number of draws that the tokens make.
pub open spec fn roll_count(toks: Seq<Token>) -> nat
    decreases toks.len(),
{
    if toks.len() == 0 {
        0
    } else {
        roll_count(toks.drop_last()) + token_count(toks.last())
    }
}

/// The state after the tokens `toks`, whose draws are `ds` in order.
pub open spec fn run_roll(toks: Seq<Token>, ds: Seq<Int>) -> Result<RollState, EvalError>
    decreases toks.len(),
{
    if toks.len() == 0 {
        Ok(initial_state())
    } else {
        let c = roll_count(toks.drop_last());
        match run_roll(toks.drop_last(), ds.take(c as int)) {
            Ok(st) => step(st, toks.last(), ds.skip(c as int)),
            Err(err) => Err(err),
        }
    }
}

/// The value and trace of a flat roll, whose draws are `ds` in order.
pub open spec fn roll_outcome(toks: Seq<Token>, ds: Seq<Int>) -> Result<(Int, Seq<char>), EvalError> {
    match run_roll(toks, ds) {
        Ok(st) => Ok((st.value, st.trace)),
        Err(err) => Err(err),
    }
}

/// The running state of a flat roll.
struct Tally {
    value: Int,
    ops: Vec<Operator>,
    trace: String,
    started: bool,
}

impl Tally {
    spec fn state(&self) -> RollState {
        RollState { value: self.value, ops: self.ops@, trace: self.trace@, started: self.started }
    }

    /// Separates a new piece of the trace from the previous one.
    fn open_piece(&mut self)
        ensures
            final(self).value == old(self).value,
            final(self).ops@ == old(self).ops@,
            final(self).started,
            final(self).trace@ == if old(self).started {
                old(self).trace@ + seq![' ']
            } else {
                old(self).trace@
            },
    {
        if self.started {
            self.trace.push(' ');
        }
        self.started = true;
    }

    fn log(&mut self, piece: &str)
        ensures
            final(self).state() == logged(old(self).state(), piece@),
    {
        let ghost st = self.state();
        self.open_piece();
        push_str(&mut self.trace, piece);
        assert(self.trace@ =~= logged(st, piece@).trace);
    }

    fn log_number(&mut self, x: Int)
        ensures
            final(self).state() == logged(old(self).state(), decimal(x as int)),
    {
        let ghost st = self.state();
        self.open_piece();
        push_decimal(&mut self.trace, x);
        assert(self.trace@ =~= logged(st, decimal(x as int)).trace);
    }

    fn log_list(&mut self, xs: &Vec<Int>)
        ensures
            final(self).state() == logged(old(self).state(), list_text(xs@) + seq![' ', '=']),
    {
        let ghost st = self.state();
        self.open_piece();
        push_list(&mut self.trace, xs, 0, xs.len());
        self.trace.push(' ');
        self.trace.push('=');
        assert(xs@.subrange(0, xs@.len() as int) =~= xs@);
        assert(self.trace@ =~= logged(st, list_text(xs@) + seq![' ', '=']).trace);
    }

    fn log_unsupported(&mut self, name: &String)
        ensures
            final(self).state() == logged(old(self).state(), unsupported_text(name@)),
    {
        let ghost st = self.state();
        self.open_piece();
        self.trace.push('.');
        push_str(&mut self.trace, name.as_str());
        proof {
            reveal_strlit("(unsupported)");
        }
        push_str(&mut self.trace, "(unsupported)");
        assert(self.trace@ =~= logged(st, unsupported_text(name@)).trace);
    }

    /// Folds the operands `xs` of a term into the state.
    fn settle(&mut self, xs: Vec<Int>) -> (r: Result<(), EvalError>)
        ensures
            match settle(old(self).state(), xs@) {
                Ok(st) => r is Ok && final(self).state() == st,
                Err(err) => r == Err::<(), EvalError>(err),
            },
        decreases old(self).ops@.len(),
    {
        let ghost st0 = self.state();
        match self.ops.pop() {
            None => Ok(()),
            Some(op) => {
                assert(self.state() == RollState { ops: st0.ops.drop_last(), ..st0 });
                if xs.len() > 1 {
                    self.log_list(&xs);
                }
                if op == Operator::Max || op == Operator::Min {
                    let ys: Vec<Int> = if xs.len() == 0 {
                        Vec::new()
                    } else {
                        let m = extreme_range(op, &xs, 0, xs.len());
                        vec![m]
                    };
                    assert(xs@.subrange(0, xs@.len() as int) =~= xs@);
                    assert(ys@ =~= if xs@.len() == 0 { Seq::empty() } else { seq![extreme(op, xs@)] });
                    self.settle(ys)
                } else {
                    assert(xs@.subrange(0, xs@.len() as int) =~= xs@);
                    match sum_range(&xs, 0, xs.len()) {
                        None => Err(EvalError::ArithmeticError),
                        Some(x) => match apply_op(op, self.value, x) {
                            None => Err(EvalError::ArithmeticError),
                            Some(v) => {
                                self.log_number(x);
                                self.value = v;
                                Ok(())
                            },
                        },
                    }
                }
            },
        }
    }

    /// Folds a term, then makes `Add` pending again.
    fn term(&mut self, xs: Vec<Int>) -> (r: Result<(), EvalError>)
        ensures
            match after_term(old(self).state(), xs@) {
                Ok(st) => r is Ok && final(self).state() == st,
                Err(err) => r == Err::<(), EvalError>(err),
            },
    {
        match self.settle(xs) {
            Ok(()) => {
                self.ops = vec![Operator::Add];
                assert(self.ops@ =~= seq![Operator::Add]);
                Ok(())
            },
            Err(err) => Err(err),
        }
    }
}

/// The draws `ds[from..to]` as a vector.
fn copy_range(ds: &Vec<Int>, from: usize, to: usize) -> (r: Vec<Int>)
    requires
        from <= to <= ds.len(),
    ensures
        r@ == ds@.subrange(from as int, to as int),
{
    let mut out: Vec<Int> = Vec::new();
    let mut k = from;
    while k < to
        invariant
            from <= k <= to <= ds.len(),
            out@ == ds@.subrange(from as int, k as int),
        decreases to - k,
    {
        out.push(ds[k]);
        k += 1;
        assert(out@ =~= ds@.subrange(from as int, k as int));
    }
    out
}

proof fn lemma_roll_count_mono(toks: Seq<Token>, i: int, j: int)
    requires
        0 <= i <= j <= toks.len(),
    ensures
        roll_count(toks.take(i)) <= roll_count(toks.take(j)),
    decreases j - i,
{
    if i < j {
        assert(toks.take(j).drop_last() =~= toks.take(j - 1));
        lemma_roll_count_mono(toks, i, j - 1);
    }
}

proof fn lemma_run_roll_fails_on(toks: Seq<Token>, ds: Seq<Int>, i: int, err: EvalError)
    requires
        0 <= i <= toks.len(),
        roll_count(toks) <= ds.len(),
        run_roll(toks.take(i), ds.take(roll_count(toks.take(i)) as int)) == Err::<RollState, EvalError>(err),
    ensures
        run_roll(toks, ds.take(roll_count(toks) as int)) == Err::<RollState, EvalError>(err),
    decreases toks.len() - i,
{
    if i < toks.len() {
        let t1 = toks.take(i + 1);
        assert(t1.drop_last() =~= toks.take(i));
        lemma_roll_count_mono(toks, i + 1, toks.len() as int);
        assert(toks.take(toks.len() as int) =~= toks);
        let c = roll_count(toks.take(i));
        let c1 = roll_count(t1);
        assert(ds.take(c1 as int).take(c as int) =~= ds.take(c as int));
        lemma_run_roll_fails_on(toks, ds, i + 1, err);
    } else {
        assert(toks.take(i) =~= toks);
    }
}

/// Evaluates the flat roll `roll` with the draws `draws`, one per die of its
/// dice tokens in order. Fails with `ArithmeticError` on overflow or division
/// by zero.
pub fn eval_roll_with(roll: &Vec<Token>, draws: &Vec<Int>) -> (r: Result<(Int, String), EvalError>)
    requires
        draws.len() == roll_count(roll@),
    ensures
        agrees(r, roll_outcome(roll@, draws@)),
{
    let mut t = Tally { value: 0, ops: vec![Operator::Add], trace: String::new(), started: false };
    let mut pos: usize = 0;
    let mut i: usize = 0;
    assert(roll@.take(0) =~= Seq::<Token>::empty());
    assert(t.ops@ =~= seq![Operator::Add]);
    assert(t.trace@ =~= Seq::<char>::empty());
    assert(t.state() == initial_state());
    while i < roll.len()
        invariant
            i <= roll.len(),
            draws.len() == roll_count(roll@),
            pos == roll_count(roll@.take(i as int)),
            run_roll(roll@.take(i as int), draws@.take(pos as int)) == Ok::<RollState, EvalError>(t.state()),
        decreases roll.len() - i,
    {
        let ghost prefix = roll@.take(i + 1);
        assert(prefix.drop_last() =~= roll@.take(i as int));
        assert(prefix.last() == roll@[i as int]);
        proof {
            lemma_roll_count_mono(roll@, i + 1, roll@.len() as int);
            assert(roll@.take(roll@.len() as int) =~= roll@);
        }
        let ghost next = roll_count(prefix);
        assert(draws@.take(next as int).take(pos as int) =~= draws@.take(pos as int));
        match &roll[i] {
            Token::Num(x) => {
                let xs = vec![*x];
                assert(xs@ =~= seq![*x]);
                if let Err(err) = t.term(xs) {
                    proof {
                        lemma_run_roll_fails_on(roll@, draws@, i + 1, err);
                        assert(draws@.take(draws@.len() as int) =~= draws@);
                    }
                    return Err(err);
                }
            },
            Token::Dice(d) => {
                let end = dice_end(*d, pos, draws.len());
                let xs = copy_range(draws, pos, end);
                assert(draws@.take(next as int).skip(pos as int) =~= xs@);
                if let Err(err) = t.term(xs) {
                    proof {
                        lemma_run_roll_fails_on(roll@, draws@, i + 1, err);
                        assert(draws@.take(draws@.len() as int) =~= draws@);
                    }
                    return Err(err);
                }
                pos = end;
            },
            Token::Operator(op) => {
                t.ops.push(*op);
                t.log(op.show());
            },
            Token::Description(d) => {
                t.log(d.as_str());
            },
            Token::Variable(v) => {
                t.log_unsupported(v);
            },
        }
        i += 1;
    }
    assert(roll@.take(roll@.len() as int) =~= roll@);
    assert(draws@.take(pos as int) =~= draws@);
    Ok((t.value, t.trace))
}

/// Whether the token can be drawn under `ctx`.
pub open spec fn token_in_bounds(ctx: Context, tok: Token) -> bool {
    match tok {
        Token::Dice(d) => dice_in_bounds(ctx, d),
        _ => true,
    }
}

/// Whether every dice token of `toks` can be drawn under `ctx`.
pub open spec fn roll_in_bounds(ctx: Context, toks: Seq<Token>) -> bool {
    forall|k: int| 0 <= k < toks.len() ==> token_in_bounds(ctx, #[trigger] toks[k])
}

/// The faces of the draws that the token makes.
pub open spec fn token_faces(ctx: Context, tok: Token) -> Seq<Int> {
    match tok {
        Token::Dice(d) => Seq::new(dice_count(d), |k: int| resolved_face(ctx, d.face)),
        _ => Seq::empty(),
    }
}

/// The faces of the draws that the tokens make, in order.
pub open spec fn roll_faces(ctx: Context, toks: Seq<Token>) -> Seq<Int>
    decreases toks.len(),
{
    if toks.len() == 0 {
        Seq::empty()
    } else {
        roll_faces(ctx, toks.drop_last()) + token_faces(ctx, toks.last())
    }
}

proof fn lemma_roll_faces_len(ctx: Context, toks: Seq<Token>)
    ensures
        roll_faces(ctx, toks).len() == roll_count(toks),
    decreases toks.len(),
{
    if toks.len() > 0 {
        lemma_roll_faces_len(ctx, toks.drop_last());
    }
}

/// Draws the dice of the dice tokens of `roll`, in order.
fn draw_roll(context: &Context, roll: &Vec<Token>) -> (r: Result<Vec<Int>, EvalError>)
    ensures
        r is Ok <==> roll_in_bounds(*context, roll@),
        r is Err ==> r->Err_0 == EvalError::DiceBoundsExceeded,
        r is Ok ==> draws_fit(r->Ok_0@, roll_faces(*context, roll@)),
{
    let mut out: Vec<Int> = Vec::new();
    let mut i: usize = 0;
    assert(roll@.take(0) =~= Seq::<Token>::empty());
    while i < roll.len()
        invariant
            i <= roll.len(),
            forall|k: int| 0 <= k < i ==> token_in_bounds(*context, #[trigger] roll@[k]),
            draws_fit(out@, roll_faces(*context, roll@.take(i as int))),
        decreases roll.len() - i,
    {
        let ghost before = out@;
        assert(roll@.take(i + 1).drop_last() =~= roll@.take(i as int));
        if let Token::Dice(d) = &roll[i] {
            match dice_roll(context, *d) {
                Err(err) => {
                    return Err(err);
                },
                Ok(mut v) => {
                    let ghost drawn = v@;
                    out.append(&mut v);
                    proof {
                        lemma_draws_fit_concat(before, roll_faces(*context, roll@.take(i as int)), drawn, token_faces(*context, roll@[i as int]));
                    }
                },
            }
        } else {
            assert(out@ =~= out@ + Seq::<Int>::empty());
            assert(roll_faces(*context, roll@.take(i + 1)) =~= roll_faces(*context, roll@.take(i as int)));
        }
        i += 1;
    }
    assert(roll@.take(roll@.len() as int) =~= roll@);
    Ok(out)
}

/// Evaluates the flat roll `roll`, read left to right: a numeral or a dice
/// term is folded into the value through the pending operators, and `Add` is
/// pending again after it; an operator is logged and becomes pending; a
/// description is logged verbatim; a variable is logged as unsupported. Fails
/// with `DiceBoundsExceeded` exactly when a dice token cannot be drawn, before
/// any draw; else the result is the fold of `roll` over some draws of its dice.
pub fn eval_roll(context: &Context, roll: Vec<Token>) -> (r: Result<(Int, String), EvalError>)
    ensures
        !roll_in_bounds(*context, roll@) ==> r == Err::<(Int, String), EvalError>(EvalError::DiceBoundsExceeded),
        roll_in_bounds(*context, roll@) ==> exists|ds: Seq<Int>|
            draws_fit(ds, roll_faces(*context, roll@)) && agrees(r, #[trigger] roll_outcome(roll@, ds)),
{
    match draw_roll(context, &roll) {
        Err(err) => Err(err),
        Ok(ds) => {
            proof {
                lemma_roll_faces_len(*context, roll@);
            }
            eval_roll_with(&roll, &ds)
        },
    }
}

/// The number of draws that evaluating an entity makes.
pub open spec fn piece_count(e: EntityView) -> nat {
    match e {
        EntityView::Expression(x) => draw_count(x),
        EntityView::Description(_) => 0,
    }
}

/// The number of draws that evaluating the entities makes.
pub open spec fn entity_count(es: Seq<EntityView>) -> nat
    decreases es.len(),
{
    if es.len() == 0 {
        0
    } else {
        entity_count(es.drop_last()) + piece_count(es.last())
    }
}

/// `trace` with `piece` added, separated by a space when `started`.
pub open spec fn joined(trace: Seq<char>, started: bool, piece: Seq<char>) -> Seq<char> {
    if started {
        trace + seq![' '] + piece
    } else {
        trace + piece
    }
}

/// The running sum, trace, and whether the trace holds a piece, after the
/// entities `es`, whose draws are `ds` in order: expressions are evaluated and
/// summed, descriptions are logged verbatim.
pub open spec fn run_entities(es: Seq<EntityView>, ds: Seq<Int>) -> Result<(Int, Seq<char>, bool), EvalError>
    decreases es.len(),
{
    if es.len() == 0 {
        Ok((0, Seq::empty(), false))
    } else {
        let c = entity_count(es.drop_last());
        match run_entities(es.drop_last(), ds.take(c as int)) {
            Err(err) => Err(err),
            Ok((v, t, started)) => match es.last() {
                EntityView::Description(d) => Ok((v, joined(t, started, d), true)),
                EntityView::Expression(x) => match eval_tree(x, ds.skip(c as int)) {
                    Err(err) => Err(err),
                    Ok((w, tx)) => match v.checked_add(w) {
                        Some(total) => Ok((total, joined(t, started, tx), true)),
                        None => Err(EvalError::ArithmeticError),
                    },
                },
            },
        }
    }
}

/// Whether one of the entities is an expression.
pub open spec fn has_expression(es: Seq<EntityView>) -> bool {
    exists|k: int| 0 <= k < es.len() && #[trigger] es[k] is Expression
}

/// The value and trace of a text made of the entities `es`, whose draws are
/// `ds` in order: `ParseFailure` when no entity is an expression.
pub open spec fn text_outcome(es: Seq<EntityView>, ds: Seq<Int>) -> Result<(Int, Seq<char>), EvalError> {
    if !has_expression(es) {
        Err(EvalError::ParseFailure)
    } else {
        match run_entities(es, ds) {
            Ok((v, t, _)) => Ok((v, t)),
            Err(err) => Err(err),
        }
    }
}

proof fn lemma_entity_count_mono(es: Seq<EntityView>, i: int, j: int)
    requires
        0 <= i <= j <= es.len(),
    ensures
        entity_count(es.take(i)) <= entity_count(es.take(j)),
    decreases j - i,
{
    if i < j {
        assert(es.take(j).drop_last() =~= es.take(j - 1));
        lemma_entity_count_mono(es, i, j - 1);
    }
}

proof fn lemma_run_entities_fails_on(es: Seq<EntityView>, ds: Seq<Int>, i: int, err: EvalError)
    requires
        0 <= i <= es.len(),
        entity_count(es) <= ds.len(),
        run_entities(es.take(i), ds.take(entity_count(es.take(i)) as int)) == Err::<(Int, Seq<char>, bool), EvalError>(err),
    ensures
        run_entities(es, ds.take(entity_count(es) as int)) == Err::<(Int, Seq<char>, bool), EvalError>(err),
    decreases es.len() - i,
{
    if i < es.len() {
        let e1 = es.take(i + 1);
        assert(e1.drop_last() =~= es.take(i));
        lemma_entity_count_mono(es, i + 1, es.len() as int);
        assert(es.take(es.len() as int) =~= es);
        let c = entity_count(es.take(i));
        let c1 = entity_count(e1);
        assert(ds.take(c1 as int).take(c as int) =~= ds.take(c as int));
        lemma_run_entities_fails_on(es, ds, i + 1, err);
    } else {
        assert(es.take(i) =~= es);
    }
}

/// Evaluates a text made of the entities `es`, with the draws `draws`, one per
/// die of its expressions in order: the expressions are evaluated and summed,
/// and the trace holds each expression's trace and each description verbatim,
/// separated by spaces. Fails with `ParseFailure` when no entity is an
/// expression, and with `ArithmeticError` on overflow or division by zero.
#[verifier::rlimit(50)]
pub fn eval_entities_with(es: &Vec<Entity>, draws: &Vec<Int>) -> (r: Result<(Int, String), EvalError>)
    requires
        draws.len() == entity_count(views(es@)),
    ensures
        agrees(r, text_outcome(views(es@), draws@)),
{
    let ghost vs = views(es@);
    let mut value: Int = 0;
    let mut trace = String::new();
    let mut started = false;
    let mut seen = false;
    let mut pos: usize = 0;
    let mut i: usize = 0;
    assert(vs.take(0) =~= Seq::<EntityView>::empty());
    while i < es.len()
        invariant
            i <= es.len(),
            vs == views(es@),
            draws.len() == entity_count(vs),
            pos == entity_count(vs.take(i as int)),
            run_entities(vs.take(i as int), draws@.take(pos as int)) == Ok::<(Int, Seq<char>, bool), EvalError>((value, trace@, started)),
            seen == exists|k: int| 0 <= k < i && #[trigger] vs[k] is Expression,
        decreases es.len() - i,
    {
        let ghost prefix = vs.take(i + 1);
        assert(prefix.drop_last() =~= vs.take(i as int));
        assert(prefix.last() == vs[i as int]);
        proof {
            lemma_entity_count_mono(vs, i + 1, vs.len() as int);
            assert(vs.take(vs.len() as int) =~= vs);
        }
        let ghost next = entity_count(prefix);
        assert(draws@.take(next as int).take(pos as int) =~= draws@.take(pos as int));
        let ghost t0 = trace@;
        match &es[i] {
            Entity::Description(d) => {
                if started {
                    trace.push(' ');
                }
                push_str(&mut trace, d.as_str());
                assert(trace@ =~= joined(t0, started, d@));
                started = true;
            },
            Entity::Expression(x) => {
                assert(draws@.take(next as int).skip(pos as int) =~= draws@.subrange(pos as int, pos + draw_count(*x)));
                let failed = match fold_expr(x, draws, pos) {
                    Err(err) => Some(err),
                    Ok((w, tx, after)) => match value.checked_add(w) {
                        None => Some(EvalError::ArithmeticError),
                        Some(total) => {
                            if started {
                                trace.push(' ');
                            }
                            push_str(&mut trace, tx.as_str());
                            assert(trace@ =~= joined(t0, started, tx@));
                            started = true;
                            value = total;
                            pos = after;
                            None
                        },
                    },
                };
                if let Some(err) = failed {
                    proof {
                        lemma_run_entities_fails_on(vs, draws@, i + 1, err);
                        assert(draws@.take(draws@.len() as int) =~= draws@);
                        assert(vs[i as int] is Expression);
                    }
                    return Err(err);
                }
                seen = true;
            },
        }
        i += 1;
    }
    assert(vs.take(vs.len() as int) =~= vs);
    assert(draws@.take(pos as int) =~= draws@);
    if !seen {
        return Err(EvalError::ParseFailure);
    }
    Ok((value, trace))
}

/// Whether every expression among the entities can be drawn under `ctx`.
pub open spec fn entities_in_bounds(ctx: Context, es: Seq<EntityView>) -> bool {
    forall|k: int|
        0 <= k < es.len() && #[trigger] es[k] is Expression ==> expr_in_bounds(ctx, es[k]->Expression_0)
}

/// The faces of an entity's draws.
pub open spec fn piece_faces(ctx: Context, e: EntityView) -> Seq<Int> {
    match e {
        EntityView::Expression(x) => faces(ctx, x),
        EntityView::Description(_) => Seq::empty(),
    }
}

/// The faces of the draws that evaluating the entities makes, in order.
pub open spec fn entity_faces(ctx: Context, es: Seq<EntityView>) -> Seq<Int>
    decreases es.len(),
{
    if es.len() == 0 {
        Seq::empty()
    } else {
        entity_faces(ctx, es.drop_last()) + piece_faces(ctx, es.last())
    }
}

proof fn lemma_entity_faces_len(ctx: Context, es: Seq<EntityView>)
    ensures
        entity_faces(ctx, es).len() == entity_count(es),
    decreases es.len(),
{
    if es.len() > 0 {
        lemma_entity_faces_len(ctx, es.drop_last());
        if let EntityView::Expression(x) = es.last() {
            lemma_faces_len(ctx, x);
        }
    }
}

proof fn lemma_faces_len(ctx: Context, e: Expr)
    ensures
        faces(ctx, e).len() == draw_count(e),
    decreases e,
{
    match e {
        Expr::Prefix(_, x) => lemma_faces_len(ctx, *x),
        Expr::Infix(l, _, r) => {
            lemma_faces_len(ctx, *l);
            lemma_faces_len(ctx, *r);
        },
        Expr::Child(x) => lemma_faces_len(ctx, *x),
        _ => {},
    }
}

/// Draws the dice of the expressions among the entities, in order.
fn draw_entities(context: &Context, es: &Vec<Entity>) -> (r: Result<Vec<Int>, EvalError>)
    ensures
        r is Ok <==> entities_in_bounds(*context, views(es@)),
        r is Err ==> r->Err_0 == EvalError::DiceBoundsExceeded,
        r is Ok ==> draws_fit(r->Ok_0@, entity_faces(*context, views(es@))),
{
    let ghost vs = views(es@);
    let mut out: Vec<Int> = Vec::new();
    let mut i: usize = 0;
    assert(vs.take(0) =~= Seq::<EntityView>::empty());
    while i < es.len()
        invariant
            i <= es.len(),
            vs == views(es@),
            forall|k: int|
                0 <= k < i && #[trigger] vs[k] is Expression ==> expr_in_bounds(*context, vs[k]->Expression_0),
            draws_fit(out@, entity_faces(*context, vs.take(i as int))),
        decreases es.len() - i,
    {
        let ghost before = out@;
        assert(vs.take(i + 1).drop_last() =~= vs.take(i as int));
        match &es[i] {
            Entity::Expression(x) => {
                match draw_expr(context, x, &mut out) {
                    Err(err) => {
                        return Err(err);
                    },
                    Ok(()) => {
                        assert(out@ =~= before + out@.skip(before.len() as int)) by {
                            assert(out@.take(before.len() as int) == before);
                        }
                        proof {
                            lemma_draws_fit_concat(
                                before,
                                entity_faces(*context, vs.take(i as int)),
                                out@.skip(before.len() as int),
                                faces(*context, *x),
                            );
                        }
                    },
                }
            },
            Entity::Description(_) => {
                assert(entity_faces(*context, vs.take(i + 1)) =~= entity_faces(*context, vs.take(i as int)));
            },
        }
        i += 1;
    }
    assert(vs.take(vs.len() as int) =~= vs);
    Ok(out)
}

/// Evaluates the entities of a text with the context `context`: fails with
/// `ParseFailure` when none is an expression, and with `DiceBoundsExceeded`
/// when a dice term cannot be drawn, before any draw; else the result is the
/// evaluation of the entities over some draws of their dice.
pub fn eval_entities(context: &Context, es: &Vec<Entity>) -> (r: Result<(Int, String), EvalError>)
    ensures
        !has_expression(views(es@)) ==> r == Err::<(Int, String), EvalError>(EvalError::ParseFailure),
        has_expression(views(es@)) && !entities_in_bounds(*context, views(es@)) ==> r == Err::<(Int, String), EvalError>(EvalError::DiceBoundsExceeded),
        has_expression(views(es@)) && entities_in_bounds(*context, views(es@)) ==> exists|ds: Seq<Int>|
            draws_fit(ds, entity_faces(*context, views(es@))) && agrees(r, #[trigger] text_outcome(views(es@), ds)),
{
    let mut any = false;
    let mut i: usize = 0;
    while i < es.len()
        invariant
            i <= es.len(),
            any == exists|k: int| 0 <= k < i && #[trigger] views(es@)[k] is Expression,
        decreases es.len() - i,
    {
        assert(views(es@)[i as int] == es@[i as int]@);
        if let Entity::Expression(_) = &es[i] {
            any = true;
        }
        i += 1;
    }
    if !any {
        return Err(EvalError::ParseFailure);
    }
    match draw_entities(context, es) {
        Err(err) => Err(err),
        Ok(ds) => {
            proof {
                lemma_entity_faces_len(*context, views(es@));
            }
            eval_entities_with(es, &ds)
        },
    }
}

} // verus!
