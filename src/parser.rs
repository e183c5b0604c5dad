//! The grammar of dice notation, and the segmenter that splits free text into
//! descriptions and expressions.
//!
//! The grammar, by precedence (loosest first), each tier right-recursive:
//!
//! ```text
//! expr     := blanks expr_2 [blanks ('+' | '加' | '-' | '减') expr]
//! expr_2   := blanks terminal [blanks ('*' | '×' | '乘' | '/' | '÷' | '除') expr_2]
//! terminal := dice | numeral | prefix blanks terminal
//!           | '(' expr blanks ')' | '（' expr blanks '）'
//! dice     := [numeral] ('d' | 'D') (not before a letter) [numeral]
//! prefix   := '最大' | "max" | '最小' | "min"     (Latin keywords in any ASCII case)
//! numeral  := a run of one to six ASCII digits, not followed by another digit
//! ```
//!
//! An optional part that does not parse is left out, and the alternatives of
//! `terminal` are tried in order; a failed attempt consumes nothing.

use vstd::prelude::*;
use crate::text::{is_blank, is_digit, is_letter};
use crate::types::{views, Dice, Entity, EntityView, Expr, Int, Operator};

verus! {

/// The longest number of digits that a numeral may have.
pub const MAX_DIGITS: usize = 6;

/// The number of consecutive ASCII digits from position `i`.
pub open spec fn digit_run(s: Seq<char>, i: int) -> nat
    decreases s.len() - i,
{
    if 0 <= i < s.len() && is_digit(s[i]) {
        1 + digit_run(s, i + 1)
    } else {
        0
    }
}

/// The number of consecutive letters from position `i`.
pub open spec fn letter_run(s: Seq<char>, i: int) -> nat
    decreases s.len() - i,
{
    if 0 <= i < s.len() && is_letter(s[i]) {
        1 + letter_run(s, i + 1)
    } else {
        0
    }
}

/// The number of consecutive whitespace characters from position `i`.
pub open spec fn blank_run(s: Seq<char>, i: int) -> nat
    decreases s.len() - i,
{
    if 0 <= i < s.len() && is_blank(s[i]) {
        1 + blank_run(s, i + 1)
    } else {
        0
    }
}

/// The value of the `n` decimal digits at position `i`.
pub open spec fn digits_value(s: Seq<char>, i: int, n: nat) -> int
    decreases n,
{
    if n == 0 {
        0
    } else {
        digits_value(s, i, (n - 1) as nat) * 10 + (s[i + n - 1] as int - 48)
    }
}

/// A numeral at position `i`: its value and its length.
pub open spec fn numeral(s: Seq<char>, i: int) -> Option<(Int, nat)> {
    let n = digit_run(s, i);
    if 1 <= n <= MAX_DIGITS {
        Some((digits_value(s, i, n) as Int, n))
    } else {
        None
    }
}

/// The dice marker `d` or `D`.
pub open spec fn is_dice_mark(c: char) -> bool {
    c == 'd' || c == 'D'
}

/// A dice term at position `i`: the dice, and the length of the term.
pub open spec fn dice_term(s: Seq<char>, i: int) -> Option<(Dice, nat)> {
    let count: Option<(Int, nat)> = if digit_run(s, i) == 0 {
        Some((1, 0))
    } else {
        numeral(s, i)
    };
    match count {
        None => None,
        Some((number, a)) => {
            let k = i + a;
            if 0 <= k < s.len() && is_dice_mark(s[k]) && !(k + 1 < s.len() && is_letter(s[k + 1])) {
                if digit_run(s, k + 1) == 0 {
                    Some((Dice { face: None, number }, a + 1))
                } else {
                    match numeral(s, k + 1) {
                        Some((face, b)) => Some((Dice { face: Some(face), number }, a + 1 + b)),
                        None => None,
                    }
                }
            } else {
                None
            }
        },
    }
}

/// The ASCII lowercase of `c`; any other character is itself.
pub open spec fn ascii_lower(c: char) -> char {
    if 'A' <= c <= 'Z' {
        ((c as int) + 32) as char
    } else {
        c
    }
}

/// Whether the characters at position `i` are exactly `w`.
pub open spec fn word_at(s: Seq<char>, i: int, w: Seq<char>) -> bool {
    0 <= i && i + w.len() <= s.len() && s.subrange(i, i + w.len()) == w
}

/// Whether the characters at position `i` are `w`, ignoring ASCII case.
pub open spec fn word_at_ignoring_case(s: Seq<char>, i: int, w: Seq<char>) -> bool {
    &&& 0 <= i
    &&& i + w.len() <= s.len()
    &&& forall|k: int| 0 <= k < w.len() ==> ascii_lower(#[trigger] s[i + k]) == ascii_lower(w[k])
}

/// A prefix operator at position `i`, and the length of its keyword.
pub open spec fn prefix_op(s: Seq<char>, i: int) -> Option<(Operator, nat)> {
    if word_at(s, i, seq!['最', '大']) {
        Some((Operator::Max, 2))
    } else if word_at_ignoring_case(s, i, seq!['m', 'a', 'x']) {
        Some((Operator::Max, 3))
    } else if word_at(s, i, seq!['最', '小']) {
        Some((Operator::Min, 2))
    } else if word_at_ignoring_case(s, i, seq!['m', 'i', 'n']) {
        Some((Operator::Min, 3))
    } else {
        None
    }
}

/// An operator of the loose tier (`+`, `-`) at position `i`.
pub open spec fn infix_1_op(s: Seq<char>, i: int) -> Option<Operator> {
    if 0 <= i < s.len() {
        let c = s[i];
        if c == '+' || c == '加' {
            Some(Operator::Add)
        } else if c == '-' || c == '减' {
            Some(Operator::Sub)
        } else {
            None
        }
    } else {
        None
    }
}

/// An operator of the tight tier (`*`, `/`) at position `i`.
pub open spec fn infix_2_op(s: Seq<char>, i: int) -> Option<Operator> {
    if 0 <= i < s.len() {
        let c = s[i];
        if c == '*' || c == '×' || c == '乘' {
            Some(Operator::Mul)
        } else if c == '/' || c == '÷' || c == '除' {
            Some(Operator::Div)
        } else {
            None
        }
    } else {
        None
    }
}

/// The closing parenthesis that matches `c`, if `c` opens a group.
pub open spec fn closing_of(c: char) -> Option<char> {
    if c == '(' {
        Some(')')
    } else if c == '（' {
        Some('）')
    } else {
        None
    }
}

pub proof fn lemma_blank_run_bound(s: Seq<char>, i: int)
    requires
        0 <= i <= s.len(),
    ensures
        i + blank_run(s, i) <= s.len(),
    decreases s.len() - i,
{
    if i < s.len() && is_blank(s[i]) {
        lemma_blank_run_bound(s, i + 1);
    }
}

pub proof fn lemma_letter_run_bound(s: Seq<char>, i: int)
    requires
        0 <= i <= s.len(),
    ensures
        i + letter_run(s, i) <= s.len(),
    decreases s.len() - i,
{
    if i < s.len() && is_letter(s[i]) {
        lemma_letter_run_bound(s, i + 1);
    }
}

pub proof fn lemma_digit_run_bound(s: Seq<char>, i: int)
    requires
        0 <= i <= s.len(),
    ensures
        i + digit_run(s, i) <= s.len(),
    decreases s.len() - i,
{
    if i < s.len() && is_digit(s[i]) {
        lemma_digit_run_bound(s, i + 1);
    }
}

/// A primary term at position `i` (no leading whitespace): the expression,
/// and the number of characters it takes.
pub open spec fn terminal(s: Seq<char>, i: int) -> Option<(Expr, nat)>
    decreases s.len() - i, 0nat,
{
    if i < 0 || i >= s.len() {
        None
    } else {
        match dice_term(s, i) {
            Some((d, n)) => Some((Expr::Roll(d), n)),
            None => match numeral(s, i) {
                Some((v, n)) => Some((Expr::Num(v), n)),
                None => match prefix_op(s, i) {
                    Some((op, n)) => {
                        let k = i + n + blank_run(s, i + n);
                        proof {
                            lemma_blank_run_bound(s, i + n);
                        }
                        match terminal(s, k) {
                            Some((x, m)) => Some((Expr::Prefix(op, Box::new(x)), (k - i + m) as nat)),
                            None => None,
                        }
                    },
                    None => match closing_of(s[i]) {
                        Some(close) => match expr(s, i + 1) {
                            Some((x, m)) => {
                                let k = i + 1 + m + blank_run(s, i + 1 + m);
                                if k < s.len() && s[k] == close {
                                    Some((Expr::Child(Box::new(x)), (k + 1 - i) as nat))
                                } else {
                                    None
                                }
                            },
                            None => None,
                        },
                        None => None,
                    },
                },
            },
        }
    }
}

/// A chain of the tight tier at position `i`, leading whitespace included.
pub open spec fn expr_2(s: Seq<char>, i: int) -> Option<(Expr, nat)>
    decreases s.len() - i, 1nat,
{
    if i < 0 || i > s.len() {
        None
    } else {
        let i0 = i + blank_run(s, i);
        proof {
            lemma_blank_run_bound(s, i);
        }
        match terminal(s, i0) {
            None => None,
            Some((t, n)) => {
                let j = i0 + n;
                let k = j + blank_run(s, j);
                let alone = Some((t, (j - i) as nat));
                match infix_2_op(s, k) {
                    Some(op) => match expr_2(s, k + 1) {
                        Some((r, m)) => Some(
                            (Expr::Infix(Box::new(t), op, Box::new(r)), (k + 1 + m - i) as nat),
                        ),
                        None => alone,
                    },
                    None => alone,
                }
            },
        }
    }
}

/// An expression at position `i`, leading whitespace included.
pub open spec fn expr(s: Seq<char>, i: int) -> Option<(Expr, nat)>
    decreases s.len() - i, 2nat,
{
    if i < 0 || i > s.len() {
        None
    } else {
        let i0 = i + blank_run(s, i);
        proof {
            lemma_blank_run_bound(s, i);
        }
        match expr_2(s, i0) {
            None => None,
            Some((l, n)) => {
                let j = i0 + n;
                let k = j + blank_run(s, j);
                let alone = Some((l, (j - i) as nat));
                match infix_1_op(s, k) {
                    Some(op) => match expr(s, k + 1) {
                        Some((r, m)) => Some(
                            (Expr::Infix(Box::new(l), op, Box::new(r)), (k + 1 + m - i) as nat),
                        ),
                        None => alone,
                    },
                    None => alone,
                }
            },
        }
    }
}


/// Whether a parse that starts at `i` and ends at `end` agrees with the
/// grammar's result `p` (the parsed value and the number of characters taken).
pub open spec fn found<T>(r: Option<(T, usize)>, i: int, p: Option<(T, nat)>) -> bool {
    match (r, p) {
        (Some((x, end)), Some((y, n))) => x == y && end == i + n,
        (None, None) => true,
        _ => false,
    }
}

/// Whether a successful parse from `i` takes at least one character and stays
/// within `len`.
pub open spec fn within<T>(p: Option<(T, nat)>, i: int, len: int) -> bool {
    match p {
        Some((_, n)) => 1 <= n && i + n <= len,
        None => true,
    }
}

pub proof fn lemma_numeral_bound(s: Seq<char>, i: int)
    requires
        0 <= i <= s.len(),
    ensures
        within(numeral(s, i), i, s.len() as int),
{
    lemma_digit_run_bound(s, i);
}

pub proof fn lemma_dice_term_bound(s: Seq<char>, i: int)
    requires
        0 <= i <= s.len(),
    ensures
        within(dice_term(s, i), i, s.len() as int),
{
    lemma_digit_run_bound(s, i);
    let a: int = if digit_run(s, i) == 0 {
        0
    } else {
        digit_run(s, i) as int
    };
    if i + a < s.len() {
        lemma_digit_run_bound(s, i + a + 1);
    }
}

pub proof fn lemma_terminal_bound(s: Seq<char>, i: int)
    requires
        0 <= i <= s.len(),
    ensures
        within(terminal(s, i), i, s.len() as int),
    decreases s.len() - i, 0nat,
{
    if i < s.len() {
        lemma_dice_term_bound(s, i);
        lemma_numeral_bound(s, i);
        if let Some((op, n)) = prefix_op(s, i) {
            lemma_blank_run_bound(s, i + n);
            let k = i + n + blank_run(s, i + n);
            lemma_terminal_bound(s, k);
        } else if closing_of(s[i]) is Some {
            lemma_expr_bound(s, i + 1);
            if let Some((x, m)) = expr(s, i + 1) {
                lemma_blank_run_bound(s, i + 1 + m);
            }
        }
    }
}

pub proof fn lemma_expr_2_bound(s: Seq<char>, i: int)
    requires
        0 <= i <= s.len(),
    ensures
        within(expr_2(s, i), i, s.len() as int),
    decreases s.len() - i, 1nat,
{
    lemma_blank_run_bound(s, i);
    let i0 = i + blank_run(s, i);
    lemma_terminal_bound(s, i0);
    if let Some((t, n)) = terminal(s, i0) {
        let j = i0 + n;
        lemma_blank_run_bound(s, j);
        let k = j + blank_run(s, j);
        if infix_2_op(s, k) is Some {
            lemma_expr_2_bound(s, k + 1);
        }
    }
}

pub proof fn lemma_expr_bound(s: Seq<char>, i: int)
    requires
        0 <= i <= s.len(),
    ensures
        within(expr(s, i), i, s.len() as int),
    decreases s.len() - i, 2nat,
{
    lemma_blank_run_bound(s, i);
    let i0 = i + blank_run(s, i);
    lemma_expr_2_bound(s, i0);
    if let Some((t, n)) = expr_2(s, i0) {
        let j = i0 + n;
        lemma_blank_run_bound(s, j);
        let k = j + blank_run(s, j);
        if infix_1_op(s, k) is Some {
            lemma_expr_bound(s, k + 1);
        }
    }
}

fn is_ascii_digit(c: char) -> (r: bool)
    ensures
        r == is_digit(c),
{
    '0' <= c && c <= '9'
}

/// The position after the whitespace that starts at `i`.
pub fn skip_spaces(s: &Vec<char>, i: usize) -> (r: usize)
    requires
        i <= s.len(),
    ensures
        r == i + blank_run(s@, i as int),
        r <= s.len(),
{
    let mut j = i;
    while j < s.len() && s[j].is_whitespace()
        invariant
            i <= j <= s.len(),
            blank_run(s@, i as int) == (j - i) + blank_run(s@, j as int),
        decreases s.len() - j,
    {
        j += 1;
    }
    j
}

fn skip_letters(s: &Vec<char>, i: usize) -> (r: usize)
    requires
        i <= s.len(),
    ensures
        r == i + letter_run(s@, i as int),
        r <= s.len(),
{
    let mut j = i;
    while j < s.len() && s[j].is_alphabetic()
        invariant
            i <= j <= s.len(),
            letter_run(s@, i as int) == (j - i) + letter_run(s@, j as int),
        decreases s.len() - j,
    {
        j += 1;
    }
    j
}

fn skip_digits(s: &Vec<char>, i: usize) -> (r: usize)
    requires
        i <= s.len(),
    ensures
        r == i + digit_run(s@, i as int),
        r <= s.len(),
        forall|m: int| i <= m < r ==> is_digit(#[trigger] s@[m]),
{
    let mut j = i;
    while j < s.len() && is_ascii_digit(s[j])
        invariant
            i <= j <= s.len(),
            digit_run(s@, i as int) == (j - i) + digit_run(s@, j as int),
            forall|m: int| i <= m < j ==> is_digit(#[trigger] s@[m]),
        decreases s.len() - j,
    {
        j += 1;
    }
    j
}

/// `10` to the power `n`.
pub open spec fn pow10(n: nat) -> int
    decreases n,
{
    if n == 0 {
        1
    } else {
        10 * pow10((n - 1) as nat)
    }
}

/// A numeral at position `i`: its value and the position after it.
pub fn number(s: &Vec<char>, i: usize) -> (r: Option<(Int, usize)>)
    requires
        i <= s.len(),
    ensures
        found(r, i as int, numeral(s@, i as int)),
{
    let j = skip_digits(s, i);
    if j == i || j - i > MAX_DIGITS {
        return None;
    }
    let mut v: Int = 0;
    let mut k = i;
    while k < j
        invariant
            i <= k <= j,
            j - i <= MAX_DIGITS,
            j <= s.len(),
            forall|m: int| i <= m < j ==> is_digit(#[trigger] s@[m]),
            v == digits_value(s@, i as int, (k - i) as nat),
            0 <= v < pow10((k - i) as nat),
        decreases j - k,
    {
        assert(pow10((k - i) as nat) <= 100000) by {
            reveal_with_fuel(pow10, 7);
        }
        let c = s[k];
        assert(is_digit(s@[k as int]));
        let d: Int = (c as u32 - 48) as Int;
        v = v * 10 + d;
        k += 1;
        assert(pow10((k - i) as nat) == 10 * pow10((k - 1 - i) as nat));
    }
    Some((v, j))
}

/// A dice term at position `i`: the dice and the position after the term.
pub fn dice(s: &Vec<char>, i: usize) -> (r: Option<(Dice, usize)>)
    requires
        i <= s.len(),
    ensures
        found(r, i as int, dice_term(s@, i as int)),
{
    let mut count: Int = 1;
    let mut k = i;
    if i < s.len() && is_ascii_digit(s[i]) {
        match number(s, i) {
            None => {
                return None;
            },
            Some((v, j)) => {
                count = v;
                k = j;
            },
        }
    }
    proof {
        lemma_numeral_bound(s@, i as int);
    }
    if !(k < s.len() && (s[k] == 'd' || s[k] == 'D')) {
        return None;
    }
    if k + 1 < s.len() && s[k + 1].is_alphabetic() {
        return None;
    }
    let k1 = k + 1;
    if k1 < s.len() && is_ascii_digit(s[k1]) {
        match number(s, k1) {
            None => None,
            Some((face, j)) => Some((Dice { face: Some(face), number: count }, j)),
        }
    } else {
        Some((Dice { face: None, number: count }, k1))
    }
}

fn to_ascii_lower(c: char) -> (r: char)
    ensures
        r == ascii_lower(c),
{
    if 'A' <= c && c <= 'Z' {
        ((c as u8) + 32) as char
    } else {
        c
    }
}

/// Whether the characters at position `i` are exactly `w`.
fn exact_at(s: &Vec<char>, i: usize, w: &str) -> (r: bool)
    requires
        i <= s.len(),
    ensures
        r == word_at(s@, i as int, w@),
{
    let n = w.unicode_len();
    if n > s.len() - i {
        return false;
    }
    let mut k: usize = 0;
    while k < n
        invariant
            k <= n,
            n == w@.len(),
            i + n <= s.len(),
            forall|m: int| 0 <= m < k ==> s@[i + m] == w@[m],
        decreases n - k,
    {
        if s[i + k] != w.get_char(k) {
            assert(s@.subrange(i as int, i + n)[k as int] != w@[k as int]);
            return false;
        }
        k += 1;
    }
    assert(s@.subrange(i as int, i + n) =~= w@);
    true
}

/// Whether the characters at position `i` are `w`, ignoring ASCII case.
pub fn insensitive_string(s: &Vec<char>, i: usize, w: &str) -> (r: bool)
    requires
        i <= s.len(),
    ensures
        r == word_at_ignoring_case(s@, i as int, w@),
{
    let n = w.unicode_len();
    if n > s.len() - i {
        return false;
    }
    let mut k: usize = 0;
    while k < n
        invariant
            k <= n,
            n == w@.len(),
            i + n <= s.len(),
            forall|m: int| 0 <= m < k ==> ascii_lower(#[trigger] s@[i + m]) == ascii_lower(w@[m]),
        decreases n - k,
    {
        if to_ascii_lower(s[i + k]) != to_ascii_lower(w.get_char(k)) {
            return false;
        }
        k += 1;
    }
    true
}

/// A prefix operator at position `i`: the operator and the position after
/// its keyword.
pub fn prefix(s: &Vec<char>, i: usize) -> (r: Option<(Operator, usize)>)
    requires
        i <= s.len(),
    ensures
        found(r, i as int, prefix_op(s@, i as int)),
{
    proof {
        reveal_strlit("最大");
        reveal_strlit("max");
        reveal_strlit("最小");
        reveal_strlit("min");
        assert("最大"@ =~= seq!['最', '大']);
        assert("max"@ =~= seq!['m', 'a', 'x']);
        assert("最小"@ =~= seq!['最', '小']);
        assert("min"@ =~= seq!['m', 'i', 'n']);
    }
    if exact_at(s, i, "最大") {
        Some((Operator::Max, i + 2))
    } else if insensitive_string(s, i, "max") {
        Some((Operator::Max, i + 3))
    } else if exact_at(s, i, "最小") {
        Some((Operator::Min, i + 2))
    } else if insensitive_string(s, i, "min") {
        Some((Operator::Min, i + 3))
    } else {
        None
    }
}

/// An operator of the loose tier at position `i`: `+` or `加` adds, `-` or
/// `减` subtracts.
pub fn infix_1(s: &Vec<char>, i: usize) -> (r: Option<Operator>)
    ensures
        r == infix_1_op(s@, i as int),
{
    if i >= s.len() {
        return None;
    }
    let c = s[i];
    if c == '+' || c == '加' {
        Some(Operator::Add)
    } else if c == '-' || c == '减' {
        Some(Operator::Sub)
    } else {
        None
    }
}

/// An operator of the tight tier at position `i`: `*`, `×` or `乘`
/// multiplies, `/`, `÷` or `除` divides.
pub fn infix_2(s: &Vec<char>, i: usize) -> (r: Option<Operator>)
    ensures
        r == infix_2_op(s@, i as int),
{
    if i >= s.len() {
        return None;
    }
    let c = s[i];
    if c == '*' || c == '×' || c == '乘' {
        Some(Operator::Mul)
    } else if c == '/' || c == '÷' || c == '除' {
        Some(Operator::Div)
    } else {
        None
    }
}

/// `left op right` when an operator and a right operand follow, else `left`.
fn make_infix_expression(left: Expr, rest: Option<(Operator, Expr)>) -> (r: Expr)
    ensures
        r == match rest {
            Some((op, right)) => Expr::Infix(Box::new(left), op, Box::new(right)),
            None => left,
        },
{
    match rest {
        Some((op, right)) => Expr::Infix(Box::new(left), op, Box::new(right)),
        None => left,
    }
}

/// A primary term at position `i`: a dice term, a numeral, a prefix operator
/// applied to a primary term, or a parenthesized expression.
pub fn terminal_(s: &Vec<char>, i: usize) -> (r: Option<(Expr, usize)>)
    requires
        i <= s.len(),
    ensures
        found(r, i as int, terminal(s@, i as int)),
    decreases s.len() - i, 0nat,
{
    if i >= s.len() {
        return None;
    }
    if let Some((d, j)) = dice(s, i) {
        return Some((Expr::Roll(d), j));
    }
    if let Some((v, j)) = number(s, i) {
        return Some((Expr::Num(v), j));
    }
    if let Some((op, j)) = prefix(s, i) {
        let k = skip_spaces(s, j);
        match terminal_(s, k) {
            Some((x, m)) => Some((Expr::Prefix(op, Box::new(x)), m)),
            None => None,
        }
    } else {
        let open = s[i];
        let close = if open == '(' {
            ')'
        } else if open == '（' {
            '）'
        } else {
            return None;
        };
        match expr_(s, i + 1) {
            None => None,
            Some((x, m)) => {
                proof {
                    lemma_expr_bound(s@, i + 1);
                }
                let k = skip_spaces(s, m);
                if k < s.len() && s[k] == close {
                    Some((Expr::Child(Box::new(x)), k + 1))
                } else {
                    None
                }
            },
        }
    }
}

/// A chain of the tight tier (`*`, `/`) at position `i`, leading whitespace
/// included. A chain `a * b * c` groups to the right: `a * (b * c)`.
pub fn expr_2_(s: &Vec<char>, i: usize) -> (r: Option<(Expr, usize)>)
    requires
        i <= s.len(),
    ensures
        found(r, i as int, expr_2(s@, i as int)),
    decreases s.len() - i, 1nat,
{
    let i0 = skip_spaces(s, i);
    match terminal_(s, i0) {
        None => None,
        Some((t, j)) => {
            proof {
                lemma_terminal_bound(s@, i0 as int);
            }
            let k = skip_spaces(s, j);
            let (rest, end) = match infix_2(s, k) {
                Some(op) => match expr_2_(s, k + 1) {
                    Some((r, m)) => (Some((op, r)), m),
                    None => (None, j),
                },
                None => (None, j),
            };
            Some((make_infix_expression(t, rest), end))
        },
    }
}

/// An expression at position `i`, leading whitespace included: a chain of the
/// loose tier (`+`, `-`) over chains of the tight tier, grouped to the right.
pub fn expr_(s: &Vec<char>, i: usize) -> (r: Option<(Expr, usize)>)
    requires
        i <= s.len(),
    ensures
        found(r, i as int, expr(s@, i as int)),
    decreases s.len() - i, 2nat,
{
    let i0 = skip_spaces(s, i);
    match expr_2_(s, i0) {
        None => None,
        Some((l, j)) => {
            proof {
                lemma_expr_2_bound(s@, i0 as int);
            }
            let k = skip_spaces(s, j);
            let (rest, end) = match infix_1(s, k) {
                Some(op) => match expr_(s, k + 1) {
                    Some((r, m)) => (Some((op, r)), m),
                    None => (None, j),
                },
                None => (None, j),
            };
            Some((make_infix_expression(l, rest), end))
        },
    }
}

/// The length of the description unit at position `i`: a run of letters, else
/// a run of digits, else one character.
pub open spec fn word_len(s: Seq<char>, i: int) -> nat {
    if letter_run(s, i) > 0 {
        letter_run(s, i)
    } else if digit_run(s, i) > 0 {
        digit_run(s, i)
    } else {
        1
    }
}

/// The entity at position `i` (`i < s.len()`), and the number of characters it
/// takes, trailing whitespace included: an expression if one parses there,
/// else a description unit.
pub open spec fn unit(s: Seq<char>, i: int) -> (EntityView, nat) {
    match expr(s, i) {
        Some((e, n)) => (EntityView::Expression(e), n + blank_run(s, i + n)),
        None => {
            let w = word_len(s, i);
            let m = w + blank_run(s, i + w);
            (EntityView::Description(s.subrange(i, i + m)), m)
        },
    }
}

pub proof fn lemma_unit_bound(s: Seq<char>, i: int)
    requires
        0 <= i < s.len(),
    ensures
        1 <= unit(s, i).1,
        i + unit(s, i).1 <= s.len(),
{
    lemma_expr_bound(s, i);
    lemma_letter_run_bound(s, i);
    lemma_digit_run_bound(s, i);
    if let Some((e, n)) = expr(s, i) {
        lemma_blank_run_bound(s, i + n);
    } else {
        lemma_blank_run_bound(s, i + word_len(s, i));
    }
}

/// Appends `u` to `acc`, joining it to the last entity when both are
/// descriptions.
pub open spec fn merge(acc: Seq<EntityView>, u: EntityView) -> Seq<EntityView> {
    if acc.len() > 0 && acc.last() is Description && u is Description {
        acc.drop_last().push(
            EntityView::Description(acc.last()->Description_0 + u->Description_0),
        )
    } else {
        acc.push(u)
    }
}

/// The entities of `s` from position `i` on, merged onto `acc`.
pub open spec fn segment_from(s: Seq<char>, i: int, acc: Seq<EntityView>) -> Seq<EntityView>
    decreases s.len() - i,
{
    if i < 0 || i >= s.len() {
        acc
    } else {
        proof {
            lemma_unit_bound(s, i);
        }
        let (u, n) = unit(s, i);
        segment_from(s, i + n, merge(acc, u))
    }
}

/// The entities of `s`, in order, adjacent descriptions joined.
pub open spec fn segment(s: Seq<char>) -> Seq<EntityView> {
    segment_from(s, 0, Seq::empty())
}

/// The characters of `s` from `from` to `to`.
fn slice_text(s: &Vec<char>, from: usize, to: usize) -> (r: String)
    requires
        from <= to <= s.len(),
    ensures
        r@ == s@.subrange(from as int, to as int),
{
    let mut out = String::new();
    let mut k = from;
    while k < to
        invariant
            from <= k <= to <= s.len(),
            out@ == s@.subrange(from as int, k as int),
        decreases to - k,
    {
        out.push(s[k]);
        k += 1;
        assert(out@ =~= s@.subrange(from as int, k as int));
    }
    out
}

/// The entity at position `i` and the position after it and its trailing
/// whitespace: an expression if one parses there, else a description unit (a
/// run of letters, a run of digits, or one character).
pub fn entity(s: &Vec<char>, i: usize) -> (r: (Entity, usize))
    requires
        i < s.len(),
    ensures
        r.0@ == unit(s@, i as int).0,
        r.1 == i + unit(s@, i as int).1,
{
    proof {
        lemma_expr_bound(s@, i as int);
    }
    match expr_(s, i) {
        Some((e, j)) => (Entity::Expression(e), skip_spaces(s, j)),
        None => {
            let mut w = skip_letters(s, i);
            if w == i {
                w = skip_digits(s, i);
                if w == i {
                    w = i + 1;
                }
            }
            let j = skip_spaces(s, w);
            (Entity::Description(slice_text(s, i, j)), j)
        },
    }
}

/// Appends `e` to `out`, joining it to the last entity when both are
/// descriptions.
fn push_entity(out: &mut Vec<Entity>, e: Entity)
    ensures
        views(final(out)@) == merge(views(old(out)@), e@),
{
    let n = out.len();
    let joins = n > 0 && matches!(out[n - 1], Entity::Description(_)) && matches!(e, Entity::Description(_));
    if joins {
        let last = out.pop();
        match (last, e) {
            (Some(Entity::Description(mut prev)), Entity::Description(cur)) => {
                prev.append(cur.as_str());
                out.push(Entity::Description(prev));
            },
            _ => {},
        }
    } else {
        out.push(e);
    }
    assert(views(final(out)@) =~= merge(views(old(out)@), e@));
}

/// The entities of `s`, in order, adjacent descriptions joined. Every
/// character of `s` belongs to one entity.
pub fn entities(s: &Vec<char>) -> (r: Vec<Entity>)
    ensures
        views(r@) == segment(s@),
{
    let mut out: Vec<Entity> = Vec::new();
    let mut i: usize = 0;
    assert(views(out@) =~= Seq::<EntityView>::empty());
    while i < s.len()
        invariant
            i <= s.len(),
            segment(s@) == segment_from(s@, i as int, views(out@)),
        decreases s.len() - i,
    {
        proof {
            lemma_unit_bound(s@, i as int);
        }
        let (e, j) = entity(s, i);
        push_entity(&mut out, e);
        i = j;
    }
    out
}

/// The characters of `text`.
fn chars_of(text: &str) -> (r: Vec<char>)
    ensures
        r@ == text@,
{
    let mut out: Vec<char> = Vec::new();
    for c in it: text.chars()
        invariant
            out@ == it.seq().take(it.index() as int),
    {
        out.push(c);
        assert(out@ =~= it.seq().take(it.index() + 1));
    }
    assert(out@ =~= text@);
    out
}

/// Splits `text` into descriptions and expressions. This never fails: what
/// does not parse as an expression is kept as description.
pub fn parse(text: &str) -> (r: Vec<Entity>)
    ensures
        views(r@) == segment(text@),
{
    let s = chars_of(text);
    entities(&s)
}

/// Whether no two adjacent entities of `es` are both descriptions.
pub open spec fn coalesced(es: Seq<EntityView>) -> bool {
    forall|k: int|
        #![trigger es[k], es[k + 1]]
        0 <= k && k + 1 < es.len() ==> !(es[k] is Description && es[k + 1] is Description)
}

/// Whether entity `e` stands for the characters of `s` from `from` to `to`: a
/// description holds exactly those characters; an expression is what the
/// grammar parses at `from`, and `to` is the end of it and of the whitespace
/// after it.
pub open spec fn spans(s: Seq<char>, e: EntityView, from: int, to: int) -> bool {
    match e {
        EntityView::Description(t) => t == s.subrange(from, to),
        EntityView::Expression(x) => match expr(s, from) {
            Some((y, n)) => y == x && from + n + blank_run(s, from + n) == to,
            None => false,
        },
    }
}

/// Whether entity `k` of `es` stands for the characters of `s` from `b[k]` to
/// `b[k + 1]`, a non-empty stretch.
pub open spec fn piece_at(s: Seq<char>, es: Seq<EntityView>, b: Seq<int>, k: int) -> bool {
    b[k] < b[k + 1] && spans(s, es[k], b[k], b[k + 1])
}

/// Whether the entities `es` cover the characters of `s` from `0` to `end`,
/// one after the other, without gap or overlap: entity `k` stands for the
/// characters from `b[k]` to `b[k + 1]`.
pub open spec fn covers(s: Seq<char>, es: Seq<EntityView>, b: Seq<int>, end: int) -> bool {
    &&& b.len() == es.len() + 1
    &&& b[0] == 0
    &&& b.last() == end
    &&& forall|k: int| 0 <= k < b.len() ==> 0 <= #[trigger] b[k] <= end
    &&& forall|k: int| 0 <= k < es.len() ==> #[trigger] piece_at(s, es, b, k)
}

proof fn lemma_merge_coalesced(acc: Seq<EntityView>, u: EntityView)
    requires
        coalesced(acc),
    ensures
        coalesced(merge(acc, u)),
{
    let r = merge(acc, u);
    assert forall|k: int| 0 <= k && k + 1 < r.len() implies !(#[trigger] r[k] is Description
        && #[trigger] r[k + 1] is Description) by {
        assert(r[k] == acc[k]);
        if k + 2 < r.len() {
            assert(r[k + 1] == acc[k + 1]);
        } else if r.len() == acc.len() {
            assert(acc[k + 1] is Description);
        }
    }
}

proof fn lemma_segment_from_coalesced(s: Seq<char>, i: int, acc: Seq<EntityView>)
    requires
        coalesced(acc),
    ensures
        coalesced(segment_from(s, i, acc)),
    decreases s.len() - i,
{
    if 0 <= i < s.len() {
        lemma_unit_bound(s, i);
        let (u, n) = unit(s, i);
        lemma_merge_coalesced(acc, u);
        lemma_segment_from_coalesced(s, i + n, merge(acc, u));
    }
}

/// The segmenter joins its descriptions: no two adjacent entities of a
/// segmentation are both descriptions.
pub proof fn lemma_segment_coalesced(s: Seq<char>)
    ensures
        coalesced(segment(s)),
{
    lemma_segment_from_coalesced(s, 0, Seq::empty());
}

proof fn lemma_merge_covers(s: Seq<char>, i: int, acc: Seq<EntityView>, b: Seq<int>)
    requires
        0 <= i < s.len(),
        covers(s, acc, b, i),
    ensures
        covers(
            s,
            merge(acc, unit(s, i).0),
            if acc.len() > 0 && acc.last() is Description && unit(s, i).0 is Description {
                b.drop_last().push(i + unit(s, i).1)
            } else {
                b.push(i + unit(s, i).1)
            },
            i + unit(s, i).1,
        ),
{
    lemma_unit_bound(s, i);
    let (u, n) = unit(s, i);
    assert(spans(s, u, i, i + n));
    let r = merge(acc, u);
    if acc.len() > 0 && acc.last() is Description && u is Description {
        let k = acc.len() - 1;
        let b2 = b.drop_last().push(i + n);
        assert(piece_at(s, acc, b, k));
        assert(u->Description_0 == s.subrange(i, i + n));
        assert(acc[k]->Description_0 + u->Description_0 =~= s.subrange(b[k], i + n));
        assert forall|j: int| 0 <= j < r.len() implies #[trigger] piece_at(s, r, b2, j) by {
            if j < k {
                assert(piece_at(s, acc, b, j));
                assert(r[j] == acc[j]);
            }
        }
        assert forall|j: int| 0 <= j < b2.len() implies 0 <= #[trigger] b2[j] <= i + n by {
            if j < k {
                assert(b2[j] == b[j]);
            }
        }
    } else {
        let b2 = b.push(i + n);
        assert forall|j: int| 0 <= j < r.len() implies #[trigger] piece_at(s, r, b2, j) by {
            if j < acc.len() {
                assert(piece_at(s, acc, b, j));
                assert(r[j] == acc[j]);
            }
        }
        assert forall|j: int| 0 <= j < b2.len() implies 0 <= #[trigger] b2[j] <= i + n by {
            if j < b.len() {
                assert(b2[j] == b[j]);
            }
        }
    }
}

proof fn lemma_segment_from_covers(s: Seq<char>, i: int, acc: Seq<EntityView>, b: Seq<int>)
    requires
        0 <= i <= s.len(),
        covers(s, acc, b, i),
    ensures
        exists|b2: Seq<int>| covers(s, segment_from(s, i, acc), b2, s.len() as int),
    decreases s.len() - i,
{
    if i < s.len() {
        lemma_unit_bound(s, i);
        let (u, n) = unit(s, i);
        lemma_merge_covers(s, i, acc, b);
        let b2 = if acc.len() > 0 && acc.last() is Description && u is Description {
            b.drop_last().push(i + n)
        } else {
            b.push(i + n)
        };
        lemma_segment_from_covers(s, i + n, merge(acc, u), b2);
        assert(segment_from(s, i, acc) == segment_from(s, i + n, merge(acc, u)));
    } else {
        assert(covers(s, segment_from(s, i, acc), b, s.len() as int));
    }
}

/// Segmentation is total: for every text, the entities cover all of it, one
/// after the other, without gap or overlap. Each description holds its
/// characters verbatim, and each expression is what the grammar parses there.
pub proof fn lemma_segment_covers(s: Seq<char>)
    ensures
        exists|b: Seq<int>| covers(s, segment(s), b, s.len() as int),
{
    let b = seq![0int];
    assert(covers(s, Seq::empty(), b, 0));
    lemma_segment_from_covers(s, 0, Seq::empty(), b);
    assert(segment(s) == segment_from(s, 0, Seq::empty()));
}

} // verus!
