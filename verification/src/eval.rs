use vstd::prelude::*;

use crate::digits::{digit_val, is_digit};
use crate::errors::EvalError;
use crate::rational::{
    fits, lemma_rat_add_wf, lemma_rat_div_wf, lemma_rat_mul_wf, lemma_rat_sub_wf, rat_add, rat_div,
    rat_mul, rat_result_matches, rat_sub, wf_rat, Rational, SpecRat,
};

verus! {

/// The four binary operators of the grammar.
#[derive(Clone, Copy, Debug)]
pub enum Operator {
    Add,
    Subtract,
    Multiply,
    Divide,
}

/// Whether a character is one of the four operator letters.
pub open spec fn is_operator_char(c: char) -> bool {
    c == 'a' || c == 'b' || c == 'c' || c == 'd'
}

/// The operator denoted by an operator letter.
pub open spec fn operator_of(c: char) -> Operator {
    if c == 'a' {
        Operator::Add
    } else if c == 'b' {
        Operator::Subtract
    } else if c == 'c' {
        Operator::Multiply
    } else {
        Operator::Divide
    }
}

/// The result of applying an operator to two exact rational operands.
pub open spec fn spec_apply(op: Operator, a: SpecRat, b: SpecRat) -> Result<SpecRat, EvalError> {
    match op {
        Operator::Add => rat_add(a, b),
        Operator::Subtract => rat_sub(a, b),
        Operator::Multiply => rat_mul(a, b),
        Operator::Divide => rat_div(a, b),
    }
}

/// Applying an operator to well-formed operands gives a well-formed value.
pub proof fn lemma_apply_wf(op: Operator, a: SpecRat, b: SpecRat)
    requires
        wf_rat(a),
        wf_rat(b),
    ensures
        spec_apply(op, a, b) matches Ok(r) ==> wf_rat(r),
{
    lemma_rat_add_wf(a, b);
    lemma_rat_sub_wf(a, b);
    lemma_rat_mul_wf(a, b);
    lemma_rat_div_wf(a, b);
}

/// The number lexer: starting at position `i` with accumulator `acc`,
/// consume the maximal run of decimal digits, folding each into the
/// accumulator by `acc * 10 + digit`. Returns the value and the position of
/// the first unconsumed character, or an overflow error if the value leaves
/// the representable range.
pub open spec fn spec_lex(s: Seq<char>, i: int, acc: int) -> Result<(int, int), EvalError>
    decreases s.len() - i,
{
    if i < s.len() && is_digit(s[i]) {
        let acc2 = acc * 10 + digit_val(s[i]);
        if fits(acc2) {
            spec_lex(s, i + 1, acc2)
        } else {
            Err(EvalError::Overflow)
        }
    } else {
        Ok((acc, i))
    }
}

/// The lexer stays within the input, never moves backwards, consumes at
/// least one character when started on a digit, and keeps its accumulator
/// non-negative and in range.
pub proof fn lemma_lex_bounds(s: Seq<char>, i: int, acc: int)
    requires
        0 <= i <= s.len(),
        0 <= acc,
        fits(acc),
    ensures
        spec_lex(s, i, acc) matches Ok(r) ==> i <= r.1 <= s.len() && 0 <= r.0 && fits(r.0) && (
        i < s.len() && is_digit(s[i]) ==> i < r.1),
    decreases s.len() - i,
{
    if i < s.len() && is_digit(s[i]) {
        let acc2 = acc * 10 + digit_val(s[i]);
        if fits(acc2) {
            lemma_lex_bounds(s, i + 1, acc2);
        }
    }
}

/// The group extractor: the cursor stands just after a consumed group-open
/// marker and `depth` open markers are pending. Characters are consumed one
/// at a time into the inner text until the matching close marker brings the
/// depth to zero. Open markers and non-final close markers only move the
/// depth counter; neither is copied into the inner text. Returns the inner
/// text and the position just after the final close marker, or
/// `InvalidBlock` if the input ends first.
pub open spec fn spec_group(s: Seq<char>, i: int, depth: int, inner: Seq<char>) -> Result<
    (Seq<char>, int),
    EvalError,
>
    decreases s.len() - i,
{
    if i >= s.len() {
        Err(EvalError::InvalidBlock)
    } else {
        let c = s[i];
        if c == 'e' {
            spec_group(s, i + 1, depth + 1, inner)
        } else if c == 'f' && depth == 1 {
            Ok((inner, i + 1))
        } else if c == 'f' {
            spec_group(s, i + 1, depth - 1, inner)
        } else {
            spec_group(s, i + 1, depth, inner.push(c))
        }
    }
}

/// The extractor moves strictly forward, stays within the input, and its
/// inner text grows by less than the number of characters consumed.
pub proof fn lemma_group_bounds(s: Seq<char>, i: int, depth: int, inner: Seq<char>)
    requires
        0 <= i <= s.len(),
    ensures
        spec_group(s, i, depth, inner) matches Ok(g) ==> i < g.1 <= s.len() && g.0.len()
            <= inner.len() + (g.1 - i - 1),
    decreases s.len() - i,
{
    if i < s.len() {
        let c = s[i];
        if c == 'e' {
            lemma_group_bounds(s, i + 1, depth + 1, inner);
        } else if c == 'f' && depth == 1 {
        } else if c == 'f' {
            lemma_group_bounds(s, i + 1, depth - 1, inner);
        } else {
            lemma_group_bounds(s, i + 1, depth, inner.push(c));
        }
    }
}

/// The expression driver: a left-to-right fold over the input from position
/// `i`, carrying two optional operand slots and an optional pending
/// operator.
///
/// On a digit, the lexed number becomes the second operand, after the
/// pending operator is applied eagerly when both slots were already full.
/// On an operator letter, a full pending combination is applied first, and
/// the letter replaces the pending operator. On a group-open marker, the
/// extracted inner text is evaluated as an independent expression and the
/// sub-result fills the second slot if a first operand exists (with no
/// eager application), else the first. Any other character fails with
/// `InvalidCharacter`. At the end of input a full pending combination is
/// applied; otherwise the first slot is the result, and `InvalidInput` is
/// the failure when it is empty.
pub open spec fn spec_parse(
    s: Seq<char>,
    i: int,
    first: Option<SpecRat>,
    second: Option<SpecRat>,
    op: Option<Operator>,
) -> Result<SpecRat, EvalError>
    decreases s.len() - i,
        when 0 <= i <= s.len()
{
    if i >= s.len() {
        match (op, first, second) {
            (Some(o), Some(a), Some(b)) => spec_apply(o, a, b),
            _ => match first {
                Some(a) => Ok(a),
                None => Err(EvalError::InvalidInput),
            },
        }
    } else {
        let c = s[i];
        if is_digit(c) {
            match spec_lex(s, i, 0) {
                Err(e) => Err(e),
                Ok(r) => {
                    proof {
                        lemma_lex_bounds(s, i, 0);
                    }
                    let v = SpecRat { num: r.0, den: 1 };
                    match (op, first, second) {
                        (Some(o), Some(a), Some(b)) => match spec_apply(o, a, b) {
                            Err(e) => Err(e),
                            Ok(x) => spec_parse(s, r.1, Some(x), Some(v), op),
                        },
                        (_, Some(a), None) => spec_parse(s, r.1, Some(a), Some(v), op),
                        _ => spec_parse(s, r.1, Some(v), None, op),
                    }
                },
            }
        } else if is_operator_char(c) {
            match (op, first, second) {
                (Some(o), Some(a), Some(b)) => match spec_apply(o, a, b) {
                    Err(e) => Err(e),
                    Ok(x) => spec_parse(s, i + 1, Some(x), None, Some(operator_of(c))),
                },
                _ => spec_parse(s, i + 1, first, second, Some(operator_of(c))),
            }
        } else if c == 'e' {
            match spec_group(s, i + 1, 1, Seq::empty()) {
                Err(e) => Err(e),
                Ok(g) => {
                    proof {
                        lemma_group_bounds(s, i + 1, 1, Seq::empty());
                    }
                    match spec_parse(g.0, 0, None, None, None) {
                        Err(e) => Err(e),
                        Ok(v) => match first {
                            Some(a) => spec_parse(s, g.1, Some(a), Some(v), op),
                            None => spec_parse(s, g.1, Some(v), None, op),
                        },
                    }
                },
            }
        } else {
            Err(EvalError::InvalidCharacter)
        }
    }
}

/// The value or error of a whole expression: the driver started at the
/// beginning of the input with empty operand slots and no pending operator.
pub open spec fn spec_evaluate(s: Seq<char>) -> Result<SpecRat, EvalError> {
    spec_parse(s, 0, None, None, None)
}

/// The views of the rationals in the driver's operand slots.
pub open spec fn opt_view(o: Option<Rational>) -> Option<SpecRat> {
    match o {
        Some(r) => Some(r@),
        None => None,
    }
}

/// Well-formedness of an optional operand slot.
pub open spec fn opt_wf(o: Option<Rational>) -> bool {
    match o {
        Some(r) => r.wf(),
        None => true,
    }
}

/// Whether a character is a decimal digit.
fn char_is_digit(c: char) -> (b: bool)
    ensures
        b == is_digit(c),
{
    let u = c as u32;
    ('0' as u32) <= u && u <= ('9' as u32)
}

/// Applies an operator to two exact rational operands.
pub fn apply(op: Operator, a: &Rational, b: &Rational) -> (res: Result<Rational, EvalError>)
    requires
        a.wf(),
        b.wf(),
    ensures
        rat_result_matches(res, spec_apply(op, a@, b@)),
{
    match op {
        Operator::Add => a.try_add(b),
        Operator::Subtract => a.try_sub(b),
        Operator::Multiply => a.try_mul(b),
        Operator::Divide => a.try_div(b),
    }
}

/// Consumes the maximal digit run starting at `start` and returns its value
/// and the position of the first unconsumed character.
fn lex_number(s: &Vec<char>, start: usize) -> (res: Result<(i128, usize), EvalError>)
    requires
        start <= s@.len(),
    ensures
        ({
            let m = spec_lex(s@, start as int, 0);
            match res {
                Ok(r) => m matches Ok(p) && p.0 == r.0 as int && p.1 == r.1 as int && 0 <= r.0
                    && start <= r.1 <= s@.len(),
                Err(e) => m matches Err(e2) && e2 == e,
            }
        }),
{
    let mut i: usize = start;
    let mut acc: i128 = 0;
    loop
        invariant
            start <= i <= s@.len(),
            0 <= acc,
            spec_lex(s@, start as int, 0) == spec_lex(s@, i as int, acc as int),
        decreases s@.len() - i,
    {
        if i == s.len() {
            return Ok((acc, i));
        }
        let c = s[i];
        if !char_is_digit(c) {
            return Ok((acc, i));
        }
        let d = (c as u32) - ('0' as u32);
        let acc10 = match acc.checked_mul(10) {
            Some(a) => a,
            None => {
                return Err(EvalError::Overflow);
            },
        };
        acc = match acc10.checked_add(d as i128) {
            Some(a) => a,
            None => {
                return Err(EvalError::Overflow);
            },
        };
        i = i + 1;
    }
}

/// Consumes a balanced group whose open marker was already consumed and
/// returns the inner text and the position just after the final close
/// marker.
fn extract_group(s: &Vec<char>, start: usize) -> (res: Result<(Vec<char>, usize), EvalError>)
    requires
        start <= s@.len(),
    ensures
        ({
            let m = spec_group(s@, start as int, 1, Seq::empty());
            match res {
                Ok(r) => m matches Ok(g) && g.0 == r.0@ && g.1 == r.1 as int && start < r.1
                    <= s@.len(),
                Err(e) => m matches Err(e2) && e2 == e,
            }
        }),
{
    let mut i: usize = start;
    let mut depth: u128 = 1;
    let mut inner: Vec<char> = Vec::new();
    loop
        invariant
            start <= i <= s@.len(),
            1 <= depth,
            depth as int <= i - start + 1,
            spec_group(s@, start as int, 1, Seq::empty()) == spec_group(
                s@,
                i as int,
                depth as int,
                inner@,
            ),
        decreases s@.len() - i,
    {
        if i == s.len() {
            return Err(EvalError::InvalidBlock);
        }
        let c = s[i];
        if c == 'e' {
            depth = depth + 1;
        } else if c == 'f' {
            if depth == 1 {
                return Ok((inner, i + 1));
            }
            depth = depth - 1;
        } else {
            inner.push(c);
        }
        i = i + 1;
    }
}

/// Evaluates one expression given as a character sequence: the iterative
/// form of the driver, recursing only to evaluate the inner text of a
/// group.
pub fn eval_chars(s: &Vec<char>) -> (res: Result<Rational, EvalError>)
    ensures
        rat_result_matches(res, spec_evaluate(s@)),
    decreases s@.len(),
{
    let mut i: usize = 0;
    let mut first: Option<Rational> = None;
    let mut second: Option<Rational> = None;
    let mut op: Option<Operator> = None;
    loop
        invariant
            i <= s@.len(),
            opt_wf(first),
            opt_wf(second),
            spec_parse(s@, i as int, opt_view(first), opt_view(second), op) == spec_evaluate(s@),
        decreases s@.len() - i,
    {
        if i == s.len() {
            match (op, first, second) {
                (Some(o), Some(a), Some(b)) => {
                    return apply(o, &a, &b);
                },
                _ => {
                    match first {
                        Some(a) => {
                            return Ok(a);
                        },
                        None => {
                            return Err(EvalError::InvalidInput);
                        },
                    }
                },
            }
        }
        let c = s[i];
        if char_is_digit(c) {
            match lex_number(s, i) {
                Err(e) => {
                    return Err(e);
                },
                Ok((v, j)) => {
                    proof {
                        lemma_lex_bounds(s@, i as int, 0);
                    }
                    let n = Rational::from_int(v);
                    match (op, first, second) {
                        (Some(o), Some(a), Some(b)) => {
                            match apply(o, &a, &b) {
                                Err(e) => {
                                    return Err(e);
                                },
                                Ok(x) => {
                                    first = Some(x);
                                    second = Some(n);
                                },
                            }
                        },
                        (_, Some(_), None) => {
                            second = Some(n);
                        },
                        _ => {
                            first = Some(n);
                            second = None;
                        },
                    }
                    i = j;
                },
            }
        } else if c == 'a' || c == 'b' || c == 'c' || c == 'd' {
            let next = if c == 'a' {
                Operator::Add
            } else if c == 'b' {
                Operator::Subtract
            } else if c == 'c' {
                Operator::Multiply
            } else {
                Operator::Divide
            };
            match (op, first, second) {
                (Some(o), Some(a), Some(b)) => {
                    match apply(o, &a, &b) {
                        Err(e) => {
                            return Err(e);
                        },
                        Ok(x) => {
                            first = Some(x);
                            second = None;
                        },
                    }
                },
                _ => {},
            }
            op = Some(next);
            i = i + 1;
        } else if c == 'e' {
            let gstart = i + 1;
            match extract_group(s, gstart) {
                Err(e) => {
                    return Err(e);
                },
                Ok((inner, j)) => {
                    proof {
                        lemma_group_bounds(s@, gstart as int, 1, Seq::empty());
                    }
                    match eval_chars(&inner) {
                        Err(e) => {
                            return Err(e);
                        },
                        Ok(v) => {
                            match first {
                                Some(_) => {
                                    second = Some(v);
                                },
                                None => {
                                    first = Some(v);
                                    second = None;
                                },
                            }
                            i = j;
                        },
                    }
                },
            }
        } else {
            return Err(EvalError::InvalidCharacter);
        }
    }
}

/// Evaluates an expression in the flat letter notation and returns its
/// exact rational value or the classified error.
pub fn evaluate(expr: &str) -> (res: Result<Rational, EvalError>)
    ensures
        rat_result_matches(res, spec_evaluate(expr@)),
{
    let n = expr.unicode_len();
    let mut chars: Vec<char> = Vec::new();
    let mut i: usize = 0;
    while i < n
        invariant
            i <= n,
            n == expr@.len(),
            chars@ == expr@.subrange(0, i as int),
        decreases n - i,
    {
        chars.push(expr.get_char(i));
        i = i + 1;
        proof {
            assert(chars@ =~= expr@.subrange(0, i as int));
        }
    }
    proof {
        assert(chars@ =~= expr@);
    }
    eval_chars(&chars)
}

} // verus!
