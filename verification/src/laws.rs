use vstd::arithmetic::div_mod::{
    lemma_div_nonincreasing, lemma_div_pos_is_pos, lemma_fundamental_div_mod,
};
use vstd::arithmetic::mul::lemma_mul_is_commutative;
use vstd::prelude::*;

use crate::digits::{
    all_digits, dec_digits_of, digit_val, digits_value, digits_value_acc, is_digit,
    lemma_dec_digits, lemma_value_acc_lower,
};
use crate::errors::EvalError;
use crate::eval::{
    is_operator_char, lemma_apply_wf, lemma_group_bounds, lemma_lex_bounds, operator_of,
    spec_apply, spec_evaluate, spec_group, spec_lex, spec_parse, Operator,
};
use crate::rational::{fits, wf_rat, SpecRat};

verus! {

/// On a digit run that ends at position `j` — the end of the input or the
/// first non-digit — the lexer consumes exactly the run and returns its
/// folded value.
proof fn lemma_lex_run(s: Seq<char>, i: int, j: int, acc: int)
    requires
        0 <= i <= j <= s.len(),
        0 <= acc,
        forall|k: int| i <= k < j ==> is_digit(#[trigger] s[k]),
        j == s.len() || !is_digit(s[j]),
        fits(digits_value_acc(s.subrange(i, j), acc)),
    ensures
        spec_lex(s, i, acc) == Ok::<(int, int), EvalError>(
            (digits_value_acc(s.subrange(i, j), acc), j),
        ),
    decreases j - i,
{
    let run = s.subrange(i, j);
    if i == j {
        assert(run =~= Seq::<char>::empty());
        assert(digits_value_acc(run, acc) == acc);
    } else {
        assert(is_digit(s[i]));
        assert(run.first() == s[i]);
        let rest = s.subrange(i + 1, j);
        assert(run.drop_first() =~= rest);
        let acc2 = acc * 10 + digit_val(s[i]);
        assert forall|k: int| 0 <= k < rest.len() implies is_digit(#[trigger] rest[k]) by {
            assert(rest[k] == s[i + 1 + k]);
        }
        lemma_value_acc_lower(rest, acc2);
        lemma_lex_run(s, i + 1, j, acc2);
    }
}

/// Every value the driver can return is well-formed, provided the operand
/// slots it starts from hold well-formed values.
proof fn lemma_parse_wf(
    s: Seq<char>,
    i: int,
    first: Option<SpecRat>,
    second: Option<SpecRat>,
    op: Option<Operator>,
)
    requires
        0 <= i <= s.len(),
        first matches Some(a) ==> wf_rat(a),
        second matches Some(b) ==> wf_rat(b),
    ensures
        spec_parse(s, i, first, second, op) matches Ok(r) ==> wf_rat(r),
    decreases s.len() - i,
{
    if i >= s.len() {
        match (op, first, second) {
            (Some(o), Some(a), Some(b)) => lemma_apply_wf(o, a, b),
            _ => {},
        }
    } else {
        let c = s[i];
        if is_digit(c) {
            lemma_lex_bounds(s, i, 0);
            match spec_lex(s, i, 0) {
                Err(_) => {},
                Ok(r) => {
                    let v = SpecRat { num: r.0, den: 1 };
                    match (op, first, second) {
                        (Some(o), Some(a), Some(b)) => {
                            lemma_apply_wf(o, a, b);
                            match spec_apply(o, a, b) {
                                Err(_) => {},
                                Ok(x) => lemma_parse_wf(s, r.1, Some(x), Some(v), op),
                            }
                        },
                        (_, Some(a), None) => lemma_parse_wf(s, r.1, Some(a), Some(v), op),
                        _ => lemma_parse_wf(s, r.1, Some(v), None, op),
                    }
                },
            }
        } else if is_operator_char(c) {
            match (op, first, second) {
                (Some(o), Some(a), Some(b)) => {
                    lemma_apply_wf(o, a, b);
                    match spec_apply(o, a, b) {
                        Err(_) => {},
                        Ok(x) => lemma_parse_wf(s, i + 1, Some(x), None, Some(operator_of(c))),
                    }
                },
                _ => lemma_parse_wf(s, i + 1, first, second, Some(operator_of(c))),
            }
        } else if c == 'e' {
            match spec_group(s, i + 1, 1, Seq::empty()) {
                Err(_) => {},
                Ok(g) => {
                    lemma_group_bounds(s, i + 1, 1, Seq::empty());
                    lemma_parse_wf(g.0, 0, None, None, None);
                    match spec_parse(g.0, 0, None, None, None) {
                        Err(_) => {},
                        Ok(v) => match first {
                            Some(a) => lemma_parse_wf(s, g.1, Some(a), Some(v), op),
                            None => lemma_parse_wf(s, g.1, Some(v), None, op),
                        },
                    }
                },
            }
        }
    }
}

/// Every successful evaluation yields a well-formed rational: a strictly
/// positive denominator and both components within the 128-bit range.
pub proof fn lemma_evaluate_wf(s: Seq<char>)
    ensures
        spec_evaluate(s) matches Ok(r) ==> wf_rat(r),
{
    lemma_parse_wf(s, 0, None, None, None);
}

/// A well-formed input consisting of a single non-negative integer literal
/// — one or more digits and nothing else — evaluates to exactly that
/// literal's base-10 value, whenever that value is representable.
pub proof fn lemma_literal_value(s: Seq<char>)
    requires
        s.len() > 0,
        all_digits(s),
        fits(digits_value(s)),
    ensures
        spec_evaluate(s) == Ok::<SpecRat, EvalError>(SpecRat { num: digits_value(s), den: 1 }),
{
    assert(is_digit(s[0]));
    assert(s.subrange(0, s.len() as int) =~= s);
    lemma_lex_run(s, 0, s.len() as int, 0);
    let v = SpecRat { num: digits_value(s), den: 1 };
    assert(spec_parse(s, 0, None, None, None) == spec_parse(
        s,
        s.len() as int,
        Some(v),
        None,
        None,
    ));
}

/// The fold has no operator precedence: in `literal op literal op literal`
/// the first operator is always applied first, whatever the two operators
/// are, and the second is applied to that intermediate result — with any
/// error of the first application surfacing unchanged.
pub proof fn lemma_left_to_right_fold(t1: Seq<char>, c1: char, t2: Seq<char>, c2: char, t3: Seq<char>)
    requires
        t1.len() > 0 && all_digits(t1) && fits(digits_value(t1)),
        t2.len() > 0 && all_digits(t2) && fits(digits_value(t2)),
        t3.len() > 0 && all_digits(t3) && fits(digits_value(t3)),
        is_operator_char(c1),
        is_operator_char(c2),
    ensures
        ({
            let s = t1 + seq![c1] + t2 + seq![c2] + t3;
            let v1 = SpecRat { num: digits_value(t1), den: 1 };
            let v2 = SpecRat { num: digits_value(t2), den: 1 };
            let v3 = SpecRat { num: digits_value(t3), den: 1 };
            spec_evaluate(s) == match spec_apply(operator_of(c1), v1, v2) {
                Ok(x) => spec_apply(operator_of(c2), x, v3),
                Err(e) => Err(e),
            }
        }),
{
    let s = t1 + seq![c1] + t2 + seq![c2] + t3;
    let n1 = t1.len() as int;
    let n2 = t2.len() as int;
    let n3 = t3.len() as int;
    let v1 = SpecRat { num: digits_value(t1), den: 1 };
    let v2 = SpecRat { num: digits_value(t2), den: 1 };
    let v3 = SpecRat { num: digits_value(t3), den: 1 };
    let op1 = operator_of(c1);
    let op2 = operator_of(c2);
    assert(s.len() == n1 + n2 + n3 + 2);
    assert(s.subrange(0, n1) =~= t1);
    assert(s[n1] == c1);
    assert(s.subrange(n1 + 1, n1 + 1 + n2) =~= t2);
    assert(s[n1 + 1 + n2] == c2);
    assert(s.subrange(n1 + n2 + 2, s.len() as int) =~= t3);

    assert(is_digit(s[0]));
    assert(!is_digit(s[n1]));
    assert forall|k: int| 0 <= k < n1 implies is_digit(#[trigger] s[k]) by {
        assert(s[k] == t1[k]);
    }
    lemma_lex_run(s, 0, n1, 0);
    assert(spec_parse(s, 0, None, None, None) == spec_parse(s, n1, Some(v1), None, None));

    assert(spec_parse(s, n1, Some(v1), None, None) == spec_parse(
        s,
        n1 + 1,
        Some(v1),
        None,
        Some(op1),
    ));

    assert(is_digit(s[n1 + 1]));
    assert(!is_digit(s[n1 + 1 + n2]));
    assert forall|k: int| n1 + 1 <= k < n1 + 1 + n2 implies is_digit(#[trigger] s[k]) by {
        assert(s[k] == t2[k - (n1 + 1)]);
    }
    lemma_lex_run(s, n1 + 1, n1 + 1 + n2, 0);
    assert(spec_parse(s, n1 + 1, Some(v1), None, Some(op1)) == spec_parse(
        s,
        n1 + 1 + n2,
        Some(v1),
        Some(v2),
        Some(op1),
    ));

    match spec_apply(op1, v1, v2) {
        Err(e) => {
            assert(spec_parse(s, n1 + 1 + n2, Some(v1), Some(v2), Some(op1)) == Err::<
                SpecRat,
                EvalError,
            >(e));
        },
        Ok(x) => {
            assert(spec_parse(s, n1 + 1 + n2, Some(v1), Some(v2), Some(op1)) == spec_parse(
                s,
                n1 + n2 + 2,
                Some(x),
                None,
                Some(op2),
            ));
            assert(is_digit(s[n1 + n2 + 2]));
            assert forall|k: int| n1 + n2 + 2 <= k < s.len() implies is_digit(
                #[trigger] s[k],
            ) by {
                assert(s[k] == t3[k - (n1 + n2 + 2)]);
            }
            lemma_lex_run(s, n1 + n2 + 2, s.len() as int, 0);
            assert(spec_parse(s, n1 + n2 + 2, Some(x), None, Some(op2)) == spec_parse(
                s,
                s.len() as int,
                Some(x),
                Some(v3),
                Some(op2),
            ));
            assert(spec_parse(s, s.len() as int, Some(x), Some(v3), Some(op2)) == spec_apply(
                op2,
                x,
                v3,
            ));
        },
    }
}

/// Evaluating the decimal text of a prior evaluation's result — when that
/// result is a non-negative whole number, formatted as a bare numeric
/// literal — returns the same value.
pub proof fn lemma_round_trip(s: Seq<char>)
    requires
        spec_evaluate(s) matches Ok(r) && r.num >= 0 && r.num % r.den == 0,
    ensures
        spec_evaluate(s) matches Ok(r) ==> {
            let q = r.num / r.den;
            q * r.den == r.num && spec_evaluate(dec_digits_of(q)) == Ok::<SpecRat, EvalError>(
                SpecRat { num: q, den: 1 },
            )
        },
{
    lemma_evaluate_wf(s);
    let r = spec_evaluate(s)->Ok_0;
    let q = r.num / r.den;
    lemma_div_pos_is_pos(r.num, r.den);
    lemma_div_nonincreasing(r.num, r.den);
    lemma_fundamental_div_mod(r.num, r.den);
    lemma_mul_is_commutative(r.den, q);
    lemma_dec_digits(q);
    lemma_literal_value(dec_digits_of(q));
}

} // verus!
