use vstd::prelude::*;

verus! {

/// Whether a character is a decimal digit of the grammar.
pub open spec fn is_digit(c: char) -> bool {
    '0' as int <= c as int && c as int <= '9' as int
}

/// The numeric value of a decimal digit character.
pub open spec fn digit_val(c: char) -> int {
    c as int - '0' as int
}

/// Whether every character of the sequence is a decimal digit.
pub open spec fn all_digits(s: Seq<char>) -> bool {
    forall|k: int| 0 <= k < s.len() ==> is_digit(#[trigger] s[k])
}

/// The base-10 value of a digit sequence, folded left to right onto an
/// accumulator, exactly as the lexer consumes it.
pub open spec fn digits_value_acc(s: Seq<char>, acc: int) -> int
    decreases s.len(),
{
    if s.len() == 0 {
        acc
    } else {
        digits_value_acc(s.drop_first(), acc * 10 + digit_val(s.first()))
    }
}

/// The base-10 value of a digit sequence.
pub open spec fn digits_value(s: Seq<char>) -> int {
    digits_value_acc(s, 0)
}

/// The decimal digit character for a value between 0 and 9.
pub open spec fn digit_char(d: int) -> char {
    if d == 1 {
        '1'
    } else if d == 2 {
        '2'
    } else if d == 3 {
        '3'
    } else if d == 4 {
        '4'
    } else if d == 5 {
        '5'
    } else if d == 6 {
        '6'
    } else if d == 7 {
        '7'
    } else if d == 8 {
        '8'
    } else if d == 9 {
        '9'
    } else {
        '0'
    }
}

/// The decimal digit string of a non-negative integer, without leading
/// zeros (a single `'0'` for zero itself).
pub open spec fn dec_digits_of(n: int) -> Seq<char>
    decreases n,
        when n >= 0
{
    if n < 10 {
        seq![digit_char(n)]
    } else {
        dec_digits_of(n / 10).push(digit_char(n % 10))
    }
}

/// The fold of a digit sequence never falls below its accumulator.
pub proof fn lemma_value_acc_lower(s: Seq<char>, acc: int)
    requires
        0 <= acc,
        all_digits(s),
    ensures
        digits_value_acc(s, acc) >= acc,
    decreases s.len(),
{
    if s.len() > 0 {
        assert(is_digit(s[0]));
        assert forall|k: int| 0 <= k < s.drop_first().len() implies is_digit(
            #[trigger] s.drop_first()[k],
        ) by {
            assert(s.drop_first()[k] == s[k + 1]);
        }
        lemma_value_acc_lower(s.drop_first(), acc * 10 + digit_val(s.first()));
    }
}

/// Appending a digit multiplies the folded value by ten and adds the digit.
pub proof fn lemma_value_acc_push(s: Seq<char>, acc: int, c: char)
    ensures
        digits_value_acc(s.push(c), acc) == digits_value_acc(s, acc) * 10 + digit_val(c),
    decreases s.len(),
{
    if s.len() == 0 {
        assert(s.push(c).first() == c);
        assert(s.push(c).drop_first() =~= Seq::<char>::empty());
        assert(digits_value_acc(Seq::<char>::empty(), acc * 10 + digit_val(c)) == acc * 10
            + digit_val(c));
        assert(digits_value_acc(s, acc) == acc);
    } else {
        assert(s.push(c).first() == s.first());
        assert(s.push(c).drop_first() =~= s.drop_first().push(c));
        lemma_value_acc_push(s.drop_first(), acc * 10 + digit_val(s.first()), c);
    }
}

/// The decimal digit string of `n` is a non-empty all-digit sequence whose
/// folded value is `n` again.
pub proof fn lemma_dec_digits(n: int)
    requires
        0 <= n,
    ensures
        dec_digits_of(n).len() >= 1,
        all_digits(dec_digits_of(n)),
        digits_value(dec_digits_of(n)) == n,
    decreases n,
{
    if n < 10 {
        let s = dec_digits_of(n);
        assert(s =~= seq![digit_char(n)]);
        assert(is_digit(digit_char(n)));
        assert(s.drop_first() =~= Seq::<char>::empty());
        assert(s.first() == digit_char(n));
        assert(digits_value_acc(Seq::<char>::empty(), digit_val(digit_char(n))) == digit_val(
            digit_char(n),
        ));
        assert(digits_value_acc(s, 0) == digit_val(digit_char(n)));
        assert(digit_val(digit_char(n)) == n);
    } else {
        lemma_dec_digits(n / 10);
        let t = dec_digits_of(n / 10);
        let c = digit_char(n % 10);
        lemma_value_acc_push(t, 0, c);
        assert(is_digit(c));
        assert(digit_val(c) == n % 10);
        assert forall|k: int| 0 <= k < t.push(c).len() implies is_digit(
            #[trigger] t.push(c)[k],
        ) by {
            if k < t.len() {
                assert(t.push(c)[k] == t[k]);
            } else {
                assert(t.push(c)[k] == c);
            }
        }
        assert(digits_value(t.push(c)) == (n / 10) * 10 + n % 10);
    }
}

/// The decimal digit character of a value below ten.
pub fn digit_to_char(d: u128) -> (c: char)
    requires
        d < 10,
    ensures
        c == digit_char(d as int),
{
    match d {
        0 => '0',
        1 => '1',
        2 => '2',
        3 => '3',
        4 => '4',
        5 => '5',
        6 => '6',
        7 => '7',
        8 => '8',
        _ => '9',
    }
}

/// Appends the decimal digit string of `n` to `out`.
pub fn push_decimal_digits(n: u128, out: &mut Vec<char>)
    ensures
        final(out)@ == old(out)@ + dec_digits_of(n as int),
    decreases n,
{
    if n >= 10 {
        push_decimal_digits(n / 10, out);
    }
    let ghost mid = out@;
    let c = digit_to_char(n % 10);
    out.push(c);
    proof {
        if n < 10 {
            assert(out@ =~= old(out)@ + dec_digits_of(n as int));
        } else {
            assert(mid == old(out)@ + dec_digits_of(n as int / 10));
            assert(out@ =~= old(out)@ + dec_digits_of(n as int));
        }
    }
}

} // verus!
