//! Numbers as decimal text.
use vstd::arithmetic::div_mod::lemma_div_denominator;
use vstd::arithmetic::power::{lemma_pow0, lemma_pow1, lemma_pow_positive, pow};
use vstd::prelude::*;
use vstd::string::*;

verus! {

/// The character of a decimal digit.
pub open spec fn digit_char(d: nat) -> char {
    (48 + d) as char
}

pub open spec fn is_digit(c: char) -> bool {
    '0' <= c && c <= '9'
}

/// The number that a digit stands for.
pub open spec fn digit_value(c: char) -> nat {
    (c as nat - 48) as nat
}

/// The decimal digits of `n`, the most significant first, without leading zeros.
pub open spec fn decimal(n: nat) -> Seq<char>
    decreases n,
{
    if n < 10 {
        seq![digit_char(n)]
    } else {
        decimal(n / 10).push(digit_char(n % 10))
    }
}

/// `tenths / 10`, with one digit after the point.
pub open spec fn one_decimal(tenths: nat) -> Seq<char> {
    decimal(tenths / 10) + "."@ + seq![digit_char(tenths % 10)]
}

pub open spec fn all_digits(s: Seq<char>) -> bool {
    forall|i: int| 0 <= i < s.len() ==> is_digit(#[trigger] s[i])
}

/// The number that a row of digits stands for.
pub open spec fn number(s: Seq<char>) -> nat
    decreases s.len(),
{
    if s.len() == 0 {
        0
    } else {
        number(s.drop_last()) * 10 + digit_value(s.last())
    }
}

fn push_digit(text: &mut String, d: u8)
    requires
        d < 10,
    ensures
        final(text)@ == old(text)@.push(digit_char(d as nat)),
{
    proof {
        reveal_strlit("0");
        reveal_strlit("1");
        reveal_strlit("2");
        reveal_strlit("3");
        reveal_strlit("4");
        reveal_strlit("5");
        reveal_strlit("6");
        reveal_strlit("7");
        reveal_strlit("8");
        reveal_strlit("9");
    }
    let digit: &str = match d {
        0 => "0",
        1 => "1",
        2 => "2",
        3 => "3",
        4 => "4",
        5 => "5",
        6 => "6",
        7 => "7",
        8 => "8",
        _ => "9",
    };
    assert(digit@ =~= seq![digit_char(d as nat)]);
    text.append(digit);
}

/// Appends the decimal digits of `n`.
pub fn push_decimal(text: &mut String, n: u128)
    ensures
        final(text)@ == old(text)@ + decimal(n as nat),
    decreases n,
{
    if n >= 10 {
        push_decimal(text, n / 10);
    }
    push_digit(text, (n % 10) as u8);
}

/// The decimal digits of `n`.
pub fn decimal_text(n: u128) -> (text: String)
    ensures
        text@ == decimal(n as nat),
{
    let mut text = String::new();
    push_decimal(&mut text, n);
    text
}

/// Appends `tenths / 10` with one digit after the point.
pub fn push_one_decimal(text: &mut String, tenths: u64)
    ensures
        final(text)@ == old(text)@ + one_decimal(tenths as nat),
{
    push_decimal(text, (tenths / 10) as u128);
    text.append(".");
    push_digit(text, (tenths % 10) as u8);
}

/// Decimal text is a row of digits that stands for its number, and has no
/// leading zero but for the number zero.
pub proof fn lemma_decimal(n: nat)
    ensures
        decimal(n).len() > 0,
        all_digits(decimal(n)),
        number(decimal(n)) == n,
        decimal(n)[0] == '0' ==> n == 0,
        decimal(n).len() > 1 <==> n >= 10,
    decreases n,
{
    let s = decimal(n);
    if n < 10 {
        assert(s.drop_last() =~= Seq::<char>::empty());
        assert(number(s.drop_last()) == 0);
        assert(s.last() == digit_char(n));
    } else {
        let head = decimal(n / 10);
        lemma_decimal(n / 10);
        assert(s.drop_last() =~= head);
        assert(s.last() == digit_char(n % 10));
        assert forall|i: int| 0 <= i < s.len() implies is_digit(#[trigger] s[i]) by {
            if i < head.len() {
                assert(s[i] == head[i]);
            }
        }
        assert(s[0] == head[0]);
    }
}

/// A row of digits without a leading zero is the decimal text of its number.
pub proof fn lemma_number_decimal(s: Seq<char>)
    requires
        s.len() > 0,
        all_digits(s),
        s[0] == '0' ==> s.len() == 1,
    ensures
        decimal(number(s)) == s,
        s.len() > 1 ==> number(s) >= 10,
    decreases s.len(),
{
    let head = s.drop_last();
    let d = digit_value(s.last());
    assert(is_digit(s.last()));
    assert(digit_char(d) == s.last());
    if s.len() == 1 {
        assert(number(head) == 0);
        assert(decimal(number(s)) =~= s);
    } else {
        assert(head[0] == s[0]);
        assert forall|i: int| 0 <= i < head.len() implies is_digit(#[trigger] head[i]) by {
            assert(head[i] == s[i]);
        }
        lemma_number_decimal(head);
        if head.len() == 1 {
            assert(head.drop_last() =~= Seq::<char>::empty());
            assert(number(head.drop_last()) == 0);
            assert(number(head) == digit_value(head[0]));
            assert(is_digit(head[0]));
        }
        assert(number(head) >= 1);
        assert(number(s) / 10 == number(head));
        assert(number(s) % 10 == d);
        assert(decimal(number(s)) =~= s);
    }
}

/// The digits of a number, by their places: the digit with `k` digits behind
/// it counts the powers `10^k`, and no digit is missing or too many.
pub proof fn lemma_digits_by_place(n: nat)
    ensures
        n < pow(10, decimal(n).len()),
        decimal(n).len() > 1 ==> n >= pow(10, (decimal(n).len() - 1) as nat),
        forall|i: int|
            0 <= i < decimal(n).len() ==> (#[trigger] decimal(n)[i]) as int == 48 + (n as int / pow(
                10,
                (decimal(n).len() - 1 - i) as nat,
            )) % 10,
    decreases n,
{
    let s = decimal(n);
    reveal(pow);
    lemma_pow0(10);
    lemma_pow1(10);
    if n < 10 {
        assert(s[0] == digit_char(n) && s.len() == 1);
        assert(n as int / pow(10, 0) == n);
        assert((n as int) % 10 == n);
    } else {
        let head = decimal(n / 10);
        let len = s.len();
        lemma_digits_by_place(n / 10);
        lemma_decimal(n / 10);
        assert(pow(10, len) == 10 * pow(10, (len - 1) as nat));
        assert(pow(10, (len - 1) as nat) == 10 * pow(10, (len - 2) as nat));
        assert forall|i: int| 0 <= i < len implies (#[trigger] s[i]) as int == 48 + (n as int
            / pow(10, (len - 1 - i) as nat)) % 10 by {
            if i == len - 1 {
                assert(s[i] == digit_char(n % 10));
            } else {
                let k = (len - 2 - i) as nat;
                assert(s[i] == head[i]);
                lemma_pow_positive(10, k);
                lemma_div_denominator(n as int, 10, pow(10, k));
                assert(pow(10, (k + 1) as nat) == 10 * pow(10, k));
            }
        }
    }
}

/// A number is written in digits: each stands for ten times what it would in
/// the next place, and the first is not zero but for the number zero.
pub proof fn law_numbers_are_written_by_place(n: u128, written: String)
    requires
        call_ensures(decimal_text, (n,), written),
    ensures
        written@.len() > 0,
        n < pow(10, written@.len()),
        written@.len() > 1 ==> n >= pow(10, (written@.len() - 1) as nat),
        forall|i: int|
            0 <= i < written@.len() ==> (#[trigger] written@[i]) as int == 48 + (n as int / pow(
                10,
                (written@.len() - 1 - i) as nat,
            )) % 10,
{
    lemma_decimal(n as nat);
    lemma_digits_by_place(n as nat);
}

/// A number is appended as it is written alone.
pub proof fn law_numbers_are_appended(text: &mut String, n: u128, written: String)
    requires
        call_ensures(push_decimal, (text, n), ()),
        call_ensures(decimal_text, (n,), written),
    ensures
        final(text)@ == old(text)@ + written@,
{
}

/// Tenths are appended as the whole number, a point, and the digit that is left.
pub proof fn law_tenths_are_appended(text: &mut String, tenths: u64, whole: String)
    requires
        call_ensures(push_one_decimal, (text, tenths), ()),
        call_ensures(decimal_text, ((tenths / 10) as u128,), whole),
    ensures
        final(text)@ == (old(text)@ + whole@).push('.').push((48 + tenths % 10) as char),
{
    reveal_strlit(".");
    assert(final(text)@ =~= (old(text)@ + whole@).push('.').push((48 + tenths % 10) as char));
}

/// The last digit of a row counts ones, and the digits before it ten times as much.
pub proof fn law_digits_count_by_place(s: Seq<char>, c: char)
    requires
        '0' <= c <= '9',
    ensures
        number(Seq::empty()) == 0,
        number(s.push(c)) == 10 * number(s) + (c as int - 48),
{
    assert(s.push(c).drop_last() =~= s);
}

} // verus!
