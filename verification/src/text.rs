//! Decimal rendering of integers and small text helpers.

use vstd::prelude::*;
use vstd::string::*;

verus! {

/// The character of the decimal digit `d` (`0 <= d < 10`).
pub open spec fn digit_char(d: int) -> char {
    (d + 48) as char
}

/// The decimal digits of `n`, most significant first, without leading zeros
/// (`0` is written `"0"`).
pub open spec fn digits(n: nat) -> Seq<char>
    decreases n,
{
    if n < 10 {
        seq![digit_char(n as int)]
    } else {
        digits(n / 10).push(digit_char((n % 10) as int))
    }
}

/// The decimal text of the integer `n`, with a leading `-` when it is negative:
/// what `format!("{}", n)` writes for an integer.
pub open spec fn decimal(n: int) -> Seq<char> {
    if n < 0 {
        seq!['-'] + digits((-n) as nat)
    } else {
        digits(n as nat)
    }
}

/// `String::push`: appends the character `c` to `s`.
#[verifier::external_body]
pub(crate) fn push_char(s: &mut String, c: char)
    ensures
        final(s)@ == old(s)@.push(c),
{
    s.push(c)
}

fn digit(d: u64) -> (c: char)
    requires
        d < 10,
    ensures
        c == digit_char(d as int),
{
    match d {
        0 => '0',
        1 => '1',
        2 => '2',
        3 => '3',
        4 => '4',
        5 => '5',
        6 => '6',
        7 => '7',
        8 => '8',
        _ => '9',
    }
}

fn push_digits(s: &mut String, m: u64)
    ensures
        final(s)@ == old(s)@ + digits(m as nat),
    decreases m,
{
    if m >= 10 {
        push_digits(s, m / 10);
    }
    let c = digit(m % 10);
    push_char(s, c);
    proof {
        if m >= 10 {
            assert(digits(m as nat) == digits((m / 10) as nat).push(c));
            assert(final(s)@ =~= old(s)@ + digits(m as nat));
        } else {
            assert(digits(m as nat) == seq![c]);
            assert(final(s)@ =~= old(s)@ + digits(m as nat));
        }
    }
}

/// The decimal text of `n`.
pub fn int_text(n: i64) -> (t: String)
    ensures
        t@ == decimal(n as int),
{
    let mut t = String::new();
    if n < 0 {
        push_char(&mut t, '-');
        let wide: i128 = n as i128;
        let magnitude: u64 = (0i128 - wide) as u64;
        push_digits(&mut t, magnitude);
        assert(t@ =~= seq!['-'] + digits((-n) as nat));
    } else {
        push_digits(&mut t, n as u64);
        assert(t@ =~= digits(n as nat));
    }
    t
}

/// Whether two texts are the same character sequence.
pub fn text_eq(a: &str, b: &str) -> (same: bool)
    ensures
        same == (a@ == b@),
{
    let len = a.unicode_len();
    if len != b.unicode_len() {
        return false;
    }
    let mut i: usize = 0;
    while i < len
        invariant
            len == a@.len(),
            len == b@.len(),
            i <= len,
            forall|j: int| 0 <= j < i ==> a@[j] == b@[j],
        decreases len - i,
    {
        if a.get_char(i) != b.get_char(i) {
            return false;
        }
        i = i + 1;
    }
    assert(a@ =~= b@);
    true
}


/// Every character of `digits(n)` is a decimal digit.
pub proof fn lemma_digits_chars(n: nat)
    ensures
        digits(n).len() >= 1,
        forall|i: int| 0 <= i < digits(n).len() ==> 48 <= #[trigger] (digits(n)[i] as int) <= 57,
    decreases n,
{
    if n >= 10 {
        lemma_digits_chars(n / 10);
        let d = digits(n / 10);
        assert forall|i: int| 0 <= i < digits(n).len() implies 48 <= #[trigger] (digits(n)[i] as int) <= 57 by {
            if i < d.len() {
                assert(digits(n)[i] == d[i]);
            }
        }
    }
}

proof fn lemma_digit_char_value(d: int)
    requires
        0 <= d < 10,
    ensures
        digit_char(d) as int == d + 48,
{
}

/// Different numbers have different digits.
pub proof fn lemma_digits_injective(a: nat, b: nat)
    requires
        digits(a) == digits(b),
    ensures
        a == b,
    decreases a,
{
    lemma_digits_chars(a / 10);
    lemma_digits_chars(b / 10);
    if a >= 10 && b >= 10 {
        assert(digits(a).drop_last() =~= digits(a / 10));
        assert(digits(b).drop_last() =~= digits(b / 10));
        lemma_digits_injective(a / 10, b / 10);
        assert(digits(a).last() == digits(b).last());
        lemma_digit_char_value((a % 10) as int);
        lemma_digit_char_value((b % 10) as int);
        assert(digits(a) == digits(a / 10).push(digit_char((a % 10) as int)));
        assert(digits(b) == digits(b / 10).push(digit_char((b % 10) as int)));
        let da = digits(a / 10);
        let db = digits(b / 10);
        assert(digits(a)[da.len() as int] == digit_char((a % 10) as int));
        assert(digits(b)[db.len() as int] == digit_char((b % 10) as int));
        assert(da.len() == db.len());
        assert(digit_char((a % 10) as int) == digit_char((b % 10) as int));
        assert(a % 10 == b % 10);
        assert(a / 10 == b / 10);
        assert(a == 10 * (a / 10) + a % 10);
        assert(b == 10 * (b / 10) + b % 10);
    } else if a >= 10 {
        assert(digits(a).len() == digits(a / 10).len() + 1);
        assert(digits(b).len() == 1);
    } else if b >= 10 {
        assert(digits(b).len() == digits(b / 10).len() + 1);
        assert(digits(a).len() == 1);
    } else {
        assert(digits(a)[0] == digit_char(a as int));
        assert(digits(b)[0] == digit_char(b as int));
        lemma_digit_char_value(a as int);
        lemma_digit_char_value(b as int);
    }
}


/// The decimal text of an integer is not empty and holds only digits and `-`;
/// it begins with `-` exactly when the integer is negative.
pub proof fn lemma_decimal_chars(n: int)
    ensures
        decimal(n).len() >= 1,
        forall|i: int|
            0 <= i < decimal(n).len() ==> (#[trigger] (decimal(n)[i] as int) == 45 || 48 <= (
            decimal(n)[i] as int) <= 57),
        (decimal(n)[0] as int == 45) <==> n < 0,
{
    if n < 0 {
        lemma_digits_chars((-n) as nat);
        let d = digits((-n) as nat);
        assert forall|i: int| 0 <= i < decimal(n).len() implies (#[trigger] (decimal(n)[i] as int)
            == 45 || 48 <= (decimal(n)[i] as int) <= 57) by {
            if i > 0 {
                assert(decimal(n)[i] == d[i - 1]);
            }
        }
    } else {
        lemma_digits_chars(n as nat);
    }
}

/// Different integers have different decimal texts.
pub proof fn lemma_decimal_injective(a: int, b: int)
    requires
        decimal(a) == decimal(b),
    ensures
        a == b,
{
    lemma_decimal_chars(a);
    lemma_decimal_chars(b);
    if a < 0 {
        assert(decimal(a).drop_first() =~= digits((-a) as nat));
        assert(decimal(b).drop_first() =~= digits((-b) as nat));
        lemma_digits_injective((-a) as nat, (-b) as nat);
    } else {
        lemma_digits_injective(a as nat, b as nat);
    }
}

} // verus!
