//! Numbers written as text.

use vstd::prelude::*;

verus! {

broadcast use vstd::string::group_string_axioms;

/// The character for a digit below sixteen: `0` to `9`, then `a` to `f`.
pub open spec fn digit(d: nat) -> char {
    if d < 10 {
        ('0' as int + d) as char
    } else {
        ('a' as int + d - 10) as char
    }
}

/// `n` in decimal, without leading zeros.
pub open spec fn decimal_text(n: nat) -> Seq<char>
    decreases n,
{
    if n < 10 {
        seq![digit(n)]
    } else {
        decimal_text(n / 10).push(digit(n % 10))
    }
}

/// The last `count` hexadecimal digits of `n`, zeros included.
pub open spec fn hex_text(n: nat, count: nat) -> Seq<char>
    decreases count,
{
    if count == 0 {
        seq![]
    } else {
        hex_text(n / 16, (count - 1) as nat).push(digit(n % 16))
    }
}

/// The character of a decimal or lower-case hexadecimal digit.
pub open spec fn hex_digit(c: char) -> bool {
    '0' <= c <= '9' || 'a' <= c <= 'f'
}

/// A decimal numeral is not empty and has only decimal digits.
pub proof fn lemma_decimal_digits(n: nat)
    ensures
        decimal_text(n).len() > 0,
        forall|i: int| 0 <= i < decimal_text(n).len() ==> '0' <= #[trigger] decimal_text(n)[i] <= '9',
    decreases n,
{
    if n >= 10 {
        lemma_decimal_digits(n / 10);
    }
}

/// Different numbers have different decimal numerals.
pub proof fn law_decimal_is_injective(a: nat, b: nat)
    requires
        decimal_text(a) == decimal_text(b),
    ensures
        a == b,
    decreases a,
{
    let s = decimal_text(a);
    if a >= 10 {
        lemma_decimal_digits(a / 10);
        assert(s.drop_last() =~= decimal_text(a / 10));
    }
    if b >= 10 {
        lemma_decimal_digits(b / 10);
        assert(s.drop_last() =~= decimal_text(b / 10));
    }
    if a >= 10 && b >= 10 {
        law_decimal_is_injective(a / 10, b / 10);
        assert(digit(a % 10) == s.last() && digit(b % 10) == s.last());
    } else if a < 10 && b < 10 {
        assert(digit(a) == s.last() && digit(b) == s.last());
    }
}

/// A hexadecimal numeral has as many digits as were asked for.
pub proof fn law_hex_digits(n: nat, count: nat)
    ensures
        hex_text(n, count).len() == count,
        forall|i: int| 0 <= i < count ==> hex_digit(#[trigger] hex_text(n, count)[i]),
    decreases count,
{
    if count > 0 {
        law_hex_digits(n / 16, (count - 1) as nat);
    }
}

/// The text of a digit below sixteen.
fn digit_str(d: usize) -> (r: &'static str)
    requires
        d < 16,
    ensures
        r@ == seq![digit(d as nat)],
{
    let digits = "0123456789abcdef";
    proof {
        reveal_strlit("0123456789abcdef");
    }
    assert(digits@ =~= Seq::new(16, |i: int| digit(i as nat)));
    let r = digits.substring_char(d, d + 1);
    assert(r@ =~= seq![digit(d as nat)]);
    r
}

/// `n` in decimal.
pub fn decimal(n: usize) -> (r: String)
    ensures
        r@ == decimal_text(n as nat),
    decreases n,
{
    let mut r = if n < 10 {
        String::new()
    } else {
        decimal(n / 10)
    };
    let ghost head = r@;
    r.append(digit_str(n % 10));
    assert(r@ =~= head.push(digit(n as nat % 10)));
    r
}

/// The last `count` hexadecimal digits of `n`.
pub fn hex(n: u64, count: usize) -> (r: String)
    ensures
        r@ == hex_text(n as nat, count as nat),
    decreases count,
{
    if count == 0 {
        String::new()
    } else {
        let mut r = hex(n / 16, count - 1);
        let ghost head = r@;
        r.append(digit_str((n % 16) as usize));
        assert(r@ =~= head.push(digit(n as nat % 16)));
        r
    }
}

// ---------------------------------------------------------------------------
// Laws
// ---------------------------------------------------------------------------

/// The value of a digit character.
pub open spec fn digit_value(c: char) -> nat {
    if '0' <= c <= '9' {
        (c as int - '0' as int) as nat
    } else {
        (c as int - 'a' as int + 10) as nat
    }
}

/// The value of a numeral to the base `base`.
pub open spec fn value(s: Seq<char>, base: nat) -> nat
    decreases s.len(),
{
    if s.len() == 0 {
        0
    } else {
        value(s.drop_last(), base) * base + digit_value(s.last())
    }
}

/// A decimal numeral has the value of its number, and no leading zero unless the
/// number is zero.
pub proof fn law_decimal_value(n: nat)
    ensures
        value(decimal_text(n), 10) == n,
        decimal_text(n)[0] == '0' ==> n == 0,
        decimal_text(0) == seq!['0'],
    decreases n,
{
    let s = decimal_text(n);
    if n < 10 {
        assert(s.drop_last() =~= seq![]);
        assert(value(s.drop_last(), 10) == 0);
    } else {
        law_decimal_value(n / 10);
        lemma_decimal_digits(n / 10);
        assert(s.drop_last() =~= decimal_text(n / 10));
        assert(s[0] == decimal_text(n / 10)[0]);
    }
}

/// A hexadecimal numeral of sixteen digits has the value of its number.
pub proof fn law_hex_value(n: nat)
    requires
        n < 0x1_0000_0000_0000_0000,
    ensures
        value(hex_text(n, 16), 16) == n,
{
    reveal_with_fuel(power_of_sixteen, 17);
    lemma_hex_value(n, 16);
}

spec fn power_of_sixteen(count: nat) -> nat
    decreases count,
{
    if count == 0 {
        1
    } else {
        16 * power_of_sixteen((count - 1) as nat)
    }
}

proof fn lemma_hex_value(n: nat, count: nat)
    requires
        n < power_of_sixteen(count),
    ensures
        value(hex_text(n, count), 16) == n,
    decreases count,
{
    if count > 0 {
        let s = hex_text(n, count);
        lemma_hex_value(n / 16, (count - 1) as nat);
        assert(s.drop_last() =~= hex_text(n / 16, (count - 1) as nat));
    }
}

} // verus!
