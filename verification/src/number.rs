//! Numbers as text: decimal numerals are read, decimal and hexadecimal ones
//! are written.

use vstd::prelude::*;

verus! {

/// Whether `c` is one of the ten ASCII digits.
pub open spec fn decimal_digit(c: char) -> bool {
    '0' <= c <= '9'
}

/// The number that a run of decimal digits stands for.
pub open spec fn decimal_value(digits: Seq<char>) -> nat
    decreases digits.len(),
{
    if digits.len() == 0 {
        0
    } else {
        decimal_value(digits.drop_last()) * 10 + (digits.last() as nat - '0' as nat) as nat
    }
}

/// Whether `s` is made of decimal digits.
pub open spec fn all_decimal_digits(s: Seq<char>) -> bool {
    forall|i: int| 0 <= i < s.len() ==> decimal_digit(#[trigger] s[i])
}

/// The number that `s` stands for: at least one decimal digit, and nothing else.
pub open spec fn numeral_value(s: Seq<char>) -> Option<nat> {
    if s.len() > 0 && all_decimal_digits(s) {
        Some(decimal_value(s))
    } else {
        None
    }
}

/// `n`, cut to the largest 64-bit number.
pub open spec fn saturated(n: nat) -> u64 {
    if n <= u64::MAX {
        n as u64
    } else {
        u64::MAX
    }
}

/// The digit for a value below sixteen, with lower-case letters from ten on.
pub open spec fn digit_char(value: nat) -> char {
    if value < 10 {
        ('0' as nat + value) as char
    } else {
        ('a' as nat + value - 10) as char
    }
}

/// The numeral of `n` in the given base, without leading zeros.
pub open spec fn numeral(n: nat, base: nat) -> Seq<char>
    decreases n,
    when base >= 2
{
    if n < base {
        seq![digit_char(n)]
    } else {
        proof {
            lemma_quotient_decreases(n, base);
        }
        numeral(n / base, base).push(digit_char(n % base))
    }
}

/// Division by a base of at least two, with a dividend no smaller than it.
pub proof fn lemma_quotient_decreases(n: nat, base: nat)
    requires
        2 <= base <= n,
    ensures
        n / base < n,
        n % base < base,
        n == base * (n / base) + n % base,
{
    assert(n / base < n && n % base < base && n == base * (n / base) + n % base)
        by (nonlinear_arith)
        requires
            2 <= base <= n,
    ;
}

/// The decimal numeral of `n`.
pub open spec fn decimal(n: nat) -> Seq<char> {
    numeral(n, 10)
}

/// The lower-case hexadecimal numeral of `n`.
pub open spec fn hexadecimal(n: nat) -> Seq<char> {
    numeral(n, 16)
}

/// Whether `s` is made of decimal digits.
pub fn are_digits(s: &[char]) -> (r: bool)
    ensures
        r == all_decimal_digits(s@),
{
    let mut i: usize = 0;
    while i < s.len()
        invariant
            i <= s@.len(),
            forall|j: int| 0 <= j < i ==> decimal_digit(#[trigger] s@[j]),
        decreases s@.len() - i,
    {
        if !('0' <= s[i] && s[i] <= '9') {
            assert(!decimal_digit(s@[i as int]));
            return false;
        }
        i = i + 1;
    }
    true
}

/// The number that `s` stands for, cut to 64 bits.
pub fn parse_numeral(s: &[char]) -> (r: Option<u64>)
    ensures
        r == match numeral_value(s@) {
            Some(n) => Some(saturated(n)),
            None => None,
        },
{
    if s.len() == 0 {
        return None;
    }
    let mut value: u64 = 0;
    let mut i: usize = 0;
    while i < s.len()
        invariant
            i <= s@.len(),
            s@.len() > 0,
            forall|j: int| 0 <= j < i ==> decimal_digit(#[trigger] s@[j]),
            value == saturated(decimal_value(s@.take(i as int))),
        decreases s@.len() - i,
    {
        let c: char = s[i];
        if !('0' <= c && c <= '9') {
            assert(!decimal_digit(s@[i as int]));
            return None;
        }
        let d: u64 = (c as u8 - '0' as u8) as u64;
        proof {
            let longer = s@.take(i + 1);
            assert(longer.drop_last() == s@.take(i as int));
            assert(longer.last() == c);
        }
        value = if value > (u64::MAX - d) / 10 {
            u64::MAX
        } else {
            value * 10 + d
        };
        i = i + 1;
    }
    assert(s@.take(i as int) == s@);
    Some(value)
}

fn digit(value: u64) -> (r: &'static str)
    requires
        value < 16,
    ensures
        r@ == seq![digit_char(value as nat)],
{
    proof {
        reveal_strlit("0");
        reveal_strlit("1");
        reveal_strlit("2");
        reveal_strlit("3");
        reveal_strlit("4");
        reveal_strlit("5");
        reveal_strlit("6");
        reveal_strlit("7");
        reveal_strlit("8");
        reveal_strlit("9");
        reveal_strlit("a");
        reveal_strlit("b");
        reveal_strlit("c");
        reveal_strlit("d");
        reveal_strlit("e");
        reveal_strlit("f");
    }
    let r: &'static str = match value {
        0 => "0",
        1 => "1",
        2 => "2",
        3 => "3",
        4 => "4",
        5 => "5",
        6 => "6",
        7 => "7",
        8 => "8",
        9 => "9",
        10 => "a",
        11 => "b",
        12 => "c",
        13 => "d",
        14 => "e",
        _ => "f",
    };
    assert(r@ =~= seq![digit_char(value as nat)]);
    r
}

fn write_numeral(n: u64, base: u64) -> (r: String)
    requires
        2 <= base <= 16,
    ensures
        r@ == numeral(n as nat, base as nat),
    decreases n,
{
    if n < base {
        String::from_str(digit(n))
    } else {
        proof {
            lemma_quotient_decreases(n as nat, base as nat);
        }
        let mut r = write_numeral(n / base, base);
        r.append(digit(n % base));
        assert(r@ =~= numeral(n as nat, base as nat));
        r
    }
}

/// The decimal numeral of `n`.
pub fn write_decimal(n: u64) -> (r: String)
    ensures
        r@ == decimal(n as nat),
{
    write_numeral(n, 10)
}

/// The lower-case hexadecimal numeral of `n`.
pub fn write_hexadecimal(n: u64) -> (r: String)
    ensures
        r@ == hexadecimal(n as nat),
{
    write_numeral(n, 16)
}

/// A numeral has at least one character, and each is a digit of the base.
pub proof fn lemma_numeral_digits(n: nat, base: nat)
    requires
        2 <= base <= 16,
    ensures
        numeral(n, base).len() > 0,
        forall|i: int|
            0 <= i < numeral(n, base).len() ==> exists|d: nat|
                d < base && #[trigger] numeral(n, base)[i] == #[trigger] digit_char(d),
    decreases n,
{
    if n < base {
        assert(numeral(n, base)[0] == digit_char(n));
    } else {
        lemma_quotient_decreases(n, base);
        lemma_numeral_digits(n / base, base);
        let head = numeral(n / base, base);
        assert forall|i: int| 0 <= i < numeral(n, base).len() implies exists|d: nat|
            d < base && #[trigger] numeral(n, base)[i] == #[trigger] digit_char(d) by {
            if i < head.len() {
                assert(numeral(n, base)[i] == head[i]);
            } else {
                assert(numeral(n, base)[i] == digit_char(n % base));
            }
        }
    }
}

/// Different numbers have different numerals.
pub proof fn lemma_numeral_injective(m: nat, n: nat, base: nat)
    requires
        2 <= base <= 16,
        numeral(m, base) == numeral(n, base),
    ensures
        m == n,
    decreases m,
{
    let x = numeral(m, base);
    if m >= base {
        lemma_quotient_decreases(m, base);
    }
    if n >= base {
        lemma_quotient_decreases(n, base);
    }
    lemma_numeral_digits(m / base, base);
    lemma_numeral_digits(n / base, base);
    if m < base {
        assert(x.last() == digit_char(m));
        assert(n < base);
    } else {
        assert(n >= base);
        assert(x.drop_last() == numeral(m / base, base));
        assert(x.drop_last() == numeral(n / base, base));
        lemma_numeral_injective(m / base, n / base, base);
        assert(x.last() == digit_char(m % base));
        assert(x.last() == digit_char(n % base));
    }
}

/// A decimal numeral is read back as the number it was written for.
pub proof fn law_decimal_reads_back(n: nat)
    ensures
        numeral_value(decimal(n)) == Some(n),
{
    lemma_decimal_digits(n);
}

/// A decimal numeral is made of digits, and its value is the number.
pub proof fn lemma_decimal_digits(n: nat)
    ensures
        decimal(n).len() > 0,
        all_decimal_digits(decimal(n)),
        decimal_value(decimal(n)) == n,
    decreases n,
{
    if n < 10 {
        assert(decimal(n) == seq![digit_char(n)]);
        assert(decimal(n).drop_last() == Seq::<char>::empty());
        reveal_with_fuel(decimal_value, 2);
    } else {
        lemma_decimal_digits(n / 10);
        assert(decimal(n).drop_last() == decimal(n / 10));
    }
}

/// Decimal numerals: one digit each below ten, and then one digit more for every
/// factor of ten.
pub proof fn law_decimal_numerals(n: nat, d: nat)
    requires
        d < 10,
    ensures
        decimal(d) == seq!["0123456789"@[d as int]],
        n > 0 ==> decimal(10 * n + d) == decimal(n) + decimal(d),
{
    reveal_strlit("0123456789");
    if n > 0 {
        assert((10 * n + d) / 10 == n && (10 * n + d) % 10 == d);
        assert(decimal(10 * n + d) == decimal(n).push(digit_char(d)));
    }
}

/// Hexadecimal numerals: one digit each below sixteen, and then one digit more for
/// every factor of sixteen.
pub proof fn law_hexadecimal_numerals(n: nat, d: nat)
    requires
        d < 16,
    ensures
        hexadecimal(d) == seq!["0123456789abcdef"@[d as int]],
        n > 0 ==> hexadecimal(16 * n + d) == hexadecimal(n) + hexadecimal(d),
{
    reveal_strlit("0123456789abcdef");
    if n > 0 {
        assert((16 * n + d) / 16 == n && (16 * n + d) % 16 == d);
        assert(hexadecimal(16 * n + d) == hexadecimal(n).push(digit_char(d)));
    }
}

/// A numeral is made of the ten digits, and of nothing else.
pub proof fn law_numerals_are_digits(s: Seq<char>)
    ensures
        all_decimal_digits(s) <==> forall|i: int|
            0 <= i < s.len() ==> "0123456789"@.contains(#[trigger] s[i]),
        numeral_value(s) is Some <==> s.len() > 0 && forall|i: int|
            0 <= i < s.len() ==> "0123456789"@.contains(#[trigger] s[i]),
{
    reveal_strlit("0123456789");
    assert forall|c: char| decimal_digit(c) <==> #[trigger] "0123456789"@.contains(c) by {
        if decimal_digit(c) {
            assert("0123456789"@[c as int - '0' as int] == c);
        }
    }
    if all_decimal_digits(s) {
        assert forall|i: int| 0 <= i < s.len() implies "0123456789"@.contains(#[trigger] s[i]) by {
            assert(decimal_digit(s[i]));
        }
    }
}

/// The value of a numeral: that of a single digit is its place among the ten, and
/// one digit more multiplies by ten and adds its value.
pub proof fn law_numeral_values(s: Seq<char>, d: nat)
    requires
        d < 10,
    ensures
        numeral_value(seq!["0123456789"@[d as int]]) == Some(d),
        numeral_value(s) matches Some(n) ==> numeral_value(s.push("0123456789"@[d as int]))
            == Some(10 * n + d),
        numeral_value(Seq::empty()) is None,
{
    reveal_strlit("0123456789");
    let c = "0123456789"@[d as int];
    assert(c as int == '0' as int + d);
    reveal_with_fuel(decimal_value, 2);
    assert(seq![c].drop_last() == Seq::<char>::empty());
    assert(s.push(c).drop_last() == s);
    if numeral_value(s) is Some {
        assert forall|i: int| 0 <= i < s.push(c).len() implies decimal_digit(
            #[trigger] s.push(c)[i],
        ) by {
            if i < s.len() {
                assert(s.push(c)[i] == s[i]);
            }
        }
    }
}

/// A number is kept up to the largest of 64 bits, and cut to it beyond.
pub proof fn law_saturated(n: nat)
    ensures
        saturated(n) <= n,
        n <= 0xffff_ffff_ffff_ffff ==> saturated(n) == n,
        n > 0xffff_ffff_ffff_ffff ==> saturated(n) == 0xffff_ffff_ffff_ffff,
{
}

} // verus!
