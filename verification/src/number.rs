//! Decimal numbers in text.

use vstd::arithmetic::power::pow;
use vstd::prelude::*;

verus! {

/// Whether a character is one of `0` to `9`.
pub open spec fn is_digit(c: char) -> bool {
    '0' <= c <= '9'
}

/// The number that a digit stands for.
pub open spec fn digit_value(c: char) -> nat {
    (c as int - '0' as int) as nat
}

/// The digit that stands for a number below ten.
pub open spec fn digit_char(n: nat) -> char {
    ('0' as int + n as int) as char
}

pub open spec fn all_digits(s: Seq<char>) -> bool {
    forall|i: int| 0 <= i < s.len() ==> is_digit(#[trigger] s[i])
}

/// The number that a sequence of digits writes in base ten.
pub open spec fn digits_value(s: Seq<char>) -> nat
    decreases s.len(),
{
    if s.len() == 0 {
        0
    } else {
        10 * digits_value(s.drop_last()) + digit_value(s.last())
    }
}

/// The digits of a text that is an unsigned number: those behind an optional `+`.
pub open spec fn unsigned_digits(s: Seq<char>) -> Seq<char> {
    if s.len() > 0 && s[0] == '+' {
        s.skip(1)
    } else {
        s
    }
}

/// The 32-bit unsigned number that a text writes: an optional `+`, then at least one
/// digit and nothing else.
pub open spec fn number_of(s: Seq<char>) -> Option<u32> {
    let d = unsigned_digits(s);
    if d.len() > 0 && all_digits(d) && digits_value(d) <= u32::MAX {
        Some(digits_value(d) as u32)
    } else {
        None
    }
}

/// A number in base ten, without leading zeros.
pub open spec fn decimal(n: nat) -> Seq<char>
    decreases n,
{
    if n < 10 {
        seq![digit_char(n)]
    } else {
        decimal(n / 10).push(digit_char(n % 10))
    }
}

/// A number in base ten, filled up on the left with zeros to at least `width` digits.
pub open spec fn padded(n: nat, width: nat) -> Seq<char> {
    let d = decimal(n);
    if d.len() < width {
        Seq::new((width - d.len()) as nat, |i: int| '0') + d
    } else {
        d
    }
}

/// A signed number in base ten.
pub open spec fn signed_decimal(n: int) -> Seq<char> {
    if n < 0 {
        seq!['-'] + decimal((-n) as nat)
    } else {
        decimal(n as nat)
    }
}

proof fn lemma_digits_value_prefix(s: Seq<char>, i: int)
    requires
        0 <= i <= s.len(),
    ensures
        digits_value(s.take(i)) <= digits_value(s),
    decreases s.len() - i,
{
    if i == s.len() {
        assert(s.take(i) =~= s);
    } else {
        assert(s.take(i + 1).drop_last() =~= s.take(i));
        lemma_digits_value_prefix(s, i + 1);
    }
}

/// Whether a text is made of digits alone.
pub fn has_digits_alone(s: &[char]) -> (r: bool)
    ensures
        r == all_digits(s@),
{
    let mut i: usize = 0;
    while i < s.len()
        invariant
            i <= s.len(),
            forall|k: int| 0 <= k < i ==> is_digit(#[trigger] s@[k]),
        decreases s.len() - i,
    {
        if !('0' <= s[i] && s[i] <= '9') {
            assert(!is_digit(s@[i as int]));
            return false;
        }
        i = i + 1;
    }
    true
}

/// Reads a text as a 32-bit unsigned number.
pub fn parse_u32(s: &[char]) -> (r: Option<u32>)
    ensures
        r == number_of(s@),
{
    let ghost d = unsigned_digits(s@);
    let start: usize = if s.len() > 0 && s[0] == '+' {
        1
    } else {
        0
    };
    assert(d == s@.skip(start as int));
    if start == s.len() {
        return None;
    }
    let mut value: u32 = 0;
    let mut i: usize = start;
    while i < s.len()
        invariant
            start <= i <= s.len(),
            d == unsigned_digits(s@),
            d == s@.skip(start as int),
            all_digits(d.take(i - start)),
            value == digits_value(d.take(i - start)),
        decreases s.len() - i,
    {
        let c: char = s[i];
        assert(d[i - start] == c);
        if !('0' <= c && c <= '9') {
            return None;
        }
        let next: u64 = value as u64 * 10 + (c as u32 - '0' as u32) as u64;
        let ghost longer = d.take(i - start + 1);
        proof {
            assert(longer.drop_last() =~= d.take(i - start));
            assert(next == digits_value(longer));
            lemma_digits_value_prefix(d, i - start + 1);
        }
        if next > u32::MAX as u64 {
            return None;
        }
        value = next as u32;
        i = i + 1;
        assert forall|k: int| 0 <= k < longer.len() implies is_digit(#[trigger] longer[k]) by {
            if k < longer.len() - 1 {
                assert(d.take(i - 1 - start)[k] == longer[k]);
            }
        }
    }
    assert(d.take(s.len() - start) =~= d);
    Some(value)
}

fn digit(n: u64) -> (c: char)
    requires
        n < 10,
    ensures
        c == digit_char(n as nat),
{
    match n {
        0 => '0',
        1 => '1',
        2 => '2',
        3 => '3',
        4 => '4',
        5 => '5',
        6 => '6',
        7 => '7',
        8 => '8',
        _ => '9',
    }
}

/// Writes a number in base ten.
pub fn write_decimal(n: u64) -> (r: Vec<char>)
    ensures
        r@ == decimal(n as nat),
    decreases n,
{
    if n < 10 {
        let mut r: Vec<char> = Vec::new();
        r.push(digit(n));
        r
    } else {
        let mut r: Vec<char> = write_decimal(n / 10);
        r.push(digit(n % 10));
        r
    }
}

/// Writes a number in base ten with at least `width` digits.
pub fn write_padded(n: u64, width: usize) -> (r: Vec<char>)
    ensures
        r@ == padded(n as nat, width as nat),
{
    let mut d: Vec<char> = write_decimal(n);
    let mut r: Vec<char> = Vec::new();
    if d.len() < width {
        let missing: usize = width - d.len();
        while r.len() < missing
            invariant
                r.len() <= missing,
                r@ == Seq::new(r.len() as nat, |i: int| '0'),
            decreases missing - r.len(),
        {
            r.push('0');
        }
    }
    r.append(&mut d);
    r
}

/// Writes a signed number in base ten.
pub fn write_signed(n: i64) -> (r: Vec<char>)
    ensures
        r@ == signed_decimal(n as int),
{
    if n < 0 {
        let mut r: Vec<char> = Vec::new();
        r.push('-');
        let magnitude: u64 = if n == i64::MIN {
            9223372036854775808
        } else {
            (-n) as u64
        };
        let mut d: Vec<char> = write_decimal(magnitude);
        r.append(&mut d);
        r
    } else {
        write_decimal(n as u64)
    }
}

/// What [`decimal`] writes is at least one digit and nothing but digits.
pub proof fn lemma_decimal_digits(n: nat)
    ensures
        decimal(n).len() > 0,
        all_digits(decimal(n)),
    decreases n,
{
    if n >= 10 {
        lemma_decimal_digits(n / 10);
    }
}

/// A number written in base ten reads back as the same number.
pub proof fn law_decimal_reads_back(n: nat)
    ensures
        digits_value(decimal(n)) == n,
    decreases n,
{
    if n < 10 {
        reveal_with_fuel(digits_value, 2);
        assert(digit_value(digit_char(n)) == n);
    } else {
        assert(digit_value(digit_char(n % 10)) == n % 10);
        law_decimal_reads_back(n / 10);
        assert(decimal(n).drop_last() =~= decimal(n / 10));
    }
}

proof fn lemma_leading_zeros(k: nat, s: Seq<char>)
    ensures
        digits_value(Seq::new(k, |i: int| '0') + s) == digits_value(s),
    decreases s.len(), k,
{
    let z = Seq::new(k, |i: int| '0');
    if s.len() > 0 {
        assert((z + s).drop_last() =~= z + s.drop_last());
        lemma_leading_zeros(k, s.drop_last());
    } else if k > 0 {
        assert((z + s).drop_last() =~= Seq::new((k - 1) as nat, |i: int| '0') + s);
        lemma_leading_zeros((k - 1) as nat, s);
    }
}

/// A number that fits 32 bits, written with or without leading zeros, reads back as itself.
pub proof fn law_padded_reads_back(n: u32, width: nat)
    ensures
        all_digits(padded(n as nat, width)),
        padded(n as nat, width).len() > 0,
        number_of(padded(n as nat, width)) == Some(n),
{
    let d = decimal(n as nat);
    let p = padded(n as nat, width);
    lemma_decimal_digits(n as nat);
    law_decimal_reads_back(n as nat);
    if d.len() < width {
        lemma_leading_zeros((width - d.len()) as nat, d);
    }
    assert(is_digit(p[0]));
    assert(unsigned_digits(p) == p);
}

/// A number is filled up to the width; one below a hundred takes no more than two digits.
pub proof fn lemma_padded_len(n: nat, width: nat)
    ensures
        padded(n, width).len() >= width,
        n < 100 && width == 2 ==> padded(n, width).len() == 2,
{
    reveal_with_fuel(decimal, 3);
}

// ---------- Laws ----------

/// Digits count by their place: those on the left are worth ten times as much for each
/// digit behind them.
pub proof fn law_digits_count_by_place(a: Seq<char>, b: Seq<char>)
    ensures
        digits_value(a + b) == digits_value(a) * pow(10, b.len()) + digits_value(b),
    decreases b.len(),
{
    if b.len() == 0 {
        assert(a + b =~= a);
        reveal(pow);
    } else {
        let c = b.drop_last();
        law_digits_count_by_place(a, c);
        assert((a + b).drop_last() =~= a + c);
        let v = digits_value(a) as int;
        let p = pow(10, c.len());
        assert(pow(10, b.len()) == 10 * p) by {
            reveal(pow);
        }
        assert(10 * (v * p) == v * (10 * p)) by (nonlinear_arith);
    }
}

/// One digit is worth its distance from zero.
pub proof fn law_digit_counts_from_zero(c: char)
    requires
        '0' <= c <= '9',
    ensures
        digits_value(seq![c]) == c as int - '0' as int,
{
    reveal_with_fuel(digits_value, 2);
}

/// A number in base ten is written with digits alone, and begins with a zero only where it is
/// zero.
pub proof fn law_decimal_is_plain(n: nat)
    ensures
        decimal(n).len() > 0,
        forall|i: int| 0 <= i < decimal(n).len() ==> '0' <= #[trigger] decimal(n)[i] <= '9',
        n > 0 ==> decimal(n)[0] != '0',
        n == 0 ==> decimal(n) == seq!['0'],
    decreases n,
{
    lemma_decimal_digits(n);
    assert forall|i: int| 0 <= i < decimal(n).len() implies '0' <= #[trigger] decimal(n)[i]
        <= '9' by {
        assert(is_digit(decimal(n)[i]));
    }
    if n >= 10 {
        law_decimal_is_plain(n / 10);
        assert(decimal(n)[0] == decimal(n / 10)[0]);
    }
}

/// A number that is filled up has the wanted number of digits, all of them digits, and is
/// worth the same; a longer one begins with no zero.
pub proof fn law_padded_is_filled_up(n: nat, width: nat)
    ensures
        padded(n, width).len() >= width,
        forall|i: int|
            0 <= i < padded(n, width).len() ==> '0' <= #[trigger] padded(n, width)[i] <= '9',
        digits_value(padded(n, width)) == n,
        padded(n, width).len() > width && n > 0 ==> padded(n, width)[0] != '0',
{
    let d = decimal(n);
    let p = padded(n, width);
    law_decimal_is_plain(n);
    law_decimal_reads_back(n);
    if d.len() < width {
        let k = (width - d.len()) as nat;
        lemma_leading_zeros(k, d);
        assert forall|i: int| 0 <= i < p.len() implies '0' <= #[trigger] p[i] <= '9' by {
            if i >= k {
                assert(p[i] == d[i - k]);
            }
        }
    }
}

/// Digits are read as what they are worth, with a `+` before them or without it, as long as
/// that fits.
pub proof fn law_numbers_are_read(d: Seq<char>)
    requires
        d.len() > 0,
        forall|i: int| 0 <= i < d.len() ==> '0' <= #[trigger] d[i] <= '9',
    ensures
        number_of(d) == (if digits_value(d) <= 4294967295 {
            Some(digits_value(d) as u32)
        } else {
            None
        }),
        number_of(seq!['+'] + d) == number_of(d),
{
    assert(d[0] != '+');
    assert(all_digits(d)) by {
        assert forall|i: int| 0 <= i < d.len() implies is_digit(#[trigger] d[i]) by {}
    }
    assert((seq!['+'] + d).skip(1) =~= d);
}

/// A text that is read as a number holds digits alone, behind an optional `+`.
pub proof fn law_nothing_else_is_a_number(s: Seq<char>)
    requires
        number_of(s) is Some,
    ensures
        s.len() > 0,
        '0' <= s.last() <= '9',
        forall|i: int| 0 < i < s.len() ==> '0' <= #[trigger] s[i] <= '9',
        s[0] == '+' || '0' <= s[0] <= '9',
{
    let d = unsigned_digits(s);
    if s[0] == '+' {
        assert(is_digit(d[d.len() - 1]));
        assert forall|i: int| 0 < i < s.len() implies '0' <= #[trigger] s[i] <= '9' by {
            assert(is_digit(d[i - 1]));
        }
    } else {
        assert forall|i: int| 0 <= i < s.len() implies '0' <= #[trigger] s[i] <= '9' by {
            assert(is_digit(d[i]));
        }
    }
}

/// The negative of a number is written with a minus before it, and nothing else of it.
pub proof fn law_signs_stand_before(n: nat)
    ensures
        signed_decimal(n as int) == decimal(n),
        n > 0 ==> signed_decimal(-n) == seq!['-'] + decimal(n),
{
}

} // verus!
