//! Decimal and hexadecimal numerals.

use vstd::prelude::*;
use vstd::string::*;

use crate::text::chars_of;

verus! {

/// The decimal digit of `d`.
pub open spec fn digit(d: nat) -> char {
    (d + 48) as char
}

/// The decimal numeral of `n`, without leading zeros.
pub open spec fn decimal(n: nat) -> Seq<char>
    decreases n,
{
    if n < 10 {
        seq![digit(n)]
    } else {
        decimal(n / 10).push(digit(n % 10))
    }
}

pub open spec fn zeros(count: nat) -> Seq<char> {
    Seq::new(count, |i: int| '0')
}

/// The decimal numeral of `n`, with its sign in front and zeros after the
/// sign as far as they are needed for `width` characters.
pub open spec fn padded(n: int, width: int) -> Seq<char> {
    let sign = if n < 0 {
        seq!['-']
    } else {
        Seq::empty()
    };
    let digits = decimal(if n < 0 {
        -n
    } else {
        n
    } as nat);
    let missing = width - sign.len() - digits.len();
    sign + zeros(if missing > 0 {
        missing
    } else {
        0
    } as nat) + digits
}

/// The digit of `d`.
fn digit_char(d: u128) -> (r: char)
    requires
        d < 10,
    ensures
        r == digit(d as nat),
{
    let code: u8 = 48 + d as u8;
    code as char
}

/// The decimal numeral of `n`.
pub fn decimal_text(n: u128) -> (r: String)
    ensures
        r@ == decimal(n as nat),
    decreases n,
{
    let mut out = if n < 10 {
        String::new()
    } else {
        decimal_text(n / 10)
    };
    out.push(digit_char(n % 10));
    assert(n < 10 ==> out@ =~= seq![digit(n as nat)]);
    out
}

/// The decimal numeral of `n`, padded with zeros to `width` characters.
pub fn padded_text(n: i128, width: usize) -> (r: String)
    ensures
        r@ == padded(n as int, width as int),
{
    let mut out = String::new();
    let magnitude: u128 = if n < 0 {
        (-(n + 1)) as u128 + 1
    } else {
        n as u128
    };
    let digits = decimal_text(magnitude);
    let used: usize = digits.unicode_len();
    let mut room: usize = if width > used {
        width - used
    } else {
        0
    };
    if n < 0 {
        out.push('-');
        if room > 0 {
            room -= 1;
        }
    }
    let ghost sign = out@;
    let mut i: usize = 0;
    assert(out@ =~= sign + zeros(0));
    while i < room
        invariant
            i <= room,
            out@ == sign + zeros(i as nat),
        decreases room - i,
    {
        out.push('0');
        i += 1;
        assert(out@ =~= sign + zeros(i as nat));
    }
    out.append(&digits);
    assert(sign =~= if n < 0 {
        seq!['-']
    } else {
        Seq::<char>::empty()
    });
    out
}

/// A padded numeral has at least the wanted width.
pub proof fn lemma_padded_length(n: int, width: int)
    ensures
        padded(n, width).len() >= width,
{
}

/// A numeral of two digits.
pub proof fn lemma_two_digits(n: int)
    requires
        0 <= n < 100,
    ensures
        padded(n, 2) == seq![digit((n / 10) as nat), digit((n % 10) as nat)],
{
    reveal_with_fuel(decimal, 3);
    assert(digit(0) == '0');
    assert(padded(n, 2) =~= seq![digit((n / 10) as nat), digit((n % 10) as nat)]);
}

/// A numeral of four digits.
pub proof fn lemma_four_digits(n: int)
    requires
        0 <= n < 10_000,
    ensures
        padded(n, 4) == seq![
            digit((n / 1000) as nat),
            digit((n / 100 % 10) as nat),
            digit((n / 10 % 10) as nat),
            digit((n % 10) as nat),
        ],
{
    reveal_with_fuel(decimal, 5);
    assert(digit(0) == '0');
    let digits = seq![
        digit((n / 1000) as nat),
        digit((n / 100 % 10) as nat),
        digit((n / 10 % 10) as nat),
        digit((n % 10) as nat),
    ];
    assert(n / 10 / 10 == n / 100 && n / 100 / 10 == n / 1000);
    if n < 10 {
        assert(padded(n, 4) =~= digits);
    } else if n < 100 {
        assert(padded(n, 4) =~= digits);
    } else if n < 1000 {
        assert(padded(n, 4) =~= digits);
    } else {
        assert(padded(n, 4) =~= digits);
    }
}

/// Different digits are written differently, and none as anything else.
pub proof fn lemma_digit(a: nat, b: nat)
    requires
        a < 10,
        b < 10,
    ensures
        digit(a) == digit(b) ==> a == b,
        48 <= digit(a) as int <= 57,
{
    assert(digit(a) as int == a + 48);
    assert(digit(b) as int == b + 48);
}

// ---------------------------------------------------------------------------
// Reading numerals
// ---------------------------------------------------------------------------

pub open spec fn is_digit(c: char) -> bool {
    48 <= c as int <= 57
}

pub open spec fn all_digits(s: Seq<char>) -> bool {
    forall|i: int| 0 <= i < s.len() ==> is_digit(#[trigger] s[i])
}

/// The number that a row of digits stands for.
pub open spec fn digits_value(s: Seq<char>) -> nat
    decreases s.len(),
{
    if s.len() == 0 {
        0
    } else {
        (10 * digits_value(s.drop_last()) + (s.last() as int - 48)) as nat
    }
}

/// The number written as `s`: digits behind an optional plus sign, not
/// greater than `max`.
pub open spec fn parsed(s: Seq<char>, max: u64) -> Option<u64> {
    let digits = if s.len() > 0 && s[0] == '+' {
        s.drop_first()
    } else {
        s
    };
    if digits.len() > 0 && all_digits(digits) && digits_value(digits) <= max {
        Some(digits_value(digits) as u64)
    } else {
        None
    }
}

/// The number written as `s`, if 32 bits are enough for it.
pub open spec fn parsed_u32(s: Seq<char>) -> Option<u32> {
    match parsed(s, u32::MAX as u64) {
        Some(n) => Some(n as u32),
        None => None,
    }
}

proof fn lemma_value_monotone(s: Seq<char>, i: int)
    requires
        0 <= i <= s.len(),
        all_digits(s),
    ensures
        digits_value(s.take(i)) <= digits_value(s),
    decreases s.len() - i,
{
    if i == s.len() {
        assert(s.take(i) =~= s);
    } else {
        lemma_value_monotone(s, i + 1);
        assert(s.take(i + 1).drop_last() =~= s.take(i));
        assert(is_digit(s[i]));
    }
}

/// What the character stands for, if it is a digit.
fn digit_of(c: char) -> (r: Option<u64>)
    ensures
        r == if is_digit(c) {
            Some((c as int - 48) as u64)
        } else {
            None
        },
{
    let code: u32 = c as u32;
    if code < 48 || code > 57 {
        None
    } else {
        Some((code - 48) as u64)
    }
}

/// Reads a number below 2^32.
pub fn parse_u32(s: &str) -> (r: Option<u32>)
    ensures
        r == parsed_u32(s@),
{
    match parse_up_to(s, u32::MAX as u64) {
        Some(n) => Some(n as u32),
        None => None,
    }
}

/// Reads a number that is not greater than `max`.
pub fn parse_up_to(s: &str, max: u64) -> (r: Option<u64>)
    ensures
        r == parsed(s@, max),
{
    let chars = chars_of(s);
    let start: usize = if chars.len() > 0 && chars[0] == '+' {
        1
    } else {
        0
    };
    let ghost digits = s@.skip(start as int);
    assert(start == 0 ==> digits =~= s@);
    assert(start == 1 ==> digits =~= s@.drop_first());
    if start == chars.len() {
        return None;
    }
    let mut value: u128 = 0;
    let mut i: usize = start;
    while i < chars.len()
        invariant
            chars@ == s@,
            start <= i <= chars.len(),
            digits == s@.skip(start as int),
            digits.len() > 0,
            parsed(s@, max) == if digits.len() > 0 && all_digits(digits) && digits_value(digits)
                <= max {
                Some(digits_value(digits) as u64)
            } else {
                None
            },
            all_digits(digits.take(i - start)),
            value == digits_value(digits.take(i - start)),
            value <= max,
        decreases chars.len() - i,
    {
        let next = digit_of(chars[i]);
        assert(digits[i - start] == chars@[i as int]);
        let Some(d) = next else {
            assert(!is_digit(digits[i - start]));
            return None;
        };
        assert(digits.take(i + 1 - start).drop_last() =~= digits.take(i - start));
        value = value * 10 + d as u128;
        if value > max as u128 {
            proof {
                if all_digits(digits) {
                    lemma_value_monotone(digits, i + 1 - start);
                }
            }
            return None;
        }
        assert(all_digits(digits.take(i + 1 - start))) by {
            assert forall|j: int| 0 <= j < digits.take(i + 1 - start).len() implies is_digit(
                #[trigger] digits.take(i + 1 - start)[j],
            ) by {
                if j < i - start {
                    assert(is_digit(digits.take(i - start)[j]));
                } else {
                    assert(digits.take(i + 1 - start)[j] == chars@[i as int]);
                    assert(is_digit(chars@[i as int]));
                }
            }
        }
        i += 1;
    }
    assert(digits.take(i - start) =~= digits);
    Some(value as u64)
}

/// The numeral of a number is made of digits, and their value is the number.
pub proof fn lemma_decimal_digits(n: nat)
    ensures
        decimal(n).len() > 0,
        all_digits(decimal(n)),
        digits_value(decimal(n)) == n,
    decreases n,
{
    if n < 10 {
        assert(decimal(n).drop_last() =~= Seq::<char>::empty());
        assert(digits_value(Seq::<char>::empty()) == 0);
        assert(decimal(n).last() == digit(n));
    } else {
        lemma_decimal_digits(n / 10);
        let head = decimal(n / 10);
        assert(decimal(n).drop_last() =~= head);
        assert forall|i: int| 0 <= i < decimal(n).len() implies is_digit(
            #[trigger] decimal(n)[i],
        ) by {
            if i < head.len() {
                assert(is_digit(head[i]));
            }
        }
    }
}

/// Reading a numeral gives back the number that was written.
pub proof fn lemma_numeral_round_trip(n: u32)
    ensures
        parsed_u32(decimal(n as nat)) == Some(n),
{
    lemma_decimal_digits(n as nat);
    assert(is_digit(decimal(n as nat)[0]));
}

} // verus!
