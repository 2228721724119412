//! Decimal numbers as text.

use vstd::prelude::*;
use vstd::string::*;
use vstd::utf8::*;

use crate::utf8::chars_of;

verus! {

/// The decimal digit of a number below ten.
pub open spec fn digit(d: nat) -> char {
    ('0' as u32 + d) as char
}

/// A number in decimal digits, without leading zeros.
pub open spec fn decimal(n: nat) -> Seq<char>
    decreases n,
{
    if n < 10 {
        seq![digit(n)]
    } else {
        decimal(n / 10).push(digit(n % 10))
    }
}

/// A signed number: a minus sign where it is negative, then its digits.
pub open spec fn signed_decimal(n: int) -> Seq<char> {
    if n < 0 {
        seq!['-'] + decimal((-n) as nat)
    } else {
        decimal(n as nat)
    }
}

/// A number with leading zeros up to a width.
pub open spec fn zero_padded(n: nat, width: nat) -> Seq<char> {
    if decimal(n).len() < width {
        Seq::new((width - decimal(n).len()) as nat, |i: int| '0') + decimal(n)
    } else {
        decimal(n)
    }
}

pub open spec fn is_digit(c: char) -> bool {
    '0' <= c <= '9'
}

pub open spec fn digit_value(c: char) -> nat {
    (c as u32 - '0' as u32) as nat
}

/// The number that a run of decimal digits writes; nothing where there is no digit, or a
/// character that is none.
pub open spec fn digits_value(s: Seq<char>) -> Option<nat>
    decreases s.len(),
{
    if s.len() == 0 || !is_digit(s.last()) {
        None
    } else if s.len() == 1 {
        Some(digit_value(s[0]))
    } else {
        match digits_value(s.drop_last()) {
            Some(v) => Some(v * 10 + digit_value(s.last())),
            None => None,
        }
    }
}

/// The number that an unsigned decimal text writes: digits, after at most one plus sign.
pub open spec fn unsigned_value(s: Seq<char>) -> Option<nat> {
    if s.len() > 0 && s[0] == '+' {
        digits_value(s.drop_first())
    } else {
        digits_value(s)
    }
}

/// The number that a signed decimal text writes: digits, after at most one sign.
pub open spec fn signed_value(s: Seq<char>) -> Option<int> {
    if s.len() > 0 && s[0] == '-' {
        match digits_value(s.drop_first()) {
            Some(v) => Some(-(v as int)),
            None => None,
        }
    } else {
        match unsigned_value(s) {
            Some(v) => Some(v as int),
            None => None,
        }
    }
}

/// Every digit text keeps the digits before it within bounds.
proof fn lemma_digits_prefix(s: Seq<char>, k: int)
    requires
        0 < k <= s.len(),
    ensures
        digits_value(s) is Some ==> digits_value(s.take(k)) is Some && digits_value(
            s.take(k),
        )->Some_0 <= digits_value(s)->Some_0,
    decreases s.len(),
{
    if k == s.len() {
        assert(s.take(k) =~= s);
    } else {
        lemma_digits_prefix(s.drop_last(), k);
        assert(s.drop_last().take(k) =~= s.take(k));
    }
}

/// What a decimal text is read back as is the number it was written from.
pub proof fn lemma_decimal_value(n: nat)
    ensures
        decimal(n).len() > 0,
        digits_value(decimal(n)) == Some(n),
        forall|i: int| 0 <= i < decimal(n).len() ==> is_digit(#[trigger] decimal(n)[i]),
    decreases n,
{
    if n >= 10 {
        lemma_decimal_value(n / 10);
        let s = decimal(n);
        assert(s.drop_last() =~= decimal(n / 10));
    }
}

/// The next number has at most one digit more.
pub proof fn lemma_decimal_grows(n: nat)
    ensures
        decimal(n).len() <= decimal(n + 1).len() <= decimal(n).len() + 1,
        is_ascii_chars(decimal(n)),
    decreases n,
{
    reveal_with_fuel(decimal, 2);
    if n >= 10 {
        lemma_decimal_grows(n / 10);
        assert((n + 1) / 10 == n / 10 || (n + 1) / 10 == n / 10 + 1);
    }
}

/// Two numbers with the same digits are the same number.
pub proof fn law_decimal_is_injective(a: nat, b: nat)
    requires
        decimal(a) == decimal(b),
    ensures
        a == b,
{
    lemma_decimal_value(a);
    lemma_decimal_value(b);
}

/// The digits of a number.
pub fn decimal_text(n: u64) -> (s: String)
    ensures
        s@ == decimal(n as nat),
    decreases n,
{
    if n < 10 {
        let mut s = String::new();
        s.push(digit_char(n as u8));
        assert(s@ =~= decimal(n as nat));
        s
    } else {
        let mut s = decimal_text(n / 10);
        s.push(digit_char((n % 10) as u8));
        s
    }
}

fn digit_char(d: u8) -> (c: char)
    requires
        d < 10,
    ensures
        c == digit(d as nat),
{
    (48u8 + d) as char
}

/// The digits of a size.
pub fn size_text(n: usize) -> (s: String)
    ensures
        s@ == decimal(n as nat),
{
    decimal_text(n as u64)
}

/// A signed number as text.
pub fn signed_text(n: i64) -> (s: String)
    ensures
        s@ == signed_decimal(n as int),
{
    if n < 0 {
        let mut s = String::new();
        s.push('-');
        let d = decimal_text((-(n as i128)) as u64);
        s.append(d.as_str());
        assert(s@ =~= signed_decimal(n as int));
        s
    } else {
        decimal_text(n as u64)
    }
}

/// Reads the digits `v[from..]`, where they write a number of at most `limit`.
fn read_digits(v: &[char], from: usize, limit: u64) -> (r: Option<u64>)
    requires
        from <= v@.len(),
    ensures
        match r {
            Some(n) => digits_value(v@.skip(from as int)) == Some(n as nat) && n <= limit,
            None => digits_value(v@.skip(from as int)) is None || digits_value(
                v@.skip(from as int),
            )->Some_0 > limit,
        },
{
    let ghost s = v@.skip(from as int);
    let len: usize = v.len();
    if from == len {
        return None;
    }
    let mut acc: u128 = 0;
    let mut i: usize = from;
    while i < len
        invariant
            from <= i <= len,
            from < len,
            len == v@.len(),
            s == v@.skip(from as int),
            acc <= limit,
            i == from ==> acc == 0,
            i > from ==> digits_value(s.take(i - from)) == Some(acc as nat),
        decreases len - i,
    {
        let c = v[i];
        let ghost head = s.take(i - from + 1);
        assert(head.last() == c);
        assert(head.drop_last() =~= s.take(i - from));
        if !('0' <= c && c <= '9') {
            proof {
                lemma_digits_prefix(s, i - from + 1);
            }
            return None;
        }
        assert(i == from ==> head.len() == 1 && head[0] == c);
        acc = acc * 10 + (c as u32 - '0' as u32) as u128;
        if acc > limit as u128 {
            proof {
                lemma_digits_prefix(s, i - from + 1);
            }
            return None;
        }
        i = i + 1;
    }
    assert(s.take(len - from) =~= s);
    Some(acc as u64)
}

/// Reads an unsigned number of at most `limit`.
fn read_unsigned(v: &[char], limit: u64) -> (r: Option<u64>)
    ensures
        match r {
            Some(n) => unsigned_value(v@) == Some(n as nat) && n <= limit,
            None => unsigned_value(v@) is None || unsigned_value(v@)->Some_0 > limit,
        },
{
    assert(v@.skip(0) =~= v@);
    if v.len() > 0 && v[0] == '+' {
        assert(v@.skip(1) =~= v@.drop_first());
        read_digits(v, 1, limit)
    } else {
        read_digits(v, 0, limit)
    }
}

/// Reads a size, as `str::parse::<usize>` does.
pub fn parse_size(s: &str) -> (r: Option<usize>)
    ensures
        match r {
            Some(n) => unsigned_value(s@) == Some(n as nat),
            None => unsigned_value(s@) is None || unsigned_value(s@)->Some_0 > usize::MAX,
        },
{
    let v = chars_of(s);
    match read_unsigned(v.as_slice(), usize::MAX as u64) {
        Some(n) => Some(n as usize),
        None => None,
    }
}

/// Reads a signed number, as `str::parse::<i64>` does.
pub fn parse_signed(s: &str) -> (r: Option<i64>)
    ensures
        match r {
            Some(n) => signed_value(s@) == Some(n as int),
            None => signed_value(s@) is None || !(i64::MIN <= signed_value(s@)->Some_0
                <= i64::MAX),
        },
{
    let v = chars_of(s);
    if v.len() > 0 && v[0] == '-' {
        assert(v@.skip(1) =~= v@.drop_first());
        match read_digits(v.as_slice(), 1, 9223372036854775808) {
            Some(n) => Some((-(n as i128)) as i64),
            None => None,
        }
    } else {
        match read_unsigned(v.as_slice(), i64::MAX as u64) {
            Some(n) => Some(n as i64),
            None => None,
        }
    }
}

/// A number is written digit by digit, the most significant first and without leading zeros,
/// and reading the digits gives it back. A negative one has a minus sign in front.
pub proof fn law_numbers_are_written_digit_by_digit(n: nat, d: nat)
    requires
        d < 10,
    ensures
        decimal(d).len() == 1,
        decimal(d)[0] as int == 48 + d,
        n > 0 ==> decimal(10 * n + d) == decimal(n) + decimal(d),
        unsigned_value(decimal(n)) == Some(n),
        signed_decimal(n as int) == decimal(n),
        n > 0 ==> signed_decimal(-(n as int)) == seq!['-'] + decimal(n),
        signed_value(signed_decimal(n as int)) == Some(n as int),
        n > 0 ==> signed_value(signed_decimal(-(n as int))) == Some(-(n as int)),
{
    lemma_decimal_value(n);
    if n > 0 {
        let m = 10 * n + d;
        assert(m / 10 == n && m % 10 == d);
        assert(decimal(m) =~= decimal(n) + decimal(d));
        let s = signed_decimal(-(n as int));
        assert(s.drop_first() =~= decimal(n));
    }
    assert(is_digit(decimal(n)[0]));
}

/// A run of digits is read digit by digit, after one plus sign at most, and anything else is no
/// number.
pub proof fn law_numbers_are_read_digit_by_digit(s: Seq<char>, c: char)
    ensures
        digits_value(Seq::empty()) is None,
        !('0' <= c <= '9') ==> digits_value(s.push(c)) is None,
        '0' <= c <= '9' ==> digits_value(seq![c]) == Some((c as int - 48) as nat),
        '0' <= c <= '9' && s.len() > 0 && digits_value(s) is Some ==> digits_value(s.push(c))
            == Some((digits_value(s)->Some_0 * 10 + (c as int - 48)) as nat),
        s.len() > 0 && digits_value(s) is None ==> digits_value(s.push(c)) is None,
        unsigned_value(seq!['+'] + s) == digits_value(s),
        s.len() == 0 || s[0] != '+' ==> unsigned_value(s) == digits_value(s),
        s.len() == 0 || s[0] != '-' ==> signed_value(s) == match unsigned_value(s) {
            Some(v) => Some(v as int),
            None => None,
        },
        signed_value(seq!['-'] + s) == match digits_value(s) {
            Some(v) => Some(-(v as int)),
            None => None,
        },
{
    assert(s.push(c).drop_last() =~= s);
    assert((seq!['+'] + s).drop_first() =~= s);
    assert((seq!['-'] + s).drop_first() =~= s);
}

/// A number with leading zeros is as wide as asked for, or as its digits where they are more,
/// and the zeros come first.
pub proof fn law_padding_is_zeros_in_front(n: nat, width: nat)
    ensures
        ({
            let s = zero_padded(n, width);
            let digits = decimal(n);
            &&& s.len() == if digits.len() < width {
                width
            } else {
                digits.len()
            }
            &&& s.skip(s.len() - digits.len()) == digits
            &&& forall|i: int| 0 <= i < s.len() - digits.len() ==> #[trigger] s[i] == '0'
        }),
{
    let s = zero_padded(n, width);
    assert(s.skip(s.len() - decimal(n).len()) =~= decimal(n));
}

} // verus!
