//! Numbers as text: decimal and hexadecimal digits, and the reading of unsigned numbers.

use vstd::arithmetic::power::pow;
use vstd::prelude::*;

use crate::text::chars_of;

verus! {

/// The decimal digit for `d`.
pub open spec fn digit(d: int) -> char {
    (48 + d) as char
}

/// The upper-case hexadecimal digit for `d`.
pub open spec fn hex_digit(d: int) -> char {
    if d < 10 {
        (48 + d) as char
    } else {
        (55 + d) as char
    }
}

/// `n` in decimal, without leading zeros.
pub open spec fn decimal(n: nat) -> Seq<char>
    decreases n,
{
    if n < 10 {
        seq![digit(n as int)]
    } else {
        decimal(n / 10).push(digit((n % 10) as int))
    }
}

/// `n` in upper-case hexadecimal, padded with zeros to `width` digits.
pub open spec fn hex_padded(n: nat, width: nat) -> Seq<char>
    decreases width,
{
    if width == 0 {
        seq![]
    } else {
        hex_padded(n / 16, (width - 1) as nat).push(hex_digit((n % 16) as int))
    }
}

/// Appends `n` in decimal to `out`.
pub fn push_decimal(out: &mut String, n: u128)
    ensures
        final(out)@ == old(out)@ + decimal(n as nat),
    decreases n,
{
    let ghost start = out@;
    if n >= 10 {
        push_decimal(out, n / 10);
    }
    let last: u8 = (n % 10) as u8;
    out.push((48u8 + last) as char);
    assert(out@ == start + decimal(n as nat));
}

/// `n` in decimal.
pub fn decimal_of(n: u128) -> (r: String)
    ensures
        r@ == decimal(n as nat),
{
    let mut out = String::new();
    push_decimal(&mut out, n);
    assert(out@ == decimal(n as nat));
    out
}

/// Appends `n` in upper-case hexadecimal with `width` digits to `out`.
pub fn push_hex(out: &mut String, n: u32, width: u8)
    ensures
        final(out)@ == old(out)@ + hex_padded(n as nat, width as nat),
    decreases width,
{
    let ghost start = out@;
    if width > 0 {
        push_hex(out, n / 16, width - 1);
        let last: u8 = (n % 16) as u8;
        let code: u8 = if last < 10 {
            48u8 + last
        } else {
            55u8 + last
        };
        out.push(code as char);
    }
    assert(out@ == start + hex_padded(n as nat, width as nat));
}

/// `c` is an ASCII decimal digit.
pub open spec fn is_digit(c: char) -> bool {
    '0' <= c && c <= '9'
}

/// The number that a sequence of decimal digits writes.
pub open spec fn digits_value(s: Seq<char>) -> nat
    decreases s.len(),
{
    if s.len() == 0 {
        0
    } else {
        digits_value(s.drop_last()) * 10 + (s.last() as int - '0' as int) as nat
    }
}

/// `s` without one leading plus sign.
pub open spec fn without_plus(s: Seq<char>) -> Seq<char> {
    if s.len() > 0 && s[0] == '+' {
        s.skip(1)
    } else {
        s
    }
}

/// The number that `s` writes: one or more decimal digits, after at most one plus sign.
pub open spec fn unsigned_value(s: Seq<char>) -> Option<nat> {
    let ds = without_plus(s);
    if ds.len() > 0 && (forall|i: int| 0 <= i < ds.len() ==> is_digit(#[trigger] ds[i])) {
        Some(digits_value(ds))
    } else {
        None
    }
}

/// What a longer run of digits writes is no less than what a prefix of it writes.
proof fn lemma_digits_value_prefix(s: Seq<char>, n: int)
    requires
        0 <= n <= s.len(),
        forall|i: int| 0 <= i < s.len() ==> is_digit(#[trigger] s[i]),
    ensures
        digits_value(s.take(n)) <= digits_value(s),
    decreases s.len(),
{
    if n < s.len() {
        lemma_digits_value_prefix(s.drop_last(), n);
        assert(s.drop_last().take(n) == s.take(n));
    } else {
        assert(s.take(n) == s);
    }
}

/// Reads an unsigned number that fits in 64 bits.
pub fn parse_u64(s: &str) -> (r: Option<u64>)
    ensures
        r == match unsigned_value(s@) {
            Some(n) if n <= u64::MAX => Some(n as u64),
            _ => None::<u64>,
        },
{
    let cs = chars_of(s);
    let start: usize = if cs.len() > 0 && cs[0] == '+' {
        1
    } else {
        0
    };
    let ghost ds = without_plus(s@);
    assert(ds == cs@.skip(start as int));
    if cs.len() == start {
        return None;
    }
    let mut k: usize = start;
    while k < cs.len()
        invariant
            start <= k <= cs@.len(),
            ds == cs@.skip(start as int),
            ds == without_plus(s@),
            start <= 1,
            forall|i: int| 0 <= i < k - start ==> is_digit(#[trigger] ds[i]),
        decreases cs@.len() - k,
    {
        if cs[k] < '0' || cs[k] > '9' {
            assert(!is_digit(ds[k - start]));
            return None;
        }
        k += 1;
    }
    let mut i: usize = start;
    let mut value: u64 = 0;
    while i < cs.len()
        invariant
            start <= i <= cs@.len(),
            ds == cs@.skip(start as int),
            ds == without_plus(s@),
            start <= 1,
            start < cs@.len(),
            forall|i: int| 0 <= i < ds.len() ==> is_digit(#[trigger] ds[i]),
            value == digits_value(ds.take(i - start)),
        decreases cs@.len() - i,
    {
        assert(is_digit(ds[i - start]));
        let d: u64 = (cs[i] as u32 - '0' as u32) as u64;
        proof {
            let next = ds.take(i - start + 1);
            assert(next.drop_last() == ds.take(i - start));
            assert(next.last() == cs@[i as int]);
            lemma_digits_value_prefix(ds, i - start + 1);
            assert(digits_value(next) == value * 10 + d);
        }
        match value.checked_mul(10) {
            Some(v) => match v.checked_add(d) {
                Some(w) => {
                    value = w;
                },
                None => {
                    return None;
                },
            },
            None => {
                return None;
            },
        }
        i += 1;
    }
    assert(ds.take(i - start) == ds);
    Some(value)
}

// ---------------------------------------------------------------------------
// Reading hexadecimal digits
// ---------------------------------------------------------------------------
/// The value of a hexadecimal digit.
pub open spec fn hex_value(c: char) -> Option<nat> {
    if '0' <= c && c <= '9' {
        Some((c as int - '0' as int) as nat)
    } else if 'a' <= c && c <= 'f' {
        Some((c as int - 'a' as int + 10) as nat)
    } else if 'A' <= c && c <= 'F' {
        Some((c as int - 'A' as int + 10) as nat)
    } else {
        None
    }
}

/// The number that hexadecimal digits write.
pub open spec fn hex_number(s: Seq<char>) -> Option<nat>
    decreases s.len(),
{
    if s.len() == 0 {
        Some(0)
    } else {
        match (hex_number(s.drop_last()), hex_value(s.last())) {
            (Some(n), Some(d)) => Some(n * 16 + d),
            _ => None,
        }
    }
}

/// What `hex_padded` writes: `width` digits and upper-case letters.
pub proof fn lemma_hex_digits(n: nat, width: nat)
    ensures
        hex_padded(n, width).len() == width,
        forall|i: int|
            0 <= i < width ==> ('0' <= #[trigger] hex_padded(n, width)[i] && hex_padded(n, width)[i]
                <= '9') || ('A' <= hex_padded(n, width)[i] && hex_padded(n, width)[i] <= 'F'),
    decreases width,
{
    if width > 0 {
        lemma_hex_digits(n / 16, (width - 1) as nat);
    }
}

/// Hexadecimal digits read back as the number that they were written for.
pub proof fn lemma_hex_reads_back(n: nat, width: nat)
    requires
        n < pow(16, width),
    ensures
        hex_padded(n, width).len() == width,
        hex_number(hex_padded(n, width)) == Some(n),
    decreases width,
{
    reveal(pow);
    if width > 0 {
        let w = (width - 1) as nat;
        assert(pow(16, width) == 16 * pow(16, w));
        lemma_hex_reads_back(n / 16, w);
        let ds = hex_padded(n, width);
        assert(ds.drop_last() == hex_padded(n / 16, w));
        assert(hex_value(hex_digit((n % 16) as int)) == Some((n % 16) as nat));
        assert(n / 16 * 16 + n % 16 == n);
    }
}

/// A number in decimal reads back as that number, and has no leading zero.
pub proof fn law_decimal_reads_back(n: nat)
    ensures
        decimal(n).len() > 0,
        forall|i: int| 0 <= i < decimal(n).len() ==> is_digit(#[trigger] decimal(n)[i]),
        digits_value(decimal(n)) == n,
        unsigned_value(decimal(n)) == Some(n),
        n > 0 ==> decimal(n)[0] != '0',
    decreases n,
{
    let ds = decimal(n);
    if n >= 10 {
        law_decimal_reads_back(n / 10);
        assert(ds.drop_last() == decimal(n / 10));
        assert forall|i: int| 0 <= i < ds.len() implies is_digit(#[trigger] ds[i]) by {
            if i < ds.len() - 1 {
                assert(ds[i] == decimal(n / 10)[i]);
            }
        }
        assert(ds[0] == decimal(n / 10)[0]);
        assert(n / 10 * 10 + n % 10 == n);
    } else {
        assert(ds.drop_last() == Seq::<char>::empty());
        assert(digits_value(ds.drop_last()) == 0);
    }
    assert(is_digit(ds[0]));
    assert(without_plus(ds) == ds);
}

/// The number that digits write, digit by digit: each counts ten times as much as the next.
pub proof fn law_digits_count_in_tens(s: Seq<char>, c: char)
    requires
        '0' <= c && c <= '9',
    ensures
        digits_value(s.push(c)) == digits_value(s) * 10 + (c as u32 - 48),
        digits_value(seq![c]) == c as u32 - 48,
        digits_value(Seq::<char>::empty()) == 0,
{
    assert(s.push(c).drop_last() == s);
    assert(seq![c].drop_last() == Seq::<char>::empty());
    assert(digits_value(seq![c].drop_last()) == 0);
}

/// A text writes a number just where it is one or more digits, with or without one plus sign
/// before them.
pub proof fn law_digits_write_a_number(s: Seq<char>)
    ensures
        s.len() > 0 && (forall|i: int| 0 <= i < s.len() ==> '0' <= #[trigger] s[i] && s[i] <= '9')
            ==> unsigned_value(s) == Some(digits_value(s)) && unsigned_value(seq!['+'] + s) == Some(
            digits_value(s),
        ),
        (exists|i: int| 0 < i < s.len() && !('0' <= #[trigger] s[i] && s[i] <= '9'))
            ==> unsigned_value(s) is None,
        s.len() > 0 && s[0] != '+' && !('0' <= s[0] && s[0] <= '9') ==> unsigned_value(s) is None,
        unsigned_value(Seq::<char>::empty()) is None,
        unsigned_value(seq!['+']) is None,
{
    assert((seq!['+'] + s).skip(1) == s);
    assert(seq!['+'].skip(1).len() == 0);
    let ds = without_plus(s);
    if s.len() > 0 && (forall|i: int| 0 <= i < s.len() ==> '0' <= #[trigger] s[i] && s[i] <= '9') {
        assert('0' <= s[0]);
        assert forall|i: int| 0 <= i < s.len() implies is_digit(#[trigger] s[i]) by {}
    }
    if exists|i: int| 0 < i < s.len() && !('0' <= #[trigger] s[i] && s[i] <= '9') {
        let i = choose|i: int| 0 < i < s.len() && !('0' <= #[trigger] s[i] && s[i] <= '9');
        if s[0] == '+' {
            assert(ds[i - 1] == s[i]);
            assert(!is_digit(ds[i - 1]));
        } else {
            assert(!is_digit(ds[i]));
        }
    }
    if s.len() > 0 && s[0] != '+' && !('0' <= s[0] && s[0] <= '9') {
        assert(!is_digit(ds[0]));
    }
}

} // verus!
