//! Integers in decimal notation, as RESP and the commands write and read them.

use vstd::prelude::*;
use vstd::string::*;

verus! {

/// Whether `b` is an ASCII digit.
pub open spec fn is_digit(b: u8) -> bool {
    0x30 <= b <= 0x39
}

/// Whether `s` consists of ASCII digits.
pub open spec fn all_digits(s: Seq<u8>) -> bool {
    forall|i: int| 0 <= i < s.len() ==> is_digit(#[trigger] s[i])
}

/// The number that the digits `s` denote.
pub open spec fn digits_value(s: Seq<u8>) -> nat
    decreases s.len(),
{
    if s.len() == 0 {
        0
    } else {
        (digits_value(s.drop_last()) * 10 + (s.last() - 0x30)) as nat
    }
}

/// `n` in decimal, without leading zeros.
pub open spec fn dec_nat(n: nat) -> Seq<u8>
    decreases n,
{
    if n < 10 {
        seq![(0x30 + n) as u8]
    } else {
        dec_nat(n / 10).push((0x30 + n % 10) as u8)
    }
}

/// `i` in decimal, with a minus sign where it is negative.
pub open spec fn dec_int(i: int) -> Seq<u8> {
    if i < 0 {
        seq![0x2du8] + dec_nat((-i) as nat)
    } else {
        dec_nat(i as nat)
    }
}

/// ASCII bytes as characters.
pub open spec fn ascii_chars(s: Seq<u8>) -> Seq<char> {
    s.map_values(|b: u8| b as char)
}

/// `s` without a leading plus sign, or without a leading minus sign where
/// `signed` admits one.
pub open spec fn unsigned_part(s: Seq<u8>, signed: bool) -> Seq<u8> {
    if s.len() > 0 && (s[0] == 0x2b || (signed && s[0] == 0x2d)) {
        s.skip(1)
    } else {
        s
    }
}

/// The integer that `s` denotes: an optional sign (a minus only where `signed`
/// admits it), then at least one digit and nothing else.
pub open spec fn denoted(s: Seq<u8>, signed: bool) -> Option<int> {
    let digits = unsigned_part(s, signed);
    if digits.len() == 0 || !all_digits(digits) {
        None
    } else if signed && s[0] == 0x2d {
        Some(-(digits_value(digits) as int))
    } else {
        Some(digits_value(digits) as int)
    }
}

/// The value of `s` as an `i64`, if it denotes one that fits.
pub open spec fn i64_value(s: Seq<u8>) -> Option<i64> {
    match denoted(s, true) {
        Some(i) if i64::MIN <= i <= i64::MAX => Some(i as i64),
        _ => None,
    }
}

/// The value of `s` as a `u16`, if it denotes one that fits.
pub open spec fn u16_value(s: Seq<u8>) -> Option<u16> {
    match denoted(s, false) {
        Some(i) if i <= u16::MAX => Some(i as u16),
        _ => None,
    }
}

/// The value of `s` as a `u64`, if it denotes one that fits.
pub open spec fn u64_value(s: Seq<u8>) -> Option<u64> {
    match denoted(s, false) {
        Some(i) if i <= u64::MAX => Some(i as u64),
        _ => None,
    }
}

/// Decimal notation is made of digits, at least one, and denotes its number.
pub proof fn lemma_dec_nat(n: nat)
    ensures
        all_digits(dec_nat(n)),
        dec_nat(n).len() > 0,
        digits_value(dec_nat(n)) == n,
    decreases n,
{
    if n < 10 {
        let s = seq![(0x30 + n) as u8];
        assert(s.drop_last() =~= Seq::<u8>::empty());
        assert(digits_value(s.drop_last()) == 0);
    } else {
        lemma_dec_nat(n / 10);
        let s = dec_nat(n);
        assert(s.drop_last() =~= dec_nat(n / 10));
    }
}

/// Reading the decimal notation of an `i64` gives it back.
pub proof fn lemma_dec_int_read(i: i64)
    ensures
        i64_value(dec_int(i as int)) == Some(i),
{
    let s = dec_int(i as int);
    if i < 0 {
        lemma_dec_nat((-i) as nat);
        assert(s.skip(1) =~= dec_nat((-i) as nat));
    } else {
        lemma_dec_nat(i as nat);
        assert(is_digit(s[0]));
    }
}

/// Reading the decimal notation of a natural number gives it back.
pub proof fn lemma_dec_nat_read(n: nat)
    ensures
        denoted(dec_nat(n), false) == Some(n as int),
{
    lemma_dec_nat(n);
    assert(is_digit(dec_nat(n)[0]));
}

/// No byte of a decimal notation is a carriage return.
pub proof fn lemma_dec_int_no_cr(i: int)
    ensures
        dec_int(i).len() > 0,
        forall|k: int| 0 <= k < dec_int(i).len() ==> #[trigger] dec_int(i)[k] != 0x0d,
{
    let n = if i < 0 {
        (-i) as nat
    } else {
        i as nat
    };
    lemma_dec_nat(n);
    assert forall|k: int| 0 <= k < dec_int(i).len() implies #[trigger] dec_int(i)[k] != 0x0d by {
        if i < 0 {
            if k > 0 {
                assert(is_digit(dec_nat(n)[k - 1]));
            }
        } else {
            assert(is_digit(dec_nat(n)[k]));
        }
    }
}

proof fn lemma_digits_value_grows(s: Seq<u8>, k: int)
    requires
        0 <= k <= s.len(),
        all_digits(s),
    ensures
        digits_value(s.take(k)) <= digits_value(s),
    decreases s.len(),
{
    if k == s.len() {
        assert(s.take(k) =~= s);
    } else {
        assert(is_digit(s.last()));
        assert(s.drop_last().take(k) =~= s.take(k));
        lemma_digits_value_grows(s.drop_last(), k);
    }
}

/// Appends `n` in decimal.
pub fn push_nat(out: &mut Vec<u8>, n: u64)
    ensures
        final(out)@ == old(out)@ + dec_nat(n as nat),
    decreases n,
{
    if n >= 10 {
        push_nat(out, n / 10);
    }
    out.push(0x30 + (n % 10) as u8);
}

/// Appends `i` in decimal.
pub fn push_int(out: &mut Vec<u8>, i: i64)
    ensures
        final(out)@ == old(out)@ + dec_int(i as int),
{
    if i < 0 {
        out.push(0x2d);
        push_nat(out, (-(i as i128)) as u64);
    } else {
        push_nat(out, i as u64);
    }
}

/// The character of the digit `d`.
fn digit_str(d: u64) -> (s: &'static str)
    requires
        d < 10,
    ensures
        s@ == seq![(0x30 + d) as u8 as char],
{
    proof {
        reveal_strlit("0");
        reveal_strlit("1");
        reveal_strlit("2");
        reveal_strlit("3");
        reveal_strlit("4");
        reveal_strlit("5");
        reveal_strlit("6");
        reveal_strlit("7");
        reveal_strlit("8");
        reveal_strlit("9");
    }
    match d {
        0 => "0",
        1 => "1",
        2 => "2",
        3 => "3",
        4 => "4",
        5 => "5",
        6 => "6",
        7 => "7",
        8 => "8",
        _ => "9",
    }
}

/// Appends `n` in decimal to a string.
pub fn append_nat(out: &mut String, n: u64)
    ensures
        final(out)@ == old(out)@ + ascii_chars(dec_nat(n as nat)),
    decreases n,
{
    if n >= 10 {
        append_nat(out, n / 10);
    }
    out.append(digit_str(n % 10));
    proof {
        let s = dec_nat(n as nat);
        if n >= 10 {
            let t = dec_nat((n / 10) as nat);
            assert(ascii_chars(s) =~= ascii_chars(t) + seq![(0x30 + n % 10) as u8 as char]);
        }
        assert(out@ =~= old(out)@ + ascii_chars(s));
    }
}

/// The number that `s` from `start` on denotes, if it is made of digits, at
/// least one, and is at most `max`.
fn read_digits(s: &[u8], start: usize, max: u64) -> (value: Option<u64>)
    requires
        start <= s@.len(),
    ensures
        ({
            let digits = s@.skip(start as int);
            value == if digits.len() > 0 && all_digits(digits) && digits_value(digits) <= max {
                Some(digits_value(digits) as u64)
            } else {
                None
            }
        }),
{
    let ghost digits = s@.skip(start as int);
    if start == s.len() {
        return None;
    }
    let mut acc: u128 = 0;
    let mut i: usize = start;
    assert(digits.take(0) =~= Seq::<u8>::empty());
    while i < s.len()
        invariant
            start <= i <= s@.len(),
            digits == s@.skip(start as int),
            acc <= max,
            acc == digits_value(digits.take(i - start)),
            all_digits(digits.take(i - start)),
        decreases s@.len() - i,
    {
        let b = s[i];
        assert(b == digits[i - start]);
        if b < 0x30 || b > 0x39 {
            assert(!is_digit(digits[i - start]));
            return None;
        }
        let ghost before = digits.take(i - start);
        let ghost after = digits.take(i - start + 1);
        acc = acc * 10 + (b - 0x30) as u128;
        proof {
            assert(after.drop_last() =~= before);
            assert(after.last() == b);
            assert forall|k: int| 0 <= k < after.len() implies is_digit(#[trigger] after[k]) by {
                if k < before.len() {
                    assert(is_digit(before[k]));
                }
            }
        }
        if acc > max as u128 {
            proof {
                if all_digits(digits) {
                    lemma_digits_value_grows(digits, i - start + 1);
                }
            }
            return None;
        }
        i = i + 1;
    }
    assert(digits.take(digits.len() as int) =~= digits);
    Some(acc as u64)
}

/// Reads an `i64` in decimal notation.
pub fn read_i64(s: &[u8]) -> (value: Option<i64>)
    ensures
        value == i64_value(s@),
{
    if s.len() > 0 && s[0] == 0x2d {
        match read_digits(s, 1, 0x8000_0000_0000_0000) {
            Some(n) => Some((-(n as i128)) as i64),
            None => None,
        }
    } else {
        let start: usize = if s.len() > 0 && s[0] == 0x2b {
            1
        } else {
            0
        };
        assert(s@.skip(start as int) =~= unsigned_part(s@, true));
        match read_digits(s, start, 0x7fff_ffff_ffff_ffff) {
            Some(n) => Some(n as i64),
            None => None,
        }
    }
}

/// Reads a `u16` in decimal notation.
pub fn read_u16(s: &[u8]) -> (value: Option<u16>)
    ensures
        value == u16_value(s@),
{
    let start: usize = if s.len() > 0 && s[0] == 0x2b {
        1
    } else {
        0
    };
    assert(s@.skip(start as int) =~= unsigned_part(s@, false));
    match read_digits(s, start, 0xffff) {
        Some(n) => Some(n as u16),
        None => None,
    }
}

/// Reads a `u64` in decimal notation.
pub fn read_u64(s: &[u8]) -> (value: Option<u64>)
    ensures
        value == u64_value(s@),
{
    let start: usize = if s.len() > 0 && s[0] == 0x2b {
        1
    } else {
        0
    };
    assert(s@.skip(start as int) =~= unsigned_part(s@, false));
    read_digits(s, start, 0xffff_ffff_ffff_ffff)
}

} // verus!
