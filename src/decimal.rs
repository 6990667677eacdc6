//! ASCII decimal text of integers: how the wire format writes them, and how
//! it reads them back.

use vstd::prelude::*;

verus! {

/// The byte of the ASCII digit for `d`, which is below ten.
pub open spec fn digit_byte(d: nat) -> u8 {
    (48 + d) as u8
}

/// A byte that is an ASCII digit `0`..=`9`.
pub open spec fn is_digit(b: u8) -> bool {
    48 <= b <= 57
}

/// Every byte of `d` is an ASCII digit.
pub open spec fn all_digits(d: Seq<u8>) -> bool {
    forall|i: int| 0 <= i < d.len() ==> is_digit(#[trigger] d[i])
}

/// The shortest decimal text of `n`, most significant digit first.
pub open spec fn decimal(n: nat) -> Seq<u8>
    decreases n,
{
    if n < 10 {
        seq![digit_byte(n)]
    } else {
        decimal(n / 10).push(digit_byte(n % 10))
    }
}

/// The decimal text of `n`, with a leading `-` when it is negative.
pub open spec fn signed_decimal(n: int) -> Seq<u8> {
    if n < 0 {
        seq![45u8] + decimal((-n) as nat)
    } else {
        decimal(n as nat)
    }
}

/// The number that a run of ASCII digits stands for.
pub open spec fn digits_value(d: Seq<u8>) -> nat
    decreases d.len(),
{
    if d.len() == 0 {
        0
    } else {
        digits_value(d.drop_last()) * 10 + (d.last() - 48) as nat
    }
}

/// Reads `b` as a base-10 `i64`: an optional `+` or `-`, then one digit or
/// more, with a value in `i64`'s range. `None` for anything else.
pub open spec fn parse_decimal(b: Seq<u8>) -> Option<int> {
    let signed = b.len() > 0 && (b[0] == 45u8 || b[0] == 43u8);
    let digits = if signed { b.drop_first() } else { b };
    let magnitude = digits_value(digits) as int;
    let value = if signed && b[0] == 45u8 { -magnitude } else { magnitude };
    if digits.len() > 0 && all_digits(digits) && i64::MIN <= value <= i64::MAX {
        Some(value)
    } else {
        None
    }
}

/// The decimal text of `n` is a non-empty run of digits worth `n`.
pub proof fn lemma_decimal_digits(n: nat)
    ensures
        all_digits(decimal(n)),
        decimal(n).len() > 0,
        digits_value(decimal(n)) == n,
    decreases n,
{
    let d = decimal(n);
    if n >= 10 {
        lemma_decimal_digits(n / 10);
        assert(d.drop_last() =~= decimal(n / 10));
        assert(n == (n / 10) * 10 + n % 10 && n % 10 < 10) by (nonlinear_arith);
        assert(d.last() == digit_byte(n % 10));
        assert((d.last() - 48) as nat == n % 10);
        assert(digits_value(d) == digits_value(decimal(n / 10)) * 10 + n % 10);
    } else {
        assert(d.drop_last() =~= Seq::<u8>::empty());
        assert(digits_value(d.drop_last()) == 0);
        assert((d.last() - 48) as nat == n);
    }
}

/// Reading the signed decimal text of an `i64` gives the number back; the
/// text of any other number reads as nothing.
pub proof fn lemma_signed_decimal_round_trip(n: int)
    ensures
        parse_decimal(signed_decimal(n)) == if i64::MIN <= n <= i64::MAX {
            Some(n)
        } else {
            None
        },
        forall|i: int|
            0 <= i < signed_decimal(n).len() ==> is_digit(#[trigger] signed_decimal(n)[i])
                || signed_decimal(n)[i] == 45u8,
{
    let t = signed_decimal(n);
    if n < 0 {
        lemma_decimal_digits((-n) as nat);
        assert(t.drop_first() =~= decimal((-n) as nat));
    } else {
        lemma_decimal_digits(n as nat);
        assert(is_digit(t[0]));
    }
}

/// Appends the decimal text of `n`.
pub fn push_decimal(n: u64, out: &mut Vec<u8>)
    ensures
        final(out)@ == old(out)@ + decimal(n as nat),
    decreases n,
{
    if n < 10 {
        out.push(48 + n as u8);
        assert(old(out)@ + decimal(n as nat) =~= old(out)@.push(digit_byte(n as nat)));
    } else {
        push_decimal(n / 10, out);
        out.push(48 + (n % 10) as u8);
        assert(old(out)@ + decimal(n as nat) =~= old(out)@ + decimal((n / 10) as nat) + seq![
            digit_byte((n % 10) as nat),
        ]);
    }
}

/// Appends the decimal text of `n`, with a `-` first when it is negative.
pub fn push_signed_decimal(n: i64, out: &mut Vec<u8>)
    ensures
        final(out)@ == old(out)@ + signed_decimal(n as int),
{
    if n < 0 {
        out.push(45);
        let magnitude: u64 = if n == i64::MIN {
            9223372036854775808u64
        } else {
            (-n) as u64
        };
        push_decimal(magnitude, out);
        assert(old(out)@ + signed_decimal(n as int) =~= old(out)@.push(45u8) + decimal(
            magnitude as nat,
        ));
    } else {
        push_decimal(n as u64, out);
    }
}

/// A longer run of digits stands for at least as much as its prefix.
proof fn lemma_digits_value_prefix(d: Seq<u8>, i: int)
    requires
        all_digits(d),
        0 <= i <= d.len(),
    ensures
        digits_value(d.subrange(0, i)) <= digits_value(d),
    decreases d.len(),
{
    if i < d.len() {
        let shorter = d.drop_last();
        assert(shorter.subrange(0, i) =~= d.subrange(0, i));
        lemma_digits_value_prefix(shorter, i);
    } else {
        assert(d.subrange(0, i) =~= d);
    }
}

/// Reads `b[start..end]` as `parse_decimal` does.
pub fn parse_i64(b: &[u8], start: usize, end: usize) -> (r: Option<i64>)
    requires
        start <= end <= b@.len(),
    ensures
        match parse_decimal(b@.subrange(start as int, end as int)) {
            Some(n) => r == Some(n as i64),
            None => r is None,
        },
{
    let ghost text = b@.subrange(start as int, end as int);
    let signed = start < end && (b[start] == 45 || b[start] == 43);
    let negative = signed && b[start] == 45;
    let first: usize = if signed { start + 1 } else { start };
    let ghost digits = b@.subrange(first as int, end as int);
    assert(digits =~= if signed { text.drop_first() } else { text });
    if first == end {
        return None;
    }
    let limit: u64 = 9223372036854775808u64;
    let mut acc: u64 = 0;
    let mut i: usize = first;
    while i < end
        invariant
            first <= i <= end <= b@.len(),
            limit == 9223372036854775808u64,
            text == b@.subrange(start as int, end as int),
            digits == b@.subrange(first as int, end as int),
            digits == if signed { text.drop_first() } else { text },
            signed == (text.len() > 0 && (text[0] == 45u8 || text[0] == 43u8)),
            negative == (signed && text[0] == 45u8),
            digits.len() > 0,
            all_digits(b@.subrange(first as int, i as int)),
            acc as nat == digits_value(b@.subrange(first as int, i as int)),
            acc <= limit,
        decreases end - i,
    {
        let c = b[i];
        let ghost before = b@.subrange(first as int, i as int);
        let ghost after = b@.subrange(first as int, i + 1);
        assert(after.drop_last() =~= before);
        if c < 48 || c > 57 {
            assert(!is_digit(digits[i - first]));
            return None;
        }
        let d = (c - 48) as u64;
        if acc > (limit - d) / 10 {
            assert(acc * 10 + d > limit) by (nonlinear_arith)
                requires
                    acc > (limit - d) / 10,
                    d <= 9,
            ;
            assert(all_digits(digits) ==> digits_value(after) <= digits_value(digits)) by {
                if all_digits(digits) {
                    assert(digits.subrange(0, i + 1 - first) =~= after);
                    lemma_digits_value_prefix(digits, i + 1 - first);
                }
            }
            return None;
        }
        assert(acc * 10 + d <= limit) by (nonlinear_arith)
            requires
                acc <= (limit - d) / 10,
                d <= 9,
        ;
        acc = acc * 10 + d;
        i = i + 1;
    }
    assert(b@.subrange(first as int, i as int) =~= digits);
    if negative {
        if acc == limit {
            Some(i64::MIN)
        } else {
            Some(-(acc as i64))
        }
    } else if acc <= 9223372036854775807u64 {
        Some(acc as i64)
    } else {
        None
    }
}

} // verus!
