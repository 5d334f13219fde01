//! Decimal digits: the value of a run of digits, the digits of a value, and
//! the integer formatter that writes them.

use vstd::prelude::*;

verus! {

/// The ten ASCII digits.
pub open spec fn is_digit(b: u8) -> bool {
    0x30 <= b <= 0x39
}

/// True when every byte of `s` is a digit.
pub open spec fn all_digits(s: Seq<u8>) -> bool {
    forall|i: int| 0 <= i < s.len() ==> is_digit(#[trigger] s[i])
}

/// The number that a run of digits stands for. Leading zeros count for
/// nothing, and an empty run stands for zero.
pub open spec fn decimal_value(digits: Seq<u8>) -> nat
    decreases digits.len(),
{
    if digits.len() == 0 {
        0
    } else {
        (decimal_value(digits.drop_last()) * 10 + (digits.last() - 0x30)) as nat
    }
}

/// The digits of `n`, without leading zeros; zero is the single digit `0`.
pub open spec fn decimal_digits(n: nat) -> Seq<u8>
    decreases n,
{
    if n < 10 {
        seq![(0x30 + n) as u8]
    } else {
        decimal_digits(n / 10).push((0x30 + n % 10) as u8)
    }
}

/// The digits of `v`, behind a minus sign where `v` is negative.
pub open spec fn signed_decimal(v: int) -> Seq<u8> {
    if v < 0 {
        seq![0x2du8] + decimal_digits((-v) as nat)
    } else {
        decimal_digits(v as nat)
    }
}

/// The digits of a number are digits, there is at least one, and they stand
/// for that number.
pub proof fn lemma_decimal_digits(n: nat)
    ensures
        decimal_digits(n).len() > 0,
        all_digits(decimal_digits(n)),
        decimal_value(decimal_digits(n)) == n,
    decreases n,
{
    if n < 10 {
        let d = decimal_digits(n);
        assert(d.drop_last() =~= Seq::<u8>::empty());
        assert(decimal_value(d.drop_last()) == 0);
    } else {
        lemma_decimal_digits(n / 10);
        let d = decimal_digits(n);
        let p = decimal_digits(n / 10);
        assert(d.drop_last() =~= p);
        assert(d.last() == (0x30 + n % 10) as u8);
        assert forall|i: int| 0 <= i < d.len() implies is_digit(#[trigger] d[i]) by {
            if i < p.len() {
                assert(d[i] == p[i]);
            }
        }
    }
}

/// A run of digits stands for at least as much as any run it begins with.
pub proof fn lemma_decimal_value_prefix(digits: Seq<u8>, k: int)
    requires
        all_digits(digits),
        0 <= k <= digits.len(),
    ensures
        decimal_value(digits.subrange(0, k)) <= decimal_value(digits),
    decreases digits.len() - k,
{
    if k == digits.len() {
        assert(digits.subrange(0, k) =~= digits);
    } else {
        lemma_decimal_value_prefix(digits, k + 1);
        let longer = digits.subrange(0, k + 1);
        assert(longer.drop_last() =~= digits.subrange(0, k));
        assert(is_digit(digits[k]));
        assert(longer.last() == digits[k]);
    }
}

/// Whether `b` is an ASCII digit.
pub(crate) fn is_ascii_digit(b: u8) -> (r: bool)
    ensures
        r == is_digit(b),
{
    0x30 <= b && b <= 0x39
}

/// The number that `digits` stand for, where they are digits, at least one,
/// and the number is at most `limit`.
pub(crate) fn decimal(digits: &[u8], limit: u64) -> (r: Option<u64>)
    ensures
        r is Some <==> digits@.len() > 0 && all_digits(digits@) && decimal_value(digits@) <= limit,
        r matches Some(v) ==> v == decimal_value(digits@),
{
    if digits.len() == 0 {
        return None;
    }
    let mut i: usize = 0;
    while i < digits.len()
        invariant
            i <= digits.len(),
            all_digits(digits@.subrange(0, i as int)),
        decreases digits.len() - i,
    {
        if !is_ascii_digit(digits[i]) {
            assert(!is_digit(digits@[i as int]));
            return None;
        }
        assert forall|j: int| 0 <= j < i + 1 implies is_digit(
            #[trigger] digits@.subrange(0, i + 1)[j],
        ) by {
            if j < i {
                assert(digits@.subrange(0, i as int)[j] == digits@[j]);
            }
        }
        i = i + 1;
    }
    assert(digits@.subrange(0, i as int) =~= digits@);
    let mut acc: u64 = 0;
    i = 0;
    assert(digits@.subrange(0, 0) =~= Seq::<u8>::empty());
    while i < digits.len()
        invariant
            i <= digits.len(),
            all_digits(digits@),
            acc == decimal_value(digits@.subrange(0, i as int)),
            acc <= limit,
        decreases digits.len() - i,
    {
        assert(is_digit(digits@[i as int]));
        let d: u64 = (digits[i] - 0x30) as u64;
        let ghost longer = digits@.subrange(0, i + 1);
        assert(longer.drop_last() =~= digits@.subrange(0, i as int));
        assert(longer.last() == digits@[i as int]);
        assert(decimal_value(longer) == acc * 10 + d);
        if d > limit || acc > (limit - d) / 10 {
            proof {
                lemma_decimal_value_prefix(digits@, i + 1);
            }
            return None;
        }
        acc = acc * 10 + d;
        i = i + 1;
    }
    assert(digits@.subrange(0, i as int) =~= digits@);
    Some(acc)
}

/// The decimal digits of `v`, as `itoa::Buffer::format` writes them: no
/// sign, no leading zero, and `0` for zero.
#[verifier::external_body]
pub(crate) fn format_u64(v: u64) -> (out: Vec<u8>)
    ensures
        out@ == decimal_digits(v as nat),
{
    itoa::Buffer::new().format(v).as_bytes().to_vec()
}

/// The decimal digits of `v`, as `itoa::Buffer::format` writes them: a
/// minus sign in front of a negative number, then the digits of its
/// magnitude.
#[verifier::external_body]
pub(crate) fn format_i64(v: i64) -> (out: Vec<u8>)
    ensures
        out@ == signed_decimal(v as int),
{
    itoa::Buffer::new().format(v).as_bytes().to_vec()
}

} // verus!
