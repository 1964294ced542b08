//! Decimal text of integers: its grammar, its value, and conversions.
use vstd::prelude::*;

verus! {

/// An ASCII decimal digit.
pub open spec fn is_digit(b: u8) -> bool {
    48 <= b <= 57
}

/// Every byte is an ASCII decimal digit.
pub open spec fn all_digits(s: Seq<u8>) -> bool {
    forall|i: int| 0 <= i < s.len() ==> is_digit(#[trigger] s[i])
}

/// The value of a string of decimal digits, most significant first.
pub open spec fn digits_value(s: Seq<u8>) -> nat
    decreases s.len(),
{
    if s.len() == 0 {
        0
    } else {
        digits_value(s.drop_last()) * 10 + (s.last() - 48) as nat
    }
}

/// The canonical decimal digits of `n`: no leading zero, at least one digit.
pub open spec fn decimal(n: nat) -> Seq<u8>
    decreases n,
{
    if n < 10 {
        seq![(48 + n) as u8]
    } else {
        decimal(n / 10).push((48 + n % 10) as u8)
    }
}

/// The canonical decimal text of `v`: a single `-` before negatives.
pub open spec fn signed_decimal(v: int) -> Seq<u8> {
    if v < 0 {
        seq![45u8] + decimal((-v) as nat)
    } else {
        decimal(v as nat)
    }
}

/// Whether `v` lies in the range of `i64`.
pub open spec fn in_i64(v: int) -> bool {
    i64::MIN <= v <= i64::MAX
}

/// The number of consecutive digits in `s` from `start` on.
pub open spec fn digit_run(s: Seq<u8>, start: int) -> nat
    decreases s.len() - start,
{
    if 0 <= start < s.len() && is_digit(s[start]) {
        1 + digit_run(s, start + 1)
    } else {
        0
    }
}

/// The length of a leading sign byte (`+` or `-`) of `s`: 0 or 1.
pub open spec fn sign_len(s: Seq<u8>) -> int {
    if s.len() > 0 && (s[0] == 43 || s[0] == 45) {
        1
    } else {
        0
    }
}

/// The value of a leading optional sign and the digits that follow it, where
/// it lies in the range of `i64` (no digits count as zero).
pub open spec fn signed_prefix_value(s: Seq<u8>) -> Option<i64> {
    let off = sign_len(s);
    let magnitude = digits_value(s.subrange(off, off + digit_run(s, off)));
    let v: int = if off == 1 && s[0] == 45 {
        -magnitude
    } else {
        magnitude as int
    };
    if in_i64(v) {
        Some(v as i64)
    } else {
        None
    }
}

/// The integer that `s` spells as a whole: an optional `-`, then one or
/// more digits, in the range of `i64`.
pub open spec fn integer_text(s: Seq<u8>) -> Option<i64> {
    let neg = s.len() > 0 && s[0] == 45;
    let digits = if neg {
        s.skip(1)
    } else {
        s
    };
    let v: int = if neg {
        -digits_value(digits)
    } else {
        digits_value(digits) as int
    };
    if digits.len() > 0 && all_digits(digits) && in_i64(v) {
        Some(v as i64)
    } else {
        None
    }
}

/// The decimal text of `n` is digits, at least one, and spells `n`.
pub proof fn lemma_decimal(n: nat)
    ensures
        decimal(n).len() >= 1,
        all_digits(decimal(n)),
        digits_value(decimal(n)) == n,
    decreases n,
{
    if n >= 10 {
        lemma_decimal(n / 10);
        assert(decimal(n).drop_last() =~= decimal(n / 10));
        assert(decimal(n).last() == (48 + n % 10) as u8);
        assert((n / 10) * 10 + n % 10 == n) by (nonlinear_arith);
        assert(digits_value(decimal(n)) == digits_value(decimal(n / 10)) * 10 + (n % 10));
    } else {
        assert(decimal(n).drop_last() =~= Seq::<u8>::empty());
        assert(digits_value(decimal(n).drop_last()) == 0);
        assert(digits_value(decimal(n)) == n);
    }
}

/// A run of digits that reaches the end of `s` makes all of the rest digits.
pub proof fn lemma_digit_run(s: Seq<u8>, start: int)
    requires
        0 <= start <= s.len(),
    ensures
        start + digit_run(s, start) <= s.len(),
        all_digits(s.subrange(start, start + digit_run(s, start))),
        start + digit_run(s, start) < s.len() ==> !is_digit(s[start + digit_run(s, start)]),
    decreases s.len() - start,
{
    if start < s.len() && is_digit(s[start]) {
        lemma_digit_run(s, start + 1);
        let a = s.subrange(start, start + digit_run(s, start));
        let b = s.subrange(start + 1, start + digit_run(s, start));
        assert forall|i: int| 0 <= i < a.len() implies is_digit(#[trigger] a[i]) by {
            if i > 0 {
                assert(a[i] == b[i - 1]);
            }
        }
    }
}

/// Digits that fill `s` from `start` make a run to its end.
pub proof fn lemma_digit_run_full(s: Seq<u8>, start: int)
    requires
        0 <= start <= s.len(),
        all_digits(s.skip(start)),
    ensures
        digit_run(s, start) == s.len() - start,
    decreases s.len() - start,
{
    if start < s.len() {
        assert(s.skip(start)[0] == s[start]);
        assert(all_digits(s.skip(start + 1))) by {
            assert forall|i: int| 0 <= i < s.skip(start + 1).len() implies is_digit(
                #[trigger] s.skip(start + 1)[i],
            ) by {
                assert(s.skip(start + 1)[i] == s.skip(start)[i + 1]);
            }
        }
        lemma_digit_run_full(s, start + 1);
    }
}

/// Appends the decimal digits of `n`.
pub fn push_decimal(out: &mut Vec<u8>, n: u64)
    ensures
        final(out)@ == old(out)@ + decimal(n as nat),
    decreases n,
{
    if n >= 10 {
        push_decimal(out, n / 10);
    }
    let d: u8 = (n % 10) as u8;
    out.push(48 + d);
    proof {
        if n >= 10 {
            assert(decimal(n as nat) == decimal((n / 10) as nat).push((48 + n % 10) as u8));
        }
    }
    assert(out@ =~= old(out)@ + decimal(n as nat));
}

/// Appends the canonical decimal text of `v`.
pub fn push_signed_decimal(out: &mut Vec<u8>, v: i64)
    ensures
        final(out)@ == old(out)@ + signed_decimal(v as int),
{
    if v < 0 {
        out.push(45);
        let magnitude: u64 = ((-(v + 1)) as u64) + 1;
        push_decimal(out, magnitude);
        assert(out@ =~= old(out)@ + signed_decimal(v as int));
    } else {
        push_decimal(out, v as u64);
    }
}

/// Relies on atoi's `FromRadix10SignedChecked::from_radix_10_signed_checked`
/// for `i64`: it reads an optional sign byte and then the longest run of
/// digits, returns the bytes so read, and the value unless a checked step
/// left the range of `i64`.
#[verifier::external_body]
fn signed_prefix(text: &[u8]) -> (r: (Option<i64>, usize))
    ensures
        r.1 == sign_len(text@) + digit_run(text@, sign_len(text@)),
        r.0 == signed_prefix_value(text@),
{
    <i64 as atoi::FromRadix10SignedChecked>::from_radix_10_signed_checked(text)
}

/// Reads `text` as a whole as an integer: an optional `-`, then one or more
/// digits, in the range of `i64`.
pub fn parse_integer_text(text: &[u8]) -> (r: Option<i64>)
    ensures
        r == integer_text(text@),
{
    let (value, used) = signed_prefix(text);
    let ghost s = text@;
    let ghost off = sign_len(s);
    proof {
        lemma_digit_run(s, off);
    }
    let signed: usize = if text.len() > 0 && (text[0] == 43 || text[0] == 45) {
        1
    } else {
        0
    };
    if text.len() == 0 || text[0] == 43 || used != text.len() || used == signed {
        proof {
            let neg = s.len() > 0 && s[0] == 45;
            let digits = if neg {
                s.skip(1)
            } else {
                s
            };
            if digits.len() > 0 && all_digits(digits) {
                if neg {
                    lemma_digit_run_full(s, 1);
                } else {
                    assert(s.skip(0) =~= s);
                    lemma_digit_run_full(s, 0);
                }
            }
        }
        return None;
    }
    proof {
        let neg = s[0] == 45;
        assert(s.subrange(off, off + digit_run(s, off)) =~= if neg {
            s.skip(1)
        } else {
            s
        });
    }
    value
}

} // verus!
