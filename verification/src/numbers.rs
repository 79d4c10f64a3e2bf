//! Reading integers from text, as `i32::from_str_radix` does.
use vstd::prelude::*;
use crate::text::{decimal, signed_decimal, lemma_decimal_digits};

verus! {

/// The value of an ASCII digit or letter (`0`-`9`, then `a`-`z` or `A`-`Z`
/// from 10); 99 for any other byte.
pub open spec fn digit_value(b: u8) -> int {
    if 48 <= b <= 57 {
        b - 48
    } else if 97 <= b <= 122 {
        b - 97 + 10
    } else if 65 <= b <= 90 {
        b - 65 + 10
    } else {
        99
    }
}

/// Every byte of `d` is a digit in base `radix`.
pub open spec fn all_digits(d: Seq<u8>, radix: int) -> bool {
    forall|i: int| 0 <= i < d.len() ==> #[trigger] digit_value(d[i]) < radix
}

/// The value of the digits `d` in base `radix`.
pub open spec fn digits_value(d: Seq<u8>, radix: int) -> int
    decreases d.len(),
{
    if d.len() == 0 {
        0
    } else {
        digits_value(d.drop_last(), radix) * radix + digit_value(d.last())
    }
}

/// What `i32::from_str_radix` returns: an optional `+` or `-`, then at least one
/// digit in base `radix`, and a value that fits in 32 bits; `None` otherwise.
pub open spec fn parse_radix(s: Seq<u8>, radix: int) -> Option<int> {
    let neg = s.len() > 0 && s[0] == 45;
    let digits = if s.len() > 0 && (s[0] == 43 || s[0] == 45) {
        s.drop_first()
    } else {
        s
    };
    if digits.len() == 0 || !all_digits(digits, radix) {
        None
    } else {
        let v = if neg {
            -digits_value(digits, radix)
        } else {
            digits_value(digits, radix)
        };
        if i32::MIN <= v <= i32::MAX {
            Some(v)
        } else {
            None
        }
    }
}

proof fn lemma_digits_value_grows(d: Seq<u8>, radix: int, i: int, j: int)
    requires
        radix >= 2,
        0 <= j <= i <= d.len(),
    ensures
        0 <= digits_value(d.take(j), radix) <= digits_value(d.take(i), radix),
    decreases i,
{
    if i > 0 {
        assert(d.take(i).drop_last() =~= d.take(i - 1));
        let v = digits_value(d.take(i - 1), radix);
        if j < i {
            lemma_digits_value_grows(d, radix, i - 1, j);
        } else {
            lemma_digits_value_grows(d, radix, i - 1, i - 1);
        }
        assert(v * radix >= v) by (nonlinear_arith)
            requires
                v >= 0,
                radix >= 2,
        ;
    }
}

fn digit_of(b: u8) -> (r: u32)
    ensures
        r as int == digit_value(b),
{
    if 48 <= b && b <= 57 {
        (b - 48) as u32
    } else if 97 <= b && b <= 122 {
        (b - 97 + 10) as u32
    } else if 65 <= b && b <= 90 {
        (b - 65 + 10) as u32
    } else {
        99
    }
}

/// Reads a 32-bit integer in base `radix`; 0 where `from_str_radix` fails.
pub fn parse_int_bytes(s: &[u8], radix: u32) -> (r: i32)
    requires
        2 <= radix <= 36,
    ensures
        r as int == match parse_radix(s@, radix as int) {
            Some(v) => v,
            None => 0,
        },
{
    let n = s.len();
    if n == 0 {
        return 0;
    }
    let neg = s[0] == 45;
    let first: usize = if s[0] == 43 || s[0] == 45 {
        1
    } else {
        0
    };
    let ghost digits = s@.subrange(first as int, n as int);
    assert(digits =~= if s@.len() > 0 && (s@[0] == 43 || s@[0] == 45) {
        s@.drop_first()
    } else {
        s@
    });
    if first == n {
        return 0;
    }
    let mut acc: u64 = 0;
    let mut i: usize = first;
    assert(digits.take(0) =~= Seq::<u8>::empty());
    while i < n
        invariant
            first <= i <= n,
            n == s@.len(),
            first < n,
            2 <= radix <= 36,
            digits == s@.subrange(first as int, n as int),
            digits == (if s@.len() > 0 && (s@[0] == 43 || s@[0] == 45) {
                s@.drop_first()
            } else {
                s@
            }),
            neg == (s@.len() > 0 && s@[0] == 45),
            acc as int == digits_value(digits.take(i - first), radix as int),
            acc <= 0x8000_0000,
            forall|k: int| 0 <= k < i - first ==> #[trigger] digit_value(digits[k]) < radix,
        decreases n - i,
    {
        let d = digit_of(s[i]);
        assert(digits[i - first] == s@[i as int]);
        if d >= radix {
            assert(digit_value(digits[i - first]) >= radix);
            assert(!all_digits(digits, radix as int));
            return 0;
        }
        let ghost prev = digits.take(i - first);
        assert(acc * (radix as u64) + (d as u64) <= 36 * 0x8000_0000 + 36) by (nonlinear_arith)
            requires
                acc <= 0x8000_0000,
                radix <= 36,
                d < radix,
        ;
        acc = acc * (radix as u64) + (d as u64);
        i += 1;
        proof {
            assert(digits.take(i - first).drop_last() =~= prev);
        }
        if acc > 0x8000_0000 {
            proof {
                lemma_digits_value_grows(digits, radix as int, digits.len() as int, i - first);
                assert(digits.take(digits.len() as int) =~= digits);
            }
            return 0;
        }
    }
    proof {
        assert(digits.take(n - first) =~= digits);
    }
    if neg {
        (0i64 - acc as i64) as i32
    } else if acc <= 0x7fff_ffff {
        acc as i32
    } else {
        0
    }
}

/// The digits of `decimal(n)` read back as `n`.
pub proof fn lemma_decimal_value(n: nat)
    ensures
        all_digits(decimal(n), 10),
        digits_value(decimal(n), 10) == n,
    decreases n,
{
    lemma_decimal_digits(n);
    if n >= 10 {
        lemma_decimal_value(n / 10);
        assert(decimal(n).drop_last() =~= decimal(n / 10));
        assert(decimal(n).last() == (48 + n % 10) as u8);
        assert(digit_value(decimal(n).last()) == n % 10);
        assert((n / 10) * 10 + n % 10 == n);
    } else {
        assert(decimal(n).drop_last() =~= Seq::<u8>::empty());
        assert(digits_value(Seq::<u8>::empty(), 10) == 0);
    }
}

/// Reading back the decimal text of a 32-bit integer gives the integer.
pub proof fn parse_reads_back_decimal(v: i32)
    ensures
        parse_radix(signed_decimal(v as int), 10) == Some(v as int),
{
    let s = signed_decimal(v as int);
    if v < 0 {
        let m = (-(v as int)) as nat;
        lemma_decimal_value(m);
        lemma_decimal_digits(m);
        assert(s.drop_first() =~= decimal(m));
    } else {
        lemma_decimal_value(v as nat);
        lemma_decimal_digits(v as nat);
        assert(48 <= s[0] <= 57);
    }
}

} // verus!
