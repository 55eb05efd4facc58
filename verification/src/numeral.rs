//! Decimal numerals as character strings.
//!
//! Record files are named by the decimal digest of a key, and the record
//! format stores every length as a fixed-width decimal numeral, so both
//! rendering a number as digits and reading digits back are part of the
//! engine. `dec_digits` is the ordinary rendering without leading zeros;
//! `fixed_digits` is the zero-padded rendering the record format uses.

use vstd::prelude::*;
use vstd::string::StringExecFns;

verus! {

/// Width of every length field in a record file: enough decimal digits
/// to hold any 64-bit value.
pub const LEN_DIGITS: usize = 20;

/// True of the ten ASCII digit characters.
pub open spec fn is_digit(c: char) -> bool {
    48 <= c as u32 <= 57
}

/// The numeric value of an ASCII digit character.
pub open spec fn digit_val(c: char) -> nat
    recommends
        is_digit(c),
{
    (c as u32 - 48) as nat
}

/// The digit character for a value below ten.
pub open spec fn digit_char(d: nat) -> char
    recommends
        d < 10,
{
    if d == 0 {
        '0'
    } else if d == 1 {
        '1'
    } else if d == 2 {
        '2'
    } else if d == 3 {
        '3'
    } else if d == 4 {
        '4'
    } else if d == 5 {
        '5'
    } else if d == 6 {
        '6'
    } else if d == 7 {
        '7'
    } else if d == 8 {
        '8'
    } else {
        '9'
    }
}

/// The decimal digits of `n`, most significant first, without leading
/// zeros (a single zero for zero).
pub open spec fn dec_digits(n: nat) -> Seq<char>
    decreases n,
{
    if n < 10 {
        seq![digit_char(n)]
    } else {
        dec_digits(n / 10).push(digit_char(n % 10))
    }
}

/// The `w` low decimal digits of `n`, most significant first, zero-padded:
/// the digits of `n % 10^w`.
pub open spec fn fixed_digits(n: nat, w: nat) -> Seq<char>
    decreases w,
{
    if w == 0 {
        Seq::empty()
    } else {
        fixed_digits(n / 10, (w - 1) as nat).push(digit_char(n % 10))
    }
}

/// The value of a character string read as a decimal numeral.
pub open spec fn numeral_val(s: Seq<char>) -> nat
    decreases s.len(),
{
    if s.len() == 0 {
        0
    } else {
        numeral_val(s.drop_last()) * 10 + digit_val(s.last())
    }
}

/// Every character of `s` is an ASCII digit.
pub open spec fn all_digits(s: Seq<char>) -> bool {
    forall|i: int| 0 <= i < s.len() ==> is_digit(#[trigger] s[i])
}

/// Ten to the `k`.
pub open spec fn pow10(k: nat) -> nat
    decreases k,
{
    if k == 0 {
        1
    } else {
        10 * pow10((k - 1) as nat)
    }
}

/// The one-character string for a digit value.
fn digit_str(d: u64) -> (r: &'static str)
    requires
        d < 10,
    ensures
        r@ =~= seq![digit_char(d as nat)],
{
    proof {
        reveal_strlit("0");
        reveal_strlit("1");
        reveal_strlit("2");
        reveal_strlit("3");
        reveal_strlit("4");
        reveal_strlit("5");
        reveal_strlit("6");
        reveal_strlit("7");
        reveal_strlit("8");
        reveal_strlit("9");
    }
    match d {
        0 => "0",
        1 => "1",
        2 => "2",
        3 => "3",
        4 => "4",
        5 => "5",
        6 => "6",
        7 => "7",
        8 => "8",
        _ => "9",
    }
}

/// Renders `n` in decimal without leading zeros; record files are named
/// by this rendering of the key's digest.
pub fn u64_to_decimal(n: u64) -> (r: String)
    ensures
        r@ == dec_digits(n as nat),
    decreases n,
{
    if n < 10 {
        let s = String::from_str(digit_str(n));
        proof {
            assert(s@ =~= dec_digits(n as nat));
        }
        s
    } else {
        let mut s = u64_to_decimal(n / 10);
        s.append(digit_str(n % 10));
        proof {
            assert(s@ =~= dec_digits(n as nat));
        }
        s
    }
}

/// Renders the `w` low decimal digits of `n`, zero-padded.
pub fn fixed_decimal(n: u64, w: usize) -> (r: String)
    ensures
        r@ == fixed_digits(n as nat, w as nat),
    decreases w,
{
    if w == 0 {
        let s = String::new();
        proof {
            assert(s@ =~= fixed_digits(n as nat, 0));
        }
        s
    } else {
        let mut s = fixed_decimal(n / 10, w - 1);
        s.append(digit_str(n % 10));
        proof {
            assert(s@ =~= fixed_digits(n as nat, w as nat));
        }
        s
    }
}

/// The value of a numeral never shrinks when digits are appended.
proof fn lemma_numeral_prefix_le(s: Seq<char>, i: int)
    requires
        0 <= i <= s.len(),
    ensures
        numeral_val(s.take(i)) <= numeral_val(s),
    decreases s.len() - i,
{
    if i == s.len() {
        assert(s.take(i) =~= s);
    } else {
        assert(s.take(i + 1).drop_last() =~= s.take(i));
        assert(numeral_val(s.take(i + 1)) == numeral_val(s.take(i)) * 10 + digit_val(
            s.take(i + 1).last(),
        ));
        lemma_numeral_prefix_le(s, i + 1);
    }
}

/// Reads the `w` characters of `s` starting at `start` as a decimal
/// numeral. Returns the value exactly when all `w` characters are digits
/// and the value fits in a `u64`.
pub fn parse_fixed(s: &str, start: usize, w: usize) -> (r: Option<u64>)
    requires
        start + w <= s@.len(),
        start + w <= usize::MAX,
    ensures
        ({
            let digits = s@.subrange(start as int, start + w);
            match r {
                Some(v) => all_digits(digits) && numeral_val(digits) == v,
                None => !all_digits(digits) || numeral_val(digits) > u64::MAX,
            }
        }),
{
    let ghost digits = s@.subrange(start as int, start + w);
    let mut acc: u64 = 0;
    let mut i: usize = 0;
    while i < w
        invariant
            i <= w,
            start + w <= s@.len(),
            start + w <= usize::MAX,
            digits == s@.subrange(start as int, start + w),
            all_digits(digits.take(i as int)),
            acc == numeral_val(digits.take(i as int)),
        decreases w - i,
    {
        let c = s.get_char(start + i);
        proof {
            assert(digits[i as int] == s@[start + i]);
        }
        let cv = c as u32;
        if cv < 48 || cv > 57 {
            proof {
                assert(!is_digit(digits[i as int]));
            }
            return None;
        }
        let d = (cv - 48) as u64;
        proof {
            assert(digits.take(i + 1).drop_last() =~= digits.take(i as int));
            assert(digits.take(i + 1).last() == digits[i as int]);
            assert(numeral_val(digits.take(i + 1)) == acc * 10 + d);
        }
        if acc > (u64::MAX - d) / 10 {
            proof {
                assert(acc * 10 + d > u64::MAX);
                lemma_numeral_prefix_le(digits, i + 1);
            }
            return None;
        }
        proof {
            assert(acc * 10 + d <= u64::MAX);
        }
        acc = acc * 10 + d;
        i = i + 1;
    }
    proof {
        assert(digits.take(w as int) =~= digits);
    }
    Some(acc)
}

/// `fixed_digits` yields exactly `w` digit characters.
pub proof fn lemma_fixed_digits_are_digits(n: nat, w: nat)
    ensures
        all_digits(fixed_digits(n, w)),
        fixed_digits(n, w).len() == w,
    decreases w,
{
    if w > 0 {
        lemma_fixed_digits_are_digits(n / 10, (w - 1) as nat);
        assert(is_digit(digit_char(n % 10)));
        assert(forall|i: int|
            0 <= i < w ==> is_digit(#[trigger] fixed_digits(n, w)[i]));
    }
}

/// Reading back the `w` fixed digits of `n` yields `n % 10^w`.
pub proof fn lemma_fixed_digits_val(n: nat, w: nat)
    ensures
        numeral_val(fixed_digits(n, w)) == n % pow10(w),
    decreases w,
{
    if w == 0 {
        assert(n % 1 == 0) by {
            vstd::arithmetic::div_mod::lemma_small_mod(0, 1);
            vstd::arithmetic::div_mod::lemma_fundamental_div_mod_converse(n as int, 1, n as int, 0);
        }
    } else {
        let p = pow10((w - 1) as nat);
        lemma_pow10_positive((w - 1) as nat);
        lemma_fixed_digits_val(n / 10, (w - 1) as nat);
        let q = n / 10;
        let r = n % 10;
        let sm = q % p;
        let k = q / p;
        vstd::arithmetic::div_mod::lemma_fundamental_div_mod(n as int, 10);
        vstd::arithmetic::div_mod::lemma_fundamental_div_mod(q as int, p as int);
        assert(n as int == (k as int) * (10 * (p as int)) + (10 * (sm as int) + (r as int)))
            by (nonlinear_arith)
            requires
                n as int == 10 * (q as int) + (r as int),
                q as int == (p as int) * (k as int) + (sm as int),
        ;
        assert(0 <= (sm as int) < (p as int)) by {
            vstd::arithmetic::div_mod::lemma_mod_pos_bound(q as int, p as int);
        }
        assert(0 <= 10 * (sm as int) + (r as int) < 10 * (p as int));
        vstd::arithmetic::div_mod::lemma_fundamental_div_mod_converse(
            n as int,
            10 * (p as int),
            k as int,
            10 * (sm as int) + (r as int),
        );
        assert(fixed_digits(n, w).drop_last() =~= fixed_digits(q, (w - 1) as nat));
        assert(fixed_digits(n, w).last() == digit_char(r));
        assert(numeral_val(fixed_digits(n, w)) == numeral_val(fixed_digits(q, (w - 1) as nat)) * 10
            + digit_val(digit_char(r)));
        assert(digit_val(digit_char(r)) == r);
        assert(n % (10 * p) == 10 * sm + r);
        assert(pow10(w) == 10 * p);
    }
}

/// Ten to any power is positive.
pub proof fn lemma_pow10_positive(k: nat)
    ensures
        pow10(k) >= 1,
    decreases k,
{
    if k > 0 {
        lemma_pow10_positive((k - 1) as nat);
    }
}

/// A 64-bit value is recovered exactly from its fixed-width rendering.
pub proof fn lemma_fixed_digits_roundtrip(n: u64)
    ensures
        all_digits(fixed_digits(n as nat, LEN_DIGITS as nat)),
        fixed_digits(n as nat, LEN_DIGITS as nat).len() == LEN_DIGITS,
        numeral_val(fixed_digits(n as nat, LEN_DIGITS as nat)) == n,
{
    lemma_fixed_digits_are_digits(n as nat, LEN_DIGITS as nat);
    lemma_fixed_digits_val(n as nat, LEN_DIGITS as nat);
    assert(pow10(20) == 0x56bc75e2d63100000) by {
        reveal_with_fuel(pow10, 21);
    }
    vstd::arithmetic::div_mod::lemma_small_mod(n as nat, pow10(20));
}

} // verus!
