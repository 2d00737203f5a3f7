//! Re-mapping of a 32-bit value to four bytes that avoid reserved values.
//!
//! The value is written in base `base` (254 or 255) with four digits, least
//! significant first, and every digit is raised by one; each output byte then
//! lies in `[1, base]`. Values of `base^4` and above keep only their four low
//! digits.
use vstd::prelude::*;
use vstd::arithmetic::power::pow;
use vstd::arithmetic::div_mod::{lemma_div_denominator, lemma_fundamental_div_mod_converse};
use crate::radix::{
    convert, digits_below, digits_value, lemma_prefix_value_le, lemma_to_digits_digit,
    lemma_to_digits_value, to_digits,
};

verus! {

/// The 32-bit word whose bytes, least significant first, are `b0` to `b3`.
pub open spec fn le_word(b0: int, b1: int, b2: int, b3: int) -> int {
    b0 + 256 * b1 + 65536 * b2 + 16777216 * b3
}

/// Byte `i` of `w`, counted from the least significant one (`0 <= i < 4`).
pub open spec fn byte_of(w: int, i: int) -> int {
    if i == 0 {
        w % 256
    } else if i == 1 {
        w / 256 % 256
    } else if i == 2 {
        w / 65536 % 256
    } else {
        w / 16777216 % 256
    }
}

/// Digit `i` of `x` in base `base`, counted from the least significant one
/// (`0 <= i < 4`).
pub open spec fn digit_of(x: int, base: int, i: int) -> int {
    if i == 0 {
        x % base
    } else if i == 1 {
        x / base % base
    } else if i == 2 {
        x / (base * base) % base
    } else {
        x / (base * base * base) % base
    }
}

/// The safe form of `x`: each of its four low base-`base` digits, plus one,
/// as one byte.
pub open spec fn safe_encoded(x: int, base: int) -> int {
    le_word(
        digit_of(x, base, 0) + 1,
        digit_of(x, base, 1) + 1,
        digit_of(x, base, 2) + 1,
        digit_of(x, base, 3) + 1,
    )
}

/// Every byte of `w` lies in `[1, base]`.
pub open spec fn safe_bytes(w: int, base: int) -> bool {
    forall|i: int| 0 <= i < 4 ==> 1 <= #[trigger] byte_of(w, i) <= base
}

/// The value that the safe word `w` stands for: its bytes, less one each, as
/// base-`base` digits.
pub open spec fn safe_decoded(w: int, base: int) -> int {
    (byte_of(w, 0) - 1) + base * (byte_of(w, 1) - 1) + base * base * (byte_of(w, 2) - 1) + base
        * base * base * (byte_of(w, 3) - 1)
}

proof fn lemma_le_word_bytes(b0: int, b1: int, b2: int, b3: int)
    requires
        0 <= b0 < 256,
        0 <= b1 < 256,
        0 <= b2 < 256,
        0 <= b3 < 256,
    ensures
        byte_of(le_word(b0, b1, b2, b3), 0) == b0,
        byte_of(le_word(b0, b1, b2, b3), 1) == b1,
        byte_of(le_word(b0, b1, b2, b3), 2) == b2,
        byte_of(le_word(b0, b1, b2, b3), 3) == b3,
{
    let w = le_word(b0, b1, b2, b3);
    let r1 = b1 + 256 * b2 + 65536 * b3;
    let r2 = b2 + 256 * b3;
    lemma_fundamental_div_mod_converse(w, 256, r1, b0);
    lemma_fundamental_div_mod_converse(r1, 256, r2, b1);
    lemma_fundamental_div_mod_converse(r2, 256, b3, b2);
    lemma_fundamental_div_mod_converse(b3, 256, 0, b3);
    lemma_div_denominator(w, 256, 256);
    lemma_div_denominator(w, 65536, 256);
}

proof fn lemma_value4(s: Seq<u32>, base: nat)
    requires
        s.len() == 4,
    ensures
        digits_value(s, base) == ((s[0] * base + s[1]) * base + s[2]) * base + s[3],
{
    let s3 = s.drop_last();
    let s2 = s3.drop_last();
    let s1 = s2.drop_last();
    assert(s1.drop_last() =~= Seq::<u32>::empty());
    assert(digits_value(Seq::<u32>::empty(), base) == 0);
    assert(0 * base == 0);
    assert(digits_value(s1, base) == s[0]);
    assert(digits_value(s2, base) == s[0] * base + s[1]);
    assert(digits_value(s3, base) == (s[0] * base + s[1]) * base + s[2]);
}

/// Digit `i` of a digit sequence counted from its least significant end, zero
/// past its first digit.
pub open spec fn low_digit(s: Seq<u32>, i: int) -> int {
    if i < s.len() {
        s[s.len() - 1 - i] as int
    } else {
        0
    }
}

proof fn lemma_low_digits(x: nat, base: nat)
    requires
        base == 254 || base == 255,
    ensures
        forall|i: int|
            0 <= i < 4 ==> #[trigger] low_digit(to_digits(x, base), i) == digit_of(
                x as int,
                base as int,
                i,
            ) && 0 <= digit_of(x as int, base as int, i) < base,
{
    let b = base as int;
    lemma_to_digits_digit(x, base, 0);
    lemma_to_digits_digit(x, base, 1);
    lemma_to_digits_digit(x, base, 2);
    lemma_to_digits_digit(x, base, 3);
    reveal(pow);
    assert(pow(b, 0) == 1);
    assert(pow(b, 1) == b * pow(b, 0));
    assert(pow(b, 2) == b * pow(b, 1));
    assert(pow(b, 3) == b * pow(b, 2));
    assert(b * b * b == b * (b * b)) by (nonlinear_arith);
    assert(forall|i: int| 0 <= i < 4 ==> 0 <= #[trigger] digit_of(x as int, b, i) < b) by {
        assert(0 <= (x as int) % b < b);
        assert(0 <= (x as int) / b % b < b);
        assert(0 <= (x as int) / (b * b) % b < b);
        assert(0 <= (x as int) / (b * b * b) % b < b);
    }
}

/// The safe form of `value` in base `base` (254 or 255).
pub fn encode_safe_u32(value: u32, base: u32) -> (r: u32)
    requires
        base == 254 || base == 255,
    ensures
        r == safe_encoded(value as int, base as int),
        safe_bytes(r as int, base as int),
{
    let digits: Vec<u32> = vec![value / 16777216, value / 65536 % 256, value / 256 % 256, value % 256];
    proof {
        lemma_value4(digits@, 256);
        assert(digits_below(digits@, 256));
    }
    let out = match convert(digits.as_slice(), 256, base) {
        Ok(out) => out,
        Err(_) => {
            return 0;
        },
    };
    let n = out.len();
    proof {
        lemma_low_digits(value as nat, base as nat);
    }
    assert(low_digit(out@, 0) == digit_of(value as int, base as int, 0));
    assert(low_digit(out@, 1) == digit_of(value as int, base as int, 1));
    assert(low_digit(out@, 2) == digit_of(value as int, base as int, 2));
    assert(low_digit(out@, 3) == digit_of(value as int, base as int, 3));
    let d0: u32 = if n > 0 { out[n - 1] } else { 0 };
    let d1: u32 = if n > 1 { out[n - 2] } else { 0 };
    let d2: u32 = if n > 2 { out[n - 3] } else { 0 };
    let d3: u32 = if n > 3 { out[n - 4] } else { 0 };
    proof {
        lemma_le_word_bytes(d0 + 1, d1 + 1, d2 + 1, d3 + 1);
    }
    (d0 + 1) + (d1 + 1) * 256 + (d2 + 1) * 65536 + (d3 + 1) * 16777216
}

/// The value that the safe word `word` stands for, in base `base` (254 or 255).
pub fn decode_safe_u32(word: u32, base: u32) -> (r: u32)
    requires
        base == 254 || base == 255,
        safe_bytes(word as int, base as int),
    ensures
        r == safe_decoded(word as int, base as int),
{
    let b0 = word % 256;
    let b1 = word / 256 % 256;
    let b2 = word / 65536 % 256;
    let b3 = word / 16777216;
    proof {
        assert(1 <= byte_of(word as int, 0) <= base);
        assert(1 <= byte_of(word as int, 1) <= base);
        assert(1 <= byte_of(word as int, 2) <= base);
        assert(1 <= byte_of(word as int, 3) <= base);
    }
    let digits: Vec<u32> = vec![b3 - 1, b2 - 1, b1 - 1, b0 - 1];
    let ghost v = digits_value(digits@, base as nat);
    proof {
        lemma_value4(digits@, base as nat);
        assert(digits_below(digits@, base as nat));
        let bb = base as int;
        let (e3, e2, e1, e0) = ((b3 - 1) as int, (b2 - 1) as int, (b1 - 1) as int, (b0 - 1) as int);
        assert(((e3 * bb + e2) * bb + e1) * bb + e0 == e0 + bb * e1 + bb * bb * e2 + bb * bb * bb
            * e3) by (nonlinear_arith);
        assert(e3 * bb <= 64770) by (nonlinear_arith)
            requires
                0 <= e3 < bb <= 255,
        ;
        assert((e3 * bb + e2) * bb <= 16581120) by (nonlinear_arith)
            requires
                0 <= e3 * bb + e2 <= 65024,
                bb <= 255,
        ;
        assert(((e3 * bb + e2) * bb + e1) * bb <= 4228250370) by (nonlinear_arith)
            requires
                0 <= (e3 * bb + e2) * bb + e1 <= 16581374,
                bb <= 255,
        ;
    }
    let out = match convert(digits.as_slice(), base, 256) {
        Ok(out) => out,
        Err(_) => {
            return 0;
        },
    };
    proof {
        lemma_to_digits_value(v, 256);
    }
    let mut acc: u64 = 0;
    let mut i: usize = 0;
    assert(out@.subrange(0, 0) =~= Seq::<u32>::empty());
    while i < out.len()
        invariant
            out@ == to_digits(v, 256),
            digits_value(out@, 256) == v,
            digits_below(out@, 256),
            v < 0x1_0000_0000,
            i <= out.len(),
            acc == digits_value(out@.subrange(0, i as int), 256),
        decreases out.len() - i,
    {
        proof {
            lemma_prefix_value_le(out@, i as int, 256);
            assert(out@.subrange(0, i + 1).drop_last() =~= out@.subrange(0, i as int));
            assert(out@[i as int] < 256);
        }
        acc = acc * 256 + out[i] as u64;
        i = i + 1;
    }
    proof {
        assert(out@.subrange(0, out.len() as int) =~= out@);
    }
    acc as u32
}

/// A safe word stands for `safe_decoded` of it exactly when each of its bytes
/// lies in `[1, base]`; otherwise `None`.
pub fn try_decode_safe_u32(word: u32, base: u32) -> (r: Option<u32>)
    requires
        base == 254 || base == 255,
    ensures
        match r {
            Some(v) => safe_bytes(word as int, base as int) && v == safe_decoded(word as int, base as int),
            None => !safe_bytes(word as int, base as int),
        },
{
    let b0 = word % 256;
    let b1 = word / 256 % 256;
    let b2 = word / 65536 % 256;
    let b3 = word / 16777216;
    if b0 == 0 || b0 > base || b1 == 0 || b1 > base || b2 == 0 || b2 > base || b3 == 0 || b3 > base {
        proof {
            if b0 == 0 || b0 > base {
                assert(!(1 <= byte_of(word as int, 0) <= base));
            } else if b1 == 0 || b1 > base {
                assert(!(1 <= byte_of(word as int, 1) <= base));
            } else if b2 == 0 || b2 > base {
                assert(!(1 <= byte_of(word as int, 2) <= base));
            } else {
                assert(!(1 <= byte_of(word as int, 3) <= base));
            }
        }
        None
    } else {
        assert forall|i: int| 0 <= i < 4 implies 1 <= #[trigger] byte_of(word as int, i) <= base by {
        }
        Some(decode_safe_u32(word, base))
    }
}

proof fn lemma_digits_254(x: int)
    requires
        0 <= x < 4162314256,
    ensures
        0 <= digit_of(x, 254, 0) < 254,
        0 <= digit_of(x, 254, 1) < 254,
        0 <= digit_of(x, 254, 2) < 254,
        0 <= digit_of(x, 254, 3) < 254,
        digit_of(x, 254, 0) + 254 * digit_of(x, 254, 1) + 64516 * digit_of(x, 254, 2) + 16387064
            * digit_of(x, 254, 3) == x,
{
    lemma_div_denominator(x, 254, 254);
    lemma_div_denominator(x, 64516, 254);
}

proof fn lemma_digits_255(x: int)
    requires
        0 <= x < 4228250625,
    ensures
        0 <= digit_of(x, 255, 0) < 255,
        0 <= digit_of(x, 255, 1) < 255,
        0 <= digit_of(x, 255, 2) < 255,
        0 <= digit_of(x, 255, 3) < 255,
        digit_of(x, 255, 0) + 255 * digit_of(x, 255, 1) + 65025 * digit_of(x, 255, 2) + 16581375
            * digit_of(x, 255, 3) == x,
{
    lemma_div_denominator(x, 255, 255);
    lemma_div_denominator(x, 65025, 255);
}

/// For a value below `base^4`, the safe form avoids the reserved bytes and
/// decodes back to the value.
pub proof fn lemma_safe_round_trip(value: u32, base: int)
    requires
        base == 254 || base == 255,
        value < base * base * base * base,
    ensures
        safe_bytes(safe_encoded(value as int, base), base),
        safe_decoded(safe_encoded(value as int, base), base) == value,
{
    let x = value as int;
    let (d0, d1, d2, d3) = (digit_of(x, base, 0), digit_of(x, base, 1), digit_of(x, base, 2), digit_of(x, base, 3));
    if base == 254 {
        assert(base * base * base * base == 4162314256) by (nonlinear_arith)
            requires
                base == 254,
        ;
        lemma_digits_254(x);
        assert(d0 + base * d1 + base * base * d2 + base * base * base * d3 == x) by (nonlinear_arith)
            requires
                base == 254,
                d0 + 254 * d1 + 64516 * d2 + 16387064 * d3 == x,
        ;
    } else {
        assert(base * base * base * base == 4228250625) by (nonlinear_arith)
            requires
                base == 255,
        ;
        lemma_digits_255(x);
        assert(d0 + base * d1 + base * base * d2 + base * base * base * d3 == x) by (nonlinear_arith)
            requires
                base == 255,
                d0 + 255 * d1 + 65025 * d2 + 16581375 * d3 == x,
        ;
    }
    lemma_le_word_bytes(d0 + 1, d1 + 1, d2 + 1, d3 + 1);
    let w = safe_encoded(x, base);
    assert forall|i: int| 0 <= i < 4 implies 1 <= #[trigger] byte_of(w, i) <= base by {
    }
}

} // verus!
