//! Conversion of a numeral between two radices.
//!
//! Digit sequences are written most significant digit first.
use vstd::prelude::*;
use vstd::arithmetic::power::{lemma_pow_positive, pow};
use vstd::arithmetic::div_mod::lemma_div_denominator;
use crate::error::CodecError;

verus! {

/// The number that `s` denotes in base `base`, most significant digit first.
pub open spec fn digits_value(s: Seq<u32>, base: nat) -> nat
    decreases s.len(),
{
    if s.len() == 0 {
        0
    } else {
        digits_value(s.drop_last(), base) * base + s.last() as nat
    }
}

/// Every digit of `s` is below `base`.
pub open spec fn digits_below(s: Seq<u32>, base: nat) -> bool {
    forall|i: int| 0 <= i < s.len() ==> (#[trigger] s[i]) < base
}

/// The minimal digit sequence of `n` in base `base`: no leading zero, and
/// empty for zero.
pub open spec fn to_digits(n: nat, base: nat) -> Seq<u32>
    decreases n,
    via to_digits_decreases
{
    if n == 0 || base < 2 {
        Seq::empty()
    } else {
        to_digits(n / base, base).push((n % base) as u32)
    }
}

#[via_fn]
proof fn to_digits_decreases(n: nat, base: nat) {
    if n != 0 && base >= 2 {
        assert(n / base < n) by (nonlinear_arith)
            requires
                n > 0,
                base >= 2,
        ;
    }
}

/// A digit sequence is canonical when it is empty or starts with a non-zero digit.
pub open spec fn is_canonical(s: Seq<u32>) -> bool {
    s.len() == 0 || s[0] != 0
}

proof fn lemma_value_push(s: Seq<u32>, d: u32, base: nat)
    ensures
        digits_value(s.push(d), base) == digits_value(s, base) * base + d,
{
    assert(s.push(d).drop_last() =~= s);
}

proof fn lemma_value_prepend(d: u32, s: Seq<u32>, base: nat)
    ensures
        digits_value(seq![d] + s, base) == d * pow(base as int, s.len()) + digits_value(s, base),
    decreases s.len(),
{
    if s.len() == 0 {
        assert(seq![d] + s =~= seq![d]);
        assert(seq![d].drop_last() =~= Seq::<u32>::empty());
        reveal(pow);
        assert(digits_value(Seq::<u32>::empty(), base) == 0);
        assert(digits_value(seq![d], base) == 0 * base + d);
        assert(0 * base == 0);
        assert(digits_value(seq![d], base) == d);
        assert(pow(base as int, 0) == 1);
    } else {
        let t = seq![d] + s;
        assert(t.drop_last() =~= seq![d] + s.drop_last());
        lemma_value_prepend(d, s.drop_last(), base);
        let p = pow(base as int, (s.len() - 1) as nat);
        reveal(pow);
        assert(pow(base as int, s.len()) == base * p);
        let a = digits_value(s.drop_last(), base) as int;
        let l = s.last() as int;
        assert(t.last() == s.last());
        assert(digits_value(t, base) == digits_value(seq![d] + s.drop_last(), base) * base + l);
        assert(digits_value(s, base) == a * base + l);
        assert((d * p + a) * base + l == d * (base * p) + (a * base + l)) by (nonlinear_arith);
        assert(digits_value(t, base) == d * pow(base as int, s.len()) + digits_value(s, base));
    }
}

proof fn lemma_value_zero(s: Seq<u32>, base: nat)
    requires
        base >= 1,
    ensures
        digits_value(s, base) == 0 <==> forall|i: int| 0 <= i < s.len() ==> #[trigger] s[i] == 0,
    decreases s.len(),
{
    if s.len() > 0 {
        lemma_value_zero(s.drop_last(), base);
        let a = digits_value(s.drop_last(), base);
        assert(a * base == 0 <==> a == 0) by (nonlinear_arith)
            requires
                base >= 1,
        ;
        if digits_value(s, base) == 0 {
            assert forall|i: int| 0 <= i < s.len() implies #[trigger] s[i] == 0 by {
                if i < s.len() - 1 {
                    assert(s.drop_last()[i] == s[i]);
                }
            }
        } else {
            if forall|i: int| 0 <= i < s.len() ==> #[trigger] s[i] == 0 {
                assert forall|i: int| 0 <= i < s.drop_last().len() implies #[trigger] s.drop_last()[i]
                    == 0 by {
                    assert(s[i] == 0);
                }
                assert(s[s.len() - 1] == 0);
            }
        }
    }
}

/// The digits of a number, read back, give the number.
pub proof fn lemma_to_digits_value(n: nat, base: nat)
    requires
        2 <= base <= 0x1_0000_0000,
    ensures
        digits_value(to_digits(n, base), base) == n,
        digits_below(to_digits(n, base), base),
        is_canonical(to_digits(n, base)),
    decreases n,
{
    if n > 0 {
        assert(n / base < n) by (nonlinear_arith)
            requires
                n > 0,
                base >= 2,
        ;
        lemma_to_digits_value(n / base, base);
        let p = to_digits(n / base, base);
        let d = (n % base) as u32;
        lemma_value_push(p, d, base);
        assert(n == (n / base) * base + n % base) by (nonlinear_arith)
            requires
                base >= 2,
        ;
        assert(n % base < base) by (nonlinear_arith)
            requires
                base >= 2,
        ;
        if p.len() == 0 {
            assert(n / base == 0) by {
                if n / base != 0 {
                    lemma_positive_has_digits(n / base, base);
                }
            }
            let q = n / base;
            assert(q * base == 0) by (nonlinear_arith)
                requires
                    q == 0,
            ;
        }
        assert(digits_below(p.push(d), base)) by {
            assert forall|i: int| 0 <= i < p.push(d).len() implies (#[trigger] p.push(d)[i])
                < base by {
                if i < p.len() {
                    assert(p.push(d)[i] == p[i]);
                }
            }
        }
    }
}

proof fn lemma_positive_has_digits(n: nat, base: nat)
    requires
        base >= 2,
        n > 0,
    ensures
        to_digits(n, base).len() > 0,
{
}

/// A canonical digit sequence is the one `to_digits` gives for its value.
pub proof fn lemma_canonical_unique(s: Seq<u32>, base: nat)
    requires
        2 <= base <= 0x1_0000_0000,
        digits_below(s, base),
        is_canonical(s),
    ensures
        to_digits(digits_value(s, base), base) == s,
        s.len() > 0 ==> digits_value(s, base) > 0,
    decreases s.len(),
{
    if s.len() > 0 {
        let p = s.drop_last();
        let l = s.last();
        assert(digits_below(p, base)) by {
            assert forall|i: int| 0 <= i < p.len() implies (#[trigger] p[i]) < base by {
                assert(p[i] == s[i]);
            }
        }
        if p.len() > 0 {
            assert(p[0] == s[0]);
        }
        lemma_canonical_unique(p, base);
        let a = digits_value(p, base);
        let v = digits_value(s, base);
        assert(l < base);
        assert(v / base == a && v % base == l) by (nonlinear_arith)
            requires
                v == a * base + l,
                l < base,
                base >= 2,
        ;
        if p.len() == 0 {
            assert(l == s[0]);
            assert(v > 0);
        } else {
            assert(v > 0) by (nonlinear_arith)
                requires
                    v == a * base + l,
                    a > 0,
                    base >= 2,
            ;
        }
        assert(to_digits(v, base) == to_digits(a, base).push(l));
        assert(p.push(l) =~= s);
    }
}

/// Digit `i` of `to_digits(n, base)`, counted from the least significant end,
/// is `n / base^i % base`; past the last digit, `n / base^i` is zero.
pub proof fn lemma_to_digits_digit(n: nat, base: nat, i: nat)
    requires
        2 <= base <= 0x1_0000_0000,
    ensures
        i < to_digits(n, base).len() ==> to_digits(n, base)[to_digits(n, base).len() - 1 - i]
            == (n as int / pow(base as int, i)) % (base as int),
        i >= to_digits(n, base).len() ==> n as int / pow(base as int, i) == 0,
    decreases n,
{
    lemma_pow_positive(base as int, i);
    if n > 0 {
        let q = n / base;
        assert(q < n) by (nonlinear_arith)
            requires
                n > 0,
                base >= 2,
                q == n / base,
        ;
        let t = to_digits(q, base);
        assert(to_digits(n, base) == t.push((n % base) as u32));
        if i == 0 {
            reveal(pow);
            assert(pow(base as int, 0) == 1);
            assert(n % base < base) by (nonlinear_arith)
                requires
                    base >= 2,
            ;
        } else {
            let j = (i - 1) as nat;
            lemma_to_digits_digit(q, base, j);
            reveal(pow);
            assert(pow(base as int, i) == base * pow(base as int, j));
            lemma_pow_positive(base as int, j);
            lemma_div_denominator(n as int, base as int, pow(base as int, j));
            if j < t.len() {
                assert(to_digits(n, base)[to_digits(n, base).len() - 1 - i] == t[t.len() - 1 - j]);
            }
        }
    } else {
        assert(0int / pow(base as int, i) == 0) by (nonlinear_arith)
            requires
                pow(base as int, i) > 0,
        ;
    }
}

/// The number that a prefix of a digit sequence denotes is at most the
/// number of the whole sequence.
pub proof fn lemma_prefix_value_le(s: Seq<u32>, i: int, base: nat)
    requires
        0 <= i <= s.len(),
        base >= 1,
    ensures
        digits_value(s.subrange(0, i), base) <= digits_value(s, base),
    decreases s.len(),
{
    if i == s.len() {
        assert(s.subrange(0, i) =~= s);
    } else {
        lemma_prefix_value_le(s.drop_last(), i, base);
        assert(s.drop_last().subrange(0, i) =~= s.subrange(0, i));
        let a = digits_value(s.drop_last(), base);
        assert(a <= a * base) by (nonlinear_arith)
            requires
                base >= 1,
        ;
    }
}

/// Divides the base-`from` numeral `cur` by `to`; returns the quotient (as many
/// digits as `cur`, base `from`), the remainder, and whether the quotient is
/// non-zero.
fn divide_digits(cur: &Vec<u32>, from: u32, to: u32) -> (res: (Vec<u32>, u32, bool))
    requires
        from >= 2,
        to >= 2,
        digits_below(cur@, from as nat),
    ensures
        res.0.len() == cur.len(),
        digits_below(res.0@, from as nat),
        res.1 < to,
        digits_value(cur@, from as nat) == digits_value(res.0@, from as nat) * to + res.1,
        res.2 == (digits_value(res.0@, from as nat) > 0),
{
    let mut q: Vec<u32> = Vec::new();
    let mut rem: u64 = 0;
    assert(cur@.subrange(0, 0) =~= Seq::<u32>::empty());
    assert(q@ =~= Seq::<u32>::empty());
    assert(digits_value(cur@.subrange(0, 0), from as nat) == 0);
    assert(digits_value(q@, from as nat) == 0);
    let mut nonzero = false;
    let mut i: usize = 0;
    while i < cur.len()
        invariant
            from >= 2,
            to >= 2,
            digits_below(cur@, from as nat),
            i <= cur.len(),
            q.len() == i,
            rem < to,
            digits_below(q@, from as nat),
            digits_value(cur@.subrange(0, i as int), from as nat) == digits_value(q@, from as nat)
                * to + rem,
            nonzero == (digits_value(q@, from as nat) > 0),
        decreases cur.len() - i,
    {
        let c = cur[i];
        assert(c < from);
        let f = from as u64;
        let t = to as u64;
        assert(rem * f + c < t * f) by (nonlinear_arith)
            requires
                rem < t,
                c < f,
        ;
        assert(t * f <= 0xffff_ffff * 0xffff_ffffu64) by (nonlinear_arith)
            requires
                t <= 0xffff_ffff,
                f <= 0xffff_ffff,
        ;
        let acc: u64 = rem * f + c as u64;
        let qd: u64 = acc / t;
        let r: u64 = acc % t;
        assert(qd < f && acc == qd * t + r) by (nonlinear_arith)
            requires
                acc < t * f,
                t >= 2,
                qd == acc / t,
                r == acc % t,
        ;
        proof {
            let v = digits_value(q@, from as nat);
            assert(cur@.subrange(0, i + 1).drop_last() =~= cur@.subrange(0, i as int));
            lemma_value_push(q@, qd as u32, from as nat);
            assert((v * t + rem) * f + c == (v * f + qd) * t + r) by (nonlinear_arith)
                requires
                    acc == rem * f + c,
                    acc == qd * t + r,
            ;
            assert((v * f + qd > 0) == (v > 0 || qd > 0)) by (nonlinear_arith)
                requires
                    f >= 2,
            ;
        }
        q.push(qd as u32);
        rem = r;
        nonzero = nonzero || qd != 0;
        i = i + 1;
        proof {
            assert forall|j: int| 0 <= j < q@.len() implies (#[trigger] q@[j]) < from by {
                if j < q@.len() - 1 {
                    assert(q@[j] == q@.drop_last()[j]);
                }
            }
        }
    }
    assert(cur@.subrange(0, cur.len() as int) =~= cur@);
    (q, rem as u32, nonzero)
}

/// Re-expresses `digits`, a numeral of base `from_base` (most significant digit
/// first), as the minimal numeral of the same number in base `to_base`.
///
/// Fails with `InvalidRadix` if a base is below 2, and otherwise with
/// `InvalidDigit` if a digit is not below `from_base`.
pub fn convert(digits: &[u32], from_base: u32, to_base: u32) -> (r: Result<Vec<u32>, CodecError>)
    ensures
        match r {
            Ok(out) => from_base >= 2 && to_base >= 2 && digits_below(digits@, from_base as nat)
                && out@ == to_digits(digits_value(digits@, from_base as nat), to_base as nat),
            Err(e) => if from_base < 2 || to_base < 2 {
                e == CodecError::InvalidRadix
            } else {
                e == CodecError::InvalidDigit && !digits_below(digits@, from_base as nat)
            },
        },
{
    if from_base < 2 || to_base < 2 {
        return Err(CodecError::InvalidRadix);
    }
    let mut i: usize = 0;
    while i < digits.len()
        invariant
            from_base >= 2,
            to_base >= 2,
            i <= digits.len(),
            forall|j: int| 0 <= j < i ==> (#[trigger] digits@[j]) < from_base,
        decreases digits.len() - i,
    {
        if digits[i] >= from_base {
            assert(digits@[i as int] >= from_base);
            assert(!digits_below(digits@, from_base as nat));
            return Err(CodecError::InvalidDigit);
        }
        i = i + 1;
    }
    let ghost total = digits_value(digits@, from_base as nat);
    let mut cur: Vec<u32> = vstd::slice::slice_to_vec(digits);
    let mut out: Vec<u32> = Vec::new();
    proof {
        lemma_value_zero(cur@, from_base as nat);
        reveal(pow);
        assert(pow(to_base as int, 0) == 1);
        assert(out@ =~= Seq::<u32>::empty());
        assert(digits_value(cur@, from_base as nat) * 1 == digits_value(cur@, from_base as nat));
    }
    let mut nonzero = false;
    let mut k: usize = 0;
    while k < cur.len()
        invariant
            from_base >= 2,
            to_base >= 2,
            cur@ == digits@,
            digits_below(digits@, from_base as nat),
            total == digits_value(digits@, from_base as nat),
            k <= cur.len(),
            nonzero == exists|j: int| 0 <= j < k && #[trigger] cur@[j] != 0,
        decreases cur.len() - k,
    {
        if cur[k] != 0 {
            nonzero = true;
        }
        k = k + 1;
    }
    assert(nonzero == (digits_value(cur@, from_base as nat) > 0));
    while nonzero
        invariant
            from_base >= 2,
            to_base >= 2,
            digits_below(cur@, from_base as nat),
            digits_below(out@, to_base as nat),
            total == digits_value(cur@, from_base as nat) * pow(to_base as int, out@.len())
                + digits_value(out@, to_base as nat),
            digits_value(cur@, from_base as nat) > 0 || is_canonical(out@),
            nonzero == (digits_value(cur@, from_base as nat) > 0),
        decreases digits_value(cur@, from_base as nat),
    {
        let (q, rem, nz) = divide_digits(&cur, from_base, to_base);
        proof {
            let v = digits_value(cur@, from_base as nat) as int;
            let vq = digits_value(q@, from_base as nat) as int;
            let t = to_base as int;
            let p = pow(t, out@.len());
            reveal(pow);
            lemma_value_prepend(rem, out@, to_base as nat);
            assert(pow(t, (out@.len() + 1) as nat) == t * p);
            assert(vq * (t * p) + (rem * p + digits_value(out@, to_base as nat)) == v * p
                + digits_value(out@, to_base as nat)) by (nonlinear_arith)
                requires
                    v == vq * t + rem,
            ;
            assert(vq < v) by (nonlinear_arith)
                requires
                    v == vq * t + rem,
                    v > 0,
                    t >= 2,
            ;
            assert(seq![rem] + out@ =~= out@.insert(0, rem));
            if vq == 0 {
                assert(v == rem) by (nonlinear_arith)
                    requires
                        v == vq * t + rem,
                        vq == 0,
                ;
            }
            assert forall|j: int| 0 <= j < out@.insert(0, rem).len() implies (#[trigger] out@.insert(
                0,
                rem,
            )[j]) < to_base by {
                if j > 0 {
                    assert(out@.insert(0, rem)[j] == out@[j - 1]);
                }
            }
        }
        out.insert(0, rem);
        cur = q;
        nonzero = nz;
    }
    proof {
        lemma_value_zero(cur@, from_base as nat);
        lemma_canonical_unique(out@, to_base as nat);
    }
    Ok(out)
}

} // verus!
