//! Fixed-point BM25 scoring arithmetic.
//!
//! Scores are integers carrying a 2^32 fixed-point scale so that the whole
//! ranking computation is exact integer arithmetic.  The natural logarithm
//! in the IDF factor is approximated deterministically: the base-2 logarithm
//! of the rational argument is computed to 32 fractional bits by repeated
//! squaring of the mantissa, then rescaled by ln(2) * 2^32.  The tuning
//! constants `k1` and `b` are supplied in thousandths (1200 stands for 1.2).

use vstd::prelude::*;
use vstd::arithmetic::div_mod::lemma_div_is_ordered;
use vstd::arithmetic::div_mod::lemma_div_multiples_vanish;
use vstd::arithmetic::div_mod::lemma_multiply_divide_le;
use vstd::arithmetic::div_mod::lemma_multiply_divide_lt;
use vstd::arithmetic::power2::lemma2_to64;
use vstd::arithmetic::power2::lemma2_to64_rest;
use vstd::arithmetic::power2::lemma_pow2_adds;
use vstd::arithmetic::power2::lemma_pow2_strictly_increases;
use vstd::arithmetic::power2::lemma_pow2_unfold;
use vstd::arithmetic::power2::pow2;

verus! {

/// The final denominator after doubling `den` as often as possible while
/// staying at most `num`; `num / scaled_den(num, den)` lies in [1, 2).
pub open spec fn scaled_den(num: int, den: int) -> int
    decreases num - den when 0 < den <= num
{
    if 2 * den <= num {
        scaled_den(num, 2 * den)
    } else {
        den
    }
}

/// How many times `den` doubles while staying at most `num`: the integer
/// part of the base-2 logarithm of `num / den`.
pub open spec fn doublings(num: int, den: int) -> int
    decreases num - den when 0 < den <= num
{
    if 2 * den <= num {
        1 + doublings(num, 2 * den)
    } else {
        0
    }
}

/// `j` rounds of mantissa squaring, accumulating one fractional bit of the
/// base-2 logarithm per round into `acc`.
pub open spec fn frac_acc(m: int, j: nat, acc: int) -> int
    decreases j,
{
    if j == 0 {
        acc
    } else {
        let m2 = (m * m) / 4294967296;
        if m2 >= 8589934592 {
            frac_acc(m2 / 2, (j - 1) as nat, 2 * acc + 1)
        } else {
            frac_acc(m2, (j - 1) as nat, 2 * acc)
        }
    }
}

/// The fixed-point natural logarithm of `num / den` at scale 2^32: the
/// base-2 logarithm (integer part from `doublings`, 32 fractional bits from
/// `frac_acc`) multiplied by ln(2) * 2^32 = 2977044471.
pub open spec fn ln_fixed_spec(num: int, den: int) -> int {
    let e = doublings(num, den);
    let m0 = (num * 4294967296) / scaled_den(num, den);
    ((e * 4294967296 + frac_acc(m0, 32, 0)) * 2977044471) / 4294967296
}

proof fn lemma_pow2_96()
    ensures
        pow2(96) == 0x1000000000000000000000000,
{
    lemma2_to64();
    lemma2_to64_rest();
    lemma_pow2_adds(64, 32);
}

proof fn lemma_exp_bound(e: nat)
    requires
        pow2(e) < 0x1000000000000000000000000,
    ensures
        e < 96,
{
    lemma_pow2_96();
    if e > 96 {
        lemma_pow2_strictly_increases(96, e);
    }
}

/// Computes `ln_fixed_spec(num, den)` exactly.
pub(crate) fn ln_fixed(num: u128, den: u128) -> (r: u64)
    requires
        1 <= den <= num,
        num < 0x1000000000000000000000000,
    ensures
        r as int == ln_fixed_spec(num as int, den as int),
        r < 0x8000000000,
{
    let ghost numi = num as int;
    let ghost deni = den as int;
    let mut d: u128 = den;
    let mut e: u64 = 0;
    proof {
        lemma2_to64();
    }
    while num >= 2 * d
        invariant
            numi == num as int,
            deni == den as int,
            1 <= d <= num < 0x1000000000000000000000000,
            doublings(numi, deni) == e + doublings(numi, d as int),
            scaled_den(numi, deni) == scaled_den(numi, d as int),
            pow2(e as nat) <= d,
        decreases num - d,
    {
        proof {
            lemma_exp_bound(e as nat);
            lemma_pow2_unfold((e + 1) as nat);
            let dd = d as int;
            assert(0 < dd <= numi);
            assert(2 * dd <= numi);
            reveal_with_fuel(doublings, 2);
            reveal_with_fuel(scaled_den, 2);
            assert(doublings(numi, dd) == 1 + doublings(numi, 2 * dd));
            assert(scaled_den(numi, dd) == scaled_den(numi, 2 * dd));
        }
        d = 2 * d;
        e = e + 1;
    }
    proof {
        lemma_exp_bound(e as nat);
        assert(doublings(numi, d as int) == 0);
        assert(scaled_den(numi, d as int) == d as int);
    }
    let m0: u128 = (num * 4294967296) / d;
    proof {
        assert(numi * 4294967296 >= deni * 4294967296) by (nonlinear_arith)
            requires
                numi >= deni >= 1,
        ;
        lemma_div_is_ordered(d as int * 4294967296, numi * 4294967296, d as int);
        lemma_div_multiples_vanish(4294967296, d as int);
        assert(d as int * 4294967296 == 4294967296 * d as int);
        assert(m0 >= 4294967296);
        assert(numi * 4294967296 < (d as int) * 2 * 4294967296) by (nonlinear_arith)
            requires
                numi < 2 * (d as int),
        ;
        assert((d as int) * 2 * 4294967296 == (d as int) * 8589934592) by (nonlinear_arith);
        lemma_multiply_divide_lt(numi * 4294967296, d as int, 8589934592);
        assert(m0 < 8589934592);
    }
    let ghost m0i = m0 as int;
    let mut m: u128 = m0;
    let mut acc: u64 = 0;
    let mut i: u64 = 0;
    while i < 32
        invariant
            m0i == m0 as int,
            4294967296 <= m < 8589934592,
            0 <= i <= 32,
            acc < pow2(i as nat),
            frac_acc(m0i, 32, 0) == frac_acc(m as int, (32 - i) as nat, acc as int),
        decreases 32 - i,
    {
        proof {
            lemma2_to64();
            lemma_pow2_unfold((i + 1) as nat);
            if i < 31 {
                lemma_pow2_strictly_increases(i as nat, 31);
            }
            assert(acc < 0x80000000);
            assert((m as int) * (m as int) >= 4294967296 * 4294967296) by (nonlinear_arith)
                requires
                    m >= 4294967296,
            ;
            assert((m as int) * (m as int) < 8589934592 * 8589934592) by (nonlinear_arith)
                requires
                    m < 8589934592,
            ;
            lemma_div_is_ordered(
                (4294967296 as int) * 4294967296,
                (m as int) * (m as int),
                4294967296,
            );
            lemma_div_multiples_vanish(4294967296, 4294967296);
            lemma_multiply_divide_lt(
                (m as int) * (m as int),
                4294967296,
                17179869184,
            );
        }
        let m2: u128 = (m * m) / 4294967296;
        assert(4294967296 <= m2 < 17179869184);
        if m2 >= 8589934592 {
            m = m2 / 2;
            acc = 2 * acc + 1;
        } else {
            m = m2;
            acc = 2 * acc;
        }
        i = i + 1;
    }
    proof {
        lemma2_to64();
        lemma2_to64_rest();
        assert(acc < pow2(32));
    }
    let lg: u128 = (e as u128) * 4294967296 + (acc as u128);
    proof {
        assert(e < 96);
        assert(lg < 416611827712);
        assert(lg as int * 2977044471 < 416611827712 * 2977044471);
        lemma_multiply_divide_lt(lg as int * 2977044471, 4294967296, 0x8000000000);
    }
    let r: u128 = (lg * 2977044471) / 4294967296;
    proof {
        assert(frac_acc(m0i, 32, 0) == acc as int);
        assert(doublings(numi, deni) == e as int);
        assert(scaled_den(numi, deni) == d as int);
        assert(lg as int == doublings(numi, deni) * 4294967296 + frac_acc(m0i, 32, 0));
    }
    r as u64
}

/// The fixed-point IDF factor at scale 2^32: the smoothed inverse document
/// frequency `ln((n - df + 0.5) / (df + 0.5) + 1)`, whose argument equals
/// the rational `(2n + 2) / (2df + 1)`.
pub open spec fn idf_fixed(n_docs: int, df: int) -> int {
    ln_fixed_spec(2 * n_docs + 2, 2 * df + 1)
}

/// The fixed-point length-normalized term-frequency factor at scale 2^16:
/// `f * (k1 + 1) / (f + k1 * (1 - b + b * doc_len / avg_len))` with
/// `avg_len = sum_len / n_docs`, all carried out in integer arithmetic over
/// thousandths of `k1` and `b`.
pub open spec fn tf_norm_fixed(
    f: int,
    doc_len: int,
    n_docs: int,
    sum_len: int,
    k1_milli: int,
    b_milli: int,
) -> int {
    let a = doc_len * n_docs;
    let z = if sum_len <= 0xffffffffffffffff {
        b_milli * ((a / sum_len) * 65536 + ((a % sum_len) * 65536) / sum_len)
    } else {
        b_milli * ((a / sum_len) * 65536)
    };
    let den = f * 65536000000 + k1_milli * ((1000 - b_milli) * 65536 + z);
    let num = f * (k1_milli + 1000) * 4294967296000;
    num / den
}

/// One query term's score contribution at scale 2^32: zero when the term
/// does not occur in the document, else IDF times normalized TF.
pub open spec fn contribution_fixed(
    f: int,
    df: int,
    doc_len: int,
    n_docs: int,
    sum_len: int,
    k1_milli: int,
    b_milli: int,
) -> int {
    if f <= 0 {
        0
    } else {
        (idf_fixed(n_docs, df) * tf_norm_fixed(f, doc_len, n_docs, sum_len, k1_milli, b_milli))
            / 65536
    }
}

/// Computes `contribution_fixed` exactly for a term that occurs in the
/// document.
pub(crate) fn contribution(
    f: usize,
    df: usize,
    doc_len: usize,
    n_docs: usize,
    sum_len: u128,
    k1_milli: u64,
    b_milli: u64,
) -> (r: u128)
    requires
        1 <= f <= doc_len,
        doc_len as int <= sum_len as int,
        df <= n_docs,
        k1_milli <= 1000000,
        b_milli <= 1000,
    ensures
        r as int == contribution_fixed(
            f as int,
            df as int,
            doc_len as int,
            n_docs as int,
            sum_len as int,
            k1_milli as int,
            b_milli as int,
        ),
        r < 0x2000000000000,
{
    let idf: u64 = ln_fixed(2 * (n_docs as u128) + 2, 2 * (df as u128) + 1);
    let fi = f as u128;
    let di = doc_len as u128;
    let ni = n_docs as u128;
    proof {
        assert(di * ni <= 0xffffffffffffffff * 0xffffffffffffffff) by (nonlinear_arith)
            requires
                di <= 0xffffffffffffffff,
                ni <= 0xffffffffffffffff,
        ;
    }
    let a: u128 = di * ni;
    proof {
        assert(a as int <= (sum_len as int) * (ni as int)) by (nonlinear_arith)
            requires
                di as int <= sum_len as int,
                a as int == di as int * ni as int,
        ;
        lemma_multiply_divide_le(a as int, sum_len as int, ni as int);
    }
    let q: u128 = a / sum_len;
    assert(q <= ni);
    let z: u128 = if sum_len <= 0xffffffffffffffff {
        let rem: u128 = a % sum_len;
        proof {
            assert(rem < sum_len);
            assert((rem as int) * 65536 < (sum_len as int) * 65536) by (nonlinear_arith)
                requires
                    rem < sum_len,
            ;
            lemma_multiply_divide_lt((rem as int) * 65536, sum_len as int, 65536);
            assert((b_milli as int) * ((q as int) * 65536 + ((rem as int) * 65536) / (
            sum_len as int)) <= 1000 * (0xffffffffffffffff * 65536 + 65536)) by (nonlinear_arith)
                requires
                    b_milli <= 1000,
                    q <= 0xffffffffffffffff,
                    0 <= ((rem as int) * 65536) / (sum_len as int) < 65536,
                    0 <= q,
            ;
        }
        (b_milli as u128) * (q * 65536 + (rem * 65536) / sum_len)
    } else {
        proof {
            assert((b_milli as int) * ((q as int) * 65536) <= 1000 * (0xffffffffffffffff * 65536))
                by (nonlinear_arith)
                requires
                    b_milli <= 1000,
                    0 <= q <= 0xffffffffffffffff,
            ;
        }
        (b_milli as u128) * (q * 65536)
    };
    assert(z <= 1000 * (0xffffffffffffffff * 65536 + 65536));
    proof {
        assert((k1_milli as int) * (((1000 - b_milli) as int) * 65536 + z as int) <= 1000000 * (
        1000 * 65536 + 1000 * (0xffffffffffffffff * 65536 + 65536))) by (nonlinear_arith)
            requires
                k1_milli <= 1000000,
                b_milli <= 1000,
                0 <= z as int <= 1000 * (0xffffffffffffffff * 65536 + 65536),
        ;
    }
    let den: u128 = fi * 65536000000 + (k1_milli as u128) * ((1000 - b_milli) as u128 * 65536 + z);
    proof {
        assert(fi as int * ((k1_milli as int) + 1000) * 4294967296000 <= 0xffffffffffffffff
            * 1001000 * 4294967296000) by (nonlinear_arith)
            requires
                1 <= fi <= 0xffffffffffffffff,
                k1_milli <= 1000000,
        ;
    }
    let num: u128 = fi * ((k1_milli as u128) + 1000) * 4294967296000;
    proof {
        assert(num as int <= fi as int * 1001000 * 4294967296000) by (nonlinear_arith)
            requires
                k1_milli <= 1000000,
                num as int == fi as int * ((k1_milli as int) + 1000) * 4294967296000,
                fi >= 1,
        ;
        assert(fi as int * 1001000 * 4294967296000 == 65601536 * (fi as int * 65536000000))
            by (nonlinear_arith);
        assert(den as int >= fi as int * 65536000000);
        assert(num as int <= 65601536 * (den as int)) by (nonlinear_arith)
            requires
                num as int <= 65601536 * (fi as int * 65536000000),
                den as int >= fi as int * 65536000000,
        ;
        lemma_multiply_divide_le(num as int, den as int, 65601536);
    }
    let tf_fixed: u128 = num / den;
    assert(tf_fixed <= 65601536);
    proof {
        assert((idf as int) * (tf_fixed as int) < 0x8000000000 * 65601537) by (nonlinear_arith)
            requires
                idf < 0x8000000000,
                0 <= tf_fixed <= 65601536,
        ;
        lemma_multiply_divide_lt((idf as int) * (tf_fixed as int), 65536, 0x2000000000000);
    }
    let c: u128 = ((idf as u128) * tf_fixed) / 65536;
    assert(c < 0x2000000000000);
    c
}

} // verus!
