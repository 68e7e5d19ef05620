//! Exact integer model of the binary64 arithmetic behind the speed labels.
//!
//! A speed label divides an integer bit rate by a power of ten in binary64 and
//! prints the quotient with a fixed number of decimals. Both steps round to
//! nearest with ties to even: the conversion and the division round to 53
//! significant bits, and the printing rounds the exact binary value of the
//! quotient to the requested number of decimals. Everything here works on
//! unbounded integers in the specification and on `u128` in the code.
use vstd::arithmetic::div_mod::{lemma_fundamental_div_mod, lemma_div_is_ordered_by_denominator};
use vstd::arithmetic::power2::{
    lemma2_to64, lemma2_to64_rest, lemma_pow2_adds, lemma_pow2_pos, lemma_pow2_strictly_increases, lemma_pow2_unfold,
    pow2,
};
use vstd::prelude::*;

verus! {

/// The number of binary digits of `n` (zero has none).
pub open spec fn bit_len(n: nat) -> nat
    decreases n,
{
    if n == 0 {
        0
    } else {
        1 + bit_len(n / 2)
    }
}

/// `n / d` rounded to the nearest integer, ties to the even neighbour.
pub open spec fn round_half_even(n: nat, d: nat) -> nat
    recommends
        d > 0,
{
    let q = n / d;
    let r = n % d;
    if 2 * r > d || (2 * r == d && q % 2 == 1) {
        q + 1
    } else {
        q
    }
}

/// The integer value of `b as f64`: `b` rounded to 53 significant bits, ties to even.
pub open spec fn f64_of_int(b: nat) -> nat {
    if bit_len(b) <= 53 {
        b
    } else {
        let p = pow2((bit_len(b) - 53) as nat);
        round_half_even(b, p) * p
    }
}

/// For `n >= d > 0`, the binary64 quotient of `n` by `d` is `m * 2^k` with
/// `k = bit_len(n / d) - 53` and `m` the quotient of `n` by `d * 2^k` rounded to
/// nearest, ties to even. This is that value times `scale`, rounded to an
/// integer, ties to even: the digits that fixed-point printing of the quotient
/// with `log10(scale)` decimals shows.
pub open spec fn quotient_digits(n: nat, d: nat, scale: nat) -> nat {
    let len = bit_len(n / d);
    if len >= 53 {
        let p = pow2((len - 53) as nat);
        round_half_even(n, d * p) * p * scale
    } else {
        let p = pow2((53 - len) as nat);
        round_half_even(round_half_even(n * p, d) * scale, p)
    }
}

/// The digits (decimal point left out) that `format!("{:.k}", b as f64 / d as f64)`
/// prints, where `scale == 10^k`.
pub open spec fn float_fixed_digits(b: nat, d: nat, scale: nat) -> nat {
    quotient_digits(f64_of_int(b), d, scale)
}

pub proof fn lemma_pow2_64_128()
    ensures
        pow2(64) == 0x1_0000_0000_0000_0000,
        pow2(128) == 0x1_0000_0000_0000_0000_0000_0000_0000_0000,
{
    lemma2_to64();
    lemma_pow2_adds(64, 64);
}

/// A number below `2^e` has at most `e` binary digits.
pub proof fn lemma_bit_len_upper(n: nat, e: nat)
    requires
        n < pow2(e),
    ensures
        bit_len(n) <= e,
    decreases e,
{
    if n > 0 {
        if e == 0 {
            assert(pow2(0) == 1) by { lemma2_to64(); }
        } else {
            lemma_pow2_unfold(e);
            lemma_bit_len_upper(n / 2, (e - 1) as nat);
        }
    }
}

/// A number at least `2^e` has more than `e` binary digits.
pub proof fn lemma_bit_len_lower(n: nat, e: nat)
    requires
        n >= pow2(e),
    ensures
        bit_len(n) > e,
    decreases e,
{
    lemma_pow2_pos(e);
    if e > 0 {
        lemma_pow2_unfold(e);
        lemma_bit_len_lower(n / 2, (e - 1) as nat);
    }
}

/// Bounds of a half-even rounding by its floor.
pub proof fn lemma_round_half_even_bounds(n: nat, d: nat)
    requires
        d > 0,
    ensures
        n / d <= round_half_even(n, d) <= n / d + 1,
        round_half_even(n, d) <= n + 1,
        round_half_even(n, d) * d <= n + d,
{
    lemma_fundamental_div_mod(n as int, d as int);
    lemma_div_is_ordered_by_denominator(n as int, 1, d as int);
    let q = n / d;
    assert((q + 1) * d == q * d + d) by (nonlinear_arith);
    assert(q * d <= n) by (nonlinear_arith)
        requires
            n == d * q + n % d,
            n % d >= 0,
    ;
    assert(round_half_even(n, d) * d <= (q + 1) * d) by (nonlinear_arith)
        requires
            round_half_even(n, d) <= q + 1,
    ;
}

/// `bit_len(n)`.
pub fn bit_len_u128(n: u128) -> (r: u32)
    ensures
        r == bit_len(n as nat),
        r <= 128,
{
    proof {
        lemma_pow2_64_128();
        lemma_bit_len_upper(n as nat, 128);
    }
    let mut x = n;
    let mut r: u32 = 0;
    while x > 0
        invariant
            r + bit_len(x as nat) == bit_len(n as nat),
            bit_len(n as nat) <= 128,
        decreases x,
    {
        x = x / 2;
        r = r + 1;
    }
    r
}

/// `2^e`.
pub fn pow2_u128(e: u32) -> (r: u128)
    requires
        e < 128,
    ensures
        r == pow2(e as nat),
{
    proof {
        lemma_pow2_64_128();
    }
    let mut r: u128 = 1;
    let mut i: u32 = 0;
    proof {
        lemma2_to64();
    }
    while i < e
        invariant
            i <= e < 128,
            r == pow2(i as nat),
            pow2(128) == 0x1_0000_0000_0000_0000_0000_0000_0000_0000,
        decreases e - i,
    {
        proof {
            lemma_pow2_unfold((i + 1) as nat);
            lemma_pow2_strictly_increases((i + 1) as nat, 128);
        }
        r = r * 2;
        i = i + 1;
    }
    r
}

/// `round_half_even(n, d)`.
pub fn round_half_even_u128(n: u128, d: u128) -> (r: u128)
    requires
        d > 0,
        n < u128::MAX,
    ensures
        r == round_half_even(n as nat, d as nat),
{
    proof {
        lemma_div_is_ordered_by_denominator(n as int, 1, d as int);
    }
    let q = n / d;
    let rem = n % d;
    if rem > d - rem || (rem == d - rem && q % 2 == 1) {
        q + 1
    } else {
        q
    }
}

/// `f64_of_int(b)`: the value of `b as f64`.
pub fn f64_of_u64(b: u64) -> (r: u128)
    ensures
        r == f64_of_int(b as nat),
        r <= 0x1_0000_0000_0000_0800,
{
    proof {
        lemma2_to64();
        lemma2_to64_rest();
    }
    if b < 0x20_0000_0000_0000 {
        proof {
            lemma_bit_len_upper(b as nat, 53);
        }
        b as u128
    } else {
        proof {
            lemma_bit_len_lower(b as nat, 53);
            lemma_bit_len_upper(b as nat, 64);
        }
        let len = bit_len_u128(b as u128);
        let p = pow2_u128(len - 53);
        proof {
            lemma_pow2_strictly_increases((len - 53) as nat, 12);
        }
        let m = round_half_even_u128(b as u128, p);
        proof {
            lemma_round_half_even_bounds(b as nat, p as nat);
        }
        m * p
    }
}

/// `float_fixed_digits(b, d, scale)`: the digits of `b as f64 / d as f64`
/// printed with `log10(scale)` decimals.
pub fn fixed_digits(b: u64, d: u128, scale: u128) -> (r: u128)
    requires
        1 <= d <= 1_000_000_000,
        1 <= scale <= 10,
    ensures
        r == float_fixed_digits(b as nat, d as nat, scale as nat),
{
    let n = f64_of_u64(b);
    let t = n / d;
    proof {
        lemma2_to64();
        lemma2_to64_rest();
        lemma_div_is_ordered_by_denominator(n as int, 1, d as int);
        lemma_pow2_strictly_increases(64, 65);
        lemma_pow2_unfold(65);
        lemma_bit_len_upper(t as nat, 65);
    }
    let len = bit_len_u128(t);
    if len >= 53 {
        let k = len - 53;
        let p = pow2_u128(k);
        proof {
            lemma_pow2_strictly_increases(k as nat, 13);
            lemma_pow2_unfold(13);
            assert(d * p <= 1_000_000_000 * 4096) by (nonlinear_arith)
                requires
                    d <= 1_000_000_000,
                    p <= 4096,
            ;
            lemma_pow2_pos(k as nat);
            assert(d * p >= 1) by (nonlinear_arith)
                requires
                    d >= 1,
                    p >= 1,
            ;
        }
        let m = round_half_even_u128(n, d * p);
        proof {
            lemma_round_half_even_bounds(n as nat, (d * p) as nat);
            assert(m * p <= (0x1_0000_0000_0000_0801u128 as int) * 4096) by (nonlinear_arith)
                requires
                    m <= 0x1_0000_0000_0000_0801u128,
                    p <= 4096,
            ;
            assert(m * p * scale <= (0x1_0000_0000_0000_0801u128 as int) * 4096 * 10) by (nonlinear_arith)
                requires
                    m <= 0x1_0000_0000_0000_0801u128,
                    p <= 4096,
                    scale <= 10,
            ;
        }
        m * p * scale
    } else {
        let j = 53 - len;
        let p = pow2_u128(j);
        proof {
            if j < 53 {
                lemma_pow2_strictly_increases(j as nat, 53);
            }
            assert(n * p < 0x40_0000_0000_0000_0000_0000_0000_0000) by (nonlinear_arith)
                requires
                    n < 0x2_0000_0000_0000_0000u128,
                    p <= 0x20_0000_0000_0000u128,
            ;
            lemma_pow2_pos(j as nat);
        }
        let np = n * p;
        let m = round_half_even_u128(np, d);
        proof {
            lemma_round_half_even_bounds(np as nat, d as nat);
            assert(m * scale <= 0x40_0000_0000_0000_0000_0000_0000_0001 * 10) by (nonlinear_arith)
                requires
                    m <= 0x40_0000_0000_0000_0000_0000_0000_0001u128,
                    scale <= 10,
            ;
        }
        round_half_even_u128(m * scale, p)
    }
}

/// Whether `n / d >= 2^e`, compared without fractions.
pub open spec fn scaled_at_least(n: nat, d: nat, e: int) -> bool {
    if e >= 0 {
        n >= d * pow2(e as nat)
    } else {
        n * pow2((-e) as nat) >= d
    }
}

/// `floor(log2(n / d))` for `n, d > 0`: the difference of the bit lengths, or
/// one less.
pub open spec fn log2_floor(n: nat, d: nat) -> int {
    let b = bit_len(n) - bit_len(d);
    if scaled_at_least(n, d, b) {
        b
    } else {
        b - 1
    }
}

/// The exponent `k` of the binary64 value nearest to `n / d`, written `m * 2^k`
/// with `2^52 <= m <= 2^53`.
pub open spec fn nearest_exponent(n: nat, d: nat) -> int {
    log2_floor(n, d) - 52
}

/// The mantissa `m` of the binary64 value nearest to `n / d` (ties to even).
pub open spec fn nearest_mantissa(n: nat, d: nat) -> nat {
    let k = nearest_exponent(n, d);
    if k >= 0 {
        round_half_even(n, d * pow2(k as nat))
    } else {
        round_half_even(n * pow2((-k) as nat), d)
    }
}

/// The integer part of the binary64 value nearest to `n / d`, as `as u64`
/// would take it before saturating.
pub open spec fn nearest_quotient_floor(n: nat, d: nat) -> nat {
    if n == 0 {
        0
    } else {
        let k = nearest_exponent(n, d);
        let m = nearest_mantissa(n, d);
        if k >= 0 {
            m * pow2(k as nat)
        } else {
            m / pow2((-k) as nat)
        }
    }
}

/// A positive number lies between the powers of two its bit length gives.
pub proof fn lemma_bit_len_bounds(n: nat)
    requires
        n > 0,
    ensures
        bit_len(n) >= 1,
        pow2((bit_len(n) - 1) as nat) <= n < pow2(bit_len(n)),
    decreases n,
{
    lemma2_to64();
    let h = n / 2;
    assert(bit_len(n) == 1 + bit_len(h));
    if n > 1 {
        lemma_bit_len_bounds(h);
        let bh = bit_len(h);
        lemma_pow2_unfold(bh);
        lemma_pow2_unfold(bh + 1);
        assert(bit_len(n) == bh + 1);
    } else {
        assert(bit_len(0) == 0);
    }
}

/// The quotient lies between `2^L` and `2^(L+1)` for `L = log2_floor(n, d)`,
/// each side scaled by the powers of two that keep it whole.
pub proof fn lemma_log2_floor(n: nat, d: nat)
    requires
        n > 0,
        d > 0,
    ensures
        ({
            let l = log2_floor(n, d);
            let a = if l >= 0 { n } else { n * pow2((-l) as nat) };
            let b = if l >= 0 { d * pow2(l as nat) } else { d };
            b <= a < 2 * b
        }),
{
    lemma2_to64();
    lemma_bit_len_bounds(n);
    lemma_bit_len_bounds(d);
    let bn = bit_len(n);
    let bd = bit_len(d);
    let pn = pow2((bn - 1) as nat);
    let pd = pow2((bd - 1) as nat);
    lemma_pow2_unfold(bn);
    lemma_pow2_unfold(bd);
    assert(pow2(bn) == 2 * pn);
    assert(pow2(bd) == 2 * pd);
    let b = bn - bd;
    if b >= 0 {
        let e = b as nat;
        let pe = pow2(e);
        lemma_pow2_pos(e);
        lemma_pow2_adds(e, (bd - 1) as nat);
        assert(pe * pd == pn);
        if scaled_at_least(n, d, b) {
            assert(n < 2 * (d * pe)) by (nonlinear_arith)
                requires
                    n < 2 * pn,
                    pe * pd == pn,
                    pd <= d,
            ;
        } else if e >= 1 {
            let pe1 = pow2((e - 1) as nat);
            lemma_pow2_unfold(e);
            lemma_pow2_pos((e - 1) as nat);
            assert(pe == 2 * pe1);
            assert(d * pe1 <= n) by (nonlinear_arith)
                requires
                    d < 2 * pd,
                    pe == 2 * pe1,
                    pe * pd == pn,
                    pn <= n,
                    pe1 > 0,
            ;
            assert(n < 2 * (d * pe1)) by (nonlinear_arith)
                requires
                    n < d * pe,
                    pe == 2 * pe1,
            ;
        } else {
            assert(b == 0);
            assert(pow2(0) == 1);
            assert(d * pow2(0) == d);
            assert(!(n >= d * pow2(0)));
            assert(n < d);
            assert(log2_floor(n, d) == -1);
            assert(pow2(1) == 2);
            assert(d <= n * 2);
        }
    } else {
        let e = (-b) as nat;
        let pe = pow2(e);
        lemma_pow2_pos(e);
        lemma_pow2_adds(e, (bn - 1) as nat);
        assert(pe * pn == pd);
        if scaled_at_least(n, d, b) {
            assert(n * pe < 2 * d) by (nonlinear_arith)
                requires
                    n < 2 * pn,
                    pe * pn == pd,
                    pd <= d,
                    pe > 0,
            ;
        } else {
            lemma_pow2_unfold(e + 1);
            assert(pow2(e + 1) == 2 * pe);
            assert(n * pow2(e + 1) == 2 * (n * pe)) by (nonlinear_arith)
                requires
                    pow2(e + 1) == 2 * pe,
            ;
            assert(d <= 2 * (n * pe)) by (nonlinear_arith)
                requires
                    d < 2 * pd,
                    pe * pn == pd,
                    pn <= n,
                    pe > 0,
            ;
        }
    }
}

/// `n < 2 d 2^l` and `2^l 2^j = 2^52` give `n 2^j < d 2^53`.
proof fn lemma_scale_bound(n: nat, d: nat, pl: nat, pj: nat)
    requires
        n < 2 * (d * pl),
        pl * pj == pow2(52),
        pj > 0,
    ensures
        n * pj < d * pow2(53),
{
    lemma2_to64();
    lemma2_to64_rest();
    assert(n * pj < (2 * (d * pl)) * pj) by (nonlinear_arith)
        requires
            n < 2 * (d * pl),
            pj > 0,
    ;
    assert((2 * (d * pl)) * pj == 2 * d * (pl * pj)) by (nonlinear_arith);
    assert(2 * d * pow2(52) == d * pow2(53)) by (nonlinear_arith)
        requires
            pow2(53) == 2 * pow2(52),
    ;
}

/// `n 2^nl < 2 d` and `2^j = 2^nl 2^52` give `n 2^j < d 2^53`.
proof fn lemma_scale_bound_neg(n: nat, d: nat, pnl: nat, pj: nat)
    requires
        n * pnl < 2 * d,
        pj == pnl * pow2(52),
    ensures
        n * pj < d * pow2(53),
{
    lemma2_to64();
    lemma2_to64_rest();
    assert(n * pj == (n * pnl) * pow2(52)) by (nonlinear_arith)
        requires
            pj == pnl * pow2(52),
    ;
    assert((n * pnl) * pow2(52) < (2 * d) * pow2(52)) by (nonlinear_arith)
        requires
            n * pnl < 2 * d,
            pow2(52) > 0,
    ;
    assert(2 * d * pow2(52) == d * pow2(53)) by (nonlinear_arith)
        requires
            pow2(53) == 2 * pow2(52),
    ;
}

/// The binary64 value nearest to a quotient has a mantissa of at most 53 bits.
pub proof fn lemma_nearest_mantissa_bound(n: nat, d: nat)
    requires
        n > 0,
        d > 0,
    ensures
        nearest_mantissa(n, d) <= pow2(53),
{
    lemma_log2_floor(n, d);
    lemma2_to64();
    lemma2_to64_rest();
    let l = log2_floor(n, d);
    let k = l - 52;
    if k >= 0 {
        let pk = pow2(k as nat);
        lemma_pow2_adds(k as nat, 52);
        lemma_pow2_pos(k as nat);
        assert(pow2(l as nat) == pk * pow2(52));
        let dd = d * pk;
        assert(d * pow2(l as nat) == dd * pow2(52)) by (nonlinear_arith)
            requires
                pow2(l as nat) == pk * pow2(52),
                dd == d * pk,
        ;
        assert(n < dd * pow2(53));
        assert(dd > 0) by (nonlinear_arith)
            requires
                d > 0,
                pk > 0,
                dd == d * pk,
        ;
        assert(n / dd < pow2(53)) by (nonlinear_arith)
            requires
                n < dd * pow2(53),
                dd > 0,
        ;
        lemma_round_half_even_bounds(n, dd);
    } else {
        let j = (-k) as nat;
        let pj = pow2(j);
        lemma_pow2_pos(j);
        if l >= 0 {
            lemma_pow2_adds(l as nat, j);
            assert(l + j == 52);
            lemma_scale_bound(n, d, pow2(l as nat), pj);
        } else {
            let nl = (-l) as nat;
            lemma_pow2_adds(nl, 52);
            assert(j == nl + 52);
            lemma_scale_bound_neg(n, d, pow2(nl), pj);
        }
        assert((n * pj) / d < pow2(53)) by (nonlinear_arith)
            requires
                n * pj < d * pow2(53),
                d > 0,
        ;
        lemma_round_half_even_bounds(n * pj, d);
    }
}

/// A quotient below one half has a nearest binary64 value below one.
pub proof fn lemma_small_quotient_floor(n: nat, d: nat)
    requires
        n > 0,
        2 * n < d,
    ensures
        nearest_quotient_floor(n, d) == 0,
{
    lemma_log2_floor(n, d);
    lemma_nearest_mantissa_bound(n, d);
    lemma2_to64();
    lemma2_to64_rest();
    let l = log2_floor(n, d);
    if l >= 0 {
        lemma_pow2_pos(l as nat);
        assert(d <= d * pow2(l as nat)) by (nonlinear_arith)
            requires
                pow2(l as nat) >= 1,
        ;
    }
    if l >= 0 {
        assert(d * pow2(l as nat) <= n);
        assert(false);
    }
    if l == -1 {
        assert(pow2(1) == 2);
        assert((-l) as nat == 1);
        assert(d <= n * pow2(1));
        assert(false);
    }
    assert(l <= -2);
    let j = (52 - l) as nat;
    lemma_pow2_strictly_increases(53, j);
    let m = nearest_mantissa(n, d);
    assert(m / pow2(j) == 0) by (nonlinear_arith)
        requires
            m <= pow2(53),
            pow2(53) < pow2(j),
    ;
}

/// `nearest_quotient_floor(n, d)`.
pub fn nearest_quotient_floor_u128(n: u128, d: u128) -> (r: u128)
    requires
        n <= 0x40_0000_0000_0000_0000_0000_0000_0000,
        1 <= d <= 0x4_0000_0000_0000_0000,
    ensures
        r == nearest_quotient_floor(n as nat, d as nat),
{
    if n == 0 {
        return 0;
    }
    proof {
        lemma2_to64();
        lemma2_to64_rest();
        lemma_pow2_64_128();
        lemma_bit_len_bounds(n as nat);
        lemma_bit_len_bounds(d as nat);
        lemma_log2_floor(n as nat, d as nat);
        lemma_nearest_mantissa_bound(n as nat, d as nat);
        lemma_pow2_adds(54, 64);
        lemma_pow2_adds(4, 64);
        lemma_pow2_adds(64, 55);
        lemma_pow2_adds(64, 3);
        lemma_bit_len_upper(n as nat, 119);
        lemma_bit_len_upper(d as nat, 67);
    }
    let bn = bit_len_u128(n);
    let bd = bit_len_u128(d);
    let l: i32 = if bn >= bd {
        let e = bn - bd;
        let p = pow2_u128(e);
        proof {
            lemma_pow2_pos(e as nat);
            lemma_pow2_adds(e as nat, bd as nat);
            assert(d * p < pow2(bd as nat) * p) by (nonlinear_arith)
                requires
                    d < pow2(bd as nat),
                    p > 0,
            ;
            lemma_pow2_strictly_increases(bn as nat, 128);
        }
        if n >= d * p { e as i32 } else { e as i32 - 1 }
    } else {
        let e = bd - bn;
        let p = pow2_u128(e);
        proof {
            lemma_pow2_pos(e as nat);
            lemma_pow2_adds(e as nat, bn as nat);
            assert(n * p < pow2(bn as nat) * p) by (nonlinear_arith)
                requires
                    n < pow2(bn as nat),
                    p > 0,
            ;
            lemma_pow2_strictly_increases(bd as nat, 128);
        }
        if n * p >= d { -(e as i32) } else { -(e as i32) - 1 }
    };
    assert(l == log2_floor(n as nat, d as nat));
    let k = l - 52;
    let m_bound: u128 = 0x20_0000_0000_0000;
    if k >= 0 {
        let p = pow2_u128(k as u32);
        proof {
            lemma_pow2_adds(k as nat, 52);
            lemma_pow2_pos(k as nat);
            assert(d * p * pow2(52) <= n) by (nonlinear_arith)
                requires
                    d * pow2(l as nat) <= n,
                    pow2(l as nat) == p * pow2(52),
            ;
            assert(d * p >= 1) by (nonlinear_arith)
                requires
                    d >= 1,
                    p >= 1,
            ;
            lemma_pow2_strictly_increases(k as nat, 68);
            lemma_pow2_adds(53, 68);
            lemma_pow2_strictly_increases(121, 128);
            assert(m_bound * p <= pow2(53) * pow2(68)) by (nonlinear_arith)
                requires
                    m_bound == pow2(53),
                    p < pow2(68),
            ;
        }
        let m = round_half_even_u128(n, d * p);
        proof {
            assert(m * p <= m_bound * p) by (nonlinear_arith)
                requires
                    m <= m_bound,
            ;
        }
        m * p
    } else {
        let j = (-k) as u32;
        let p = pow2_u128(j);
        proof {
            lemma_pow2_pos(j as nat);
            if l >= 0 {
                lemma_pow2_adds(l as nat, j as nat);
                lemma_scale_bound(n as nat, d as nat, pow2(l as nat), p as nat);
            } else {
                let nl = (-l) as nat;
                lemma_pow2_adds(nl, 52);
                lemma_scale_bound_neg(n as nat, d as nat, pow2(nl), p as nat);
            }
            assert(d * pow2(53) <= pow2(67) * pow2(53)) by (nonlinear_arith)
                requires
                    d < pow2(67),
            ;
            lemma_pow2_adds(67, 53);
            lemma_pow2_strictly_increases(120, 128);
        }
        let m = round_half_even_u128(n * p, d);
        m / p
    }
}

/// Whether `bits` encode a binary64 value of at least one half and finite:
/// sign clear and biased exponent between 1022 and 2046.
pub open spec fn is_half_or_more(bits: u64) -> bool {
    1022 <= bits / 0x10_0000_0000_0000 && bits / 0x10_0000_0000_0000 <= 2046
}

/// Whether `bits` encode a finite binary64 value of at least one half, the
/// elapsed time a rate may be divided by.
pub fn half_or_more(bits: u64) -> (r: bool)
    ensures
        r == is_half_or_more(bits),
{
    let biased = bits / 0x10_0000_0000_0000;
    1022 <= biased && biased <= 2046
}

/// The 53-bit mantissa of the normal binary64 value with these bits.
pub open spec fn mantissa_of_bits(bits: u64) -> nat {
    (0x10_0000_0000_0000 + bits % 0x10_0000_0000_0000) as nat
}

/// The exponent `e` of the normal binary64 value with these bits, whose value
/// is its mantissa times `2^e`.
pub open spec fn exponent_of_bits(bits: u64) -> int {
    bits / 0x10_0000_0000_0000 - 1075
}

/// `x`, or `u64::MAX` when it is larger, as `as u64` saturates.
pub open spec fn saturate_u64(x: nat) -> u64 {
    if x > u64::MAX {
        u64::MAX
    } else {
        x as u64
    }
}

/// `(b as f64 / secs) as u64` where `secs` is the binary64 value with `bits`.
pub open spec fn quotient_as_u64(b: u64, bits: u64) -> u64 {
    let n = f64_of_int(b as nat);
    let m = mantissa_of_bits(bits);
    let e = exponent_of_bits(bits);
    saturate_u64(
        if e >= 0 {
            nearest_quotient_floor(n, m * pow2(e as nat))
        } else {
            nearest_quotient_floor(n * pow2((-e) as nat), m)
        },
    )
}

/// `quotient_as_u64(b, bits)`.
pub fn f64_quotient_as_u64(b: u64, bits: u64) -> (r: u64)
    requires
        is_half_or_more(bits),
    ensures
        r == quotient_as_u64(b, bits),
{
    proof {
        lemma2_to64();
        lemma2_to64_rest();
    }
    let n = f64_of_u64(b);
    let biased = bits / 0x10_0000_0000_0000;
    let m: u128 = 0x10_0000_0000_0000 + (bits % 0x10_0000_0000_0000) as u128;
    let q: u128 = if biased >= 1075 {
        let e = biased - 1075;
        if e > 13 {
            proof {
                if n > 0 {
                    if e > 14 {
                        lemma_pow2_strictly_increases(14, e as nat);
                    }
                    lemma_pow2_adds(52, 14);
                    assert(m * pow2(e as nat) >= pow2(52) * pow2(14)) by (nonlinear_arith)
                        requires
                            m >= pow2(52),
                            pow2(e as nat) >= pow2(14),
                    ;
                    lemma_small_quotient_floor(n as nat, (m * pow2(e as nat)) as nat);
                }
            }
            0
        } else {
            let p = pow2_u128(e as u32);
            proof {
                lemma_pow2_pos(e as nat);
                if e < 13 {
                    lemma_pow2_strictly_increases(e as nat, 13);
                }
                assert(m * p <= 0x20_0000_0000_0000 * 0x2000) by (nonlinear_arith)
                    requires
                        m <= 0x20_0000_0000_0000u128,
                        p <= 0x2000u128,
                ;
                assert(m * p >= 1) by (nonlinear_arith)
                    requires
                        m >= 1,
                        p >= 1,
                ;
            }
            nearest_quotient_floor_u128(n, m * p)
        }
    } else {
        let j = 1075 - biased;
        let p = pow2_u128(j as u32);
        proof {
            if j < 53 {
                lemma_pow2_strictly_increases(j as nat, 53);
            }
            assert(n * p <= 0x1_0000_0000_0000_0800u128 * 0x20_0000_0000_0000u128) by (nonlinear_arith)
                requires
                    n <= 0x1_0000_0000_0000_0800u128,
                    p <= 0x20_0000_0000_0000u128,
            ;
        }
        nearest_quotient_floor_u128(n * p, m)
    };
    if q > u64::MAX as u128 {
        u64::MAX
    } else {
        q as u64
    }
}

} // verus!
