//! Fixed-point and wide integer arithmetic shared by the pair engine and
//! the farming ledger: integer square root, double-word multiplication and
//! a comparison of double-word products.

use vstd::prelude::*;
use vstd::arithmetic::div_mod::lemma_fundamental_div_mod;

verus! {

/// 2^64, the base used to split a 128-bit word into halves.
pub const HALF_WORD: u128 = 0x1_0000_0000_0000_0000;

/// `r` is the integer square root of `n` rounded down.
pub open spec fn is_floor_sqrt(r: int, n: int) -> bool {
    0 <= r && r * r <= n && n < (r + 1) * (r + 1)
}

/// The integer square root of `n`, rounded down.
pub open spec fn floor_sqrt(n: int) -> int {
    choose|r: int| is_floor_sqrt(r, n)
}

/// The smaller of two integers.
pub open spec fn min_int(a: int, b: int) -> int {
    if a <= b {
        a
    } else {
        b
    }
}

/// Every non-negative integer has a floor square root.
pub proof fn lemma_floor_sqrt_exists(n: int) -> (r: int)
    requires
        0 <= n,
    ensures
        is_floor_sqrt(r, n),
    decreases n,
{
    if n == 0 {
        assert(is_floor_sqrt(0, 0)) by (nonlinear_arith);
        0
    } else {
        let p = lemma_floor_sqrt_exists(n - 1);
        if (p + 1) * (p + 1) <= n {
            let q = p + 1;
            assert(n < (q + 1) * (q + 1)) by (nonlinear_arith)
                requires
                    0 <= p,
                    q == p + 1,
                    n - 1 < (p + 1) * (p + 1),
            ;
            assert(is_floor_sqrt(q, n));
            q
        } else {
            assert(is_floor_sqrt(p, n));
            p
        }
    }
}

/// The floor square root is unique.
pub proof fn lemma_floor_sqrt_unique(a: int, b: int, n: int)
    requires
        is_floor_sqrt(a, n),
        is_floor_sqrt(b, n),
    ensures
        a == b,
{
    if a < b {
        assert((a + 1) * (a + 1) <= b * b) by (nonlinear_arith)
            requires
                0 <= a,
                0 <= b,
                a < b,
        ;
    }
    if b < a {
        assert((b + 1) * (b + 1) <= a * a) by (nonlinear_arith)
            requires
                0 <= a,
                0 <= b,
                b < a,
        ;
    }
}

/// `floor_sqrt` satisfies its defining property on non-negative inputs.
pub proof fn lemma_floor_sqrt(n: int)
    requires
        0 <= n,
    ensures
        is_floor_sqrt(floor_sqrt(n), n),
{
    let r = lemma_floor_sqrt_exists(n);
    assert(is_floor_sqrt(floor_sqrt(n), n));
}

/// Integer square root of a 128-bit word, rounded down, by bisection.
pub fn integer_sqrt(n: u128) -> (r: u128)
    ensures
        r == floor_sqrt(n as int),
        is_floor_sqrt(r as int, n as int),
{
    let mut lo: u128 = 0;
    let mut hi: u128 = HALF_WORD;
    proof {
        assert((HALF_WORD as int) * (HALF_WORD as int) > u128::MAX as int) by (nonlinear_arith);
    }
    while hi - lo > 1
        invariant
            lo < hi <= HALF_WORD,
            (lo as int) * (lo as int) <= n as int,
            (n as int) < (hi as int) * (hi as int),
        decreases hi - lo,
    {
        let mid: u128 = lo + (hi - lo) / 2;
        proof {
            assert((mid as int) * (mid as int) <= u128::MAX as int) by (nonlinear_arith)
                requires
                    mid < HALF_WORD,
                    HALF_WORD == 0x1_0000_0000_0000_0000,
            ;
        }
        let sq: u128 = mid * mid;
        if sq <= n {
            lo = mid;
        } else {
            hi = mid;
        }
    }
    proof {
        lemma_floor_sqrt(n as int);
        lemma_floor_sqrt_unique(lo as int, floor_sqrt(n as int), n as int);
    }
    lo
}

/// The smaller of two 128-bit words.
pub fn min_u128(a: u128, b: u128) -> (r: u128)
    ensures
        r == min_int(a as int, b as int),
{
    if a <= b {
        a
    } else {
        b
    }
}

/// The value of a double word `(hi, lo)`.
pub open spec fn wide_value(hi: int, lo: int) -> int {
    hi * 0x1_0000_0000_0000_0000_0000_0000_0000_0000 + lo
}

/// Full 256-bit product of two 128-bit words, as a `(hi, lo)` double word.
pub fn mul_wide(a: u128, b: u128) -> (r: (u128, u128))
    ensures
        wide_value(r.0 as int, r.1 as int) == (a as int) * (b as int),
        r.1 < HALF_WORD * HALF_WORD,
{
    let a_hi: u128 = a / HALF_WORD;
    let a_lo: u128 = a % HALF_WORD;
    let b_hi: u128 = b / HALF_WORD;
    let b_lo: u128 = b % HALF_WORD;
    proof {
        lemma_fundamental_div_mod(a as int, HALF_WORD as int);
        lemma_fundamental_div_mod(b as int, HALF_WORD as int);
        assert(a_hi < HALF_WORD && b_hi < HALF_WORD) by (nonlinear_arith)
            requires
                HALF_WORD == 0x1_0000_0000_0000_0000,
                a_hi == a / HALF_WORD,
                b_hi == b / HALF_WORD,
                a <= u128::MAX,
                b <= u128::MAX,
        ;
        assert(a_lo * b_lo <= u128::MAX && a_lo * b_hi <= u128::MAX && a_hi * b_lo <= u128::MAX
            && a_hi * b_hi <= u128::MAX) by (nonlinear_arith)
            requires
                a_lo < HALF_WORD,
                b_lo < HALF_WORD,
                a_hi < HALF_WORD,
                b_hi < HALF_WORD,
                HALF_WORD == 0x1_0000_0000_0000_0000,
        ;
    }
    let ll: u128 = a_lo * b_lo;
    let lh: u128 = a_lo * b_hi;
    let hl: u128 = a_hi * b_lo;
    let hh: u128 = a_hi * b_hi;
    proof {
        assert(ll / HALF_WORD < HALF_WORD && lh / HALF_WORD < HALF_WORD && hl / HALF_WORD
            < HALF_WORD) by (nonlinear_arith)
            requires
                HALF_WORD == 0x1_0000_0000_0000_0000,
                ll <= u128::MAX,
                lh <= u128::MAX,
                hl <= u128::MAX,
        ;
    }
    let t: u128 = ll / HALF_WORD + lh % HALF_WORD + hl % HALF_WORD;
    proof {
        assert(t / HALF_WORD < HALF_WORD) by (nonlinear_arith)
            requires
                HALF_WORD == 0x1_0000_0000_0000_0000,
                t <= u128::MAX,
        ;
        assert((t % HALF_WORD) * HALF_WORD + ll % HALF_WORD <= u128::MAX) by (nonlinear_arith)
            requires
                HALF_WORD == 0x1_0000_0000_0000_0000,
                t % HALF_WORD < HALF_WORD,
                ll % HALF_WORD < HALF_WORD,
        ;
        assert(lh / HALF_WORD <= HALF_WORD - 2 && hl / HALF_WORD <= HALF_WORD - 2 && ll
            / HALF_WORD <= HALF_WORD - 2) by (nonlinear_arith)
            requires
                HALF_WORD == 0x1_0000_0000_0000_0000,
                lh == a_lo * b_hi,
                hl == a_hi * b_lo,
                ll == a_lo * b_lo,
                a_lo < HALF_WORD,
                b_hi < HALF_WORD,
                a_hi < HALF_WORD,
                b_lo < HALF_WORD,
        ;
        assert(t / HALF_WORD <= 2) by (nonlinear_arith)
            requires
                HALF_WORD == 0x1_0000_0000_0000_0000,
                t <= 3 * HALF_WORD - 4,
        ;
        assert(hh + lh / HALF_WORD + hl / HALF_WORD + t / HALF_WORD <= u128::MAX)
            by (nonlinear_arith)
            requires
                HALF_WORD == 0x1_0000_0000_0000_0000,
                hh == a_hi * b_hi,
                a_hi < HALF_WORD,
                b_hi < HALF_WORD,
                lh / HALF_WORD <= HALF_WORD - 2,
                hl / HALF_WORD <= HALF_WORD - 2,
                t / HALF_WORD <= 2,
        ;
    }
    let out_lo: u128 = (t % HALF_WORD) * HALF_WORD + ll % HALF_WORD;
    let out_hi: u128 = hh + lh / HALF_WORD + hl / HALF_WORD + t / HALF_WORD;
    proof {
        lemma_fundamental_div_mod(ll as int, HALF_WORD as int);
        lemma_fundamental_div_mod(lh as int, HALF_WORD as int);
        lemma_fundamental_div_mod(hl as int, HALF_WORD as int);
        lemma_fundamental_div_mod(t as int, HALF_WORD as int);
        assert(wide_value(out_hi as int, out_lo as int) == (a as int) * (b as int))
            by (nonlinear_arith)
            requires
                HALF_WORD == 0x1_0000_0000_0000_0000,
                a == a_hi * HALF_WORD + a_lo,
                b == b_hi * HALF_WORD + b_lo,
                ll == a_lo * b_lo,
                lh == a_lo * b_hi,
                hl == a_hi * b_lo,
                hh == a_hi * b_hi,
                ll == HALF_WORD * (ll / HALF_WORD) + ll % HALF_WORD,
                lh == HALF_WORD * (lh / HALF_WORD) + lh % HALF_WORD,
                hl == HALF_WORD * (hl / HALF_WORD) + hl % HALF_WORD,
                t == HALF_WORD * (t / HALF_WORD) + t % HALF_WORD,
                t == ll / HALF_WORD + lh % HALF_WORD + hl % HALF_WORD,
                out_lo == (t % HALF_WORD) * HALF_WORD + ll % HALF_WORD,
                out_hi == hh + lh / HALF_WORD + hl / HALF_WORD + t / HALF_WORD,
                wide_value(out_hi as int, out_lo as int) == (out_hi as int) * (
                0x1_0000_0000_0000_0000_0000_0000_0000_0000 as int) + out_lo,
        ;
    }
    (out_hi, out_lo)
}

/// Whether the double word `x` is at least the double word `y`.
pub fn wide_geq(x: (u128, u128), y: (u128, u128)) -> (r: bool)
    ensures
        r == (wide_value(x.0 as int, x.1 as int) >= wide_value(y.0 as int, y.1 as int)),
{
    proof {
        if x.0 > y.0 {
            assert((x.0 as int) * 0x1_0000_0000_0000_0000_0000_0000_0000_0000 >= (y.0 as int)
                * 0x1_0000_0000_0000_0000_0000_0000_0000_0000 + 0x1_0000_0000_0000_0000_0000_0000_0000_0000)
                by (nonlinear_arith)
                requires
                    x.0 > y.0,
            ;
        }
        if x.0 < y.0 {
            assert((y.0 as int) * 0x1_0000_0000_0000_0000_0000_0000_0000_0000 >= (x.0 as int)
                * 0x1_0000_0000_0000_0000_0000_0000_0000_0000 + 0x1_0000_0000_0000_0000_0000_0000_0000_0000)
                by (nonlinear_arith)
                requires
                    x.0 < y.0,
            ;
        }
    }
    x.0 > y.0 || (x.0 == y.0 && x.1 >= y.1)
}

} // verus!
