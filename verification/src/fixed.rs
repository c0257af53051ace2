use vstd::arithmetic::div_mod::lemma_fundamental_div_mod_converse;
use vstd::prelude::*;

verus! {

/// Magnitude of an integer.
pub open spec fn magnitude(a: int) -> int {
    if a < 0 {
        -a
    } else {
        a
    }
}

/// `a * b <= c * d` for non-negative factors that are bounded pairwise.
pub proof fn lemma_mul_le(a: int, b: int, c: int, d: int)
    by (nonlinear_arith)
    requires
        0 <= a <= c,
        0 <= b <= d,
    ensures
        0 <= a * b <= c * d,
{
}

/// The product of two 64-bit numbers fits well within 128 bits.
pub proof fn lemma_product_bound(a: int, b: int)
    by (nonlinear_arith)
    requires
        i64::MIN <= a <= i64::MAX,
        i64::MIN <= b <= i64::MAX,
    ensures
        -0x4000_0000_0000_0000_0000_0000_0000_0000 <= a * b
            <= 0x4000_0000_0000_0000_0000_0000_0000_0000,
{
}

/// A quotient by a positive divisor lies between `lo` and `hi` when the
/// dividend lies between `lo * d` and `hi * d`.
pub proof fn lemma_div_between(n: int, d: int, lo: int, hi: int)
    by (nonlinear_arith)
    requires
        0 < d,
        lo * d <= n <= hi * d,
    ensures
        lo <= n / d <= hi,
{
}

/// Floor of `-n / d` from the quotient and remainder of `n / d`.
pub proof fn lemma_neg_div(n: int, d: int)
    requires
        0 <= n,
        0 < d,
    ensures
        (-n) / d == (if n % d == 0 {
            -(n / d)
        } else {
            -(n / d) - 1
        }),
        (-n) % d == (if n % d == 0 {
            0
        } else {
            d - n % d
        }),
{
    let q = n / d;
    let r = n % d;
    assert(n == q * d + r && 0 <= r < d) by (nonlinear_arith)
        requires
            q == n / d,
            r == n % d,
            0 < d,
    ;
    if r == 0 {
        assert(-n == (-q) * d + 0) by (nonlinear_arith)
            requires
                n == q * d + r,
                r == 0,
        ;
        lemma_fundamental_div_mod_converse(-n, d, -q, 0);
    } else {
        assert(-n == (-q - 1) * d + (d - r)) by (nonlinear_arith)
            requires
                n == q * d + r,
        ;
        lemma_fundamental_div_mod_converse(-n, d, -q - 1, d - r);
    }
}

/// Computes `floor(a * b / d)` exactly, for a positive divisor.
pub fn mul_div_floor(a: i128, b: i128, d: u64) -> (q: i128)
    requires
        magnitude(a as int) <= u64::MAX,
        magnitude(b as int) <= u64::MAX,
        d > 0,
        magnitude(a as int) * magnitude(b as int) <= u64::MAX * d,
    ensures
        q == (a * b) / (d as int),
        -u64::MAX - 1 <= q <= u64::MAX,
{
    let ua: u128 = if a < 0 { (-a) as u128 } else { a as u128 };
    let ub: u128 = if b < 0 { (-b) as u128 } else { b as u128 };
    proof {
        lemma_mul_le(ua as int, ub as int, u64::MAX as int, u64::MAX as int);
        lemma_div_between(ua * ub, d as int, 0, u64::MAX as int);
    }
    let n: u128 = ua * ub;
    let qm: u128 = n / (d as u128);
    let rm: u128 = n % (d as u128);
    let negative = (a < 0) != (b < 0);
    proof {
        if negative {
            assert(a * b == -(ua * ub)) by (nonlinear_arith)
                requires
                    (a < 0 && ua == -a && b >= 0 && ub == b) || (b < 0 && ub == -b && a >= 0 && ua
                        == a),
            ;
            lemma_neg_div(n as int, d as int);
        } else {
            assert(a * b == ua * ub) by (nonlinear_arith)
                requires
                    (a < 0 && ua == -a && b < 0 && ub == -b) || (b >= 0 && ub == b && a >= 0 && ua
                        == a),
            ;
        }
    }
    if !negative {
        qm as i128
    } else if rm == 0 {
        -(qm as i128)
    } else {
        -(qm as i128) - 1
    }
}

/// Splits a fixed-point number into its integer part, rounded down, and its
/// fractional part in units of `2^-32`.
pub fn floor_split(v: i128) -> (r: (i128, u64))
    requires
        i128::MIN < v,
    ensures
        r.0 == (v as int) / 0x1_0000_0000,
        r.1 == (v as int) % 0x1_0000_0000,
{
    if v >= 0 {
        (v / 0x1_0000_0000, (v % 0x1_0000_0000) as u64)
    } else {
        let m: i128 = -v;
        let q: i128 = m / 0x1_0000_0000;
        let r: i128 = m % 0x1_0000_0000;
        if r == 0 {
            (-q, 0)
        } else {
            (-q - 1, (0x1_0000_0000 - r) as u64)
        }
    }
}

} // verus!
