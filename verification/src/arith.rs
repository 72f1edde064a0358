//! Exact rational arithmetic for numeric literals: greatest common divisor,
//! normalization, and the four operations the evaluator defines on numbers.

use vstd::prelude::*;
use vstd::arithmetic::div_mod::{
    lemma_fundamental_div_mod, lemma_fundamental_div_mod_converse, lemma_mod_multiples_basic,
};
use crate::token::{Num, NUM_LIMIT};

verus! {

/// Greatest common divisor, by Euclid's algorithm.
pub open spec fn gcd(a: nat, b: nat) -> nat
    decreases b,
{
    if b == 0 {
        a
    } else {
        gcd(b, a % b)
    }
}

/// `d` divides `x` exactly.
pub open spec fn divides(d: nat, x: nat) -> bool {
    exists|k: nat| x == #[trigger] (k * d)
}

proof fn lemma_divides_mod(d: nat, x: nat)
    requires
        d > 0,
        divides(d, x),
    ensures
        x % d == 0,
        x == (x / d) * d,
        x / d <= x,
{
    let k = choose|k: nat| x == #[trigger] (k * d);
    lemma_mod_multiples_basic(k as int, d as int);
    lemma_fundamental_div_mod_converse(x as int, d as int, k as int, 0);
    assert(x / d == k);
    assert(k * d >= k) by (nonlinear_arith)
        requires
            d >= 1,
            k >= 0,
    ;
}

/// The gcd of `a` and a positive `b` is positive, at most `b`, and divides
/// both arguments.
pub proof fn lemma_gcd_props(a: nat, b: nat)
    requires
        b > 0,
    ensures
        1 <= gcd(a, b) <= b,
        divides(gcd(a, b), a),
        divides(gcd(a, b), b),
    decreases b,
{
    let g = gcd(a, b);
    let r = a % b;
    if r == 0 {
        assert(gcd(b, 0) == b);
        assert(g == b);
        lemma_fundamental_div_mod(a as int, b as int);
        assert(a == b * (a / b));
        assert(a == (a / b) * b) by (nonlinear_arith)
            requires
                a == b * (a / b),
        ;
        assert(divides(b, a));
        assert(b == 1 * b) by (nonlinear_arith);
        assert(divides(b, b));
    } else {
        lemma_gcd_props(b, r);
        assert(g == gcd(b, r));
        assert(divides(g, b));
        assert(divides(g, r));
        let k1 = choose|k: nat| b == #[trigger] (k * g);
        let k2 = choose|k: nat| r == #[trigger] (k * g);
        lemma_fundamental_div_mod(a as int, b as int);
        assert(a == b * (a / b) + r);
        assert(b * (a / b) + r == ((a / b) * k1 + k2) * g) by (nonlinear_arith)
            requires
                b == k1 * g,
                r == k2 * g,
        ;
        assert(a == ((a / b) * k1 + k2) * g);
        assert(divides(g, a));
        assert(g <= r);
        assert(r < b);
    }
}

/// Euclid's algorithm; computes `gcd` exactly.
pub fn gcd_u128(a: u128, b: u128) -> (g: u128)
    ensures
        g as nat == gcd(a as nat, b as nat),
    decreases b,
{
    if b == 0 {
        a
    } else {
        gcd_u128(b, a % b)
    }
}

/// The bound `2^124` on a product of two well-formed parts; a sum of two
/// such products then stays well inside `i128`.
pub const RAT_BOUND: i128 = 0x1000_0000_0000_0000_0000_0000_0000_0000;

/// The reduced rational `n / d`, or `None` when `d` is zero or the reduced
/// parts do not fit the bounds of a well-formed `Num`.
pub open spec fn norm_num(n: int, d: int) -> Option<Num> {
    if d == 0 {
        None
    } else {
        let n2 = if d < 0 {
            -n
        } else {
            n
        };
        let d2 = if d < 0 {
            -d
        } else {
            d
        };
        let g = gcd(vstd::math::abs(n2), d2 as nat);
        let mn = vstd::math::abs(n2) / g;
        let md = d2 as nat / g;
        if mn > NUM_LIMIT as nat || md > NUM_LIMIT as nat {
            None
        } else {
            Some(
                Num {
                    num: if n2 >= 0 {
                        mn as i64
                    } else {
                        (-(mn as int)) as i64
                    },
                    den: md as i64,
                },
            )
        }
    }
}

/// A value `norm_num` accepts is well formed.
pub proof fn lemma_norm_num_wf(n: int, d: int)
    requires
        d != 0,
        norm_num(n, d) is Some,
    ensures
        norm_num(n, d)->Some_0.wf(),
{
    let d2: int = if d < 0 {
        -d
    } else {
        d
    };
    let n2: int = if d < 0 {
        -n
    } else {
        n
    };
    lemma_gcd_props(vstd::math::abs(n2), d2 as nat);
    let g = gcd(vstd::math::abs(n2), d2 as nat);
    lemma_divides_mod(g, d2 as nat);
    assert((d2 as nat / g) * g == d2 as nat);
    assert(d2 as nat / g >= 1) by (nonlinear_arith)
        requires
            (d2 as nat / g) * g == d2 as nat,
            d2 as nat >= 1,
            g >= 1,
    ;
}

/// Normalize the rational `n / d` with positive `d`, exactly as `norm_num`.
pub(crate) fn norm_i128(n: i128, d: i128) -> (r: Option<Num>)
    requires
        n > -0x7fff_ffff_ffff_ffff_ffff_ffff_ffff_ffff,
        d >= 1,
    ensures
        r == norm_num(n as int, d as int),
        r is Some ==> r->Some_0.wf(),
{
    let neg: bool = n < 0;
    let mag: u128 = if neg {
        (-n) as u128
    } else {
        n as u128
    };
    let dd: u128 = d as u128;
    let g = gcd_u128(mag, dd);
    proof {
        lemma_gcd_props(mag as nat, dd as nat);
        lemma_divides_mod(g as nat, mag as nat);
        lemma_divides_mod(g as nat, dd as nat);
    }
    let mn: u128 = mag / g;
    let md: u128 = dd / g;
    if mn > NUM_LIMIT as u128 || md > NUM_LIMIT as u128 {
        None
    } else {
        proof {
            lemma_norm_num_wf(n as int, d as int);
        }
        Some(
            Num {
                num: if neg {
                    -(mn as i64)
                } else {
                    mn as i64
                },
                den: md as i64,
            },
        )
    }
}

/// Exact sum of two rationals, reduced; `None` on range overflow.
pub open spec fn rat_add(a: Num, b: Num) -> Option<Num> {
    norm_num(a.num * b.den + b.num * a.den, a.den * b.den)
}

/// Exact difference of two rationals, reduced; `None` on range overflow.
pub open spec fn rat_sub(a: Num, b: Num) -> Option<Num> {
    norm_num(a.num * b.den - b.num * a.den, a.den * b.den)
}

/// Exact product of two rationals, reduced; `None` on range overflow.
pub open spec fn rat_mul(a: Num, b: Num) -> Option<Num> {
    norm_num(a.num * b.num, a.den * b.den)
}

/// Exact quotient of two rationals, reduced; `None` when the divisor is zero
/// or on range overflow.
pub open spec fn rat_div(a: Num, b: Num) -> Option<Num> {
    if b.num == 0 {
        None
    } else {
        norm_num(a.num * b.den, a.den * b.num)
    }
}

proof fn lemma_prod_bound(x: int, y: int)
    requires
        -(NUM_LIMIT as int) <= x <= NUM_LIMIT as int,
        -(NUM_LIMIT as int) <= y <= NUM_LIMIT as int,
    ensures
        -(RAT_BOUND as int) <= x * y <= RAT_BOUND as int,
{
    assert(-(RAT_BOUND as int) <= x * y <= RAT_BOUND as int) by (nonlinear_arith)
        requires
            -(NUM_LIMIT as int) <= x <= NUM_LIMIT as int,
            -(NUM_LIMIT as int) <= y <= NUM_LIMIT as int,
            NUM_LIMIT as int * NUM_LIMIT as int <= RAT_BOUND as int,
    ;
}

proof fn lemma_den_prod(x: int, y: int)
    requires
        1 <= x <= NUM_LIMIT as int,
        1 <= y <= NUM_LIMIT as int,
    ensures
        1 <= x * y <= RAT_BOUND as int,
{
    assert(1 <= x * y <= RAT_BOUND as int) by (nonlinear_arith)
        requires
            1 <= x <= NUM_LIMIT as int,
            1 <= y <= NUM_LIMIT as int,
            NUM_LIMIT as int * NUM_LIMIT as int <= RAT_BOUND as int,
    ;
}

/// Exact rational sum; computes `rat_add`.
pub fn num_add(a: Num, b: Num) -> (r: Option<Num>)
    requires
        a.wf(),
        b.wf(),
    ensures
        r == rat_add(a, b),
        r is Some ==> r->Some_0.wf(),
{
    proof {
        lemma_prod_bound(a.num as int, b.den as int);
        lemma_prod_bound(b.num as int, a.den as int);
        lemma_den_prod(a.den as int, b.den as int);
    }
    let n: i128 = (a.num as i128) * (b.den as i128) + (b.num as i128) * (a.den as i128);
    let d: i128 = (a.den as i128) * (b.den as i128);
    norm_i128(n, d)
}

/// Exact rational difference; computes `rat_sub`.
pub fn num_sub(a: Num, b: Num) -> (r: Option<Num>)
    requires
        a.wf(),
        b.wf(),
    ensures
        r == rat_sub(a, b),
        r is Some ==> r->Some_0.wf(),
{
    proof {
        lemma_prod_bound(a.num as int, b.den as int);
        lemma_prod_bound(b.num as int, a.den as int);
        lemma_den_prod(a.den as int, b.den as int);
    }
    let n: i128 = (a.num as i128) * (b.den as i128) - (b.num as i128) * (a.den as i128);
    let d: i128 = (a.den as i128) * (b.den as i128);
    norm_i128(n, d)
}

/// Exact rational product; computes `rat_mul`.
pub fn num_mul(a: Num, b: Num) -> (r: Option<Num>)
    requires
        a.wf(),
        b.wf(),
    ensures
        r == rat_mul(a, b),
        r is Some ==> r->Some_0.wf(),
{
    proof {
        lemma_prod_bound(a.num as int, b.num as int);
        lemma_den_prod(a.den as int, b.den as int);
    }
    let n: i128 = (a.num as i128) * (b.num as i128);
    let d: i128 = (a.den as i128) * (b.den as i128);
    norm_i128(n, d)
}

/// Exact rational quotient; computes `rat_div`.
pub fn num_div(a: Num, b: Num) -> (r: Option<Num>)
    requires
        a.wf(),
        b.wf(),
    ensures
        r == rat_div(a, b),
        r is Some ==> r->Some_0.wf(),
{
    if b.num == 0 {
        None
    } else {
        proof {
            lemma_prod_bound(a.num as int, b.den as int);
            lemma_prod_bound(a.den as int, b.num as int);
        }
        let n: i128 = (a.num as i128) * (b.den as i128);
        let d: i128 = (a.den as i128) * (b.num as i128);
        if d < 0 {
            proof {
                assert(norm_num(n as int, d as int) == norm_num(-(n as int), -(d as int)));
            }
            norm_i128(-n, -d)
        } else {
            assert(d != 0) by (nonlinear_arith)
                requires
                    d == (a.den as i128) * (b.num as i128),
                    a.den >= 1,
                    b.num != 0,
            ;
            norm_i128(n, d)
        }
    }
}

/// Ten to the `k`-th power.
pub open spec fn pow10(k: nat) -> int
    decreases k,
{
    if k == 0 {
        1
    } else {
        10 * pow10((k - 1) as nat)
    }
}

pub proof fn lemma_pow10_bounds(k: nat)
    requires
        k <= 18,
    ensures
        1 <= pow10(k) <= 1_000_000_000_000_000_000,
{
    assert(pow10(0) == 1);
    assert(pow10(1) == 10);
    assert(pow10(2) == 100);
    assert(pow10(3) == 1000);
    assert(pow10(4) == 10000);
    assert(pow10(5) == 100000);
    assert(pow10(6) == 1000000);
    assert(pow10(7) == 10000000);
    assert(pow10(8) == 100000000);
    assert(pow10(9) == 1000000000);
    assert(pow10(10) == 10000000000);
    assert(pow10(11) == 100000000000);
    assert(pow10(12) == 1000000000000);
    assert(pow10(13) == 10000000000000);
    assert(pow10(14) == 100000000000000);
    assert(pow10(15) == 1000000000000000);
    assert(pow10(16) == 10000000000000000);
    assert(pow10(17) == 100000000000000000);
    assert(pow10(18) == 1000000000000000000);
}

/// Ten to the `k`-th power, computed exactly.
pub fn pow10_u64(k: u32) -> (r: u64)
    requires
        k <= 18,
    ensures
        r as int == pow10(k as nat),
    decreases k,
{
    proof {
        lemma_pow10_bounds(k as nat);
    }
    if k == 0 {
        1
    } else {
        let p = pow10_u64(k - 1);
        proof {
            lemma_pow10_bounds((k - 1) as nat);
        }
        10 * p
    }
}

} // verus!
