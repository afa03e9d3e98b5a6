//! Checked numeric helpers: the two's-complement reading of an input number,
//! exact division, power, exact logarithm, factorial and exact square root,
//! each with the overflow/domain policy of the operator model.
use crate::model::{fact_nat, i32_of_u32, in_i32};
use vstd::arithmetic::div_mod::{lemma_fundamental_div_mod, lemma_fundamental_div_mod_converse};
use vstd::arithmetic::power::{
    lemma0_pow, lemma1_pow, lemma_pow_increases, lemma_pow_positive, lemma_pow_strictly_increases,
    pow,
};
use vstd::arithmetic::power2::{lemma2_to64, lemma_pow2};
use vstd::prelude::*;

verus! {

/// Magnitude of an integer.
pub open spec fn mag(v: int) -> int {
    if v < 0 {
        -v
    } else {
        v
    }
}

pub proof fn lemma_mag_mul(x: int, y: int)
    ensures
        mag(x * y) == mag(x) * mag(y),
{
    if x >= 0 && y >= 0 {
        assert(x * y >= 0) by (nonlinear_arith)
            requires
                x >= 0,
                y >= 0,
        ;
    } else if x >= 0 && y < 0 {
        assert(x * y <= 0 && -(x * y) == x * (-y)) by (nonlinear_arith)
            requires
                x >= 0,
                y < 0,
        ;
    } else if x < 0 && y >= 0 {
        assert(x * y <= 0 && -(x * y) == (-x) * y) by (nonlinear_arith)
            requires
                x < 0,
                y >= 0,
        ;
    } else {
        assert(x * y >= 0 && x * y == (-x) * (-y)) by (nonlinear_arith)
            requires
                x < 0,
                y < 0,
        ;
    }
}

/// One multiplication step of the power function.
pub proof fn lemma_pow_step(b: int, e: nat)
    ensures
        pow(b, e + 1) == pow(b, e) * b,
{
    vstd::arithmetic::power::lemma_pow_adds(b, e, 1);
    vstd::arithmetic::power::lemma_pow1(b);
}

pub proof fn lemma_pow_mag(b: int, e: nat)
    ensures
        mag(pow(b, e)) == pow(mag(b), e),
    decreases e,
{
    if e == 0 {
        vstd::arithmetic::power::lemma_pow0(b);
        vstd::arithmetic::power::lemma_pow0(mag(b));
    } else {
        lemma_pow_mag(b, (e - 1) as nat);
        lemma_pow_step(b, (e - 1) as nat);
        lemma_pow_step(mag(b), (e - 1) as nat);
        lemma_mag_mul(pow(b, (e - 1) as nat), b);
    }
}

/// The value an input number stands for.
pub fn u32_to_i32(n: u32) -> (r: i32)
    ensures
        r as int == i32_of_u32(n),
{
    if n <= 0x7fff_ffff {
        n as i32
    } else {
        let v: i64 = n as i64 - 0x1_0000_0000i64;
        v as i32
    }
}

/// Exact division: the quotient `q` with `b * q == a`, if it exists and fits.
pub fn exact_div(a: i32, b: i32) -> (r: Option<i32>)
    ensures
        r matches Some(q) ==> b != 0 && (b as int) * (q as int) == a as int,
        r is None ==> !(b != 0 && (exists|q: int| #[trigger] ((b as int) * q) == a as int)
            && in_i32(crate::model::div_of(a as int, b as int))),
{
    if b == 0 {
        return None;
    }
    let x: i64 = a as i64;
    let d: i64 = b as i64;
    let mx: i64 = if x < 0 {
        -x
    } else {
        x
    };
    let md: i64 = if d < 0 {
        -d
    } else {
        d
    };
    if mx % md != 0 {
        proof {
            lemma_no_exact_quotient(a as int, b as int);
        }
        return None;
    }
    let mq: i64 = mx / md;
    let q: i64 = if (a < 0) == (b < 0) {
        mq
    } else {
        -mq
    };
    proof {
        lemma_fundamental_div_mod(mx as int, md as int);
        assert((b as int) * q == a as int) by (nonlinear_arith)
            requires
                mx == mag(a as int),
                md == mag(b as int),
                b != 0,
                mx == md * (mx / md),
                mq == mx / md,
                q == (if (a < 0) == (b < 0) {
                    mq as int
                } else {
                    -mq as int
                }),
        ;
    }
    if q < i32::MIN as i64 || q > i32::MAX as i64 {
        proof {
            let q0 = crate::model::div_of(a as int, b as int);
            assert((b as int) * q0 == a as int);
            crate::model::lemma_mul_cancel(b as int, q0, q as int);
        }
        return None;
    }
    Some(q as i32)
}

/// There is no exact quotient when the magnitudes do not divide evenly.
proof fn lemma_no_exact_quotient(a: int, b: int)
    requires
        b != 0,
        mag(a) % mag(b) != 0,
    ensures
        !(exists|q: int| #[trigger] (b * q) == a),
{
    assert forall|q: int| #[trigger] (b * q) != a by {
        if b * q == a {
            lemma_mag_mul(b, q);
            lemma_fundamental_div_mod_converse(mag(a), mag(b), mag(q), 0);
        }
    }
}

/// Checked power with a non-negative exponent: `Some` exactly when the true
/// result fits in 32 signed bits.
pub fn checked_pow(base: i32, exp: i32) -> (r: Option<i32>)
    requires
        exp >= 0,
    ensures
        r matches Some(v) ==> in_i32(pow(base as int, exp as nat)) && v as int == pow(
            base as int,
            exp as nat,
        ),
        r is None ==> !in_i32(pow(base as int, exp as nat)),
{
    if base == 0 {
        if exp == 0 {
            proof {
                vstd::arithmetic::power::lemma_pow0(0);
            }
            Some(1)
        } else {
            proof {
                lemma0_pow(exp as nat);
            }
            Some(0)
        }
    } else if base == 1 {
        proof {
            lemma1_pow(exp as nat);
        }
        Some(1)
    } else if base == -1 {
        proof {
            lemma_pow_neg_one(exp as nat);
        }
        if exp % 2 == 0 {
            Some(1)
        } else {
            Some(-1)
        }
    } else {
        let mut acc: i32 = 1;
        let mut i: i32 = 0;
        proof {
            vstd::arithmetic::power::lemma_pow0(base as int);
        }
        while i < exp
            invariant
                0 <= i <= exp,
                base <= -2 || base >= 2,
                acc as int == pow(base as int, i as nat),
            decreases exp - i,
        {
            match acc.checked_mul(base) {
                Some(v) => {
                    proof {
                        lemma_pow_step(base as int, i as nat);
                        assert(pow(base as int, (i + 1) as nat) == pow(base as int, i as nat)
                            * base);
                    }
                    acc = v;
                },
                None => {
                    proof {
                        let b = base as int;
                        lemma_pow_step(b, i as nat);
                        assert(pow(b, (i + 1) as nat) == pow(b, i as nat) * b);
                        lemma_pow_mag(b, (i + 1) as nat);
                        if i + 1 < exp {
                            lemma_pow_mag(b, exp as nat);
                            lemma_pow_strictly_increases(
                                mag(b) as nat,
                                (i + 1) as nat,
                                exp as nat,
                            );
                        }
                    }
                    return None;
                },
            }
            i = i + 1;
        }
        Some(acc)
    }
}

proof fn lemma_pow_neg_one(e: nat)
    ensures
        pow(-1, e) == (if e % 2 == 0 {
            1int
        } else {
            -1int
        }),
    decreases e,
{
    reveal(pow);
    if e != 0 {
        lemma_pow_neg_one((e - 1) as nat);
    }
}

/// Exact integer logarithm: the `k` with `base^k == num`, if it exists.
pub fn int_log(base: i32, num: i32) -> (r: Option<i32>)
    ensures
        r matches Some(k) ==> base > 1 && num > 0 && 0 <= k && pow(base as int, k as nat)
            == num as int,
        r is None ==> !(base > 1 && num > 0 && (exists|k: nat|
            pow(base as int, k) == num as int)),
{
    if base <= 1 || num <= 0 {
        return None;
    }
    if num == 1 {
        proof {
            vstd::arithmetic::power::lemma_pow0(base as int);
        }
        return Some(0);
    }
    let mut current: i32 = base;
    let mut result: i32 = 1;
    proof {
        vstd::arithmetic::power::lemma_pow0(base as int);
        vstd::arithmetic::power::lemma_pow1(base as int);
    }
    loop
        invariant
            2 <= base,
            1 < num,
            1 <= current,
            1 <= result <= 31,
            current as int == pow(base as int, result as nat),
            forall|j: nat| j < result ==> pow(base as int, j) < num,
        decreases 31 - result,
    {
        if current >= num {
            if current == num {
                return Some(result);
            } else {
                proof {
                    lemma_no_log(base as int, num as int, result as nat, current as int);
                }
                return None;
            }
        }
        match current.checked_mul(base) {
            Some(next_val) => {
                proof {
                    lemma_pow_step(base as int, result as nat);
                    assert(pow(base as int, (result + 1) as nat) == pow(
                        base as int,
                        result as nat,
                    ) * base);
                    lemma_result_bounded(base as int, (result + 1) as nat, next_val as int);
                    assert(next_val as int > current as int) by (nonlinear_arith)
                        requires
                            next_val == current * base,
                            current >= 1,
                            base >= 2,
                    ;
                }
                current = next_val;
                result = result + 1;
            },
            None => {
                proof {
                    lemma_pow_step(base as int, result as nat);
                    assert(pow(base as int, (result + 1) as nat) == pow(
                        base as int,
                        result as nat,
                    ) * base);
                    assert((current as int) * (base as int) > i32::MAX) by (nonlinear_arith)
                        requires
                            current >= 1,
                            base >= 2,
                            ((current as int) * (base as int) > i32::MAX) || ((current as int)
                                * (base as int) < i32::MIN),
                    ;
                    lemma_no_log(base as int, num as int, (result + 1) as nat, i32::MAX + 1);
                }
                return None;
            },
        }
    }
}

/// Every power at or past exponent `cut` is at least `big`, and every earlier
/// power is below `num`; `num` lies strictly between, so no power hits it.
proof fn lemma_no_log(base: int, num: int, cut: nat, big: int)
    requires
        base > 1,
        num > 0,
        pow(base, cut) >= big,
        big > num,
        forall|j: nat| j < cut ==> pow(base, j) < num,
    ensures
        !(exists|k: nat| pow(base, k) == num),
{
    assert forall|k: nat| pow(base, k) != num by {
        if k >= cut {
            lemma_pow_increases(base as nat, cut, k);
        }
    }
}

/// A power that still fits in 32 signed bits has an exponent below 32.
proof fn lemma_result_bounded(base: int, e: nat, value: int)
    requires
        base >= 2,
        value <= i32::MAX,
        value == pow(base, e),
    ensures
        e <= 31,
{
    if e > 31 {
        lemma_pow_base_increases(2, base as nat, e);
        lemma_pow_increases(2, 32, e);
        lemma_pow2(32);
        lemma2_to64();
    }
}

pub proof fn lemma_pow_base_increases(a: nat, b: nat, e: nat)
    requires
        1 <= a <= b,
    ensures
        pow(a as int, e) <= pow(b as int, e),
    decreases e,
{
    if e == 0 {
        vstd::arithmetic::power::lemma_pow0(a as int);
        vstd::arithmetic::power::lemma_pow0(b as int);
    } else {
        lemma_pow_step(a as int, (e - 1) as nat);
        lemma_pow_step(b as int, (e - 1) as nat);
        lemma_pow_base_increases(a, b, (e - 1) as nat);
        lemma_pow_positive(a as int, (e - 1) as nat);
        assert(pow(a as int, (e - 1) as nat) * a <= pow(b as int, (e - 1) as nat) * b)
            by (nonlinear_arith)
            requires
                0 < pow(a as int, (e - 1) as nat) <= pow(b as int, (e - 1) as nat),
                0 < a <= b,
        ;
    }
}

/// Checked factorial over the domain 0..=20 of the factorial operator.
pub fn checked_factorial(n: i32) -> (r: Option<i32>)
    ensures
        r matches Some(v) ==> 0 <= n <= 20 && in_i32(fact_nat(n as nat) as int) && v as int
            == fact_nat(n as nat),
        r is None ==> !(0 <= n <= 20 && in_i32(fact_nat(n as nat) as int)),
{
    if n < 0 || n > 20 {
        return None;
    }
    if n < 2 {
        proof {
            reveal_with_fuel(fact_nat, 3);
        }
        return Some(1);
    }
    let mut res: i32 = 1;
    let mut i: i32 = 2;
    proof {
        reveal_with_fuel(fact_nat, 3);
    }
    while i <= n
        invariant
            2 <= i <= n + 1,
            2 <= n <= 20,
            1 <= res,
            res as int == fact_nat((i - 1) as nat),
        decreases n + 1 - i,
    {
        match res.checked_mul(i) {
            Some(next_res) => {
                proof {
                    assert(fact_nat(i as nat) == i * fact_nat((i - 1) as nat));
                    lemma_fact_pos(i as nat);
                }
                res = next_res;
                i = i + 1;
            },
            None => {
                proof {
                    assert(fact_nat(i as nat) == i * fact_nat((i - 1) as nat));
                    assert((res as int) * (i as int) > i32::MAX) by (nonlinear_arith)
                        requires
                            res >= 1,
                            i >= 2,
                            ((res as int) * (i as int) > i32::MAX) || ((res as int) * (i as int)
                                < i32::MIN),
                    ;
                    lemma_fact_increases(i as nat, n as nat);
                }
                return None;
            },
        }
    }
    Some(res)
}

pub proof fn lemma_fact_pos(n: nat)
    ensures
        fact_nat(n) >= 1,
    decreases n,
{
    if n != 0 {
        lemma_fact_pos((n - 1) as nat);
        assert(n * fact_nat((n - 1) as nat) >= 1) by (nonlinear_arith)
            requires
                n >= 1,
                fact_nat((n - 1) as nat) >= 1,
        ;
    }
}

pub proof fn lemma_fact_increases(a: nat, b: nat)
    requires
        a <= b,
    ensures
        fact_nat(a) <= fact_nat(b),
    decreases b,
{
    if a < b {
        lemma_fact_increases(a, (b - 1) as nat);
        lemma_fact_pos((b - 1) as nat);
        assert(fact_nat((b - 1) as nat) <= b * fact_nat((b - 1) as nat)) by (nonlinear_arith)
            requires
                b >= 1,
                fact_nat((b - 1) as nat) >= 1,
        ;
    }
}

/// Exact square root: the non-negative `s` with `s * s == v`, if it exists.
pub fn exact_sqrt(v: i32) -> (r: Option<i32>)
    ensures
        r matches Some(s) ==> 0 <= v && 0 <= s && (s as int) * (s as int) == v as int,
        r is None ==> !(0 <= v && (exists|s: int| 0 <= s && #[trigger] (s * s) == v as int)),
{
    if v < 0 {
        return None;
    }
    let mut s: i32 = 0;
    while s <= 46340
        invariant
            0 <= s <= 46341,
            0 <= v,
            forall|j: int| 0 <= j < s ==> #[trigger] (j * j) < v as int,
        decreases 46341 - s,
    {
        proof {
            assert(s as int * s as int <= 2147395600) by (nonlinear_arith)
                requires
                    0 <= s <= 46340,
            ;
        }
        let sq = s * s;
        if sq == v {
            return Some(s);
        }
        if sq > v {
            proof {
                assert forall|t: int| 0 <= t ==> #[trigger] (t * t) != v as int by {
                    if 0 <= t && t >= s {
                        assert(t * t >= s as int * s as int) by (nonlinear_arith)
                            requires
                                t >= s >= 0,
                        ;
                    }
                }
            }
            return None;
        }
        s = s + 1;
    }
    proof {
        assert forall|t: int| 0 <= t ==> #[trigger] (t * t) != v as int by {
            if 0 <= t {
                if t <= 46340 {
                    assert(t * t < v as int);
                } else {
                    assert(t * t >= 46341 * 46341) by (nonlinear_arith)
                        requires
                            t >= 46341,
                    ;
                }
            }
        }
    }
    None
}

} // verus!
