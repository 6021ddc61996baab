//! Sixty-four bit integer arithmetic that wraps on overflow, as the language defines it.
use vstd::prelude::*;
use vstd::arithmetic::power::pow;
use vstd::arithmetic::div_mod::{lemma_mod_sub_multiples_vanish, lemma_mul_mod_noop_left};
use vstd::wrapping::i64_specs::{signed_crop, wrapping_mul};

verus! {

/// `a` raised to the power `e`, wrapping at every step.
pub open spec fn pow_wrap(a: i64, e: nat) -> i64
    decreases e,
{
    if e == 0 {
        1
    } else {
        wrapping_mul(a, pow_wrap(a, (e - 1) as nat))
    }
}

/// Truncating division; the one quotient that overflows wraps to `i64::MIN`.
pub open spec fn div_wrap(a: i64, b: i64) -> i64 {
    match a.checked_div(b) {
        Some(q) => q,
        None => i64::MIN,
    }
}

/// Remainder with the sign of the dividend; the one case that overflows gives 0.
pub open spec fn rem_wrap(a: i64, b: i64) -> i64 {
    match a.checked_rem(b) {
        Some(r) => r,
        None => 0,
    }
}

pub fn div_wrapping(a: i64, b: i64) -> (r: i64)
    requires
        b != 0,
    ensures
        r == div_wrap(a, b),
{
    match a.checked_div(b) {
        Some(q) => q,
        None => i64::MIN,
    }
}

pub fn rem_wrapping(a: i64, b: i64) -> (r: i64)
    requires
        b != 0,
    ensures
        r == rem_wrap(a, b),
{
    match a.checked_rem(b) {
        Some(q) => q,
        None => 0,
    }
}

proof fn lemma_crop_mod(x: int)
    ensures
        (signed_crop(x) as int) % 0x1_0000_0000_0000_0000 == x % 0x1_0000_0000_0000_0000,
{
    let m: int = 0x1_0000_0000_0000_0000;
    let r = x % m;
    if r > i64::MAX as int {
        lemma_mod_sub_multiples_vanish(r, m);
        assert((r - m) % m == r % m);
        vstd::arithmetic::div_mod::lemma_mod_twice(x, m);
    } else {
        vstd::arithmetic::div_mod::lemma_mod_twice(x, m);
    }
}

proof fn lemma_crop_same(x: int, y: int)
    requires
        x % 0x1_0000_0000_0000_0000 == y % 0x1_0000_0000_0000_0000,
    ensures
        signed_crop(x) == signed_crop(y),
{
}

/// Cropping a factor first does not change the cropped product.
proof fn lemma_crop_mul(x: int, y: int)
    ensures
        signed_crop(signed_crop(x) * y) == signed_crop(x * y),
{
    let m: int = 0x1_0000_0000_0000_0000;
    let c = signed_crop(x) as int;
    lemma_crop_mod(x);
    lemma_mul_mod_noop_left(c, y, m);
    lemma_mul_mod_noop_left(x, y, m);
    lemma_crop_same(c * y, x * y);
}

proof fn lemma_pow_wrap_crop(a: i64, e: nat)
    ensures
        pow_wrap(a, e) == signed_crop(pow(a as int, e)),
    decreases e,
{
    vstd::arithmetic::power::lemma_pow0(a as int);
    if e > 0 {
        lemma_pow_wrap_crop(a, (e - 1) as nat);
        let p = pow(a as int, (e - 1) as nat);
        assert(pow(a as int, e) == a * p) by {
            vstd::arithmetic::power::lemma_pow_adds(a as int, 1, (e - 1) as nat);
            vstd::arithmetic::power::lemma_pow1(a as int);
        }
        lemma_crop_mul(p, a as int);
        assert(signed_crop(p) * a == a * signed_crop(p)) by (nonlinear_arith);
        assert(p * a == a * p) by (nonlinear_arith);
    }
}

proof fn lemma_crop_pow(r: int, x: int, n: nat)
    ensures
        signed_crop(r * pow(signed_crop(x) as int, n)) == signed_crop(r * pow(x, n)),
    decreases n,
{
    let c = signed_crop(x) as int;
    if n == 0 {
        vstd::arithmetic::power::lemma_pow0(c);
        vstd::arithmetic::power::lemma_pow0(x);
    } else {
        let n1 = (n - 1) as nat;
        vstd::arithmetic::power::lemma_pow1(c);
        vstd::arithmetic::power::lemma_pow1(x);
        vstd::arithmetic::power::lemma_pow_adds(c, 1, n1);
        vstd::arithmetic::power::lemma_pow_adds(x, 1, n1);
        let pc = pow(c, n1);
        let px = pow(x, n1);
        assert(r * (c * pc) == c * (r * pc)) by (nonlinear_arith);
        lemma_crop_mul(x, r * pc);
        assert(x * (r * pc) == (r * x) * pc) by (nonlinear_arith);
        lemma_crop_pow(r * x, x, n1);
        assert((r * x) * px == r * (x * px)) by (nonlinear_arith);
    }
}

proof fn lemma_pow_square(b: int, k: nat)
    ensures
        pow(b * b, k) == pow(b, 2 * k),
    decreases k,
{
    vstd::arithmetic::power::lemma_pow0(b * b);
    vstd::arithmetic::power::lemma_pow0(b);
    if k > 0 {
        lemma_pow_square(b, (k - 1) as nat);
        vstd::arithmetic::power::lemma_pow_adds(b * b, 1, (k - 1) as nat);
        vstd::arithmetic::power::lemma_pow1(b * b);
        vstd::arithmetic::power::lemma_pow_adds(b, 2, (2 * k - 2) as nat);
        vstd::arithmetic::power::lemma_square_is_pow2(b);
    }
}

/// `a` to the power `e`, wrapping on overflow, by repeated squaring.
pub fn pow_wrapping(a: i64, e: u64) -> (r: i64)
    ensures
        r == pow_wrap(a, e as nat),
{
    let mut r: i64 = 1;
    let mut base: i64 = a;
    let mut k: u64 = e;
    proof {
        lemma_pow_wrap_crop(a, e as nat);
        vstd::arithmetic::power::lemma_pow0(a as int);
        assert(1 * pow(a as int, e as nat) == pow(a as int, e as nat));
    }
    while k > 0
        invariant
            signed_crop(r * pow(base as int, k as nat)) == signed_crop(pow(a as int, e as nat)),
        decreases k,
    {
        if k % 2 == 1 {
            proof {
                let p = pow(base as int, (k - 1) as nat);
                vstd::arithmetic::power::lemma_pow_adds(base as int, 1, (k - 1) as nat);
                vstd::arithmetic::power::lemma_pow1(base as int);
                lemma_crop_mul(r * base, p);
                assert(r * (base * p) == (r * base) * p) by (nonlinear_arith);
            }
            r = r.wrapping_mul(base);
            k = k - 1;
        }
        proof {
            lemma_pow_square(base as int, (k / 2) as nat);
            lemma_crop_pow(r as int, base * base, (k / 2) as nat);
        }
        base = base.wrapping_mul(base);
        k = k / 2;
    }
    proof {
        vstd::arithmetic::power::lemma_pow0(base as int);
        lemma_pow_wrap_crop(a, e as nat);
    }
    r
}

} // verus!
