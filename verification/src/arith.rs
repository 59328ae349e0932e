use vstd::prelude::*;

verus! {

use vstd::arithmetic::div_mod::lemma_fundamental_div_mod;
use vstd::arithmetic::div_mod::lemma_fundamental_div_mod_converse;

/// Ceiling division: the least `q` with `q * d >= n`, for positive `d`.
pub open spec fn spec_div_ceil(n: nat, d: nat) -> nat
    recommends
        d > 0,
{
    (((n + d - 1) as int) / (d as int)) as nat
}

/// Rounds the quotient `n / d` up instead of down.
pub fn div_ceil_u64(n: u64, d: u64) -> (r: u64)
    requires
        d > 0,
    ensures
        r == spec_div_ceil(n as nat, d as nat),
{
    let q = n / d;
    let m = n % d;
    proof {
        lemma_fundamental_div_mod(n as int, d as int);
        if m == 0 {
            lemma_fundamental_div_mod_converse(
                n + d - 1,
                d as int,
                q as int,
                d - 1,
            );
        } else {
            assert(q * d >= q) by (nonlinear_arith)
                requires q >= 0, d >= 1;
            assert((q + 1) * (d as int) == q * d + d) by (nonlinear_arith);
            lemma_fundamental_div_mod_converse(
                n + d - 1,
                d as int,
                q + 1,
                m - 1,
            );
        }
    }
    if m == 0 {
        q
    } else {
        q + 1
    }
}

/// `base` raised to the power `e`.
pub open spec fn spec_pow(base: nat, e: nat) -> nat
    decreases e,
{
    if e == 0 {
        1
    } else {
        base * spec_pow(base, (e - 1) as nat)
    }
}

/// A power of a positive base is positive.
pub proof fn lemma_pow_pos(base: nat, e: nat)
    requires
        base >= 1,
    ensures
        spec_pow(base, e) >= 1,
    decreases e,
{
    if e > 0 {
        lemma_pow_pos(base, (e - 1) as nat);
        assert(base * spec_pow(base, (e - 1) as nat) >= spec_pow(base, (e - 1) as nat))
            by (nonlinear_arith)
            requires
                base >= 1,
                spec_pow(base, (e - 1) as nat) >= 0,
        ;
    }
}

/// Powers of a positive base grow with the exponent.
pub proof fn lemma_pow_mono(base: nat, e1: nat, e2: nat)
    requires
        base >= 1,
        e1 <= e2,
    ensures
        spec_pow(base, e1) <= spec_pow(base, e2),
    decreases e2 - e1,
{
    if e1 < e2 {
        lemma_pow_mono(base, e1, (e2 - 1) as nat);
        lemma_pow_pos(base, (e2 - 1) as nat);
        assert(base * spec_pow(base, (e2 - 1) as nat) >= spec_pow(base, (e2 - 1) as nat))
            by (nonlinear_arith)
            requires
                base >= 1,
                spec_pow(base, (e2 - 1) as nat) >= 0,
        ;
    }
}

/// Computes `base` to the power `exp`.
pub fn pow_u64(base: u64, exp: u8) -> (r: u64)
    requires
        base >= 1,
        spec_pow(base as nat, exp as nat) <= u64::MAX,
    ensures
        r == spec_pow(base as nat, exp as nat),
        r >= 1,
{
    let mut r: u64 = 1;
    let mut i: u8 = 0;
    while i < exp
        invariant
            base >= 1,
            0 <= i <= exp,
            spec_pow(base as nat, exp as nat) <= u64::MAX,
            r == spec_pow(base as nat, i as nat),
            r >= 1,
        decreases exp - i,
    {
        proof {
            lemma_pow_mono(base as nat, (i + 1) as nat, exp as nat);
            assert(spec_pow(base as nat, (i + 1) as nat) == base * spec_pow(
                base as nat,
                i as nat,
            ));
            assert(base * (r as nat) >= r) by (nonlinear_arith)
                requires
                    base >= 1,
                    r >= 1,
            ;
        }
        r = r * base;
        i = i + 1;
    }
    r
}

} // verus!
