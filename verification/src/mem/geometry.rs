//! The shape of a bitmap tree: how many words each layer has and where it
//! starts in the flat word sequence.

use vstd::prelude::*;

verus! {

/// `base` raised to `exp`.
pub open spec fn power(base: nat, exp: nat) -> nat
    decreases exp,
{
    if exp == 0 {
        1
    } else {
        base * power(base, (exp - 1) as nat)
    }
}

/// Number of words in layer `layer` of a tree, the root being layer 0.
pub open spec fn layer_len(layer: nat) -> nat {
    power(64, layer)
}

/// Number of words that precede layer `layer` in the flat word sequence.
/// This is also the total number of words of a tree with `layer` layers.
pub open spec fn layer_offset(layer: nat) -> nat
    decreases layer,
{
    if layer == 0 {
        0
    } else {
        layer_offset((layer - 1) as nat) + layer_len((layer - 1) as nat)
    }
}

/// The first six powers of 64 and the word counts of trees up to height 5.
pub proof fn lemma_layer_values()
    ensures
        layer_len(0) == 1,
        layer_len(1) == 64,
        layer_len(2) == 4096,
        layer_len(3) == 262144,
        layer_len(4) == 16777216,
        layer_len(5) == 1073741824,
        layer_offset(0) == 0,
        layer_offset(1) == 1,
        layer_offset(2) == 65,
        layer_offset(3) == 4161,
        layer_offset(4) == 266305,
        layer_offset(5) == 17043521,
{
    reveal_with_fuel(power, 7);
    reveal_with_fuel(layer_offset, 7);
}

/// A power of a positive base is positive.
pub proof fn lemma_power_positive(base: nat, exp: nat)
    requires
        base >= 1,
    ensures
        power(base, exp) >= 1,
    decreases exp,
{
    if exp > 0 {
        lemma_power_positive(base, (exp - 1) as nat);
        assert(base * power(base, (exp - 1) as nat) >= 1) by (nonlinear_arith)
            requires
                base >= 1,
                power(base, (exp - 1) as nat) >= 1,
        ;
    }
}

/// Powers of a base of at least 1 do not decrease with the exponent.
pub proof fn lemma_power_monotonic(base: nat, a: nat, b: nat)
    requires
        base >= 1,
        a <= b,
    ensures
        power(base, a) <= power(base, b),
    decreases b,
{
    if a < b {
        lemma_power_monotonic(base, a, (b - 1) as nat);
        lemma_power_positive(base, (b - 1) as nat);
        assert(base * power(base, (b - 1) as nat) >= power(base, (b - 1) as nat))
            by (nonlinear_arith)
            requires
                base >= 1,
        ;
    }
}

/// Powers of a base of at least 2 strictly increase with the exponent.
pub proof fn lemma_power_strictly_monotonic(base: nat, a: nat, b: nat)
    requires
        base >= 2,
        a < b,
    ensures
        power(base, a) < power(base, b),
    decreases b,
{
    lemma_power_positive(base, (b - 1) as nat);
    assert(base * power(base, (b - 1) as nat) > power(base, (b - 1) as nat)) by (nonlinear_arith)
        requires
            base >= 2,
            power(base, (b - 1) as nat) >= 1,
    ;
    if a < b - 1 {
        lemma_power_strictly_monotonic(base, a, (b - 1) as nat);
    }
}

/// `base` raised to `exp`.
pub fn pow(base: usize, exp: usize) -> (r: usize)
    requires
        base >= 1,
        power(base as nat, exp as nat) <= usize::MAX,
    ensures
        r == power(base as nat, exp as nat),
{
    let mut r: usize = 1;
    let mut i: usize = 0;
    while i < exp
        invariant
            base >= 1,
            i <= exp,
            r == power(base as nat, i as nat),
            power(base as nat, exp as nat) <= usize::MAX,
        decreases exp - i,
    {
        proof {
            lemma_power_monotonic(base as nat, (i + 1) as nat, exp as nat);
            assert(power(base as nat, (i + 1) as nat) == base * power(base as nat, i as nat));
        }
        r = base * r;
        i = i + 1;
    }
    r
}

/// The integer logarithm of `num` to `base`, rounded down.
pub fn ilog(num: usize, base: usize) -> (r: usize)
    requires
        num >= 1,
        base >= 2,
    ensures
        power(base as nat, r as nat) <= num,
        num < power(base as nat, (r + 1) as nat),
        r < num,
{
    let mut r: usize = 0;
    let mut p: usize = 1;
    while p <= num / base
        invariant
            base >= 2,
            num >= 1,
            p >= 1,
            p == power(base as nat, r as nat),
            p <= num,
            r < p,
        decreases num - p,
    {
        proof {
            assert(base * p <= num) by (nonlinear_arith)
                requires
                    p <= num / base,
                    base >= 2,
            ;
            assert(base * p >= p + p) by (nonlinear_arith)
                requires
                    base >= 2,
                    p >= 1,
            ;
            assert(power(base as nat, (r + 1) as nat) == base * power(base as nat, r as nat));
        }
        p = base * p;
        r = r + 1;
    }
    proof {
        assert(num < base * p) by (nonlinear_arith)
            requires
                p > num / base,
                base >= 2,
        ;
        assert(power(base as nat, (r + 1) as nat) == base * power(base as nat, r as nat));
    }
    r
}

/// `a` divided by `b`, rounded up.
pub fn div_ceil(a: usize, b: usize) -> (r: usize)
    requires
        b >= 1,
    ensures
        r == (a + b - 1) / (b as int),
        r * b >= a,
        a > 0 ==> (r - 1) * b < a,
        a == 0 ==> r == 0,
{
    let q = a / b;
    let m = a % b;
    proof {
        vstd::arithmetic::div_mod::lemma_fundamental_div_mod(a as int, b as int);
        assert(a == b * q + m);
        assert(b * q >= q) by (nonlinear_arith)
            requires
                b >= 1,
                q >= 0,
        ;
        assert(b * (q + 1) == b * q + b) by (nonlinear_arith);
        assert(b * (q - 1) == b * q - b) by (nonlinear_arith);
        assert(q * b == b * q) by (nonlinear_arith);
        assert((q + 1) * b == b * (q + 1)) by (nonlinear_arith);
        assert((q - 1) * b == b * (q - 1)) by (nonlinear_arith);
        if m == 0 {
            vstd::arithmetic::div_mod::lemma_fundamental_div_mod_converse(
                a + b - 1,
                b as int,
                q as int,
                b - 1,
            );
        } else {
            vstd::arithmetic::div_mod::lemma_fundamental_div_mod_converse(
                a + b - 1,
                b as int,
                q + 1,
                m - 1,
            );
        }
    }
    if m == 0 {
        q
    } else {
        q + 1
    }
}

} // verus!
