//! Small arithmetic facts about integer division, used by the geometry and
//! zone computations.
use vstd::prelude::*;
use vstd::arithmetic::div_mod::{
    lemma_fundamental_div_mod, lemma_mod_division_less_than_divisor,
};
use vstd::arithmetic::mul::{lemma_mul_inequality, lemma_mul_is_commutative};

verus! {

/// Division rounding up, clamped at zero for non-positive numerators.
pub open spec fn ceil_div(x: int, d: int) -> int {
    if x <= 0 {
        0
    } else {
        (x + d - 1) / d
    }
}

/// Basic consequences of flooring division for a non-negative numerator.
pub proof fn lemma_div_mul_le(x: int, d: int)
    requires
        x >= 0,
        d >= 1,
    ensures
        0 <= x / d,
        d * (x / d) <= x,
        (x / d) * d <= x,
        x / d <= x,
{
    lemma_fundamental_div_mod(x, d);
    lemma_mod_division_less_than_divisor(x, d);
    lemma_mul_is_commutative(d, x / d);
    if x / d > x {
        lemma_mul_inequality(x + 1, x / d, d);
    }
}

/// `ceil_div(x, d)` is the least non-negative `c` with `c * d >= x`.
pub proof fn lemma_ceil_div_equiv(x: int, d: int, c: int)
    requires
        d >= 1,
        c >= 0,
    ensures
        c * d >= x <==> c >= ceil_div(x, d),
{
    if x <= 0 {
        lemma_mul_inequality(0, c, d);
    } else {
        let q = (x + d - 1) / d;
        lemma_fundamental_div_mod(x + d - 1, d);
        lemma_mod_division_less_than_divisor(x + d - 1, d);
        // d * q is within (x - 1, x + d - 1], so q * d >= x and (q - 1) * d < x.
        assert(d * q >= x + d - 1 - (d - 1));
        assert(q * d == d * q) by { lemma_mul_is_commutative(q, d) };
        if c >= q {
            lemma_mul_inequality(q, c, d);
        }
        if c * d >= x && c < q {
            lemma_mul_inequality(c, q - 1, d);
            assert((q - 1) * d == d * q - d) by {
                vstd::arithmetic::mul::lemma_mul_is_distributive_sub_other_way(d, q, 1);
            }
        }
    }
}

/// `ceil_div` never exceeds a non-negative numerator.
pub proof fn lemma_ceil_div_le(x: int, d: int)
    requires
        d >= 1,
        x >= 0,
    ensures
        0 <= ceil_div(x, d) <= x,
{
    if x > 0 {
        lemma_div_mul_le(x + d - 1, d);
        let q = (x + d - 1) / d;
        if q > x {
            lemma_mul_inequality(x + 1, q, d);
            assert((x + 1) * d == x * d + d) by {
                vstd::arithmetic::mul::lemma_mul_is_distributive_add_other_way(d, x, 1);
            }
            lemma_mul_inequality(1, d, x);
            lemma_mul_is_commutative(d, x);
            assert(false);
        }
    }
}

} // verus!
