use vstd::arithmetic::div_mod::{lemma_mod_add_multiples_vanish, lemma_small_mod};
use vstd::prelude::*;

verus! {

/// The order of the Goldilocks field, `2^64 - 2^32 + 1`.
pub const ORDER: u64 = 0xFFFF_FFFF_0000_0001;

/// The field order as a mathematical integer.
pub open spec fn p() -> int {
    ORDER as int
}

/// A base field element is held in canonical form, as an integer below the order.
pub open spec fn is_canonical(x: int) -> bool {
    0 <= x < p()
}

pub open spec fn fadd(a: int, b: int) -> int {
    (a + b) % p()
}

pub open spec fn fsub(a: int, b: int) -> int {
    (a - b) % p()
}

pub open spec fn fmul(a: int, b: int) -> int {
    (a * b) % p()
}

/// Sum of two canonical field elements.
pub fn field_add(a: u64, b: u64) -> (r: u64)
    requires
        is_canonical(a as int),
        is_canonical(b as int),
    ensures
        r as int == fadd(a as int, b as int),
        is_canonical(r as int),
{
    if a >= ORDER - b {
        let r = a - (ORDER - b);
        proof {
            lemma_small_mod(r as nat, ORDER as nat);
            lemma_mod_add_multiples_vanish(r as int, p());
        }
        r
    } else {
        proof {
            lemma_small_mod((a + b) as nat, ORDER as nat);
        }
        a + b
    }
}

/// Difference of two canonical field elements.
pub fn field_sub(a: u64, b: u64) -> (r: u64)
    requires
        is_canonical(a as int),
        is_canonical(b as int),
    ensures
        r as int == fsub(a as int, b as int),
        is_canonical(r as int),
{
    if a >= b {
        proof {
            lemma_small_mod((a - b) as nat, ORDER as nat);
        }
        a - b
    } else {
        let r = ORDER - b + a;
        proof {
            lemma_small_mod(r as nat, ORDER as nat);
            lemma_mod_add_multiples_vanish(a - b, p());
        }
        r
    }
}

/// Product of two canonical field elements.
pub fn field_mul(a: u64, b: u64) -> (r: u64)
    requires
        is_canonical(a as int),
        is_canonical(b as int),
    ensures
        r as int == fmul(a as int, b as int),
        is_canonical(r as int),
{
    proof {
        assert((a as int) * (b as int) <= (u64::MAX as int) * (u64::MAX as int)) by (nonlinear_arith)
            requires
                a <= u64::MAX,
                b <= u64::MAX,
                0 <= a,
                0 <= b,
        ;
    }
    let wide: u128 = (a as u128) * (b as u128);
    let r = (wide % (ORDER as u128)) as u64;
    r
}

} // verus!
