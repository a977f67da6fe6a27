//! The scalar domain of the engine: `i64` values under two's-complement
//! wrapping arithmetic.
//!
//! Every arithmetic step the engine performs reduces its unbounded
//! mathematical result back into the `i64` range modulo 2^64; the spec
//! function [`wrap`] is that reduction, and every contract in the crate is
//! stated through it.  The lemmas here let a sequence of wrapped operations
//! be reasoned about as a single reduction of the exact integer result.

use vstd::arithmetic::div_mod::{
    lemma_add_mod_noop, lemma_fundamental_div_mod_converse_mod, lemma_mod_sub_multiples_vanish,
    lemma_mod_twice, lemma_mul_mod_noop_right, lemma_sub_mod_noop,
};
use vstd::prelude::*;
use vstd::wrapping::i64_specs;

verus! {

/// The number of distinct `i64` values, i.e. the modulus of the wrapping
/// arithmetic: 2^64.
pub open spec fn modulus() -> int {
    0x1_0000_0000_0000_0000
}

/// Reduction of an unbounded integer into the `i64` range, modulo 2^64:
/// the value every wrapping `i64` operation leaves behind.
pub open spec fn wrap(x: int) -> i64 {
    i64_specs::signed_crop(x)
}

/// An integer already inside the `i64` range is left unchanged by `wrap`.
pub proof fn lemma_wrap_id(x: int)
    requires
        i64::MIN <= x <= i64::MAX,
    ensures
        wrap(x) == x,
{
    if x >= 0 {
        lemma_fundamental_div_mod_converse_mod(x, modulus(), 0, x);
    } else {
        lemma_fundamental_div_mod_converse_mod(x, modulus(), -1, x + modulus());
    }
}

/// `wrap(x)` and `x` are congruent modulo 2^64.
pub proof fn lemma_wrap_mod(x: int)
    ensures
        (wrap(x) as int) % modulus() == x % modulus(),
{
    lemma_mod_twice(x, modulus());
    lemma_mod_sub_multiples_vanish(x % modulus(), modulus());
}

/// Integers congruent modulo 2^64 wrap to the same `i64` value.
pub proof fn lemma_wrap_congruent(x: int, y: int)
    requires
        x % modulus() == y % modulus(),
    ensures
        wrap(x) == wrap(y),
{
}

/// Inside a sum or difference that is wrapped anyway, an operand may be
/// replaced by its own wrapped value without changing the outcome.
pub proof fn lemma_wrap_absorb(a: int, b: int)
    ensures
        wrap(wrap(a) + b) == wrap(a + b),
        wrap(a + wrap(b)) == wrap(a + b),
        wrap(a - wrap(b)) == wrap(a - b),
{
    lemma_wrap_mod(a);
    lemma_wrap_mod(b);
    lemma_add_mod_noop(wrap(a) as int, b, modulus());
    lemma_add_mod_noop(a, b, modulus());
    lemma_add_mod_noop(a, wrap(b) as int, modulus());
    lemma_sub_mod_noop(a, wrap(b) as int, modulus());
    lemma_sub_mod_noop(a, b, modulus());
    lemma_wrap_congruent(wrap(a) + b, a + b);
    lemma_wrap_congruent(a + wrap(b), a + b);
    lemma_wrap_congruent(a - wrap(b), a - b);
}

/// Inside a product that is wrapped anyway, a factor may be replaced by its
/// own wrapped value without changing the outcome.
pub proof fn lemma_wrap_absorb_mul(a: int, b: int)
    ensures
        wrap(a * wrap(b)) == wrap(a * b),
{
    lemma_wrap_mod(b);
    lemma_mul_mod_noop_right(a, wrap(b) as int, modulus());
    lemma_mul_mod_noop_right(a, b, modulus());
    lemma_wrap_congruent(a * wrap(b), a * b);
}

/// `i64::wrapping_add` computes `wrap` of the exact sum.
pub proof fn lemma_wrapping_add(a: i64, b: i64)
    ensures
        i64_specs::wrapping_add(a, b) == wrap(a + b),
{
    lemma_wrap_id_extended(a + b);
}

/// `i64::wrapping_sub` computes `wrap` of the exact difference.
pub proof fn lemma_wrapping_sub(a: i64, b: i64)
    ensures
        i64_specs::wrapping_sub(a, b) == wrap(a - b),
{
    lemma_wrap_id_extended(a - b);
}

/// For `x` within one modulus of the `i64` range, `wrap` shifts `x` by the
/// modulus exactly as the conditional form of the wrapping operations does.
proof fn lemma_wrap_id_extended(x: int)
    requires
        -modulus() <= x < modulus(),
    ensures
        x > i64::MAX ==> wrap(x) == x - modulus(),
        x < i64::MIN ==> wrap(x) == x + modulus(),
        i64::MIN <= x <= i64::MAX ==> wrap(x) == x,
{
    if x > i64::MAX {
        lemma_fundamental_div_mod_converse_mod(x, modulus(), 0, x);
    } else if x < i64::MIN {
        lemma_fundamental_div_mod_converse_mod(x, modulus(), -1, x + modulus());
    } else {
        lemma_wrap_id(x);
    }
}

} // verus!
