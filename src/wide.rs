//! Unsigned 256-bit intermediates for the bonus curve, held as four
//! little-endian 64-bit words, with the arithmetic done by `primitive_types`.

use vstd::prelude::*;
use vstd::arithmetic::power::pow;

verus! {

/// 2^64, the weight of one word.
pub open spec fn word() -> nat {
    0x1_0000_0000_0000_0000
}

/// 2^128.
pub open spec fn bound128() -> nat {
    word() * word()
}

/// 2^256, one more than the largest value a `Wide` holds.
pub open spec fn bound256() -> nat {
    bound128() * bound128()
}

/// The integer square root: the largest `r` with `r * r <= n`.
pub open spec fn isqrt(n: nat) -> nat
    decreases n,
{
    if n == 0 {
        0
    } else {
        let r = isqrt((n - 1) as nat);
        if (r + 1) * (r + 1) <= n {
            r + 1
        } else {
            r
        }
    }
}

pub proof fn lemma_isqrt(n: nat)
    ensures
        isqrt(n) * isqrt(n) <= n,
        n < (isqrt(n) + 1) * (isqrt(n) + 1),
    decreases n,
{
    if n > 0 {
        lemma_isqrt((n - 1) as nat);
        let r = isqrt((n - 1) as nat);
        if (r + 1) * (r + 1) <= n {
            assert(isqrt(n) == r + 1);
            assert(n < (r + 2) * (r + 2)) by (nonlinear_arith)
                requires
                    n - 1 < (r + 1) * (r + 1),
            ;
            assert((isqrt(n) + 1) * (isqrt(n) + 1) == (r + 2) * (r + 2));
        } else {
            assert(isqrt(n) == r);
        }
    } else {
        assert(isqrt(0) == 0);
        assert((isqrt(n) + 1) * (isqrt(n) + 1) == 1);
    }
}

/// Only `isqrt(n)` lies between the squares that bound `n`.
pub proof fn lemma_isqrt_unique(r: nat, n: nat)
    requires
        r * r <= n,
        n < (r + 1) * (r + 1),
    ensures
        r == isqrt(n),
{
    lemma_isqrt(n);
    let s = isqrt(n);
    if r < s {
        assert((r + 1) * (r + 1) <= s * s) by (nonlinear_arith)
            requires
                r + 1 <= s,
        ;
    } else if s < r {
        assert((s + 1) * (s + 1) <= r * r) by (nonlinear_arith)
            requires
                s + 1 <= r,
        ;
    }
}

/// Where `r * r` stays below 2^256, `r` stays below 2^128.
pub proof fn lemma_root_bound(r: nat, n: nat)
    requires
        r * r <= n,
        n < bound256(),
    ensures
        r < bound128(),
{
    if r >= bound128() {
        assert(r * r >= bound128() * bound128()) by (nonlinear_arith)
            requires
                r >= bound128(),
        ;
    }
}

/// The product of two numbers below 2^128 stays below 2^256.
pub proof fn lemma_product_bound(a: nat, b: nat)
    requires
        a < bound128(),
        b < bound128(),
    ensures
        a * b < bound256(),
{
    assert(a * b < bound128() * bound128()) by (nonlinear_arith)
        requires
            a < bound128(),
            b < bound128(),
    ;
}

/// An unsigned 256-bit integer, least significant word first.
#[derive(Clone, Copy)]
pub struct Wide {
    pub limbs: [u64; 4],
}

impl Wide {
    pub open spec fn value(self) -> nat {
        self.limbs@[0] as nat + self.limbs@[1] as nat * word() + self.limbs@[2] as nat * word()
            * word() + self.limbs@[3] as nat * word() * word() * word()
    }

    pub fn from_u128(x: u128) -> (r: Wide)
        ensures
            r.value() == x,
    {
        let lo: u64 = (x % 0x1_0000_0000_0000_0000) as u64;
        let hi: u64 = (x / 0x1_0000_0000_0000_0000) as u64;
        let r = Wide { limbs: [lo, hi, 0, 0] };
        assert(r.limbs@[0] == lo && r.limbs@[1] == hi && r.limbs@[2] == 0 && r.limbs@[3] == 0);
        r
    }

    /// The value as a `u128`, or `None` where it does not fit.
    pub fn to_u128(&self) -> (r: Option<u128>)
        ensures
            r is Some <==> self.value() < bound128(),
            r matches Some(v) ==> v == self.value(),
    {
        proof {
            lemma_value_bounds(*self);
        }
        if self.limbs[2] == 0 && self.limbs[3] == 0 {
            Some(self.limbs[1] as u128 * 0x1_0000_0000_0000_0000 + self.limbs[0] as u128)
        } else {
            None
        }
    }
}

proof fn lemma_value_bounds(w: Wide)
    ensures
        w.value() < bound256(),
        w.value() < bound128() <==> (w.limbs@[2] == 0 && w.limbs@[3] == 0),
{
    let (a, b, c, d) = (w.limbs@[0] as nat, w.limbs@[1] as nat, w.limbs@[2] as nat, w.limbs@[3] as nat);
    let x = word();
    assert(a < x && b < x && c < x && d < x);
    assert(b * x <= (x - 1) * x) by (nonlinear_arith) requires b < x;
    assert(c * x * x <= (x - 1) * x * x) by (nonlinear_arith) requires c < x;
    assert(d * x * x * x <= (x - 1) * x * x * x) by (nonlinear_arith) requires d < x;
    assert(bound128() == x * x);
    assert(bound256() == x * x * x * x);
    if c != 0 || d != 0 {
        assert(c * x * x >= x * x || d * x * x * x >= x * x) by (nonlinear_arith)
            requires c != 0 || d != 0, x > 0;
    }
}

/// Relies on `U256::exp10` of primitive-types: `10^n`, for every `n` whose power fits.
#[verifier::external_body]
pub(crate) fn wide_exp10(n: usize) -> (r: Wide)
    requires
        n <= 77,
    ensures
        r.value() == pow(10, n as nat),
{
    Wide { limbs: primitive_types::U256::exp10(n).0 }
}

/// Relies on `U256::checked_mul` of primitive-types: the product, or `None`
/// where it overflows 256 bits.
#[verifier::external_body]
pub(crate) fn wide_checked_mul(a: Wide, b: Wide) -> (r: Option<Wide>)
    ensures
        r is Some <==> a.value() * b.value() < bound256(),
        r matches Some(v) ==> v.value() == a.value() * b.value(),
{
    match primitive_types::U256(a.limbs).checked_mul(primitive_types::U256(b.limbs)) {
        Some(v) => Some(Wide { limbs: v.0 }),
        None => None,
    }
}

/// Relies on `U256::checked_div` of primitive-types: the truncated quotient,
/// or `None` where the divisor is zero.
#[verifier::external_body]
pub(crate) fn wide_checked_div(a: Wide, b: Wide) -> (r: Option<Wide>)
    ensures
        r is Some <==> b.value() != 0,
        r matches Some(v) ==> v.value() == a.value() / b.value(),
{
    match primitive_types::U256(a.limbs).checked_div(primitive_types::U256(b.limbs)) {
        Some(v) => Some(Wide { limbs: v.0 }),
        None => None,
    }
}

/// Relies on `U256::integer_sqrt` of primitive-types: the largest `r` with
/// `r * r <= a`.
#[verifier::external_body]
pub(crate) fn wide_isqrt(a: Wide) -> (r: Wide)
    ensures
        r.value() * r.value() <= a.value(),
        a.value() < (r.value() + 1) * (r.value() + 1),
{
    Wide { limbs: primitive_types::U256(a.limbs).integer_sqrt().0 }
}

} // verus!
