//! Field elements of the scalar field that the backend's constraint system
//! works over: integers modulo the prime group order
//! `L = 2^252 + 27742317777372353535851937790883648493`.
//!
//! A `FieldElem` holds a 256-bit value in four 64-bit little-endian limbs,
//! always kept reduced below `L`.  All arithmetic here is verified against the
//! mathematical value `as_nat`, so circuit coefficients and witness values can
//! be reasoned about as plain natural numbers.

use vstd::prelude::*;

verus! {

use vstd::arithmetic::power2::pow2;
use vstd::arithmetic::power2::lemma_pow2_adds;
use vstd::arithmetic::power2::lemma_pow2_pos;
use vstd::arithmetic::power2::lemma2_to64;
use vstd::arithmetic::power2::lemma2_to64_rest;
use vstd::arithmetic::div_mod::lemma_fundamental_div_mod;
use vstd::arithmetic::div_mod::lemma_fundamental_div_mod_converse;
use vstd::arithmetic::div_mod::lemma_div_denominator;
use vstd::arithmetic::div_mod::lemma_small_mod;
use vstd::arithmetic::div_mod::lemma_mod_multiples_vanish;
use vstd::arithmetic::div_mod::lemma_add_mod_noop;
use vstd::arithmetic::div_mod::lemma_basic_div;
use vstd::arithmetic::mul::lemma_mul_is_distributive_add;
use vstd::arithmetic::mul::lemma_mul_is_distributive_add_other_way;
use vstd::arithmetic::mul::lemma_mul_is_distributive_sub_other_way;
use vstd::arithmetic::mul::lemma_mul_is_associative;
use vstd::arithmetic::mul::lemma_mul_is_commutative;
use vstd::arithmetic::mul::lemma_mul_inequality;
use vstd::arithmetic::mul::lemma_mul_basics;
use vstd::bits::lemma_u64_shr_is_div;

/// The group order `L = 2^252 + 27742317777372353535851937790883648493`.
pub open spec fn group_order() -> nat {
    pow2(252) + 27742317777372353535851937790883648493nat
}

/// Limbs of `L`, little-endian.
pub const GROUP_ORDER_LIMB_0: u64 = 0x5812631a5cf5d3ed;
pub const GROUP_ORDER_LIMB_1: u64 = 0x14def9dea2f79cd6;
pub const GROUP_ORDER_LIMB_2: u64 = 0x0000000000000000;
pub const GROUP_ORDER_LIMB_3: u64 = 0x1000000000000000;

/// A scalar-field element in four 64-bit little-endian limbs, kept reduced
/// below the group order.
#[derive(Clone, Copy, Debug, PartialEq, Eq, Structural)]
pub struct FieldElem {
    pub d0: u64,
    pub d1: u64,
    pub d2: u64,
    pub d3: u64,
}

impl FieldElem {
    /// The 256-bit value carried by the limbs.
    pub open spec fn as_nat(self) -> nat {
        self.d0 as nat + self.d1 as nat * pow2(64) + self.d2 as nat * pow2(128)
            + self.d3 as nat * pow2(192)
    }

    /// Well-formed: reduced below the group order.
    pub open spec fn wf(self) -> bool {
        self.as_nat() < group_order()
    }
}

/// The group order is between `2^252` and `2^253`, and above `2^128`.
pub proof fn lemma_group_order_bounds()
    ensures
        pow2(252) < group_order(),
        group_order() < pow2(253),
        pow2(128) < group_order(),
        pow2(64) < group_order(),
{
    lemma2_to64();
    lemma_pow2_adds(128, 124);
    lemma_pow2_adds(64, 188);
    lemma_pow2_adds(252, 1);
    vstd::arithmetic::power2::lemma_pow2_strictly_increases(128, 252);
    vstd::arithmetic::power2::lemma_pow2_strictly_increases(64, 252);
    vstd::arithmetic::power2::lemma_pow2_strictly_increases(125, 252);
    assert(27742317777372353535851937790883648493nat < pow2(125)) by {
        lemma_pow2_adds(64, 61);
        lemma2_to64_rest();
        assert(pow2(61) == 0x2000000000000000);
        assert(pow2(125) == 0x2000000000000000 * pow2(64));
        assert(pow2(64) == 0x10000000000000000);
    }
    assert(pow2(253) == pow2(252) + pow2(252)) by {
        assert(pow2(253) == pow2(252) * pow2(1));
        assert(pow2(1) == 2);
    }
    vstd::arithmetic::power2::lemma_pow2_strictly_increases(125, 252);
}

/// The constant-`L` limb pattern evaluates to `group_order()`.
proof fn lemma_l_limbs()
    ensures
        (FieldElem {
            d0: GROUP_ORDER_LIMB_0,
            d1: GROUP_ORDER_LIMB_1,
            d2: GROUP_ORDER_LIMB_2,
            d3: GROUP_ORDER_LIMB_3,
        }).as_nat() == group_order(),
{
    lemma2_to64();
    lemma2_to64_rest();
    lemma_pow2_adds(60, 192);
    assert(0x1000000000000000 as nat * pow2(192) == pow2(60) * pow2(192)) by {
        assert(pow2(60) == 0x1000000000000000);
    }
    assert(0x14def9dea2f79cd6 as nat * pow2(64)
        == 0x14def9dea2f79cd6 * 0x10000000000000000) by {
        assert(pow2(64) == 0x10000000000000000);
    }
}

/// One limb-sized addition with carry in and carry out.
fn carry_add(a: u64, b: u64, cin: u64) -> (r: (u64, u64))
    requires
        cin <= 1,
    ensures
        r.0 as nat + r.1 as nat * pow2(64) == a as nat + b as nat + cin as nat,
        r.1 <= 1,
{
    let t: u128 = a as u128 + b as u128 + cin as u128;
    let lo: u64 = (t % 0x10000000000000000) as u64;
    let hi: u64 = (t / 0x10000000000000000) as u64;
    proof {
        lemma_fundamental_div_mod(t as int, 0x10000000000000000);
        lemma2_to64();
        assert(hi as nat * pow2(64) == hi as nat * 0x10000000000000000) by {
            assert(pow2(64) == 0x10000000000000000);
        }
    }
    (lo, hi)
}

/// One limb-sized subtraction with borrow in and borrow out.
fn borrow_sub(a: u64, b: u64, bin: u64) -> (r: (u64, u64))
    requires
        bin <= 1,
    ensures
        r.0 as int == a as int - b as int - bin as int + r.1 as int * pow2(64),
        r.1 <= 1,
{
    let t: i128 = a as i128 - b as i128 - bin as i128;
    proof {
        lemma2_to64();
        assert(pow2(64) == 0x10000000000000000);
    }
    if t < 0 {
        let r0: u64 = (t + 0x10000000000000000) as u64;
        proof {
            assert(1int * pow2(64) == pow2(64)) by {
                lemma_mul_basics(pow2(64) as int);
            }
        }
        (r0, 1u64)
    } else {
        proof {
            assert(0int * pow2(64) == 0) by {
                lemma_mul_basics(pow2(64) as int);
            }
        }
        ((t as u64), 0u64)
    }
}

/// Scaling a carry equation by a power of two shifts it one limb up.
proof fn lemma_scale_carry_eq(r: nat, c: nat, x: nat, k: nat)
    requires
        r + c * pow2(64) == x,
    ensures
        r * pow2(k) + c * pow2(k + 64) == x * pow2(k),
{
    lemma_pow2_adds(k, 64);
    assert((r + c * pow2(64)) * pow2(k) == r * pow2(k) + (c * pow2(64)) * pow2(k)) by {
        lemma_mul_is_distributive_add_other_way(
            pow2(k) as int,
            r as int,
            (c * pow2(64)) as int,
        );
    }
    assert((c * pow2(64)) * pow2(k) == c * pow2(k + 64)) by {
        lemma_mul_is_associative(c as int, pow2(64) as int, pow2(k) as int);
        lemma_mul_is_commutative(pow2(64) as int, pow2(k) as int);
    }
}

/// Raw 256-bit addition; the numeric result reports a carry out of the top
/// limb (never set for reduced inputs).
fn add4(a: &FieldElem, b: &FieldElem) -> (r: (FieldElem, u64))
    ensures
        r.0.as_nat() + r.1 as nat * pow2(256) == a.as_nat() + b.as_nat(),
        r.1 <= 1,
{
    let (r0, c0) = carry_add(a.d0, b.d0, 0);
    let (r1, c1) = carry_add(a.d1, b.d1, c0);
    let (r2, c2) = carry_add(a.d2, b.d2, c1);
    let (r3, c3) = carry_add(a.d3, b.d3, c2);
    let r = FieldElem { d0: r0, d1: r1, d2: r2, d3: r3 };
    proof {
        lemma_scale_carry_eq(
            r1 as nat,
            c1 as nat,
            (a.d1 + b.d1 + c0) as nat,
            64,
        );
        lemma_scale_carry_eq(
            r2 as nat,
            c2 as nat,
            (a.d2 + b.d2 + c1) as nat,
            128,
        );
        lemma_scale_carry_eq(
            r3 as nat,
            c3 as nat,
            (a.d3 + b.d3 + c2) as nat,
            192,
        );
        assert((a.d1 + b.d1 + c0) as nat * pow2(64) == a.d1 as nat * pow2(64)
            + b.d1 as nat * pow2(64) + c0 as nat * pow2(64)) by {
            broadcast use vstd::arithmetic::mul::group_mul_is_distributive;

        }
        assert((a.d2 + b.d2 + c1) as nat * pow2(128) == a.d2 as nat * pow2(128)
            + b.d2 as nat * pow2(128) + c1 as nat * pow2(128)) by {
            broadcast use vstd::arithmetic::mul::group_mul_is_distributive;

        }
        assert((a.d3 + b.d3 + c2) as nat * pow2(192) == a.d3 as nat * pow2(192)
            + b.d3 as nat * pow2(192) + c2 as nat * pow2(192)) by {
            broadcast use vstd::arithmetic::mul::group_mul_is_distributive;

        }
    }
    (r, c3)
}

/// Raw 256-bit subtraction; requires the minuend to be at least the
/// subtrahend, so no borrow escapes.
fn sub4(a: &FieldElem, b: &FieldElem) -> (r: FieldElem)
    requires
        a.as_nat() >= b.as_nat(),
    ensures
        r.as_nat() == a.as_nat() - b.as_nat(),
{
    let (r0, w0) = borrow_sub(a.d0, b.d0, 0);
    let (r1, w1) = borrow_sub(a.d1, b.d1, w0);
    let (r2, w2) = borrow_sub(a.d2, b.d2, w1);
    let (r3, w3) = borrow_sub(a.d3, b.d3, w2);
    let r = FieldElem { d0: r0, d1: r1, d2: r2, d3: r3 };
    proof {
        // r_i == a_i - b_i - w_{i-1} + w_i * 2^64; scale each level.
        lemma_scale_signed_eq(
            r1 as int,
            a.d1 as int - b.d1 as int - w0 as int,
            w1 as int,
            64,
        );
        lemma_scale_signed_eq(
            r2 as int,
            a.d2 as int - b.d2 as int - w1 as int,
            w2 as int,
            128,
        );
        lemma_scale_signed_eq(
            r3 as int,
            a.d3 as int - b.d3 as int - w2 as int,
            w3 as int,
            192,
        );
        assert((a.d1 as int - b.d1 as int - w0 as int) * pow2(64) as int == a.d1 as int
            * pow2(64) as int - b.d1 as int * pow2(64) as int - w0 as int * pow2(
            64,
        ) as int) by {
            broadcast use vstd::arithmetic::mul::group_mul_is_distributive;

        }
        assert((a.d2 as int - b.d2 as int - w1 as int) * pow2(128) as int == a.d2 as int
            * pow2(128) as int - b.d2 as int * pow2(128) as int - w1 as int * pow2(
            128,
        ) as int) by {
            broadcast use vstd::arithmetic::mul::group_mul_is_distributive;

        }
        assert((a.d3 as int - b.d3 as int - w2 as int) * pow2(192) as int == a.d3 as int
            * pow2(192) as int - b.d3 as int * pow2(192) as int - w2 as int * pow2(
            192,
        ) as int) by {
            broadcast use vstd::arithmetic::mul::group_mul_is_distributive;

        }
        assert(r.as_nat() as int == a.as_nat() as int - b.as_nat() as int + w3 as int
            * pow2(256) as int);
        if w3 == 1 {
            lemma_as_nat_bound(r);
            assert(false);
        }
    }
    r
}

/// Scaling a signed borrow equation by a power of two.
proof fn lemma_scale_signed_eq(r: int, x: int, w: int, k: nat)
    requires
        r == x + w * pow2(64),
    ensures
        r * pow2(k) == x * pow2(k) + w * pow2(k + 64),
{
    lemma_pow2_adds(k, 64);
    assert((x + w * pow2(64)) * pow2(k) == x * pow2(k) + (w * pow2(64)) * pow2(k)) by {
        lemma_mul_is_distributive_add_other_way(pow2(k) as int, x, w * pow2(64));
    }
    assert((w * pow2(64)) * pow2(k) == w * pow2(k + 64)) by {
        lemma_mul_is_associative(w, pow2(64) as int, pow2(k) as int);
        lemma_mul_is_commutative(pow2(64) as int, pow2(k) as int);
    }
}

/// Any four-limb value is below `2^256`; partial sums stay below the next
/// limb weight.
proof fn lemma_as_nat_bound(a: FieldElem)
    ensures
        a.d0 as nat + a.d1 as nat * pow2(64) < pow2(128),
        a.d0 as nat + a.d1 as nat * pow2(64) + a.d2 as nat * pow2(128) < pow2(192),
        a.as_nat() < pow2(256),
{
    lemma2_to64();
    lemma_pow2_adds(64, 64);
    lemma_pow2_adds(128, 64);
    lemma_pow2_adds(192, 64);
    lemma_limb_bound(a.d1 as nat, 64);
    lemma_limb_bound(a.d2 as nat, 128);
    lemma_limb_bound(a.d3 as nat, 192);
}

/// `d * 2^k <= 2^(k+64) - 2^k` for a limb `d < 2^64`.
proof fn lemma_limb_bound(d: nat, k: nat)
    requires
        d < pow2(64),
    ensures
        d * pow2(k) <= pow2(k + 64) - pow2(k),
{
    lemma_pow2_adds(k, 64);
    lemma_pow2_pos(k);
    lemma_mul_inequality(d as int, pow2(64) as int - 1, pow2(k) as int);
    assert((pow2(64) - 1) * pow2(k) == pow2(64) * pow2(k) - 1 * pow2(k)) by {
        lemma_mul_is_distributive_sub_other_way(
            pow2(k) as int,
            pow2(64) as int,
            1int,
        );
    }
    assert(1int * pow2(k) == pow2(k)) by {
        lemma_mul_basics(pow2(k) as int);
    }
    assert(pow2(64) * pow2(k) == pow2(k + 64)) by {
        lemma_mul_is_commutative(pow2(64) as int, pow2(k) as int);
    }
}

/// `true` exactly when `a >= b` as 256-bit values.
fn gte(a: &FieldElem, b: &FieldElem) -> (r: bool)
    ensures
        r == (a.as_nat() >= b.as_nat()),
{
    proof {
        lemma_as_nat_bound(*a);
        lemma_as_nat_bound(*b);
        lemma2_to64();
        lemma_pow2_pos(64);
        lemma_pow2_pos(128);
        lemma_pow2_pos(192);
        if a.d3 != b.d3 {
            lemma_limb_diff(a.d3 as nat, b.d3 as nat, 192);
            if a.d3 > b.d3 {
                assert(a.as_nat() >= a.d3 as nat * pow2(192));
                assert(b.as_nat() < b.d3 as nat * pow2(192) + pow2(192));
            } else {
                assert(b.as_nat() >= b.d3 as nat * pow2(192));
                assert(a.as_nat() < a.d3 as nat * pow2(192) + pow2(192));
            }
        } else if a.d2 != b.d2 {
            lemma_limb_diff(a.d2 as nat, b.d2 as nat, 128);
            assert(a.d3 as nat * pow2(192) == b.d3 as nat * pow2(192));
        } else if a.d1 != b.d1 {
            lemma_limb_diff(a.d1 as nat, b.d1 as nat, 64);
            assert(a.d3 as nat * pow2(192) == b.d3 as nat * pow2(192));
            assert(a.d2 as nat * pow2(128) == b.d2 as nat * pow2(128));
        } else {
            assert(a.d3 as nat * pow2(192) == b.d3 as nat * pow2(192));
            assert(a.d2 as nat * pow2(128) == b.d2 as nat * pow2(128));
            assert(a.d1 as nat * pow2(64) == b.d1 as nat * pow2(64));
        }
    }
    if a.d3 != b.d3 {
        a.d3 > b.d3
    } else if a.d2 != b.d2 {
        a.d2 > b.d2
    } else if a.d1 != b.d1 {
        a.d1 > b.d1
    } else {
        a.d0 >= b.d0
    }
}

/// If limbs differ at one weight, the gap at that weight dominates
/// everything below it.
proof fn lemma_limb_diff(x: nat, y: nat, k: nat)
    requires
        x != y,
    ensures
        x > y ==> x * pow2(k) >= y * pow2(k) + pow2(k),
        x < y ==> y * pow2(k) >= x * pow2(k) + pow2(k),
{
    lemma_pow2_pos(k);
    if x > y {
        lemma_mul_inequality((y + 1) as int, x as int, pow2(k) as int);
        assert((y + 1) * pow2(k) == y * pow2(k) + 1 * pow2(k)) by {
            lemma_mul_is_distributive_add_other_way(pow2(k) as int, y as int, 1int);
        }
        assert(1int * pow2(k) == pow2(k)) by {
            lemma_mul_basics(pow2(k) as int);
        }
    } else {
        lemma_mul_inequality((x + 1) as int, y as int, pow2(k) as int);
        assert((x + 1) * pow2(k) == x * pow2(k) + 1 * pow2(k)) by {
            lemma_mul_is_distributive_add_other_way(pow2(k) as int, x as int, 1int);
        }
        assert(1int * pow2(k) == pow2(k)) by {
            lemma_mul_basics(pow2(k) as int);
        }
    }
}

impl FieldElem {
    /// The additive identity.
    pub fn zero() -> (r: FieldElem)
        ensures
            r.wf(),
            r.as_nat() == 0,
    {
        proof {
            lemma_zero_value();
            lemma_group_order_bounds();
            lemma_pow2_pos(252);
        }
        FieldElem { d0: 0, d1: 0, d2: 0, d3: 0 }
    }

    /// The multiplicative identity.
    pub fn one() -> (r: FieldElem)
        ensures
            r.wf(),
            r.as_nat() == 1,
    {
        let r = FieldElem { d0: 1, d1: 0, d2: 0, d3: 0 };
        proof {
            lemma_zero_muls();
            lemma_group_order_bounds();
            lemma2_to64();
        }
        r
    }

    /// Embed a 64-bit integer; such values are always reduced.
    pub fn from_u64(x: u64) -> (r: FieldElem)
        ensures
            r.wf(),
            r.as_nat() == x as nat,
    {
        let r = FieldElem { d0: x, d1: 0, d2: 0, d3: 0 };
        proof {
            lemma_zero_muls();
            lemma_group_order_bounds();
            lemma2_to64();
        }
        r
    }

    /// Embed a 128-bit integer; such values are always reduced.
    pub fn from_u128(x: u128) -> (r: FieldElem)
        ensures
            r.wf(),
            r.as_nat() == x as nat,
    {
        let lo: u64 = (x % 0x10000000000000000) as u64;
        let hi: u64 = (x / 0x10000000000000000) as u64;
        let r = FieldElem { d0: lo, d1: hi, d2: 0, d3: 0 };
        proof {
            lemma_fundamental_div_mod(x as int, 0x10000000000000000);
            lemma_zero_muls();
            lemma2_to64();
            assert(hi as nat * pow2(64) == hi as nat * 0x10000000000000000) by {
                assert(pow2(64) == 0x10000000000000000);
            }
            lemma_group_order_bounds();
            lemma_as_nat_bound(r);
            vstd::arithmetic::power2::lemma_pow2_strictly_increases(128, 252);
        }
        r
    }

    /// Addition mod `L`.
    pub fn add_mod(&self, other: &FieldElem) -> (r: FieldElem)
        requires
            self.wf(),
            other.wf(),
        ensures
            r.wf(),
            r.as_nat() == (self.as_nat() + other.as_nat()) % group_order(),
    {
        let l = FieldElem {
            d0: GROUP_ORDER_LIMB_0,
            d1: GROUP_ORDER_LIMB_1,
            d2: GROUP_ORDER_LIMB_2,
            d3: GROUP_ORDER_LIMB_3,
        };
        proof {
            lemma_l_limbs();
            lemma_group_order_bounds();
        }
        let (s, carry) = add4(self, other);
        proof {
            if carry != 0 {
                assert(carry as nat * pow2(256) == 1nat * pow2(256));
                assert(1nat * pow2(256) == pow2(256)) by {
                    lemma_mul_basics(pow2(256) as int);
                }
                lemma_pow2_adds(253, 1);
                assert(pow2(253) * pow2(1) == pow2(253) * 2) by {
                    lemma2_to64();
                }
                vstd::arithmetic::power2::lemma_pow2_strictly_increases(254, 256);
                assert(false);
            }
            lemma_mul_basics(pow2(256) as int);
        }
        let ghost total: nat = (self.as_nat() + other.as_nat()) as nat;
        if gte(&s, &l) {
            let r = sub4(&s, &l);
            proof {
                lemma_fundamental_div_mod_converse(
                    total as int,
                    group_order() as int,
                    1,
                    r.as_nat() as int,
                );
            }
            r
        } else {
            proof {
                lemma_small_mod(total, group_order());
            }
            s
        }
    }

    /// Additive inverse mod `L`.
    pub fn neg_mod(&self) -> (r: FieldElem)
        requires
            self.wf(),
        ensures
            r.wf(),
            r.as_nat() == (group_order() - self.as_nat()) % (group_order() as int),
    {
        let l = FieldElem {
            d0: GROUP_ORDER_LIMB_0,
            d1: GROUP_ORDER_LIMB_1,
            d2: GROUP_ORDER_LIMB_2,
            d3: GROUP_ORDER_LIMB_3,
        };
        proof {
            lemma_l_limbs();
            lemma_group_order_bounds();
            lemma_zero_muls();
        }
        if self.d0 == 0 && self.d1 == 0 && self.d2 == 0 && self.d3 == 0 {
            proof {
                vstd::arithmetic::div_mod::lemma_mod_self_0(group_order() as int);
                lemma_pow2_pos(252);
            }
            FieldElem { d0: 0, d1: 0, d2: 0, d3: 0 }
        } else {
            proof {
                lemma_nonzero_limb_positive(*self);
            }
            let r = sub4(&l, self);
            proof {
                lemma_small_mod((group_order() - self.as_nat()) as nat, group_order());
            }
            r
        }
    }

    /// The bit of the value at position `i` (little-endian).
    pub open spec fn spec_bit(self, i: nat) -> nat {
        (self.as_nat() / pow2(i)) % 2
    }

    /// Extract bit `i` of the value.
    pub fn bit(&self, i: usize) -> (r: u64)
        requires
            i < 256,
        ensures
            r == self.spec_bit(i as nat),
            r <= 1,
    {
        let (limb, s): (u64, usize) = if i < 64 {
            (self.d0, i)
        } else if i < 128 {
            (self.d1, i - 64)
        } else if i < 192 {
            (self.d2, i - 128)
        } else {
            (self.d3, i - 192)
        };
        proof {
            lemma_fe_bit_from_limb(*self, i as nat);
            lemma_u64_shr_is_div(limb, s as u64);
        }
        (limb >> (s as u64)) % 2
    }

    /// Multiplication mod `L`, by binary double-and-add on the multiplier.
    pub fn mul_mod(&self, other: &FieldElem) -> (r: FieldElem)
        requires
            self.wf(),
            other.wf(),
        ensures
            r.wf(),
            r.as_nat() == (self.as_nat() * other.as_nat()) % group_order(),
    {
        let mut acc = FieldElem::zero();
        let mut i: usize = 0;
        proof {
            lemma_group_order_bounds();
            lemma_as_nat_bound(*other);
            lemma_basic_div(other.as_nat() as int, pow2(256) as int);
            lemma_pow2_pos(256);
            lemma_small_mod(0, group_order());
            assert(self.as_nat() * 0 == 0) by {
                lemma_mul_basics(self.as_nat() as int);
            }
        }
        while i < 256
            invariant
                self.wf(),
                other.wf(),
                acc.wf(),
                i <= 256,
                acc.as_nat() == (self.as_nat() * (other.as_nat() / pow2((256 - i) as nat)))
                    % group_order(),
            decreases 256 - i,
        {
            let ghost a: nat = self.as_nat();
            let ghost q: nat = other.as_nat() / pow2((256 - i) as nat);
            let b = other.bit(255 - i);
            let doubled = acc.add_mod(&acc);
            let next = if b == 1 {
                doubled.add_mod(self)
            } else {
                doubled
            };
            proof {
                lemma_mul_step(other.as_nat(), (255 - i) as nat);
                let q2: nat = other.as_nat() / pow2((255 - i) as nat);
                let bb: nat = other.spec_bit((255 - i) as nat);
                assert(q2 == 2 * q + bb);
                lemma_add_mod_noop((a * q) as int, (a * q) as int, group_order() as int);
                assert(doubled.as_nat() == (a * q + a * q) % group_order());
                if b == 1 {
                    lemma_add_mod_noop(
                        (a * q + a * q) as int,
                        a as int,
                        group_order() as int,
                    );
                    lemma_small_mod(a, group_order());
                    assert(next.as_nat() == (a * q + a * q + a) % group_order());
                }
                assert(a * q2 == a * (2 * q) + a * bb) by {
                    lemma_mul_is_distributive_add(a as int, (2 * q) as int, bb as int);
                }
                assert(a * (2 * q) == a * q + a * q) by (nonlinear_arith);
                assert(a * 1 == a && a * 0 == 0) by {
                    lemma_mul_basics(a as int);
                }
                assert(next.as_nat() == (a * q2) % group_order());
            }
            acc = next;
            i = i + 1;
        }
        proof {
            lemma2_to64();
            assert(other.as_nat() / pow2(0) == other.as_nat()) by {
                vstd::arithmetic::div_mod::lemma_div_basics_1(other.as_nat() as int);
            }
        }
        acc
    }
}

/// Products with a zero factor vanish.
proof fn lemma_zero_muls()
    ensures
        forall|k: nat| #[trigger] (0nat * pow2(k)) == 0,
{
    assert forall|k: nat| #[trigger] (0nat * pow2(k)) == 0 by {
        lemma_mul_basics(pow2(k) as int);
    }
}

/// The all-zero limb pattern has value zero.
proof fn lemma_zero_value()
    ensures
        (FieldElem { d0: 0, d1: 0, d2: 0, d3: 0 }).as_nat() == 0,
{
    lemma_zero_muls();
}

/// A value with some nonzero limb is positive.
proof fn lemma_nonzero_limb_positive(a: FieldElem)
    requires
        a.d0 != 0 || a.d1 != 0 || a.d2 != 0 || a.d3 != 0,
    ensures
        a.as_nat() > 0,
{
    lemma_pow2_pos(64);
    lemma_pow2_pos(128);
    lemma_pow2_pos(192);
    if a.d1 != 0 {
        lemma_mul_inequality(1, a.d1 as int, pow2(64) as int);
        lemma_mul_basics(pow2(64) as int);
    }
    if a.d2 != 0 {
        lemma_mul_inequality(1, a.d2 as int, pow2(128) as int);
        lemma_mul_basics(pow2(128) as int);
    }
    if a.d3 != 0 {
        lemma_mul_inequality(1, a.d3 as int, pow2(192) as int);
        lemma_mul_basics(pow2(192) as int);
    }
}

/// Limb decompositions are unique: equal values force equal limbs.
pub proof fn lemma_as_nat_injective(a: FieldElem, b: FieldElem)
    requires
        a.as_nat() == b.as_nat(),
    ensures
        a == b,
{
    lemma2_to64();
    lemma_pow2_pos(64);
    let ha: nat = a.d1 as nat + a.d2 as nat * pow2(64) + a.d3 as nat * pow2(128);
    let hb: nat = b.d1 as nat + b.d2 as nat * pow2(64) + b.d3 as nat * pow2(128);
    assert(a.as_nat() == a.d0 as nat + pow2(64) * ha) by {
        lemma_limb_regroup(a.d1 as nat, a.d2 as nat, a.d3 as nat);
    }
    assert(b.as_nat() == b.d0 as nat + pow2(64) * hb) by {
        lemma_limb_regroup(b.d1 as nat, b.d2 as nat, b.d3 as nat);
    }
    lemma_fundamental_div_mod_converse(
        a.as_nat() as int,
        pow2(64) as int,
        ha as int,
        a.d0 as int,
    );
    lemma_fundamental_div_mod_converse(
        b.as_nat() as int,
        pow2(64) as int,
        hb as int,
        b.d0 as int,
    );
    let ha2: nat = a.d2 as nat + a.d3 as nat * pow2(64);
    let hb2: nat = b.d2 as nat + b.d3 as nat * pow2(64);
    assert(ha == a.d1 as nat + pow2(64) * ha2) by {
        lemma_limb_regroup_two(a.d2 as nat, a.d3 as nat);
    }
    assert(hb == b.d1 as nat + pow2(64) * hb2) by {
        lemma_limb_regroup_two(b.d2 as nat, b.d3 as nat);
    }
    lemma_fundamental_div_mod_converse(ha as int, pow2(64) as int, ha2 as int, a.d1 as int);
    lemma_fundamental_div_mod_converse(hb as int, pow2(64) as int, hb2 as int, b.d1 as int);
    lemma_fundamental_div_mod_converse(
        ha2 as int,
        pow2(64) as int,
        a.d3 as int,
        a.d2 as int,
    );
    lemma_fundamental_div_mod_converse(
        hb2 as int,
        pow2(64) as int,
        b.d3 as int,
        b.d2 as int,
    );
}

/// `x / 2^j` in terms of `x / 2^(j+1)` and bit `j` of `x`.
proof fn lemma_mul_step(x: nat, j: nat)
    ensures
        x / pow2(j) == 2 * (x / pow2(j + 1)) + (x / pow2(j)) % 2,
{
    lemma_pow2_pos(j);
    lemma_pow2_adds(j, 1);
    lemma2_to64();
    let u = x / pow2(j);
    lemma_fundamental_div_mod(u as int, 2);
    lemma_div_denominator(x as int, pow2(j) as int, 2);
}

/// Bit `i` of the 256-bit value equals the matching bit of the limb that
/// holds it.
proof fn lemma_fe_bit_from_limb(e: FieldElem, i: nat)
    requires
        i < 256,
    ensures
        i < 64 ==> e.spec_bit(i) == (e.d0 as nat / pow2(i)) % 2,
        64 <= i < 128 ==> e.spec_bit(i) == (e.d1 as nat / pow2((i - 64) as nat)) % 2,
        128 <= i < 192 ==> e.spec_bit(i) == (e.d2 as nat / pow2((i - 128) as nat)) % 2,
        192 <= i ==> e.spec_bit(i) == (e.d3 as nat / pow2((i - 192) as nat)) % 2,
{
    let hi1: nat = e.d1 as nat + e.d2 as nat * pow2(64) + e.d3 as nat * pow2(128);
    let hi2: nat = e.d2 as nat + e.d3 as nat * pow2(64);
    let hi3: nat = e.d3 as nat;
    lemma_pow2_pos(64);
    lemma2_to64();
    assert(e.as_nat() == e.d0 as nat + pow2(64) * hi1) by {
        lemma_limb_regroup(e.d1 as nat, e.d2 as nat, e.d3 as nat);
    }
    assert(hi1 == e.d1 as nat + pow2(64) * hi2) by {
        lemma_limb_regroup_two(e.d2 as nat, e.d3 as nat);
    }
    if i < 64 {
        lemma_split_low_bit(e.d0 as nat, hi1, i);
    } else {
        assert(e.as_nat() / pow2(64) == hi1) by {
            lemma_fundamental_div_mod_converse(
                e.as_nat() as int,
                pow2(64) as int,
                hi1 as int,
                e.d0 as int,
            );
        }
        if i < 128 {
            lemma_div_pow2_chain(e.as_nat(), 64, (i - 64) as nat);
            lemma_split_low_bit(e.d1 as nat, hi2, (i - 64) as nat);
        } else {
            assert(hi1 / pow2(64) == hi2) by {
                lemma_fundamental_div_mod_converse(
                    hi1 as int,
                    pow2(64) as int,
                    hi2 as int,
                    e.d1 as int,
                );
            }
            if i < 192 {
                lemma_div_pow2_chain(e.as_nat(), 64, (i - 64) as nat);
                lemma_div_pow2_chain(hi1, 64, (i - 128) as nat);
                lemma_split_low_bit(e.d2 as nat, hi3, (i - 128) as nat);
            } else {
                assert(hi2 / pow2(64) == hi3) by {
                    lemma_fundamental_div_mod_converse(
                        hi2 as int,
                        pow2(64) as int,
                        hi3 as int,
                        e.d2 as int,
                    );
                }
                lemma_div_pow2_chain(e.as_nat(), 64, (i - 64) as nat);
                lemma_div_pow2_chain(hi1, 64, (i - 128) as nat);
                lemma_div_pow2_chain(hi2, 64, (i - 192) as nat);
                lemma_split_low_bit(e.d3 as nat, 0, (i - 192) as nat);
                assert(pow2(64) * 0nat == 0) by {
                    lemma_mul_basics(pow2(64) as int);
                }
            }
        }
    }
}

/// `d1 + d2*2^64 + d3*2^128`, regrouped around the lowest limb.
proof fn lemma_limb_regroup(d1: nat, d2: nat, d3: nat)
    ensures
        d1 * pow2(64) + d2 * pow2(128) + d3 * pow2(192) == pow2(64) * (d1 + d2 * pow2(64)
            + d3 * pow2(128)),
{
    lemma_pow2_adds(64, 64);
    lemma_pow2_adds(64, 128);
    assert(pow2(64) * (d1 + d2 * pow2(64) + d3 * pow2(128)) == pow2(64) * d1 + pow2(64)
        * (d2 * pow2(64)) + pow2(64) * (d3 * pow2(128))) by {
        broadcast use vstd::arithmetic::mul::group_mul_is_distributive;

    }
    assert(pow2(64) * (d2 * pow2(64)) == d2 * pow2(128)) by {
        lemma_mul_is_associative(pow2(64) as int, d2 as int, pow2(64) as int);
        lemma_mul_is_commutative(pow2(64) as int, d2 as int);
        lemma_mul_is_associative(d2 as int, pow2(64) as int, pow2(64) as int);
    }
    assert(pow2(64) * (d3 * pow2(128)) == d3 * pow2(192)) by {
        lemma_mul_is_associative(pow2(64) as int, d3 as int, pow2(128) as int);
        lemma_mul_is_commutative(pow2(64) as int, d3 as int);
        lemma_mul_is_associative(d3 as int, pow2(64) as int, pow2(128) as int);
        lemma_mul_is_commutative(pow2(64) as int, pow2(128) as int);
    }
    assert(pow2(64) * d1 == d1 * pow2(64)) by {
        lemma_mul_is_commutative(pow2(64) as int, d1 as int);
    }
}

/// `d2 + d3*2^64`, regrouped the same way.
proof fn lemma_limb_regroup_two(d2: nat, d3: nat)
    ensures
        d2 * pow2(64) + d3 * pow2(128) == pow2(64) * (d2 + d3 * pow2(64)),
{
    lemma_pow2_adds(64, 64);
    assert(pow2(64) * (d2 + d3 * pow2(64)) == pow2(64) * d2 + pow2(64) * (d3 * pow2(
        64,
    ))) by {
        broadcast use vstd::arithmetic::mul::group_mul_is_distributive;

    }
    assert(pow2(64) * (d3 * pow2(64)) == d3 * pow2(128)) by {
        lemma_mul_is_associative(pow2(64) as int, d3 as int, pow2(64) as int);
        lemma_mul_is_commutative(pow2(64) as int, d3 as int);
        lemma_mul_is_associative(d3 as int, pow2(64) as int, pow2(64) as int);
    }
    assert(pow2(64) * d2 == d2 * pow2(64)) by {
        lemma_mul_is_commutative(pow2(64) as int, d2 as int);
    }
}

/// Chained division by powers of two: `(x / 2^a) / 2^b == x / 2^(a+b)`.
proof fn lemma_div_pow2_chain(x: nat, a: nat, b: nat)
    ensures
        (x / pow2(a)) / pow2(b) == x / pow2(a + b),
{
    lemma_pow2_pos(a);
    lemma_pow2_pos(b);
    lemma_pow2_adds(a, b);
    lemma_div_denominator(x as int, pow2(a) as int, pow2(b) as int);
}

/// For `s < 64`, bit `s` of `lo + 2^64 * hi` is bit `s` of `lo`.
proof fn lemma_split_low_bit(lo: nat, hi: nat, s: nat)
    requires
        lo < pow2(64),
        s < 64,
    ensures
        ((lo + pow2(64) * hi) / pow2(s)) % 2 == (lo / pow2(s)) % 2,
{
    lemma_pow2_pos(s);
    lemma_pow2_pos((64 - s) as nat);
    lemma_pow2_adds(s, (64 - s) as nat);
    let k: nat = pow2((64 - s) as nat) * hi;
    assert(pow2(64) * hi == pow2(s) * k) by {
        lemma_mul_is_associative(pow2(s) as int, pow2((64 - s) as nat) as int, hi as int);
    }
    assert((lo + pow2(s) * k) as int / pow2(s) as int == lo as int / pow2(s) as int
        + k) by {
        vstd::arithmetic::div_mod::lemma_hoist_over_denominator(
            lo as int,
            k as int,
            pow2(s),
        );
        lemma_mul_is_commutative(pow2(s) as int, k as int);
    }
    assert(k % 2 == 0) by {
        lemma_pow2_adds(1, (63 - s) as nat);
        lemma2_to64();
        assert(pow2((64 - s) as nat) == 2 * pow2((63 - s) as nat));
        lemma_mul_is_associative(2, pow2((63 - s) as nat) as int, hi as int);
        vstd::arithmetic::div_mod::lemma_mod_multiples_basic(
            (pow2((63 - s) as nat) * hi) as int,
            2,
        );
    }
    lemma_mod_multiples_vanish((k / 2) as int, (lo / pow2(s)) as int, 2);
    assert(2 * (k / 2) == k) by {
        lemma_fundamental_div_mod(k as int, 2);
    }
}

} // verus!
