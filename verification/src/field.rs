//! The prime field over which every trace cell, hash and constraint value
//! lives.
//!
//! Elements are residues modulo `MODULUS`, a 64-bit prime. A [`Felt`] holds
//! its canonical representative in a `u64`; a type invariant keeps the value
//! below the modulus at all times, so field operations can state their results
//! purely in terms of modular arithmetic on the mathematical value.

use vstd::arithmetic::div_mod::{
    lemma_add_mod_noop, lemma_mod_twice, lemma_mul_mod_noop_general, lemma_small_mod,
    lemma_sub_mod_noop,
};
use vstd::arithmetic::power::{lemma_pow_adds, lemma_pow_multiplies, lemma_pow_mod_noop, pow};
use vstd::prelude::*;

verus! {

/// The field modulus: `2^64 - 2^32 + 1`, a prime.
pub const MODULUS: u64 = 0xffff_ffff_0000_0001;

/// Addition of canonical residues.
pub open spec fn f_add(a: int, b: int) -> int {
    (a + b) % (MODULUS as int)
}

/// Subtraction of canonical residues.
pub open spec fn f_sub(a: int, b: int) -> int {
    (a - b) % (MODULUS as int)
}

/// Multiplication of canonical residues.
pub open spec fn f_mul(a: int, b: int) -> int {
    (a * b) % (MODULUS as int)
}

/// Additive inverse of a canonical residue.
pub open spec fn f_neg(a: int) -> int {
    (0 - a) % (MODULUS as int)
}

/// `b` raised to the power `e`, as a canonical residue.
pub open spec fn f_pow(b: int, e: nat) -> int {
    pow(b, e) % (MODULUS as int)
}

/// The multiplicative inverse, computed as `x^(MODULUS - 2)`. For nonzero
/// `x` this is the inverse element by Fermat's little theorem; `f_inv(0)`
/// is `0`.
pub open spec fn f_inv(x: int) -> int {
    f_pow(x, (MODULUS - 2) as nat)
}

/// An element of the prime field, stored as its canonical representative.
#[derive(Clone, Copy, Debug, PartialEq, Eq, Structural)]
pub struct Felt {
    v: u64,
}

impl Felt {
    #[verifier::type_invariant]
    spec fn type_inv(self) -> bool {
        self.v < MODULUS
    }

    /// The mathematical value of the element, in `[0, MODULUS)`.
    pub closed spec fn val(self) -> int {
        self.v as int
    }

    /// The element for an arbitrary integer, reduced modulo the field order.
    pub fn new(value: u64) -> (r: Felt)
        ensures
            r.val() == value as int % (MODULUS as int),
    {
        Felt { v: value % MODULUS }
    }

    /// The additive identity.
    pub fn zero() -> (r: Felt)
        ensures
            r.val() == 0,
    {
        Felt { v: 0 }
    }

    /// The multiplicative identity.
    pub fn one() -> (r: Felt)
        ensures
            r.val() == 1,
    {
        Felt { v: 1 }
    }

    /// The canonical representative as an integer.
    pub fn as_int(self) -> (r: u64)
        ensures
            r as int == self.val(),
            r < MODULUS,
    {
        proof {
            use_type_invariant(self);
        }
        self.v
    }

    /// Field addition.
    pub fn add(self, other: Felt) -> (r: Felt)
        ensures
            r.val() == f_add(self.val(), other.val()),
    {
        proof {
            use_type_invariant(self);
            use_type_invariant(other);
        }
        let s: u128 = self.v as u128 + other.v as u128;
        let reduced: u64 = if s >= MODULUS as u128 {
            (s - MODULUS as u128) as u64
        } else {
            s as u64
        };
        proof {
            lemma_mod_of_shifted_sum(self.v as int, other.v as int, reduced as int);
        }
        Felt { v: reduced }
    }

    /// Field subtraction.
    pub fn sub(self, other: Felt) -> (r: Felt)
        ensures
            r.val() == f_sub(self.val(), other.val()),
    {
        proof {
            use_type_invariant(self);
            use_type_invariant(other);
        }
        let reduced: u64 = if self.v >= other.v {
            self.v - other.v
        } else {
            self.v + (MODULUS - other.v)
        };
        proof {
            lemma_mod_of_difference(self.v as int, other.v as int, reduced as int);
        }
        Felt { v: reduced }
    }

    /// Additive inverse.
    pub fn neg(self) -> (r: Felt)
        ensures
            r.val() == f_neg(self.val()),
    {
        Felt::zero().sub(self)
    }

    /// Field multiplication.
    pub fn mul(self, other: Felt) -> (r: Felt)
        ensures
            r.val() == f_mul(self.val(), other.val()),
    {
        proof {
            use_type_invariant(self);
            use_type_invariant(other);
            let a = self.v as int;
            let b = other.v as int;
            assert(a * b < 0x100000000000000000000000000000000) by (nonlinear_arith)
                requires
                    0 <= a < 0x10000000000000000,
                    0 <= b < 0x10000000000000000,
            ;
        }
        let prod: u128 = self.v as u128 * other.v as u128;
        let reduced: u64 = (prod % MODULUS as u128) as u64;
        Felt { v: reduced }
    }

    /// Square-and-multiply exponentiation.
    pub fn pow(self, exp: u64) -> (r: Felt)
        ensures
            r.val() == f_pow(self.val(), exp as nat),
    {
        proof {
            use_type_invariant(self);
        }
        let mut base = self;
        let mut e = exp;
        let mut acc = Felt::one();
        proof {
            lemma_pow_one_acc(self.val(), exp as nat);
        }
        while e > 0
            invariant
                f_mul(acc.val(), f_pow(base.val(), e as nat)) == f_pow(self.val(), exp as nat),
            decreases e,
        {
            if e % 2 == 1 {
                proof {
                    use_type_invariant(acc);
                    use_type_invariant(base);
                    lemma_pow_step_odd(acc.val(), base.val(), e as nat);
                }
                acc = acc.mul(base);
            } else {
                proof {
                    use_type_invariant(acc);
                    use_type_invariant(base);
                    lemma_pow_step_even(acc.val(), base.val(), e as nat);
                }
            }
            base = base.mul(base);
            e = e / 2;
        }
        proof {
            use_type_invariant(acc);
            lemma_pow_zero_exp(acc.val(), base.val());
        }
        acc
    }

    /// Multiplicative inverse as `x^(MODULUS - 2)`; `0` maps to `0`.
    pub fn inv(self) -> (r: Felt)
        ensures
            r.val() == f_inv(self.val()),
    {
        self.pow(MODULUS - 2)
    }
}

/// Reduction step used by `Felt::add`: `reduced` is the sum shifted back into
/// the canonical range, so it equals the sum modulo the field order.
proof fn lemma_mod_of_shifted_sum(a: int, b: int, reduced: int)
    requires
        0 <= a < MODULUS as int,
        0 <= b < MODULUS as int,
        reduced == a + b || reduced == a + b - MODULUS as int,
        0 <= reduced < MODULUS as int,
    ensures
        reduced == f_add(a, b),
{
    let m = MODULUS as int;
    lemma_small_mod(reduced as nat, MODULUS as nat);
    if reduced == a + b - m {
        assert((a + b) % m == (reduced + m) % m);
        assert((reduced + m) % m == reduced % m) by {
            lemma_add_mod_noop(reduced, m, m);
            lemma_mod_twice(reduced, m);
        }
    }
}

/// Reduction step used by `Felt::sub`.
proof fn lemma_mod_of_difference(a: int, b: int, reduced: int)
    requires
        0 <= a < MODULUS as int,
        0 <= b < MODULUS as int,
        reduced == a - b || reduced == a - b + MODULUS as int,
        0 <= reduced < MODULUS as int,
    ensures
        reduced == f_sub(a, b),
{
    let m = MODULUS as int;
    lemma_small_mod(reduced as nat, MODULUS as nat);
    if reduced == a - b + m {
        assert((a - b) % m == (reduced - m) % m);
        assert((reduced - m) % m == reduced % m) by {
            lemma_sub_mod_noop(reduced, m, m);
            lemma_mod_twice(reduced, m);
        }
    }
}

/// `1 * (b^e mod m) mod m == b^e mod m`, the entry invariant of `Felt::pow`.
proof fn lemma_pow_one_acc(b: int, e: nat)
    requires
        0 <= b < MODULUS as int,
    ensures
        f_mul(1, f_pow(b, e)) == f_pow(b, e),
{
    let m = MODULUS as int;
    lemma_pow_mod_bound(b, e);
    lemma_small_mod(f_pow(b, e) as nat, MODULUS as nat);
}

/// The residue of a power is a canonical residue.
proof fn lemma_pow_mod_bound(b: int, e: nat)
    ensures
        0 <= f_pow(b, e) < MODULUS as int,
{
    let m = MODULUS as int;
    assert(0 <= pow(b, e) % m < m) by {
        vstd::arithmetic::div_mod::lemma_mod_bound(pow(b, e), m);
    }
}

/// Loop step of `Felt::pow` for odd exponents: folding the base into the
/// accumulator and squaring preserves the invariant product.
proof fn lemma_pow_step_odd(acc: int, base: int, e: nat)
    requires
        e % 2 == 1,
        0 <= acc < MODULUS as int,
        0 <= base < MODULUS as int,
    ensures
        f_mul(f_mul(acc, base), f_pow(f_mul(base, base), (e / 2) as nat)) == f_mul(
            acc,
            f_pow(base, e),
        ),
{
    let m = MODULUS as int;
    assert(f_mul(f_mul(acc, base), f_pow(f_mul(base, base), (e / 2) as nat)) == f_mul(
        acc,
        f_mul(base, f_pow(f_mul(base, base), (e / 2) as nat)),
    )) by {
        lemma_pow_mod_bound(f_mul(base, base), (e / 2) as nat);
        lemma_f_mul_assoc(acc, base, f_pow(f_mul(base, base), (e / 2) as nat));
    }
    lemma_pow_of_square(base, (e / 2) as nat);
    // f_pow(f_mul(base,base), e/2) == f_pow(base, 2*(e/2))
    assert(f_mul(base, f_pow(base, (2 * (e / 2)) as nat)) == f_pow(base, e)) by {
        lemma_mul_mod_noop_general(base, pow(base, (2 * (e / 2)) as nat), m);
        assert(base * pow(base, (2 * (e / 2)) as nat) == pow(base, e)) by {
            assert(pow(base, 1nat) == base) by {
                vstd::arithmetic::power::lemma_pow1(base);
            }
            lemma_pow_adds(base, 1nat, (2 * (e / 2)) as nat);
            assert(1 + 2 * (e / 2) == e);
        }
        lemma_small_mod(base as nat, MODULUS as nat);
    }
    assert(f_mul(acc, f_mul(base, f_pow(f_mul(base, base), (e / 2) as nat))) == f_mul(
        acc,
        f_pow(base, e),
    ));
}

/// Loop step of `Felt::pow` for even exponents.
proof fn lemma_pow_step_even(acc: int, base: int, e: nat)
    requires
        e % 2 == 0,
        e > 0,
        0 <= acc < MODULUS as int,
        0 <= base < MODULUS as int,
    ensures
        f_mul(acc, f_pow(f_mul(base, base), (e / 2) as nat)) == f_mul(acc, f_pow(base, e)),
{
    lemma_pow_of_square(base, (e / 2) as nat);
    assert(2 * (e / 2) == e);
}

/// `(base^2 mod m)^k mod m == base^(2k) mod m`.
proof fn lemma_pow_of_square(base: int, k: nat)
    requires
        0 <= base < MODULUS as int,
    ensures
        f_pow(f_mul(base, base), k) == f_pow(base, 2 * k),
{
    let m = MODULUS as int;
    assert(pow(f_mul(base, base), k) % m == pow(base * base, k) % m) by {
        lemma_pow_mod_noop(base * base, k, m);
    }
    assert(pow(base * base, k) == pow(base, 2 * k)) by {
        assert(pow(base, 2nat) == base * base) by {
            vstd::arithmetic::power::lemma_pow1(base);
            lemma_pow_adds(base, 1nat, 1nat);
        }
        lemma_pow_multiplies(base, 2nat, k);
    }
}

/// `e == 0` exit of `Felt::pow`: the accumulator carries the full power.
proof fn lemma_pow_zero_exp(acc: int, base: int)
    requires
        0 <= acc < MODULUS as int,
    ensures
        f_mul(acc, f_pow(base, 0)) == acc,
{
    let m = MODULUS as int;
    assert(pow(base, 0nat) == 1) by {
        vstd::arithmetic::power::lemma_pow0(base);
    }
    lemma_small_mod(1nat, MODULUS as nat);
    lemma_small_mod(acc as nat, MODULUS as nat);
}

/// A word: the ordered 4-element tuple that hashes and digests are made of.
pub type Word = [Felt; 4];

/// The mathematical values of a sequence of field elements.
pub open spec fn felt_vals(s: Seq<Felt>) -> Seq<int> {
    Seq::new(s.len(), |i: int| s[i].val())
}

/// The mathematical values of a word.
pub open spec fn word_vals(w: Word) -> Seq<int> {
    felt_vals(w@)
}

/// Reads a word element by element; two words are the same value exactly when
/// their views agree.
pub fn word_eq(a: &Word, b: &Word) -> (r: bool)
    ensures
        r <==> word_vals(*a) == word_vals(*b),
{
    let r = a[0].as_int() == b[0].as_int() && a[1].as_int() == b[1].as_int() && a[2].as_int()
        == b[2].as_int() && a[3].as_int() == b[3].as_int();
    proof {
        let va = word_vals(*a);
        let vb = word_vals(*b);
        if r {
            assert(va =~= vb);
        } else if va == vb {
            assert(va[0] == vb[0] && va[1] == vb[1] && va[2] == vb[2] && va[3] == vb[3]);
            assert(false);
        }
    }
    r
}

/// Field results of `f_add`, `f_sub`, `f_mul` and `f_pow` are canonical
/// residues.
pub proof fn lemma_f_ops_in_range(a: int, b: int, e: nat)
    ensures
        0 <= f_add(a, b) < MODULUS as int,
        0 <= f_sub(a, b) < MODULUS as int,
        0 <= f_mul(a, b) < MODULUS as int,
        0 <= f_pow(a, e) < MODULUS as int,
{
    let m = MODULUS as int;
    vstd::arithmetic::div_mod::lemma_mod_bound(a + b, m);
    vstd::arithmetic::div_mod::lemma_mod_bound(a - b, m);
    vstd::arithmetic::div_mod::lemma_mod_bound(a * b, m);
    vstd::arithmetic::div_mod::lemma_mod_bound(pow(a, e), m);
}

/// Associativity of field multiplication on canonical residues.
pub proof fn lemma_f_mul_assoc(a: int, b: int, c: int)
    requires
        0 <= a < MODULUS as int,
        0 <= b < MODULUS as int,
        0 <= c < MODULUS as int,
    ensures
        f_mul(f_mul(a, b), c) == f_mul(a, f_mul(b, c)),
{
    let m = MODULUS as int;
    lemma_mul_mod_noop_general(a * b, c, m);
    lemma_mul_mod_noop_general(a, b * c, m);
    assert((a * b) * c == a * (b * c)) by {
        vstd::arithmetic::mul::lemma_mul_is_associative(a, b, c);
    }
    lemma_small_mod(a as nat, MODULUS as nat);
    lemma_small_mod(c as nat, MODULUS as nat);
}

} // verus!
