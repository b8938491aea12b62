//! The scalar field of BLS12-381.
//!
//! A field element is kept as its canonical 32-byte little-endian encoding,
//! so that the mathematical value of an element is a plain natural number
//! below the field order. All arithmetic is delegated to `bls12_381::Scalar`
//! through trusted wrappers whose contracts state the result in modular
//! arithmetic over that value.

use rand::Rng;
use vstd::prelude::*;

verus! {

use vstd::arithmetic::div_mod::{
    lemma_add_mod_noop, lemma_add_mod_noop_right, lemma_mod_bound, lemma_mod_multiples_vanish,
    lemma_mul_mod_noop_left, lemma_mul_mod_noop_right, lemma_small_mod, lemma_sub_mod_noop,
    lemma_sub_mod_noop_right,
};
use vstd::arithmetic::mul::{lemma_mul_is_associative, lemma_mul_is_distributive_add_other_way};

/// Order of the BLS12-381 scalar field (a 255-bit prime).
pub open spec fn fr_order() -> nat {
    0x73eda753299d7d483339d80809a1d80553bda402fffe5bfeffffffff00000001nat
}

/// `x` is the value of a field element.
pub open spec fn is_elem(x: nat) -> bool {
    x < fr_order()
}

/// Field addition.
pub open spec fn fadd(a: nat, b: nat) -> nat {
    (a + b) % fr_order()
}

/// Field subtraction.
pub open spec fn fsub(a: nat, b: nat) -> nat {
    (((a as int) - (b as int)) % (fr_order() as int)) as nat
}

/// Field negation.
pub open spec fn fneg(a: nat) -> nat {
    fsub(0, a)
}

/// Field multiplication.
pub open spec fn fmul(a: nat, b: nat) -> nat {
    (a * b) % fr_order()
}

/// The natural number encoded by a little-endian byte string.
pub open spec fn le_nat(s: Seq<u8>) -> nat
    decreases s.len(),
{
    if s.len() == 0 {
        0
    } else {
        (s[0] + 256 * le_nat(s.subrange(1, s.len() as int))) as nat
    }
}

/// An element of the scalar field, as its canonical little-endian encoding.
#[derive(Clone, Copy, Debug, PartialEq, Eq)]
pub struct Fr {
    pub(crate) bytes: [u8; 32],
}

impl View for Fr {
    type V = nat;

    closed spec fn view(&self) -> nat {
        le_nat(self.bytes@)
    }
}

impl Fr {
    /// Relies on `bls12_381::Scalar::from(u64)` and `to_bytes`: the element
    /// with value `n`, in canonical little-endian encoding.
    #[verifier::external_body]
    pub fn from_u64(n: u64) -> (r: Fr)
        ensures
            r@ == n as nat,
            is_elem(r@),
    {
        Fr { bytes: bls12_381::Scalar::from(n).to_bytes() }
    }

    /// Relies on `bls12_381::Scalar` addition: field addition modulo the
    /// scalar-field order; `from_bytes` accepts exactly the canonical
    /// encodings and `to_bytes` returns them.
    #[verifier::external_body]
    pub fn add(&self, rhs: &Fr) -> (r: Fr)
        requires
            is_elem(self@),
            is_elem(rhs@),
        ensures
            r@ == fadd(self@, rhs@),
            is_elem(r@),
    {
        let a = bls12_381::Scalar::from_bytes(&self.bytes).unwrap();
        let b = bls12_381::Scalar::from_bytes(&rhs.bytes).unwrap();
        Fr { bytes: (a + b).to_bytes() }
    }

    /// Relies on `bls12_381::Scalar` subtraction modulo the field order.
    #[verifier::external_body]
    pub fn sub(&self, rhs: &Fr) -> (r: Fr)
        requires
            is_elem(self@),
            is_elem(rhs@),
        ensures
            r@ == fsub(self@, rhs@),
            is_elem(r@),
    {
        let a = bls12_381::Scalar::from_bytes(&self.bytes).unwrap();
        let b = bls12_381::Scalar::from_bytes(&rhs.bytes).unwrap();
        Fr { bytes: (a - b).to_bytes() }
    }

    /// Relies on `bls12_381::Scalar` multiplication modulo the field order.
    #[verifier::external_body]
    pub fn mul(&self, rhs: &Fr) -> (r: Fr)
        requires
            is_elem(self@),
            is_elem(rhs@),
        ensures
            r@ == fmul(self@, rhs@),
            is_elem(r@),
    {
        let a = bls12_381::Scalar::from_bytes(&self.bytes).unwrap();
        let b = bls12_381::Scalar::from_bytes(&rhs.bytes).unwrap();
        Fr { bytes: (a * b).to_bytes() }
    }

    /// Relies on `bls12_381::Scalar` negation modulo the field order.
    #[verifier::external_body]
    pub fn neg(&self) -> (r: Fr)
        requires
            is_elem(self@),
        ensures
            r@ == fneg(self@),
            is_elem(r@),
    {
        let a = bls12_381::Scalar::from_bytes(&self.bytes).unwrap();
        Fr { bytes: (-a).to_bytes() }
    }

    /// Relies on `bls12_381::Scalar::invert`: for a non-zero element it
    /// returns the multiplicative inverse in the field.
    #[verifier::external_body]
    pub fn inv(&self) -> (r: Fr)
        requires
            is_elem(self@),
            self@ != 0,
        ensures
            is_elem(r@),
            fmul(self@, r@) == 1,
    {
        let a = bls12_381::Scalar::from_bytes(&self.bytes).unwrap();
        Fr { bytes: a.invert().unwrap().to_bytes() }
    }

    /// Relies on `rand::thread_rng` and `bls12_381::Scalar::from_raw`: a
    /// scalar sampled from a cryptographically secure generator and reduced
    /// into the field. Nothing is promised of the value beyond its range.
    #[verifier::external_body]
    pub fn random() -> (r: Fr)
        ensures
            is_elem(r@),
    {
        let mut rng = rand::thread_rng();
        let rnd: [u64; 4] = [rng.gen(), rng.gen(), rng.gen(), rng.gen()];
        Fr { bytes: bls12_381::Scalar::from_raw(rnd).to_bytes() }
    }

    /// Exact equality of field elements, decided on the canonical encodings.
    pub fn equals(&self, rhs: &Fr) -> (r: bool)
        ensures
            r == (self@ == rhs@),
    {
        let mut i: usize = 0;
        while i < 32
            invariant
                i <= 32,
                forall|j: int| 0 <= j < i ==> self.bytes@[j] == rhs.bytes@[j],
            decreases 32 - i,
        {
            if self.bytes[i] != rhs.bytes[i] {
                proof {
                    if self@ == rhs@ {
                        lemma_le_nat_injective(self.bytes@, rhs.bytes@);
                    }
                }
                return false;
            }
            i += 1;
        }
        proof {
            assert(self.bytes@ =~= rhs.bytes@);
        }
        true
    }
}

/// Two little-endian byte strings of one length encode one number only if
/// they are equal byte for byte.
pub proof fn lemma_le_nat_injective(a: Seq<u8>, b: Seq<u8>)
    requires
        a.len() == b.len(),
        le_nat(a) == le_nat(b),
    ensures
        a =~= b,
    decreases a.len(),
{
    if a.len() > 0 {
        let ta = a.subrange(1, a.len() as int);
        let tb = b.subrange(1, b.len() as int);
        assert(le_nat(a) == a[0] + 256 * le_nat(ta));
        assert(le_nat(b) == b[0] + 256 * le_nat(tb));
        vstd::arithmetic::div_mod::lemma_mod_multiples_vanish(
            le_nat(ta) as int, a[0] as int, 256);
        vstd::arithmetic::div_mod::lemma_mod_multiples_vanish(
            le_nat(tb) as int, b[0] as int, 256);
        vstd::arithmetic::div_mod::lemma_small_mod(a[0] as nat, 256);
        vstd::arithmetic::div_mod::lemma_small_mod(b[0] as nat, 256);
        assert(a[0] == b[0]);
        lemma_le_nat_injective(ta, tb);
        assert forall|i: int| 0 <= i < a.len() implies a[i] == b[i] by {
            if i > 0 {
                assert(a[i] == ta[i - 1]);
                assert(b[i] == tb[i - 1]);
            }
        }
    }
}

/// Results of the field operations are field elements.
pub proof fn lemma_f_in_range(a: nat, b: nat)
    ensures
        is_elem(fadd(a, b)),
        is_elem(fsub(a, b)),
        is_elem(fmul(a, b)),
        is_elem(fneg(a)),
{
    let p = fr_order() as int;
    lemma_mod_bound((a + b) as int, p);
    lemma_mod_bound(a as int - b as int, p);
    lemma_mod_bound((a * b) as int, p);
    lemma_mod_bound(0int - a as int, p);
}

/// Zero is the additive identity.
pub proof fn lemma_fadd_zero(a: nat)
    requires
        is_elem(a),
    ensures
        fadd(a, 0) == a,
        fadd(0, a) == a,
{
    lemma_small_mod(a, fr_order());
}

/// Addition is associative.
pub proof fn lemma_fadd_assoc(a: nat, b: nat, c: nat)
    ensures
        fadd(fadd(a, b), c) == fadd(a, fadd(b, c)),
{
    let p = fr_order() as int;
    lemma_add_mod_noop_right(c as int, (a + b) as int, p);
    lemma_add_mod_noop_right(a as int, (b + c) as int, p);
}

/// Rearranging a sum of two sums.
pub proof fn lemma_fadd_four(a: nat, b: nat, x: nat, y: nat)
    ensures
        fadd(fadd(a, b), fadd(x, y)) == fadd(fadd(a, x), fadd(b, y)),
{
    let p = fr_order() as int;
    lemma_add_mod_noop((a + b) as int, (x + y) as int, p);
    lemma_add_mod_noop((a + x) as int, (b + y) as int, p);
}

/// Adding and then subtracting one quantity cancels out.
pub proof fn lemma_fadd_sub_cancel(x: nat, y: nat, z: nat)
    ensures
        fadd(fadd(x, y), fsub(z, y)) == fadd(x, z),
{
    let p = fr_order() as int;
    lemma_add_mod_noop((x + y) as int, z as int - y as int, p);
}

/// Zero is absorbing for multiplication.
pub proof fn lemma_fmul_zero(a: nat)
    ensures
        fmul(a, 0) == 0,
        fmul(0, a) == 0,
{
    lemma_small_mod(0, fr_order());
}

/// One is the multiplicative identity.
pub proof fn lemma_fmul_one(a: nat)
    requires
        is_elem(a),
    ensures
        fmul(a, 1) == a,
        fmul(1, a) == a,
{
    lemma_small_mod(a, fr_order());
}

/// Multiplication distributes over addition.
pub proof fn lemma_fmul_distrib(a: nat, b: nat, c: nat)
    ensures
        fmul(fadd(a, b), c) == fadd(fmul(a, c), fmul(b, c)),
{
    let p = fr_order() as int;
    lemma_mul_mod_noop_left((a + b) as int, c as int, p);
    lemma_mul_is_distributive_add_other_way(c as int, a as int, b as int);
    lemma_add_mod_noop((a * c) as int, (b * c) as int, p);
}

/// Multiplication is associative.
pub proof fn lemma_fmul_assoc(a: nat, b: nat, c: nat)
    ensures
        fmul(fmul(a, b), c) == fmul(a, fmul(b, c)),
{
    let p = fr_order() as int;
    lemma_mul_mod_noop_left((a * b) as int, c as int, p);
    lemma_mul_mod_noop_right(a as int, (b * c) as int, p);
    lemma_mul_is_associative(a as int, b as int, c as int);
}

/// Subtracting a quantity from itself gives zero.
pub proof fn lemma_fsub_self(a: nat)
    ensures
        fsub(a, a) == 0,
{
    lemma_small_mod(0, fr_order());
}

/// The difference of two field elements is zero exactly when they are
/// equal.
pub proof fn lemma_fsub_zero_iff(a: nat, b: nat)
    requires
        is_elem(a),
        is_elem(b),
    ensures
        (fsub(a, b) == 0) <==> (a == b),
{
    let p = fr_order() as int;
    if a == b {
        lemma_small_mod(0, fr_order());
    } else if a > b {
        lemma_small_mod((a - b) as nat, fr_order());
    } else {
        vstd::arithmetic::div_mod::lemma_mod_add_multiples_vanish(a as int - b as int, p);
        lemma_small_mod((a + p - b) as nat, fr_order());
    }
}

/// Products can be reassociated and their factors exchanged.
pub proof fn lemma_fmul_shuffle(a: nat, b: nat, c: nat)
    ensures
        fmul(fmul(a, b), c) == fmul(a, fmul(b, c)),
        fmul(fmul(a, b), c) == fmul(fmul(a, c), b),
{
    lemma_fmul_assoc(a, b, c);
    lemma_fmul_assoc(a, c, b);
    assert(fmul(b, c) == fmul(c, b));
}

/// Some field element multiplies `v` to one. Witnessed by the executable
/// inversions the library performs; it licenses cancellation.
pub open spec fn has_inverse(v: nat) -> bool {
    exists|c: nat| is_elem(c) && #[trigger] fmul(v, c) == 1
}

/// A factor with an inverse can be cancelled from a zero product.
pub proof fn lemma_cancel(a: nat, v: nat)
    requires
        is_elem(a),
        has_inverse(v),
        fmul(a, v) == 0,
    ensures
        a == 0,
{
    let c = choose|c: nat| is_elem(c) && #[trigger] fmul(v, c) == 1;
    lemma_fmul_one(a);
    lemma_fmul_assoc(a, v, c);
    lemma_fmul_zero(c);
}

/// Adding a product and then its negated counterpart cancels out.
pub proof fn lemma_fadd_fmul_neg_cancel(x: nat, a: nat, b: nat)
    requires
        is_elem(x),
    ensures
        fadd(fadd(x, fmul(a, b)), fmul(b, fneg(a))) == x,
{
    let p = fr_order() as int;
    lemma_mul_mod_noop_right(b as int, 0int - a as int, p);
    vstd::arithmetic::mul::lemma_mul_is_distributive_sub(b as int, 0int, a as int);
    lemma_add_mod_noop_right(x as int, (a * b) as int, p);
    lemma_add_mod_noop((x + a * b) as int, 0int - (b * a) as int, p);
    lemma_small_mod(x, fr_order());
}

/// Multiplication distributes over subtraction.
pub proof fn lemma_fmul_fsub_distrib(a: nat, b: nat, c: nat)
    ensures
        fmul(fsub(a, b), c) == fsub(fmul(a, c), fmul(b, c)),
{
    let p = fr_order() as int;
    lemma_mul_mod_noop_left(a as int - b as int, c as int, p);
    vstd::arithmetic::mul::lemma_mul_is_distributive_sub(c as int, a as int, b as int);
    lemma_sub_mod_noop((a * c) as int, (b * c) as int, p);
}

/// Rearranging a sum of two differences.
pub proof fn lemma_fadd_fsub_four(a: nat, b: nat, u: nat, v: nat)
    ensures
        fadd(fsub(a, b), fsub(u, v)) == fsub(fadd(a, u), fadd(b, v)),
{
    let p = fr_order() as int;
    lemma_add_mod_noop(a as int - b as int, u as int - v as int, p);
    lemma_sub_mod_noop((a + u) as int, (b + v) as int, p);
}

/// Regrouping of the product of two head-split sums: multiplying out
/// `(a0 + x*ea) * (b0 + x*eb)` and collecting the factor `x`.
pub proof fn lemma_bilinear_regroup(a0: nat, b0: nat, ea: nat, eb: nat, evb: nat, x: nat)
    requires
        evb == fadd(b0, fmul(x, eb)),
    ensures
        fmul(fadd(a0, fmul(x, ea)), evb) == fadd(
            fmul(a0, b0),
            fmul(x, fadd(fmul(eb, a0), fmul(ea, evb))),
        ),
{
    let u = fmul(eb, a0);
    let v = fmul(ea, evb);
    lemma_fmul_distrib(a0, fmul(x, ea), evb);
    lemma_fmul_distrib(b0, fmul(x, eb), a0);
    assert(fmul(a0, evb) == fmul(evb, a0));
    assert(fmul(b0, a0) == fmul(a0, b0));
    lemma_fmul_shuffle(x, eb, a0);
    lemma_fmul_shuffle(x, ea, evb);
    lemma_fmul_distrib(u, v, x);
    assert(fmul(fadd(u, v), x) == fmul(x, fadd(u, v)));
    assert(fmul(u, x) == fmul(x, u));
    assert(fmul(v, x) == fmul(x, v));
    lemma_fadd_assoc(fmul(a0, b0), fmul(x, u), fmul(x, v));
}

/// A scalar multiple of a difference, term by term.
pub proof fn lemma_fmul_sub(c: nat, xm: nat, xi: nat)
    ensures
        fadd(fneg(fmul(xi, c)), fmul(c, xm)) == fmul(c, fsub(xm, xi)),
{
    let p = fr_order() as int;
    lemma_sub_mod_noop_right(0int, (xi * c) as int, p);
    lemma_add_mod_noop(0int - (xi * c) as int, (c * xm) as int, p);
    lemma_mul_mod_noop_right(c as int, xm as int - xi as int, p);
    vstd::arithmetic::mul::lemma_mul_is_distributive_sub(c as int, xm as int, xi as int);
}

/// Multiplying by the leading coefficient undoes multiplying by its
/// inverse, and the product with an inverse of a non-zero element is
/// non-zero.
pub proof fn lemma_inv_cancel(lr: nat, ld: nat, ci: nat)
    requires
        is_elem(lr),
        lr != 0,
        fmul(ld, ci) == 1,
    ensures
        fmul(fmul(lr, ci), ld) == lr,
        fmul(lr, ci) != 0,
{
    lemma_fmul_assoc(lr, ci, ld);
    assert(ci * ld == ld * ci);
    lemma_fmul_one(lr);
    if fmul(lr, ci) == 0 {
        lemma_fmul_zero(ld);
        assert(fmul(fmul(lr, ci), ld) == 0);
    }
}

} // verus!
