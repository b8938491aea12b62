//! The KZG commitment scheme: trusted setup, commit, prove and verify.
//!
//! The polynomial arithmetic is verified in `poly`. The elliptic-curve
//! group elements of BLS12-381 are carried opaquely, each together with
//! the ghost discrete logarithm it was built from: every constructor in
//! this module keeps the point equal to its logarithm times the fixed
//! generator, so the logarithm is a faithful mathematical model of the
//! element, and the contracts of commit, prove and verify state the
//! scheme's equations exactly over those logarithms.

use vstd::prelude::*;

use crate::field::{
    fadd, fmul, fneg, fr_order, fsub, is_elem, lemma_f_in_range, lemma_fadd_zero, lemma_fmul_one,
    lemma_fmul_sub, lemma_fmul_zero, lemma_fsub_self, lemma_fsub_zero_iff, Fr,
};
use crate::poly::{
    all_elems, eval_sum, fpow, has_dup_x, interp_ok, is_normalized, p_equiv, padd, pcoeff, peval,
    pmul, points_wf, psub, vals, xval, yval, zero_poly, Poly,
};

verus! {

use vstd::arithmetic::div_mod::lemma_small_mod;
use vstd::pervasive::arbitrary;

#[verifier::external_type_specification]
#[verifier::external_body]
pub struct ExG1(bls12_381::G1Projective);

#[verifier::external_type_specification]
#[verifier::external_body]
pub struct ExG2(bls12_381::G2Projective);

#[verifier::external_type_specification]
#[verifier::external_body]
pub struct ExGt(bls12_381::Gt);

/// An element of group 1, carried opaquely together with the ghost
/// discrete logarithm it was built from. Every constructor in this module
/// keeps the point equal to `log · G1`, so the logarithm models the
/// element exactly.
#[derive(Clone, Copy)]
pub struct G1Elem {
    pub(crate) point: bls12_381::G1Projective,
    pub(crate) log: Ghost<nat>,
}

impl View for G1Elem {
    type V = nat;

    closed spec fn view(&self) -> nat {
        self.log@
    }
}

impl G1Elem {
    /// Relies on `PartialEq` for `bls12_381::G1Projective`: equality of
    /// the points. Scalar multiples of the generator by values below the
    /// prime group order are pairwise distinct, so point equality decides
    /// equality of the modeled logarithms.
    #[verifier::external_body]
    pub fn equals(&self, other: &G1Elem) -> (r: bool)
        ensures
            r == (self@ == other@),
    {
        self.point == other.point
    }
}

/// An element of group 2, modeled as `G1Elem` is.
#[derive(Clone, Copy)]
pub struct G2Elem {
    pub(crate) point: bls12_381::G2Projective,
    pub(crate) log: Ghost<nat>,
}

impl View for G2Elem {
    type V = nat;

    closed spec fn view(&self) -> nat {
        self.log@
    }
}

/// An element of the pairing's target group, modeled by the exponent of
/// `e(G1, G2)` it was built from.
pub struct GtElem {
    pub(crate) value: bls12_381::Gt,
    pub(crate) log: Ghost<nat>,
}

impl View for GtElem {
    type V = nat;

    closed spec fn view(&self) -> nat {
        self.log@
    }
}

/// A commitment: a single element of group 1.
pub type Commitment = G1Elem;

/// An opening proof: a single element of group 1.
pub type Proof = G1Elem;

/// A single-point proof: the commitment to the random line through the
/// opening point, with the opening witness for that point.
pub struct SingleProof {
    pub commitment: Commitment,
    pub witness: Proof,
}

/// The errors of the commitment scheme.
#[derive(Clone, Copy, Debug, PartialEq, Eq)]
pub enum KzgError {
    /// A polynomial exceeds the degree the setup supports.
    SetupRange,
    /// Interpolation was asked on points with duplicate x-coordinates.
    DegenerateInterpolation,
    /// In `prove`, the opening points do not lie on the committed
    /// polynomial: the division leaves a non-zero remainder.
    NonDivisibleOpening,
}

/// Relies on `bls12_381::G1Projective::identity`: the neutral element of
/// group 1, the zero multiple of the generator.
#[verifier::external_body]
fn g1_identity() -> (r: G1Elem)
    ensures
        r@ == 0,
{
    G1Elem { point: bls12_381::G1Projective::identity(), log: Ghost(arbitrary()) }
}

/// Relies on `bls12_381::G2Projective::identity`: the neutral element of
/// group 2, the zero multiple of the generator.
#[verifier::external_body]
fn g2_identity() -> (r: G2Elem)
    ensures
        r@ == 0,
{
    G2Elem { point: bls12_381::G2Projective::identity(), log: Ghost(arbitrary()) }
}

/// Relies on `bls12_381::G2Projective::generator`: the fixed generator of
/// group 2, the one-multiple of itself.
#[verifier::external_body]
fn g2_generator() -> (r: G2Elem)
    ensures
        r@ == 1,
{
    G2Elem { point: bls12_381::G2Projective::generator(), log: Ghost(arbitrary()) }
}

/// Relies on scalar multiplication of the group-1 generator
/// (`bls12_381::G1Affine::generator`, `Mul<Scalar>`): the multiple `k·G1`.
#[verifier::external_body]
fn g1_gen_mul(k: &Fr) -> (r: G1Elem)
    requires
        is_elem(k@),
    ensures
        r@ == k@,
{
    G1Elem {
        point: bls12_381::G1Affine::generator() * bls12_381::Scalar::from_bytes(&k.bytes).unwrap(),
        log: Ghost(arbitrary()),
    }
}

/// Relies on scalar multiplication of the group-2 generator
/// (`bls12_381::G2Affine::generator`, `Mul<Scalar>`): the multiple `k·G2`.
#[verifier::external_body]
fn g2_gen_mul(k: &Fr) -> (r: G2Elem)
    requires
        is_elem(k@),
    ensures
        r@ == k@,
{
    G2Elem {
        point: bls12_381::G2Affine::generator() * bls12_381::Scalar::from_bytes(&k.bytes).unwrap(),
        log: Ghost(arbitrary()),
    }
}

/// Relies on `Add` for `bls12_381::G1Projective`: the group operation,
/// which adds the logarithms modulo the group order.
#[verifier::external_body]
fn g1_add(a: &G1Elem, b: &G1Elem) -> (r: G1Elem)
    ensures
        r@ == fadd(a@, b@),
{
    G1Elem { point: a.point + b.point, log: Ghost(arbitrary()) }
}

/// Relies on `Sub` for `bls12_381::G1Projective`: the group operation
/// with the inverse of the second element, subtracting the logarithms.
#[verifier::external_body]
fn g1_sub(a: &G1Elem, b: &G1Elem) -> (r: G1Elem)
    ensures
        r@ == fsub(a@, b@),
{
    G1Elem { point: a.point - b.point, log: Ghost(arbitrary()) }
}

/// Relies on `Mul<Scalar>` for `bls12_381::G1Projective`: scalar
/// multiplication, which multiplies the logarithm by the scalar.
#[verifier::external_body]
fn g1_scale(p: &G1Elem, k: &Fr) -> (r: G1Elem)
    requires
        is_elem(k@),
    ensures
        r@ == fmul(p@, k@),
{
    G1Elem {
        point: p.point * bls12_381::Scalar::from_bytes(&k.bytes).unwrap(),
        log: Ghost(arbitrary()),
    }
}

/// Relies on `Add` for `bls12_381::G2Projective`: the group operation.
#[verifier::external_body]
fn g2_add(a: &G2Elem, b: &G2Elem) -> (r: G2Elem)
    ensures
        r@ == fadd(a@, b@),
{
    G2Elem { point: a.point + b.point, log: Ghost(arbitrary()) }
}

/// Relies on `Sub` for `bls12_381::G2Projective`: the group operation
/// with the inverse of the second element.
#[verifier::external_body]
fn g2_sub(a: &G2Elem, b: &G2Elem) -> (r: G2Elem)
    ensures
        r@ == fsub(a@, b@),
{
    G2Elem { point: a.point - b.point, log: Ghost(arbitrary()) }
}

/// Relies on `Mul<Scalar>` for `bls12_381::G2Projective`: scalar
/// multiplication in group 2.
#[verifier::external_body]
fn g2_scale(p: &G2Elem, k: &Fr) -> (r: G2Elem)
    requires
        is_elem(k@),
    ensures
        r@ == fmul(p@, k@),
{
    G2Elem {
        point: p.point * bls12_381::Scalar::from_bytes(&k.bytes).unwrap(),
        log: Ghost(arbitrary()),
    }
}

/// Relies on `bls12_381::pairing` applied to the affine forms, and on its
/// bilinearity, `e(aP, bQ) == e(P, Q)^(ab)`: the exponent of the result
/// is the product of the arguments' logarithms.
#[verifier::external_body]
fn pairing_of(p: &G1Elem, q: &G2Elem) -> (r: GtElem)
    ensures
        r@ == fmul(p@, q@),
{
    GtElem {
        value: bls12_381::pairing(&p.point.into(), &q.point.into()),
        log: Ghost(arbitrary()),
    }
}

/// Relies on `PartialEq` for `bls12_381::Gt` and on the non-degeneracy of
/// the BLS12-381 pairing: `e(G1, G2)` has the prime group order, so
/// distinct exponents below it give distinct target-group elements.
#[verifier::external_body]
fn gt_eq(a: &GtElem, b: &GtElem) -> (r: bool)
    ensures
        r == (a@ == b@),
{
    a.value == b.value
}

/// The product of the linear factors `(x - x_i)` over the first `n`
/// x-coordinates: the vanishing polynomial of the point set.
pub open spec fn vanish(xs: Seq<nat>, n: int) -> Seq<nat>
    decreases n,
{
    if n <= 0 {
        seq![1nat]
    } else {
        pmul(vanish(xs, n - 1), seq![fneg(xs[n - 1]), 1nat])
    }
}

/// The x-coordinate values of a point set.
pub open spec fn xvals(pts: Seq<(Fr, Fr)>) -> Seq<nat> {
    pts.map_values(|p: (Fr, Fr)| p.0@)
}

/// The vanishing polynomial has length `n + 1` and leading coefficient 1.
pub proof fn lemma_vanish_top(xs: Seq<nat>, n: int)
    requires
        n >= 0,
    ensures
        vanish(xs, n).len() == n + 1,
        pcoeff(vanish(xs, n), n) == 1,
        is_elem(1),
    decreases n,
{
    lemma_small_mod(1, fr_order());
    if n == 0 {
    } else {
        lemma_vanish_top(xs, n - 1);
        let a = vanish(xs, n - 1);
        let f = seq![fneg(xs[n - 1]), 1nat];
        assert(vanish(xs, n) == pmul(a, f));
        assert(pcoeff(pmul(a, f), n) == crate::poly::pmul_coeff(a, f, n));
        // only the term pairing the leading coefficients contributes
        assert forall|j: int| 0 <= j < n - 1 implies fmul(
            pcoeff(a, j),
            #[trigger] pcoeff(f, n - j),
        ) == 0 by {
            assert(pcoeff(f, n - j) == 0);
            lemma_fmul_zero(pcoeff(a, j));
        }
        crate::poly::lemma_conv_sum_tail_zero(a, f, n, n - 1, 0);
        assert(crate::poly::conv_sum(a, f, n, n) == fadd(0, fmul(pcoeff(a, n - 1), pcoeff(f, 1))));
        lemma_fmul_one(1);
        lemma_fadd_zero(1);
        assert(crate::poly::conv_sum(a, f, n, n) == 1);
        assert(pcoeff(a, n) == 0);
        lemma_fmul_zero(pcoeff(f, 0));
        lemma_fadd_zero(1);
        assert(crate::poly::conv_sum(a, f, n, n + 1) == 1);
    }
}

/// Every coefficient of a vanishing polynomial is a field element.
pub proof fn lemma_vanish_elems(xs: Seq<nat>, n: int)
    ensures
        all_elems(vanish(xs, n)),
    decreases n,
{
    if n <= 0 {
        lemma_small_mod(1, fr_order());
        assert forall|k: int| is_elem(#[trigger] pcoeff(vanish(xs, n), k)) by {}
    } else {
        lemma_vanish_elems(xs, n - 1);
        lemma_vanish_top(xs, n - 1);
        let a = vanish(xs, n - 1);
        let f = seq![fneg(xs[n - 1]), 1nat];
        assert forall|k: int| is_elem(#[trigger] pcoeff(vanish(xs, n), k)) by {
            crate::poly::lemma_pcoeff_pmul(a, f, k);
            crate::poly::lemma_conv_sum_elem(a, f, k, k + 1);
        }
    }
}

/// A vanishing polynomial evaluates to zero at each of its roots.
pub proof fn lemma_vanish_root(xs: Seq<nat>, n: int, m: int)
    requires
        0 <= m < n,
        forall|i: int| 0 <= i < n ==> is_elem(#[trigger] xs[i]),
    ensures
        peval(vanish(xs, n), xs[m]) == 0,
    decreases n,
{
    let a = vanish(xs, n - 1);
    let f = seq![fneg(xs[n - 1]), 1nat];
    let x = xs[m];
    lemma_vanish_top(xs, n - 1);
    lemma_vanish_elems(xs, n - 1);
    lemma_f_in_range(0, xs[n - 1]);
    assert forall|k: int| is_elem(#[trigger] pcoeff(f, k)) by {}
    crate::poly::lemma_eval_pmul(a, f, x);
    crate::poly::lemma_peval_linear(fneg(xs[n - 1]), 1, x);
    lemma_fmul_sub(1, x, xs[n - 1]);
    lemma_fmul_one(xs[n - 1]);
    lemma_f_in_range(x, xs[n - 1]);
    lemma_fmul_one(fsub(x, xs[n - 1]));
    assert(peval(f, x) == fsub(x, xs[n - 1]));
    if m == n - 1 {
        lemma_fsub_self(x);
        lemma_fmul_zero(peval(a, x));
    } else {
        lemma_vanish_root(xs, n - 1, m);
        lemma_fmul_zero(peval(f, x));
    }
}

/// A commitment key: powers of a secret value τ times the generators of
/// the two pairing groups. The secret itself is sampled in
/// `trusted_setup`, used to derive the powers, and discarded; only its
/// ghost mathematical value remains, for specification.
pub struct Kzg {
    pow_tau_g1: Vec<G1Elem>,
    pow_tau_g2: Vec<G2Elem>,
    tau: Ghost<nat>,
}

impl Kzg {
    /// How many powers of τ the setup holds; it supports polynomials up
    /// to degree `n_powers() - 1`.
    pub closed spec fn n_powers(&self) -> nat {
        self.pow_tau_g1@.len()
    }

    /// The ghost value of the secret the setup was built from.
    pub closed spec fn tau_val(&self) -> nat {
        self.tau@
    }

    /// Both power sequences are present, of equal length, and hold the
    /// successive powers of the secret.
    pub closed spec fn wf(&self) -> bool {
        &&& self.pow_tau_g1@.len() == self.pow_tau_g2@.len()
        &&& self.pow_tau_g1@.len() >= 1
        &&& is_elem(self.tau@)
        &&& forall|i: int|
            0 <= i < self.pow_tau_g1@.len() ==> (#[trigger] self.pow_tau_g1@[i])@ == fpow(
                self.tau@,
                i as nat,
            )
        &&& forall|i: int|
            0 <= i < self.pow_tau_g2@.len() ==> (#[trigger] self.pow_tau_g2@[i])@ == fpow(
                self.tau@,
                i as nat,
            )
    }

    /// One-time generation of a commitment key with `n` powers: a secret
    /// τ is sampled from a cryptographically secure generator, the powers
    /// τ⁰..τ^(n-1) are multiplied into both group generators, and τ goes
    /// out of scope.
    pub fn trusted_setup(n: usize) -> (r: Kzg)
        requires
            n >= 1,
        ensures
            r.wf(),
            r.n_powers() == n,
    {
        let tau = Fr::random();
        let mut g1v: Vec<G1Elem> = Vec::new();
        let mut g2v: Vec<G2Elem> = Vec::new();
        let mut t_pow = Fr::from_u64(1);
        let mut i: usize = 0;
        while i < n
            invariant
                i <= n,
                g1v@.len() == i,
                g2v@.len() == i,
                is_elem(t_pow@),
                is_elem(tau@),
                t_pow@ == fpow(tau@, i as nat),
                forall|m: int| 0 <= m < i ==> (#[trigger] g1v@[m])@ == fpow(tau@, m as nat),
                forall|m: int| 0 <= m < i ==> (#[trigger] g2v@[m])@ == fpow(tau@, m as nat),
            decreases n - i,
        {
            let ghost p1 = g1v@;
            let ghost p2 = g2v@;
            g1v.push(g1_gen_mul(&t_pow));
            g2v.push(g2_gen_mul(&t_pow));
            proof {
                assert forall|m: int| 0 <= m < i + 1 implies (#[trigger] g1v@[m])@ == fpow(
                    tau@,
                    m as nat,
                ) by {
                    if m < i {
                        assert(g1v@[m] == p1[m]);
                    }
                }
                assert forall|m: int| 0 <= m < i + 1 implies (#[trigger] g2v@[m])@ == fpow(
                    tau@,
                    m as nat,
                ) by {
                    if m < i {
                        assert(g2v@[m] == p2[m]);
                    }
                }
            }
            t_pow = t_pow.mul(&tau);
            i += 1;
        }
        Kzg { pow_tau_g1: g1v, pow_tau_g2: g2v, tau: Ghost(tau@) }
    }

    /// The highest polynomial degree this setup supports.
    pub fn max_degree(&self) -> (r: usize)
        requires
            self.wf(),
        ensures
            r == self.n_powers() - 1,
    {
        self.pow_tau_g1.len() - 1
    }

    /// Evaluate a polynomial "at τ, in the exponent" of group 1: the
    /// result is the group element whose logarithm is the polynomial's
    /// value at the secret.
    fn eval_at_tau_g1(&self, poly: &Poly) -> (r: G1Elem)
        requires
            self.wf(),
            poly.wf(),
            poly@.len() <= self.n_powers(),
        ensures
            r@ == peval(poly@, self.tau_val()),
    {
        proof {
            poly.lemma_view();
        }
        let mut acc = g1_identity();
        let mut i: usize = 0;
        while i < poly.c.len()
            invariant
                self.wf(),
                poly.wf(),
                poly@.len() <= self.n_powers(),
                i <= poly.c@.len(),
                poly@ == vals(poly.c@),
                acc@ == eval_sum(poly@, self.tau_val(), i as int),
            decreases poly.c@.len() - i,
        {
            proof {
                assert(is_elem(pcoeff(poly@, i as int)));
                assert(vals(poly.c@)[i as int] == poly.c@[i as int]@);
            }
            let term = g1_scale(&self.pow_tau_g1[i], &poly.c[i]);
            acc = g1_add(&acc, &term);
            proof {
                assert(fpow(self.tau_val(), i as nat) * pcoeff(poly@, i as int) == pcoeff(
                    poly@,
                    i as int,
                ) * fpow(self.tau_val(), i as nat));
            }
            i += 1;
        }
        acc
    }

    /// Evaluate a polynomial "at τ, in the exponent" of group 2.
    fn eval_at_tau_g2(&self, poly: &Poly) -> (r: G2Elem)
        requires
            self.wf(),
            poly.wf(),
            poly@.len() <= self.n_powers(),
        ensures
            r@ == peval(poly@, self.tau_val()),
    {
        proof {
            poly.lemma_view();
        }
        let mut acc = g2_identity();
        let mut i: usize = 0;
        while i < poly.c.len()
            invariant
                self.wf(),
                poly.wf(),
                poly@.len() <= self.n_powers(),
                i <= poly.c@.len(),
                poly@ == vals(poly.c@),
                acc@ == eval_sum(poly@, self.tau_val(), i as int),
            decreases poly.c@.len() - i,
        {
            proof {
                assert(is_elem(pcoeff(poly@, i as int)));
                assert(vals(poly.c@)[i as int] == poly.c@[i as int]@);
            }
            let term = g2_scale(&self.pow_tau_g2[i], &poly.c[i]);
            acc = g2_add(&acc, &term);
            proof {
                assert(fpow(self.tau_val(), i as nat) * pcoeff(poly@, i as int) == pcoeff(
                    poly@,
                    i as int,
                ) * fpow(self.tau_val(), i as nat));
            }
            i += 1;
        }
        acc
    }

    /// The vanishing polynomial `Π (x - x_i)` of a point set.
    fn z_poly_of(points: &Vec<(Fr, Fr)>) -> (z: Poly)
        requires
            points_wf(points@),
            points@.len() + 3 <= usize::MAX,
        ensures
            z.wf(),
            p_equiv(z@, vanish(xvals(points@), points@.len() as int)),
            z@.len() == points@.len() + 1,
    {
        let k = points.len();
        let mut acc = Poly::one();
        proof {
            assert(acc@ == vanish(xvals(points@), 0));
        }
        let mut i: usize = 0;
        while i < k
            invariant
                k == points@.len(),
                k + 3 <= usize::MAX,
                points_wf(points@),
                i <= k,
                acc.wf(),
                acc@.len() <= i + 1,
                p_equiv(acc@, vanish(xvals(points@), i as int)),
            decreases k - i,
        {
            let x = points[i].0;
            proof {
                assert(is_elem(xval(points@, i as int)));
            }
            let fc = x.neg();
            let fvec = vec![fc, Fr::from_u64(1)];
            proof {
                assert(vals(fvec@)[0] == fc@);
                assert(vals(fvec@)[1] == 1);
                assert forall|kk: int| is_elem(#[trigger] pcoeff(vals(fvec@), kk)) by {}
                assert(is_normalized(vals(fvec@)));
            }
            let factor = Poly::new(fvec);
            let ghost acco = acc@;
            acc = acc.mul(&factor);
            proof {
                let xs = xvals(points@);
                let f = seq![fneg(xs[i as int]), 1nat];
                assert(factor@ =~= f);
                lemma_vanish_top(xs, i as int);
                assert forall|kk: int|
                    pcoeff(acc@, kk) == pcoeff(vanish(xs, i + 1), kk) by {
                    crate::poly::lemma_pcoeff_pmul(acco, factor@, kk);
                    crate::poly::lemma_conv_sum_congr(
                        acco,
                        vanish(xs, i as int),
                        factor@,
                        f,
                        kk,
                        kk + 1,
                    );
                    crate::poly::lemma_pcoeff_pmul(vanish(xs, i as int), f, kk);
                }
            }
            i += 1;
        }
        proof {
            let xs = xvals(points@);
            lemma_vanish_top(xs, k as int);
            assert(pcoeff(acc@, k as int) == 1);
            assert(acc@.len() > k);
        }
        acc
    }

    /// Interpolate a point set and commit to the polynomial: the pair of
    /// the interpolated polynomial (kept by the prover) and its
    /// commitment, the evaluation of that polynomial at the secret, in
    /// the exponent of group 1. Fails with `DegenerateInterpolation`
    /// exactly on duplicate x-coordinates, with `SetupRange` only when
    /// the point set outgrows the setup, and with nothing else.
    pub fn poly_commitment_from_set(&self, set: &Vec<(Fr, Fr)>) -> (r: Result<
        (Poly, Commitment),
        KzgError,
    >)
        requires
            self.wf(),
            points_wf(set@),
            set@.len() + 2 <= usize::MAX,
        ensures
            r is Err && r->Err_0 == KzgError::DegenerateInterpolation <==> has_dup_x(set@),
            !has_dup_x(set@) && set@.len() <= self.n_powers() ==> r is Ok,
            r is Err ==> r->Err_0 == KzgError::DegenerateInterpolation || r->Err_0
                == KzgError::SetupRange,
            r is Err && r->Err_0 == KzgError::SetupRange ==> set@.len() > self.n_powers(),
            r is Ok ==> r->Ok_0.0.wf() && interp_ok(r->Ok_0.0@, set@) && r->Ok_0.0@.len()
                <= self.n_powers(),
            r is Ok ==> r->Ok_0.1@ == peval(r->Ok_0.0@, self.tau_val()),
    {
        let poly = match Poly::lagrange(set) {
            Err(e) => {
                return Err(e);
            },
            Ok(p) => p,
        };
        proof {
            poly.lemma_view();
        }
        if poly.c.len() > self.pow_tau_g1.len() {
            return Err(KzgError::SetupRange);
        }
        let commitment = self.eval_at_tau_g1(&poly);
        Ok((poly, commitment))
    }

    /// Generate the opening proof that `points` lie on `poly`: commit to
    /// the quotient `(P - I) / Z`, where `I` interpolates the opening
    /// points and `Z` vanishes on their x-coordinates. A returned proof
    /// means every opening point lies on `poly`, and its logarithm
    /// satisfies the quotient equation at the secret; conversely, a point
    /// off the polynomial gives exactly `NonDivisibleOpening`. Duplicate
    /// x-coordinates give exactly `DegenerateInterpolation`, and
    /// `SetupRange` cannot come back while `poly` fits the setup.
    pub fn prove(&self, poly: &Poly, points: &Vec<(Fr, Fr)>) -> (r: Result<Proof, KzgError>)
        requires
            self.wf(),
            poly.wf(),
            points_wf(points@),
            points@.len() + 3 <= usize::MAX,
            poly@.len() + points@.len() + 1 <= usize::MAX,
        ensures
            r is Err && r->Err_0 == KzgError::DegenerateInterpolation <==> has_dup_x(points@),
            r is Err ==> r->Err_0 == KzgError::DegenerateInterpolation || r->Err_0
                == KzgError::NonDivisibleOpening || r->Err_0 == KzgError::SetupRange,
            poly@.len() <= self.n_powers() ==> !(r is Err && r->Err_0 == KzgError::SetupRange),
            r is Ok ==> forall|m: int|
                0 <= m < points@.len() ==> peval(poly@, #[trigger] xval(points@, m)) == yval(
                    points@,
                    m,
                ),
            !has_dup_x(points@) && (exists|m: int|
                0 <= m < points@.len() && peval(poly@, #[trigger] xval(points@, m)) != yval(
                    points@,
                    m,
                )) ==> r is Err && r->Err_0 == KzgError::NonDivisibleOpening,
            !has_dup_x(points@) && poly@.len() <= self.n_powers() && (forall|m: int|
                0 <= m < points@.len() ==> peval(poly@, #[trigger] xval(points@, m)) == yval(
                    points@,
                    m,
                )) ==> r is Ok,
            r is Ok ==> exists|ip: Seq<nat>|
                #[trigger] interp_ok(ip, points@) && fmul(
                    r->Ok_0@,
                    peval(vanish(xvals(points@), points@.len() as int), self.tau_val()),
                ) == fsub(peval(poly@, self.tau_val()), peval(ip, self.tau_val())),
    {
        let ghost k = points@.len() as int;
        let ghost xs = xvals(points@);
        let ghost tau = self.tau_val();
        let ghost pv = poly@;
        proof {
            assert forall|m: int| 0 <= m < k implies #[trigger] xs[m] == xval(points@, m) by {}
            assert forall|m: int| 0 <= m < k implies is_elem(#[trigger] xs[m]) by {
                assert(is_elem(xval(points@, m)));
            }
        }
        let i_poly = match Poly::lagrange(points) {
            Err(e) => {
                return Err(e);
            },
            Ok(p) => p,
        };
        let ghost ip = i_poly@;
        let z = Self::z_poly_of(points);
        proof {
            assert(!(z@.len() == 1 && z@[0] == 0)) by {
                lemma_vanish_top(xs, k);
                assert(pcoeff(z@, k) == 1);
            }
        }
        let mut diff = poly.copied();
        diff.sub_assign(&i_poly);
        let ghost diffv = diff@;
        let qr = diff.div(&z);
        let q = qr.0;
        let rem = qr.1;
        proof {
            // at every field element, P - I splits through the division
            assert forall|x: nat| is_elem(x) implies peval(diffv, x) == fadd(
                fmul(peval(q@, x), peval(z@, x)),
                peval(rem@, x),
            ) && peval(diffv, x) == fsub(peval(pv, x), peval(ip, x)) by {
                crate::poly::lemma_peval_congr(padd(pmul(q@, z@), rem@), diffv, x);
                crate::poly::lemma_peval_padd(pmul(q@, z@), rem@, x);
                crate::poly::lemma_eval_pmul(q@, z@, x);
                crate::poly::lemma_peval_congr(diffv, psub(pv, ip), x);
                crate::poly::lemma_peval_psub(pv, ip, x);
            }
        }
        if !rem.is_zero() {
            proof {
                // opening points that all lie on the polynomial force an
                // exact division: the remainder would vanish at k
                // distinct points with at most k coefficients
                if !has_dup_x(points@) && (forall|m: int|
                    0 <= m < k ==> peval(pv, #[trigger] xval(points@, m)) == yval(points@, m)) {
                    assert(rem@.len() < z@.len());
                    assert forall|m: int| 0 <= m < k implies peval(rem@, #[trigger] xs[m])
                        == 0 by {
                        let xm = xs[m];
                        crate::poly::lemma_peval_congr(z@, vanish(xs, k), xm);
                        lemma_vanish_root(xs, k, m);
                        lemma_fmul_zero(peval(q@, xm));
                        assert(peval(ip, xm) == yval(points@, m));
                        assert(peval(pv, xm) == yval(points@, m));
                        lemma_fsub_self(yval(points@, m));
                        crate::poly::lemma_eval_sum_elem(rem@, xm, rem@.len() as int);
                        lemma_fadd_zero(peval(rem@, xm));
                    }
                    assert forall|i: int, j2: int|
                        0 <= i < k && 0 <= j2 < k && i != j2 implies crate::field::has_inverse(
                        fsub(#[trigger] xs[j2], #[trigger] xs[i]),
                    ) by {
                        assert(xs[j2] == xval(points@, j2));
                        assert(xs[i] == xval(points@, i));
                    }
                    crate::poly::lemma_vanishing_zero(rem@, xs, k);
                    assert(pcoeff(rem@, 0) == 0);
                    if rem@.len() > 1 {
                        assert(pcoeff(rem@, rem@.len() - 1) == 0);
                    }
                }
            }
            return Err(KzgError::NonDivisibleOpening);
        }
        proof {
            assert(rem@ =~= zero_poly());
            // every opening point lies on the polynomial
            assert forall|m: int| 0 <= m < k implies peval(pv, #[trigger] xval(points@, m))
                == yval(points@, m) by {
                let xm = xs[m];
                crate::poly::lemma_peval_congr(z@, vanish(xs, k), xm);
                lemma_vanish_root(xs, k, m);
                lemma_fmul_zero(peval(q@, xm));
                crate::poly::lemma_peval_zero(xm);
                crate::poly::lemma_zero_ops();
                assert(peval(diffv, xm) == fadd(0, 0));
                assert(peval(ip, xm) == yval(points@, m));
                crate::poly::lemma_eval_sum_elem(pv, xm, pv.len() as int);
                assert(is_elem(yval(points@, m)));
                lemma_fsub_zero_iff(peval(pv, xm), peval(ip, xm));
            }
        }
        proof {
            q.lemma_view();
        }
        if q.c.len() > self.pow_tau_g1.len() {
            return Err(KzgError::SetupRange);
        }
        let pf = self.eval_at_tau_g1(&q);
        proof {
            // the quotient equation at the secret
            assert(is_elem(tau));
            crate::poly::lemma_peval_congr(z@, vanish(xs, k), tau);
            crate::poly::lemma_peval_zero(tau);
            assert(peval(rem@, tau) == 0);
            assert(peval(diffv, tau) == fadd(
                fmul(peval(q@, tau), peval(z@, tau)),
                peval(rem@, tau),
            ));
            assert(peval(diffv, tau) == fsub(peval(pv, tau), peval(ip, tau)));
            lemma_f_in_range(peval(q@, tau), peval(z@, tau));
            lemma_fadd_zero(fmul(peval(q@, tau), peval(z@, tau)));
            assert(interp_ok(ip, points@));
            assert(fmul(pf@, peval(vanish(xs, k), tau)) == fsub(peval(pv, tau), peval(ip, tau)));
        }
        Ok(pf)
    }

    /// The single-point protocol: commit to a degree-1 polynomial through
    /// `(z, y)` and one independently sampled random point, and prove the
    /// opening at `z`. The committed line passes through `(z, y)` by
    /// construction, so this always succeeds, and the returned pair
    /// satisfies the single-point equation that `verify_one` checks. The
    /// commitment is bound to that random line, not to any larger
    /// dataset: this path is a simplified illustration of the scheme.
    pub fn prove_one(&self, z: &Fr, y: &Fr) -> (r: Result<SingleProof, KzgError>)
        requires
            self.wf(),
            self.n_powers() >= 2,
            is_elem(z@),
            is_elem(y@),
        ensures
            r is Ok,
            fmul(r->Ok_0.witness@, fsub(self.tau_val(), z@)) == fsub(
                r->Ok_0.commitment@,
                y@,
            ),
    {
        let mut x2 = Fr::random();
        if x2.equals(z) {
            x2 = z.add(&Fr::from_u64(1));
            proof {
                let p = fr_order();
                if z@ + 1 < p {
                    lemma_small_mod((z@ + 1) as nat, p);
                } else {
                    vstd::arithmetic::div_mod::lemma_mod_self_0(p as int);
                }
            }
        }
        let y2 = Fr::random();
        let mut set: Vec<(Fr, Fr)> = Vec::new();
        set.push((*z, *y));
        set.push((x2, y2));
        proof {
            assert(xval(set@, 0) == z@);
            assert(xval(set@, 1) == x2@);
            assert(yval(set@, 0) == y@);
            assert(yval(set@, 1) == y2@);
            assert(points_wf(set@));
            assert(!has_dup_x(set@)) by {
                if has_dup_x(set@) {
                    let (ii, jj) = choose|ii: int, jj: int|
                        0 <= ii < jj < set@.len() && #[trigger] xval(set@, ii) == #[trigger] xval(
                            set@,
                            jj,
                        );
                    assert(ii == 0 && jj == 1);
                }
            }
        }
        let pc = match self.poly_commitment_from_set(&set) {
            Err(e) => {
                // unreachable: the two x-coordinates differ and the set
                // fits the setup, so the commitment cannot fail
                proof {
                    assert(false);
                }
                return Err(KzgError::NonDivisibleOpening);
            },
            Ok(v) => v,
        };
        let p_poly = pc.0;
        let commitment = pc.1;
        let mut opening: Vec<(Fr, Fr)> = Vec::new();
        opening.push((*z, *y));
        proof {
            assert(xval(opening@, 0) == z@);
            assert(yval(opening@, 0) == y@);
            assert(points_wf(opening@));
            assert(!has_dup_x(opening@));
            assert(peval(p_poly@, xval(set@, 0)) == yval(set@, 0));
            assert forall|m: int| 0 <= m < opening@.len() implies peval(
                p_poly@,
                #[trigger] xval(opening@, m),
            ) == yval(opening@, m) by {
                assert(m == 0);
                assert(xval(opening@, 0) == xval(set@, 0));
                assert(yval(opening@, 0) == yval(set@, 0));
            }
        }
        let witness = match self.prove(&p_poly, &opening) {
            Err(e) => {
                // unreachable: the line passes through the opening point,
                // so the division is exact and the quotient fits
                proof {
                    assert(false);
                }
                return Err(KzgError::NonDivisibleOpening);
            },
            Ok(w) => w,
        };
        proof {
            let tau = self.tau_val();
            let xs = xvals(opening@);
            // the interpolant of one point is the constant polynomial of
            // its y-value, so the quotient equation of `prove` is exactly
            // the single-point equation
            let ip = choose|ip: Seq<nat>|
                #[trigger] interp_ok(ip, opening@) && fmul(
                    witness@,
                    peval(vanish(xvals(opening@), opening@.len() as int), tau),
                ) == fsub(peval(p_poly@, tau), peval(ip, tau));
            assert(ip.len() == 1);
            assert(is_elem(pcoeff(ip, 0)));
            assert forall|x: nat| is_elem(x) implies peval(ip, x) == ip[0] by {
                assert(eval_sum(ip, x, 0) == 0);
                assert(fpow(x, 0) == 1);
                lemma_fmul_one(ip[0]);
                lemma_fadd_zero(ip[0]);
            }
            assert(peval(ip, xval(opening@, 0)) == yval(opening@, 0));
            assert(peval(ip, tau) == y@);
            // the vanishing polynomial of the single point, at the secret
            assert(xs[0] == z@);
            let f = seq![fneg(z@), 1nat];
            assert(vanish(xs, 0) == seq![1nat]);
            assert(f =~= seq![fneg(xs[0]), 1nat]);
            assert(vanish(xs, 1) == pmul(seq![1nat], f));
            assert(all_elems(seq![1nat])) by {
                lemma_small_mod(1, fr_order());
                assert forall|kk: int| is_elem(#[trigger] pcoeff(seq![1nat], kk)) by {}
            }
            assert(all_elems(f)) by {
                lemma_f_in_range(0, z@);
                lemma_small_mod(1, fr_order());
                assert forall|kk: int| is_elem(#[trigger] pcoeff(f, kk)) by {}
            }
            crate::poly::lemma_eval_pmul(seq![1nat], f, tau);
            crate::poly::lemma_peval_one(tau);
            crate::poly::lemma_peval_linear(fneg(z@), 1, tau);
            lemma_fmul_sub(1, tau, z@);
            lemma_fmul_one(z@);
            lemma_f_in_range(tau, z@);
            lemma_fmul_one(fsub(tau, z@));
            assert(peval(vanish(xs, 1), tau) == fsub(tau, z@));
            assert(commitment@ == peval(p_poly@, tau));
        }
        Ok(SingleProof { commitment, witness })
    }

    /// Check a single-point proof: test the pairing equation
    /// `e(witness, τ·G2 - z·G2) == e(commitment - y·G1, G2)`, with
    /// `setupG2[1] - z·G2` standing in for the committed vanishing
    /// polynomial of the single opening point. The result is exactly that
    /// equation, over the elements' logarithms.
    pub fn verify_one(&self, z: &Fr, y: &Fr, pr: &SingleProof) -> (r: bool)
        requires
            self.wf(),
            self.n_powers() >= 2,
            is_elem(z@),
            is_elem(y@),
        ensures
            r == (fmul(pr.witness@, fsub(self.tau_val(), z@)) == fsub(pr.commitment@, y@)),
    {
        proof {
            assert(fpow(self.tau_val(), 0) == 1);
            assert(fpow(self.tau_val(), 1) == fmul(1, self.tau_val()));
            lemma_fmul_one(self.tau_val());
        }
        let zg2 = g2_sub(&self.pow_tau_g2[1], &g2_gen_mul(z));
        let e1 = pairing_of(&pr.witness, &zg2);
        let cy = g1_sub(&pr.commitment, &g1_gen_mul(y));
        let e2 = pairing_of(&cy, &g2_generator());
        proof {
            lemma_f_in_range(pr.commitment@, y@);
            lemma_fmul_one(fsub(pr.commitment@, y@));
        }
        gt_eq(&e1, &e2)
    }

    /// Check an opening proof: re-derive `I` and `Z` from the claimed
    /// points alone and test the pairing equation
    /// `e(proof, Z(τ)·G2) == e(commitment - I(τ)·G1, G2)`. The result is
    /// exactly that equation over the elements' logarithms, for an
    /// interpolant `I` of the claimed points. Never errors: duplicate
    /// x-coordinates and oversize point sets yield `false`.
    pub fn verify(
        &self,
        commitment: &Commitment,
        points: &Vec<(Fr, Fr)>,
        proof: &Proof,
    ) -> (r: bool)
        requires
            self.wf(),
            points_wf(points@),
            points@.len() + 3 <= usize::MAX,
        ensures
            has_dup_x(points@) ==> r == false,
            points@.len() + 1 > self.n_powers() ==> r == false,
            !has_dup_x(points@) && points@.len() + 1 <= self.n_powers() ==> exists|ip: Seq<nat>|
                #[trigger] interp_ok(ip, points@) && r == (fmul(
                    proof@,
                    peval(vanish(xvals(points@), points@.len() as int), self.tau_val()),
                ) == fsub(commitment@, peval(ip, self.tau_val()))),
            !has_dup_x(points@) && 1 <= points@.len() && points@.len() + 1 <= self.n_powers()
                ==> forall|ip: Seq<nat>|
                #[trigger] interp_ok(ip, points@) ==> r == (fmul(
                    proof@,
                    peval(vanish(xvals(points@), points@.len() as int), self.tau_val()),
                ) == fsub(commitment@, peval(ip, self.tau_val()))),
    {
        let i_poly = match Poly::lagrange(points) {
            Err(_) => {
                return false;
            },
            Ok(p) => p,
        };
        let z = Self::z_poly_of(points);
        proof {
            z.lemma_view();
            i_poly.lemma_view();
        }
        if z.c.len() > self.pow_tau_g2.len() || i_poly.c.len() > self.pow_tau_g1.len() {
            return false;
        }
        let zg2 = self.eval_at_tau_g2(&z);
        let ig1 = self.eval_at_tau_g1(&i_poly);
        let e1 = pairing_of(proof, &zg2);
        let cmi = g1_sub(commitment, &ig1);
        let e2 = pairing_of(&cmi, &g2_generator());
        let r = gt_eq(&e1, &e2);
        proof {
            let ghost tau = self.tau_val();
            crate::poly::lemma_peval_congr(z@, vanish(xvals(points@), points@.len() as int), tau);
            lemma_f_in_range(commitment@, peval(i_poly@, tau));
            lemma_fmul_one(fsub(commitment@, peval(i_poly@, tau)));
            if !has_dup_x(points@) && points@.len() + 1 <= self.n_powers() {
                assert(interp_ok(i_poly@, points@));
                if 1 <= points@.len() {
                    // the interpolant is unique, so the equation is the
                    // same for every interpolant of the claimed points
                    assert forall|ip: Seq<nat>| interp_ok(ip, points@) implies r == (fmul(
                        proof@,
                        peval(vanish(xvals(points@), points@.len() as int), self.tau_val()),
                    ) == fsub(commitment@, peval(ip, self.tau_val()))) by {
                        crate::poly::lemma_interpolant_unique(ip, i_poly@, points@);
                    }
                }
            }
        }
        r
    }
}

} // verus!
