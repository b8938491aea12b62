//! Dense polynomials over the BLS12-381 scalar field.
//!
//! A polynomial is an ordered sequence of coefficients, index = power of x,
//! kept *normalized*: no trailing zero coefficient, except the single
//! coefficient `[0]` for the zero polynomial. The mathematical model of a
//! polynomial is the sequence of its coefficient values (`Seq<nat>`), and
//! every operation's contract is stated coefficient-wise over that model.

use vstd::prelude::*;

use crate::field::{
    fadd, fmul, fneg, fr_order, fsub, is_elem, lemma_f_in_range, lemma_fadd_assoc,
    lemma_fadd_fmul_neg_cancel,
    lemma_fadd_four, lemma_fadd_sub_cancel, lemma_fadd_zero, lemma_fmul_distrib, lemma_fmul_one,
    lemma_fmul_shuffle, lemma_fmul_sub, lemma_fmul_zero, lemma_fsub_self, lemma_fsub_zero_iff,
    lemma_inv_cancel, Fr,
};

verus! {

use vstd::arithmetic::div_mod::{lemma_small_mod, lemma_mod_multiples_basic};

/// The coefficient values of a sequence of field elements.
pub open spec fn vals(s: Seq<Fr>) -> Seq<nat> {
    s.map_values(|f: Fr| f@)
}

/// Coefficient `k` of a polynomial, zero beyond its length.
pub open spec fn pcoeff(s: Seq<nat>, k: int) -> nat {
    if 0 <= k < s.len() {
        s[k]
    } else {
        0
    }
}

/// Two coefficient sequences denote one polynomial.
pub open spec fn p_equiv(a: Seq<nat>, b: Seq<nat>) -> bool {
    forall|k: int| #![trigger pcoeff(a, k)] #![trigger pcoeff(b, k)] pcoeff(a, k) == pcoeff(b, k)
}

/// Every coefficient is a field element.
pub open spec fn all_elems(s: Seq<nat>) -> bool {
    forall|k: int| is_elem(#[trigger] pcoeff(s, k))
}

/// No trailing zero coefficient, except the single `[0]`.
pub open spec fn is_normalized(s: Seq<nat>) -> bool {
    s.len() >= 1 && (s.len() > 1 ==> s[s.len() - 1] != 0)
}

/// The zero polynomial.
pub open spec fn zero_poly() -> Seq<nat> {
    seq![0nat]
}

pub open spec fn len_max(a: nat, b: nat) -> nat {
    if a >= b {
        a
    } else {
        b
    }
}

/// Coefficient-wise sum of two polynomials.
pub open spec fn padd(a: Seq<nat>, b: Seq<nat>) -> Seq<nat> {
    Seq::new(len_max(a.len(), b.len()), |k: int| fadd(pcoeff(a, k), pcoeff(b, k)))
}

/// Coefficient-wise difference of two polynomials.
pub open spec fn psub(a: Seq<nat>, b: Seq<nat>) -> Seq<nat> {
    Seq::new(len_max(a.len(), b.len()), |k: int| fsub(pcoeff(a, k), pcoeff(b, k)))
}

/// Partial convolution: the first `i` terms of coefficient `k` of a product.
pub open spec fn conv_sum(a: Seq<nat>, b: Seq<nat>, k: int, i: int) -> nat
    decreases i,
{
    if i <= 0 {
        0
    } else {
        fadd(conv_sum(a, b, k, i - 1), fmul(pcoeff(a, i - 1), pcoeff(b, k - (i - 1))))
    }
}

/// Coefficient `k` of the product of two polynomials.
pub open spec fn pmul_coeff(a: Seq<nat>, b: Seq<nat>, k: int) -> nat {
    conv_sum(a, b, k, k + 1)
}

/// Product of two (non-empty) polynomials, as the full convolution.
pub open spec fn pmul(a: Seq<nat>, b: Seq<nat>) -> Seq<nat> {
    Seq::new((a.len() + b.len() - 1) as nat, |k: int| pmul_coeff(a, b, k))
}

/// Powers of a field element.
pub open spec fn fpow(x: nat, n: nat) -> nat
    decreases n,
{
    if n == 0 {
        1
    } else {
        fmul(fpow(x, (n - 1) as nat), x)
    }
}

/// The first `n` terms of the evaluation of `s` at `x`.
pub open spec fn eval_sum(s: Seq<nat>, x: nat, n: int) -> nat
    decreases n,
{
    if n <= 0 {
        0
    } else {
        fadd(eval_sum(s, x, n - 1), fmul(pcoeff(s, n - 1), fpow(x, (n - 1) as nat)))
    }
}

/// Evaluation of a polynomial at a point.
pub open spec fn peval(s: Seq<nat>, x: nat) -> nat {
    eval_sum(s, x, s.len() as int)
}

/// The first `n` terms of the dot product of two coefficient sequences.
pub open spec fn dot_sum(ps: Seq<nat>, s: Seq<nat>, n: int) -> nat
    decreases n,
{
    if n <= 0 {
        0
    } else {
        fadd(dot_sum(ps, s, n - 1), fmul(pcoeff(ps, n - 1), pcoeff(s, n - 1)))
    }
}

/// The polynomial `c * x^e`.
pub open spec fn monomial(e: int, c: nat) -> Seq<nat> {
    Seq::new((e + 1) as nat, |k: int| if k == e { c } else { 0 })
}

/// `s` with coefficient `i` replaced by `v`, padded with zeros if needed.
pub open spec fn set_at(s: Seq<nat>, i: int, v: nat) -> Seq<nat> {
    Seq::new(
        if s.len() > i { s.len() } else { (i + 1) as nat },
        |k: int| if k == i { v } else { pcoeff(s, k) },
    )
}

/// `fadd(0, 0) == 0` and `fsub(0, 0) == 0`.
pub proof fn lemma_zero_ops()
    ensures
        fadd(0, 0) == 0,
        fsub(0, 0) == 0,
        is_elem(0),
{
    lemma_small_mod(0, fr_order());
    lemma_mod_multiples_basic(0, fr_order() as int);
}

/// Coefficient `k` of a sum is the sum of the coefficients `k`.
pub proof fn lemma_pcoeff_padd(a: Seq<nat>, b: Seq<nat>, k: int)
    ensures
        pcoeff(padd(a, b), k) == fadd(pcoeff(a, k), pcoeff(b, k)),
{
    if !(0 <= k < padd(a, b).len()) {
        lemma_zero_ops();
    }
}

/// Coefficient `k` of a difference is the difference of the coefficients `k`.
pub proof fn lemma_pcoeff_psub(a: Seq<nat>, b: Seq<nat>, k: int)
    ensures
        pcoeff(psub(a, b), k) == fsub(pcoeff(a, k), pcoeff(b, k)),
{
    if !(0 <= k < psub(a, b).len()) {
        lemma_zero_ops();
    }
}

/// A partial convolution is a field element.
pub proof fn lemma_conv_sum_elem(a: Seq<nat>, b: Seq<nat>, k: int, i: int)
    ensures
        is_elem(conv_sum(a, b, k, i)),
    decreases i,
{
    if i <= 0 {
        lemma_zero_ops();
    } else {
        lemma_conv_sum_elem(a, b, k, i - 1);
        lemma_f_in_range(
            conv_sum(a, b, k, i - 1),
            fmul(pcoeff(a, i - 1), pcoeff(b, k - (i - 1))),
        );
    }
}

/// Terms that are zero do not change a partial convolution.
pub proof fn lemma_conv_sum_tail_zero(a: Seq<nat>, b: Seq<nat>, k: int, i: int, i0: int)
    requires
        i0 <= i,
        forall|j: int| i0 <= j < i ==> fmul(pcoeff(a, j), #[trigger] pcoeff(b, k - j)) == 0,
    ensures
        conv_sum(a, b, k, i) == conv_sum(a, b, k, i0),
    decreases i - i0,
{
    if i > i0 {
        assert(fmul(pcoeff(a, i - 1), pcoeff(b, k - (i - 1))) == 0);
        lemma_conv_sum_tail_zero(a, b, k, i - 1, i0);
        lemma_conv_sum_elem(a, b, k, i - 1);
        lemma_fadd_zero(conv_sum(a, b, k, i - 1));
    }
}

/// Beyond the degree of the product, every coefficient is zero.
pub proof fn lemma_conv_high_zero(a: Seq<nat>, b: Seq<nat>, k: int)
    requires
        k >= a.len() + b.len() - 1,
    ensures
        pmul_coeff(a, b, k) == 0,
{
    assert forall|j: int| 0 <= j < k + 1 implies fmul(pcoeff(a, j), #[trigger] pcoeff(b, k - j))
        == 0 by {
        if j < a.len() {
            assert(pcoeff(b, k - j) == 0);
            lemma_fmul_zero(pcoeff(a, j));
        } else {
            lemma_fmul_zero(pcoeff(b, k - j));
        }
    }
    lemma_conv_sum_tail_zero(a, b, k, k + 1, 0);
}

/// The coefficients of `pmul` are the convolution coefficients, at every
/// index.
pub proof fn lemma_pcoeff_pmul(a: Seq<nat>, b: Seq<nat>, k: int)
    requires
        a.len() >= 1,
        b.len() >= 1,
    ensures
        pcoeff(pmul(a, b), k) == pmul_coeff(a, b, k),
{
    if k < 0 {
    } else if k >= pmul(a, b).len() {
        lemma_conv_high_zero(a, b, k);
    }
}

/// Convolution distributes over polynomial addition.
pub proof fn lemma_conv_sum_distrib(x: Seq<nat>, y: Seq<nat>, d: Seq<nat>, k: int, i: int)
    ensures
        conv_sum(padd(x, y), d, k, i) == fadd(conv_sum(x, d, k, i), conv_sum(y, d, k, i)),
    decreases i,
{
    if i <= 0 {
        lemma_zero_ops();
    } else {
        lemma_conv_sum_distrib(x, y, d, k, i - 1);
        lemma_pcoeff_padd(x, y, i - 1);
        lemma_fmul_distrib(pcoeff(x, i - 1), pcoeff(y, i - 1), pcoeff(d, k - (i - 1)));
        lemma_fadd_four(
            conv_sum(x, d, k, i - 1),
            fmul(pcoeff(x, i - 1), pcoeff(d, k - (i - 1))),
            conv_sum(y, d, k, i - 1),
            fmul(pcoeff(y, i - 1), pcoeff(d, k - (i - 1))),
        );
    }
}

/// Convolution depends only on the polynomials denoted.
pub proof fn lemma_conv_sum_congr(
    a: Seq<nat>,
    a2: Seq<nat>,
    b: Seq<nat>,
    b2: Seq<nat>,
    k: int,
    i: int,
)
    requires
        p_equiv(a, a2),
        p_equiv(b, b2),
    ensures
        conv_sum(a, b, k, i) == conv_sum(a2, b2, k, i),
    decreases i,
{
    if i > 0 {
        lemma_conv_sum_congr(a, a2, b, b2, k, i - 1);
    }
}

/// Convolution with the monomial `c * x^e`.
pub proof fn lemma_conv_monomial(e: int, c: nat, d: Seq<nat>, k: int, i: int)
    requires
        0 <= e,
    ensures
        conv_sum(monomial(e, c), d, k, i) == if e < i {
            fmul(c, pcoeff(d, k - e))
        } else {
            0
        },
    decreases i,
{
    if i <= 0 {
    } else {
        lemma_conv_monomial(e, c, d, k, i - 1);
        let t = monomial(e, c);
        if i - 1 == e {
            lemma_f_in_range(c, pcoeff(d, k - e));
            lemma_fadd_zero(fmul(c, pcoeff(d, k - e)));
        } else {
            assert(pcoeff(t, i - 1) == 0);
            lemma_fmul_zero(pcoeff(d, k - (i - 1)));
            lemma_conv_sum_elem(t, d, k, i - 1);
            lemma_fadd_zero(conv_sum(t, d, k, i - 1));
        }
    }
}

/// A full convolution stops contributing after the last coefficient of the
/// left factor.
pub proof fn lemma_conv_sum_full(a: Seq<nat>, b: Seq<nat>, k: int)
    requires
        a.len() >= 1,
    ensures
        conv_sum(a, b, k, a.len() as int) == pmul_coeff(a, b, k),
{
    let la = a.len() as int;
    if la <= k + 1 {
        assert forall|j: int| la <= j < k + 1 implies fmul(
            pcoeff(a, j),
            #[trigger] pcoeff(b, k - j),
        ) == 0 by {
            lemma_fmul_zero(pcoeff(b, k - j));
        }
        lemma_conv_sum_tail_zero(a, b, k, k + 1, la);
    } else {
        assert forall|j: int| k + 1 <= j < la implies fmul(
            pcoeff(a, j),
            #[trigger] pcoeff(b, k - j),
        ) == 0 by {
            assert(pcoeff(b, k - j) == 0);
            lemma_fmul_zero(pcoeff(a, j));
        }
        lemma_conv_sum_tail_zero(a, b, k, la, k + 1);
    }
}

/// Every product coefficient with the zero polynomial on the left is zero.
pub proof fn lemma_pmul_coeff_zero_left(d: Seq<nat>, k: int)
    ensures
        pmul_coeff(zero_poly(), d, k) == 0,
{
    assert forall|j: int| 0 <= j < k + 1 implies fmul(
        pcoeff(zero_poly(), j),
        #[trigger] pcoeff(d, k - j),
    ) == 0 by {
        assert(pcoeff(zero_poly(), j) == 0);
        lemma_fmul_zero(pcoeff(d, k - j));
    }
    if k + 1 >= 0 {
        lemma_conv_sum_tail_zero(zero_poly(), d, k, k + 1, 0);
    }
}

/// A normalized polynomial whose coefficients vanish from `bound` on is no
/// longer than `bound`.
pub proof fn lemma_high_zero_len(s: Seq<nat>, bound: int)
    requires
        is_normalized(s),
        bound >= 1,
        forall|k: int| k >= bound ==> #[trigger] pcoeff(s, k) == 0,
    ensures
        s.len() <= bound,
{
    if s.len() > bound {
        assert(pcoeff(s, s.len() - 1) == s[s.len() - 1]);
    }
}

/// A partial evaluation is a field element.
pub proof fn lemma_eval_sum_elem(s: Seq<nat>, x: nat, n: int)
    ensures
        is_elem(eval_sum(s, x, n)),
    decreases n,
{
    if n <= 0 {
        lemma_zero_ops();
    } else {
        lemma_eval_sum_elem(s, x, n - 1);
        lemma_f_in_range(eval_sum(s, x, n - 1), fmul(pcoeff(s, n - 1), fpow(x, (n - 1) as nat)));
    }
}

/// Partial evaluation depends only on the polynomial denoted.
pub proof fn lemma_eval_sum_congr(a: Seq<nat>, b: Seq<nat>, x: nat, n: int)
    requires
        p_equiv(a, b),
    ensures
        eval_sum(a, x, n) == eval_sum(b, x, n),
    decreases n,
{
    if n > 0 {
        lemma_eval_sum_congr(a, b, x, n - 1);
    }
}

/// Terms beyond the length of the polynomial do not change an
/// evaluation.
pub proof fn lemma_eval_sum_high(s: Seq<nat>, x: nat, n: int, n0: int)
    requires
        s.len() <= n0 <= n,
    ensures
        eval_sum(s, x, n) == eval_sum(s, x, n0),
    decreases n - n0,
{
    if n > n0 {
        lemma_eval_sum_high(s, x, n - 1, n0);
        assert(pcoeff(s, n - 1) == 0);
        lemma_fmul_zero(fpow(x, (n - 1) as nat));
        lemma_eval_sum_elem(s, x, n - 1);
        lemma_fadd_zero(eval_sum(s, x, n - 1));
    }
}

/// Evaluation distributes over polynomial addition.
pub proof fn lemma_eval_sum_padd(a: Seq<nat>, b: Seq<nat>, x: nat, n: int)
    ensures
        eval_sum(padd(a, b), x, n) == fadd(eval_sum(a, x, n), eval_sum(b, x, n)),
    decreases n,
{
    if n <= 0 {
        lemma_zero_ops();
    } else {
        lemma_eval_sum_padd(a, b, x, n - 1);
        lemma_pcoeff_padd(a, b, n - 1);
        let pw = fpow(x, (n - 1) as nat);
        lemma_fmul_distrib(pcoeff(a, n - 1), pcoeff(b, n - 1), pw);
        lemma_fadd_four(
            eval_sum(a, x, n - 1),
            fmul(pcoeff(a, n - 1), pw),
            eval_sum(b, x, n - 1),
            fmul(pcoeff(b, n - 1), pw),
        );
    }
}

/// Evaluation of a coefficient-wise scalar multiple is the scalar
/// multiple of the evaluation.
pub proof fn lemma_eval_sum_scaled(s: Seq<nat>, sy: Seq<nat>, y: nat, x: nat, n: int)
    requires
        forall|j: int| #![trigger pcoeff(sy, j)] pcoeff(sy, j) == fmul(pcoeff(s, j), y),
    ensures
        eval_sum(sy, x, n) == fmul(eval_sum(s, x, n), y),
    decreases n,
{
    if n <= 0 {
        lemma_fmul_zero(y);
    } else {
        lemma_eval_sum_scaled(s, sy, y, x, n - 1);
        let pw = fpow(x, (n - 1) as nat);
        let pc = pcoeff(s, n - 1);
        lemma_fmul_shuffle(pc, y, pw);
        lemma_fmul_distrib(eval_sum(s, x, n - 1), fmul(pc, pw), y);
    }
}

/// Evaluation splits at the constant coefficient: the rest of the
/// polynomial is evaluated and multiplied by `x`.
#[verifier::rlimit(100)]
pub proof fn lemma_eval_sum_head(s: Seq<nat>, x: nat, n: int)
    requires
        n >= 1,
        s.len() >= 1,
        all_elems(s),
        is_elem(x),
    ensures
        eval_sum(s, x, n) == fadd(
            pcoeff(s, 0),
            fmul(x, eval_sum(s.subrange(1, s.len() as int), x, n - 1)),
        ),
    decreases n,
{
    let t = s.subrange(1, s.len() as int);
    assert(is_elem(pcoeff(s, 0)));
    assert forall|j: int| 0 <= j implies #[trigger] pcoeff(t, j) == pcoeff(s, j + 1) by {}
    if n == 1 {
        assert(eval_sum(s, x, 0) == 0);
        assert(eval_sum(t, x, 0) == 0);
        assert(fpow(x, 0) == 1);
        lemma_fmul_one(pcoeff(s, 0));
        lemma_fadd_zero(pcoeff(s, 0));
        lemma_fmul_zero(x);
        assert(eval_sum(s, x, 1) == fadd(0, fmul(pcoeff(s, 0), 1)));
        assert(eval_sum(s, x, n) == fadd(pcoeff(s, 0), fmul(x, eval_sum(t, x, n - 1))));
    } else {
        lemma_eval_sum_head(s, x, n - 1);
        let et = eval_sum(t, x, n - 2);
        let pw = fpow(x, (n - 2) as nat);
        let tt = fmul(pcoeff(t, n - 2), pw);
        // the top term of `s` is the top term of the rest, times `x`
        assert(fpow(x, (n - 1) as nat) == fmul(pw, x));
        lemma_fmul_shuffle(pcoeff(s, n - 1), pw, x);
        assert(fmul(pcoeff(s, n - 1), fpow(x, (n - 1) as nat)) == fmul(fmul(pcoeff(s, n - 1), pw), x));
        assert(fmul(fmul(pcoeff(s, n - 1), pw), x) == fmul(tt, x));
        lemma_fadd_assoc(pcoeff(s, 0), fmul(x, et), fmul(tt, x));
        lemma_fmul_distrib(et, tt, x);
        assert(fmul(et, x) == fmul(x, et));
        assert(fmul(fadd(et, tt), x) == fmul(x, fadd(et, tt)));
        assert(eval_sum(t, x, n - 1) == fadd(et, tt));
        assert(eval_sum(s, x, n) == fadd(
            eval_sum(s, x, n - 1),
            fmul(pcoeff(s, n - 1), fpow(x, (n - 1) as nat)),
        ));
        assert(eval_sum(s, x, n) == fadd(fadd(pcoeff(s, 0), fmul(x, et)), fmul(tt, x)));
        assert(fadd(fmul(x, et), fmul(tt, x)) == fmul(x, fadd(et, tt)));
        assert(eval_sum(s, x, n) == fadd(pcoeff(s, 0), fmul(x, eval_sum(t, x, n - 1))));
    }
}

/// The head term of a product coefficient: the constant coefficient of
/// the left factor times a coefficient of the right, plus the matching
/// coefficient of the product with the rest of the left factor.
pub proof fn lemma_conv_sum_head(a: Seq<nat>, b: Seq<nat>, k: int, i: int)
    requires
        i >= 1,
        a.len() >= 1,
    ensures
        conv_sum(a, b, k, i) == fadd(
            fmul(pcoeff(a, 0), pcoeff(b, k)),
            conv_sum(a.subrange(1, a.len() as int), b, k - 1, i - 1),
        ),
    decreases i,
{
    let t = a.subrange(1, a.len() as int);
    assert forall|j: int| 0 <= j implies #[trigger] pcoeff(t, j) == pcoeff(a, j + 1) by {}
    let h = fmul(pcoeff(a, 0), pcoeff(b, k));
    lemma_f_in_range(pcoeff(a, 0), pcoeff(b, k));
    if i == 1 {
        lemma_fadd_zero(h);
        assert(conv_sum(a, b, k, 0) == 0);
        assert(conv_sum(t, b, k - 1, 0) == 0);
        assert(conv_sum(a, b, k, 1) == fadd(0, h));
    } else {
        lemma_conv_sum_head(a, b, k, i - 1);
        let term = fmul(pcoeff(a, i - 1), pcoeff(b, k - (i - 1)));
        assert(term == fmul(pcoeff(t, i - 2), pcoeff(b, (k - 1) - (i - 2))));
        assert(conv_sum(a, b, k, i) == fadd(conv_sum(a, b, k, i - 1), term));
        assert(conv_sum(t, b, k - 1, i - 1) == fadd(
            conv_sum(t, b, k - 1, i - 2),
            fmul(pcoeff(t, i - 2), pcoeff(b, (k - 1) - (i - 2))),
        ));
        lemma_fadd_assoc(h, conv_sum(t, b, k - 1, i - 2), term);
        assert(conv_sum(a, b, k, i) == fadd(h, conv_sum(t, b, k - 1, i - 1)));
    }
}

/// Evaluation is multiplicative over a product with a constant.
#[verifier::rlimit(100)]
proof fn lemma_eval_pmul_base(a: Seq<nat>, b: Seq<nat>, x: nat)
    requires
        a.len() == 1,
        b.len() >= 1,
        all_elems(a),
        all_elems(b),
        is_elem(x),
    ensures
        peval(pmul(a, b), x) == fmul(peval(a, x), peval(b, x)),
{
    let la = a.len() as int;
    let lb = b.len() as int;
    let prod = pmul(a, b);
    lemma_eval_sum_elem(b, x, lb);
    // the product is `b`, scaled by the constant coefficient of `a`
    assert forall|k: int| #[trigger] pcoeff(prod, k) == fmul(pcoeff(b, k), pcoeff(a, 0)) by {
        lemma_pcoeff_pmul(a, b, k);
        if k >= 0 {
            lemma_conv_sum_head(a, b, k, k + 1);
            assert forall|j: int|
                0 <= j < k implies fmul(
                pcoeff(a.subrange(1, 1), j),
                #[trigger] pcoeff(b, (k - 1) - j),
            ) == 0 by {
                lemma_fmul_zero(pcoeff(b, (k - 1) - j));
            }
            lemma_conv_sum_tail_zero(a.subrange(1, 1), b, k - 1, k, 0);
            assert(conv_sum(a.subrange(1, 1), b, k - 1, 0) == 0);
            assert(pmul_coeff(a, b, k) == fadd(
                fmul(pcoeff(a, 0), pcoeff(b, k)),
                conv_sum(a.subrange(1, 1), b, k - 1, k),
            ));
            lemma_f_in_range(pcoeff(a, 0), pcoeff(b, k));
            lemma_fadd_zero(fmul(pcoeff(a, 0), pcoeff(b, k)));
            assert(pcoeff(a, 0) * pcoeff(b, k) == pcoeff(b, k) * pcoeff(a, 0));
        } else {
            lemma_fmul_zero(pcoeff(a, 0));
        }
    }
    lemma_eval_sum_scaled(b, prod, pcoeff(a, 0), x, lb);
    assert(eval_sum(a, x, 0) == 0);
    assert(fpow(x, 0) == 1);
    lemma_fmul_one(pcoeff(a, 0));
    lemma_fadd_zero(pcoeff(a, 0));
    lemma_fadd_zero(fmul(pcoeff(a, 0), 1));
    assert(peval(a, x) == pcoeff(a, 0));
    assert(eval_sum(b, x, lb) * pcoeff(a, 0) == pcoeff(a, 0) * eval_sum(b, x, lb));
}

/// Evaluation is multiplicative over the polynomial product.
#[verifier::rlimit(100)]
pub proof fn lemma_eval_pmul(a: Seq<nat>, b: Seq<nat>, x: nat)
    requires
        a.len() >= 1,
        b.len() >= 1,
        all_elems(a),
        all_elems(b),
        is_elem(x),
    ensures
        peval(pmul(a, b), x) == fmul(peval(a, x), peval(b, x)),
    decreases a.len(),
{
    let la = a.len() as int;
    let lb = b.len() as int;
    let prod = pmul(a, b);
    lemma_eval_sum_elem(b, x, lb);
    if la == 1 {
        lemma_eval_pmul_base(a, b, x);
    } else {
        let at = a.subrange(1, la);
        assert forall|j: int| 0 <= j implies #[trigger] pcoeff(at, j) == pcoeff(a, j + 1) by {}
        assert(all_elems(at)) by {
            assert forall|j: int| is_elem(#[trigger] pcoeff(at, j)) by {
                if j >= 0 {
                    assert(pcoeff(at, j) == pcoeff(a, j + 1));
                }
            }
        }
        let pt = pmul(at, b);
        // split every product coefficient at the constant head of `a`
        assert forall|k: int|
            0 <= k implies #[trigger] pmul_coeff(a, b, k) == fadd(
            fmul(pcoeff(a, 0), pcoeff(b, k)),
            pcoeff(pt, k - 1),
        ) by {
            lemma_conv_sum_head(a, b, k, k + 1);
            lemma_pcoeff_pmul(at, b, k - 1);
        }
        // the tail of the product: the scaled tail of `b` plus `at * b`
        let sbt = Seq::new((lb - 1) as nat, |k: int| fmul(pcoeff(a, 0), pcoeff(b, k + 1)));
        let bt = b.subrange(1, lb);
        assert forall|j: int| 0 <= j implies #[trigger] pcoeff(bt, j) == pcoeff(b, j + 1) by {}
        let tp = prod.subrange(1, prod.len() as int);
        assert forall|k: int| 0 <= k implies #[trigger] pcoeff(tp, k) == pcoeff(prod, k + 1) by {}
        assert(p_equiv(tp, padd(sbt, pt))) by {
            assert forall|k: int|
                #![trigger pcoeff(tp, k)]
                #![trigger pcoeff(padd(sbt, pt), k)]
                pcoeff(tp, k) == pcoeff(padd(sbt, pt), k) by {
                lemma_pcoeff_padd(sbt, pt, k);
                if 0 <= k {
                    lemma_pcoeff_pmul(a, b, k + 1);
                    if k >= lb - 1 {
                        lemma_fmul_zero(pcoeff(a, 0));
                    }
                } else {
                    lemma_zero_ops();
                    lemma_fmul_zero(pcoeff(a, 0));
                }
            }
        }
        // evaluate both sides and regroup
        let n = prod.len() as int;
        assert(all_elems(prod)) by {
            assert forall|k: int| is_elem(#[trigger] pcoeff(prod, k)) by {
                lemma_pcoeff_pmul(a, b, k);
                lemma_conv_sum_elem(a, b, k, k + 1);
            }
        }
        lemma_eval_sum_head(prod, x, n);
        lemma_eval_sum_congr(tp, padd(sbt, pt), x, n - 1);
        lemma_eval_sum_padd(sbt, pt, x, n - 1);
        lemma_eval_sum_high(sbt, x, n - 1, lb - 1);
        assert forall|j: int| #[trigger] pcoeff(sbt, j) == fmul(pcoeff(bt, j), pcoeff(a, 0)) by {
            if 0 <= j < lb - 1 {
                assert(pcoeff(bt, j) * pcoeff(a, 0) == pcoeff(a, 0) * pcoeff(bt, j));
            } else {
                lemma_fmul_zero(pcoeff(a, 0));
            }
        }
        lemma_eval_sum_scaled(bt, sbt, pcoeff(a, 0), x, lb - 1);
        lemma_eval_sum_high(pt, x, n - 1, pt.len() as int);
        lemma_eval_pmul(at, b, x);
        // the two decompositions of the factors
        lemma_eval_sum_head(a, x, la);
        lemma_eval_sum_head(b, x, lb);
        let a0 = pcoeff(a, 0);
        let b0 = pcoeff(b, 0);
        let ea = eval_sum(at, x, la - 1);
        let eb = eval_sum(bt, x, lb - 1);
        let evb = eval_sum(b, x, lb);
        // head coefficient of the product
        assert(pcoeff(prod, 0) == fadd(fmul(a0, b0), pcoeff(pt, -1))) by {
            lemma_pcoeff_pmul(a, b, 0);
        }
        assert(pcoeff(pt, -1) == 0);
        lemma_f_in_range(a0, b0);
        lemma_fadd_zero(fmul(a0, b0));
        // the evaluation of the product, head split and regrouped:
        //   a0*b0 + x*((eb*a0) + (ea*evb))
        let u = fmul(eb, a0);
        let v = fmul(ea, evb);
        assert(peval(prod, x) == fadd(fmul(a0, b0), fmul(x, fadd(u, v))));
        // the right-hand side, both factors head split:
        //   (a0 + x*ea) * evb, with evb == b0 + x*eb
        assert(peval(a, x) == fadd(a0, fmul(x, ea)));
        assert(evb == fadd(b0, fmul(x, eb)));
        crate::field::lemma_bilinear_regroup(a0, b0, ea, eb, evb, x);
        assert(fmul(peval(a, x), peval(b, x)) == fadd(fmul(a0, b0), fmul(x, fadd(u, v))));
    }
}

/// Evaluation depends only on the polynomial denoted.
pub proof fn lemma_peval_congr(a: Seq<nat>, b: Seq<nat>, x: nat)
    requires
        p_equiv(a, b),
    ensures
        peval(a, x) == peval(b, x),
{
    let n = if a.len() >= b.len() {
        a.len() as int
    } else {
        b.len() as int
    };
    lemma_eval_sum_high(a, x, n, a.len() as int);
    lemma_eval_sum_high(b, x, n, b.len() as int);
    lemma_eval_sum_congr(a, b, x, n);
}

/// Evaluation distributes over the polynomial sum.
pub proof fn lemma_peval_padd(a: Seq<nat>, b: Seq<nat>, x: nat)
    ensures
        peval(padd(a, b), x) == fadd(peval(a, x), peval(b, x)),
{
    let n = padd(a, b).len() as int;
    lemma_eval_sum_padd(a, b, x, n);
    lemma_eval_sum_high(a, x, n, a.len() as int);
    lemma_eval_sum_high(b, x, n, b.len() as int);
}

/// Evaluation distributes over the polynomial difference.
pub proof fn lemma_eval_sum_psub(a: Seq<nat>, b: Seq<nat>, x: nat, n: int)
    ensures
        eval_sum(psub(a, b), x, n) == fsub(eval_sum(a, x, n), eval_sum(b, x, n)),
    decreases n,
{
    if n <= 0 {
        lemma_zero_ops();
    } else {
        lemma_eval_sum_psub(a, b, x, n - 1);
        lemma_pcoeff_psub(a, b, n - 1);
        let pw = fpow(x, (n - 1) as nat);
        crate::field::lemma_fmul_fsub_distrib(pcoeff(a, n - 1), pcoeff(b, n - 1), pw);
        crate::field::lemma_fadd_fsub_four(
            eval_sum(a, x, n - 1),
            eval_sum(b, x, n - 1),
            fmul(pcoeff(a, n - 1), pw),
            fmul(pcoeff(b, n - 1), pw),
        );
    }
}

/// Evaluation distributes over the polynomial difference.
pub proof fn lemma_peval_psub(a: Seq<nat>, b: Seq<nat>, x: nat)
    ensures
        peval(psub(a, b), x) == fsub(peval(a, x), peval(b, x)),
{
    let n = psub(a, b).len() as int;
    lemma_eval_sum_psub(a, b, x, n);
    lemma_eval_sum_high(a, x, n, a.len() as int);
    lemma_eval_sum_high(b, x, n, b.len() as int);
}

/// Evaluation of a coefficient-wise scalar multiple is the scalar
/// multiple of the evaluation.
pub proof fn lemma_peval_scaled(s: Seq<nat>, sy: Seq<nat>, y: nat, x: nat)
    requires
        forall|j: int| #![trigger pcoeff(sy, j)] pcoeff(sy, j) == fmul(pcoeff(s, j), y),
    ensures
        peval(sy, x) == fmul(peval(s, x), y),
{
    let n = if s.len() >= sy.len() {
        s.len() as int
    } else {
        sy.len() as int
    };
    lemma_eval_sum_scaled(s, sy, y, x, n);
    lemma_eval_sum_high(s, x, n, s.len() as int);
    lemma_eval_sum_high(sy, x, n, sy.len() as int);
}

/// The evaluation of a linear polynomial.
pub proof fn lemma_peval_linear(c0: nat, c1: nat, x: nat)
    requires
        is_elem(c0),
        is_elem(x),
    ensures
        peval(seq![c0, c1], x) == fadd(c0, fmul(c1, x)),
{
    let s = seq![c0, c1];
    assert(eval_sum(s, x, 0) == 0);
    assert(fpow(x, 0) == 1);
    assert(fpow(x, 1) == fmul(1, x));
    lemma_fmul_one(x);
    lemma_fmul_one(c0);
    lemma_fadd_zero(c0);
    assert(eval_sum(s, x, 1) == fadd(0, fmul(c0, 1)));
    assert(eval_sum(s, x, 2) == fadd(eval_sum(s, x, 1), fmul(c1, fpow(x, 1))));
}

/// The zero polynomial evaluates to zero.
pub proof fn lemma_peval_zero(x: nat)
    ensures
        peval(zero_poly(), x) == 0,
{
    lemma_zero_ops();
    lemma_fmul_zero(fpow(x, 0));
    assert(eval_sum(zero_poly(), x, 0) == 0);
    assert(peval(zero_poly(), x) == fadd(0, fmul(0, fpow(x, 0))));
}

/// The unit polynomial evaluates to one.
pub proof fn lemma_peval_one(x: nat)
    ensures
        peval(seq![1nat], x) == 1,
{
    assert(eval_sum(seq![1nat], x, 0) == 0);
    assert(fpow(x, 0) == 1);
    lemma_fmul_one(1);
    lemma_fadd_zero(1);
    assert(peval(seq![1nat], x) == fadd(0, fmul(1, fpow(x, 0))));
}

/// Coefficient `i` of the quotient of `r` by the monic linear factor
/// `(x - a)`, by Horner's rule from the top coefficient down.
pub open spec fn synth_q(r: Seq<nat>, a: nat, i: int) -> nat
    decreases r.len() - i,
{
    if i + 2 >= r.len() {
        pcoeff(r, i + 1)
    } else {
        fadd(pcoeff(r, i + 1), fmul(a, synth_q(r, a, i + 1)))
    }
}

/// The quotient of `r` by the monic linear factor `(x - a)`.
pub open spec fn synth_quotient(r: Seq<nat>, a: nat) -> Seq<nat> {
    Seq::new((r.len() - 1) as nat, |i: int| synth_q(r, a, i))
}

/// Quotient coefficients are field elements.
pub proof fn lemma_synth_q_elem(r: Seq<nat>, a: nat, i: int)
    requires
        all_elems(r),
    ensures
        is_elem(synth_q(r, a, i)),
    decreases r.len() - i,
{
    if i + 2 >= r.len() {
        assert(is_elem(pcoeff(r, i + 1)));
    } else {
        lemma_synth_q_elem(r, a, i + 1);
        lemma_f_in_range(pcoeff(r, i + 1), fmul(a, synth_q(r, a, i + 1)));
    }
}

/// Synthetic division by a monic linear factor: `r` is its quotient
/// times `(x - a)`, plus the constant `r(a)`.
#[verifier::rlimit(100)]
#[verifier::spinoff_prover]
pub proof fn lemma_synth_div(r: Seq<nat>, a: nat)
    requires
        r.len() >= 2,
        all_elems(r),
        is_elem(a),
    ensures
        all_elems(synth_quotient(r, a)),
        p_equiv(r, padd(pmul(synth_quotient(r, a), seq![fneg(a), 1nat]), seq![peval(r, a)])),
{
    let m = r.len() as int;
    let q = synth_quotient(r, a);
    let f = seq![fneg(a), 1nat];
    let c = fadd(pcoeff(r, 0), fmul(a, synth_q(r, a, 0)));
    assert forall|j: int| is_elem(#[trigger] pcoeff(q, j)) by {
        if 0 <= j < q.len() {
            lemma_synth_q_elem(r, a, j);
        }
    }
    // coefficient j of q * (x - a): the previous quotient coefficient
    // plus the current one times the negated root
    assert forall|j: int| 0 <= j implies #[trigger] pmul_coeff(q, f, j) == fadd(
        pcoeff(q, j - 1),
        fmul(pcoeff(q, j), fneg(a)),
    ) by {
        assert forall|i: int| 0 <= i < j - 1 implies fmul(
            pcoeff(q, i),
            #[trigger] pcoeff(f, j - i),
        ) == 0 by {
            assert(pcoeff(f, j - i) == 0);
            lemma_fmul_zero(pcoeff(q, i));
        }
        if j >= 1 {
            lemma_conv_sum_tail_zero(q, f, j, j - 1, 0);
            assert(conv_sum(q, f, j, j) == fadd(
                conv_sum(q, f, j, j - 1),
                fmul(pcoeff(q, j - 1), pcoeff(f, 1)),
            ));
            assert(is_elem(pcoeff(q, j - 1)));
            lemma_fmul_one(pcoeff(q, j - 1));
            lemma_fadd_zero(pcoeff(q, j - 1));
            assert(conv_sum(q, f, j, j + 1) == fadd(
                conv_sum(q, f, j, j),
                fmul(pcoeff(q, j), pcoeff(f, 0)),
            ));
        } else {
            assert(conv_sum(q, f, 0, 0) == 0);
            assert(conv_sum(q, f, 0, 1) == fadd(0, fmul(pcoeff(q, 0), pcoeff(f, 0))));
            lemma_f_in_range(pcoeff(q, 0), fneg(a));
            lemma_fadd_zero(fmul(pcoeff(q, 0), fneg(a)));
        }
    }
    assert forall|j: int|
        pcoeff(r, j) == #[trigger] pcoeff(padd(pmul(q, f), seq![c]), j) by {
        lemma_pcoeff_padd(pmul(q, f), seq![c], j);
        lemma_pcoeff_pmul(q, f, j);
        if j < 0 {
            lemma_zero_ops();
        } else if j == 0 {
            assert(pcoeff(q, 0) == synth_q(r, a, 0));
            assert(is_elem(pcoeff(r, 0)));
            lemma_fadd_fmul_neg_cancel(pcoeff(r, 0), a, synth_q(r, a, 0));
        } else if j < m - 1 {
            assert(pcoeff(q, j - 1) == synth_q(r, a, j - 1));
            assert(pcoeff(q, j) == synth_q(r, a, j));
            assert(synth_q(r, a, j - 1) == fadd(pcoeff(r, j), fmul(a, synth_q(r, a, j))));
            assert(is_elem(pcoeff(r, j)));
            lemma_fadd_fmul_neg_cancel(pcoeff(r, j), a, synth_q(r, a, j));
            lemma_conv_sum_elem(q, f, j, j + 1);
            lemma_fadd_zero(pmul_coeff(q, f, j));
        } else if j == m - 1 {
            assert(pcoeff(q, j - 1) == synth_q(r, a, j - 1));
            assert(synth_q(r, a, j - 1) == pcoeff(r, j));
            assert(pcoeff(q, j) == 0);
            lemma_fmul_zero(fneg(a));
            assert(is_elem(pcoeff(r, j)));
            lemma_fadd_zero(pcoeff(q, j - 1));
            lemma_conv_sum_elem(q, f, j, j + 1);
            lemma_fadd_zero(pmul_coeff(q, f, j));
        } else {
            assert(pcoeff(q, j) == 0);
            assert(pcoeff(q, j - 1) == 0);
            lemma_fmul_zero(fneg(a));
            lemma_zero_ops();
        }
    }
    // evaluating the identity at `a` shows the constant is r(a)
    lemma_peval_congr(r, padd(pmul(q, f), seq![c]), a);
    lemma_peval_padd(pmul(q, f), seq![c], a);
    lemma_eval_pmul(q, f, a);
    lemma_f_in_range(0, a);
    assert(all_elems(f)) by {
        assert forall|kk: int| is_elem(#[trigger] pcoeff(f, kk)) by {}
    }
    lemma_peval_linear(fneg(a), 1, a);
    lemma_fmul_sub(1, a, a);
    lemma_fmul_one(a);
    lemma_f_in_range(a, a);
    lemma_fmul_one(fsub(a, a));
    lemma_fsub_self(a);
    assert(peval(f, a) == 0);
    lemma_fmul_zero(peval(q, a));
    lemma_synth_q_elem(r, a, 0);
    lemma_f_in_range(pcoeff(r, 0), fmul(a, synth_q(r, a, 0)));
    assert(eval_sum(seq![c], a, 0) == 0);
    assert(fpow(a, 0) == 1);
    lemma_fmul_one(c);
    lemma_fadd_zero(c);
    assert(peval(seq![c], a) == c);
    assert(peval(r, a) == c);
    assert(seq![c] =~= seq![peval(r, a)]);
}

/// A polynomial that vanishes at `n` pairwise-distinct points, with no
/// more than `n` coefficients, is zero coefficient-wise. The pairwise
/// differences' inverses license the cancellations.
pub proof fn lemma_vanishing_zero(r: Seq<nat>, xs: Seq<nat>, n: int)
    requires
        1 <= r.len() <= n,
        all_elems(r),
        forall|i: int| 0 <= i < n ==> is_elem(#[trigger] xs[i]),
        forall|i: int, j: int|
            0 <= i < n && 0 <= j < n && i != j ==> crate::field::has_inverse(
                fsub(#[trigger] xs[j], #[trigger] xs[i]),
            ),
        forall|i: int| 0 <= i < n ==> peval(r, #[trigger] xs[i]) == 0,
    ensures
        forall|j: int| #[trigger] pcoeff(r, j) == 0,
    decreases n,
{
    if r.len() == 1 {
        let x0 = xs[0];
        assert(is_elem(pcoeff(r, 0)));
        assert(eval_sum(r, x0, 0) == 0);
        assert(fpow(x0, 0) == 1);
        lemma_fmul_one(r[0]);
        lemma_fadd_zero(r[0]);
        assert(peval(r, x0) == r[0]);
    } else {
        let x0 = xs[0];
        let q = synth_quotient(r, x0);
        let f = seq![fneg(x0), 1nat];
        lemma_synth_div(r, x0);
        assert(peval(r, x0) == 0);
        // the constant part vanishes, so r is exactly q * (x - x0)
        assert forall|j: int| pcoeff(r, j) == #[trigger] pcoeff(pmul(q, f), j) by {
            lemma_pcoeff_padd(pmul(q, f), seq![peval(r, x0)], j);
            lemma_pcoeff_pmul(q, f, j);
            lemma_conv_sum_elem(q, f, j, j + 1);
            lemma_fadd_zero(pmul_coeff(q, f, j));
        }
        assert(all_elems(f)) by {
            lemma_f_in_range(0, x0);
            assert forall|kk: int| is_elem(#[trigger] pcoeff(f, kk)) by {}
        }
        // q vanishes at the remaining points
        let xs1 = Seq::new((n - 1) as nat, |i: int| xs[i + 1]);
        assert forall|i: int| 0 <= i < n - 1 implies peval(q, #[trigger] xs1[i]) == 0 by {
            let xi = xs1[i];
            assert(xi == xs[i + 1]);
            lemma_peval_congr(r, pmul(q, f), xi);
            lemma_eval_pmul(q, f, xi);
            lemma_peval_linear(fneg(x0), 1, xi);
            lemma_fmul_sub(1, xi, x0);
            lemma_fmul_one(x0);
            lemma_f_in_range(xi, x0);
            lemma_fmul_one(fsub(xi, x0));
            assert(peval(f, xi) == fsub(xi, x0));
            lemma_eval_sum_elem(q, xi, q.len() as int);
            assert(crate::field::has_inverse(fsub(xs[i + 1], xs[0])));
            crate::field::lemma_cancel(peval(q, xi), fsub(xi, x0));
        }
        assert forall|i: int| 0 <= i < n - 1 implies is_elem(#[trigger] xs1[i]) by {
            assert(xs1[i] == xs[i + 1]);
        }
        assert forall|i: int, j: int|
            0 <= i < n - 1 && 0 <= j < n - 1 && i != j implies crate::field::has_inverse(
            fsub(#[trigger] xs1[j], #[trigger] xs1[i]),
        ) by {
            assert(xs1[j] == xs[j + 1]);
            assert(xs1[i] == xs[i + 1]);
        }
        lemma_vanishing_zero(q, xs1, n - 1);
        assert(p_equiv(q, zero_poly())) by {
            assert forall|kk: int|
                #![trigger pcoeff(q, kk)]
                #![trigger pcoeff(zero_poly(), kk)]
                pcoeff(q, kk) == pcoeff(zero_poly(), kk) by {}
        }
        assert forall|j: int| #[trigger] pcoeff(r, j) == 0 by {
            lemma_conv_sum_congr(q, zero_poly(), f, f, j, j + 1);
            lemma_pmul_coeff_zero_left(f, j);
            lemma_pcoeff_pmul(q, f, j);
        }
    }
}

/// Interpolants of a non-empty point set are unique: their difference
/// vanishes at more points than it has room for roots.
pub proof fn lemma_interpolant_unique(ip1: Seq<nat>, ip2: Seq<nat>, pts: Seq<(Fr, Fr)>)
    requires
        pts.len() >= 1,
        points_wf(pts),
        interp_ok(ip1, pts),
        interp_ok(ip2, pts),
        forall|i: int, j: int|
            0 <= i < pts.len() && 0 <= j < pts.len() && i != j ==> crate::field::has_inverse(
                fsub(#[trigger] xval(pts, j), #[trigger] xval(pts, i)),
            ),
    ensures
        ip1 == ip2,
{
    let k = pts.len() as int;
    let d = psub(ip1, ip2);
    let xs = Seq::new(k as nat, |i: int| xval(pts, i));
    assert forall|i: int| 0 <= i < k implies peval(d, #[trigger] xs[i]) == 0 by {
        assert(xs[i] == xval(pts, i));
        lemma_peval_psub(ip1, ip2, xs[i]);
        lemma_fsub_self(yval(pts, i));
    }
    assert(all_elems(d)) by {
        assert forall|j: int| is_elem(#[trigger] pcoeff(d, j)) by {
            lemma_pcoeff_psub(ip1, ip2, j);
            lemma_f_in_range(pcoeff(ip1, j), pcoeff(ip2, j));
        }
    }
    assert forall|i: int| 0 <= i < k implies is_elem(#[trigger] xs[i]) by {
        assert(xs[i] == xval(pts, i));
    }
    assert forall|i: int, j: int|
        0 <= i < k && 0 <= j < k && i != j implies crate::field::has_inverse(
        fsub(#[trigger] xs[j], #[trigger] xs[i]),
    ) by {
        assert(xs[j] == xval(pts, j));
        assert(xs[i] == xval(pts, i));
    }
    lemma_vanishing_zero(d, xs, k);
    assert forall|j: int|
        #![trigger pcoeff(ip1, j)]
        #![trigger pcoeff(ip2, j)]
        pcoeff(ip1, j) == pcoeff(ip2, j) by {
        assert(pcoeff(d, j) == 0);
        lemma_pcoeff_psub(ip1, ip2, j);
        assert(is_elem(pcoeff(ip1, j)));
        assert(is_elem(pcoeff(ip2, j)));
        lemma_fsub_zero_iff(pcoeff(ip1, j), pcoeff(ip2, j));
    }
    lemma_normalized_unique(ip1, ip2);
}

/// Normalized coefficient sequences denoting one polynomial are equal.
pub proof fn lemma_normalized_unique(a: Seq<nat>, b: Seq<nat>)
    requires
        is_normalized(a),
        is_normalized(b),
        p_equiv(a, b),
    ensures
        a =~= b,
{
    if a.len() > b.len() {
        assert(pcoeff(a, a.len() - 1) == pcoeff(b, a.len() - 1));
    }
    if b.len() > a.len() {
        assert(pcoeff(b, b.len() - 1) == pcoeff(a, b.len() - 1));
    }
    assert forall|i: int| 0 <= i < a.len() implies a[i] == b[i] by {
        assert(pcoeff(a, i) == pcoeff(b, i));
    }
}

/// The x-coordinate value of point `i`.
pub open spec fn xval(pts: Seq<(Fr, Fr)>, i: int) -> nat {
    pts[i].0@
}

/// The y-coordinate value of point `i`.
pub open spec fn yval(pts: Seq<(Fr, Fr)>, i: int) -> nat {
    pts[i].1@
}

/// Every coordinate of the point set is a field element.
pub open spec fn points_wf(pts: Seq<(Fr, Fr)>) -> bool {
    forall|i: int|
        #![trigger xval(pts, i)]
        #![trigger yval(pts, i)]
        0 <= i < pts.len() ==> is_elem(xval(pts, i)) && is_elem(yval(pts, i))
}

/// `ip` is an interpolant of the point set: a well-formed polynomial of
/// minimal-degree shape that passes through every point.
pub open spec fn interp_ok(ip: Seq<nat>, pts: Seq<(Fr, Fr)>) -> bool {
    &&& is_normalized(ip)
    &&& all_elems(ip)
    &&& ip.len() <= len_max(pts.len(), 1)
    &&& forall|m: int| 0 <= m < pts.len() ==> peval(ip, #[trigger] xval(pts, m)) == yval(pts, m)
}

/// Some two points of the set share an x-coordinate.
pub open spec fn has_dup_x(pts: Seq<(Fr, Fr)>) -> bool {
    exists|i: int, j: int|
        0 <= i < j < pts.len() && #[trigger] xval(pts, i) == #[trigger] xval(pts, j)
}

/// The decimal digits of a natural number, as ASCII bytes, most
/// significant first and without leading zeros.
pub open spec fn dec_rep(n: nat) -> Seq<u8>
    decreases n,
{
    if n < 10 {
        seq![(48 + n) as u8]
    } else {
        dec_rep(n / 10).push((48 + n % 10) as u8)
    }
}

/// Relies on `num_bigint::BigUint::from_bytes_le` and `to_str_radix`: the
/// decimal digits of the value that the little-endian bytes encode.
#[verifier::external_body]
fn dec_digits(a: &Fr) -> (r: Vec<u8>)
    ensures
        r@ == dec_rep(a@),
{
    num_bigint::BigUint::from_bytes_le(&a.bytes).to_str_radix(10).into_bytes()
}

/// Relies on `String::from_utf8`: the string of the given ASCII bytes.
#[verifier::external_body]
fn ascii_string(v: Vec<u8>) -> (r: String)
    requires
        forall|i: int| 0 <= i < v@.len() ==> v@[i] < 128,
    ensures
        r@.len() == v@.len(),
        forall|i: int| 0 <= i < v@.len() ==> r@[i] == v@[i] as char,
{
    String::from_utf8(v).unwrap()
}

/// The bytes of one rendered term of coefficient `c` at power `i`:
/// the sign and coefficient (a value whose negation prints much shorter
/// is shown negated, and a unit coefficient of a positive power is left
/// implicit), then the power of x, then the exponent.
#[verifier::opaque]
pub open spec fn term_rep(c: nat, i: int, first: bool) -> Seq<u8> {
    let dn = dec_rep(c);
    let dinv = dec_rep(fneg(c));
    let coeff_part = if dinv.len() < 20 && dn.len() > 20 {
        seq![45u8] + (if dinv == seq![49u8] && i != 0 {
            Seq::<u8>::empty()
        } else {
            dinv
        })
    } else {
        (if first {
            Seq::<u8>::empty()
        } else {
            seq![43u8]
        }) + (if i == 0 || dn != seq![49u8] {
            dn
        } else {
            Seq::<u8>::empty()
        })
    };
    let x_part = if i >= 1 {
        seq![120u8]
    } else {
        Seq::<u8>::empty()
    };
    let e_part = if i >= 2 {
        seq![94u8] + dec_rep(i as nat)
    } else {
        Seq::<u8>::empty()
    };
    coeff_part + x_part + e_part
}

/// The rendering of the terms of power `i` and below, highest power
/// first; zero coefficients render nothing, and `first` says whether no
/// term has been rendered yet.
#[verifier::opaque]
pub open spec fn render_terms(s: Seq<nat>, i: int, first: bool) -> Seq<u8>
    decreases i + 1,
{
    if i < 0 {
        Seq::<u8>::empty()
    } else if pcoeff(s, i) == 0 {
        render_terms(s, i - 1, first)
    } else {
        term_rep(pcoeff(s, i), i, first) + render_terms(s, i - 1, false)
    }
}

/// Decimal digits are the ASCII codes 48 through 57.
proof fn lemma_dec_rep_ascii(n: nat)
    ensures
        dec_rep(n).len() >= 1,
        forall|i: int| 0 <= i < dec_rep(n).len() ==> 48 <= #[trigger] dec_rep(n)[i] <= 57,
    decreases n,
{
    if n >= 10 {
        lemma_dec_rep_ascii(n / 10);
        assert forall|i: int| 0 <= i < dec_rep(n).len() implies 48 <= #[trigger] dec_rep(n)[i]
            <= 57 by {
            if i < dec_rep(n / 10).len() {
                assert(dec_rep(n)[i] == dec_rep(n / 10)[i]);
            }
        }
    }
}

/// A dense polynomial over the scalar field.
#[derive(Clone, Debug, PartialEq, Eq)]
pub struct Poly {
    pub(crate) c: Vec<Fr>,
}

impl View for Poly {
    type V = Seq<nat>;

    closed spec fn view(&self) -> Seq<nat> {
        vals(self.c@)
    }
}

impl Poly {
    /// The representation invariant: every coefficient is a field element
    /// and the coefficient sequence is normalized.
    pub open spec fn wf(&self) -> bool {
        all_elems(self@) && is_normalized(self@)
    }

    /// The zero polynomial `[0]`.
    pub fn zero() -> (r: Poly)
        ensures
            r.wf(),
            r@ == zero_poly(),
    {
        let r = Poly { c: vec![Fr::from_u64(0)] };
        proof {
            assert(r@ =~= zero_poly());
            lemma_zero_ops();
        }
        r
    }

    /// The unit polynomial `[1]`.
    pub fn one() -> (r: Poly)
        ensures
            r.wf(),
            r@ == seq![1nat],
    {
        let r = Poly { c: vec![Fr::from_u64(1)] };
        proof {
            assert(r@ =~= seq![1nat]);
        }
        r
    }

    /// True exactly of the zero polynomial.
    pub fn is_zero(&self) -> (r: bool)
        ensures
            r == (self@.len() == 1 && self@[0] == 0),
    {
        self.c.len() == 1 && self.c[0].equals(&Fr::from_u64(0))
    }

    /// The degree: length of the coefficient sequence minus one. The zero
    /// polynomial also reports degree 0; callers distinguish it by
    /// `is_zero`.
    pub fn degree(&self) -> (r: usize)
        requires
            self@.len() >= 1,
        ensures
            r == self@.len() - 1,
    {
        self.c.len() - 1
    }

    /// Coefficient `i`, if within the representation.
    pub fn get(&self, i: usize) -> (r: Option<Fr>)
        ensures
            r == if i < self@.len() {
                Some(self.coeff_at(i as int))
            } else {
                None::<Fr>
            },
            i < self@.len() ==> r is Some && r->Some_0@ == self@[i as int],
    {
        if i < self.c.len() {
            Some(self.c[i])
        } else {
            None
        }
    }

    /// The `i`-th stored coefficient.
    pub closed spec fn coeff_at(&self, i: int) -> Fr {
        self.c@[i]
    }

    /// Strip trailing zero coefficients, down to at least one coefficient.
    /// Normalizing an already-normalized polynomial changes nothing.
    pub fn normalize(&mut self)
        requires
            all_elems(old(self)@),
            old(self)@.len() >= 1,
        ensures
            final(self).wf(),
            p_equiv(final(self)@, old(self)@),
            final(self)@.len() <= old(self)@.len(),
            is_normalized(old(self)@) ==> final(self)@ == old(self)@,
    {
        let z = Fr::from_u64(0);
        while self.c.len() > 1 && self.c[self.c.len() - 1].equals(&z)
            invariant
                z@ == 0,
                1 <= self@.len() <= old(self)@.len(),
                all_elems(old(self)@),
                all_elems(self@),
                p_equiv(self@, old(self)@),
                self.c@ == old(self).c@.subrange(0, self.c@.len() as int),
            decreases self@.len(),
        {
            let ghost prior = self.c@;
            self.c.pop();
            proof {
                assert(self.c@ =~= old(self).c@.subrange(0, self.c@.len() as int));
                assert forall|k: int|
                    pcoeff(self@, k) == pcoeff(old(self)@, k) by {
                    if 0 <= k < self@.len() {
                        assert(self@[k] == vals(prior)[k]);
                    } else if k == self@.len() {
                        assert(vals(prior)[k] == 0);
                    }
                }
                assert forall|k: int| is_elem(#[trigger] pcoeff(self@, k)) by {
                    assert(pcoeff(self@, k) == pcoeff(old(self)@, k));
                }
            }
        }
        proof {
            if self@.len() > 1 {
                assert(self@[self@.len() - 1] != 0);
            }
            if is_normalized(old(self)@) {
                lemma_normalized_unique(self@, old(self)@);
                assert(self.c@ =~= old(self).c@);
            }
        }
    }

    /// Construct a polynomial from coefficients and normalize. An empty
    /// coefficient list denotes the zero polynomial.
    pub fn new(coeffs: Vec<Fr>) -> (r: Poly)
        requires
            all_elems(vals(coeffs@)),
        ensures
            r.wf(),
            p_equiv(r@, vals(coeffs@)),
            r@.len() <= len_max(coeffs@.len(), 1),
            is_normalized(vals(coeffs@)) ==> r@ == vals(coeffs@),
    {
        let ghost orig = vals(coeffs@);
        let mut p = Poly { c: coeffs };
        if p.c.len() == 0 {
            p.c.push(Fr::from_u64(0));
            proof {
                lemma_zero_ops();
            }
        }
        proof {
            assert(p_equiv(p@, orig));
            assert forall|k: int| is_elem(#[trigger] pcoeff(p@, k)) by {
                assert(pcoeff(p@, k) == pcoeff(orig, k));
            }
        }
        p.normalize();
        proof {
            if is_normalized(orig) {
                lemma_normalized_unique(p@, orig);
            }
        }
        p
    }

    /// Construct a polynomial from small integer coefficients.
    pub fn from(coeffs: &Vec<u64>) -> (r: Poly)
        ensures
            r.wf(),
            p_equiv(r@, coeffs@.map_values(|n: u64| n as nat)),
            r@.len() <= len_max(coeffs@.len(), 1),
    {
        let mut v: Vec<Fr> = Vec::new();
        let mut i: usize = 0;
        while i < coeffs.len()
            invariant
                i <= coeffs@.len(),
                v@.len() == i,
                forall|j: int|
                    0 <= j < i ==> is_elem(#[trigger] vals(v@)[j]) && vals(v@)[j] == coeffs@[j]
                        as nat,
            decreases coeffs@.len() - i,
        {
            let ghost prior = v@;
            v.push(Fr::from_u64(coeffs[i]));
            proof {
                assert forall|j: int|
                    0 <= j < i + 1 implies is_elem(#[trigger] vals(v@)[j]) && vals(v@)[j]
                    == coeffs@[j] as nat by {
                    assert(vals(v@)[j] == v@[j]@);
                    if j < i {
                        assert(v@[j] == prior[j]);
                        assert(vals(prior)[j] == prior[j]@);
                    }
                }
            }
            i += 1;
        }
        proof {
            assert forall|k: int| is_elem(#[trigger] pcoeff(vals(v@), k)) by {
                lemma_zero_ops();
            }
        }
        let r = Poly::new(v);
        proof {
            let m = coeffs@.map_values(|n: u64| n as nat);
            assert forall|k: int|
                pcoeff(r@, k) == pcoeff(m, k) by {
                assert(pcoeff(r@, k) == pcoeff(vals(v@), k));
            }
        }
        r
    }

    /// Replace coefficient `i` with `v`, padding with zero coefficients if
    /// the polynomial is shorter, then normalize.
    pub fn set(&mut self, i: usize, v: Fr)
        requires
            all_elems(old(self)@),
            old(self)@.len() >= 1,
            is_elem(v@),
            i < usize::MAX,
        ensures
            final(self).wf(),
            p_equiv(final(self)@, set_at(old(self)@, i as int, v@)),
            final(self)@.len() <= len_max(old(self)@.len(), i as nat + 1),
    {
        while self.c.len() < i + 1
            invariant
                all_elems(old(self)@),
                1 <= self@.len() <= len_max(old(self)@.len(), i as nat + 1),
                i < usize::MAX,
                p_equiv(self@, old(self)@),
                all_elems(self@),
            decreases i + 1 - self.c@.len(),
        {
            let ghost prior = self@;
            self.c.push(Fr::from_u64(0));
            proof {
                assert forall|k: int|
                    pcoeff(self@, k) == pcoeff(prior, k) by {
                    if 0 <= k < prior.len() {
                        assert(self.c@[k] == self.c@.subrange(0, prior.len() as int)[k]);
                        assert(self@[k] == prior[k]);
                    } else if k == prior.len() {
                        assert(self@[k] == 0);
                    }
                }
                assert forall|k: int| is_elem(#[trigger] pcoeff(self@, k)) by {
                    assert(pcoeff(self@, k) == pcoeff(prior, k));
                }
            }
        }
        let ghost padded = self@;
        self.c.set(i, v);
        proof {
            assert forall|k: int|
                pcoeff(self@, k) == pcoeff(set_at(old(self)@, i as int, v@), k) by {
                if k != i && 0 <= k < self@.len() {
                    assert(self@[k] == padded[k]);
                    assert(pcoeff(padded, k) == pcoeff(old(self)@, k));
                }
                if k == i {
                    assert(self@[k] == v@);
                }
            }
            assert forall|k: int| is_elem(#[trigger] pcoeff(self@, k)) by {
                assert(pcoeff(self@, k) == pcoeff(set_at(old(self)@, i as int, v@), k));
                if k != i {
                    assert(pcoeff(padded, k) == pcoeff(old(self)@, k));
                }
            }
        }
        self.normalize();
    }

    /// Add `rhs`, coefficient-wise, padding the shorter operand with zeros,
    /// and renormalize.
    pub fn add_assign(&mut self, rhs: &Poly)
        requires
            old(self).wf(),
            rhs.wf(),
        ensures
            final(self).wf(),
            p_equiv(final(self)@, padd(old(self)@, rhs@)),
            final(self)@.len() <= len_max(old(self)@.len(), rhs@.len()),
    {
        let z = Fr::from_u64(0);
        let max = if self.c.len() >= rhs.c.len() {
            self.c.len()
        } else {
            rhs.c.len()
        };
        let mut out: Vec<Fr> = Vec::new();
        let mut n: usize = 0;
        while n < max
            invariant
                z@ == 0,
                old(self).wf(),
                rhs.wf(),
                self.c@ == old(self).c@,
                max == len_max(old(self)@.len(), rhs@.len()),
                n <= max,
                out@.len() == n,
                forall|k: int|
                    0 <= k < n ==> #[trigger] vals(out@)[k] == fadd(
                        pcoeff(old(self)@, k),
                        pcoeff(rhs@, k),
                    ) && is_elem(vals(out@)[k]),
            decreases max - n,
        {
            let ghost prior = out@;
            let av = if n < self.c.len() {
                self.c[n]
            } else {
                z
            };
            let bv = if n < rhs.c.len() {
                rhs.c[n]
            } else {
                z
            };
            proof {
                assert(av@ == pcoeff(old(self)@, n as int));
                assert(bv@ == pcoeff(rhs@, n as int));
                assert(is_elem(pcoeff(old(self)@, n as int)));
                assert(is_elem(pcoeff(rhs@, n as int)));
            }
            out.push(av.add(&bv));
            proof {
                assert forall|k: int| 0 <= k < n + 1 implies #[trigger] vals(out@)[k] == fadd(
                    pcoeff(old(self)@, k),
                    pcoeff(rhs@, k),
                ) && is_elem(vals(out@)[k]) by {
                    assert(vals(out@)[k] == out@[k]@);
                    if k < n {
                        assert(out@[k] == prior[k]);
                        assert(vals(prior)[k] == prior[k]@);
                    }
                }
            }
            n += 1;
        }
        self.c = out;
        proof {
            assert forall|k: int|
                pcoeff(self@, k) == pcoeff(padd(old(self)@, rhs@), k) by {
                lemma_pcoeff_padd(old(self)@, rhs@, k);
                lemma_zero_ops();
            }
            assert forall|k: int| is_elem(#[trigger] pcoeff(self@, k)) by {
                lemma_zero_ops();
            }
        }
        self.normalize();
    }

    /// Subtract `rhs`, coefficient-wise, padding the shorter operand with
    /// zeros, and renormalize.
    pub fn sub_assign(&mut self, rhs: &Poly)
        requires
            old(self).wf(),
            rhs.wf(),
        ensures
            final(self).wf(),
            p_equiv(final(self)@, psub(old(self)@, rhs@)),
            final(self)@.len() <= len_max(old(self)@.len(), rhs@.len()),
    {
        let z = Fr::from_u64(0);
        let max = if self.c.len() >= rhs.c.len() {
            self.c.len()
        } else {
            rhs.c.len()
        };
        let mut out: Vec<Fr> = Vec::new();
        let mut n: usize = 0;
        while n < max
            invariant
                z@ == 0,
                old(self).wf(),
                rhs.wf(),
                self.c@ == old(self).c@,
                max == len_max(old(self)@.len(), rhs@.len()),
                n <= max,
                out@.len() == n,
                forall|k: int|
                    0 <= k < n ==> #[trigger] vals(out@)[k] == fsub(
                        pcoeff(old(self)@, k),
                        pcoeff(rhs@, k),
                    ) && is_elem(vals(out@)[k]),
            decreases max - n,
        {
            let ghost prior = out@;
            let av = if n < self.c.len() {
                self.c[n]
            } else {
                z
            };
            let bv = if n < rhs.c.len() {
                rhs.c[n]
            } else {
                z
            };
            proof {
                assert(av@ == pcoeff(old(self)@, n as int));
                assert(bv@ == pcoeff(rhs@, n as int));
                assert(is_elem(pcoeff(old(self)@, n as int)));
                assert(is_elem(pcoeff(rhs@, n as int)));
            }
            out.push(av.sub(&bv));
            proof {
                assert forall|k: int| 0 <= k < n + 1 implies #[trigger] vals(out@)[k] == fsub(
                    pcoeff(old(self)@, k),
                    pcoeff(rhs@, k),
                ) && is_elem(vals(out@)[k]) by {
                    assert(vals(out@)[k] == out@[k]@);
                    if k < n {
                        assert(out@[k] == prior[k]);
                        assert(vals(prior)[k] == prior[k]@);
                    }
                }
            }
            n += 1;
        }
        self.c = out;
        proof {
            assert forall|k: int|
                pcoeff(self@, k) == pcoeff(psub(old(self)@, rhs@), k) by {
                lemma_pcoeff_psub(old(self)@, rhs@, k);
                lemma_zero_ops();
            }
            assert forall|k: int| is_elem(#[trigger] pcoeff(self@, k)) by {
                lemma_zero_ops();
            }
        }
        self.normalize();
    }

    /// Multiply every coefficient by the scalar `k`; scaling by zero
    /// collapses to the zero polynomial.
    pub fn scale(&self, k: &Fr) -> (r: Poly)
        requires
            self.wf(),
            is_elem(k@),
        ensures
            r.wf(),
            forall|j: int| #![trigger pcoeff(r@, j)] pcoeff(r@, j) == fmul(pcoeff(self@, j), k@),
            r@.len() <= self@.len(),
    {
        let z = Fr::from_u64(0);
        if k.equals(&z) {
            let r = Poly::zero();
            proof {
                assert forall|j: int| pcoeff(r@, j) == fmul(pcoeff(self@, j), k@) by {
                    lemma_fmul_zero(pcoeff(self@, j));
                }
            }
            r
        } else {
            let mut out: Vec<Fr> = Vec::new();
            let mut n: usize = 0;
            while n < self.c.len()
                invariant
                    self.wf(),
                    is_elem(k@),
                    n <= self@.len(),
                    out@.len() == n,
                    forall|j: int|
                        0 <= j < n ==> #[trigger] vals(out@)[j] == fmul(pcoeff(self@, j), k@)
                            && is_elem(vals(out@)[j]),
                decreases self@.len() - n,
            {
                let ghost prior = out@;
                proof {
                    assert(is_elem(pcoeff(self@, n as int)));
                }
                out.push(self.c[n].mul(k));
                proof {
                    assert forall|j: int| 0 <= j < n + 1 implies #[trigger] vals(out@)[j] == fmul(
                        pcoeff(self@, j),
                        k@,
                    ) && is_elem(vals(out@)[j]) by {
                        assert(vals(out@)[j] == out@[j]@);
                        if j < n {
                            assert(out@[j] == prior[j]);
                            assert(vals(prior)[j] == prior[j]@);
                        }
                    }
                }
                n += 1;
            }
            let mut rp = Poly { c: out };
            proof {
                assert forall|j: int| is_elem(#[trigger] pcoeff(rp@, j)) by {
                    lemma_zero_ops();
                }
            }
            rp.normalize();
            proof {
                assert forall|j: int| #![trigger pcoeff(rp@, j)]
                    pcoeff(rp@, j) == fmul(pcoeff(self@, j), k@) by {
                    if !(0 <= j < self@.len()) {
                        lemma_fmul_zero(k@);
                    }
                }
            }
            rp
        }
    }

    /// The full convolution product of two polynomials.
    pub fn mul(&self, rhs: &Poly) -> (r: Poly)
        requires
            self.wf(),
            rhs.wf(),
            self@.len() + rhs@.len() <= usize::MAX,
        ensures
            r.wf(),
            p_equiv(r@, pmul(self@, rhs@)),
            1 <= r@.len() <= self@.len() + rhs@.len() - 1,
    {
        let la = self.c.len();
        let lb = rhs.c.len();
        let z = Fr::from_u64(0);
        let mut out: Vec<Fr> = Vec::new();
        let mut k0: usize = 0;
        while k0 < la + lb - 1
            invariant
                z@ == 0,
                k0 <= la + lb - 1,
                la + lb <= usize::MAX,
                la >= 1,
                lb >= 1,
                out@.len() == k0,
                forall|j: int| 0 <= j < k0 ==> #[trigger] vals(out@)[j] == 0,
            decreases la + lb - 1 - k0,
        {
            let ghost prior = out@;
            out.push(z);
            proof {
                assert forall|j: int| 0 <= j < k0 + 1 implies #[trigger] vals(out@)[j] == 0 by {
                    assert(vals(out@)[j] == out@[j]@);
                    if j < k0 {
                        assert(out@[j] == prior[j]);
                        assert(vals(prior)[j] == prior[j]@);
                    }
                }
            }
            k0 += 1;
        }
        let mut n: usize = 0;
        proof {
            lemma_zero_ops();
        }
        while n < la
            invariant
                n <= la,
                la == self@.len(),
                lb == rhs@.len(),
                la >= 1,
                lb >= 1,
                la + lb <= usize::MAX,
                self.wf(),
                rhs.wf(),
                out@.len() == la + lb - 1,
                forall|j: int|
                    0 <= j < out@.len() ==> #[trigger] vals(out@)[j] == conv_sum(
                        self@,
                        rhs@,
                        j,
                        n as int,
                    ) && is_elem(vals(out@)[j]),
            decreases la - n,
        {
            let mut m: usize = 0;
            while m < lb
                invariant
                    n < la,
                    m <= lb,
                    la == self@.len(),
                    lb == rhs@.len(),
                    la >= 1,
                    lb >= 1,
                    la + lb <= usize::MAX,
                    self.wf(),
                    rhs.wf(),
                    out@.len() == la + lb - 1,
                    forall|j: int|
                        0 <= j < out@.len() ==> #[trigger] vals(out@)[j] == (if n <= j < n + m {
                            fadd(
                                conv_sum(self@, rhs@, j, n as int),
                                fmul(pcoeff(self@, n as int), pcoeff(rhs@, j - n)),
                            )
                        } else {
                            conv_sum(self@, rhs@, j, n as int)
                        }) && is_elem(vals(out@)[j]),
                decreases lb - m,
            {
                let ghost prior = out@;
                let idx = n + m;
                proof {
                    assert(is_elem(pcoeff(self@, n as int)));
                    assert(is_elem(pcoeff(rhs@, m as int)));
                }
                let prod = self.c[n].mul(&rhs.c[m]);
                let cur = out[idx];
                proof {
                    lemma_f_in_range(pcoeff(self@, n as int), pcoeff(rhs@, m as int));
                    assert(cur@ == vals(out@)[idx as int]);
                }
                out.set(idx, cur.add(&prod));
                proof {
                    assert forall|j: int| 0 <= j < out@.len() implies #[trigger] vals(out@)[j]
                        == (if n <= j < n + m + 1 {
                        fadd(
                            conv_sum(self@, rhs@, j, n as int),
                            fmul(pcoeff(self@, n as int), pcoeff(rhs@, j - n)),
                        )
                    } else {
                        conv_sum(self@, rhs@, j, n as int)
                    }) && is_elem(vals(out@)[j]) by {
                        assert(vals(out@)[j] == out@[j]@);
                        assert(vals(prior)[j] == prior[j]@);
                        if j != idx {
                            assert(out@[j] == prior[j]);
                        }
                    }
                }
                m += 1;
            }
            proof {
                assert forall|j: int| 0 <= j < out@.len() implies #[trigger] vals(out@)[j]
                    == conv_sum(self@, rhs@, j, n as int + 1) && is_elem(vals(out@)[j]) by {
                    if n <= j < n + lb {
                    } else {
                        assert(pcoeff(rhs@, j - n) == 0);
                        lemma_fmul_zero(pcoeff(self@, n as int));
                        lemma_conv_sum_elem(self@, rhs@, j, n as int);
                        lemma_fadd_zero(conv_sum(self@, rhs@, j, n as int));
                    }
                }
            }
            n += 1;
        }
        let mut rp = Poly { c: out };
        proof {
            assert forall|k: int| is_elem(#[trigger] pcoeff(rp@, k)) by {
                lemma_zero_ops();
            }
        }
        rp.normalize();
        proof {
            assert forall|k: int|
                pcoeff(rp@, k) == pcoeff(pmul(self@, rhs@), k) by {
                lemma_pcoeff_pmul(self@, rhs@, k);
                if 0 <= k < la + lb - 1 {
                    lemma_conv_sum_full(self@, rhs@, k);
                } else if k >= la + lb - 1 {
                    lemma_conv_high_zero(self@, rhs@, k);
                }
            }
        }
        rp
    }

    /// Evaluate the polynomial at `x` by accumulating powers of `x`.
    pub fn eval(&self, x: Fr) -> (r: Fr)
        requires
            self.wf(),
            is_elem(x@),
        ensures
            r@ == peval(self@, x@),
            is_elem(r@),
    {
        let mut x_pow = Fr::from_u64(1);
        let mut y = self.c[0];
        proof {
            assert(is_elem(pcoeff(self@, 0)));
            assert(y@ == self@[0]);
            lemma_fmul_one(self@[0]);
            lemma_fadd_zero(self@[0]);
            assert(eval_sum(self@, x@, 0) == 0);
            assert(fpow(x@, 0) == 1);
            assert(y@ == eval_sum(self@, x@, 1));
        }
        let mut i: usize = 1;
        while i < self.c.len()
            invariant
                self.wf(),
                is_elem(x@),
                1 <= i <= self@.len(),
                x_pow@ == fpow(x@, (i - 1) as nat),
                is_elem(x_pow@),
                is_elem(y@),
                y@ == eval_sum(self@, x@, i as int),
            decreases self@.len() - i,
        {
            proof {
                assert(is_elem(pcoeff(self@, i as int)));
            }
            x_pow = x_pow.mul(&x);
            y = y.add(&x_pow.mul(&self.c[i]));
            proof {
                assert(x_pow@ == fpow(x@, i as nat));
                assert(fmul(x_pow@, self@[i as int]) == fmul(pcoeff(self@, i as int), fpow(x@, i as nat)));
            }
            i += 1;
        }
        y
    }

    /// The model of a polynomial is the value sequence of its stored
    /// coefficients.
    pub(crate) proof fn lemma_view(&self)
        ensures
            self@ == vals(self.c@),
            self@.len() == self.c@.len(),
    {
    }

    /// An owned copy with the same coefficients.
    pub fn copied(&self) -> (r: Poly)
        ensures
            r@ == self@,
    {
        let mut v: Vec<Fr> = Vec::new();
        let mut i: usize = 0;
        while i < self.c.len()
            invariant
                i <= self.c@.len(),
                v@ == self.c@.subrange(0, i as int),
            decreases self.c@.len() - i,
        {
            v.push(self.c[i]);
            proof {
                assert(v@ =~= self.c@.subrange(0, i + 1));
            }
            i += 1;
        }
        proof {
            assert(v@ =~= self.c@);
        }
        Poly { c: v }
    }

    /// Lagrange interpolation: the lowest-degree polynomial through the
    /// given points. Fails exactly when two points share an x-coordinate.
    #[verifier::rlimit(100)]
    pub fn lagrange(points: &Vec<(Fr, Fr)>) -> (r: Result<Poly, crate::kzg::KzgError>)
        requires
            points_wf(points@),
            points@.len() + 2 <= usize::MAX,
        ensures
            r is Err <==> has_dup_x(points@),
            r is Err ==> r->Err_0 == crate::kzg::KzgError::DegenerateInterpolation,
            r is Ok ==> r->Ok_0.wf() && interp_ok(r->Ok_0@, points@),
            r is Ok && points@.len() == 0 ==> r->Ok_0@ == zero_poly(),
            r is Ok ==> forall|i: int, j: int|
                0 <= i < points@.len() && 0 <= j < points@.len() && i != j
                    ==> crate::field::has_inverse(
                    fsub(#[trigger] xval(points@, j), #[trigger] xval(points@, i)),
                ),
    {
        let k = points.len();
        let mut l = Poly::zero();
        proof {
            assert forall|m: int| 0 <= m < k implies peval(l@, #[trigger] xval(points@, m))
                == 0 by {
                lemma_peval_zero(xval(points@, m));
            }
        }
        let mut j: usize = 0;
        while j < k
            invariant
                k == points@.len(),
                k + 2 <= usize::MAX,
                points_wf(points@),
                j <= k,
                l.wf(),
                l@.len() <= len_max(points@.len(), 1),
                j == 0 ==> l@ == zero_poly(),
                forall|j2: int, i2: int|
                    0 <= j2 < j && 0 <= i2 < k && i2 != j2 ==> #[trigger] xval(points@, i2)
                        != #[trigger] xval(points@, j2),
                forall|j2: int, i2: int|
                    0 <= j2 < j && 0 <= i2 < k && i2 != j2 ==> crate::field::has_inverse(
                        fsub(#[trigger] xval(points@, j2), #[trigger] xval(points@, i2)),
                    ),
                forall|m: int|
                    0 <= m < k ==> peval(l@, #[trigger] xval(points@, m)) == (if m < j {
                        yval(points@, m)
                    } else {
                        0
                    }),
            decreases k - j,
        {
            let mut l_j = Poly::one();
            proof {
                lemma_peval_one(xval(points@, j as int));
            }
            let mut i: usize = 0;
            while i < k
                invariant
                    k == points@.len(),
                    k + 2 <= usize::MAX,
                    points_wf(points@),
                    j < k,
                    i <= k,
                    l_j.wf(),
                    l_j@.len() as int <= if i <= j {
                        i + 1
                    } else {
                        i as int
                    },
                    forall|i2: int|
                        0 <= i2 < i && i2 != j ==> #[trigger] xval(points@, i2) != xval(
                            points@,
                            j as int,
                        ),
                    forall|j2: int, i2: int|
                        0 <= j2 < j && 0 <= i2 < k && i2 != j2 ==> crate::field::has_inverse(
                            fsub(#[trigger] xval(points@, j2), #[trigger] xval(points@, i2)),
                        ),
                    forall|i2: int|
                        0 <= i2 < i && i2 != j ==> crate::field::has_inverse(
                            fsub(xval(points@, j as int), #[trigger] xval(points@, i2)),
                        ),
                    peval(l_j@, xval(points@, j as int)) == 1,
                    forall|m: int|
                        0 <= m < i && m != j ==> peval(l_j@, #[trigger] xval(points@, m)) == 0,
                decreases k - i,
            {
                if i != j {
                    let xi = points[i].0;
                    let xj = points[j].0;
                    if xj.equals(&xi) {
                        proof {
                            if i < j {
                                assert(xval(points@, i as int) == xval(points@, j as int));
                            } else {
                                assert(xval(points@, j as int) == xval(points@, i as int));
                            }
                        }
                        return Err(crate::kzg::KzgError::DegenerateInterpolation);
                    }
                    proof {
                        assert(is_elem(xval(points@, i as int)));
                        assert(is_elem(xval(points@, j as int)));
                    }
                    let dx = xj.sub(&xi);
                    proof {
                        lemma_fsub_zero_iff(xj@, xi@);
                    }
                    let c = dx.inv();
                    proof {
                        assert(fmul(
                            fsub(xval(points@, j as int), xval(points@, i as int)),
                            c@,
                        ) == 1);
                        assert(crate::field::has_inverse(
                            fsub(xval(points@, j as int), xval(points@, i as int)),
                        ));
                    }
                    let fc = xi.mul(&c).neg();
                    let fvec = vec![fc, c];
                    proof {
                        assert(vals(fvec@)[0] == fc@);
                        assert(vals(fvec@)[1] == c@);
                        assert forall|kk: int| is_elem(#[trigger] pcoeff(vals(fvec@), kk)) by {}
                        if c@ == 0 {
                            lemma_fmul_zero(dx@);
                        }
                        assert(is_normalized(vals(fvec@)));
                    }
                    let factor = Poly::new(fvec);
                    proof {
                        assert(factor@ =~= seq![fc@, c@]);
                    }
                    let ghost prior = l_j@;
                    l_j = l_j.mul(&factor);
                    proof {
                        let xjv = xval(points@, j as int);
                        lemma_peval_congr(l_j@, pmul(prior, factor@), xjv);
                        lemma_eval_pmul(prior, factor@, xjv);
                        lemma_peval_linear(fc@, c@, xjv);
                        lemma_fmul_sub(c@, xjv, xi@);
                        assert(fsub(xjv, xi@) == dx@);
                        assert(c@ * dx@ == dx@ * c@) by (nonlinear_arith);
                        assert(peval(factor@, xjv) == 1);
                        lemma_fmul_one(1);
                        assert(peval(l_j@, xjv) == 1);
                        assert forall|m: int| 0 <= m < i + 1 && m != j implies peval(
                            l_j@,
                            #[trigger] xval(points@, m),
                        ) == 0 by {
                            let xm = xval(points@, m);
                            lemma_peval_congr(l_j@, pmul(prior, factor@), xm);
                            lemma_eval_pmul(prior, factor@, xm);
                            lemma_peval_linear(fc@, c@, xm);
                            lemma_fmul_sub(c@, xm, xi@);
                            if m == i {
                                lemma_fsub_self(xi@);
                                lemma_fmul_zero(c@);
                                lemma_fmul_zero(peval(prior, xm));
                            } else {
                                lemma_fmul_zero(peval(factor@, xm));
                            }
                        }
                    }
                }
                i += 1;
            }
            proof {
                assert(is_elem(yval(points@, j as int)));
            }
            let scaled = l_j.scale(&points[j].1);
            let ghost prior_l = l@;
            l.add_assign(&scaled);
            proof {
                let yj = yval(points@, j as int);
                assert forall|m: int| 0 <= m < k implies peval(
                    l@,
                    #[trigger] xval(points@, m),
                ) == (if m < j + 1 {
                    yval(points@, m)
                } else {
                    0
                }) by {
                    let xm = xval(points@, m);
                    lemma_peval_congr(l@, padd(prior_l, scaled@), xm);
                    lemma_peval_padd(prior_l, scaled@, xm);
                    lemma_peval_scaled(l_j@, scaled@, yj, xm);
                    assert(is_elem(yval(points@, m)));
                    if m == j {
                        lemma_fmul_one(yj);
                        lemma_fadd_zero(yj);
                    } else {
                        lemma_fmul_zero(yj);
                        if m < j {
                            lemma_fadd_zero(yval(points@, m));
                        } else {
                            lemma_zero_ops();
                        }
                    }
                }
            }
            j += 1;
        }
        proof {
            assert(!has_dup_x(points@)) by {
                if has_dup_x(points@) {
                    let (ii, jj) = choose|ii: int, jj: int|
                        0 <= ii < jj < points@.len() && #[trigger] xval(points@, ii)
                            == #[trigger] xval(points@, jj);
                    assert(xval(points@, ii) != xval(points@, jj));
                }
            }
        }
        Ok(l)
    }

    /// Render the polynomial as a human-readable sum of decimal terms,
    /// highest power first: the zero polynomial renders as the empty
    /// string, coefficients close to the field order render as small
    /// negated values, and unit coefficients of positive powers are left
    /// implicit.
    /// Render one non-zero term as `term_rep` states it.
    #[verifier::rlimit(100)]
    #[verifier::spinoff_prover]
    fn render_term(cv: &Fr, i: usize, first: bool) -> (r: Vec<u8>)
        requires
            is_elem(cv@),
        ensures
            r@ == term_rep(cv@, i as int, first),
            forall|j: int| 0 <= j < r@.len() ==> #[trigger] r@[j] < 128,
    {
        let mut out: Vec<u8> = Vec::new();
        let d_n = dec_digits(cv);
        let neg = cv.neg();
        let d_inv = dec_digits(&neg);
        proof {
            lemma_dec_rep_ascii(cv@);
            lemma_dec_rep_ascii(neg@);
        }
        if d_inv.len() < 20 && d_n.len() > 20 {
            // a small negated value reads better than a huge one
            out.push(45);  // '-'
            if !(d_inv.len() == 1 && d_inv[0] == 49 && i != 0) {
                proof {
                    if d_inv@ == seq![49u8] && i != 0 {
                        assert(d_inv@[0] == 49);
                    }
                }
                let mut dd = d_inv;
                out.append(&mut dd);
            } else {
                proof {
                    assert(d_inv@ =~= seq![49u8]);
                }
            }
        } else {
            if !first {
                out.push(43);  // '+'
            }
            if i == 0 || !(d_n.len() == 1 && d_n[0] == 49) {
                proof {
                    if i != 0 && d_n@ == seq![49u8] {
                        assert(d_n@[0] == 49);
                    }
                }
                let mut dd = d_n;
                out.append(&mut dd);
            } else {
                proof {
                    assert(d_n@ =~= seq![49u8]);
                }
            }
        }
        proof {
            reveal(term_rep);
            let cp = if d_inv@.len() < 20 && d_n@.len() > 20 {
                seq![45u8] + (if d_inv@ == seq![49u8] && i != 0 {
                    Seq::<u8>::empty()
                } else {
                    d_inv@
                })
            } else {
                (if first {
                    Seq::<u8>::empty()
                } else {
                    seq![43u8]
                }) + (if i == 0 || d_n@ != seq![49u8] {
                    d_n@
                } else {
                    Seq::<u8>::empty()
                })
            };
            assert(out@ =~= cp);
        }
        let ghost mid = out@;
        if i >= 1 {
            out.push(120);  // 'x'
        }
        let ghost mid2 = out@;
        if i >= 2 {
            out.push(94);  // '^'
            let mut di = dec_digits(&Fr::from_u64(i as u64));
            proof {
                lemma_dec_rep_ascii(i as nat);
            }
            out.append(&mut di);
        }
        proof {
            reveal(term_rep);
            let xp = if i as int >= 1 {
                seq![120u8]
            } else {
                Seq::<u8>::empty()
            };
            let ep = if i as int >= 2 {
                seq![94u8] + dec_rep(i as nat)
            } else {
                Seq::<u8>::empty()
            };
            assert(mid2 =~= mid + xp);
            assert(out@ =~= mid2 + ep);
            assert(out@ =~= term_rep(cv@, i as int, first));
        }
        out
    }

    /// Render the polynomial as a human-readable sum of decimal terms,
    /// highest power first, exactly as `render_terms` states it: the
    /// zero polynomial renders as the empty string, coefficients close
    /// to the field order render as small negated values, and unit
    /// coefficients of positive powers are left implicit.
    #[verifier::rlimit(100)]
    #[verifier::spinoff_prover]
    pub fn to_string(&self) -> (r: String)
        requires
            self.wf(),
        ensures
            r@.len() == render_terms(self@, self@.len() - 1, true).len(),
            forall|j: int|
                0 <= j < r@.len() ==> r@[j] == render_terms(self@, self@.len() - 1, true)[j]
                    as char,
            (r@.len() == 0) <==> (self@ == zero_poly()),
    {
        let z = Fr::from_u64(0);
        let len = self.c.len();
        let ghost full = render_terms(self@, self@.len() - 1, true);
        let mut out: Vec<u8> = Vec::new();
        let mut first: bool = true;
        let mut ii: usize = 0;
        proof {
            assert(full =~= out@ + render_terms(self@, len - 1 - ii, first));
        }
        while ii < len
            invariant
                self.wf(),
                z@ == 0,
                len == self@.len(),
                ii <= len,
                full == render_terms(self@, len - 1, true),
                full == out@ + render_terms(self@, len - 1 - ii, first),
                (out@.len() == 0) <==> (forall|j: int|
                    len - ii <= j < len ==> #[trigger] pcoeff(self@, j) == 0),
                forall|j: int| 0 <= j < out@.len() ==> #[trigger] out@[j] < 128,
            decreases len - ii,
        {
            let i = len - 1 - ii;
            let cv = self.c[i];
            let ghost prior = out@;
            let ghost first0 = first;
            proof {
                assert(is_elem(pcoeff(self@, i as int)));
                assert(cv@ == self@[i as int]);
            }
            if !cv.equals(&z) {
                let mut term = Self::render_term(&cv, i, first);
                proof {
                    assert(term@.len() >= 1) by {
                        reveal(term_rep);
                        lemma_dec_rep_ascii(cv@);
                        lemma_dec_rep_ascii(crate::field::fneg(cv@));
                    }
                }
                out.append(&mut term);
                proof {
                    reveal(render_terms);
                    assert(render_terms(self@, i as int, first0) =~= term_rep(
                        cv@,
                        i as int,
                        first0,
                    ) + render_terms(self@, i - 1, false));
                    assert(full =~= out@ + render_terms(self@, i - 1, false));
                }
                first = false;
            } else {
                proof {
                    reveal(render_terms);
                    assert(render_terms(self@, i as int, first0) == render_terms(
                        self@,
                        i - 1,
                        first0,
                    ));
                }
            }
            ii += 1;
        }
        proof {
            reveal(render_terms);
            assert(render_terms(self@, len - 1 - ii, first) =~= Seq::<u8>::empty());
            assert(full =~= out@);
            if out@.len() == 0 {
                if self@.len() > 1 {
                    assert(pcoeff(self@, self@.len() - 1) == 0);
                }
                assert(pcoeff(self@, 0) == 0);
                assert(self@ =~= zero_poly());
            }
        }
        ascii_string(out)
    }

    /// Division with remainder by a non-zero polynomial, by repeated
    /// leading-term elimination. The division law holds exactly: the
    /// returned quotient and remainder satisfy `Q*D + R == A`, and the
    /// remainder is either zero or of degree strictly below the divisor's.
    pub fn div(self, d: &Poly) -> (qr: (Poly, Poly))
        requires
            self.wf(),
            d.wf(),
            !(d@.len() == 1 && d@[0] == 0),
            self@.len() < usize::MAX,
        ensures
            qr.0.wf(),
            qr.1.wf(),
            p_equiv(padd(pmul(qr.0@, d@), qr.1@), self@),
            (qr.1@.len() == 1 && qr.1@[0] == 0) || qr.1@.len() < d@.len(),
            qr.0@.len() as int <= if self@.len() >= d@.len() {
                self@.len() - d@.len() + 1
            } else {
                1
            },
    {
        let ghost a0 = self@;
        let mut q = Poly::zero();
        let mut r = self;
        proof {
            assert forall|k: int|
                pcoeff(padd(pmul(q@, d@), r@), k) == pcoeff(a0, k) by {
                lemma_pcoeff_padd(pmul(q@, d@), r@, k);
                lemma_pcoeff_pmul(q@, d@, k);
                lemma_pmul_coeff_zero_left(d@, k);
                assert(is_elem(pcoeff(r@, k)));
                lemma_fadd_zero(pcoeff(r@, k));
            }
        }
        while !r.is_zero() && r.degree() >= d.degree()
            invariant
                q.wf(),
                r.wf(),
                d.wf(),
                !(d@.len() == 1 && d@[0] == 0),
                1 <= a0.len() < usize::MAX,
                r@.len() <= a0.len(),
                p_equiv(padd(pmul(q@, d@), r@), a0),
                q@.len() as int <= if a0.len() >= d@.len() {
                    a0.len() - d@.len() + 1
                } else {
                    1
                },
            decreases r@.len(), (if r@.len() == 1 && r@[0] == 0 {
                0int
            } else {
                1int
            }),
        {
            let rl = r.c.len();
            let dl = d.c.len();
            let e = rl - dl;
            let lr = r.c[rl - 1];
            let ld = d.c[dl - 1];
            proof {
                assert(lr@ == pcoeff(r@, rl - 1));
                assert(ld@ == pcoeff(d@, dl - 1));
                assert(is_elem(lr@));
                assert(is_elem(ld@));
                assert(lr@ != 0);
                assert(ld@ != 0);
            }
            let ci = ld.inv();
            let cf = lr.mul(&ci);
            proof {
                lemma_inv_cancel(lr@, ld@, ci@);
            }
            let mut t = Poly::zero();
            t.set(e, cf);
            proof {
                assert forall|k: int|
                    pcoeff(t@, k) == pcoeff(monomial(e as int, cf@), k) by {
                    assert(pcoeff(t@, k) == pcoeff(set_at(zero_poly(), e as int, cf@), k));
                    assert(pcoeff(zero_poly(), k) == 0);
                }
                assert(is_normalized(monomial(e as int, cf@)));
                lemma_normalized_unique(t@, monomial(e as int, cf@));
                assert(t@ =~= monomial(e as int, cf@));
            }
            let ghost qo = q@;
            q.add_assign(&t);
            let td = t.mul(d);
            let ghost ro = r@;
            let ghost tdo = td@;
            r.sub_assign(&td);
            proof {
                assert forall|k: int|
                    pcoeff(padd(pmul(q@, d@), r@), k) == pcoeff(a0, k) by {
                    lemma_pcoeff_padd(pmul(q@, d@), r@, k);
                    lemma_pcoeff_pmul(q@, d@, k);
                    lemma_conv_sum_congr(q@, padd(qo, t@), d@, d@, k, k + 1);
                    lemma_conv_sum_distrib(qo, t@, d@, k, k + 1);
                    lemma_pcoeff_psub(ro, tdo, k);
                    lemma_pcoeff_pmul(t@, d@, k);
                    lemma_pcoeff_padd(pmul(qo, d@), ro, k);
                    lemma_pcoeff_pmul(qo, d@, k);
                    lemma_fadd_sub_cancel(
                        pmul_coeff(qo, d@, k),
                        pmul_coeff(t@, d@, k),
                        pcoeff(ro, k),
                    );
                }
                assert forall|k: int| k >= rl - 1 implies #[trigger] pcoeff(r@, k) == 0 by {
                    lemma_pcoeff_psub(ro, tdo, k);
                    lemma_pcoeff_pmul(t@, d@, k);
                    lemma_conv_monomial(e as int, cf@, d@, k, k + 1);
                    if k == rl - 1 {
                        assert(pcoeff(d@, k - e) == ld@);
                        assert(pcoeff(ro, k) == lr@);
                        lemma_fsub_self(lr@);
                    } else {
                        assert(pcoeff(ro, k) == 0);
                        assert(pcoeff(d@, k - e) == 0);
                        lemma_fmul_zero(cf@);
                        lemma_zero_ops();
                    }
                }
                if rl >= 2 {
                    lemma_high_zero_len(r@, rl - 1);
                } else {
                    lemma_high_zero_len(r@, 1);
                    assert(pcoeff(r@, 0) == 0);
                }
            }
        }
        (q, r)
    }

    /// The dot product of the coefficients with the given powers: the
    /// polynomial's value when `x_pow` holds the successive powers of a
    /// point.
    pub fn eval_with_pows(&self, x_pow: &Vec<Fr>) -> (r: Fr)
        requires
            self.wf(),
            all_elems(vals(x_pow@)),
            x_pow@.len() >= self@.len(),
        ensures
            r@ == dot_sum(vals(x_pow@), self@, self@.len() as int),
            is_elem(r@),
    {
        let mut y = Fr::from_u64(0);
        let mut i: usize = 0;
        while i < self.c.len()
            invariant
                self.wf(),
                all_elems(vals(x_pow@)),
                x_pow@.len() >= self@.len(),
                i <= self@.len(),
                is_elem(y@),
                y@ == dot_sum(vals(x_pow@), self@, i as int),
            decreases self@.len() - i,
        {
            proof {
                assert(is_elem(pcoeff(self@, i as int)));
                assert(is_elem(pcoeff(vals(x_pow@), i as int)));
            }
            y = y.add(&x_pow[i].mul(&self.c[i]));
            i += 1;
        }
        y
    }
}

} // verus!
