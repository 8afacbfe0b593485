//! Evaluation of univariate polynomials commutes with their arithmetic.
use vstd::prelude::*;
use crate::field::{fadd, fmul, fsub, modulus};
use crate::univariate::{
    basis_numerator, basis_poly, coeff, conv_sum, finv, horner, lagrange_poly, others, poly_add,
    poly_eval, poly_mul, poly_product, poly_scale, poly_sum, root_factor, root_factors,
};

verus! {

proof fn lemma_step_congruent(a: int, a2: int, u: int, u2: int, x: int)
    requires
        a % modulus() == a2 % modulus(),
        u % modulus() == u2 % modulus(),
    ensures
        (a + x * u) % modulus() == (a2 + x * u2) % modulus(),
{
    let p = modulus();
    vstd::arithmetic::div_mod::lemma_mul_mod_noop_right(x, u, p);
    vstd::arithmetic::div_mod::lemma_mul_mod_noop_right(x, u2, p);
    vstd::arithmetic::div_mod::lemma_add_mod_noop(a, x * u, p);
    vstd::arithmetic::div_mod::lemma_add_mod_noop(a2, x * u2, p);
}

/// Coefficients congruent one by one give congruent values.
proof fn lemma_horner_congruent(c: Seq<int>, d: Seq<int>, x: int)
    requires
        c.len() == d.len(),
        forall|k: int| 0 <= k < c.len() ==> #[trigger] c[k] % modulus() == d[k] % modulus(),
    ensures
        horner(c, x) % modulus() == horner(d, x) % modulus(),
    decreases c.len(),
{
    if c.len() > 0 {
        assert forall|k: int| 0 <= k < c.drop_first().len() implies #[trigger] c.drop_first()[k] % modulus()
            == d.drop_first()[k] % modulus() by {
            assert(c[k + 1] % modulus() == d[k + 1] % modulus());
        }
        lemma_horner_congruent(c.drop_first(), d.drop_first(), x);
        assert(c[0] % modulus() == d[0] % modulus());
        lemma_step_congruent(c[0], d[0], horner(c.drop_first(), x), horner(d.drop_first(), x), x);
    }
}

/// The coefficients padded with zeros to `n`.
pub open spec fn padded(b: Seq<int>, n: nat) -> Seq<int> {
    Seq::new(n, |k: int| coeff(b, k))
}

/// Trailing zeros do not change the value.
proof fn lemma_horner_padded(b: Seq<int>, n: nat, x: int)
    requires
        n >= b.len(),
    ensures
        horner(padded(b, n), x) == horner(b, x),
    decreases n,
{
    if n > 0 {
        if b.len() == 0 {
            lemma_horner_padded(b, (n - 1) as nat, x);
            assert(padded(b, n).drop_first() =~= padded(b, (n - 1) as nat));
        } else {
            lemma_horner_padded(b.drop_first(), (n - 1) as nat, x);
            assert(padded(b, n).drop_first() =~= padded(b.drop_first(), (n - 1) as nat));
        }
    } else {
        assert(b.len() == 0);
    }
}

/// The value of a sum of coefficient sequences of one length.
proof fn lemma_horner_add(u: Seq<int>, v: Seq<int>, x: int)
    requires
        u.len() == v.len(),
    ensures
        horner(Seq::new(u.len(), |k: int| u[k] + v[k]), x) == horner(u, x) + horner(v, x),
    decreases u.len(),
{
    if u.len() > 0 {
        let w = Seq::new(u.len(), |k: int| u[k] + v[k]);
        lemma_horner_add(u.drop_first(), v.drop_first(), x);
        assert(w.drop_first() =~= Seq::new(u.drop_first().len(), |k: int| u.drop_first()[k] + v.drop_first()[k]));
        let hu = horner(u.drop_first(), x);
        let hv = horner(v.drop_first(), x);
        assert(x * (hu + hv) == x * hu + x * hv) by (nonlinear_arith);
    }
}

/// The value of a scaled coefficient sequence.
proof fn lemma_horner_scale(c: Seq<int>, s: int, x: int)
    ensures
        horner(Seq::new(c.len(), |k: int| s * c[k]), x) == s * horner(c, x),
    decreases c.len(),
{
    if c.len() > 0 {
        let w = Seq::new(c.len(), |k: int| s * c[k]);
        lemma_horner_scale(c.drop_first(), s, x);
        assert(w.drop_first() =~= Seq::new(c.drop_first().len(), |k: int| s * c.drop_first()[k]));
        let h = horner(c.drop_first(), x);
        assert(horner(w, x) == w[0] + x * horner(w.drop_first(), x));
        assert(w[0] == s * c[0]);
        assert(s * c[0] + x * (s * h) == s * (c[0] + x * h)) by (nonlinear_arith);
    } else {
        assert(s * 0 == 0);
    }
}

/// A convolution peels off its first term.
proof fn lemma_conv_first(a: Seq<int>, b: Seq<int>, k: int, m: nat)
    requires
        1 <= m <= a.len(),
    ensures
        conv_sum(a, b, k, m) == a[0] * coeff(b, k) + conv_sum(a.drop_first(), b, k - 1, (m - 1) as nat),
    decreases m,
{
    let a2 = a.drop_first();
    if m > 1 {
        lemma_conv_first(a, b, k, (m - 1) as nat);
        assert(a2[m - 2] == a[m - 1]);
        assert((k - 1) - (m - 2) == k - (m - 1));
        assert(conv_sum(a, b, k, m) == conv_sum(a, b, k, (m - 1) as nat) + a[m - 1] * coeff(b, k - (m - 1)));
        assert(conv_sum(a2, b, k - 1, (m - 1) as nat) == conv_sum(a2, b, k - 1, (m - 2) as nat) + a2[m - 2]
            * coeff(b, (k - 1) - (m - 2)));
    } else {
        assert(conv_sum(a, b, k, 1) == conv_sum(a, b, k, 0) + a[0] * coeff(b, k - 0));
        assert(conv_sum(a2, b, k - 1, 0) == 0);
    }
}

/// A convolution at a negative index is zero.
proof fn lemma_conv_negative(a: Seq<int>, b: Seq<int>, k: int, m: nat)
    requires
        k < 0,
    ensures
        conv_sum(a, b, k, m) == 0,
    decreases m,
{
    if m > 0 {
        lemma_conv_negative(a, b, k, (m - 1) as nat);
    }
}

/// The convolution over the integers, coefficient by coefficient.
pub open spec fn conv_int(a: Seq<int>, b: Seq<int>) -> Seq<int> {
    Seq::new((a.len() + b.len() - 1) as nat, |k: int| conv_sum(a, b, k, a.len()))
}

/// The value of a product over the integers is the product of the values.
proof fn lemma_horner_conv(a: Seq<int>, b: Seq<int>, x: int)
    requires
        a.len() >= 1,
        b.len() >= 1,
    ensures
        horner(conv_int(a, b), x) == horner(a, x) * horner(b, x),
    decreases a.len(),
{
    let n = (a.len() + b.len() - 1) as nat;
    let u = Seq::new(n, |k: int| a[0] * coeff(b, k));
    lemma_horner_scale(padded(b, n), a[0], x);
    assert(u =~= Seq::new(n, |k: int| a[0] * padded(b, n)[k]));
    lemma_horner_padded(b, n, x);
    if a.len() == 1 {
        assert forall|k: int| 0 <= k < n implies #[trigger] conv_int(a, b)[k] == u[k] by {
            lemma_conv_first(a, b, k, 1);
        }
        assert(conv_int(a, b) =~= u);
        assert(horner(a, x) == a[0] + x * horner(a.drop_first(), x));
        assert(a.drop_first().len() == 0);
        assert(horner(a, x) == a[0]);
        assert(a[0] * horner(b, x) == horner(a, x) * horner(b, x));
    } else {
        let a2 = a.drop_first();
        let c = conv_int(a2, b);
        lemma_horner_conv(a2, b, x);
        let sc = seq![0int] + c;
        assert(sc.len() == n);
        assert forall|k: int| 0 <= k < n implies #[trigger] conv_int(a, b)[k] == u[k] + sc[k] by {
            lemma_conv_first(a, b, k, a.len());
            if k == 0 {
                lemma_conv_negative(a2, b, -1, a2.len());
            } else {
                assert(sc[k] == c[k - 1]);
            }
        }
        assert(conv_int(a, b) =~= Seq::new(n, |k: int| u[k] + sc[k]));
        lemma_horner_add(u, sc, x);
        assert(sc.drop_first() =~= c);
        assert(horner(sc, x) == 0 + x * horner(c, x));
        let ha = horner(a2, x);
        let hb = horner(b, x);
        assert(a[0] * hb + x * (ha * hb) == (a[0] + x * ha) * hb) by (nonlinear_arith);
    }
}

/// Evaluating a product gives the product of the values.
pub proof fn lemma_eval_mul(a: Seq<int>, b: Seq<int>, x: int)
    requires
        a.len() >= 1,
        b.len() >= 1,
    ensures
        poly_eval(poly_mul(a, b), x) == fmul(poly_eval(a, x), poly_eval(b, x)),
{
    let p = modulus();
    let m = poly_mul(a, b);
    let c = conv_int(a, b);
    assert forall|k: int| 0 <= k < m.len() implies #[trigger] m[k] % p == c[k] % p by {
        vstd::arithmetic::div_mod::lemma_mod_twice(c[k], p);
    }
    lemma_horner_congruent(m, c, x);
    lemma_horner_conv(a, b, x);
    vstd::arithmetic::div_mod::lemma_mul_mod_noop(horner(a, x), horner(b, x), p);
}

/// Evaluating a sum gives the sum of the values.
pub proof fn lemma_eval_add(a: Seq<int>, b: Seq<int>, x: int)
    ensures
        poly_eval(poly_add(a, b), x) == fadd(poly_eval(a, x), poly_eval(b, x)),
{
    let p = modulus();
    let n = if a.len() >= b.len() {
        a.len()
    } else {
        b.len()
    };
    let s = poly_add(a, b);
    let pa = padded(a, n);
    let pb = padded(b, n);
    let w = Seq::new(n, |k: int| pa[k] + pb[k]);
    assert forall|k: int| 0 <= k < s.len() implies #[trigger] s[k] % p == w[k] % p by {
        vstd::arithmetic::div_mod::lemma_mod_twice(coeff(a, k) + coeff(b, k), p);
    }
    lemma_horner_congruent(s, w, x);
    lemma_horner_add(pa, pb, x);
    lemma_horner_padded(a, n, x);
    lemma_horner_padded(b, n, x);
    vstd::arithmetic::div_mod::lemma_add_mod_noop(horner(a, x), horner(b, x), p);
}

/// Evaluating a scaled polynomial scales the value.
pub proof fn lemma_eval_scale(a: Seq<int>, c: int, x: int)
    ensures
        poly_eval(poly_scale(a, c), x) == fmul(poly_eval(a, x), c),
{
    let p = modulus();
    let s = poly_scale(a, c);
    let w = Seq::new(a.len(), |k: int| c * a[k]);
    assert forall|k: int| 0 <= k < s.len() implies #[trigger] s[k] % p == w[k] % p by {
        vstd::arithmetic::div_mod::lemma_mod_twice(a[k] * c, p);
        assert(a[k] * c == c * a[k]) by (nonlinear_arith);
    }
    lemma_horner_congruent(s, w, x);
    lemma_horner_scale(a, c, x);
    vstd::arithmetic::div_mod::lemma_mul_mod_noop_left(horner(a, x), c, p);
    assert(c * horner(a, x) == horner(a, x) * c) by (nonlinear_arith);
}

/// `1·v₀·v₁·…`, the values of the polynomials multiplied in order.
pub open spec fn eval_product(ps: Seq<Seq<int>>, x: int) -> int
    decreases ps.len(),
{
    if ps.len() == 0 {
        1
    } else {
        fmul(eval_product(ps.drop_last(), x), poly_eval(ps.last(), x))
    }
}

/// `0 + v₀ + v₁ + …`, the values of the polynomials added in order.
pub open spec fn eval_sum(ps: Seq<Seq<int>>, x: int) -> int
    decreases ps.len(),
{
    if ps.len() == 0 {
        0
    } else {
        fadd(eval_sum(ps.drop_last(), x), poly_eval(ps.last(), x))
    }
}

/// Evaluating a product of non-empty polynomials multiplies their values.
pub proof fn lemma_eval_product(ps: Seq<Seq<int>>, x: int)
    requires
        forall|i: int| 0 <= i < ps.len() ==> (#[trigger] ps[i]).len() >= 1,
    ensures
        poly_product(ps).len() >= 1,
        poly_eval(poly_product(ps), x) == eval_product(ps, x),
    decreases ps.len(),
{
    if ps.len() == 0 {
        assert(poly_eval(seq![1int], x) == 1) by {
            assert(seq![1int].drop_first().len() == 0);
            assert(horner(seq![1int], x) == 1 + x * horner(seq![1int].drop_first(), x));
        }
    } else {
        let rest = ps.drop_last();
        assert forall|i: int| 0 <= i < rest.len() implies (#[trigger] rest[i]).len() >= 1 by {
            assert(rest[i] == ps[i]);
        }
        lemma_eval_product(rest, x);
        assert(ps.last().len() >= 1);
        lemma_eval_mul(poly_product(rest), ps.last(), x);
    }
}

/// Evaluating a sum of polynomials adds their values.
pub proof fn lemma_eval_sum(ps: Seq<Seq<int>>, x: int)
    ensures
        poly_eval(poly_sum(ps), x) == eval_sum(ps, x),
    decreases ps.len(),
{
    if ps.len() == 0 {
        assert(horner(seq![0int], x) == 0 + x * horner(seq![0int].drop_first(), x));
        assert(seq![0int].drop_first().len() == 0);
    } else {
        lemma_eval_sum(ps.drop_last(), x);
        lemma_eval_add(poly_sum(ps.drop_last()), ps.last(), x);
    }
}

/// `X - v` takes the value `x - v`.
proof fn lemma_eval_root(v: int, x: int)
    ensures
        poly_eval(root_factor(v), x) == fsub(x, v),
{
    let p = modulus();
    let r = root_factor(v);
    assert(r.drop_first() =~= seq![1int]);
    assert(r.drop_first().drop_first().len() == 0);
    assert(horner(r.drop_first().drop_first(), x) == 0);
    assert(horner(r.drop_first(), x) == 1 + x * horner(r.drop_first().drop_first(), x));
    assert(x * (1 + x * 0) == x) by (nonlinear_arith);
    assert(horner(r, x) == fsub(0, v) + x);
    vstd::arithmetic::div_mod::lemma_add_mod_noop((0 - v), x, p);
    vstd::arithmetic::div_mod::lemma_mod_twice(0 - v, p);
    vstd::arithmetic::div_mod::lemma_add_mod_noop(fsub(0, v), x, p);
}

/// A product of `X - v` over points that include `x` vanishes at `x`.
proof fn lemma_root_product_vanishes(s: Seq<int>, x: int)
    requires
        s.contains(x),
    ensures
        eval_product(root_factors(s), x) == 0,
    decreases s.len(),
{
    let fs = root_factors(s);
    assert(fs.drop_last() =~= root_factors(s.drop_last()));
    assert(fs.last() == root_factor(s.last()));
    lemma_eval_root(s.last(), x);
    if s.last() == x {
        assert(fsub(x, x) == 0);
        assert(fmul(eval_product(fs.drop_last(), x), 0) == 0);
    } else {
        let i = choose|i: int| 0 <= i < s.len() && s[i] == x;
        assert(i < s.len() - 1);
        assert(s.drop_last()[i] == x);
        lemma_root_product_vanishes(s.drop_last(), x);
        assert(fmul(0, poly_eval(fs.last(), x)) == 0);
    }
}

/// The basis numerator of `x_i` vanishes at every point that differs from `x_i`.
proof fn lemma_numerator_vanishes(xs: Seq<int>, xi: int, k: int)
    requires
        0 <= k < xs.len(),
        xs[k] != xi,
    ensures
        poly_eval(basis_numerator(xs, xi), xs[k]) == 0,
{
    let pred = |v: int| v != xi;
    xs.lemma_filter_contains(pred, k);
    assert(others(xs, xi).contains(xs[k]));
    let fs = root_factors(others(xs, xi));
    assert forall|i: int| 0 <= i < fs.len() implies (#[trigger] fs[i]).len() >= 1 by {}
    lemma_eval_product(fs, xs[k]);
    lemma_root_product_vanishes(others(xs, xi), xs[k]);
}

/// The points are pairwise distinct.
pub open spec fn distinct_points(xs: Seq<int>) -> bool {
    forall|i: int, j: int| 0 <= i < xs.len() && 0 <= j < xs.len() && i != j ==> xs[i] != xs[j]
}

/// Every basis denominator has an inverse.
pub open spec fn denominators_invertible(xs: Seq<int>) -> bool {
    forall|i: int|
        0 <= i < xs.len() ==> fmul(
            finv(#[trigger] poly_eval(basis_numerator(xs, xs[i]), xs[i])),
            poly_eval(basis_numerator(xs, xs[i]), xs[i]),
        ) == 1
}

proof fn lemma_terms_sum(xs: Seq<int>, ys: Seq<int>, k: int, m: nat)
    requires
        xs.len() == ys.len(),
        m <= xs.len(),
        0 <= k < xs.len(),
        distinct_points(xs),
        denominators_invertible(xs),
        0 <= ys[k] < modulus(),
    ensures
        eval_sum(
            Seq::new(xs.len(), |i: int| poly_scale(basis_poly(xs, xs[i]), ys[i])).subrange(0, m as int),
            xs[k],
        ) == if k < m {
            ys[k]
        } else {
            0
        },
    decreases m,
{
    let terms = Seq::new(xs.len(), |i: int| poly_scale(basis_poly(xs, xs[i]), ys[i]));
    if m > 0 {
        let j = m - 1;
        lemma_terms_sum(xs, ys, k, (m - 1) as nat);
        assert(terms.subrange(0, m as int).drop_last() =~= terms.subrange(0, j));
        let d = poly_eval(basis_numerator(xs, xs[j]), xs[j]);
        lemma_eval_scale(basis_poly(xs, xs[j]), ys[j], xs[k]);
        lemma_eval_scale(basis_numerator(xs, xs[j]), finv(d), xs[k]);
        let prev = if k < j {
            ys[k]
        } else {
            0
        };
        if j == k {
            assert(fmul(finv(d), d) == 1);
            assert(fmul(d, finv(d)) == 1) by {
                assert(d * finv(d) == finv(d) * d) by (nonlinear_arith);
            }
            vstd::arithmetic::div_mod::lemma_small_mod(ys[k] as nat, modulus() as nat);
            assert(1 * ys[k] == ys[k]);
            assert(fmul(1, ys[k]) == ys[k]);
            assert(fadd(0, ys[k]) == ys[k]);
        } else {
            assert(xs[k] != xs[j]);
            lemma_numerator_vanishes(xs, xs[j], k);
            assert(fmul(0, finv(d)) == 0);
            assert(0 * ys[j] == 0) by (nonlinear_arith);
            assert(fmul(0, ys[j]) == 0);
            vstd::arithmetic::div_mod::lemma_small_mod(prev as nat, modulus() as nat);
            assert(fadd(prev, 0) == prev);
        }
    }
}

/// The Lagrange form takes the value `y_i` at each point `x_i`, when the points are
/// distinct and the basis denominators invertible.
pub proof fn lemma_interpolation_passes_through_points(xs: Seq<int>, ys: Seq<int>, k: int)
    requires
        xs.len() == ys.len(),
        0 <= k < xs.len(),
        distinct_points(xs),
        denominators_invertible(xs),
        forall|i: int| 0 <= i < ys.len() ==> 0 <= #[trigger] ys[i] < modulus(),
    ensures
        poly_eval(lagrange_poly(xs, ys), xs[k]) == ys[k],
{
    let terms = Seq::new(xs.len(), |i: int| poly_scale(basis_poly(xs, xs[i]), ys[i]));
    lemma_eval_sum(terms, xs[k]);
    lemma_terms_sum(xs, ys, k, xs.len());
    assert(terms.subrange(0, xs.len() as int) =~= terms);
}

} // verus!
