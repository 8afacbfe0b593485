//! Dense univariate polynomials, coefficients from the constant term upward.
use vstd::prelude::*;
use crate::field::{fadd, fmul, fsub, modulus, Fe};
use crate::multilinear::vals;

verus! {

/// Coefficient `i`, zero past the end.
pub open spec fn coeff(a: Seq<int>, i: int) -> int {
    if 0 <= i < a.len() {
        a[i]
    } else {
        0
    }
}

/// `a[0] + x·(a[1] + x·(…))` over the integers.
pub open spec fn horner(a: Seq<int>, x: int) -> int
    decreases a.len(),
{
    if a.len() == 0 {
        0
    } else {
        a[0] + x * horner(a.drop_first(), x)
    }
}

/// The value of a polynomial at `x` in the field.
pub open spec fn poly_eval(a: Seq<int>, x: int) -> int {
    horner(a, x) % modulus()
}

pub open spec fn poly_add(a: Seq<int>, b: Seq<int>) -> Seq<int> {
    Seq::new(
        if a.len() >= b.len() {
            a.len()
        } else {
            b.len()
        },
        |i: int| fadd(coeff(a, i), coeff(b, i)),
    )
}

pub open spec fn poly_scale(a: Seq<int>, s: int) -> Seq<int> {
    Seq::new(a.len(), |i: int| fmul(a[i], s))
}

/// `Σ_{i < m} a[i]·b[k - i]` over the integers.
pub open spec fn conv_sum(a: Seq<int>, b: Seq<int>, k: int, m: nat) -> int
    decreases m,
{
    if m == 0 {
        0
    } else {
        conv_sum(a, b, k, (m - 1) as nat) + a[m - 1] * coeff(b, k - (m - 1))
    }
}

/// The product of two non-empty coefficient sequences.
pub open spec fn poly_mul(a: Seq<int>, b: Seq<int>) -> Seq<int> {
    Seq::new((a.len() + b.len() - 1) as nat, |k: int| conv_sum(a, b, k, a.len()) % modulus())
}

/// `[0] + p₀ + p₁ + …`, added in order.
pub open spec fn poly_sum(ps: Seq<Seq<int>>) -> Seq<int>
    decreases ps.len(),
{
    if ps.len() == 0 {
        seq![0]
    } else {
        poly_add(poly_sum(ps.drop_last()), ps.last())
    }
}

/// `[1]·p₀·p₁·…`, multiplied in order.
pub open spec fn poly_product(ps: Seq<Seq<int>>) -> Seq<int>
    decreases ps.len(),
{
    if ps.len() == 0 {
        seq![1]
    } else {
        poly_mul(poly_product(ps.drop_last()), ps.last())
    }
}

/// `X - x`.
pub open spec fn root_factor(x: int) -> Seq<int> {
    seq![fsub(0, x), 1]
}

/// The points that differ from `x`, in order.
pub open spec fn others(xs: Seq<int>, x: int) -> Seq<int> {
    xs.filter(|v: int| v != x)
}

pub open spec fn root_factors(s: Seq<int>) -> Seq<Seq<int>> {
    s.map_values(|v: int| root_factor(v))
}

/// `∏ (X - x_j)` over the points that differ from `x`.
pub open spec fn basis_numerator(xs: Seq<int>, x: int) -> Seq<int> {
    poly_product(root_factors(others(xs, x)))
}

/// An inverse of `a` in the field.
pub open spec fn finv(a: int) -> int {
    choose|b: int| 0 <= b < modulus() && fmul(b, a) == 1
}

/// The Lagrange basis polynomial that is one at `x` and zero at the other points.
pub open spec fn basis_poly(xs: Seq<int>, x: int) -> Seq<int> {
    poly_scale(basis_numerator(xs, x), finv(poly_eval(basis_numerator(xs, x), x)))
}

/// `Σ y_i · L_i`, the Lagrange form of the polynomial through the points.
pub open spec fn lagrange_poly(xs: Seq<int>, ys: Seq<int>) -> Seq<int> {
    poly_sum(Seq::new(xs.len(), |i: int| poly_scale(basis_poly(xs, xs[i]), ys[i])))
}

/// The interpolation has every denominator invertible.
pub open spec fn denominators_nonzero(xs: Seq<int>) -> bool {
    forall|i: int| 0 <= i < xs.len() ==> #[trigger] poly_eval(basis_numerator(xs, xs[i]), xs[i]) != 0
}

/// The number of coefficients of the first `n` polynomials.
pub open spec fn total_len(ps: Seq<UnivariatePoly>, n: nat) -> int
    decreases n,
{
    if n == 0 {
        0
    } else {
        total_len(ps, (n - 1) as nat) + ps[n - 1].coefficient@.len()
    }
}

proof fn lemma_total_len_monotone(ps: Seq<UnivariatePoly>, i: nat, j: nat)
    requires
        i <= j,
    ensures
        total_len(ps, i) <= total_len(ps, j),
    decreases j,
{
    if i < j {
        lemma_total_len_monotone(ps, i, (j - 1) as nat);
    }
}

#[derive(Debug, Clone)]
pub struct UnivariatePoly {
    pub coefficient: Vec<Fe>,
}

proof fn lemma_horner_step(acc: int, h: int, x: int, c: int)
    requires
        acc == h % modulus(),
    ensures
        fadd(fmul(acc, x), c) == (c + x * h) % modulus(),
{
    let p = modulus();
    vstd::arithmetic::div_mod::lemma_mul_mod_noop_left(h, x, p);
    vstd::arithmetic::div_mod::lemma_add_mod_noop_right(c, h * x, p);
    assert(h * x == x * h) by (nonlinear_arith);
}

proof fn lemma_accumulate(acc: int, s: int, t: int)
    requires
        acc == s % modulus(),
    ensures
        fadd(acc, t % modulus()) == (s + t) % modulus(),
{
    vstd::arithmetic::div_mod::lemma_add_mod_noop(s, t, modulus());
}

impl UnivariatePoly {
    pub open spec fn coeffs(&self) -> Seq<int> {
        vals(self.coefficient@)
    }

    pub fn new(coefficient: Vec<Fe>) -> (r: Self)
        ensures
            r.coefficient@ == coefficient@,
    {
        UnivariatePoly { coefficient }
    }

    pub fn degree(&self) -> (r: usize)
        requires
            self.coefficient@.len() >= 1,
        ensures
            r == self.coefficient@.len() - 1,
    {
        self.coefficient.len() - 1
    }

    /// Horner's rule from the highest coefficient.
    pub fn evaluate(&self, x: Fe) -> (r: Fe)
        ensures
            r.val() == poly_eval(self.coeffs(), x.val()),
    {
        let ghost c = self.coeffs();
        let n = self.coefficient.len();
        let mut acc = Fe::zero();
        let mut i: usize = n;
        assert(c.subrange(n as int, n as int) =~= Seq::<int>::empty());
        while i > 0
            invariant
                c == self.coeffs(),
                n == c.len(),
                i <= n,
                acc.val() == poly_eval(c.subrange(i as int, n as int), x.val()),
            decreases i,
        {
            let ghost rest = c.subrange(i as int, n as int);
            let ghost longer = c.subrange(i - 1, n as int);
            assert(longer.drop_first() =~= rest);
            proof {
                lemma_horner_step(acc.val(), horner(rest, x.val()), x.val(), c[i - 1]);
            }
            acc = acc.mul(x).add(self.coefficient[i - 1]);
            i = i - 1;
        }
        assert(c.subrange(0, n as int) =~= c);
        acc
    }

    pub fn scalar_mul(&self, scalar: &Fe) -> (r: Self)
        ensures
            r.coeffs() == poly_scale(self.coeffs(), scalar.val()),
    {
        let mut out: Vec<Fe> = Vec::new();
        let mut i: usize = 0;
        while i < self.coefficient.len()
            invariant
                i <= self.coefficient@.len(),
                vals(out@) =~= poly_scale(self.coeffs(), scalar.val()).subrange(0, i as int),
            decreases self.coefficient@.len() - i,
        {
            let ghost before = vals(out@);
            let v = self.coefficient[i].mul(*scalar);
            out.push(v);
            assert(vals(out@) =~= before.push(v.val()));
            i = i + 1;
        }
        UnivariatePoly { coefficient: out }
    }

    /// Adds coefficient by coefficient; the shorter polynomial counts as zero past its end.
    pub fn add(&self, rhs: &Self) -> (r: Self)
        ensures
            r.coeffs() == poly_add(self.coeffs(), rhs.coeffs()),
    {
        let la = self.coefficient.len();
        let lb = rhs.coefficient.len();
        let n = if la >= lb {
            la
        } else {
            lb
        };
        let mut out: Vec<Fe> = Vec::new();
        let mut i: usize = 0;
        while i < n
            invariant
                la == self.coefficient@.len(),
                lb == rhs.coefficient@.len(),
                n == if la >= lb {
                    la
                } else {
                    lb
                },
                i <= n,
                vals(out@) =~= poly_add(self.coeffs(), rhs.coeffs()).subrange(0, i as int),
            decreases n - i,
        {
            let a = if i < la {
                self.coefficient[i]
            } else {
                Fe::zero()
            };
            let b = if i < lb {
                rhs.coefficient[i]
            } else {
                Fe::zero()
            };
            let v = a.add(b);
            let ghost before = vals(out@);
            out.push(v);
            assert(vals(out@) =~= before.push(v.val()));
            i = i + 1;
        }
        UnivariatePoly { coefficient: out }
    }

    /// The product: coefficient `k` is `Σ a_i·b_{k-i}`.
    pub fn mul(&self, rhs: &Self) -> (r: Self)
        requires
            self.coefficient@.len() >= 1,
            rhs.coefficient@.len() >= 1,
            self.coefficient@.len() + rhs.coefficient@.len() <= usize::MAX,
        ensures
            r.coeffs() == poly_mul(self.coeffs(), rhs.coeffs()),
            r.coefficient@.len() == self.coefficient@.len() + rhs.coefficient@.len() - 1,
    {
        let la = self.coefficient.len();
        let lb = rhs.coefficient.len();
        let ghost a = self.coeffs();
        let ghost b = rhs.coeffs();
        let n = la - 1 + lb;
        let mut out: Vec<Fe> = Vec::new();
        let mut k: usize = 0;
        while k < n
            invariant
                a == self.coeffs(),
                b == rhs.coeffs(),
                la == a.len(),
                lb == b.len(),
                la >= 1,
                n == la + lb - 1,
                k <= n,
                vals(out@) =~= poly_mul(a, b).subrange(0, k as int),
            decreases n - k,
        {
            let mut acc = Fe::zero();
            let mut i: usize = 0;
            while i < la
                invariant
                    a == self.coeffs(),
                    b == rhs.coeffs(),
                    la == a.len(),
                    lb == b.len(),
                    i <= la,
                    k < n,
                    n == la + lb - 1,
                    acc.val() == conv_sum(a, b, k as int, i as nat) % modulus(),
                decreases la - i,
            {
                let term = if i <= k && k - i < lb {
                    self.coefficient[i].mul(rhs.coefficient[k - i])
                } else {
                    Fe::zero()
                };
                proof {
                    lemma_accumulate(acc.val(), conv_sum(a, b, k as int, i as nat), a[i as int] * coeff(b, k - i));
                }
                acc = acc.add(term);
                i = i + 1;
            }
            let ghost before = vals(out@);
            out.push(acc);
            assert(vals(out@) =~= before.push(acc.val()));
            k = k + 1;
        }
        assert(vals(out@).len() == out@.len());
        UnivariatePoly { coefficient: out }
    }

    /// The sum of the polynomials, starting from the zero polynomial.
    pub fn sum(polys: &Vec<UnivariatePoly>) -> (r: Self)
        ensures
            r.coeffs() == poly_sum(Seq::new(polys@.len(), |i: int| polys@[i].coeffs())),
    {
        let ghost ps = Seq::new(polys@.len(), |i: int| polys@[i].coeffs());
        let mut result = UnivariatePoly { coefficient: vec![Fe::zero()] };
        assert(result.coeffs() =~= seq![0]);
        let mut i: usize = 0;
        while i < polys.len()
            invariant
                ps == Seq::new(polys@.len(), |i: int| polys@[i].coeffs()),
                i <= ps.len(),
                result.coeffs() == poly_sum(ps.subrange(0, i as int)),
            decreases ps.len() - i,
        {
            assert(ps.subrange(0, i + 1).drop_last() =~= ps.subrange(0, i as int));
            result = result.add(&polys[i]);
            i = i + 1;
        }
        assert(ps.subrange(0, ps.len() as int) =~= ps);
        result
    }

    /// The product of the polynomials, starting from the constant one.
    pub fn product(polys: &Vec<UnivariatePoly>) -> (r: Self)
        requires
            forall|i: int| 0 <= i < polys@.len() ==> (#[trigger] polys@[i]).coefficient@.len() >= 1,
            total_len(polys@, polys@.len()) < usize::MAX,
        ensures
            r.coeffs() == poly_product(Seq::new(polys@.len(), |i: int| polys@[i].coeffs())),
            r.coefficient@.len() >= 1,
    {
        let ghost ps = Seq::new(polys@.len(), |i: int| polys@[i].coeffs());
        let mut result = UnivariatePoly { coefficient: vec![Fe::one()] };
        assert(result.coeffs() =~= seq![1]);
        let mut i: usize = 0;
        while i < polys.len()
            invariant
                ps == Seq::new(polys@.len(), |i: int| polys@[i].coeffs()),
                forall|i: int| 0 <= i < polys@.len() ==> (#[trigger] polys@[i]).coefficient@.len() >= 1,
                i <= ps.len(),
                result.coeffs() == poly_product(ps.subrange(0, i as int)),
                result.coefficient@.len() >= 1,
                result.coefficient@.len() <= 1 + total_len(polys@, i as nat),
                total_len(polys@, polys@.len()) < usize::MAX,
            decreases ps.len() - i,
        {
            assert(ps.subrange(0, i + 1).drop_last() =~= ps.subrange(0, i as int));
            proof {
                lemma_total_len_monotone(polys@, (i + 1) as nat, polys@.len());
                assert(total_len(polys@, (i + 1) as nat) == total_len(polys@, i as nat)
                    + polys@[i as int].coefficient@.len());
            }
            result = result.mul(&polys[i]);
            assert(vals(result.coefficient@).len() == result.coefficient@.len());
            i = i + 1;
        }
        assert(ps.subrange(0, ps.len() as int) =~= ps);
        result
    }
}

impl UnivariatePoly {
    /// The Lagrange basis polynomial of `x` over `interpolating_set`: the product of
    /// `X - x_j` over the points `x_j ≠ x`, divided by its value at `x`; `None` when
    /// that value is zero.
    pub fn basis(x: &Fe, interpolating_set: &[Fe]) -> (r: Option<Self>)
        requires
            interpolating_set@.len() < usize::MAX / 4,
        ensures
            r is None <==> poly_eval(basis_numerator(vals(interpolating_set@), x.val()), x.val())
                == 0,
            r matches Some(p) ==> p.coeffs() == basis_poly(vals(interpolating_set@), x.val()),
            r is Some ==> fmul(
                finv(poly_eval(basis_numerator(vals(interpolating_set@), x.val()), x.val())),
                poly_eval(basis_numerator(vals(interpolating_set@), x.val()), x.val()),
            ) == 1,
    {
        let ghost xs = vals(interpolating_set@);
        let mut factors: Vec<UnivariatePoly> = Vec::new();
        let mut i: usize = 0;
        while i < interpolating_set.len()
            invariant
                xs == vals(interpolating_set@),
                i <= xs.len(),
                xs.len() < usize::MAX / 4,
                factors@.len() <= i,
                forall|k: int| 0 <= k < factors@.len() ==> (#[trigger] factors@[k]).coefficient@.len() == 2,
                Seq::new(factors@.len(), |k: int| factors@[k].coeffs()) == root_factors(
                    others(xs.subrange(0, i as int), x.val()),
                ),
            decreases xs.len() - i,
        {
            let v = interpolating_set[i];
            let ghost prev = xs.subrange(0, i as int);
            let ghost next = xs.subrange(0, i + 1);
            assert(next.drop_last() =~= prev);
            proof {
                reveal(Seq::filter);
            }
            if v != *x {
                let f = UnivariatePoly { coefficient: vec![v.neg(), Fe::one()] };
                assert(f.coeffs() =~= root_factor(v.val()));
                let ghost before = Seq::new(factors@.len(), |k: int| factors@[k].coeffs());
                factors.push(f);
                assert(Seq::new(factors@.len(), |k: int| factors@[k].coeffs()) =~= before.push(
                    root_factor(v.val()),
                ));
                assert(others(next, x.val()) == others(prev, x.val()).push(v.val()));
                assert(root_factors(others(next, x.val())) =~= root_factors(others(prev, x.val())).push(
                    root_factor(v.val()),
                ));
            } else {
                assert(others(next, x.val()) == others(prev, x.val()));
            }
            i = i + 1;
        }
        assert(xs.subrange(0, xs.len() as int) =~= xs);
        proof {
            assert(total_len(factors@, factors@.len()) == 2 * factors@.len()) by {
                lemma_total_len_uniform(factors@, factors@.len());
            }
        }
        let numerator = UnivariatePoly::product(&factors);
        let d = numerator.evaluate(*x);
        match d.inverse() {
            None => None,
            Some(inv) => {
                proof {
                    assert(fmul(inv.val(), d.val()) == 1);
                    assert(0 <= inv.val() < modulus());
                    lemma_inverse_unique(d.val(), inv.val());
                }
                Some(numerator.scalar_mul(&inv))
            },
        }
    }

    /// The Lagrange form `Σ y_i·L_i` of the polynomial through the points `(x_i, y_i)`;
    /// `None` when some basis denominator is zero.
    pub fn interpolate(xs: &[Fe], ys: &[Fe]) -> (r: Option<Self>)
        requires
            xs@.len() == ys@.len(),
            xs@.len() < usize::MAX / 4,
        ensures
            r is None <==> !denominators_nonzero(vals(xs@)),
            r matches Some(p) ==> p.coeffs() == lagrange_poly(vals(xs@), vals(ys@)),
            r is Some ==> forall|i: int|
                0 <= i < xs@.len() ==> fmul(
                    finv(#[trigger] poly_eval(basis_numerator(vals(xs@), vals(xs@)[i]), vals(xs@)[i])),
                    poly_eval(basis_numerator(vals(xs@), vals(xs@)[i]), vals(xs@)[i]),
                ) == 1,
    {
        let ghost vx = vals(xs@);
        let ghost vy = vals(ys@);
        let ghost want = Seq::new(vx.len(), |i: int| poly_scale(basis_poly(vx, vx[i]), vy[i]));
        let mut terms: Vec<UnivariatePoly> = Vec::new();
        let mut i: usize = 0;
        while i < xs.len()
            invariant
                vx == vals(xs@),
                vy == vals(ys@),
                want == Seq::new(vx.len(), |i: int| poly_scale(basis_poly(vx, vx[i]), vy[i])),
                xs@.len() == ys@.len(),
                xs@.len() < usize::MAX / 4,
                i <= xs@.len(),
                terms@.len() == i,
                forall|k: int| 0 <= k < i ==> #[trigger] poly_eval(basis_numerator(vx, vx[k]), vx[k]) != 0,
                forall|k: int|
                    0 <= k < i ==> fmul(
                        finv(#[trigger] poly_eval(basis_numerator(vx, vx[k]), vx[k])),
                        poly_eval(basis_numerator(vx, vx[k]), vx[k]),
                    ) == 1,
                forall|k: int| 0 <= k < i ==> (#[trigger] terms@[k]).coeffs() == want[k],
            decreases xs@.len() - i,
        {
            match UnivariatePoly::basis(&xs[i], xs) {
                None => {
                    assert(poly_eval(basis_numerator(vx, vx[i as int]), vx[i as int]) == 0);
                    return None;
                },
                Some(b) => {
                    let t = b.scalar_mul(&ys[i]);
                    terms.push(t);
                },
            }
            i = i + 1;
        }
        let p = UnivariatePoly::sum(&terms);
        assert(Seq::new(terms@.len(), |i: int| terms@[i].coeffs()) =~= want);
        Some(p)
    }
}

proof fn lemma_total_len_uniform(ps: Seq<UnivariatePoly>, n: nat)
    requires
        n <= ps.len(),
        forall|k: int| 0 <= k < ps.len() ==> (#[trigger] ps[k]).coefficient@.len() == 2,
    ensures
        total_len(ps, n) == 2 * n,
    decreases n,
{
    if n > 0 {
        lemma_total_len_uniform(ps, (n - 1) as nat);
    }
}

/// An element has at most one inverse in the field.
pub proof fn lemma_inverse_unique(a: int, b: int)
    requires
        0 <= b < modulus(),
        fmul(b, a) == 1,
    ensures
        finv(a) == b,
{
    let p = modulus();
    let c = finv(a);
    assert(0 <= c < p && fmul(c, a) == 1);
    // c ≡ c·(a·b) ≡ (c·a)·b ≡ b
    vstd::arithmetic::div_mod::lemma_mul_mod_noop_right(c, a * b, p);
    vstd::arithmetic::div_mod::lemma_mul_mod_noop_left(c * a, b, p);
    assert(c * (a * b) == (c * a) * b) by (nonlinear_arith);
    assert(a * b == b * a) by (nonlinear_arith);
    vstd::arithmetic::div_mod::lemma_small_mod(c as nat, p as nat);
    vstd::arithmetic::div_mod::lemma_small_mod(b as nat, p as nat);
    assert(c * 1 == c);
    assert(1 * b == b);
}

} // verus!
