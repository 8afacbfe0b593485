//! Products of multilinear polynomials over one set of variables.
use vstd::prelude::*;
use crate::field::{fadd, fmul, is_pow2, lemma_pow2_half, log2, Fe};
use crate::multilinear::{fold_first, vals, MultiLinearPoly};

verus! {

/// `1·t₀[i]·t₁[i]·…` over the first `m` tables.
pub open spec fn product_at(ts: Seq<Seq<int>>, i: int, m: nat) -> int
    decreases m,
{
    if m == 0 {
        1
    } else {
        fmul(product_at(ts, i, (m - 1) as nat), ts[m - 1][i])
    }
}

/// The elementwise product of tables of one length.
pub open spec fn elementwise_product(ts: Seq<Seq<int>>) -> Seq<int> {
    Seq::new(ts[0].len(), |i: int| product_at(ts, i, ts.len()))
}

/// `0 + t[0] + t[1] + …` over the first `n` entries.
pub open spec fn sum_prefix(t: Seq<int>, n: nat) -> int
    decreases n,
{
    if n == 0 {
        0
    } else {
        fadd(sum_prefix(t, (n - 1) as nat), t[n - 1])
    }
}

pub open spec fn table_sum(t: Seq<int>) -> int {
    sum_prefix(t, t.len())
}

/// Every table with variable 0 fixed at `r`.
pub open spec fn fold_all(ts: Seq<Seq<int>>, r: int) -> Seq<Seq<int>> {
    Seq::new(ts.len(), |f: int| fold_first(ts[f], r))
}

/// The samples at `0, 1, …, d` of the round polynomial of a product of `d` tables:
/// at `i`, the sum over the remaining hypercube of the product with variable 0 at `i`.
pub open spec fn round_samples(ts: Seq<Seq<int>>) -> Seq<int> {
    Seq::new(ts.len() + 1, |i: int| table_sum(elementwise_product(fold_all(ts, i))))
}

/// Tables of one power-of-two length, at least one of them.
pub open spec fn same_shape(ts: Seq<Seq<int>>) -> bool {
    &&& ts.len() >= 1
    &&& is_pow2(ts[0].len() as int)
    &&& forall|f: int| 0 <= f < ts.len() ==> (#[trigger] ts[f]).len() == ts[0].len()
}

#[derive(Debug, Clone)]
pub struct ProductPoly {
    pub poly_array: Vec<MultiLinearPoly>,
}

pub(crate) fn sum_entries(t: &Vec<Fe>) -> (r: Fe)
    ensures
        r.val() == table_sum(vals(t@)),
{
    let mut acc = Fe::zero();
    let mut i: usize = 0;
    while i < t.len()
        invariant
            i <= t@.len(),
            acc.val() == sum_prefix(vals(t@), i as nat),
        decreases t@.len() - i,
    {
        acc = acc.add(t[i]);
        i = i + 1;
    }
    acc
}

impl ProductPoly {
    pub open spec fn tables(&self) -> Seq<Seq<int>> {
        Seq::new(self.poly_array@.len(), |f: int| self.poly_array@[f].table())
    }

    pub open spec fn well_formed(&self) -> bool {
        same_shape(self.tables()) && self.poly_array@.len() < usize::MAX
    }

    /// A product of factors that all have the same power-of-two length.
    pub fn new(poly_array: Vec<MultiLinearPoly>) -> (r: Self)
        requires
            poly_array@.len() >= 1,
            is_pow2(poly_array@[0].computation@.len() as int),
            forall|f: int|
                0 <= f < poly_array@.len() ==> (#[trigger] poly_array@[f]).computation@.len()
                    == poly_array@[0].computation@.len(),
        ensures
            r.poly_array@ == poly_array@,
    {
        ProductPoly { poly_array }
    }

    /// The number of factors.
    pub fn get_degree(&self) -> (r: usize)
        ensures
            r == self.poly_array@.len(),
    {
        self.poly_array.len()
    }

    /// Fixes variable `position` of every factor at `eval_value`.
    pub fn partial_evaluate(&self, eval_value: Fe, position: usize) -> (r: Self)
        requires
            self.well_formed(),
            position < log2(self.tables()[0].len() as int),
        ensures
            r.poly_array@.len() == self.poly_array@.len(),
            forall|f: int|
                0 <= f < self.poly_array@.len() ==> (#[trigger] r.tables()[f]) == crate::multilinear::partial_eval(
                    self.tables()[f],
                    eval_value.val(),
                    position as nat,
                ),
            r.well_formed(),
            r.tables()[0].len() == self.tables()[0].len() / 2,
    {
        let ghost ts = self.tables();
        let mut out: Vec<MultiLinearPoly> = Vec::new();
        let mut f: usize = 0;
        proof {
            lemma_pow2_half(ts[0].len() as int);
        }
        while f < self.poly_array.len()
            invariant
                ts == self.tables(),
                same_shape(ts),
                ts[0].len() >= 2,
                is_pow2(ts[0].len() as int / 2),
                position < log2(ts[0].len() as int),
                f <= ts.len(),
                out@.len() == f,
                forall|g: int|
                    0 <= g < f ==> (#[trigger] out@[g]).table() == crate::multilinear::partial_eval(
                        ts[g],
                        eval_value.val(),
                        position as nat,
                    ) && out@[g].computation@.len() == ts[0].len() / 2,
            decreases ts.len() - f,
        {
            assert(ts[f as int].len() == ts[0].len());
            assert(self.poly_array@[f as int].table() == ts[f as int]);
            let p = self.poly_array[f].partial_evaluate(eval_value, position);
            out.push(p);
            f = f + 1;
        }
        let r = ProductPoly { poly_array: out };
        assert(r.tables()[0].len() == ts[0].len() / 2);
        assert forall|g: int| 0 <= g < r.tables().len() implies (#[trigger] r.tables()[g]).len()
            == r.tables()[0].len() by {}
        r
    }

    /// The elementwise product of the factors' tables.
    fn reduce(&self) -> (r: Vec<Fe>)
        requires
            self.well_formed(),
        ensures
            vals(r@) == elementwise_product(self.tables()),
    {
        let ghost ts = self.tables();
        let n = self.poly_array[0].computation.len();
        let mut out: Vec<Fe> = Vec::new();
        let mut i: usize = 0;
        while i < n
            invariant
                ts == self.tables(),
                same_shape(ts),
                n == ts[0].len(),
                i <= n,
                vals(out@) =~= elementwise_product(ts).subrange(0, i as int),
            decreases n - i,
        {
            let mut acc = Fe::one();
            let mut f: usize = 0;
            while f < self.poly_array.len()
                invariant
                    ts == self.tables(),
                    same_shape(ts),
                    n == ts[0].len(),
                    i < n,
                    f <= ts.len(),
                    acc.val() == product_at(ts, i as int, f as nat),
                decreases ts.len() - f,
            {
                assert(ts[f as int].len() == n);
                assert(self.poly_array@[f as int].table()[i as int] == ts[f as int][i as int]);
                acc = acc.mul(self.poly_array[f].computation[i]);
                f = f + 1;
            }
            let ghost before = vals(out@);
            out.push(acc);
            assert(vals(out@) =~= before.push(acc.val()));
            i = i + 1;
        }
        out
    }

    /// The round polynomial's samples at `0, 1, …, d`, `d` being the number of factors.
    pub fn univariate_to_evaluation(&self) -> (r: Vec<Fe>)
        requires
            self.well_formed(),
            self.tables()[0].len() >= 2,
        ensures
            vals(r@) == round_samples(self.tables()),
    {
        let ghost ts = self.tables();
        let count = self.poly_array.len() + 1;
        let mut out: Vec<Fe> = Vec::new();
        let mut i: usize = 0;
        proof {
            crate::field::lemma_pow2_log(ts[0].len() as int);
        }
        while i < count
            invariant
                ts == self.tables(),
                self.well_formed(),
                ts[0].len() >= 2,
                count == ts.len() + 1,
                i <= count,
                vals(out@) =~= round_samples(ts).subrange(0, i as int),
            decreases count - i,
        {
            let point = Fe::from_u64(i as u64);
            assert(log2(ts[0].len() as int) > 0);
            let folded = self.partial_evaluate(point, 0);
            assert(folded.tables() =~= fold_all(ts, i as int));
            let prod = folded.reduce();
            let s = sum_entries(&prod);
            let ghost before = vals(out@);
            out.push(s);
            assert(vals(out@) =~= before.push(s.val()));
            i = i + 1;
        }
        out
    }
}

} // verus!
