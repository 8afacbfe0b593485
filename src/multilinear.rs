//! Multilinear polynomials given by their values on the Boolean hypercube.
//!
//! A table of length `2^v` holds the values at the points of `{0,1}^v`; variable 0
//! is the most significant bit of the index.
use vstd::prelude::*;
use crate::bytes::append_bytes;
use crate::field::{
    be_bytes, fadd, fmul, fsub, is_pow2, lemma_combination_congruent, lemma_fold_value,
    lemma_log2_le, lemma_pow2_half, lemma_pow2_log, log2, modulus, two_pow, Fe,
};

verus! {

/// The values of a vector of field elements.
pub open spec fn vals(s: Seq<Fe>) -> Seq<int> {
    Seq::new(s.len(), |i: int| s[i].val())
}

/// Fixes variable 0 at `r`: `t[k] + (t[k + h] - t[k])·r` for `k < h = len/2`.
pub open spec fn fold_first(t: Seq<int>, r: int) -> Seq<int> {
    Seq::new(t.len() / 2, |k: int| fadd(t[k], fmul(fsub(t[k + t.len() / 2], t[k]), r)))
}

/// Fixes variable `j` at `r`: variable `j` of a table is variable `j - 1` of each half.
pub open spec fn partial_eval(t: Seq<int>, r: int, j: nat) -> Seq<int>
    decreases j,
{
    if j == 0 {
        fold_first(t, r)
    } else {
        partial_eval(t.subrange(0, (t.len() / 2) as int), r, (j - 1) as nat) + partial_eval(
            t.subrange((t.len() / 2) as int, t.len() as int),
            r,
            (j - 1) as nat,
        )
    }
}

/// Fixes the variables one after another, from variable 0.
pub open spec fn mle_fold(t: Seq<int>, rs: Seq<int>) -> int
    decreases rs.len(),
{
    if rs.len() == 0 {
        t[0]
    } else {
        mle_fold(fold_first(t, rs[0]), rs.drop_first())
    }
}

/// The multilinear Lagrange extension of table `t` at `rs`, over the integers:
/// `(1 - x₀)·ext(low half) + x₀·ext(high half)`.
pub open spec fn mle_lagrange(t: Seq<int>, rs: Seq<int>) -> int
    decreases rs.len(),
{
    if rs.len() == 0 {
        t[0]
    } else {
        (1 - rs[0]) * mle_lagrange(t.subrange(0, (t.len() / 2) as int), rs.drop_first()) + rs[0]
            * mle_lagrange(t.subrange((t.len() / 2) as int, t.len() as int), rs.drop_first())
    }
}

/// The concatenated 32-byte big-endian encodings of a table.
pub open spec fn table_bytes(t: Seq<int>) -> Seq<u8>
    decreases t.len(),
{
    if t.len() == 0 {
        Seq::empty()
    } else {
        table_bytes(t.drop_last()) + be_bytes(t.last(), 32)
    }
}

pub open spec fn in_field(t: Seq<int>) -> bool {
    forall|i: int| 0 <= i < t.len() ==> 0 <= #[trigger] t[i] < modulus()
}

#[derive(Debug, Clone)]
pub struct MultiLinearPoly {
    pub computation: Vec<Fe>,
}

/// Fixes variable 0 of a table at `r`.
pub fn fold_table(t: &[Fe], r: Fe) -> (res: Vec<Fe>)
    ensures
        vals(res@) == fold_first(vals(t@), r.val()),
{
    let h = t.len() / 2;
    let mut res: Vec<Fe> = Vec::new();
    let mut k: usize = 0;
    while k < h
        invariant
            h == t@.len() / 2,
            k <= h,
            vals(res@) =~= fold_first(vals(t@), r.val()).subrange(0, k as int),
        decreases h - k,
    {
        let y0 = t[k];
        let y1 = t[k + h];
        let v = y0.add(y1.sub(y0).mul(r));
        let ghost before = vals(res@);
        res.push(v);
        assert(vals(res@) =~= before.push(v.val()));
        k = k + 1;
    }
    res
}

fn partial_eval_slice(t: &[Fe], r: Fe, j: usize) -> (res: Vec<Fe>)
    requires
        is_pow2(t@.len() as int),
        j < log2(t@.len() as int),
    ensures
        vals(res@) == partial_eval(vals(t@), r.val(), j as nat),
        res@.len() == t@.len() / 2,
    decreases j,
{
    proof {
        lemma_pow2_half(t@.len() as int);
    }
    if j == 0 {
        let res = fold_table(t, r);
        assert(vals(res@).len() == res@.len());
        res
    } else {
        let h = t.len() / 2;
        let (lo, hi) = t.split_at(h);
        proof {
            assert(lo@.len() == h && hi@.len() == h);
        }
        proof {
            lemma_pow2_half(h as int);
        }
        let mut a = partial_eval_slice(lo, r, j - 1);
        let b = partial_eval_slice(hi, r, j - 1);
        let ghost va = vals(a@);
        let mut i: usize = 0;
        while i < b.len()
            invariant
                i <= b@.len(),
                vals(a@) =~= va + vals(b@).subrange(0, i as int),
            decreases b@.len() - i,
        {
            let ghost before = vals(a@);
            a.push(b[i]);
            assert(vals(a@) =~= before.push(b@[i as int].val()));
            i = i + 1;
        }
        assert(vals(lo@) =~= vals(t@).subrange(0, (vals(t@).len() / 2) as int));
        assert(vals(hi@) =~= vals(t@).subrange((vals(t@).len() / 2) as int, vals(t@).len() as int));
        assert(vals(b@).subrange(0, b@.len() as int) =~= vals(b@));
        assert(vals(a@).len() == a@.len());
        a
    }
}

impl MultiLinearPoly {
    pub open spec fn table(&self) -> Seq<int> {
        vals(self.computation@)
    }

    pub open spec fn well_formed(&self) -> bool {
        is_pow2(self.computation@.len() as int)
    }

    /// A polynomial from its table, whose length must be a power of two.
    pub fn new(computation: Vec<Fe>) -> (r: Self)
        requires
            is_pow2(computation@.len() as int),
        ensures
            r.computation@ == computation@,
    {
        MultiLinearPoly { computation }
    }

    /// The number of variables: the logarithm of the table's length.
    pub fn variable_count(&self) -> (r: usize)
        requires
            self.well_formed(),
        ensures
            r == log2(self.computation@.len() as int),
    {
        let n = self.computation.len();
        let mut m = n;
        let mut c: usize = 0;
        proof {
            lemma_pow2_log(n as int);
            lemma_log2_le(n as int);
        }
        while m > 1
            invariant
                1 <= m <= n,
                is_pow2(m as int),
                c + log2(m as int) == log2(n as int),
                log2(n as int) < n,
            decreases m,
        {
            proof {
                lemma_pow2_half(m as int);
            }
            m = m / 2;
            c = c + 1;
        }
        c
    }

    /// Fixes variable `position` at `eval_value`, halving the table.
    pub fn partial_evaluate(&self, eval_value: Fe, position: usize) -> (r: Self)
        requires
            self.well_formed(),
            position < log2(self.computation@.len() as int),
        ensures
            r.table() == partial_eval(self.table(), eval_value.val(), position as nat),
            r.computation@.len() == self.computation@.len() / 2,
            r.well_formed(),
    {
        proof {
            lemma_pow2_half(self.computation@.len() as int);
        }
        MultiLinearPoly { computation: partial_eval_slice(self.computation.as_slice(), eval_value, position) }
    }

    /// Fixes every variable, from variable 0: a table of length one holding the value.
    pub fn evaluate(&self, eval_points: Vec<Fe>) -> (r: Self)
        requires
            self.well_formed(),
            eval_points@.len() == log2(self.computation@.len() as int),
        ensures
            r.computation@.len() == 1,
            r.table()[0] == mle_fold(self.table(), vals(eval_points@)),
    {
        let ghost rs = vals(eval_points@);
        let mut cur: Vec<Fe> = crate::bytes::copy_fes(self.computation.as_slice());
        let mut i: usize = 0;
        assert(rs.subrange(0, rs.len() as int) =~= rs);
        while i < eval_points.len()
            invariant
                rs == vals(eval_points@),
                i <= rs.len(),
                is_pow2(cur@.len() as int),
                log2(cur@.len() as int) == rs.len() - i,
                mle_fold(self.table(), rs) == mle_fold(vals(cur@), rs.subrange(i as int, rs.len() as int)),
            decreases rs.len() - i,
        {
            proof {
                lemma_pow2_half(cur@.len() as int);
                let rest = rs.subrange(i as int, rs.len() as int);
                assert(rest.drop_first() =~= rs.subrange(i + 1, rs.len() as int));
            }
            let next = fold_table(cur.as_slice(), eval_points[i]);
            assert(vals(next@).len() == next@.len());
            cur = next;
            i = i + 1;
        }
        proof {
            lemma_pow2_log(cur@.len() as int);
        }
        MultiLinearPoly { computation: cur }
    }

    /// The concatenated 32-byte big-endian encodings of a table.
    pub fn to_bytes(computation: &[Fe]) -> (r: Vec<u8>)
        ensures
            r@ == table_bytes(vals(computation@)),
    {
        let mut r: Vec<u8> = Vec::new();
        let mut i: usize = 0;
        while i < computation.len()
            invariant
                i <= computation@.len(),
                r@ == table_bytes(vals(computation@.subrange(0, i as int))),
            decreases computation@.len() - i,
        {
            let b = computation[i].to_bytes_be();
            append_bytes(&mut r, b.as_slice());
            assert(vals(computation@.subrange(0, i + 1)).drop_last() =~= vals(
                computation@.subrange(0, i as int),
            ));
            i = i + 1;
        }
        assert(computation@.subrange(0, computation@.len() as int) =~= computation@);
        r
    }
}

/// The table of a multilinear extension is linear: folding two tables with the same
/// weights and then extending gives the same weighted combination of the extensions.
proof fn lemma_lagrange_linear(a: Seq<int>, b: Seq<int>, c: Seq<int>, r: int, rs: Seq<int>)
    requires
        a.len() == two_pow(rs.len()),
        b.len() == a.len(),
        c.len() == a.len(),
        forall|i: int| 0 <= i < c.len() ==> #[trigger] c[i] % modulus() == (a[i] + (b[i] - a[i]) * r) % modulus(),
    ensures
        mle_lagrange(c, rs) % modulus() == (mle_lagrange(a, rs) + (mle_lagrange(b, rs) - mle_lagrange(a, rs)) * r)
            % modulus(),
    decreases rs.len(),
{
    if rs.len() == 0 {
        assert(c[0] % modulus() == (a[0] + (b[0] - a[0]) * r) % modulus());
    } else {
        let h = a.len() / 2;
        let n = a.len() as int;
        let x = rs[0];
        let rest = rs.drop_first();
        lemma_lagrange_linear(a.subrange(0, h as int), b.subrange(0, h as int), c.subrange(0, h as int), r, rest);
        lemma_lagrange_linear(a.subrange(h as int, n), b.subrange(h as int, n), c.subrange(h as int, n), r, rest);
        let al = mle_lagrange(a.subrange(0, h as int), rest);
        let ah = mle_lagrange(a.subrange(h as int, n), rest);
        let bl = mle_lagrange(b.subrange(0, h as int), rest);
        let bh = mle_lagrange(b.subrange(h as int, n), rest);
        let cl = mle_lagrange(c.subrange(0, h as int), rest);
        let ch = mle_lagrange(c.subrange(h as int, n), rest);
        lemma_combination_congruent(cl, al + (bl - al) * r, ch, ah + (bh - ah) * r, x);
        assert((1 - x) * (al + (bl - al) * r) + x * (ah + (bh - ah) * r) == ((1 - x) * al + x * ah) + (
        ((1 - x) * bl + x * bh) - ((1 - x) * al + x * ah)) * r) by (nonlinear_arith);
    }
}

/// Evaluating a multilinear polynomial, one variable after another, gives its
/// multilinear Lagrange extension at the point, reduced modulo the field's prime.
pub proof fn lemma_evaluate_is_lagrange(t: Seq<int>, rs: Seq<int>)
    requires
        t.len() == two_pow(rs.len()),
        in_field(t),
    ensures
        mle_fold(t, rs) == mle_lagrange(t, rs) % modulus(),
    decreases rs.len(),
{
    if rs.len() == 0 {
        vstd::arithmetic::div_mod::lemma_small_mod(t[0] as nat, modulus() as nat);
    } else {
        let x = rs[0];
        let rest = rs.drop_first();
        let h = t.len() / 2;
        let n = t.len() as int;
        let f = fold_first(t, x);
        let lo = t.subrange(0, h as int);
        let hi = t.subrange(h as int, n);
        assert forall|i: int| 0 <= i < f.len() implies 0 <= #[trigger] f[i] < modulus() by {}
        lemma_evaluate_is_lagrange(f, rest);
        assert forall|i: int| 0 <= i < f.len() implies #[trigger] f[i] % modulus() == (lo[i] + (hi[i]
            - lo[i]) * x) % modulus() by {
            lemma_fold_value(lo[i], hi[i], x);
            vstd::arithmetic::div_mod::lemma_small_mod(f[i] as nat, modulus() as nat);
        }
        lemma_lagrange_linear(lo, hi, f, x, rest);
        let l = mle_lagrange(lo, rest);
        let u = mle_lagrange(hi, rest);
        assert(l + (u - l) * x == (1 - x) * l + x * u) by (nonlinear_arith);
    }
}

/// A polynomial of no variables is its single stored value.
pub proof fn lemma_evaluate_no_variables(t: Seq<int>)
    requires
        t.len() == 1,
    ensures
        mle_fold(t, Seq::empty()) == t[0],
{
}

} // verus!
