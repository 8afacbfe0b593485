//! The radix-2 number-theoretic transform and its unscaled inverse.
use vstd::prelude::*;
use crate::field::{
    fadd, fmul, fpow, fsub, is_pow2, lemma_pow2_half, modulus, two_adic_bound, unity_root, Fe,
};
use crate::multilinear::vals;
use crate::univariate::{finv, lemma_inverse_unique};

verus! {

pub open spec fn evens(c: Seq<int>) -> Seq<int> {
    Seq::new(((c.len() + 1) / 2) as nat, |i: int| c[2 * i])
}

pub open spec fn odds(c: Seq<int>) -> Seq<int> {
    Seq::new((c.len() / 2) as nat, |i: int| c[2 * i + 1])
}

/// `y[i] = e[i] + wⁱ·o[i]` and `y[i + n/2] = e[i] - wⁱ·o[i]`.
pub open spec fn butterfly(e: Seq<int>, o: Seq<int>, w: int, n: nat) -> Seq<int> {
    Seq::new(
        n,
        |i: int|
            if i < n / 2 {
                fadd(e[i], fmul(fpow(w, i as nat), o[i]))
            } else {
                fsub(e[i - n / 2], fmul(fpow(w, (i - n / 2) as nat), o[i - n / 2]))
            },
    )
}

/// The root used at size `n`: the field's root of unity of order `n`, or its inverse.
pub open spec fn step_root(n: nat, inverse: bool) -> int {
    if inverse {
        finv(unity_root(n))
    } else {
        unity_root(n)
    }
}

/// The radix-2 transform: the transforms of the even and the odd coefficients joined by
/// a butterfly with the root of the current size.
pub open spec fn radix2(c: Seq<int>, inverse: bool) -> Seq<int>
    decreases c.len(),
{
    if c.len() <= 1 {
        c
    } else {
        butterfly(
            radix2(evens(c), inverse),
            radix2(odds(c), inverse),
            step_root(c.len(), inverse),
            c.len(),
        )
    }
}

proof fn lemma_pow_zero(n: nat)
    requires
        n >= 1,
    ensures
        fpow(0, n) == 0,
    decreases n,
{
    if n > 1 {
        lemma_pow_zero((n - 1) as nat);
    }
}

#[derive(Debug, Clone)]
pub struct FastFourierTransform {
    pub coefficients: Vec<Fe>,
}

impl FastFourierTransform {
    pub open spec fn values(&self) -> Seq<int> {
        vals(self.coefficients@)
    }

    pub fn new(coefficients: Vec<Fe>) -> (r: Self)
        ensures
            r.coefficients@ == coefficients@,
    {
        FastFourierTransform { coefficients }
    }

    fn is_power_of_two(&self) -> (r: bool)
        ensures
            r == is_pow2(self.coefficients@.len() as int),
    {
        crate::gkr::is_power_of_two(self.coefficients.len())
    }

    /// The coefficients at even and at odd positions.
    fn split_array(&self) -> (r: (Vec<Fe>, Vec<Fe>))
        ensures
            vals(r.0@) == evens(self.values()),
            vals(r.1@) == odds(self.values()),
    {
        let mut even: Vec<Fe> = Vec::new();
        let mut odd: Vec<Fe> = Vec::new();
        let ghost c = self.values();
        let mut i: usize = 0;
        while i < self.coefficients.len()
            invariant
                c == self.values(),
                i <= c.len(),
                vals(even@) =~= evens(c).subrange(0, ((i + 1) / 2) as int),
                vals(odd@) =~= odds(c).subrange(0, (i / 2) as int),
            decreases c.len() - i,
        {
            let v = self.coefficients[i];
            if i % 2 == 0 {
                let ghost before = vals(even@);
                even.push(v);
                assert(vals(even@) =~= before.push(v.val()));
            } else {
                let ghost before = vals(odd@);
                odd.push(v);
                assert(vals(odd@) =~= before.push(v.val()));
            }
            i = i + 1;
        }
        (even, odd)
    }

    /// Joins the halves' transforms with powers of `w`.
    fn combine(y_even: &Vec<Fe>, y_odd: &Vec<Fe>, w: Fe, n: usize) -> (r: Vec<Fe>)
        requires
            n >= 2,
            n % 2 == 0,
            y_even@.len() == n / 2,
            y_odd@.len() == n / 2,
        ensures
            vals(r@) == butterfly(vals(y_even@), vals(y_odd@), w.val(), n as nat),
    {
        let h = n / 2;
        let mut y: Vec<Fe> = Vec::new();
        let mut k: usize = 0;
        while k < n
            invariant
                k <= n,
                y@.len() == k,
            decreases n - k,
        {
            y.push(Fe::zero());
            k = k + 1;
        }
        let ghost e = vals(y_even@);
        let ghost o = vals(y_odd@);
        let ghost want = butterfly(e, o, w.val(), n as nat);
        let mut i: usize = 0;
        while i < h
            invariant
                h == n / 2,
                n % 2 == 0,
                e == vals(y_even@),
                o == vals(y_odd@),
                want == butterfly(e, o, w.val(), n as nat),
                y_even@.len() == h,
                y_odd@.len() == h,
                y@.len() == n,
                i <= h,
                forall|j: int| 0 <= j < i ==> (#[trigger] y@[j]).val() == want[j],
                forall|j: int| 0 <= j < i ==> (#[trigger] y@[j + h]).val() == want[j + h],
            decreases h - i,
        {
            let t = w.pow(i as u64).mul(y_odd[i]);
            y.set(i, y_even[i].add(t));
            y.set(i + h, y_even[i].sub(t));
            i = i + 1;
        }
        assert forall|j: int| 0 <= j < n implies (#[trigger] vals(y@)[j]) == want[j] by {
            if j >= h {
                assert(y@[(j - h) + h].val() == want[(j - h) + h]);
            }
        }
        assert(vals(y@) =~= want);
        y
    }

    fn transform(&self, inverse: bool) -> (r: Self)
        requires
            is_pow2(self.coefficients@.len() as int),
            self.coefficients@.len() <= two_adic_bound(),
        ensures
            r.values() == radix2(self.values(), inverse),
            r.coefficients@.len() == self.coefficients@.len(),
        decreases self.coefficients@.len(),
    {
        let n = self.coefficients.len();
        let root = Fe::root_of_unity(n as u64);
        let w0 = match root {
            Some(w) => w,
            None => {
                return FastFourierTransform { coefficients: crate::bytes::copy_fes(self.coefficients.as_slice()) };
            },
        };
        let w = if inverse {
            proof {
                if w0.val() == 0 {
                    lemma_pow_zero(n as nat);
                }
            }
            match w0.inverse() {
                Some(i) => {
                    proof {
                        lemma_inverse_unique(w0.val(), i.val());
                    }
                    i
                },
                None => {
                    return FastFourierTransform { coefficients: crate::bytes::copy_fes(self.coefficients.as_slice()) };
                },
            }
        } else {
            w0
        };
        if n == 1 {
            return FastFourierTransform { coefficients: crate::bytes::copy_fes(self.coefficients.as_slice()) };
        }
        proof {
            lemma_pow2_half(n as int);
        }
        let (even, odd) = self.split_array();
        assert(vals(even@).len() == even@.len() && vals(odd@).len() == odd@.len());
        let y_even = FastFourierTransform::new(even).transform(inverse);
        let y_odd = FastFourierTransform::new(odd).transform(inverse);
        let y = FastFourierTransform::combine(&y_even.coefficients, &y_odd.coefficients, w, n);
        assert(vals(y@).len() == y@.len());
        FastFourierTransform { coefficients: y }
    }

    /// The forward transform: coefficients to values on the subgroup of order `len`.
    pub fn evaluate(&self) -> (r: Self)
        requires
            is_pow2(self.coefficients@.len() as int),
            self.coefficients@.len() <= two_adic_bound(),
        ensures
            r.values() == radix2(self.values(), false),
    {
        self.transform(false)
    }

    /// The same transform with the inverse roots; it does not divide by the length.
    pub fn interpolation(&self) -> (r: Self)
        requires
            is_pow2(self.coefficients@.len() as int),
            self.coefficients@.len() <= two_adic_bound(),
        ensures
            r.values() == radix2(self.values(), true),
    {
        self.transform(true)
    }

    /// The inverse transform: the transform with the inverse roots, not divided by the
    /// length, so that on the forward transform of `c` it gives `n·c`.
    pub fn interpolate(&self) -> (r: Self)
        requires
            is_pow2(self.coefficients@.len() as int),
            self.coefficients@.len() <= two_adic_bound(),
        ensures
            r.values() == radix2(self.values(), true),
    {
        self.transform(true)
    }

    /// The inverse transform divided by the length, which recovers the coefficients.
    pub fn interpolate_scaled(&self) -> (r: Self)
        requires
            is_pow2(self.coefficients@.len() as int),
            self.coefficients@.len() <= two_adic_bound(),
        ensures
            r.values() == Seq::new(
                self.coefficients@.len(),
                |i: int| fmul(radix2(self.values(), true)[i], finv(self.coefficients@.len() as int)),
            ),
    {
        let n = self.coefficients.len();
        let y = self.transform(true);
        let nf = Fe::from_u64(n as u64);
        let inv = match nf.inverse() {
            Some(i) => i,
            None => {
                return FastFourierTransform { coefficients: crate::bytes::copy_fes(self.coefficients.as_slice()) };
            },
        };
        proof {
            lemma_inverse_unique(n as int, inv.val());
        }
        let ghost ys = y.values();
        let mut out: Vec<Fe> = Vec::new();
        let mut i: usize = 0;
        while i < n
            invariant
                n == y.coefficients@.len(),
                ys == y.values(),
                i <= n,
                vals(out@) =~= Seq::new(n as nat, |j: int| fmul(ys[j], inv.val())).subrange(0, i as int),
            decreases n - i,
        {
            let v = y.coefficients[i].mul(inv);
            let ghost before = vals(out@);
            out.push(v);
            assert(vals(out@) =~= before.push(v.val()));
            i = i + 1;
        }
        FastFourierTransform { coefficients: out }
    }
}

} // verus!
