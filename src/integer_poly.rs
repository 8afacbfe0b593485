//! Evaluation of small integer polynomials in dense and sparse form.
use vstd::prelude::*;

verus! {

pub open spec fn upow(x: int, n: nat) -> int
    decreases n,
{
    if n == 0 {
        1
    } else {
        x * upow(x, (n - 1) as nat)
    }
}

/// `a[0] + a[1]·x + … + a[n-1]·x^(n-1)`.
pub open spec fn dense_value(a: Seq<u32>, x: int, n: nat) -> int
    decreases n,
{
    if n == 0 {
        0
    } else {
        dense_value(a, x, (n - 1) as nat) + a[n - 1] * upow(x, (n - 1) as nat)
    }
}

/// `Σ c·x^e` over the first `n` pairs `(c, e)`.
pub open spec fn sparse_value(t: Seq<(u32, u32)>, x: int, n: nat) -> int
    decreases n,
{
    if n == 0 {
        0
    } else {
        sparse_value(t, x, (n - 1) as nat) + t[n - 1].0 * upow(x, t[n - 1].1 as nat)
    }
}

proof fn lemma_upow_nonneg(x: int, n: nat)
    requires
        x >= 0,
    ensures
        upow(x, n) >= 0,
    decreases n,
{
    if n > 0 {
        lemma_upow_nonneg(x, (n - 1) as nat);
        vstd::arithmetic::mul::lemma_mul_nonnegative(x, upow(x, (n - 1) as nat));
    }
}

proof fn lemma_upow_monotone(x: int, i: nat, j: nat)
    requires
        x >= 1,
        i <= j,
    ensures
        upow(x, i) <= upow(x, j),
    decreases j,
{
    if i < j {
        lemma_upow_monotone(x, i, (j - 1) as nat);
        lemma_upow_nonneg(x, (j - 1) as nat);
        vstd::arithmetic::mul::lemma_mul_inequality(1, x, upow(x, (j - 1) as nat));
    }
}

proof fn lemma_dense_monotone(a: Seq<u32>, x: int, i: nat, j: nat)
    requires
        x >= 0,
        i <= j,
    ensures
        dense_value(a, x, i) <= dense_value(a, x, j),
    decreases j,
{
    if i < j {
        lemma_dense_monotone(a, x, i, (j - 1) as nat);
        lemma_upow_nonneg(x, (j - 1) as nat);
        vstd::arithmetic::mul::lemma_mul_nonnegative(a[j - 1] as int, upow(x, (j - 1) as nat));
    }
}

proof fn lemma_sparse_monotone(t: Seq<(u32, u32)>, x: int, i: nat, j: nat)
    requires
        x >= 0,
        i <= j,
    ensures
        sparse_value(t, x, i) <= sparse_value(t, x, j),
    decreases j,
{
    if i < j {
        lemma_sparse_monotone(t, x, i, (j - 1) as nat);
        lemma_upow_nonneg(x, t[j - 1].1 as nat);
        vstd::arithmetic::mul::lemma_mul_nonnegative(t[j - 1].0 as int, upow(x, t[j - 1].1 as nat));
    }
}

/// `x` to the power `e`.
fn pow_u32(x: u32, e: u32) -> (r: u32)
    requires
        upow(x as int, e as nat) <= u32::MAX,
    ensures
        r == upow(x as int, e as nat),
{
    let mut p: u32 = 1;
    let mut i: u32 = 0;
    while i < e
        invariant
            i <= e,
            p == upow(x as int, i as nat),
            upow(x as int, e as nat) <= u32::MAX,
        decreases e - i,
    {
        proof {
            if x >= 1 {
                lemma_upow_monotone(x as int, (i + 1) as nat, e as nat);
            } else {
                assert(upow(x as int, (i + 1) as nat) == 0);
            }
            lemma_upow_nonneg(x as int, (i + 1) as nat);
        }
        p = x * p;
        i = i + 1;
    }
    p
}

/// Evaluates `a[0] + a[1]·x + …` at `x`; the powers of `x` that it forms and the sum fit in a `u32`.
pub fn dense_repr(x: u32, dense_array: Vec<u32>) -> (r: u32)
    requires
        dense_array@.len() <= u32::MAX,
        dense_array@.len() > 0 ==> upow(x as int, (dense_array@.len() - 1) as nat) <= u32::MAX,
        dense_value(dense_array@, x as int, dense_array@.len()) <= u32::MAX,
    ensures
        r == dense_value(dense_array@, x as int, dense_array@.len()),
{
    let n = dense_array.len();
    let mut acc: u32 = 0;
    let mut i: usize = 0;
    while i < n
        invariant
            n == dense_array@.len(),
            n <= u32::MAX,
            i <= n,
            acc == dense_value(dense_array@, x as int, i as nat),
            n > 0 ==> upow(x as int, (n - 1) as nat) <= u32::MAX,
            dense_value(dense_array@, x as int, n as nat) <= u32::MAX,
        decreases n - i,
    {
        proof {
            if x >= 1 {
                lemma_upow_monotone(x as int, i as nat, (n - 1) as nat);
            } else if i > 0 {
                assert(upow(x as int, i as nat) == 0);
            }
            lemma_dense_monotone(dense_array@, x as int, (i + 1) as nat, n as nat);
            lemma_dense_monotone(dense_array@, x as int, i as nat, (i + 1) as nat);
            assert(dense_value(dense_array@, x as int, (i + 1) as nat) == dense_value(
                dense_array@,
                x as int,
                i as nat,
            ) + dense_array@[i as int] * upow(x as int, i as nat));
        }
        let p = pow_u32(x, i as u32);
        acc = acc + dense_array[i] * p;
        i = i + 1;
    }
    acc
}

/// Evaluates `Σ c·x^e` over the pairs `(c, e)` at `x`; each power and the sum fit in a `u32`.
pub fn sparse_repr(x: u32, sparse_array: Vec<(u32, u32)>) -> (r: u32)
    requires
        forall|i: int|
            0 <= i < sparse_array@.len() ==> upow(x as int, (#[trigger] sparse_array@[i]).1 as nat)
                <= u32::MAX,
        sparse_value(sparse_array@, x as int, sparse_array@.len()) <= u32::MAX,
    ensures
        r == sparse_value(sparse_array@, x as int, sparse_array@.len()),
{
    let n = sparse_array.len();
    let mut result: u32 = 0;
    let mut i: usize = 0;
    while i < n
        invariant
            n == sparse_array@.len(),
            i <= n,
            result == sparse_value(sparse_array@, x as int, i as nat),
            forall|k: int|
                0 <= k < n ==> upow(x as int, (#[trigger] sparse_array@[k]).1 as nat) <= u32::MAX,
            sparse_value(sparse_array@, x as int, n as nat) <= u32::MAX,
        decreases n - i,
    {
        let (x_i, y_i) = sparse_array[i];
        proof {
            assert(upow(x as int, sparse_array@[i as int].1 as nat) <= u32::MAX);
            lemma_sparse_monotone(sparse_array@, x as int, (i + 1) as nat, n as nat);
            lemma_sparse_monotone(sparse_array@, x as int, i as nat, (i + 1) as nat);
            assert(sparse_value(sparse_array@, x as int, (i + 1) as nat) == sparse_value(
                sparse_array@,
                x as int,
                i as nat,
            ) + x_i * upow(x as int, y_i as nat));
        }
        let p = pow_u32(x, y_i);
        result = result + x_i * p;
        i = i + 1;
    }
    result
}

} // verus!
