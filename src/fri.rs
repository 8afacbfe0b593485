//! FRI: a low-degree proof by repeated folding of evaluations, committed with Merkle
//! trees whose leaves are the decimal strings of the values.
use vstd::prelude::*;
use crate::fft::FastFourierTransform;
use crate::field::{
    decimal_digits, fadd, fmul, fpow, fsub, is_pow2, lemma_pow2_half, log2, two_adic_bound,
    two_pow, unity_root, Fe,
};
use crate::merkle_tree::{
    fold_path, layers_well_formed, leaf_hashes, merkle_root, nodes_view, sha256, slices_view, MerkleProof,
    MerkleTree,
};
use crate::multilinear::{vals, MultiLinearPoly};
use crate::sum_check::ProofError;
use crate::transcript::{challenge_of, keccak256, Transcript};
use crate::univariate::{coeff, finv, lemma_inverse_unique};

verus! {

pub struct FRIProtocol {
    pub poly: Vec<Fe>,
    pub blowup_factor: usize,
    pub max_degree: usize,
}

pub struct FRIProof {
    pub root_hashes: Vec<Vec<u8>>,
    pub final_poly: Vec<Fe>,
    pub values_at_index: Vec<Fe>,
    pub values_at_neg_index: Vec<Fe>,
    pub merkle_trees: Vec<MerkleTree>,
    pub proofs_at_index: Vec<MerkleProof>,
    pub proofs_at_neg_index: Vec<MerkleProof>,
    pub claimed_sums: Vec<Fe>,
}

/// The next round's value from `f(x)` and `f(-x)`:
/// `(f(x) + f(-x))/2 + r·(f(x) - f(-x))/(2x)`.
pub open spec fn fold_value(fx: int, fnx: int, r: int, x: int) -> int {
    fadd(fmul(fadd(fx, fnx), finv(2)), fmul(r, fmul(fsub(fx, fnx), finv(fadd(x, x)))))
}

/// Folds a table of evaluations on the subgroup generated by `w` to half its size.
pub open spec fn fold_evals(f: Seq<int>, r: int, w: int) -> Seq<int> {
    Seq::new(f.len() / 2, |i: int| fold_value(f[i], f[i + f.len() / 2], r, fpow(w, i as nat)))
}

/// Folds the coefficients: `even[i] + r·odd[i]`.
pub open spec fn fold_coefficients(c: Seq<int>, r: int) -> Seq<int> {
    if c.len() == 1 {
        c
    } else {
        Seq::new(c.len() / 2, |i: int| fadd(c[2 * i], fmul(r, c[2 * i + 1])))
    }
}

/// The decimal strings of the values, as Merkle leaves.
pub open spec fn decimal_leaves(e: Seq<Fe>) -> Seq<Seq<u8>> {
    Seq::new(e.len(), |i: int| decimal_digits(e[i].val() as nat))
}

/// The decimal strings of a table's values, as Merkle leaves.
pub open spec fn int_leaves(t: Seq<int>) -> Seq<Seq<u8>> {
    Seq::new(t.len(), |i: int| decimal_digits(t[i] as nat))
}

/// The Merkle root that commits to a table.
pub open spec fn table_root(t: Seq<int>) -> Seq<u8> {
    merkle_root(leaf_hashes(int_leaves(t)))
}

/// The honest prover's `n` commit-and-fold rounds from table `f` on the subgroup
/// generated by `w`, with transcript state `state`: the roots committed, and the table
/// left after the last fold.
pub open spec fn fri_rounds(f: Seq<int>, state: Seq<u8>, w: int, n: nat) -> (Seq<Seq<u8>>, Seq<int>)
    decreases n,
{
    if n == 0 {
        (Seq::empty(), f)
    } else {
        let root = table_root(f);
        let s1 = state + root;
        let rest = fri_rounds(fold_evals(f, challenge_of(s1), w), s1 + keccak256(s1), fmul(w, w), (n - 1) as nat);
        (seq![root] + rest.0, rest.1)
    }
}

/// The honest prover's tables: the table of each of the `n` rounds, then the final one.
pub open spec fn fri_tables(f: Seq<int>, state: Seq<u8>, w: int, n: nat) -> Seq<Seq<int>>
    decreases n,
{
    if n == 0 {
        seq![f]
    } else {
        let s1 = state + table_root(f);
        seq![f] + fri_tables(fold_evals(f, challenge_of(s1), w), s1 + keccak256(s1), fmul(w, w), (n - 1) as nat)
    }
}

/// The transcript state after the honest prover's `n` rounds.
pub open spec fn fri_end_state(f: Seq<int>, state: Seq<u8>, w: int, n: nat) -> Seq<u8>
    decreases n,
{
    if n == 0 {
        state
    } else {
        let s1 = state + table_root(f);
        fri_end_state(fold_evals(f, challenge_of(s1), w), s1 + keccak256(s1), fmul(w, w), (n - 1) as nat)
    }
}

/// The query index: the low 64 bits of the challenge squeezed after the last round,
/// reduced modulo the polynomial's length.
pub open spec fn query_index(end_state: Seq<u8>, len: int) -> int {
    (challenge_of(end_state) % 0x1_0000_0000_0000_0000int) % len
}

pub open spec fn tables_view(all: Seq<Vec<Fe>>) -> Seq<Seq<int>> {
    Seq::new(all.len(), |i: int| vals(all[i]@))
}

/// The values, positions and claimed sum recorded for round `k` of `n` at query index `q`.
pub open spec fn recorded_parts(
    va: Seq<Fe>,
    vn: Seq<Fe>,
    pa: Seq<MerkleProof>,
    pb: Seq<MerkleProof>,
    claimed: Seq<Fe>,
    n: int,
    tables: Seq<Seq<int>>,
    q: int,
    k: int,
) -> bool {
    let d = tables[k].len() as int;
    let i1 = q % d;
    let i2 = (i1 + d / 2) % d;
    &&& va[k].val() == tables[k][i1]
    &&& vn[k].val() == tables[k][i2]
    &&& pa[k].leaf_index == i1
    &&& pb[k].leaf_index == i2
    &&& k + 1 < n ==> claimed[k].val() == tables[k + 1][q % (tables[k + 1].len() as int)]
}

/// The values, positions and claimed sums recorded for round `k` at query index `q`.
pub open spec fn recorded_round(pf: FRIProof, tables: Seq<Seq<int>>, q: int, k: int) -> bool {
    recorded_parts(
        pf.values_at_index@,
        pf.values_at_neg_index@,
        pf.proofs_at_index@,
        pf.proofs_at_neg_index@,
        pf.claimed_sums@,
        pf.root_hashes@.len() as int,
        tables,
        q,
        k,
    )
}

/// The checks of round `k` on the parts of a proof, from transcript state `state`,
/// with `w` the generator of the round's domain: both values are in the committed
/// tree, and folding them with the round's challenge at `x = w^leaf_index` gives the
/// next round's claimed value, or at the last round the final constant.
pub open spec fn round_ok_parts(
    va: Seq<Fe>,
    vn: Seq<Fe>,
    pa: Seq<MerkleProof>,
    pb: Seq<MerkleProof>,
    roots: Seq<Seq<u8>>,
    claimed: Seq<Fe>,
    fin: Seq<Fe>,
    k: nat,
    state: Seq<u8>,
    w: int,
) -> bool {
    let n = roots.len();
    let fx = va[k as int].val();
    let fnx = vn[k as int].val();
    let root = roots[k as int];
    let s1 = state + root;
    let x = fpow(w, pa[k as int].leaf_index as nat);
    let target = if k + 1 < n {
        claimed[k as int].val()
    } else {
        fin[0].val()
    };
    &&& fold_path(sha256(decimal_digits(fx as nat)), pa[k as int].leaf_index as int, nodes_view(pa[k as int].siblings@))
        == root
    &&& fold_path(sha256(decimal_digits(fnx as nat)), pb[k as int].leaf_index as int, nodes_view(pb[k as int].siblings@))
        == root
    &&& fadd(x, x) != 0
    &&& fold_value(fx, fnx, challenge_of(s1), x) == target
}

/// The checks of round `k` from transcript state `state`, with `w` the generator of
/// the round's domain.
pub open spec fn round_ok(pf: FRIProof, k: nat, state: Seq<u8>, w: int) -> bool {
    round_ok_parts(
        pf.values_at_index@,
        pf.values_at_neg_index@,
        pf.proofs_at_index@,
        pf.proofs_at_neg_index@,
        nodes_view(pf.root_hashes@),
        pf.claimed_sums@,
        pf.final_poly@,
        k,
        state,
        w,
    )
}

/// The transcript state before round `k`, given the committed roots.
pub open spec fn round_state(roots: Seq<Seq<u8>>, k: nat) -> Seq<u8>
    decreases k,
{
    if k == 0 {
        Seq::empty()
    } else {
        let s1 = round_state(roots, (k - 1) as nat) + roots[k - 1];
        s1 + keccak256(s1)
    }
}

/// The generator of round `k`'s domain: `w0` squared `k` times.
pub open spec fn round_root(w0: int, k: nat) -> int
    decreases k,
{
    if k == 0 {
        w0
    } else {
        fmul(round_root(w0, (k - 1) as nat), round_root(w0, (k - 1) as nat))
    }
}

/// Checks of every round from `k` on give acceptance from round `k`.
proof fn lemma_rounds_from_checks(pf: FRIProof, w0: int, k: nat)
    requires
        k <= pf.root_hashes@.len(),
        forall|j: nat|
            k <= j < pf.root_hashes@.len() ==> #[trigger] round_ok(
                pf,
                j,
                round_state(nodes_view(pf.root_hashes@), j),
                round_root(w0, j),
            ),
    ensures
        rounds_accepted(pf, k, round_state(nodes_view(pf.root_hashes@), k), round_root(w0, k)),
    decreases pf.root_hashes@.len() - k,
{
    lemma_rounds_unfold(pf, k, round_state(nodes_view(pf.root_hashes@), k), round_root(w0, k));
    if k < pf.root_hashes@.len() {
        lemma_rounds_from_checks(pf, w0, k + 1);
        assert(nodes_view(pf.root_hashes@)[k as int] == pf.root_hashes@[k as int]@);
        assert(state_after(pf, k, round_state(nodes_view(pf.root_hashes@), k)) == round_state(
            nodes_view(pf.root_hashes@),
            k + 1,
        ));
    }
}

/// The round state depends only on the roots before the round.
proof fn lemma_round_state_push(roots: Seq<Seq<u8>>, x: Seq<u8>, j: nat)
    requires
        j <= roots.len(),
    ensures
        round_state(roots.push(x), j) == round_state(roots, j),
    decreases j,
{
    if j > 0 {
        lemma_round_state_push(roots, x, (j - 1) as nat);
        assert(roots.push(x)[j - 1] == roots[j - 1]);
    }
}

/// The table after round `j` of the prover's tables, the last being `last`.
pub open spec fn next_table(all: Seq<Vec<Fe>>, last: Seq<int>, j: int) -> Seq<int> {
    if j + 1 < all.len() {
        vals(all[j + 1]@)
    } else {
        last
    }
}

/// What the prover knows of round `j` once its table is committed and folded.
pub open spec fn table_facts(
    all: Seq<Vec<Fe>>,
    last: Seq<int>,
    trees: Seq<MerkleTree>,
    roots: Seq<Seq<u8>>,
    w0: int,
    rounds: nat,
    j: int,
) -> bool {
    let w = round_root(w0, j as nat);
    let d = two_pow((rounds - j) as nat);
    let h = two_pow((rounds - j - 1) as nat);
    &&& all[j]@.len() == d
    &&& 0 <= w < crate::field::modulus()
    &&& fpow(w, d) == 1
    &&& fpow(w, h) == crate::field::modulus() - 1
    &&& layers_well_formed(trees[j]@)
    &&& trees[j]@[0] == leaf_hashes(decimal_leaves(all[j]@))
    &&& trees[j]@.last()[0] == roots[j]
    &&& forall|i: nat|
        i < h ==> fmul(finv(#[trigger] fadd(fpow(w, i), fpow(w, i))), fadd(fpow(w, i), fpow(w, i))) == 1
    &&& fold_evals(vals(all[j]@), challenge_of(round_state(roots, j as nat) + roots[j]), w) == next_table(
        all,
        last,
        j,
    )
}

/// `w^(i+h) = -w^i` when `w^h = -1`.
proof fn lemma_power_antipode(w: int, i: nat, h: nat)
    requires
        0 <= w < crate::field::modulus(),
        fpow(w, h) == crate::field::modulus() - 1,
    ensures
        fpow(w, i + h) == fsub(0, fpow(w, i)),
{
    let p = crate::field::modulus();
    crate::field::lemma_fpow_add(w, i, h);
    let y = fpow(w, i);
    crate::field::lemma_fpow_range(w, i);
    assert(y * (p - 1) == y * p - y) by (nonlinear_arith);
    vstd::arithmetic::div_mod::lemma_mod_multiples_vanish(y, 0 - y, p);
    assert(y * p + (0 - y) == y * (p - 1));
}

/// The transcript state after round `k` absorbs its root and squeezes its challenge.
pub open spec fn state_after(pf: FRIProof, k: nat, state: Seq<u8>) -> Seq<u8> {
    let s1 = state + pf.root_hashes@[k as int]@;
    s1 + keccak256(s1)
}

/// Round `k` and every round after it are accepted.
#[verifier::opaque]
pub open spec fn rounds_accepted(pf: FRIProof, k: nat, state: Seq<u8>, w: int) -> bool
    decreases pf.root_hashes@.len() - k,
{
    if k >= pf.root_hashes@.len() {
        true
    } else {
        round_ok(pf, k, state, w) && rounds_accepted(pf, k + 1, state_after(pf, k, state), fmul(w, w))
    }
}

proof fn lemma_rounds_unfold(pf: FRIProof, k: nat, state: Seq<u8>, w: int)
    ensures
        rounds_accepted(pf, k, state, w) == (k >= pf.root_hashes@.len() || (round_ok(pf, k, state, w)
            && rounds_accepted(pf, k + 1, state_after(pf, k, state), fmul(w, w)))),
{
    reveal(rounds_accepted);
}

/// The proof has one entry per round in each list and a final value.
pub open spec fn proof_shape(pf: FRIProof) -> bool {
    let n = pf.root_hashes@.len();
    &&& 1 <= n <= 28
    &&& pf.values_at_index@.len() == n
    &&& pf.values_at_neg_index@.len() == n
    &&& pf.proofs_at_index@.len() == n
    &&& pf.proofs_at_neg_index@.len() == n
    &&& pf.claimed_sums@.len() + 1 == n
    &&& pf.final_poly@.len() >= 1
}

/// The value of a round from `f(x)` and `f(-x)`; `None` when `2x` is zero.
fn fold_pair(fx: Fe, fnx: Fe, r: Fe, x: Fe) -> (res: Option<Fe>)
    ensures
        res is None <==> fadd(x.val(), x.val()) == 0,
        res matches Some(v) ==> v.val() == fold_value(fx.val(), fnx.val(), r.val(), x.val()),
        res is Some ==> fmul(finv(fadd(x.val(), x.val())), fadd(x.val(), x.val())) == 1,
{
    let two = Fe::from_u64(2);
    let inv2 = match two.inverse() {
        Some(i) => i,
        None => {
            return None;
        },
    };
    proof {
        lemma_inverse_unique(2, inv2.val());
    }
    let inv_x2 = match x.double().inverse() {
        Some(i) => i,
        None => {
            return None;
        },
    };
    proof {
        lemma_inverse_unique(fadd(x.val(), x.val()), inv_x2.val());
    }
    let sum_term = fx.add(fnx).mul(inv2);
    let diff_term = fx.sub(fnx).mul(inv_x2);
    Some(sum_term.add(r.mul(diff_term)))
}

/// At the antipode `-y`, with the pair of values swapped, the fold gives the same value.
proof fn lemma_fold_antipode(a: int, b: int, r: int, y: int)
    requires
        0 <= a < crate::field::modulus(),
        0 <= b < crate::field::modulus(),
        0 <= y < crate::field::modulus(),
        fmul(finv(fadd(y, y)), fadd(y, y)) == 1,
    ensures
        fold_value(b, a, r, fsub(0, y)) == fold_value(a, b, r, y),
{
    let p = crate::field::modulus();
    let z = fsub(0, y);
    let e = finv(fadd(y, y));
    let ne = fsub(0, e);
    assert(0 <= e < p) by {
        lemma_finv_range(fadd(y, y));
    }
    // -e inverts -(2y) = 2z
    assert(fadd(z, z) == fsub(0, fadd(y, y))) by {
        vstd::arithmetic::div_mod::lemma_add_mod_noop(0 - y, 0 - y, p);
        vstd::arithmetic::div_mod::lemma_mod_twice(0 - y, p);
        vstd::arithmetic::div_mod::lemma_sub_mod_noop(0, y + y, p);
        vstd::arithmetic::div_mod::lemma_mod_twice(y + y, p);
        vstd::arithmetic::div_mod::lemma_add_mod_noop(y, y, p);
        vstd::arithmetic::div_mod::lemma_sub_mod_noop_right(0, y + y, p);
        vstd::arithmetic::div_mod::lemma_add_mod_noop(0 - y, 0 - y, p);
    }
    lemma_neg_product(e, fadd(y, y));
    lemma_inverse_unique(fadd(z, z), ne);
    // the difference terms agree
    lemma_neg_product(fsub(a, b), e);
    assert(fsub(b, a) == fsub(0, fsub(a, b))) by {
        vstd::arithmetic::div_mod::lemma_sub_mod_noop_right(0, a - b, p);
    }
    lemma_neg_neg_product(fsub(a, b), e);
    assert(fadd(b, a) == fadd(a, b));
}

proof fn lemma_finv_range(d: int)
    ensures
        fmul(finv(d), d) == 1 ==> 0 <= finv(d) < crate::field::modulus(),
{
    let p = crate::field::modulus();
    if fmul(finv(d), d) == 1 {
        let b = finv(d) % p;
        vstd::arithmetic::div_mod::lemma_mul_mod_noop_left(finv(d), d, p);
        assert(0 <= b < p && fmul(b, d) == 1);
    }
}

/// `(-u)·(-v) = u·v` in the field.
proof fn lemma_neg_product(u: int, v: int)
    ensures
        fmul(fsub(0, u), fsub(0, v)) == fmul(u, v),
{
    let p = crate::field::modulus();
    vstd::arithmetic::div_mod::lemma_mul_mod_noop(0 - u, 0 - v, p);
    vstd::arithmetic::div_mod::lemma_mul_mod_noop(u, v, p);
    assert((0 - u) * (0 - v) == u * v) by (nonlinear_arith);
    vstd::arithmetic::div_mod::lemma_mul_mod_noop(u, v, p);
}

/// `(-u)·(-v) = u·v` with the negations written as differences from zero.
proof fn lemma_neg_neg_product(u: int, v: int)
    ensures
        fmul(fsub(0, u), fsub(0, v)) == fmul(u, v),
{
    lemma_neg_product(u, v);
}

/// Folds a table of evaluations on the subgroup generated by `w`.
fn fold_layer(f: &Vec<Fe>, r: Fe, w: Fe) -> (res: Option<Vec<Fe>>)
    ensures
        res matches Some(g) ==> vals(g@) == fold_evals(vals(f@), r.val(), w.val()),
        fpow(w.val(), f@.len() as nat) == 1 ==> res is Some,
        res is Some ==> forall|i: nat|
            i < f@.len() / 2 ==> fmul(
                finv(#[trigger] fadd(fpow(w.val(), i), fpow(w.val(), i))),
                fadd(fpow(w.val(), i), fpow(w.val(), i)),
            ) == 1,
{
    let h = f.len() / 2;
    let mut out: Vec<Fe> = Vec::new();
    let mut x = Fe::one();
    let mut i: usize = 0;
    while i < h
        invariant
            f@.len() <= usize::MAX,
            h == f@.len() / 2,
            i <= h,
            x.val() == fpow(w.val(), i as nat),
            vals(out@) =~= fold_evals(vals(f@), r.val(), w.val()).subrange(0, i as int),
            forall|k: nat|
                k < i ==> fmul(
                    finv(#[trigger] fadd(fpow(w.val(), k), fpow(w.val(), k))),
                    fadd(fpow(w.val(), k), fpow(w.val(), k)),
                ) == 1,
        decreases h - i,
    {
        assert(i + h < f@.len());
        proof {
            if fpow(w.val(), f@.len() as nat) == 1 {
                crate::field::lemma_root_power_nonzero(w.val(), f@.len() as nat, i as nat);
                crate::field::lemma_fpow_range(w.val(), i as nat);
                crate::field::lemma_double_nonzero(x.val());
            }
        }
        let v = match fold_pair(f[i], f[i + h], r, x) {
            Some(v) => v,
            None => {
                return None;
            },
        };
        let ghost before = vals(out@);
        out.push(v);
        assert(vals(out@) =~= before.push(v.val()));
        x = x.mul(w);
        i = i + 1;
    }
    Some(out)
}

/// The coefficients at even and at odd positions.
pub fn split_poly(poly: &[Fe]) -> (r: (Vec<Fe>, Vec<Fe>))
    ensures
        vals(r.0@) == crate::fft::evens(vals(poly@)),
        vals(r.1@) == crate::fft::odds(vals(poly@)),
{
    let mut even: Vec<Fe> = Vec::new();
    let mut odd: Vec<Fe> = Vec::new();
    let ghost c = vals(poly@);
    let mut i: usize = 0;
    while i < poly.len()
        invariant
            c == vals(poly@),
            i <= c.len(),
            vals(even@) =~= crate::fft::evens(c).subrange(0, ((i + 1) / 2) as int),
            vals(odd@) =~= crate::fft::odds(c).subrange(0, (i / 2) as int),
        decreases c.len() - i,
    {
        let v = poly[i];
        if i % 2 == 0 {
            let ghost before = vals(even@);
            even.push(v);
            assert(vals(even@) =~= before.push(v.val()));
        } else {
            let ghost before = vals(odd@);
            odd.push(v);
            assert(vals(odd@) =~= before.push(v.val()));
        }
        i = i + 1;
    }
    (even, odd)
}

/// Folds the coefficients of a polynomial with `r`: `even[i] + r·odd[i]`.
pub fn fold_poly(poly: &[Fe], r_challenge: Fe) -> (r: Vec<Fe>)
    requires
        poly@.len() >= 1,
    ensures
        vals(r@) == fold_coefficients(vals(poly@), r_challenge.val()),
{
    if poly.len() == 1 {
        let r = vec![poly[0]];
        assert(vals(r@) =~= vals(poly@));
        return r;
    }
    let (even, odd) = split_poly(poly);
    let n = odd.len();
    let ghost c = vals(poly@);
    assert(vals(odd@).len() == odd@.len() && vals(even@).len() == even@.len());
    let mut out: Vec<Fe> = Vec::new();
    let mut i: usize = 0;
    while i < n
        invariant
            c == vals(poly@),
            c.len() >= 2,
            n == c.len() / 2,
            vals(even@) == crate::fft::evens(c),
            vals(odd@) == crate::fft::odds(c),
            even@.len() >= n,
            odd@.len() == n,
            i <= n,
            vals(out@) =~= fold_coefficients(c, r_challenge.val()).subrange(0, i as int),
        decreases n - i,
    {
        assert(vals(even@)[i as int] == even@[i as int].val());
        assert(vals(odd@)[i as int] == odd@[i as int].val());
        let v = even[i].add(r_challenge.mul(odd[i]));
        let ghost before = vals(out@);
        out.push(v);
        assert(vals(out@) =~= before.push(v.val()));
        i = i + 1;
    }
    out
}

/// Doubles a power-of-two coefficient vector with zeros.
pub fn pad_poly_to_power_of_two(poly: &[Fe]) -> (r: Vec<Fe>)
    requires
        is_pow2(poly@.len() as int),
        poly@.len() <= usize::MAX / 2,
    ensures
        vals(r@) == Seq::new(2 * poly@.len(), |i: int| coeff(vals(poly@), i)),
{
    let n = poly.len();
    let mut out = crate::bytes::copy_fes(poly);
    assert(vals(out@) =~= Seq::new(2 * n as nat, |i: int| coeff(vals(poly@), i)).subrange(0, n as int));
    let mut i: usize = n;
    while i < 2 * n
        invariant
            n == poly@.len(),
            n <= usize::MAX / 2,
            n <= i <= 2 * n,
            vals(out@) =~= Seq::new(2 * n as nat, |i: int| coeff(vals(poly@), i)).subrange(0, i as int),
        decreases 2 * n - i,
    {
        let ghost before = vals(out@);
        out.push(Fe::zero());
        assert(vals(out@) =~= before.push(0));
        i = i + 1;
    }
    out
}

impl FRIProtocol {
    pub fn new(poly: Vec<Fe>, blowup_factor: usize) -> (r: Self)
        requires
            poly@.len() >= 1,
        ensures
            r.poly@ == poly@,
            r.blowup_factor == blowup_factor,
            r.max_degree == poly@.len() - 1,
    {
        let max_degree = poly.len() - 1;
        FRIProtocol { poly, blowup_factor, max_degree }
    }

    /// The least power of two that is at least `(max_degree + 1)·blowup_factor`.
    pub fn domain_size(&self) -> (r: usize)
        requires
            self.max_degree < usize::MAX,
            (self.max_degree + 1) * self.blowup_factor <= usize::MAX / 2,
        ensures
            is_pow2(r as int),
            r >= (self.max_degree + 1) * self.blowup_factor,
            r == 1 || r / 2 < (self.max_degree + 1) * self.blowup_factor,
    {
        let min_size = (self.max_degree + 1) * self.blowup_factor;
        let mut size: usize = 1;
        while size < min_size
            invariant
                min_size == (self.max_degree + 1) * self.blowup_factor,
                min_size <= usize::MAX / 2,
                is_pow2(size as int),
                size == 1 || size / 2 < min_size,
                size == 1 || size <= 2 * min_size,
            decreases 2 * min_size + 1 - size,
        {
            assert(is_pow2(2 * size as int)) by {
                assert((2 * size) / 2 == size);
            }
            size = size * 2;
        }
        size
    }

    /// A vector padded with zeros (or cut) to the domain size.
    pub fn pad_vector_to_power_of_two(&self, vec: Vec<Fe>) -> (r: Vec<Fe>)
        requires
            self.max_degree < usize::MAX,
            (self.max_degree + 1) * self.blowup_factor <= usize::MAX / 2,
        ensures
            r@.len() > 0,
            is_pow2(r@.len() as int),
            r@.len() >= (self.max_degree + 1) * self.blowup_factor,
            r@.len() == 1 || r@.len() / 2 < (self.max_degree + 1) * self.blowup_factor,
            vals(r@) == Seq::new(r@.len(), |i: int| coeff(vals(vec@), i)),
    {
        let d = self.domain_size();
        let mut out: Vec<Fe> = Vec::new();
        let mut i: usize = 0;
        while i < d
            invariant
                i <= d,
                vals(out@) =~= Seq::new(d as nat, |j: int| coeff(vals(vec@), j)).subrange(0, i as int),
            decreases d - i,
        {
            let v = if i < vec.len() {
                vec[i]
            } else {
                Fe::zero()
            };
            let ghost before = vals(out@);
            out.push(v);
            assert(vals(out@) =~= before.push(v.val()));
            i = i + 1;
        }
        out
    }

    /// The coefficients padded with zeros (or cut) to the domain size.
    pub fn pad_to_power_of_two(&self) -> (r: Vec<Fe>)
        requires
            self.max_degree < usize::MAX,
            (self.max_degree + 1) * self.blowup_factor <= usize::MAX / 2,
        ensures
            r@.len() > 0,
            is_pow2(r@.len() as int),
            r@.len() >= (self.max_degree + 1) * self.blowup_factor,
            r@.len() == 1 || r@.len() / 2 < (self.max_degree + 1) * self.blowup_factor,
            vals(r@) == Seq::new(r@.len(), |i: int| coeff(vals(self.poly@), i)),
    {
        self.pad_vector_to_power_of_two(crate::bytes::copy_fes(self.poly.as_slice()))
    }
}

/// The least power of two `d` at least `m` is at least two exactly when `m` is, and at
/// most `2^28` exactly when `m` is.
proof fn lemma_domain_bounds(d: int, m: int)
    requires
        is_pow2(d),
        d >= m,
        d == 1 || d / 2 < m,
    ensures
        (d >= 2) == (m >= 2),
        (d <= 268435456) == (m <= 268435456),
{
    crate::field::lemma_pow2_log(d);
    if d > 268435456 && m <= 268435456 {
        let k = log2(d);
        if k <= 28 {
            crate::circuit::lemma_two_pow_monotone(k, 28);
            lemma_two_pow_28();
        } else {
            crate::circuit::lemma_two_pow_monotone(29, k);
            lemma_two_pow_28();
            assert(two_pow(29) == 2 * two_pow(28));
        }
    }
}

pub(crate) proof fn lemma_two_pow_is_pow2(k: nat)
    ensures
        is_pow2(two_pow(k) as int),
        two_pow(k) >= 1,
    decreases k,
{
    if k > 0 {
        lemma_two_pow_is_pow2((k - 1) as nat);
        assert((2 * two_pow((k - 1) as nat)) / 2 == two_pow((k - 1) as nat));
    }
}

proof fn lemma_two_pow_28()
    ensures
        two_pow(28) == 268435456,
{
    reveal_with_fuel(two_pow, 29);
}

proof fn lemma_small_two_pow(k: nat)
    requires
        k <= 28,
    ensures
        two_pow(k) <= two_adic_bound(),
{
    crate::circuit::lemma_two_pow_monotone(k, 28);
    lemma_two_pow_28();
}

/// The Merkle tree over the decimal strings of the values, and its root.
fn commit(evals: &Vec<Fe>) -> (r: (MerkleTree, Vec<u8>))
    requires
        evals@.len() >= 1,
    ensures
        r.0@.len() > 0,
        layers_well_formed(r.0@),
        r.0@[0] == leaf_hashes(decimal_leaves(evals@)),
        r.1@ == r.0@.last()[0],
{
    let mut leaves: Vec<Vec<u8>> = Vec::new();
    let mut i: usize = 0;
    while i < evals.len()
        invariant
            i <= evals@.len(),
            nodes_view(leaves@) =~= decimal_leaves(evals@).subrange(0, i as int),
        decreases evals@.len() - i,
    {
        let d = evals[i].to_decimal_bytes();
        let ghost before = nodes_view(leaves@);
        leaves.push(d);
        assert(nodes_view(leaves@) =~= before.push(d@));
        i = i + 1;
    }
    let mut slices: Vec<&[u8]> = Vec::new();
    let mut j: usize = 0;
    while j < leaves.len()
        invariant
            j <= leaves@.len(),
            slices_view(slices@) =~= nodes_view(leaves@).subrange(0, j as int),
        decreases leaves@.len() - j,
    {
        let ghost before = slices_view(slices@);
        slices.push(leaves[j].as_slice());
        assert(slices_view(slices@) =~= before.push(leaves@[j as int]@));
        j = j + 1;
    }
    assert(nodes_view(leaves@) =~= decimal_leaves(evals@));
    assert(slices_view(slices@) =~= decimal_leaves(evals@));
    let tree = MerkleTree::new(slices.as_slice());
    let root = match tree.root() {
        Some(h) => h,
        None => Vec::new(),
    };
    (tree, root)
}

impl FRIProtocol {
    /// Replays the rounds: both values of each round must be in the committed tree,
    /// and folding them with the round's challenge and `x = ω^leaf_index` must give the
    /// next round's claimed value, or at the last round the final constant.
    pub fn verify(&self, fri_proof: &FRIProof) -> (r: bool)
        ensures
            r == (proof_shape(*fri_proof) && rounds_accepted(
                *fri_proof,
                0,
                Seq::empty(),
                unity_root(two_pow(fri_proof.root_hashes@.len())),
            )),
    {
        let n = fri_proof.root_hashes.len();
        if n < 1 || n > 28 || fri_proof.values_at_index.len() != n || fri_proof.values_at_neg_index.len() != n
            || fri_proof.proofs_at_index.len() != n || fri_proof.proofs_at_neg_index.len() != n
            || fri_proof.claimed_sums.len() != n - 1 || fri_proof.final_poly.len() < 1 {
            return false;
        }
        proof {
            lemma_small_two_pow(n as nat);
            lemma_two_pow_is_pow2(n as nat);
            crate::circuit::lemma_two_pow_monotone(n as nat, 28);
            lemma_two_pow_28();
        }
        let d = crate::circuit::pow2_usize(n);
        assert(d as u64 == d);
        assert(is_pow2(d as int) && d <= two_adic_bound());
        let w0 = match Fe::root_of_unity(d as u64) {
            Some(w) => w,
            None => {
                return false;
            },
        };
        assert(w0.val() == unity_root(two_pow(n as nat)));
        let ghost pf = *fri_proof;
        let mut transcript = Transcript::new();
        let mut w = w0;
        let mut k: usize = 0;
        while k < n
            invariant
                pf == *fri_proof,
                n == pf.root_hashes@.len(),
                proof_shape(pf),
                w0.val() == unity_root(two_pow(n as nat)),
                k <= n,
                rounds_accepted(pf, 0, Seq::empty(), w0.val()) == rounds_accepted(pf, k as nat, transcript@, w.val()),
            decreases n - k,
        {
            let fx = fri_proof.values_at_index[k];
            let fnx = fri_proof.values_at_neg_index[k];
            let pa = &fri_proof.proofs_at_index[k];
            let pb = &fri_proof.proofs_at_neg_index[k];
            let root = &fri_proof.root_hashes[k];
            let dx = fx.to_decimal_bytes();
            let dnx = fnx.to_decimal_bytes();
            let ok_x = MerkleTree::verify_against_root(dx.as_slice(), pa, root.as_slice());
            let ok_nx = MerkleTree::verify_against_root(dnx.as_slice(), pb, root.as_slice());
            proof {
                lemma_rounds_unfold(pf, k as nat, transcript@, w.val());
                assert(fx == pf.values_at_index@[k as int]);
                assert(fnx == pf.values_at_neg_index@[k as int]);
                assert(*pa == pf.proofs_at_index@[k as int]);
                assert(*pb == pf.proofs_at_neg_index@[k as int]);
                assert(root@ == pf.root_hashes@[k as int]@);
            }
            if !ok_x || !ok_nx {
                return false;
            }
            transcript.absorb(root.as_slice());
            let r = transcript.squeeze_challenge();
            let x = w.pow(pa.leaf_index as u64);
            assert((pa.leaf_index as u64) as nat == pa.leaf_index as nat);
            let expected = match fold_pair(fx, fnx, r, x) {
                Some(v) => v,
                None => {
                    return false;
                },
            };
            let target = if k + 1 < n {
                fri_proof.claimed_sums[k]
            } else {
                fri_proof.final_poly[0]
            };
            if expected != target {
                return false;
            }
            w = w.mul(w);
            k = k + 1;
        }
        proof {
            lemma_rounds_unfold(pf, k as nat, transcript@, w.val());
        }
        true
    }

    /// Commits to the evaluations of the padded polynomial and folds them round by round
    /// to a constant; then squeezes a query index `q` (reduced modulo the polynomial's
    /// length) and records, per round, the values and inclusion proofs at `q mod D_k`
    /// and at its antipode, and from round one on the claimed value at `q mod D_k`.
    #[verifier::spinoff_prover]
    #[verifier::rlimit(100)]
    pub fn generate_proof(&self) -> (r: Result<FRIProof, ProofError>)
        requires
            self.max_degree < usize::MAX,
            (self.max_degree + 1) * self.blowup_factor <= usize::MAX / 2,
            self.poly@.len() >= 1,
        ensures
            r matches Ok(p) ==> proof_shape(p) && p.final_poly@.len() == 1 && two_pow(p.root_hashes@.len())
                >= (self.max_degree + 1) * self.blowup_factor,
            r matches Ok(p) ==> {
                let n = p.root_hashes@.len();
                let d = two_pow(n);
                let m = (self.max_degree + 1) * self.blowup_factor;
                let f0 = crate::fft::radix2(Seq::new(d, |i: int| coeff(vals(self.poly@), i)), false);
                let run = fri_rounds(f0, Seq::empty(), unity_root(d), n);
                &&& d / 2 < m
                &&& nodes_view(p.root_hashes@) == run.0
                &&& vals(p.final_poly@) == run.1
                &&& p.merkle_trees@.len() == n
                &&& forall|k: int| 0 <= k < n ==> (#[trigger] p.merkle_trees@[k])@[0].len() == two_pow((n - k) as nat)
                &&& rounds_accepted(p, 0, Seq::empty(), unity_root(d))
                &&& forall|k: int|
                    0 <= k < n ==> #[trigger] recorded_round(
                        p,
                        fri_tables(f0, Seq::empty(), unity_root(d), n),
                        query_index(fri_end_state(f0, Seq::empty(), unity_root(d), n), self.poly@.len() as int),
                        k,
                    )
            },
            r is Ok <==> 2 <= (self.max_degree + 1) * self.blowup_factor <= 268435456,
            r is Err ==> r == Err::<FRIProof, ProofError>(ProofError::InputShape),
    {
        let padded = self.pad_to_power_of_two();
        let domain = padded.len();
        let ghost m = (self.max_degree + 1) * self.blowup_factor;
        proof {
            lemma_domain_bounds(domain as int, m as int);
        }
        if domain > 268435456 || domain < 2 {
            return Err(ProofError::InputShape);
        }
        let w0 = match Fe::root_of_unity(domain as u64) {
            Some(w) => w,
            None => {
                return Err(ProofError::InputShape);
            },
        };
        let rounds = MultiLinearPoly::new(crate::bytes::copy_fes(padded.as_slice())).variable_count();
        proof {
            crate::field::lemma_pow2_log(domain as int);
        }
        let ghost f0 = crate::fft::radix2(vals(padded@), false);
        let mut evals = FastFourierTransform::new(padded).evaluate().coefficients;
        assert(vals(evals@).len() == evals@.len());
        let ghost run = fri_rounds(f0, Seq::empty(), w0.val(), rounds as nat);
        let ghost tabs = fri_tables(f0, Seq::empty(), w0.val(), rounds as nat);
        let ghost end_state = fri_end_state(f0, Seq::empty(), w0.val(), rounds as nat);
        proof {
            crate::circuit::lemma_two_pow_pos((rounds - 1) as nat);
            assert(two_pow(rounds as nat) == 2 * two_pow((rounds - 1) as nat));
            assert(domain % 2 == 0 && domain / 2 == two_pow((rounds - 1) as nat));
        }
        let mut transcript = Transcript::new();
        let mut all_evals: Vec<Vec<Fe>> = Vec::new();
        let mut trees: Vec<MerkleTree> = Vec::new();
        let mut roots: Vec<Vec<u8>> = Vec::new();
        let mut w = w0;
        let mut k: usize = 0;
        while k < rounds
            invariant
                rounds == log2(domain as int),
                domain == two_pow(rounds as nat),
                k <= rounds,
                evals@.len() == two_pow((rounds - k) as nat),
                all_evals@.len() == k,
                trees@.len() == k,
                roots@.len() == k,
                forall|j: int| 0 <= j < k ==> (#[trigger] all_evals@[j])@.len() == two_pow((rounds - j) as nat),
                forall|j: int|
                    0 <= j < k ==> (#[trigger] trees@[j])@.len() > 0 && trees@[j]@[0] == leaf_hashes(
                        decimal_leaves(all_evals@[j]@),
                    ),
                fpow(w.val(), two_pow((rounds - k) as nat)) == 1,
                run.0 == nodes_view(roots@) + fri_rounds(vals(evals@), transcript@, w.val(), (rounds - k) as nat).0,
                run.1 == fri_rounds(vals(evals@), transcript@, w.val(), (rounds - k) as nat).1,
                tabs == tables_view(all_evals@) + fri_tables(vals(evals@), transcript@, w.val(), (rounds - k) as nat),
                end_state == fri_end_state(vals(evals@), transcript@, w.val(), (rounds - k) as nat),
                transcript@ == round_state(nodes_view(roots@), k as nat),
                w.val() == round_root(w0.val(), k as nat),
                k < rounds ==> fpow(w.val(), two_pow((rounds - k - 1) as nat)) == crate::field::modulus() - 1,
                forall|j: int|
                    0 <= j < k ==> #[trigger] table_facts(all_evals@, vals(evals@), trees@, nodes_view(roots@), w0.val(), rounds as nat, j),
            decreases rounds - k,
        {
            proof {
                lemma_two_pow_is_pow2((rounds - k) as nat);
                assert(two_pow((rounds - k) as nat) == 2 * two_pow((rounds - k - 1) as nat));
            }
            let ghost w_k = w.val();
            let ghost st_k = transcript@;
            let ghost old_all = all_evals@;
            let ghost old_trees = trees@;
            let ghost old_roots_v = nodes_view(roots@);
            let ghost old_evals = vals(evals@);
            let ghost old_evals_vec = evals;
            let (tree, root) = commit(&evals);
            proof {
                crate::merkle_tree::lemma_root_of_layers(tree@);
                assert(decimal_leaves(evals@) =~= int_leaves(vals(evals@)));
                assert(root@ == table_root(vals(evals@)));
            }
            let ghost st = transcript@;
            let ghost old_roots = nodes_view(roots@);
            transcript.absorb(root.as_slice());
            let r = transcript.squeeze_challenge();
            let next = match fold_layer(&evals, r, w) {
                Some(g) => g,
                None => {
                    return Err(ProofError::InputShape);
                },
            };
            proof {
                crate::field::lemma_fpow_square(w.val(), two_pow((rounds - k - 1) as nat));
                if k + 1 < rounds {
                    crate::field::lemma_fpow_square(w.val(), two_pow((rounds - k - 2) as nat));
                    assert(two_pow((rounds - k - 1) as nat) == 2 * two_pow((rounds - k - 2) as nat));
                }
            }
            assert(vals(next@).len() == next@.len());
            all_evals.push(evals);
            trees.push(tree);
            roots.push(root);
            assert(nodes_view(roots@) =~= old_roots.push(root@));
            assert(tables_view(all_evals@) =~= tables_view(old_all).push(old_evals));
            assert(tables_view(old_all) + fri_tables(old_evals, st_k, w_k, (rounds - k) as nat) =~= tables_view(all_evals@)
                + fri_tables(vals(next@), transcript@, fmul(w_k, w_k), (rounds - k - 1) as nat));
            proof {
                lemma_round_state_push(old_roots_v, root@, k as nat);
                assert(nodes_view(roots@)[k as int] == root@);
                crate::field::lemma_fpow_range(w_k, 1);
                assert(0 <= w_k < crate::field::modulus()) by {
                    if k > 0 {
                        assert(w_k == fmul(round_root(w0.val(), (k - 1) as nat), round_root(w0.val(), (k - 1) as nat)));
                    }
                }
                assert forall|j: int| 0 <= j < k + 1 implies #[trigger] table_facts(
                    all_evals@,
                    vals(next@),
                    trees@,
                    nodes_view(roots@),
                    w0.val(),
                    rounds as nat,
                    j,
                ) by {
                    lemma_round_state_push(old_roots_v, root@, j as nat);
                    if j < k {
                        assert(table_facts(old_all, old_evals, old_trees, old_roots_v, w0.val(), rounds as nat, j));
                        assert(all_evals@[j] == old_all[j]);
                        assert(trees@[j] == old_trees[j]);
                        assert(nodes_view(roots@)[j] == old_roots_v[j]);
                        if j + 1 < k {
                            assert(all_evals@[j + 1] == old_all[j + 1]);
                        } else {
                            assert(vals(all_evals@[j + 1]@) == old_evals);
                        }
                    } else {
                        assert(all_evals@[j]@ == old_evals_vec@);
                        assert(trees@[j] == tree);
                        assert(nodes_view(roots@)[j] == root@);
                    }
                }
            }
            assert(old_roots + (seq![root@] + fri_rounds(vals(next@), transcript@, w.val() * w.val() % crate::field::modulus(), (rounds - k - 1) as nat).0)
                =~= nodes_view(roots@) + fri_rounds(vals(next@), transcript@, w.val() * w.val() % crate::field::modulus(), (rounds - k - 1) as nat).0);
            evals = next;
            w = w.mul(w);
            k = k + 1;
        }
        let final_poly = evals;
        assert(transcript@ == end_state);
        let q_field = transcript.squeeze_challenge();
        let q = (q_field.low_u64() % (self.poly.len() as u64)) as usize;
        let ghost qi = query_index(end_state, self.poly@.len() as int);
        proof {
            assert(q == qi);
            assert(tabs =~= tables_view(all_evals@) + seq![vals(final_poly@)]);
        }
        let ghost rv = nodes_view(roots@);
        let ghost w0v = w0.val();
        let mut v_at: Vec<Fe> = Vec::new();
        let mut v_neg: Vec<Fe> = Vec::new();
        let mut p_at: Vec<MerkleProof> = Vec::new();
        let mut p_neg: Vec<MerkleProof> = Vec::new();
        let mut claimed: Vec<Fe> = Vec::new();
        assert(vals(final_poly@).len() == final_poly@.len());
        let mut j: usize = 0;
        while j < rounds
            invariant
                rounds == log2(domain as int),
                domain == two_pow(rounds as nat),
                domain <= 268435456,
                rounds >= 1,
                j <= rounds,
                rv == nodes_view(roots@),
                roots@.len() == rounds,
                all_evals@.len() == rounds,
                trees@.len() == rounds,
                final_poly@.len() == 1,
                forall|i: int| 0 <= i < rounds ==> (#[trigger] all_evals@[i])@.len() == two_pow((rounds - i) as nat),
                forall|i: int|
                    0 <= i < rounds ==> (#[trigger] trees@[i])@.len() > 0 && trees@[i]@[0] == leaf_hashes(
                        decimal_leaves(all_evals@[i]@),
                    ),
                forall|i: int|
                    0 <= i < rounds ==> #[trigger] table_facts(all_evals@, vals(final_poly@), trees@, rv, w0v, rounds as nat, i),
                v_at@.len() == j,
                v_neg@.len() == j,
                p_at@.len() == j,
                p_neg@.len() == j,
                claimed@.len() == (if j == rounds { rounds - 1 } else { j as int }),
                tabs == tables_view(all_evals@) + seq![vals(final_poly@)],
                q == qi,
                forall|i: int|
                    0 <= i < j ==> #[trigger] recorded_parts(v_at@, v_neg@, p_at@, p_neg@, claimed@, rounds as int, tabs, qi, i),
                forall|i: nat|
                    i < j ==> #[trigger] round_ok_parts(
                        v_at@,
                        v_neg@,
                        p_at@,
                        p_neg@,
                        rv,
                        claimed@,
                        final_poly@,
                        i,
                        round_state(rv, i),
                        round_root(w0v, i),
                    ),
            decreases rounds - j,
        {
            let layer = &all_evals[j];
            let dk = layer.len();
            assert(dk >= 2) by {
                lemma_two_pow_is_pow2((rounds - j) as nat);
                crate::circuit::lemma_two_pow_monotone(1, (rounds - j) as nat);
                assert(two_pow(1) == 2) by {
                    reveal_with_fuel(two_pow, 2);
                }
            }
            proof {
                crate::circuit::lemma_two_pow_monotone((rounds - j) as nat, rounds as nat);
                assert(two_pow((rounds - j) as nat) == 2 * two_pow((rounds - j - 1) as nat));
            }
            let h = dk / 2;
            let i1 = q % dk;
            let i2 = (i1 + h) % dk;
            let a = layer[i1];
            let b = layer[i2];
            proof {
                assert(trees@[j as int]@[0].len() == dk);
            }
            let pa = match trees[j].proof_at(i1) {
                Some(p) => p,
                None => {
                    return Err(ProofError::InputShape);
                },
            };
            let pb = match trees[j].proof_at(i2) {
                Some(p) => p,
                None => {
                    return Err(ProofError::InputShape);
                },
            };
            let ghost old = (v_at@, v_neg@, p_at@, p_neg@, claimed@);
            v_at.push(a);
            v_neg.push(b);
            p_at.push(pa);
            p_neg.push(pb);
            if j + 1 < rounds {
                let nl = &all_evals[j + 1];
                proof {
                    assert(nl@.len() == h);
                }
                claimed.push(nl[q % h]);
            }
            proof {
                let tj = vals(all_evals@[j as int]@);
                let w = round_root(w0v, j as nat);
                let st = round_state(rv, j as nat);
                let rr = challenge_of(st + rv[j as int]);
                let nt = next_table(all_evals@, vals(final_poly@), j as int);
                assert(table_facts(all_evals@, vals(final_poly@), trees@, rv, w0v, rounds as nat, j as int));
                assert(h == two_pow((rounds - j - 1) as nat));
                assert(fold_evals(tj, rr, w) == nt);
                // inclusion of both values
                crate::merkle_tree::lemma_path_reaches_root(trees@[j as int]@, i1 as int);
                crate::merkle_tree::lemma_path_reaches_root(trees@[j as int]@, i2 as int);
                assert(trees@[j as int]@[0][i1 as int] == sha256(decimal_digits(a.val() as nat)));
                assert(trees@[j as int]@[0][i2 as int] == sha256(decimal_digits(b.val() as nat)));
                // the point is not zero
                crate::field::lemma_root_power_nonzero(w, dk as nat, i1 as nat);
                crate::field::lemma_fpow_range(w, i1 as nat);
                crate::field::lemma_double_nonzero(fpow(w, i1 as nat));
                // the target is the folded value at q mod h
                vstd::arithmetic::div_mod::lemma_mod_mod(q as int, h as int, 2);
                assert(dk == h * 2);
                let i = (q % h) as int;
                assert(i == i1 % h);
                let target = if j + 1 < rounds {
                    claimed@[j as int].val()
                } else {
                    final_poly@[0].val()
                };
                if j + 1 < rounds {
                    assert(target == nt[i]);
                } else {
                    assert(h == 1) by {
                        assert(two_pow(0) == 1);
                    }
                    assert(target == nt[i]);
                }
                assert(nt[i] == fold_value(tj[i], tj[i + h], rr, fpow(w, i as nat)));
                if i1 < h {
                    vstd::arithmetic::div_mod::lemma_small_mod(i1 as nat, h as nat);
                    vstd::arithmetic::div_mod::lemma_small_mod((i1 + h) as nat, dk as nat);
                    assert(i1 == i);
                    assert(i2 == i1 + h);
                } else {
                    vstd::arithmetic::div_mod::lemma_fundamental_div_mod_converse(i1 as int, h as int, 1, (i1 - h) as int);
                    vstd::arithmetic::div_mod::lemma_fundamental_div_mod_converse((i1 + h) as int, dk as int, 1, (i1 - h) as int);
                    assert(i1 == i + h);
                    assert(i2 == i);
                    lemma_power_antipode(w, i as nat, h as nat);
                    assert(fmul(finv(fadd(fpow(w, i as nat), fpow(w, i as nat))), fadd(fpow(w, i as nat), fpow(w, i as nat))) == 1);
                    crate::field::lemma_fpow_range(w, i as nat);
                    lemma_fold_antipode(tj[i], tj[i + h], rr, fpow(w, i as nat));
                }
                assert(round_ok_parts(v_at@, v_neg@, p_at@, p_neg@, rv, claimed@, final_poly@, j as nat, st, w));
                assert(tabs[j as int] == tj);
                if j + 1 < rounds {
                    assert(tabs[j + 1] == vals(all_evals@[j + 1]@));
                    assert(tabs[j + 1].len() == h);
                }
                assert(recorded_parts(v_at@, v_neg@, p_at@, p_neg@, claimed@, rounds as int, tabs, qi, j as int));
                assert forall|k: int| 0 <= k < j + 1 implies #[trigger] recorded_parts(
                    v_at@,
                    v_neg@,
                    p_at@,
                    p_neg@,
                    claimed@,
                    rounds as int,
                    tabs,
                    qi,
                    k,
                ) by {
                    if k < j {
                        assert(recorded_parts(old.0, old.1, old.2, old.3, old.4, rounds as int, tabs, qi, k));
                        assert(v_at@[k] == old.0[k]);
                        assert(v_neg@[k] == old.1[k]);
                        assert(p_at@[k] == old.2[k]);
                        assert(p_neg@[k] == old.3[k]);
                        if k + 1 < rounds {
                            assert(claimed@[k] == old.4[k]);
                        }
                    }
                }
                assert forall|k: nat| k < j + 1 implies #[trigger] round_ok_parts(
                    v_at@,
                    v_neg@,
                    p_at@,
                    p_neg@,
                    rv,
                    claimed@,
                    final_poly@,
                    k,
                    round_state(rv, k),
                    round_root(w0v, k),
                ) by {
                    if k < j {
                        assert(round_ok_parts(old.0, old.1, old.2, old.3, rv, old.4, final_poly@, k, round_state(rv, k), round_root(w0v, k)));
                        assert(v_at@[k as int] == old.0[k as int]);
                        assert(v_neg@[k as int] == old.1[k as int]);
                        assert(p_at@[k as int] == old.2[k as int]);
                        assert(p_neg@[k as int] == old.3[k as int]);
                        if k + 1 < rounds {
                            assert(claimed@[k as int] == old.4[k as int]);
                        }
                    }
                }
            }
            j = j + 1;
        }
        proof {
            if rounds > 28 {
                crate::circuit::lemma_two_pow_monotone(29, rounds as nat);
                lemma_two_pow_28();
                assert(two_pow(29) == 2 * two_pow(28));
            }
            assert(nodes_view(roots@) + Seq::<Seq<u8>>::empty() =~= nodes_view(roots@));
        }
        let pf = FRIProof {
            root_hashes: roots,
            final_poly,
            values_at_index: v_at,
            values_at_neg_index: v_neg,
            merkle_trees: trees,
            proofs_at_index: p_at,
            proofs_at_neg_index: p_neg,
            claimed_sums: claimed,
        };
        proof {
            assert(nodes_view(pf.root_hashes@) == rv);
            assert forall|k: nat| 0 <= k < pf.root_hashes@.len() implies #[trigger] round_ok(
                pf,
                k,
                round_state(nodes_view(pf.root_hashes@), k),
                round_root(w0v, k),
            ) by {
                assert(round_ok_parts(pf.values_at_index@, pf.values_at_neg_index@, pf.proofs_at_index@, pf.proofs_at_neg_index@, rv, pf.claimed_sums@, pf.final_poly@, k, round_state(rv, k), round_root(w0v, k)));
            }
            lemma_rounds_from_checks(pf, w0v, 0);
            assert forall|k: int| 0 <= k < rounds implies #[trigger] recorded_round(pf, tabs, qi, k) by {
                assert(recorded_parts(pf.values_at_index@, pf.values_at_neg_index@, pf.proofs_at_index@, pf.proofs_at_neg_index@, pf.claimed_sums@, rounds as int, tabs, qi, k));
            }
        }
        Ok(pf)
    }
}

} // verus!
