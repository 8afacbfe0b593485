//! Multilinear KZG commitments over BN254: trusted setup, commitment, opening by
//! iterated quotients, and the pairing check.
//!
//! Group elements are held in their canonical compressed encoding.
use vstd::prelude::*;
use ark_bn254::{Bn254, Fr, G1Affine, G1Projective, G2Affine, G2Projective};
use ark_ec::pairing::{Pairing, PairingOutput};
use ark_ec::{CurveGroup, PrimeGroup};
use ark_ff::PrimeField;
use ark_serialize::{CanonicalDeserialize, CanonicalSerialize};
use crate::field::{be_bytes, fmul, fsub, is_pow2, lemma_pow2_half, log2, two_pow, Fe};
use crate::multilinear::{fold_first, mle_fold, vals, MultiLinearPoly};

verus! {

/// The encoding of the generator of G1 times the scalar whose big-endian bytes are `s`.
pub uninterp spec fn g1_gen_mul(s: Seq<u8>) -> Seq<u8>;

/// The encoding of the generator of G2 times the scalar whose big-endian bytes are `s`.
pub uninterp spec fn g2_gen_mul(s: Seq<u8>) -> Seq<u8>;

/// `p` starts with the compressed encoding of a point of G1.
pub uninterp spec fn is_g1(p: Seq<u8>) -> bool;

/// `p` starts with the compressed encoding of a point of G2.
pub uninterp spec fn is_g2(p: Seq<u8>) -> bool;

/// `p` starts with the compressed encoding of an element of the pairing's target group.
pub uninterp spec fn is_gt(p: Seq<u8>) -> bool;

/// The encoding of the point `p` times the scalar whose big-endian bytes are `s`.
pub uninterp spec fn g1_scale(p: Seq<u8>, s: Seq<u8>) -> Seq<u8>;

/// The encoding of the sum of two points of G1.
pub uninterp spec fn g1_sum(a: Seq<u8>, b: Seq<u8>) -> Seq<u8>;

/// The encoding of the sum of two points of G2.
pub uninterp spec fn g2_sum(a: Seq<u8>, b: Seq<u8>) -> Seq<u8>;

/// The encoding of the pairing of a point of G1 with a point of G2.
pub uninterp spec fn pairing_value(a: Seq<u8>, b: Seq<u8>) -> Seq<u8>;

/// The encoding of the product (written additively) of two target-group elements.
pub uninterp spec fn gt_sum(a: Seq<u8>, b: Seq<u8>) -> Seq<u8>;

/// Relies on `PrimeGroup::generator`, scalar multiplication and `serialize_compressed`
/// of `ark_bn254::G1Projective`: a deterministic encoding of a valid point.
#[verifier::external_body]
fn ark_g1_gen_mul(s: &[u8]) -> (r: Vec<u8>)
    ensures
        r@ == g1_gen_mul(s@),
        is_g1(r@),
{
    let p = (G1Projective::generator() * Fr::from_be_bytes_mod_order(s)).into_affine();
    let mut v = Vec::new();
    p.serialize_compressed(&mut v).unwrap();
    v
}

/// Relies on `PrimeGroup::generator`, scalar multiplication and `serialize_compressed`
/// of `ark_bn254::G2Projective`: a deterministic encoding of a valid point.
#[verifier::external_body]
fn ark_g2_gen_mul(s: &[u8]) -> (r: Vec<u8>)
    ensures
        r@ == g2_gen_mul(s@),
        is_g2(r@),
{
    let p = (G2Projective::generator() * Fr::from_be_bytes_mod_order(s)).into_affine();
    let mut v = Vec::new();
    p.serialize_compressed(&mut v).unwrap();
    v
}

/// Relies on `deserialize_compressed`, scalar multiplication and `serialize_compressed`
/// of `ark_bn254::G1Affine`: `None` exactly when `p` does not decode.
#[verifier::external_body]
fn ark_g1_mul(p: &[u8], s: &[u8]) -> (r: Option<Vec<u8>>)
    ensures
        r is None <==> !is_g1(p@),
        r matches Some(x) ==> x@ == g1_scale(p@, s@) && is_g1(x@),
{
    let a = G1Affine::deserialize_compressed(p).ok()?;
    let q = (a * Fr::from_be_bytes_mod_order(s)).into_affine();
    let mut v = Vec::new();
    q.serialize_compressed(&mut v).unwrap();
    Some(v)
}

/// Relies on `deserialize_compressed`, addition and `serialize_compressed` of
/// `ark_bn254::G1Affine`: `None` exactly when an argument does not decode.
#[verifier::external_body]
fn ark_g1_add(a: &[u8], b: &[u8]) -> (r: Option<Vec<u8>>)
    ensures
        r is None <==> !is_g1(a@) || !is_g1(b@),
        r matches Some(x) ==> x@ == g1_sum(a@, b@) && is_g1(x@),
{
    let x = G1Affine::deserialize_compressed(a).ok()?;
    let y = G1Affine::deserialize_compressed(b).ok()?;
    let mut v = Vec::new();
    (x + y).into_affine().serialize_compressed(&mut v).unwrap();
    Some(v)
}

/// Relies on `deserialize_compressed`, addition and `serialize_compressed` of
/// `ark_bn254::G2Affine`: `None` exactly when an argument does not decode.
#[verifier::external_body]
fn ark_g2_add(a: &[u8], b: &[u8]) -> (r: Option<Vec<u8>>)
    ensures
        r is None <==> !is_g2(a@) || !is_g2(b@),
        r matches Some(x) ==> x@ == g2_sum(a@, b@) && is_g2(x@),
{
    let x = G2Affine::deserialize_compressed(a).ok()?;
    let y = G2Affine::deserialize_compressed(b).ok()?;
    let mut v = Vec::new();
    (x + y).into_affine().serialize_compressed(&mut v).unwrap();
    Some(v)
}

/// Relies on `Pairing::pairing` of `ark_bn254::Bn254`, after `deserialize_compressed`
/// of both points: `None` exactly when a point does not decode.
#[verifier::external_body]
fn ark_pairing(a: &[u8], b: &[u8]) -> (r: Option<Vec<u8>>)
    ensures
        r is None <==> !is_g1(a@) || !is_g2(b@),
        r matches Some(x) ==> x@ == pairing_value(a@, b@) && is_gt(x@),
{
    let x = G1Affine::deserialize_compressed(a).ok()?;
    let y = G2Affine::deserialize_compressed(b).ok()?;
    let mut v = Vec::new();
    Bn254::pairing(x, y).serialize_compressed(&mut v).unwrap();
    Some(v)
}

/// Relies on `deserialize_compressed`, addition and `serialize_compressed` of
/// `PairingOutput<Bn254>`: `None` exactly when an argument does not decode.
#[verifier::external_body]
fn ark_gt_add(a: &[u8], b: &[u8]) -> (r: Option<Vec<u8>>)
    ensures
        r is None <==> !is_gt(a@) || !is_gt(b@),
        r matches Some(x) ==> x@ == gt_sum(a@, b@) && is_gt(x@),
{
    let x = PairingOutput::<Bn254>::deserialize_compressed(a).ok()?;
    let y = PairingOutput::<Bn254>::deserialize_compressed(b).ok()?;
    let mut v = Vec::new();
    (x + y).serialize_compressed(&mut v).unwrap();
    Some(v)
}

/// The scalar's encoding as the group operations take it.
pub open spec fn scalar_bytes(s: int) -> Seq<u8> {
    be_bytes(s, 32)
}

/// Bit `j` of `i`, counting from the most significant of `v` bits.
pub open spec fn msb_bit(i: int, j: int, v: nat) -> bool {
    (i / two_pow((v - 1 - j) as nat) as int) % 2 == 1
}

/// `1·f₀·f₁·…` over the first `m` variables, with `f_j = τ_j` where bit `j` of `i` is
/// set and `1 - τ_j` where it is not.
pub open spec fn basis_prefix(taus: Seq<int>, i: int, m: nat) -> int
    decreases m,
{
    if m == 0 {
        1
    } else {
        let j = m - 1;
        fmul(
            basis_prefix(taus, i, (m - 1) as nat),
            if msb_bit(i, j, taus.len()) {
                taus[j]
            } else {
                fsub(1, taus[j])
            },
        )
    }
}

/// The multilinear Lagrange basis at `τ`: `L_i(τ)` for every `i < 2^v`.
pub open spec fn lagrange_basis(taus: Seq<int>) -> Seq<int> {
    Seq::new(two_pow(taus.len()), |i: int| basis_prefix(taus, i, taus.len()))
}

/// `Σ_{i<n} s_i·P_i` in G1, from the first term on; `None` when a point does not decode.
pub open spec fn msm(points: Seq<Seq<u8>>, scalars: Seq<int>, n: nat) -> Option<Seq<u8>>
    decreases n,
{
    if n == 0 {
        None
    } else if n == 1 {
        if is_g1(points[0]) {
            Some(g1_scale(points[0], scalar_bytes(scalars[0])))
        } else {
            None
        }
    } else {
        match msm(points, scalars, (n - 1) as nat) {
            None => None,
            Some(acc) => if is_g1(points[n - 1]) {
                Some(g1_sum(acc, g1_scale(points[n - 1], scalar_bytes(scalars[n - 1]))))
            } else {
                None
            },
        }
    }
}

/// The commitment `Σ poly[i]·g₁^{L_i(τ)}` over the whole basis.
pub open spec fn commitment_of(basis: Seq<Seq<u8>>, table: Seq<int>) -> Option<Seq<u8>> {
    if table.len() == basis.len() {
        msm(basis, table, basis.len())
    } else {
        None
    }
}

pub open spec fn minus_value(t: Seq<int>, v: int) -> Seq<int> {
    Seq::new(t.len(), |i: int| fsub(t[i], v))
}

/// The quotient by variable 0: `second half - first half`.
pub open spec fn quotient_table(t: Seq<int>) -> Seq<int> {
    Seq::new(t.len() / 2, |i: int| fsub(t[i + t.len() / 2], t[i]))
}

/// The table doubled `k` times, so that `k` new leading variables do not matter.
pub open spec fn blown(t: Seq<int>, k: nat) -> Seq<int>
    decreases k,
{
    if k == 0 {
        t
    } else {
        blown(t, (k - 1) as nat) + blown(t, (k - 1) as nat)
    }
}

/// The table after the first `j` opened variables were fixed.
pub open spec fn reduced(t: Seq<int>, point: Seq<int>, j: nat) -> Seq<int>
    decreases j,
{
    if j == 0 {
        t
    } else {
        fold_first(reduced(t, point, (j - 1) as nat), point[j - 1])
    }
}

/// The quotient of step `j`, blown back up to the full number of variables.
pub open spec fn opening_quotient(t: Seq<int>, point: Seq<int>, j: nat) -> Seq<int> {
    blown(quotient_table(reduced(minus_value(t, mle_fold(t, point)), point, j)), j + 1)
}

pub struct TrustedSetup {
    pub max_input: usize,
    /// `g₁^{L_i(τ)}` for each `i`.
    pub g1_arr: Vec<Vec<u8>>,
    /// `g₂^{τ_j}` for each `j`.
    pub g2_arr: Vec<Vec<u8>>,
}

pub struct KZGProof {
    pub commitment: Vec<u8>,
    pub quotient_evals: Vec<Vec<u8>>,
    pub poly_opened: Fe,
}

pub open spec fn bytes_seq(v: Seq<Vec<u8>>) -> Seq<Seq<u8>> {
    Seq::new(v.len(), |i: int| v[i]@)
}

/// `L_i(τ)` for every `i < 2^v`, variable 0 being the most significant bit of `i`.
#[verifier::spinoff_prover]
#[verifier::rlimit(50)]
pub fn compute_lagrange_basis(tau_arr: &[Fe]) -> (r: Vec<Fe>)
    requires
        tau_arr@.len() <= 30,
    ensures
        vals(r@) == lagrange_basis(vals(tau_arr@)),
{
    let v = tau_arr.len();
    let ghost taus = vals(tau_arr@);
    proof {
        crate::circuit::lemma_two_pow_monotone(v as nat, 31);
        assert(two_pow(31) == 0x8000_0000) by {
            reveal_with_fuel(two_pow, 32);
        }
    }
    let size = crate::circuit::pow2_usize(v);
    let mut results: Vec<Fe> = Vec::new();
    let mut i: usize = 0;
    while i < size
        invariant
            taus == vals(tau_arr@),
            v == taus.len(),
            v <= 30,
            size == two_pow(v as nat),
            size <= 0x8000_0000,
            i <= size,
            vals(results@) =~= lagrange_basis(taus).subrange(0, i as int),
        decreases size - i,
    {
        let mut product = Fe::one();
        let mut j: usize = 0;
        while j < v
            invariant
                taus == vals(tau_arr@),
                v == taus.len(),
                v <= 30,
                i < size,
                j <= v,
                product.val() == basis_prefix(taus, i as int, j as nat),
            decreases v - j,
        {
            proof {
                crate::circuit::lemma_two_pow_monotone((v - 1 - j) as nat, 30);
                assert(two_pow(30) == 0x4000_0000) by {
                    reveal_with_fuel(two_pow, 31);
                }
                crate::circuit::lemma_two_pow_monotone(0, (v - 1 - j) as nat);
                assert(two_pow(0) == 1);
            }
            let p = crate::circuit::pow2_usize(v - 1 - j);
            let factor = if (i / p) % 2 == 1 {
                tau_arr[j]
            } else {
                Fe::one().sub(tau_arr[j])
            };
            product = product.mul(factor);
            j = j + 1;
        }
        let ghost before = vals(results@);
        results.push(product);
        assert(vals(results@) =~= before.push(product.val()));
        i = i + 1;
    }
    results
}

/// The encrypted Lagrange basis `g₁^{L_i(τ)}` and the encrypted `g₂^{τ_j}`.
pub fn initialize(tau_arr: &[Fe]) -> (r: TrustedSetup)
    requires
        tau_arr@.len() <= 30,
    ensures
        r.max_input == tau_arr@.len(),
        bytes_seq(r.g1_arr@) == Seq::new(
            two_pow(tau_arr@.len() as nat),
            |i: int| g1_gen_mul(scalar_bytes(lagrange_basis(vals(tau_arr@))[i])),
        ),
        bytes_seq(r.g2_arr@) == Seq::new(tau_arr@.len(), |j: int| g2_gen_mul(scalar_bytes(tau_arr@[j].val()))),
        forall|i: int| 0 <= i < r.g1_arr@.len() ==> is_g1(#[trigger] r.g1_arr@[i]@),
        forall|j: int| 0 <= j < r.g2_arr@.len() ==> is_g2(#[trigger] r.g2_arr@[j]@),
{
    let basis = compute_lagrange_basis(tau_arr);
    let ghost lb = lagrange_basis(vals(tau_arr@));
    assert(vals(basis@).len() == basis@.len());
    let mut g1_arr: Vec<Vec<u8>> = Vec::new();
    let mut i: usize = 0;
    while i < basis.len()
        invariant
            vals(basis@) == lb,
            lb == lagrange_basis(vals(tau_arr@)),
            i <= basis@.len(),
            bytes_seq(g1_arr@) =~= Seq::new(i as nat, |k: int| g1_gen_mul(scalar_bytes(lb[k]))),
            forall|k: int| 0 <= k < g1_arr@.len() ==> is_g1(#[trigger] g1_arr@[k]@),
        decreases basis@.len() - i,
    {
        let s = basis[i].to_bytes_be();
        let p = ark_g1_gen_mul(s.as_slice());
        let ghost before = bytes_seq(g1_arr@);
        g1_arr.push(p);
        assert(bytes_seq(g1_arr@) =~= before.push(p@));
        i = i + 1;
    }
    let mut g2_arr: Vec<Vec<u8>> = Vec::new();
    let mut j: usize = 0;
    while j < tau_arr.len()
        invariant
            j <= tau_arr@.len(),
            bytes_seq(g2_arr@) =~= Seq::new(j as nat, |k: int| g2_gen_mul(scalar_bytes(tau_arr@[k].val()))),
            forall|k: int| 0 <= k < g2_arr@.len() ==> is_g2(#[trigger] g2_arr@[k]@),
        decreases tau_arr@.len() - j,
    {
        let s = tau_arr[j].to_bytes_be();
        let p = ark_g2_gen_mul(s.as_slice());
        let ghost before = bytes_seq(g2_arr@);
        g2_arr.push(p);
        assert(bytes_seq(g2_arr@) =~= before.push(p@));
        j = j + 1;
    }
    TrustedSetup { max_input: tau_arr.len(), g1_arr, g2_arr }
}

proof fn lemma_msm_none(points: Seq<Seq<u8>>, scalars: Seq<int>, i: nat, n: nat)
    requires
        1 <= i <= n,
        msm(points, scalars, i) is None,
    ensures
        msm(points, scalars, n) is None,
    decreases n - i,
{
    if i < n {
        lemma_msm_none(points, scalars, i + 1, n);
    }
}

/// `Σ poly[i]·basis[i]` in G1; `None` when the lengths differ or a point does not decode.
pub fn compute_commitment(poly: &MultiLinearPoly, encrypted_basis: &Vec<Vec<u8>>) -> (r: Option<Vec<u8>>)
    ensures
        r matches Some(c) ==> commitment_of(bytes_seq(encrypted_basis@), poly.table()) == Some(c@),
        r is None ==> commitment_of(bytes_seq(encrypted_basis@), poly.table()) is None,
{
    let n = encrypted_basis.len();
    let ghost pts = bytes_seq(encrypted_basis@);
    let ghost sc = poly.table();
    if poly.computation.len() != n || n == 0 {
        return None;
    }
    let s0 = poly.computation[0].to_bytes_be();
    let mut acc = match ark_g1_mul(encrypted_basis[0].as_slice(), s0.as_slice()) {
        Some(x) => x,
        None => {
            proof {
                lemma_msm_none(pts, sc, 1, n as nat);
            }
            return None;
        },
    };
    let mut i: usize = 1;
    while i < n
        invariant
            n == encrypted_basis@.len(),
            n == poly.computation@.len(),
            pts == bytes_seq(encrypted_basis@),
            sc == poly.table(),
            1 <= i <= n,
            msm(pts, sc, i as nat) == Some(acc@),
            is_g1(acc@),
        decreases n - i,
    {
        let s = poly.computation[i].to_bytes_be();
        let term = match ark_g1_mul(encrypted_basis[i].as_slice(), s.as_slice()) {
            Some(x) => x,
            None => {
                proof {
                    lemma_msm_none(pts, sc, (i + 1) as nat, n as nat);
                }
                return None;
            },
        };
        acc = match ark_g1_add(acc.as_slice(), term.as_slice()) {
            Some(x) => x,
            None => {
                return None;
            },
        };
        i = i + 1;
    }
    Some(acc)
}

/// The table minus the polynomial's value at the point.
pub fn compute_poly_minus_v(poly: &MultiLinearPoly, vars_to_open: &[Fe]) -> (r: MultiLinearPoly)
    requires
        poly.well_formed(),
        vars_to_open@.len() == log2(poly.computation@.len() as int),
    ensures
        r.table() == minus_value(poly.table(), mle_fold(poly.table(), vals(vars_to_open@))),
        r.well_formed(),
{
    let point = crate::bytes::copy_fes(vars_to_open);
    let v = poly.evaluate(point).computation[0];
    let mut out: Vec<Fe> = Vec::new();
    let mut i: usize = 0;
    while i < poly.computation.len()
        invariant
            i <= poly.computation@.len(),
            vals(out@) =~= minus_value(poly.table(), v.val()).subrange(0, i as int),
        decreases poly.computation@.len() - i,
    {
        let x = poly.computation[i].sub(v);
        let ghost before = vals(out@);
        out.push(x);
        assert(vals(out@) =~= before.push(x.val()));
        i = i + 1;
    }
    assert(vals(out@).len() == out@.len());
    MultiLinearPoly { computation: out }
}

/// The quotient by variable 0: the second half minus the first.
pub fn compute_quotient(poly: &MultiLinearPoly) -> (r: MultiLinearPoly)
    ensures
        r.table() == quotient_table(poly.table()),
{
    let h = poly.computation.len() / 2;
    let mut out: Vec<Fe> = Vec::new();
    let mut i: usize = 0;
    while i < h
        invariant
            h == poly.computation@.len() / 2,
            poly.computation@.len() <= usize::MAX,
            i <= h,
            vals(out@) =~= quotient_table(poly.table()).subrange(0, i as int),
        decreases h - i,
    {
        let x = poly.computation[i + h].sub(poly.computation[i]);
        let ghost before = vals(out@);
        out.push(x);
        assert(vals(out@) =~= before.push(x.val()));
        i = i + 1;
    }
    MultiLinearPoly { computation: out }
}

/// The remainder: variable 0 fixed at `eval_point`.
pub fn compute_remainder(poly: &MultiLinearPoly, eval_point: Fe) -> (r: MultiLinearPoly)
    ensures
        r.table() == fold_first(poly.table(), eval_point.val()),
{
    let t = crate::multilinear::fold_table(poly.computation.as_slice(), eval_point);
    MultiLinearPoly { computation: t }
}

/// The table doubled `blow_up_times` times.
pub fn blow_up(poly: &MultiLinearPoly, blow_up_times: usize) -> (r: MultiLinearPoly)
    requires
        poly.computation@.len() * two_pow(blow_up_times as nat) <= usize::MAX,
    ensures
        r.table() == blown(poly.table(), blow_up_times as nat),
{
    let mut cur = crate::bytes::copy_fes(poly.computation.as_slice());
    let mut k: usize = 0;
    assert(two_pow(0) == 1);
    assert(cur@.len() == poly.computation@.len() * two_pow(0));
    while k < blow_up_times
        invariant
            k <= blow_up_times,
            vals(cur@) == blown(poly.table(), k as nat),
            cur@.len() == poly.computation@.len() * two_pow(k as nat),
            poly.computation@.len() * two_pow(blow_up_times as nat) <= usize::MAX,
        decreases blow_up_times - k,
    {
        proof {
            crate::circuit::lemma_two_pow_monotone((k + 1) as nat, blow_up_times as nat);
            vstd::arithmetic::mul::lemma_mul_inequality(
                two_pow((k + 1) as nat) as int,
                two_pow(blow_up_times as nat) as int,
                poly.computation@.len() as int,
            );
            vstd::arithmetic::mul::lemma_mul_is_distributive_add(
                poly.computation@.len() as int,
                two_pow(k as nat) as int,
                two_pow(k as nat) as int,
            );
        }
        let n = cur.len();
        let mut next = crate::bytes::copy_fes(cur.as_slice());
        let mut i: usize = 0;
        while i < n
            invariant
                n == cur@.len(),
                i <= n,
                next@.len() == n + i,
                vals(next@) =~= vals(cur@) + vals(cur@).subrange(0, i as int),
            decreases n - i,
        {
            let ghost before = vals(next@);
            next.push(cur[i]);
            assert(vals(next@) =~= before.push(cur@[i as int].val()));
            i = i + 1;
        }
        cur = next;
        k = k + 1;
    }
    MultiLinearPoly { computation: cur }
}

/// `Σ_{j<n} e(Q_j, g₂^{τ_j} - g₂^{a_j})`, from the first term on; `None` when a point
/// does not decode.
pub open spec fn pairing_rhs(qs: Seq<Seq<u8>>, taus: Seq<Seq<u8>>, point: Seq<int>, n: nat) -> Option<Seq<u8>>
    decreases n,
{
    if n == 0 {
        None
    } else {
        let j = n - 1;
        let d = g2_sum(taus[j], g2_gen_mul(scalar_bytes(fsub(0, point[j]))));
        let e = pairing_value(qs[j], d);
        if !(is_g2(taus[j]) && is_g1(qs[j])) {
            None
        } else if n == 1 {
            Some(e)
        } else {
            match pairing_rhs(qs, taus, point, (n - 1) as nat) {
                None => None,
                Some(acc) => Some(gt_sum(acc, e)),
            }
        }
    }
}

/// `e(C - g₁^v, g₂)`; `None` when the commitment does not decode.
pub open spec fn pairing_lhs(c: Seq<u8>, v: int) -> Option<Seq<u8>> {
    if is_g1(c) {
        Some(
            pairing_value(
                g1_sum(c, g1_gen_mul(scalar_bytes(fsub(0, v)))),
                g2_gen_mul(scalar_bytes(1)),
            ),
        )
    } else {
        None
    }
}

proof fn lemma_rhs_none(qs: Seq<Seq<u8>>, taus: Seq<Seq<u8>>, point: Seq<int>, i: nat, n: nat)
    requires
        1 <= i <= n,
        pairing_rhs(qs, taus, point, i) is None,
    ensures
        pairing_rhs(qs, taus, point, n) is None,
    decreases n - i,
{
    if i < n {
        lemma_rhs_none(qs, taus, point, i + 1, n);
    }
}

proof fn lemma_blow_len(q_len: nat, nv: nat, i: nat)
    requires
        i < nv,
        q_len == two_pow((nv - i - 1) as nat),
        two_pow(nv) <= 0x4000_0000,
    ensures
        q_len * two_pow(i + 1) <= usize::MAX,
{
    crate::circuit::lemma_two_pow_add((nv - i - 1) as nat, i + 1);
    assert((nv - i - 1) as nat + (i + 1) == nv);
}

/// The multi-scalar sum exists when every point decodes.
proof fn lemma_msm_some(points: Seq<Seq<u8>>, scalars: Seq<int>, n: nat)
    requires
        1 <= n <= points.len(),
        forall|i: int| 0 <= i < points.len() ==> is_g1(#[trigger] points[i]),
    ensures
        msm(points, scalars, n) is Some,
    decreases n,
{
    if n > 1 {
        lemma_msm_some(points, scalars, (n - 1) as nat);
        assert(is_g1(points[n - 1]));
    } else {
        assert(is_g1(points[0]));
    }
}

proof fn lemma_reduced_len(t: Seq<int>, point: Seq<int>, j: nat, v: nat)
    requires
        t.len() == two_pow(v),
        j <= v,
    ensures
        reduced(t, point, j).len() == two_pow((v - j) as nat),
    decreases j,
{
    if j > 0 {
        lemma_reduced_len(t, point, (j - 1) as nat, v);
        assert(two_pow((v - j + 1) as nat) == 2 * two_pow((v - j) as nat));
    }
}

proof fn lemma_blown_len(t: Seq<int>, k: nat)
    ensures
        blown(t, k).len() == t.len() * two_pow(k),
    decreases k,
{
    if k > 0 {
        lemma_blown_len(t, (k - 1) as nat);
        let a = t.len() as int;
        let b = two_pow((k - 1) as nat) as int;
        assert(a * b + a * b == a * (2 * b)) by (nonlinear_arith);
    } else {
        assert(t.len() * 1 == t.len());
    }
}

/// One decoding point of G1 per entry of a table of `n` entries.
pub open spec fn basis_fits(basis: Seq<Vec<u8>>, n: nat) -> bool {
    basis.len() == n && forall|i: int| 0 <= i < basis.len() ==> is_g1(#[trigger] basis[i]@)
}

/// On a basis of decoding points, one per table entry, every commitment of an opening
/// can be formed.
proof fn lemma_opening_commitments(basis: Seq<Seq<u8>>, t: Seq<int>, point: Seq<int>)
    requires
        basis.len() == t.len(),
        t.len() == two_pow(point.len()),
        forall|i: int| 0 <= i < basis.len() ==> is_g1(#[trigger] basis[i]),
    ensures
        commitment_of(basis, t) is Some,
        forall|j: int|
            0 <= j < point.len() ==> (#[trigger] commitment_of(basis, opening_quotient(t, point, j as nat))) is Some,
{
    crate::circuit::lemma_two_pow_pos(point.len());
    lemma_msm_some(basis, t, basis.len());
    assert forall|j: int| 0 <= j < point.len() implies (#[trigger] commitment_of(
        basis,
        opening_quotient(t, point, j as nat),
    )) is Some by {
        let v = point.len();
        let mv = minus_value(t, mle_fold(t, point));
        lemma_reduced_len(mv, point, j as nat, v);
        let q = quotient_table(reduced(mv, point, j as nat));
        assert(two_pow((v - j) as nat) == 2 * two_pow((v - j - 1) as nat));
        assert(q.len() == two_pow((v - j - 1) as nat));
        lemma_blown_len(q, (j + 1) as nat);
        crate::circuit::lemma_two_pow_add((v - j - 1) as nat, (j + 1) as nat);
        assert((v - j - 1) as nat + (j + 1) as nat == v);
        lemma_msm_some(basis, opening_quotient(t, point, j as nat), basis.len());
    }
}

proof fn lemma_fits_commitments(basis: Seq<Vec<u8>>, t: Seq<int>, point: Seq<int>)
    requires
        is_pow2(t.len() as int),
        point.len() == log2(t.len() as int),
    ensures
        basis_fits(basis, t.len()) ==> commitment_of(bytes_seq(basis), t) is Some,
        basis_fits(basis, t.len()) ==> forall|j: int|
            0 <= j < point.len() ==> (#[trigger] commitment_of(bytes_seq(basis), opening_quotient(t, point, j as nat))) is Some,
{
    if basis_fits(basis, t.len()) {
        crate::field::lemma_pow2_log(t.len() as int);
        assert forall|i: int| 0 <= i < bytes_seq(basis).len() implies is_g1(#[trigger] bytes_seq(basis)[i]) by {
            assert(bytes_seq(basis)[i] == basis[i]@);
        }
        lemma_opening_commitments(bytes_seq(basis), t, point);
    }
}

/// Opens the polynomial at `vars_to_open`: the value `v`, the commitment, and per
/// variable the commitment of the quotient of `poly - v` by that variable, blown back
/// up to all variables, before the variable is fixed at its coordinate.
pub fn prove(poly: &MultiLinearPoly, encrypted_basis: &Vec<Vec<u8>>, vars_to_open: &[Fe]) -> (r: Option<KZGProof>)
    requires
        poly.well_formed(),
        poly.computation@.len() <= 0x4000_0000,
        vars_to_open@.len() == log2(poly.computation@.len() as int),
    ensures
        r matches Some(p) ==> {
            let t = poly.table();
            let pt = vals(vars_to_open@);
            let basis = bytes_seq(encrypted_basis@);
            &&& p.poly_opened.val() == mle_fold(t, pt)
            &&& commitment_of(basis, t) == Some(p.commitment@)
            &&& p.quotient_evals@.len() == pt.len()
            &&& forall|j: int|
                0 <= j < pt.len() ==> commitment_of(basis, opening_quotient(t, pt, j as nat)) == Some(
                    (#[trigger] p.quotient_evals@[j])@,
                )
        },
        basis_fits(encrypted_basis@, poly.computation@.len()) ==> r is Some,
        r is None <==> commitment_of(bytes_seq(encrypted_basis@), poly.table()) is None || exists|j: int|
            0 <= j < vars_to_open@.len() && (#[trigger] commitment_of(
                bytes_seq(encrypted_basis@),
                opening_quotient(poly.table(), vals(vars_to_open@), j as nat),
            )) is None,
{
    let ghost t = poly.table();
    let ghost pt = vals(vars_to_open@);
    let ghost basis = bytes_seq(encrypted_basis@);
    proof {
        lemma_fits_commitments(encrypted_basis@, t, pt);
    }
    let v = poly.evaluate(crate::bytes::copy_fes(vars_to_open)).computation[0];
    let commitment = match compute_commitment(poly, encrypted_basis) {
        Some(c) => c,
        None => {
            return None;
        },
    };
    let mut pmv = compute_poly_minus_v(poly, vars_to_open);
    let ghost mv = pmv.table();
    let nv = vars_to_open.len();
    proof {
        crate::field::lemma_pow2_log(poly.computation@.len() as int);
        assert(vals(pmv.computation@).len() == pmv.computation@.len());
        assert(reduced(mv, pt, 0) == mv);
    }
    let mut quotient_evals: Vec<Vec<u8>> = Vec::new();
    let mut i: usize = 0;
    while i < nv
        invariant
            nv == pt.len(),
            pt == vals(vars_to_open@),
            basis == bytes_seq(encrypted_basis@),
            t == poly.table(),
            mv == minus_value(t, mle_fold(t, pt)),
            two_pow(nv as nat) == poly.computation@.len(),
            two_pow(nv as nat) <= 0x4000_0000,
            i <= nv,
            pmv.table() == reduced(mv, pt, i as nat),
            pmv.computation@.len() == two_pow((nv - i) as nat),
            quotient_evals@.len() == i,
            commitment_of(basis, t) is Some,
            basis_fits(encrypted_basis@, poly.computation@.len()) ==> forall|j: int|
                0 <= j < pt.len() ==> (#[trigger] commitment_of(basis, opening_quotient(t, pt, j as nat))) is Some,
            forall|j: int|
                0 <= j < i ==> commitment_of(basis, opening_quotient(t, pt, j as nat)) == Some(
                    (#[trigger] quotient_evals@[j])@,
                ),
        decreases nv - i,
    {
        proof {
            assert(two_pow((nv - i) as nat) == 2 * two_pow((nv - i - 1) as nat));
        }
        let q = compute_quotient(&pmv);
        proof {
            assert(vals(q.computation@).len() == q.computation@.len());
            lemma_blow_len(q.computation@.len() as nat, nv as nat, i as nat);
        }
        let bq = blow_up(&q, i + 1);
        assert(bq.table() == opening_quotient(t, pt, i as nat));
        let qe = match compute_commitment(&bq, encrypted_basis) {
            Some(c) => c,
            None => {
                assert(commitment_of(basis, opening_quotient(t, pt, i as nat)) is None);
                return None;
            },
        };
        quotient_evals.push(qe);
        pmv = compute_remainder(&pmv, vars_to_open[i]);
        proof {
            assert(vals(pmv.computation@).len() == pmv.computation@.len());
        }
        i = i + 1;
    }
    proof {
        assert forall|j: int| 0 <= j < nv implies !((#[trigger] commitment_of(
            basis,
            opening_quotient(t, pt, j as nat),
        )) is None) by {
            assert(commitment_of(basis, opening_quotient(t, pt, j as nat)) == Some(quotient_evals@[j]@));
        }
    }
    Some(KZGProof { commitment, quotient_evals, poly_opened: v })
}

/// The pairing check `e(C - g₁^v, g₂) = Σ_j e(Q_j, g₂^{τ_j} - g₂^{a_j})`; false when
/// the numbers of quotients, of setup elements and of coordinates differ.
pub fn verify(kzg_proof: &KZGProof, encrypted_taus: &Vec<Vec<u8>>, vars_to_open: &[Fe]) -> (r: bool)
    ensures
        r == {
            let n = vars_to_open@.len();
            let qs = bytes_seq(kzg_proof.quotient_evals@);
            let taus = bytes_seq(encrypted_taus@);
            let pt = vals(vars_to_open@);
            &&& n >= 1
            &&& encrypted_taus@.len() == n
            &&& kzg_proof.quotient_evals@.len() == n
            &&& pairing_lhs(kzg_proof.commitment@, kzg_proof.poly_opened.val()) is Some
            &&& pairing_rhs(qs, taus, pt, n as nat) is Some
            &&& pairing_lhs(kzg_proof.commitment@, kzg_proof.poly_opened.val())
                == pairing_rhs(qs, taus, pt, n as nat)
        },
{
    let n = vars_to_open.len();
    if n == 0 || encrypted_taus.len() != n || kzg_proof.quotient_evals.len() != n {
        return false;
    }
    let ghost qs = bytes_seq(kzg_proof.quotient_evals@);
    let ghost taus = bytes_seq(encrypted_taus@);
    let ghost pt = vals(vars_to_open@);
    let mut rhs: Vec<u8> = Vec::new();
    let mut i: usize = 0;
    while i < n
        invariant
            n == pt.len(),
            n == encrypted_taus@.len(),
            n == kzg_proof.quotient_evals@.len(),
            qs == bytes_seq(kzg_proof.quotient_evals@),
            taus == bytes_seq(encrypted_taus@),
            pt == vals(vars_to_open@),
            i <= n,
            i >= 1 ==> pairing_rhs(qs, taus, pt, i as nat) == Some(rhs@) && is_gt(rhs@),
        decreases n - i,
    {
        let neg_a = Fe::zero().sub(vars_to_open[i]);
        let ga = ark_g2_gen_mul(neg_a.to_bytes_be().as_slice());
        let d = match ark_g2_add(encrypted_taus[i].as_slice(), ga.as_slice()) {
            Some(x) => x,
            None => {
                proof {
                    lemma_rhs_none(qs, taus, pt, (i + 1) as nat, n as nat);
                }
                return false;
            },
        };
        let e = match ark_pairing(kzg_proof.quotient_evals[i].as_slice(), d.as_slice()) {
            Some(x) => x,
            None => {
                proof {
                    lemma_rhs_none(qs, taus, pt, (i + 1) as nat, n as nat);
                }
                return false;
            },
        };
        if i == 0 {
            rhs = e;
        } else {
            rhs = match ark_gt_add(rhs.as_slice(), e.as_slice()) {
                Some(x) => x,
                None => {
                    return false;
                },
            };
        }
        i = i + 1;
    }
    let neg_v = Fe::zero().sub(kzg_proof.poly_opened);
    let gv = ark_g1_gen_mul(neg_v.to_bytes_be().as_slice());
    let cm = match ark_g1_add(kzg_proof.commitment.as_slice(), gv.as_slice()) {
        Some(x) => x,
        None => {
            return false;
        },
    };
    let g2_one = ark_g2_gen_mul(Fe::one().to_bytes_be().as_slice());
    let lhs = match ark_pairing(cm.as_slice(), g2_one.as_slice()) {
        Some(x) => x,
        None => {
            return false;
        },
    };
    crate::bytes::bytes_eq(lhs.as_slice(), rhs.as_slice())
}

/// The pairing check of `verify`, on the proof's parts.
pub open spec fn verify_accepts(commitment: Seq<u8>, quotients: Seq<Vec<u8>>, opened: Fe, taus: Seq<Vec<u8>>, point: Seq<int>) -> bool {
    let n = point.len();
    &&& n >= 1
    &&& taus.len() == n
    &&& quotients.len() == n
    &&& pairing_lhs(commitment, opened.val()) is Some
    &&& pairing_rhs(bytes_seq(quotients), bytes_seq(taus), point, n as nat) is Some
    &&& pairing_lhs(commitment, opened.val()) == pairing_rhs(bytes_seq(quotients), bytes_seq(taus), point, n as nat)
}

pub fn copy_points(v: &Vec<Vec<u8>>) -> (r: Vec<Vec<u8>>)
    ensures
        bytes_seq(r@) == bytes_seq(v@),
        r@.len() == v@.len(),
{
    let mut out: Vec<Vec<u8>> = Vec::new();
    let mut i: usize = 0;
    while i < v.len()
        invariant
            i <= v@.len(),
            bytes_seq(out@) =~= bytes_seq(v@).subrange(0, i as int),
        decreases v@.len() - i,
    {
        let c = crate::bytes::copy_bytes(v[i].as_slice());
        let ghost before = bytes_seq(out@);
        out.push(c);
        assert(bytes_seq(out@) =~= before.push(c@));
        i = i + 1;
    }
    out
}

#[derive(Debug, Clone, Copy, PartialEq, Eq, Structural)]
pub enum Operator {
    Add,
    Mul,
    Sub,
}

pub open spec fn operator_value(op: Operator, a: int, b: int) -> int {
    match op {
        Operator::Add => crate::field::fadd(a, b),
        Operator::Mul => fmul(a, b),
        Operator::Sub => fsub(a, b),
    }
}

/// The elementwise sum, product or difference of two tables of one length.
pub fn element_wise_op(poly_a: &[Fe], poly_b: &[Fe], op: Operator) -> (r: Vec<Fe>)
    requires
        poly_a@.len() == poly_b@.len(),
    ensures
        vals(r@) == Seq::new(poly_a@.len(), |i: int| operator_value(op, poly_a@[i].val(), poly_b@[i].val())),
{
    let mut out: Vec<Fe> = Vec::new();
    let mut i: usize = 0;
    while i < poly_a.len()
        invariant
            poly_a@.len() == poly_b@.len(),
            i <= poly_a@.len(),
            vals(out@) =~= Seq::new(poly_a@.len(), |i: int| operator_value(op, poly_a@[i].val(), poly_b@[i].val())).subrange(
                0,
                i as int,
            ),
        decreases poly_a@.len() - i,
    {
        let x = match op {
            Operator::Add => poly_a[i].add(poly_b[i]),
            Operator::Mul => poly_a[i].mul(poly_b[i]),
            Operator::Sub => poly_a[i].sub(poly_b[i]),
        };
        let ghost before = vals(out@);
        out.push(x);
        assert(vals(out@) =~= before.push(x.val()));
        i = i + 1;
    }
    out
}

} // verus!
