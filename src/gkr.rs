//! The GKR protocol: per-layer sum-checks from the output down to the inputs,
//! joined by the 2-to-1 reduction.
use vstd::prelude::*;
use crate::circuit::{explode, lemma_wires_len, rows_of, Circuit, GateOp};
use crate::field::{fadd, fmul, is_pow2, two_pow, Fe};
use crate::multilinear::{fold_first, fold_table, mle_fold, table_bytes, vals, MultiLinearPoly};
use crate::product_poly::ProductPoly;
use crate::sum_check::{self, products_shape, products_view, verifier_rounds, round_polys_view, sample_points, max_degree, Proof, ProofError};
use crate::transcript::{challenge_of, keccak256, Transcript};

verus! {

#[derive(Debug, Clone)]
pub struct GKRProof {
    /// The output wires, padded to a power of two.
    pub output_layer: Vec<Fe>,
    /// Per layer from the top, the wire polynomial at `r_b` and at `r_c`.
    pub w_i_evals: Vec<(Fe, Fe)>,
    /// Per layer from the top, the sum-check proof.
    pub p_proofs: Vec<Proof>,
}

/// The table with its leading variables fixed at `rs`, one after another.
pub open spec fn fold_by(t: Seq<int>, rs: Seq<int>) -> Seq<int>
    decreases rs.len(),
{
    if rs.len() == 0 {
        t
    } else {
        fold_by(fold_first(t, rs[0]), rs.drop_first())
    }
}

/// The output wires padded with zeros to `2^out_bits`: the next power of two, and two
/// for a single wire, so that the output has at least one variable.
pub open spec fn pad_output(w: Seq<int>) -> Seq<int> {
    Seq::new(
        two_pow(crate::circuit::out_bits(w.len() as nat)),
        |i: int| crate::univariate::coeff(w, i),
    )
}

/// `α·a[i] + β·b[i]`.
pub open spec fn lincomb(a: Seq<int>, b: Seq<int>, alpha: int, beta: int) -> Seq<int> {
    Seq::new(
        if a.len() <= b.len() {
            a.len()
        } else {
            b.len()
        },
        |i: int| fadd(fmul(alpha, a[i]), fmul(beta, b[i])),
    )
}

pub open spec fn first_half(cs: Seq<int>) -> Seq<int> {
    cs.subrange(0, (cs.len() / 2) as int)
}

pub open spec fn second_half(cs: Seq<int>) -> Seq<int> {
    cs.subrange((cs.len() / 2) as int, cs.len() as int)
}

/// `n` challenges squeezed one after another from transcript state `state`.
pub open spec fn squeeze_run(state: Seq<u8>, n: nat) -> Seq<int>
    decreases n,
{
    if n == 0 {
        Seq::empty()
    } else {
        seq![challenge_of(state)] + squeeze_run(state + keccak256(state), (n - 1) as nat)
    }
}

/// The challenges and last claimed sum of a sum-check proof that its verifier accepts
/// from transcript state `state`.
pub open spec fn accepted_result(p: Proof, state: Seq<u8>) -> Option<(Seq<int>, int)> {
    if p.sum_poly@.len() >= 1 && p.sum_poly@[0].poly_array@.len() <= max_degree() {
        verifier_rounds(
            round_polys_view(p.round_polys@),
            p.init_claimed_sum.val(),
            state,
            sample_points(p.sum_poly@[0].poly_array@.len()),
        )
    } else {
        None
    }
}

/// The transcript state after `n` squeezes from `state`.
pub open spec fn squeezed_state(state: Seq<u8>, n: nat) -> Seq<u8>
    decreases n,
{
    if n == 0 {
        state
    } else {
        squeezed_state(state + keccak256(state), (n - 1) as nat)
    }
}

/// The verifier's walk down the layers from layer `t` from the top, with transcript
/// state `state`, current claim `claimed` and the current layer's wiring tables with
/// their output variables fixed: the last sum-check's challenges, or `None` when a
/// check fails.
pub open spec fn layer_walk(
    gates: Seq<Seq<crate::circuit::Gate>>,
    proofs: Seq<Proof>,
    evals: Seq<(Fe, Fe)>,
    t: nat,
    state: Seq<u8>,
    claimed: int,
    add_r: Seq<int>,
    mul_r: Seq<int>,
) -> Option<Seq<int>>
    decreases gates.len() - t,
{
    let nl = gates.len();
    if t >= nl {
        None
    } else {
        let j = nl - 1 - t;
        let p = proofs[t as int];
        if p.init_claimed_sum.val() != claimed {
            None
        } else {
            match accepted_result(p, state) {
                None => None,
                Some(res) => {
                    let cs = res.0;
                    let fa = fold_by(add_r, cs);
                    let fm = fold_by(mul_r, cs);
                    let eb = evals[t as int].0.val();
                    let ec = evals[t as int].1.val();
                    if fa.len() == 0 || fm.len() == 0 {
                        None
                    } else if fadd(fmul(fa[0], fadd(eb, ec)), fmul(fm[0], fmul(eb, ec))) != res.1 {
                        None
                    } else if j == 0 {
                        Some(cs)
                    } else {
                        let sv = crate::sum_check::verifier_state(round_polys_view(p.round_polys@), state);
                        let alpha = challenge_of(sv);
                        let s1 = sv + keccak256(sv);
                        let beta = challenge_of(s1);
                        let s2 = s1 + keccak256(s1);
                        let g = gates[j - 1];
                        if !crate::circuit::wiring_ok(g) {
                            None
                        } else {
                            let tables = crate::circuit::wiring_tables(g);
                            layer_walk(
                                gates,
                                proofs,
                                evals,
                                t + 1,
                                s2,
                                fadd(fmul(alpha, eb), fmul(beta, ec)),
                                lincomb(fold_by(tables.0, first_half(cs)), fold_by(tables.0, second_half(cs)), alpha, beta),
                                lincomb(fold_by(tables.1, first_half(cs)), fold_by(tables.1, second_half(cs)), alpha, beta),
                            )
                        }
                    }
                },
            }
        }
    }
}

/// The verifier's checks of the layers of a proof: the last sum-check's challenges, or
/// `None` when a check fails.
pub open spec fn gkr_walk(gates: Seq<Seq<crate::circuit::Gate>>, w0: Seq<int>, evals: Seq<(Fe, Fe)>, proofs: Seq<Proof>) -> Option<Seq<int>> {
    let nl = gates.len();
    if nl == 0 || proofs.len() != nl || evals.len() != nl || !is_pow2(w0.len() as int) {
        None
    } else {
        let s0 = table_bytes(w0);
        let nv = crate::field::log2(w0.len() as int);
        let ra = squeeze_run(s0, nv);
        let f0 = fold_by(w0, ra);
        if f0.len() == 0 || !crate::circuit::wiring_ok(gates[nl - 1]) {
            None
        } else {
            let tables = crate::circuit::wiring_tables(gates[nl - 1]);
            layer_walk(gates, proofs, evals, 0, squeezed_state(s0, nv), f0[0], fold_by(tables.0, ra), fold_by(tables.1, ra))
        }
    }
}

proof fn lemma_fold_by_len(t: Seq<int>, rs: Seq<int>, a: nat)
    requires
        t.len() == two_pow(a),
        rs.len() <= a,
    ensures
        fold_by(t, rs).len() == two_pow((a - rs.len()) as nat),
    decreases rs.len(),
{
    if rs.len() > 0 {
        assert(two_pow(a) == 2 * two_pow((a - 1) as nat));
        lemma_fold_by_len(fold_first(t, rs[0]), rs.drop_first(), (a - 1) as nat);
    }
}

proof fn lemma_fold_by_first(t: Seq<int>, rs: Seq<int>)
    ensures
        fold_by(t, rs).len() >= 1 ==> fold_by(t, rs)[0] == mle_fold(t, rs),
    decreases rs.len(),
{
    if rs.len() > 0 {
        lemma_fold_by_first(fold_first(t, rs[0]), rs.drop_first());
    }
}

fn fold_by_exec(t: &Vec<Fe>, rs: &[Fe]) -> (r: Vec<Fe>)
    ensures
        vals(r@) == fold_by(vals(t@), vals(rs@)),
{
    let mut cur = crate::bytes::copy_fes(t.as_slice());
    let ghost v = vals(rs@);
    let mut i: usize = 0;
    assert(v.subrange(0, v.len() as int) =~= v);
    while i < rs.len()
        invariant
            v == vals(rs@),
            i <= v.len(),
            fold_by(vals(t@), v) == fold_by(vals(cur@), v.subrange(i as int, v.len() as int)),
        decreases v.len() - i,
    {
        let ghost rest = v.subrange(i as int, v.len() as int);
        assert(rest.drop_first() =~= v.subrange(i + 1, v.len() as int));
        cur = fold_table(cur.as_slice(), rs[i]);
        i = i + 1;
    }
    assert(v.subrange(i as int, v.len() as int) =~= Seq::<int>::empty());
    cur
}

/// The multilinear extension of `t` at `rs`, when the folded table is not empty.
fn mle_at(t: &Vec<Fe>, rs: &[Fe]) -> (r: Option<Fe>)
    ensures
        r is None <==> fold_by(vals(t@), vals(rs@)).len() == 0,
        r matches Some(v) ==> v.val() == mle_fold(vals(t@), vals(rs@)) && v.val() == fold_by(
            vals(t@),
            vals(rs@),
        )[0],
{
    let folded = fold_by_exec(t, rs);
    assert(vals(folded@).len() == folded@.len());
    if folded.len() == 0 {
        None
    } else {
        proof {
            lemma_fold_by_first(vals(t@), vals(rs@));
            assert(vals(folded@)[0] == folded@[0].val());
        }
        Some(folded[0])
    }
}

fn lincomb_exec(a: &Vec<Fe>, b: &Vec<Fe>, alpha: Fe, beta: Fe) -> (r: Vec<Fe>)
    ensures
        vals(r@) == lincomb(vals(a@), vals(b@), alpha.val(), beta.val()),
{
    let n = if a.len() <= b.len() {
        a.len()
    } else {
        b.len()
    };
    let mut out: Vec<Fe> = Vec::new();
    let mut i: usize = 0;
    while i < n
        invariant
            n == (if a@.len() <= b@.len() {
                a@.len()
            } else {
                b@.len()
            }),
            i <= n,
            vals(out@) =~= lincomb(vals(a@), vals(b@), alpha.val(), beta.val()).subrange(0, i as int),
        decreases n - i,
    {
        let v = alpha.mul(a[i]).add(beta.mul(b[i]));
        let ghost before = vals(out@);
        out.push(v);
        assert(vals(out@) =~= before.push(v.val()));
        i = i + 1;
    }
    out
}

pub fn is_power_of_two(n: usize) -> (r: bool)
    ensures
        r == is_pow2(n as int),
    decreases n,
{
    if n == 0 {
        false
    } else if n == 1 {
        true
    } else if n % 2 != 0 {
        false
    } else {
        is_power_of_two(n / 2)
    }
}

/// Whether the products fit the sum-check prover: one table length, a power of two,
/// and one number of factors.
fn products_ok(ps: &Vec<ProductPoly>) -> (r: bool)
    ensures
        r == (products_shape(products_view(ps@)) && forall|m: int|
            0 <= m < ps@.len() ==> (#[trigger] ps@[m]).well_formed()),
{
    let ghost pv = products_view(ps@);
    if ps.len() == 0 {
        return false;
    }
    if ps[0].poly_array.len() == 0 {
        assert(pv[0].len() == 0);
        return false;
    }
    let d = ps[0].poly_array.len();
    let n = ps[0].poly_array[0].computation.len();
    assert(pv[0][0].len() == n);
    if !is_power_of_two(n) {
        return false;
    }
    if d == usize::MAX {
        assert(!ps@[0].well_formed());
        return false;
    }
    let mut m: usize = 0;
    while m < ps.len()
        invariant
            pv == products_view(ps@),
            ps@.len() >= 1,
            d == ps@[0].poly_array@.len(),
            d >= 1,
            d < usize::MAX,
            n == ps@[0].poly_array@[0].computation@.len(),
            is_pow2(n as int),
            m <= ps@.len(),
            forall|j: int|
                0 <= j < m ==> (#[trigger] ps@[j]).poly_array@.len() == d && forall|f: int|
                    0 <= f < d ==> (#[trigger] ps@[j].poly_array@[f]).computation@.len() == n,
        decreases ps@.len() - m,
    {
        let p = &ps[m];
        if p.poly_array.len() != d {
            assert(pv[m as int].len() != pv[0].len());
            return false;
        }
        let mut f: usize = 0;
        while f < d
            invariant
                pv == products_view(ps@),
                ps@.len() >= 1,
                m < ps@.len(),
                d == ps@[0].poly_array@.len(),
                d >= 1,
                n == ps@[0].poly_array@[0].computation@.len(),
                p == ps@[m as int],
                p.poly_array@.len() == d,
                f <= d,
                forall|g: int| 0 <= g < f ==> (#[trigger] p.poly_array@[g]).computation@.len() == n,
            decreases d - f,
        {
            if p.poly_array[f].computation.len() != n {
                assert(pv[m as int] == ps@[m as int].tables());
                assert(pv[0] == ps@[0].tables());
                assert(pv[m as int][f as int].len() == p.poly_array@[f as int].computation@.len());
                assert(pv[0][0].len() == n);
                assert(pv[m as int][f as int].len() != pv[0][0].len());
                assert(!same_shape_at(pv, m as int)) by {
                    if pv[m as int][0].len() == pv[0][0].len() {
                        assert(pv[m as int][f as int].len() != pv[m as int][0].len());
                    }
                }
                return false;
            }
            f = f + 1;
        }
        m = m + 1;
    }
    assert forall|j: int| 0 <= j < ps@.len() implies (#[trigger] ps@[j]).well_formed() && same_shape_at(pv, j) by {
        assert(ps@[j].poly_array@.len() == d);
        assert(pv[j] == ps@[j].tables());
        assert forall|f: int| 0 <= f < pv[j].len() implies (#[trigger] pv[j][f]).len() == pv[j][0].len() by {
            assert(ps@[j].poly_array@[f].computation@.len() == n);
            assert(ps@[j].poly_array@[0].computation@.len() == n);
        }
        assert(ps@[0].poly_array@[0].computation@.len() == n);
    }
    true
}

pub open spec fn same_shape_at(pv: Seq<Seq<Seq<int>>>, j: int) -> bool {
    crate::product_poly::same_shape(pv[j]) && pv[j].len() == pv[0].len() && pv[j][0].len() == pv[0][0].len()
}

/// The products whose sum a layer's sum-check proves: `add·(W_B + W_C)` and `mul·(W_B·W_C)`.
pub open spec fn layer_products(add_r: Seq<int>, mul_r: Seq<int>, w: Seq<int>) -> Seq<Seq<Seq<int>>> {
    let wb = crate::circuit::explode_left(w);
    let wc = crate::circuit::explode_right(w);
    seq![
        seq![add_r, crate::circuit::elementwise(wb, wc, GateOp::Add)],
        seq![mul_r, crate::circuit::elementwise(wb, wc, GateOp::Mul)],
    ]
}

/// The honest prover's layers from layer `t` from the top: for each, the transcript
/// state before its sum-check, the claim it proves, and the products it sums.
#[verifier::opaque]
pub open spec fn honest_layers(
    gates: Seq<Seq<crate::circuit::Gate>>,
    wires: Seq<Seq<int>>,
    t: nat,
    state: Seq<u8>,
    claimed: int,
    add_r: Seq<int>,
    mul_r: Seq<int>,
) -> Seq<(Seq<u8>, int, Seq<Seq<Seq<int>>>)>
    decreases gates.len() - t,
{
    let nl = gates.len();
    if t >= nl {
        Seq::empty()
    } else {
        let j = nl - 1 - t;
        let w = wires[j];
        let ps = layer_products(add_r, mul_r, w);
        let n = crate::field::log2(ps[0][0].len() as int);
        let rounds = crate::sum_check::prover_rounds(ps, state, n);
        let cs = Seq::new(n, |k: int| rounds[k].1);
        let sa = crate::sum_check::prover_state(ps, state, n);
        let alpha = challenge_of(sa);
        let s1 = sa + keccak256(sa);
        let beta = challenge_of(s1);
        let s2 = s1 + keccak256(s1);
        let eb = mle_fold(w, first_half(cs));
        let ec = mle_fold(w, second_half(cs));
        if j == 0 {
            seq![(state, claimed, ps)]
        } else {
            let tables = crate::circuit::wiring_tables(gates[j - 1]);
            seq![(state, claimed, ps)] + honest_layers(
                gates,
                wires,
                t + 1,
                s2,
                fadd(fmul(alpha, eb), fmul(beta, ec)),
                lincomb(fold_by(tables.0, first_half(cs)), fold_by(tables.0, second_half(cs)), alpha, beta),
                lincomb(fold_by(tables.1, first_half(cs)), fold_by(tables.1, second_half(cs)), alpha, beta),
            )
        }
    }
}

proof fn lemma_honest_layers_len(
    gates: Seq<Seq<crate::circuit::Gate>>,
    wires: Seq<Seq<int>>,
    t: nat,
    state: Seq<u8>,
    claimed: int,
    add_r: Seq<int>,
    mul_r: Seq<int>,
)
    requires
        t <= gates.len(),
    ensures
        honest_layers(gates, wires, t, state, claimed, add_r, mul_r).len() == gates.len() - t,
    decreases gates.len() - t,
{
    reveal(honest_layers);
    let nl = gates.len();
    if t < nl {
        let j = nl - 1 - t;
        let w = wires[j];
        let ps = layer_products(add_r, mul_r, w);
        let n = crate::field::log2(ps[0][0].len() as int);
        let rounds = crate::sum_check::prover_rounds(ps, state, n);
        let cs = Seq::new(n, |k: int| rounds[k].1);
        let sa = crate::sum_check::prover_state(ps, state, n);
        let alpha = challenge_of(sa);
        let s1 = sa + keccak256(sa);
        let beta = challenge_of(s1);
        let s2 = s1 + keccak256(s1);
        let eb = mle_fold(w, first_half(cs));
        let ec = mle_fold(w, second_half(cs));
        if j > 0 {
            let tables = crate::circuit::wiring_tables(gates[j - 1]);
            lemma_honest_layers_len(
                gates,
                wires,
                t + 1,
                s2,
                fadd(fmul(alpha, eb), fmul(beta, ec)),
                lincomb(fold_by(tables.0, first_half(cs)), fold_by(tables.0, second_half(cs)), alpha, beta),
                lincomb(fold_by(tables.1, first_half(cs)), fold_by(tables.1, second_half(cs)), alpha, beta),
            );
        }
    }
}

/// One layer of the honest run, and the run from the next layer on.
proof fn lemma_honest_step(
    gates: Seq<Seq<crate::circuit::Gate>>,
    wires: Seq<Seq<int>>,
    t: nat,
    state: Seq<u8>,
    claimed: int,
    add_r: Seq<int>,
    mul_r: Seq<int>,
    cs: Seq<int>,
    sa: Seq<u8>,
)
    requires
        t < gates.len(),
        cs == Seq::new(
            crate::field::log2(layer_products(add_r, mul_r, wires[gates.len() - 1 - t])[0][0].len() as int),
            |k: int|
                crate::sum_check::prover_rounds(
                    layer_products(add_r, mul_r, wires[gates.len() - 1 - t]),
                    state,
                    crate::field::log2(layer_products(add_r, mul_r, wires[gates.len() - 1 - t])[0][0].len() as int),
                )[k].1,
        ),
        sa == crate::sum_check::prover_state(
            layer_products(add_r, mul_r, wires[gates.len() - 1 - t]),
            state,
            crate::field::log2(layer_products(add_r, mul_r, wires[gates.len() - 1 - t])[0][0].len() as int),
        ),
    ensures
        honest_layers(gates, wires, t, state, claimed, add_r, mul_r)[0] == (
            state,
            claimed,
            layer_products(add_r, mul_r, wires[gates.len() - 1 - t]),
        ),
        t + 1 < gates.len() ==> ({
            let j = gates.len() - 1 - t;
            let w = wires[j];
            let alpha = challenge_of(sa);
            let s1 = sa + keccak256(sa);
            let beta = challenge_of(s1);
            let s2 = s1 + keccak256(s1);
            let tables = crate::circuit::wiring_tables(gates[j - 1]);
            honest_layers(gates, wires, t, state, claimed, add_r, mul_r).drop_first() == honest_layers(
                gates,
                wires,
                t + 1,
                s2,
                fadd(fmul(alpha, mle_fold(w, first_half(cs))), fmul(beta, mle_fold(w, second_half(cs)))),
                lincomb(fold_by(tables.0, first_half(cs)), fold_by(tables.0, second_half(cs)), alpha, beta),
                lincomb(fold_by(tables.1, first_half(cs)), fold_by(tables.1, second_half(cs)), alpha, beta),
            )
        }),
{
    reveal(honest_layers);
    let nl = gates.len();
    let j = nl - 1 - t;
    if j > 0 {
        let h = honest_layers(gates, wires, t, state, claimed, add_r, mul_r);
        assert(h.drop_first() =~= h.subrange(1, h.len() as int));
    }
}

/// A sum-check proof is the honest prover's on the products and from the state of a
/// recorded layer.
pub open spec fn proof_is_honest(p: Proof, layer: (Seq<u8>, int, Seq<Seq<Seq<int>>>)) -> bool {
    &&& p.init_claimed_sum.val() == layer.1
    &&& crate::sum_check::prover_rounds(layer.2, layer.0, p.round_polys@.len() as nat) == Seq::new(
        p.round_polys@.len(),
        |k: int| (vals(p.round_polys@[k]@), p.challenges@[k].val()),
    )
    &&& p.round_polys@.len() == crate::field::log2(layer.2[0][0].len() as int)
}

/// The honest prover's layers of a circuit, from its padded output on.
pub open spec fn honest_run(gates: Seq<Seq<crate::circuit::Gate>>, wires: Seq<Seq<int>>) -> Seq<(Seq<u8>, int, Seq<Seq<Seq<int>>>)> {
    let top = pad_output(wires.last());
    let s0 = table_bytes(top);
    let nv = crate::field::log2(top.len() as int);
    let ra = squeeze_run(s0, nv);
    let tables = crate::circuit::wiring_tables(gates[gates.len() - 1]);
    honest_layers(gates, wires, 0, squeezed_state(s0, nv), mle_fold(top, ra), fold_by(tables.0, ra), fold_by(tables.1, ra))
}

/// The wire values at `r_b` and `r_c` recorded for the layer `t` places from the top.
pub open spec fn evals_match(wires: Seq<Seq<int>>, evals: Seq<(Fe, Fe)>, proofs: Seq<Proof>, t: int) -> bool {
    let j = wires.len() - 2 - t;
    let cs = vals(proofs[t].challenges@);
    &&& evals[t].0.val() == mle_fold(wires[j], first_half(cs))
    &&& evals[t].1.val() == mle_fold(wires[j], second_half(cs))
}

impl Circuit {
    /// Proves the circuit's evaluation: the padded output is absorbed and one challenge
    /// per output variable is squeezed; then, layer by layer from the top, a sum-check
    /// over `add·(W_B + W_C) + mul·(W_B·W_C)` is run and the next claim is the random
    /// combination `α·w(r_b) + β·w(r_c)`. Fails with `InputShape` on a circuit whose
    /// layers do not have power-of-two widths that chain.
    #[verifier::spinoff_prover]
    #[verifier::rlimit(100)]
    pub fn prove(&self) -> (r: Result<GKRProof, ProofError>)
        ensures
            r matches Ok(p) ==> {
                let ws = self.wires();
                let top = pad_output(ws.last());
                &&& vals(p.output_layer@) == top
                &&& p.p_proofs@.len() == self.layers@.len()
                &&& p.w_i_evals@.len() == self.layers@.len()
                &&& p.p_proofs@.len() >= 1
                &&& p.p_proofs@[0].init_claimed_sum.val() == mle_fold(
                    top,
                    squeeze_run(table_bytes(top), crate::field::log2(top.len() as int)),
                )
                &&& forall|t: int| 0 <= t < p.p_proofs@.len() ==> #[trigger] evals_match(ws, p.w_i_evals@, p.p_proofs@, t)
                &&& forall|t: int|
                    0 <= t < p.p_proofs@.len() ==> proof_is_honest(
                        #[trigger] p.p_proofs@[t],
                        honest_run(crate::circuit::gates_view(self.layers@), ws)[t],
                    )
            },
            crate::circuit::gkr_shape(vals(self.inputs@), crate::circuit::gates_view(self.layers@)) ==> r is Ok,
            r is Err ==> r == Err::<GKRProof, ProofError>(ProofError::InputShape),
            r matches Ok(p) ==> (crate::circuit::gkr_shape(vals(self.inputs@), crate::circuit::gates_view(self.layers@))
                ==> forall|t: int|
                0 <= t < p.p_proofs@.len() ==> (#[trigger] p.p_proofs@[t]).challenges@.len() == 2
                    * crate::circuit::in_bits(
                    crate::circuit::gates_view(self.layers@)[self.layers@.len() - 1 - t].len() as nat,
                )),
    {
        let ghost inp = vals(self.inputs@);
        let ghost gs = crate::circuit::gates_view(self.layers@);
        let ghost ok = crate::circuit::gkr_shape(inp, gs);
        if self.layers.len() == 0 || !self.check_fits() {
            return Err(ProofError::InputShape);
        }
        let nl = self.layers.len();
        let wires = self.evaluate_layers();
        let ghost ws = self.wires();
        proof {
            lemma_wires_len(vals(self.inputs@), crate::circuit::gates_view(self.layers@));
            assert(ws.len() == nl + 1);
            assert(rows_of(wires@)[nl as int] == vals(wires@[nl as int]@));
        }
        let top = &wires[nl];
        proof {
            crate::circuit::lemma_output_len(inp, gs);
            if ok {
                assert(crate::circuit::layer_shape(inp, gs, nl - 1));
            }
        }
        if !self.wiring_fits(nl - 1) {
            return Err(ProofError::InputShape);
        }
        let ghost g_top = gs[nl - 1].len() as nat;
        assert(gs[nl - 1] == self.layers@[nl - 1].gates@);
        assert(top@.len() == g_top);
        let ob_top = crate::circuit::bits_of_outputs(top.len());
        proof {
            crate::circuit::lemma_two_pow_monotone(ob_top as nat, ob_top as nat + 2 * crate::circuit::in_bits(g_top));
            crate::fri::lemma_two_pow_is_pow2(ob_top as nat);
            crate::circuit::lemma_log2_pow2(ob_top as nat);
        }
        let width = crate::circuit::pow2_usize(ob_top);
        let mut w0: Vec<Fe> = Vec::new();
        let mut i0: usize = 0;
        while i0 < width
            invariant
                i0 <= width,
                width == two_pow(ob_top as nat),
                vals(w0@) =~= Seq::new(width as nat, |i: int| crate::univariate::coeff(vals(top@), i)).subrange(
                    0,
                    i0 as int,
                ),
            decreases width - i0,
        {
            let v = if i0 < top.len() {
                top[i0]
            } else {
                Fe::zero()
            };
            let ghost before = vals(w0@);
            w0.push(v);
            assert(vals(w0@) =~= before.push(v.val()));
            i0 = i0 + 1;
        }
        let ghost top_v = pad_output(ws.last());
        assert(vals(w0@).len() == w0@.len());
        assert(is_pow2(w0@.len() as int));
        assert(vals(w0@) =~= top_v);
        let mut transcript = Transcript::new();
        let bytes = MultiLinearPoly::to_bytes(w0.as_slice());
        transcript.absorb(bytes.as_slice());
        let w0_poly = MultiLinearPoly::new(crate::bytes::copy_fes(w0.as_slice()));
        let nv = w0_poly.variable_count();
        let mut r_a: Vec<Fe> = Vec::new();
        let mut i: usize = 0;
        let ghost st0 = transcript@;
        assert(st0 == table_bytes(top_v));
        while i < nv
            invariant
                i <= nv,
                r_a@.len() == i,
                squeeze_run(st0, nv as nat) == vals(r_a@) + squeeze_run(transcript@, (nv - i) as nat),
                squeezed_state(st0, nv as nat) == squeezed_state(transcript@, (nv - i) as nat),
            decreases nv - i,
        {
            let ghost before = vals(r_a@);
            let c = transcript.squeeze_challenge();
            r_a.push(c);
            assert(vals(r_a@) =~= before.push(c.val()));
            i = i + 1;
        }
        assert(squeeze_run(transcript@, 0) =~= Seq::<int>::empty());
        assert(vals(r_a@) + Seq::<int>::empty() =~= vals(r_a@));
        proof {
            crate::field::lemma_pow2_log(w0@.len() as int);
            assert(vals(r_a@).len() == r_a@.len());
            assert(nv == crate::circuit::out_bits(g_top));
            lemma_fold_by_len(vals(w0@), vals(r_a@), crate::field::log2(w0@.len() as int));
            assert(two_pow(0) == 1);
        }
        let mut claimed = match mle_at(&w0, r_a.as_slice()) {
            Some(v) => v,
            None => return Err(ProofError::InputShape),
        };
        let ghost first_claim = claimed.val();
        let (add, mul) = self.layer_i_add_mul(nl - 1);
        let mut add_r = fold_by_exec(&add, r_a.as_slice());
        let mut mul_r = fold_by_exec(&mul, r_a.as_slice());
        proof {
            if ok {
                let ob = crate::circuit::out_bits(g_top);
                let ib = crate::circuit::in_bits(g_top);
                crate::circuit::lemma_wiring_tables_len(gs[nl - 1]);
                assert(vals(add@).len() == two_pow(ob + 2 * ib));
                lemma_fold_by_len(vals(add@), vals(r_a@), ob + 2 * ib);
                lemma_fold_by_len(vals(mul@), vals(r_a@), ob + 2 * ib);
                assert((ob + 2 * ib - ob) as nat == 2 * ib);
            }
        }
        let ghost hr = honest_run(gs, ws);
        proof {
            assert(vals(r_a@) == squeeze_run(st0, nv as nat));
            assert(gs[nl - 1] == self.layers@[nl - 1].gates@);
            assert(hr == honest_layers(gs, ws, 0, transcript@, claimed.val(), vals(add_r@), vals(mul_r@)));
            lemma_honest_layers_len(gs, ws, 0, transcript@, claimed.val(), vals(add_r@), vals(mul_r@));
            assert(gs.len() == nl);
            assert(hr.subrange(0, nl as int) =~= hr);
        }
        let mut evals: Vec<(Fe, Fe)> = Vec::new();
        let mut proofs: Vec<Proof> = Vec::new();
        let mut k: usize = nl;
        while k > 0
            invariant
                nl == self.layers@.len(),
                ws == self.wires(),
                ws.len() == nl + 1,
                rows_of(wires@) == ws,
                k <= nl,
                evals@.len() == nl - k,
                proofs@.len() == nl - k,
                nl - k >= 1 ==> proofs@[0].init_claimed_sum.val() == first_claim,
                nl - k == 0 ==> claimed.val() == first_claim,
                forall|t: int| 0 <= t < proofs@.len() ==> #[trigger] evals_match(ws, evals@, proofs@, t),
                inp == vals(self.inputs@),
                gs == crate::circuit::gates_view(self.layers@),
                ok == crate::circuit::gkr_shape(inp, gs),
                ok && k > 0 ==> vals(add_r@).len() == two_pow(2 * crate::circuit::in_bits(gs[k - 1].len() as nat))
                    && vals(mul_r@).len() == two_pow(2 * crate::circuit::in_bits(gs[k - 1].len() as nat)),
                ok ==> forall|t: int|
                    0 <= t < proofs@.len() ==> (#[trigger] proofs@[t]).challenges@.len() == 2 * crate::circuit::in_bits(
                        gs[nl - 1 - t].len() as nat,
                    ),
                hr == honest_run(gs, ws),
                hr.len() == nl,
                gs.len() == nl,
                k > 0 ==> hr.subrange((nl - k) as int, nl as int) == honest_layers(
                    gs,
                    ws,
                    (nl - k) as nat,
                    transcript@,
                    claimed.val(),
                    vals(add_r@),
                    vals(mul_r@),
                ),
                forall|t: int| 0 <= t < proofs@.len() ==> proof_is_honest(#[trigger] proofs@[t], hr[t]),
            decreases k,
        {
            let j = k - 1;
            let w = &wires[j];
            assert(rows_of(wires@)[j as int] == vals(w@));
            let ghost ib = crate::circuit::in_bits(gs[j as int].len() as nat);
            proof {
                if ok {
                    assert(crate::circuit::layer_shape(inp, gs, j as int));
                    crate::circuit::lemma_wire_len(inp, gs, j as int);
                    assert(w@.len() == two_pow(ib));
                    crate::circuit::lemma_two_pow_add(ib, ib);
                    assert(ib + ib == 2 * ib);
                    crate::fri::lemma_two_pow_is_pow2(2 * ib);
                    crate::circuit::lemma_log2_pow2(2 * ib);
                }
            }
            if w.len() > 65535 {
                return Err(ProofError::InputShape);
            }
            assert(w@.len() * w@.len() <= 65535 * 65535) by (nonlinear_arith)
                requires
                    w@.len() <= 65535,
            ;
            let (wb, wc) = explode(w);
            assert(vals(wb@).len() == wb@.len() && vals(wc@).len() == wc@.len());
            let st = Circuit::element_wise_op(&wb, &wc, GateOp::Add);
            let mt = Circuit::element_wise_op(&wb, &wc, GateOp::Mul);
            let a_poly = MultiLinearPoly { computation: crate::bytes::copy_fes(add_r.as_slice()) };
            let m_poly = MultiLinearPoly { computation: crate::bytes::copy_fes(mul_r.as_slice()) };
            let p1 = ProductPoly { poly_array: vec![a_poly, MultiLinearPoly { computation: st }] };
            let p2 = ProductPoly { poly_array: vec![m_poly, MultiLinearPoly { computation: mt }] };
            let products = vec![p1, p2];
            proof {
                if ok {
                    let pv = products_view(products@);
                    assert(pv[0][0].len() == two_pow(2 * ib));
                    assert(pv[0][1].len() == two_pow(2 * ib));
                    assert(pv[1][0].len() == two_pow(2 * ib));
                    assert(pv[1][1].len() == two_pow(2 * ib));
                    assert(crate::product_poly::same_shape(pv[0]));
                    assert(crate::product_poly::same_shape(pv[1]));
                    assert(products_shape(pv));
                }
            }
            if !products_ok(&products) {
                return Err(ProofError::InputShape);
            }
            let ghost tt = (nl - k) as int;
            let ghost st_before = transcript@;
            let ghost claim_before = claimed.val();
            let ghost ps_spec = layer_products(vals(add_r@), vals(mul_r@), vals(w@));
            proof {
                assert(products_view(products@) =~= ps_spec) by {
                    assert(products_view(products@)[0] =~= ps_spec[0]);
                    assert(products_view(products@)[1] =~= ps_spec[1]);
                }
                assert(j == nl - 1 - tt);
                assert(hr[tt] == hr.subrange(tt, nl as int)[0]);
                assert(ws[j as int] == vals(w@));
            }
            let p = sum_check::prove_in(&mut transcript, products, claimed);
            let ghost n_r = crate::field::log2(ps_spec[0][0].len() as int);
            let ghost rounds_spec = crate::sum_check::prover_rounds(ps_spec, st_before, n_r);
            proof {
                assert(Seq::new(n_r, |q: int| rounds_spec[q].1) =~= vals(p.challenges@)) by {
                    assert forall|q: int| 0 <= q < n_r implies rounds_spec[q].1 == vals(p.challenges@)[q] by {
                        assert(rounds_spec[q] == Seq::new(
                            p.round_polys@.len(),
                            |k: int| (vals(p.round_polys@[k]@), p.challenges@[k].val()),
                        )[q]);
                    }
                }
                lemma_honest_step(gs, ws, tt as nat, st_before, claim_before, vals(add_r@), vals(mul_r@), vals(p.challenges@), transcript@);
                assert(proof_is_honest(p, hr[tt]));
            }
            let mid = p.challenges.len() / 2;
            let (rb, rc) = p.challenges.as_slice().split_at(mid);
            let ghost cs = vals(p.challenges@);
            assert(vals(rb@) =~= first_half(cs));
            assert(vals(rc@) =~= second_half(cs));
            proof {
                if ok {
                    assert(p.challenges@.len() == 2 * ib);
                    lemma_fold_by_len(vals(w@), vals(rb@), ib);
                    lemma_fold_by_len(vals(w@), vals(rc@), ib);
                    assert(two_pow(0) == 1);
                }
            }
            let eb = match mle_at(w, rb) {
                Some(v) => v,
                None => return Err(ProofError::InputShape),
            };
            let ec = match mle_at(w, rc) {
                Some(v) => v,
                None => return Err(ProofError::InputShape),
            };
            if j > 0 {
                let alpha = transcript.squeeze_challenge();
                let beta = transcript.squeeze_challenge();
                claimed = alpha.mul(eb).add(beta.mul(ec));
                proof {
                    if ok {
                        assert(crate::circuit::layer_shape(inp, gs, j - 1));
                    }
                }
                if !self.wiring_fits(j - 1) {
                    return Err(ProofError::InputShape);
                }
                assert(gs[j - 1] == self.layers@[j - 1].gates@);
                let (add_j, mul_j) = self.layer_i_add_mul(j - 1);
                let fa_b = fold_by_exec(&add_j, rb);
                let fa_c = fold_by_exec(&add_j, rc);
                let fm_b = fold_by_exec(&mul_j, rb);
                let fm_c = fold_by_exec(&mul_j, rc);
                proof {
                    if ok {
                        let g2 = gs[j - 1].len() as nat;
                        let ob2 = crate::circuit::out_bits(g2);
                        let ib2 = crate::circuit::in_bits(g2);
                        assert(g2 == two_pow(ib));
                        crate::circuit::lemma_two_pow_monotone(1, ib);
                        assert(two_pow(1) == 2) by {
                            reveal_with_fuel(two_pow, 2);
                        }
                        crate::circuit::lemma_bits_for_pow2(ib);
                        assert(ob2 == ib);
                        crate::circuit::lemma_wiring_tables_len(gs[j - 1]);
                        lemma_fold_by_len(vals(add_j@), vals(rb@), ob2 + 2 * ib2);
                        lemma_fold_by_len(vals(add_j@), vals(rc@), ob2 + 2 * ib2);
                        lemma_fold_by_len(vals(mul_j@), vals(rb@), ob2 + 2 * ib2);
                        lemma_fold_by_len(vals(mul_j@), vals(rc@), ob2 + 2 * ib2);
                        assert((ob2 + 2 * ib2 - ib) as nat == 2 * ib2);
                    }
                }
                add_r = lincomb_exec(&fa_b, &fa_c, alpha, beta);
                mul_r = lincomb_exec(&fm_b, &fm_c, alpha, beta);
            }
            let ghost old_evals = evals@;
            let ghost old_proofs = proofs@;
            proof {
                let rest = hr.subrange(tt, nl as int);
                if j > 0 {
                    assert(hr.subrange(tt + 1, nl as int) =~= rest.drop_first());
                }
            }
            evals.push((eb, ec));
            proofs.push(p);
            proof {
                assert forall|t: int| 0 <= t < proofs@.len() implies proof_is_honest(#[trigger] proofs@[t], hr[t]) by {
                    if t < old_proofs.len() {
                        assert(proofs@[t] == old_proofs[t]);
                    }
                }
                if ok {
                    assert forall|t: int| 0 <= t < proofs@.len() implies (#[trigger] proofs@[t]).challenges@.len()
                        == 2 * crate::circuit::in_bits(gs[nl - 1 - t].len() as nat) by {
                        if t < old_proofs.len() {
                            assert(proofs@[t] == old_proofs[t]);
                        }
                    }
                }
                assert forall|t: int| 0 <= t < proofs@.len() implies #[trigger] evals_match(ws, evals@, proofs@, t) by {
                    if t < old_proofs.len() {
                        assert(evals_match(ws, old_evals, old_proofs, t));
                        assert(evals@[t] == old_evals[t]);
                        assert(proofs@[t] == old_proofs[t]);
                    } else {
                        assert(t == nl - k);
                        assert(ws.len() - 2 - t == j);
                    }
                }
            }
            k = j;
        }
        Ok(GKRProof { output_layer: w0, w_i_evals: evals, p_proofs: proofs })
    }
}

/// The last layer's recorded values are the input polynomial at the halves of `cs`.
pub open spec fn inputs_match(inputs: Seq<int>, evals: Seq<(Fe, Fe)>, cs: Seq<int>) -> bool {
    &&& evals.last().0.val() == mle_fold(inputs, first_half(cs))
    &&& evals.last().1.val() == mle_fold(inputs, second_half(cs))
}

#[derive(Debug)]
pub struct SuccinctGKRProof {
    pub output_layer: Vec<Fe>,
    pub w_i_evals: Vec<(Fe, Fe)>,
    pub p_proofs: Vec<Proof>,
    pub commitment: Vec<u8>,
    pub quotient_evals_rb: Vec<Vec<u8>>,
    pub quotient_evals_rc: Vec<Vec<u8>>,
}

impl Circuit {
    /// Replays the prover's transcript down to the input layer: each layer's sum-check
    /// must be accepted from the current claim, and its last claimed sum must equal
    /// `add(r)·(w(r_b) + w(r_c)) + mul(r)·(w(r_b)·w(r_c))` with the recorded wire
    /// values. Returns the last sum-check's challenges.
    fn check_layers(&self, output_layer: &Vec<Fe>, w_i_evals: &Vec<(Fe, Fe)>, p_proofs: &Vec<Proof>) -> (r: Option<Vec<Fe>>)
        ensures
            match gkr_walk(crate::circuit::gates_view(self.layers@), vals(output_layer@), w_i_evals@, p_proofs@) {
                None => r is None,
                Some(cs) => r matches Some(v) && vals(v@) == cs,
            },
            r is Some ==> p_proofs@.len() == self.layers@.len() && w_i_evals@.len() == self.layers@.len(),
    {
        let ghost gates = crate::circuit::gates_view(self.layers@);
        let nl = self.layers.len();
        if nl == 0 || p_proofs.len() != nl || w_i_evals.len() != nl {
            return None;
        }
        let w0 = output_layer;
        if !is_power_of_two(w0.len()) {
            return None;
        }
        let mut transcript = Transcript::new();
        let bytes = MultiLinearPoly::to_bytes(w0.as_slice());
        transcript.absorb(bytes.as_slice());
        let ghost s0 = transcript@;
        assert(s0 =~= table_bytes(vals(w0@)));
        let w0_poly = MultiLinearPoly::new(crate::bytes::copy_fes(w0.as_slice()));
        let nv = w0_poly.variable_count();
        let mut r_a: Vec<Fe> = Vec::new();
        let mut i: usize = 0;
        assert(vals(r_a@) + squeeze_run(s0, nv as nat) =~= squeeze_run(s0, nv as nat));
        while i < nv
            invariant
                i <= nv,
                squeeze_run(s0, nv as nat) == vals(r_a@) + squeeze_run(transcript@, (nv - i) as nat),
                squeezed_state(s0, nv as nat) == squeezed_state(transcript@, (nv - i) as nat),
            decreases nv - i,
        {
            let ghost before = vals(r_a@);
            let ghost st = transcript@;
            let c = transcript.squeeze_challenge();
            r_a.push(c);
            assert(vals(r_a@) =~= before.push(c.val()));
            assert(before + squeeze_run(st, (nv - i) as nat) =~= vals(r_a@) + squeeze_run(
                transcript@,
                (nv - i - 1) as nat,
            ));
            i = i + 1;
        }
        assert(vals(r_a@) + squeeze_run(transcript@, 0) =~= vals(r_a@));
        let mut claimed = match mle_at(w0, r_a.as_slice()) {
            Some(v) => v,
            None => return None,
        };
        if !self.wiring_fits(nl - 1) {
            return None;
        }
        assert(gates[nl - 1] == self.layers@[nl - 1].gates@);
        let (add, mul) = self.layer_i_add_mul(nl - 1);
        let mut add_r = fold_by_exec(&add, r_a.as_slice());
        let mut mul_r = fold_by_exec(&mul, r_a.as_slice());
        let ghost whole = gkr_walk(gates, vals(output_layer@), w_i_evals@, p_proofs@);
        let mut t: usize = 0;
        while t < nl
            invariant
                gates == crate::circuit::gates_view(self.layers@),
                nl == self.layers@.len(),
                nl == gates.len(),
                nl == p_proofs@.len(),
                nl == w_i_evals@.len(),
                t < nl,
                whole == gkr_walk(gates, vals(output_layer@), w_i_evals@, p_proofs@),
                whole == layer_walk(gates, p_proofs@, w_i_evals@, t as nat, transcript@, claimed.val(), vals(add_r@), vals(mul_r@)),
            decreases nl - t,
        {
            let j = nl - 1 - t;
            let p = &p_proofs[t];
            assert(*p == p_proofs@[t as int]);
            if p.init_claimed_sum != claimed {
                assert(layer_walk(gates, p_proofs@, w_i_evals@, t as nat, transcript@, claimed.val(), vals(add_r@), vals(mul_r@)) is None);
                return None;
            }
            let ghost st = transcript@;
            let sub = match sum_check::verify_in(&mut transcript, p) {
                Ok(sc) => sc,
                Err(_) => {
                    assert(accepted_result(*p, st) is None);
                    return None;
                },
            };
            let ghost res = accepted_result(*p, st);
            assert(res == Some((vals(sub.challenges@), sub.last_claimed_sum.val())));
            let mid = sub.challenges.len() / 2;
            let (rb, rc) = sub.challenges.as_slice().split_at(mid);
            assert(vals(rb@) =~= first_half(vals(sub.challenges@)));
            assert(vals(rc@) =~= second_half(vals(sub.challenges@)));
            let a_ev = match mle_at(&add_r, sub.challenges.as_slice()) {
                Some(v) => v,
                None => return None,
            };
            let m_ev = match mle_at(&mul_r, sub.challenges.as_slice()) {
                Some(v) => v,
                None => return None,
            };
            let (eb, ec) = w_i_evals[t];
            let check = a_ev.mul(eb.add(ec)).add(m_ev.mul(eb.mul(ec)));
            if check != sub.last_claimed_sum {
                return None;
            }
            if j == 0 {
                return Some(crate::bytes::copy_fes(sub.challenges.as_slice()));
            }
            let alpha = transcript.squeeze_challenge();
            let beta = transcript.squeeze_challenge();
            claimed = alpha.mul(eb).add(beta.mul(ec));
            if !self.wiring_fits(j - 1) {
                return None;
            }
            assert(gates[j - 1] == self.layers@[j - 1].gates@);
            let (add_j, mul_j) = self.layer_i_add_mul(j - 1);
            add_r = lincomb_exec(&fold_by_exec(&add_j, rb), &fold_by_exec(&add_j, rc), alpha, beta);
            mul_r = lincomb_exec(&fold_by_exec(&mul_j, rb), &fold_by_exec(&mul_j, rc), alpha, beta);
            t = t + 1;
        }
        None
    }

    /// Verifies a proof of the circuit's evaluation with the inputs in hand: the layer
    /// checks, then the input polynomial at `r_b` and `r_c` against the recorded values.
    pub fn verify(&self, gkr_proof: &GKRProof) -> (r: bool)
        ensures
            r == match gkr_walk(
                crate::circuit::gates_view(self.layers@),
                vals(gkr_proof.output_layer@),
                gkr_proof.w_i_evals@,
                gkr_proof.p_proofs@,
            ) {
                None => false,
                Some(cs) => fold_by(vals(self.inputs@), first_half(cs)).len() >= 1 && fold_by(
                    vals(self.inputs@),
                    second_half(cs),
                ).len() >= 1 && inputs_match(vals(self.inputs@), gkr_proof.w_i_evals@, cs),
            },
    {
        let cs = match self.check_layers(&gkr_proof.output_layer, &gkr_proof.w_i_evals, &gkr_proof.p_proofs) {
            Some(c) => c,
            None => return false,
        };
        let mid = cs.len() / 2;
        let (rb, rc) = cs.as_slice().split_at(mid);
        assert(vals(rb@) =~= first_half(vals(cs@)));
        assert(vals(rc@) =~= second_half(vals(cs@)));
        let ib = match mle_at(&self.inputs, rb) {
            Some(v) => v,
            None => return false,
        };
        let ic = match mle_at(&self.inputs, rc) {
            Some(v) => v,
            None => return false,
        };
        let n = gkr_proof.w_i_evals.len();
        let (eb, ec) = gkr_proof.w_i_evals[n - 1];
        if ib != eb || ic != ec {
            return false;
        }
        true
    }

    /// Proves the evaluation as `prove` does, and opens the input polynomial with KZG
    /// at `r_b` and at `r_c` of the last sum-check.
    pub fn succinct_proof(&self, encrypted_basis: &Vec<Vec<u8>>) -> (r: Result<SuccinctGKRProof, ProofError>)
        ensures
            r matches Ok(p) ==> {
                let cs = vals(p.p_proofs@.last().challenges@);
                let t = vals(self.inputs@);
                let basis = crate::kzg::bytes_seq(encrypted_basis@);
                &&& p.p_proofs@.len() == self.layers@.len()
                &&& p.w_i_evals@.len() == self.layers@.len()
                &&& p.p_proofs@.len() >= 1
                &&& crate::kzg::commitment_of(basis, t) == Some(p.commitment@)
                &&& p.quotient_evals_rb@.len() == first_half(cs).len()
                &&& p.quotient_evals_rc@.len() == second_half(cs).len()
                &&& p.w_i_evals@.last().0.val() == mle_fold(t, first_half(cs))
                &&& p.w_i_evals@.last().1.val() == mle_fold(t, second_half(cs))
                &&& forall|j: int|
                    0 <= j < first_half(cs).len() ==> crate::kzg::commitment_of(
                        basis,
                        crate::kzg::opening_quotient(t, first_half(cs), j as nat),
                    ) == Some((#[trigger] p.quotient_evals_rb@[j])@)
                &&& forall|j: int|
                    0 <= j < second_half(cs).len() ==> crate::kzg::commitment_of(
                        basis,
                        crate::kzg::opening_quotient(t, second_half(cs), j as nat),
                    ) == Some((#[trigger] p.quotient_evals_rc@[j])@)
                &&& forall|k: int| 0 <= k < p.p_proofs@.len() ==> #[trigger] evals_match(self.wires(), p.w_i_evals@, p.p_proofs@, k)
                &&& forall|k: int|
                    0 <= k < p.p_proofs@.len() ==> proof_is_honest(
                        #[trigger] p.p_proofs@[k],
                        honest_run(crate::circuit::gates_view(self.layers@), self.wires())[k],
                    )
            },
            r matches Ok(p) ==> vals(p.output_layer@) == pad_output(self.wires().last()),
            crate::circuit::gkr_shape(vals(self.inputs@), crate::circuit::gates_view(self.layers@))
                && crate::kzg::basis_fits(encrypted_basis@, self.inputs@.len()) ==> r is Ok,
            r == Err::<SuccinctGKRProof, ProofError>(ProofError::SetupInvalid) ==> !crate::kzg::basis_fits(
                encrypted_basis@,
                self.inputs@.len(),
            ),
            r == Err::<SuccinctGKRProof, ProofError>(ProofError::InputShape) ==> !crate::circuit::gkr_shape(
                vals(self.inputs@),
                crate::circuit::gates_view(self.layers@),
            ),
    {
        let ghost inp = vals(self.inputs@);
        let ghost gs = crate::circuit::gates_view(self.layers@);
        let ghost ok = crate::circuit::gkr_shape(inp, gs);
        let gp = match self.prove() {
            Ok(g) => g,
            Err(e) => {
                return Err(e);
            },
        };
        let n = gp.p_proofs.len();
        let cs = &gp.p_proofs[n - 1].challenges;
        let mid = cs.len() / 2;
        let (rb, rc) = cs.as_slice().split_at(mid);
        assert(vals(rb@) =~= first_half(vals(cs@)));
        assert(vals(rc@) =~= second_half(vals(cs@)));
        let len = self.inputs.len();
        proof {
            if ok {
                assert(crate::circuit::layer_shape(inp, gs, 0));
                assert(cs@.len() == 2 * crate::circuit::in_bits(gs[0].len() as nat));
                crate::fri::lemma_two_pow_is_pow2(crate::circuit::in_bits(gs[0].len() as nat));
                crate::circuit::lemma_log2_pow2(crate::circuit::in_bits(gs[0].len() as nat));
            }
        }
        if !is_power_of_two(len) || len > 0x4000_0000 {
            return Err(ProofError::InputShape);
        }
        let input_poly = MultiLinearPoly::new(crate::bytes::copy_fes(self.inputs.as_slice()));
        let nv = input_poly.variable_count();
        if rb.len() != nv || rc.len() != nv {
            return Err(ProofError::InputShape);
        }
        let open_b = match crate::kzg::prove(&input_poly, encrypted_basis, rb) {
            Some(o) => o,
            None => {
                return Err(ProofError::SetupInvalid);
            },
        };
        let open_c = match crate::kzg::prove(&input_poly, encrypted_basis, rc) {
            Some(o) => o,
            None => {
                return Err(ProofError::SetupInvalid);
            },
        };
        proof {
            assert(evals_match(self.wires(), gp.w_i_evals@, gp.p_proofs@, (n - 1) as int));
            lemma_wires_len(vals(self.inputs@), crate::circuit::gates_view(self.layers@));
            lemma_first_wire(vals(self.inputs@), crate::circuit::gates_view(self.layers@));
        }
        Ok(SuccinctGKRProof {
            output_layer: gp.output_layer,
            w_i_evals: gp.w_i_evals,
            p_proofs: gp.p_proofs,
            commitment: open_b.commitment,
            quotient_evals_rb: open_b.quotient_evals,
            quotient_evals_rc: open_c.quotient_evals,
        })
    }

    /// Verifies the layers as `verify` does, and the input values at `r_b` and `r_c` by
    /// the KZG pairing check against the commitment, in place of the inputs.
    pub fn succinct_verify(&self, proof_data: &SuccinctGKRProof, encrypted_basis_g2: &Vec<Vec<u8>>) -> (r: bool)
        ensures
            r == match gkr_walk(
                crate::circuit::gates_view(self.layers@),
                vals(proof_data.output_layer@),
                proof_data.w_i_evals@,
                proof_data.p_proofs@,
            ) {
                None => false,
                Some(cs) => crate::kzg::verify_accepts(
                        proof_data.commitment@,
                        proof_data.quotient_evals_rb@,
                        proof_data.w_i_evals@.last().0,
                        encrypted_basis_g2@,
                        first_half(cs),
                    ) && crate::kzg::verify_accepts(
                        proof_data.commitment@,
                        proof_data.quotient_evals_rc@,
                        proof_data.w_i_evals@.last().1,
                        encrypted_basis_g2@,
                        second_half(cs),
                    ),
            },
    {
        let cs = match self.check_layers(&proof_data.output_layer, &proof_data.w_i_evals, &proof_data.p_proofs) {
            Some(c) => c,
            None => return false,
        };
        let mid = cs.len() / 2;
        let (rb, rc) = cs.as_slice().split_at(mid);
        assert(vals(rb@) =~= first_half(vals(cs@)));
        assert(vals(rc@) =~= second_half(vals(cs@)));
        let n = proof_data.w_i_evals.len();
        let (eb, ec) = proof_data.w_i_evals[n - 1];
        let kb = crate::kzg::KZGProof {
            commitment: crate::bytes::copy_bytes(proof_data.commitment.as_slice()),
            quotient_evals: crate::kzg::copy_points(&proof_data.quotient_evals_rb),
            poly_opened: eb,
        };
        let kc = crate::kzg::KZGProof {
            commitment: crate::bytes::copy_bytes(proof_data.commitment.as_slice()),
            quotient_evals: crate::kzg::copy_points(&proof_data.quotient_evals_rc),
            poly_opened: ec,
        };
        if !crate::kzg::verify(&kb, encrypted_basis_g2, rb) {
            return false;
        }
        if !crate::kzg::verify(&kc, encrypted_basis_g2, rc) {
            return false;
        }
        true
    }
}

proof fn lemma_first_wire(inp: Seq<int>, ls: Seq<Seq<crate::circuit::Gate>>)
    ensures
        crate::circuit::wire_values(inp, ls)[0] == inp,
    decreases ls.len(),
{
    if ls.len() > 0 {
        lemma_first_wire(inp, ls.drop_last());
        lemma_wires_len(inp, ls.drop_last());
    }
}

impl Circuit {
    /// The 2-to-1 combination of the wiring tables of the layer that outputs wire vector
    /// `index`: with `r_b` and `r_c` the halves of `challenges`, `α·add(r_b) + β·add(r_c)`
    /// and the same for `mul`, `α` and `β` being the protocol's two squeezed challenges.
    /// `None` when that layer's tables cannot be formed.
    pub fn gkr_trick(&self, challenges: &[Fe], index: usize, alpha: Fe, beta: Fe) -> (r: Option<(MultiLinearPoly, MultiLinearPoly)>)
        ensures
            1 <= index <= self.layers@.len() && crate::circuit::wiring_ok(self.layers@[index - 1].gates@)
                ==> r is Some,
            r matches Some(t) ==> {
                let gs = self.layers@[index - 1].gates@;
                let n = gs.len() as nat;
                let size = two_pow(crate::circuit::out_bits(n) + 2 * crate::circuit::in_bits(n));
                let ib = crate::circuit::in_bits(n);
                let cs = vals(challenges@);
                let add = crate::circuit::wiring_table(gs, GateOp::Add, n, size, ib);
                let mul = crate::circuit::wiring_table(gs, GateOp::Mul, n, size, ib);
                &&& 1 <= index <= self.layers@.len()
                &&& t.0.table() == lincomb(
                    fold_by(add, first_half(cs)),
                    fold_by(add, second_half(cs)),
                    alpha.val(),
                    beta.val(),
                )
                &&& t.1.table() == lincomb(
                    fold_by(mul, first_half(cs)),
                    fold_by(mul, second_half(cs)),
                    alpha.val(),
                    beta.val(),
                )
            },
    {
        if index == 0 || index > self.layers.len() || !self.wiring_fits(index - 1) {
            return None;
        }
        let (add, mul) = self.layer_i_add_mul(index - 1);
        let mid = challenges.len() / 2;
        let (rb, rc) = challenges.split_at(mid);
        assert(vals(rb@) =~= first_half(vals(challenges@)));
        assert(vals(rc@) =~= second_half(vals(challenges@)));
        let new_add = lincomb_exec(&fold_by_exec(&add, rb), &fold_by_exec(&add, rc), alpha, beta);
        let new_mul = lincomb_exec(&fold_by_exec(&mul, rb), &fold_by_exec(&mul, rc), alpha, beta);
        Some((MultiLinearPoly { computation: new_add }, MultiLinearPoly { computation: new_mul }))
    }

    /// The 2-to-1 claim on a wire vector: the sum of `α·w(r_b) + β·w(r_c)` over what is
    /// left of the tables once `r_b` and `r_c` (the halves of `challenges`) are fixed,
    /// `α` and `β` being the protocol's two squeezed challenges.
    pub fn new_claimed_sum(&self, w_i_arr: Vec<Fe>, challenges: &[Fe], alpha: Fe, beta: Fe) -> (r: Fe)
        ensures
            r.val() == crate::product_poly::table_sum(
                lincomb(
                    fold_by(vals(w_i_arr@), first_half(vals(challenges@))),
                    fold_by(vals(w_i_arr@), second_half(vals(challenges@))),
                    alpha.val(),
                    beta.val(),
                ),
            ),
    {
        let mid = challenges.len() / 2;
        let (rb, rc) = challenges.split_at(mid);
        assert(vals(rb@) =~= first_half(vals(challenges@)));
        assert(vals(rc@) =~= second_half(vals(challenges@)));
        let combined = lincomb_exec(&fold_by_exec(&w_i_arr, rb), &fold_by_exec(&w_i_arr, rc), alpha, beta);
        crate::product_poly::sum_entries(&combined)
    }
}

} // verus!
