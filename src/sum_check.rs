//! Non-interactive sum-check over a sum of products of multilinear polynomials.
use vstd::prelude::*;
use crate::field::{fadd, is_pow2, lemma_pow2_half, log2, Fe};
use crate::multilinear::{table_bytes, vals, MultiLinearPoly};
use crate::product_poly::{fold_all, round_samples, same_shape, ProductPoly};
use crate::transcript::{challenge_of, keccak256, Transcript};
use crate::univariate::{denominators_nonzero, lagrange_poly, poly_eval, UnivariatePoly};

verus! {

/// Why a proof or its inputs were refused.
#[derive(Debug, Clone, Copy, PartialEq, Eq, Structural)]
pub enum ProofError {
    /// Inputs of the wrong shape.
    InputShape,
    /// A check of the verifier failed.
    ProofInvalid,
    /// The opening does not match the setup.
    SetupInvalid,
}

/// `0 + rows[0][i] + rows[1][i] + …` over the first `m` rows.
pub open spec fn column_sum(rows: Seq<Seq<int>>, i: int, m: nat) -> int
    decreases m,
{
    if m == 0 {
        0
    } else {
        fadd(column_sum(rows, i, (m - 1) as nat), rows[m - 1][i])
    }
}

/// The elementwise sum of rows of one length.
pub open spec fn columns_sum(rows: Seq<Seq<int>>) -> Seq<int> {
    Seq::new(rows[0].len(), |i: int| column_sum(rows, i, rows.len()))
}

/// The samples at `0, …, d` of the round polynomial of a sum of products.
pub open spec fn round_poly(ps: Seq<Seq<Seq<int>>>) -> Seq<int> {
    columns_sum(Seq::new(ps.len(), |m: int| round_samples(ps[m])))
}

/// Every product with variable 0 fixed at `c`.
pub open spec fn fold_products(ps: Seq<Seq<Seq<int>>>, c: int) -> Seq<Seq<Seq<int>>> {
    Seq::new(ps.len(), |m: int| fold_all(ps[m], c))
}

/// The honest prover's rounds from transcript state `state`: each round polynomial
/// with the challenge squeezed after absorbing it.
pub open spec fn prover_rounds(ps: Seq<Seq<Seq<int>>>, state: Seq<u8>, n: nat) -> Seq<(Seq<int>, int)>
    decreases n,
{
    if n == 0 {
        Seq::empty()
    } else {
        let g = round_poly(ps);
        let s1 = state + table_bytes(g);
        let c = challenge_of(s1);
        seq![(g, c)] + prover_rounds(fold_products(ps, c), s1 + keccak256(s1), (n - 1) as nat)
    }
}

/// The transcript state after the honest prover's `n` rounds from `state`.
pub open spec fn prover_state(ps: Seq<Seq<Seq<int>>>, state: Seq<u8>, n: nat) -> Seq<u8>
    decreases n,
{
    if n == 0 {
        state
    } else {
        let g = round_poly(ps);
        let s1 = state + table_bytes(g);
        let c = challenge_of(s1);
        prover_state(fold_products(ps, c), s1 + keccak256(s1), (n - 1) as nat)
    }
}

/// The transcript state after the verifier absorbed each round polynomial and
/// squeezed its challenge.
pub open spec fn verifier_state(gs: Seq<Seq<int>>, state: Seq<u8>) -> Seq<u8>
    decreases gs.len(),
{
    if gs.len() == 0 {
        state
    } else {
        let s1 = state + table_bytes(gs[0]);
        verifier_state(gs.drop_first(), s1 + keccak256(s1))
    }
}

/// The products after the challenges are fixed one after another.
pub open spec fn fold_products_by(ps: Seq<Seq<Seq<int>>>, cs: Seq<int>) -> Seq<Seq<Seq<int>>>
    decreases cs.len(),
{
    if cs.len() == 0 {
        ps
    } else {
        fold_products_by(fold_products(ps, cs[0]), cs.drop_first())
    }
}

/// The points `0, 1, …, d`.
pub open spec fn sample_points(d: nat) -> Seq<int> {
    Seq::new(d + 1, |i: int| i)
}

/// The verifier's run from claimed sum `claimed` and transcript state `state`: the
/// challenges and the last claimed sum, or `None` when a round is refused.
pub open spec fn verifier_rounds(gs: Seq<Seq<int>>, claimed: int, state: Seq<u8>, xs: Seq<int>) -> Option<
    (Seq<int>, int),
>
    decreases gs.len(),
{
    if gs.len() == 0 {
        Some((Seq::empty(), claimed))
    } else {
        let g = gs[0];
        if g.len() != xs.len() || g.len() < 2 || fadd(g[0], g[1]) != claimed || !denominators_nonzero(xs) {
            None
        } else {
            let s1 = state + table_bytes(g);
            let c = challenge_of(s1);
            let next = poly_eval(lagrange_poly(xs, g), c);
            match verifier_rounds(gs.drop_first(), next, s1 + keccak256(s1), xs) {
                None => None,
                Some(rest) => Some((seq![c] + rest.0, rest.1)),
            }
        }
    }
}

/// Products of one table length and one number of factors, at least one product.
pub open spec fn products_shape(ps: Seq<Seq<Seq<int>>>) -> bool {
    &&& ps.len() >= 1
    &&& forall|m: int|
        0 <= m < ps.len() ==> same_shape(#[trigger] ps[m]) && ps[m].len() == ps[0].len()
            && ps[m][0].len() == ps[0][0].len()
}

pub open spec fn products_view(ps: Seq<ProductPoly>) -> Seq<Seq<Seq<int>>> {
    Seq::new(ps.len(), |m: int| ps[m].tables())
}

#[derive(Debug, Clone)]
pub struct Proof {
    pub sum_poly: Vec<ProductPoly>,
    pub init_claimed_sum: Fe,
    pub challenges: Vec<Fe>,
    pub round_polys: Vec<Vec<Fe>>,
}

#[derive(Debug)]
pub struct SubClaim {
    pub challenges: Vec<Fe>,
    pub last_claimed_sum: Fe,
}

pub open spec fn rows_view(rows: Seq<Vec<Fe>>) -> Seq<Seq<int>> {
    Seq::new(rows.len(), |m: int| vals(rows[m]@))
}

/// The elementwise sum of rows of one length.
pub fn reduce(m_poly_array: &Vec<Vec<Fe>>) -> (r: Vec<Fe>)
    requires
        m_poly_array@.len() >= 1,
        forall|m: int|
            0 <= m < m_poly_array@.len() ==> (#[trigger] m_poly_array@[m])@.len() == m_poly_array@[0]@.len(),
    ensures
        vals(r@) == columns_sum(rows_view(m_poly_array@)),
{
    let ghost rows = rows_view(m_poly_array@);
    let n = m_poly_array[0].len();
    let mut out: Vec<Fe> = Vec::new();
    let mut i: usize = 0;
    while i < n
        invariant
            rows == rows_view(m_poly_array@),
            m_poly_array@.len() >= 1,
            n == m_poly_array@[0]@.len(),
            forall|m: int|
                0 <= m < m_poly_array@.len() ==> (#[trigger] m_poly_array@[m])@.len() == n,
            i <= n,
            vals(out@) =~= columns_sum(rows).subrange(0, i as int),
        decreases n - i,
    {
        let mut acc = Fe::zero();
        let mut m: usize = 0;
        while m < m_poly_array.len()
            invariant
                rows == rows_view(m_poly_array@),
                forall|m: int|
                    0 <= m < m_poly_array@.len() ==> (#[trigger] m_poly_array@[m])@.len() == n,
                i < n,
                m <= m_poly_array@.len(),
                acc.val() == column_sum(rows, i as int, m as nat),
            decreases m_poly_array@.len() - m,
        {
            assert(m_poly_array@[m as int]@.len() == n);
            acc = acc.add(m_poly_array[m][i]);
            m = m + 1;
        }
        let ghost before = vals(out@);
        out.push(acc);
        assert(vals(out@) =~= before.push(acc.val()));
        i = i + 1;
    }
    assert(columns_sum(rows).len() == n);
    out
}

/// Fixes variable 0 of every product at `c`.
fn fold_sum_poly(ps: &Vec<ProductPoly>, c: Fe) -> (r: Vec<ProductPoly>)
    requires
        products_shape(products_view(ps@)),
        forall|m: int| 0 <= m < ps@.len() ==> (#[trigger] ps@[m]).well_formed(),
        products_view(ps@)[0][0].len() >= 2,
    ensures
        products_view(r@) == fold_products(products_view(ps@), c.val()),
        products_shape(products_view(r@)),
        forall|m: int| 0 <= m < r@.len() ==> (#[trigger] r@[m]).well_formed(),
        products_view(r@)[0][0].len() == products_view(ps@)[0][0].len() / 2,
{
    let ghost pv = products_view(ps@);
    let mut out: Vec<ProductPoly> = Vec::new();
    let mut m: usize = 0;
    proof {
        lemma_pow2_half(pv[0][0].len() as int);
    }
    while m < ps.len()
        invariant
            pv == products_view(ps@),
            products_shape(pv),
            forall|k: int| 0 <= k < ps@.len() ==> (#[trigger] ps@[k]).well_formed(),
            pv[0][0].len() >= 2,
            m <= ps@.len(),
            out@.len() == m,
            forall|k: int|
                0 <= k < m ==> (#[trigger] out@[k]).tables() == fold_all(pv[k], c.val()) && out@[k].well_formed()
                    && out@[k].tables()[0].len() == pv[0][0].len() / 2,
        decreases ps@.len() - m,
    {
        assert(pv[m as int] == ps@[m as int].tables());
        assert(same_shape(pv[m as int]) && pv[m as int][0].len() == pv[0][0].len());
        let q = ps[m].partial_evaluate(c, 0);
        assert(q.tables() =~= fold_all(pv[m as int], c.val()));
        out.push(q);
        m = m + 1;
    }
    assert(products_view(out@) =~= fold_products(pv, c.val()));
    let ghost ov = products_view(out@);
    assert forall|k: int| 0 <= k < ov.len() implies same_shape(#[trigger] ov[k]) && ov[k].len() == ov[0].len()
        && ov[k][0].len() == ov[0][0].len() by {
        assert(out@[k].well_formed());
        assert(ov[k] == out@[k].tables());
        assert(pv[k].len() == pv[0].len());
    }
    out
}

/// Proves `Σ_x Σ_m ∏_f p_{m,f}(x) = init_claimed_sum` on a running transcript: one
/// round polynomial per variable, each absorbed before its challenge is squeezed.
pub fn prove_in(transcript: &mut Transcript, sum_poly: Vec<ProductPoly>, init_claimed_sum: Fe) -> (r: Proof)
    requires
        products_shape(products_view(sum_poly@)),
        forall|m: int| 0 <= m < sum_poly@.len() ==> (#[trigger] sum_poly@[m]).well_formed(),
    ensures
        r.init_claimed_sum == init_claimed_sum,
        r.round_polys@.len() == log2(products_view(sum_poly@)[0][0].len() as int),
        r.challenges@.len() == r.round_polys@.len(),
        prover_rounds(products_view(sum_poly@), old(transcript)@, r.round_polys@.len() as nat) == Seq::new(
            r.round_polys@.len(),
            |k: int| (vals(r.round_polys@[k]@), r.challenges@[k].val()),
        ),
        final(transcript)@ == prover_state(products_view(sum_poly@), old(transcript)@, r.round_polys@.len() as nat),
        products_view(r.sum_poly@) == fold_products_by(products_view(sum_poly@), vals(r.challenges@)),
{
    let ghost p0 = products_view(sum_poly@);
    let ghost start = transcript@;
    let mut challenges: Vec<Fe> = Vec::new();
    let mut round_polys: Vec<Vec<Fe>> = Vec::new();
    let rounds = sum_poly[0].poly_array[0].variable_count();
    assert(sum_poly@[0].poly_array@[0].table() == p0[0][0]);
    let mut ps = sum_poly;
    let mut k: usize = 0;
    assert(fold_products_by(p0, Seq::<int>::empty()) == p0);
    while k < rounds
        invariant
            rounds == log2(p0[0][0].len() as int),
            k <= rounds,
            products_shape(products_view(ps@)),
            forall|m: int| 0 <= m < ps@.len() ==> (#[trigger] ps@[m]).well_formed(),
            log2(products_view(ps@)[0][0].len() as int) == rounds - k,
            challenges@.len() == k,
            round_polys@.len() == k,
            products_view(ps@) == fold_products_by(p0, vals(challenges@)),
            prover_rounds(p0, start, rounds as nat) == Seq::new(
                k as nat,
                |j: int| (vals(round_polys@[j]@), challenges@[j].val()),
            ) + prover_rounds(products_view(ps@), transcript@, (rounds - k) as nat),
            prover_state(p0, start, rounds as nat) == prover_state(products_view(ps@), transcript@, (rounds - k) as nat),
        decreases rounds - k,
    {
        let ghost pv = products_view(ps@);
        let ghost st = transcript@;
        proof {
            crate::field::lemma_pow2_log(pv[0][0].len() as int);
            assert(pv[0][0].len() >= 2);
        }
        let mut rows: Vec<Vec<Fe>> = Vec::new();
        let mut m: usize = 0;
        while m < ps.len()
            invariant
                pv == products_view(ps@),
                products_shape(pv),
                forall|j: int| 0 <= j < ps@.len() ==> (#[trigger] ps@[j]).well_formed(),
                pv[0][0].len() >= 2,
                m <= ps@.len(),
                rows@.len() == m,
                forall|j: int| 0 <= j < m ==> vals((#[trigger] rows@[j])@) == round_samples(pv[j]),
                forall|j: int| 0 <= j < m ==> (#[trigger] rows@[j])@.len() == pv[0].len() + 1,
            decreases ps@.len() - m,
        {
            assert(pv[m as int] == ps@[m as int].tables());
            assert(same_shape(pv[m as int]) && pv[m as int].len() == pv[0].len());
            let row = ps[m].univariate_to_evaluation();
            assert(vals(row@).len() == row@.len());
            rows.push(row);
            m = m + 1;
        }
        assert(rows_view(rows@) =~= Seq::new(pv.len(), |j: int| round_samples(pv[j])));
        let g = reduce(&rows);
        let bytes = MultiLinearPoly::to_bytes(g.as_slice());
        transcript.absorb(bytes.as_slice());
        let c = transcript.squeeze_challenge();
        let ghost done = Seq::new(k as nat, |j: int| (vals(round_polys@[j]@), challenges@[j].val()));
        let ghost old_cs = vals(challenges@);
        challenges.push(c);
        round_polys.push(g);
        let next = fold_sum_poly(&ps, c);
        proof {
            lemma_pow2_half(pv[0][0].len() as int);
            assert(vals(challenges@) =~= old_cs.push(c.val()));
            lemma_fold_by_push(p0, old_cs, c.val());
            assert(Seq::new((k + 1) as nat, |j: int| (vals(round_polys@[j]@), challenges@[j].val()))
                =~= done + seq![(vals(g@), c.val())]);
            assert(prover_rounds(pv, st, (rounds - k) as nat) == seq![(vals(g@), c.val())]
                + prover_rounds(fold_products(pv, c.val()), transcript@, (rounds - k - 1) as nat));
        }
        ps = next;
        k = k + 1;
    }
    assert(Seq::new(k as nat, |j: int| (vals(round_polys@[j]@), challenges@[j].val())) + Seq::empty()
        =~= Seq::new(k as nat, |j: int| (vals(round_polys@[j]@), challenges@[j].val())));
    Proof { sum_poly: ps, init_claimed_sum, challenges, round_polys }
}

/// Proves `Σ_x Σ_m ∏_f p_{m,f}(x) = init_claimed_sum` on a fresh transcript.
pub fn prove(sum_poly: Vec<ProductPoly>, init_claimed_sum: Fe) -> (r: Proof)
    requires
        products_shape(products_view(sum_poly@)),
        forall|m: int| 0 <= m < sum_poly@.len() ==> (#[trigger] sum_poly@[m]).well_formed(),
    ensures
        r.init_claimed_sum == init_claimed_sum,
        r.round_polys@.len() == log2(products_view(sum_poly@)[0][0].len() as int),
        r.challenges@.len() == r.round_polys@.len(),
        prover_rounds(products_view(sum_poly@), Seq::empty(), r.round_polys@.len() as nat) == Seq::new(
            r.round_polys@.len(),
            |k: int| (vals(r.round_polys@[k]@), r.challenges@[k].val()),
        ),
        products_view(r.sum_poly@) == fold_products_by(products_view(sum_poly@), vals(r.challenges@)),
{
    let mut transcript = Transcript::new();
    prove_in(&mut transcript, sum_poly, init_claimed_sum)
}

proof fn lemma_fold_by_push(ps: Seq<Seq<Seq<int>>>, cs: Seq<int>, c: int)
    ensures
        fold_products_by(ps, cs.push(c)) == fold_products(fold_products_by(ps, cs), c),
    decreases cs.len(),
{
    if cs.len() > 0 {
        assert(cs.push(c).drop_first() =~= cs.drop_first().push(c));
        assert(cs.push(c)[0] == cs[0]);
        lemma_fold_by_push(fold_products(ps, cs[0]), cs.drop_first(), c);
    } else {
        assert(cs.push(c).drop_first() =~= Seq::<int>::empty());
        assert(cs.push(c)[0] == c);
        assert(fold_products_by(ps, cs) == ps);
        assert(fold_products_by(fold_products(ps, c), Seq::<int>::empty()) == fold_products(ps, c));
    }
}

/// `cs` put in front of the challenges of a run that was accepted.
pub open spec fn prepend(cs: Seq<int>, o: Option<(Seq<int>, int)>) -> Option<(Seq<int>, int)> {
    match o {
        None => None,
        Some(r) => Some((cs + r.0, r.1)),
    }
}

pub open spec fn round_polys_view(gs: Seq<Vec<Fe>>) -> Seq<Seq<int>> {
    Seq::new(gs.len(), |k: int| vals(gs[k]@))
}

/// The largest number of factors the verifier takes.
pub open spec fn max_degree() -> int {
    usize::MAX / 4 - 2
}

/// Replays the prover's transcript from the running transcript: in each round the samples at 0 and 1 must add
/// up to the claimed sum, and the next claimed sum is the round polynomial,
/// interpolated from its samples at `0, …, d`, at the squeezed challenge.
pub fn verify_in(transcript: &mut Transcript, claim_proof: &Proof) -> (r: Result<SubClaim, ProofError>)
    ensures
        claim_proof.sum_poly@.len() == 0 ==> r == Err::<SubClaim, ProofError>(ProofError::InputShape),
        claim_proof.sum_poly@.len() >= 1 && claim_proof.sum_poly@[0].poly_array@.len() > max_degree() ==> r
            == Err::<SubClaim, ProofError>(ProofError::InputShape),
        claim_proof.sum_poly@.len() >= 1 && claim_proof.sum_poly@[0].poly_array@.len() <= max_degree() ==> match verifier_rounds(
            round_polys_view(claim_proof.round_polys@),
            claim_proof.init_claimed_sum.val(),
            old(transcript)@,
            sample_points(claim_proof.sum_poly@[0].poly_array@.len()),
        ) {
            None => r == Err::<SubClaim, ProofError>(ProofError::ProofInvalid),
            Some(res) => r matches Ok(sc) && vals(sc.challenges@) == res.0 && sc.last_claimed_sum.val()
                == res.1,
        },
        r is Ok ==> final(transcript)@ == verifier_state(round_polys_view(claim_proof.round_polys@), old(transcript)@),
{
    let ghost start = transcript@;
    if claim_proof.sum_poly.len() == 0 {
        return Err(ProofError::InputShape);
    }
    let d = claim_proof.sum_poly[0].get_degree();
    if d > usize::MAX / 4 - 2 {
        return Err(ProofError::InputShape);
    }
    let ghost pts = sample_points(d as nat);
    let mut xs: Vec<Fe> = Vec::new();
    let mut i: usize = 0;
    while i <= d
        invariant
            d <= usize::MAX / 4 - 2,
            i <= d + 1,
            vals(xs@) =~= pts.subrange(0, i as int),
            pts == sample_points(d as nat),
        decreases d + 1 - i,
    {
        let ghost before = vals(xs@);
        let x = Fe::from_u64(i as u64);
        xs.push(x);
        assert(vals(xs@) =~= before.push(x.val()));
        i = i + 1;
    }
    let ghost gs = round_polys_view(claim_proof.round_polys@);
    let ghost whole = verifier_rounds(gs, claim_proof.init_claimed_sum.val(), start, pts);
    let mut claimed = claim_proof.init_claimed_sum;
    let mut challenges: Vec<Fe> = Vec::new();
    let n = claim_proof.round_polys.len();
    let mut k: usize = 0;
    assert(gs.subrange(0, n as int) =~= gs);
    assert(prepend(Seq::empty(), whole) == whole) by {
        match whole {
            None => {},
            Some(w) => {
                assert(Seq::<int>::empty() + w.0 =~= w.0);
            },
        }
    }
    while k < n
        invariant
            claim_proof.sum_poly@.len() >= 1,
            d == claim_proof.sum_poly@[0].poly_array@.len(),
            d <= usize::MAX / 4 - 2,
            gs == round_polys_view(claim_proof.round_polys@),
            n == gs.len(),
            k <= n,
            vals(xs@) == pts,
            pts == sample_points(d as nat),
            xs@.len() < usize::MAX / 4,
            whole == verifier_rounds(gs, claim_proof.init_claimed_sum.val(), start, pts),
            start == old(transcript)@,
            verifier_state(gs, start) == verifier_state(gs.subrange(k as int, n as int), transcript@),
            whole == prepend(
                vals(challenges@),
                verifier_rounds(gs.subrange(k as int, n as int), claimed.val(), transcript@, pts),
            ),
        decreases n - k,
    {
        let g = &claim_proof.round_polys[k];
        let ghost rest = gs.subrange(k as int, n as int);
        assert(rest[0] == vals(g@));
        assert(rest.drop_first() =~= gs.subrange(k + 1, n as int));
        assert(vals(g@).len() == g@.len());
        if g.len() != xs.len() || g.len() < 2 {
            return Err(ProofError::ProofInvalid);
        }
        if g[0].add(g[1]) != claimed {
            return Err(ProofError::ProofInvalid);
        }
        let bytes = MultiLinearPoly::to_bytes(g.as_slice());
        transcript.absorb(bytes.as_slice());
        let c = transcript.squeeze_challenge();
        let ghost old_cs = vals(challenges@);
        challenges.push(c);
        assert(vals(challenges@) =~= old_cs.push(c.val()));
        match UnivariatePoly::interpolate(xs.as_slice(), g.as_slice()) {
            None => {
                return Err(ProofError::ProofInvalid);
            },
            Some(eq) => {
                claimed = eq.evaluate(c);
            },
        }
        proof {
            let tail = verifier_rounds(rest.drop_first(), claimed.val(), transcript@, pts);
            match tail {
                None => {},
                Some(t) => {
                    assert(old_cs + (seq![c.val()] + t.0) =~= old_cs.push(c.val()) + t.0);
                },
            }
        }
        k = k + 1;
    }
    assert(gs.subrange(n as int, n as int) =~= Seq::<Seq<int>>::empty());
    proof {
        assert(vals(challenges@) + Seq::<int>::empty() =~= vals(challenges@));
    }
    Ok(SubClaim { challenges, last_claimed_sum: claimed })
}

/// Replays the prover's transcript from a fresh transcript.
pub fn verify(claim_proof: &Proof) -> (r: Result<SubClaim, ProofError>)
    ensures
        claim_proof.sum_poly@.len() == 0 ==> r == Err::<SubClaim, ProofError>(ProofError::InputShape),
        claim_proof.sum_poly@.len() >= 1 && claim_proof.sum_poly@[0].poly_array@.len() > max_degree() ==> r
            == Err::<SubClaim, ProofError>(ProofError::InputShape),
        claim_proof.sum_poly@.len() >= 1 && claim_proof.sum_poly@[0].poly_array@.len() <= max_degree() ==> match verifier_rounds(
            round_polys_view(claim_proof.round_polys@),
            claim_proof.init_claimed_sum.val(),
            Seq::empty(),
            sample_points(claim_proof.sum_poly@[0].poly_array@.len()),
        ) {
            None => r == Err::<SubClaim, ProofError>(ProofError::ProofInvalid),
            Some(res) => r matches Ok(sc) && vals(sc.challenges@) == res.0 && sc.last_claimed_sum.val()
                == res.1,
        },
{
    let mut transcript = Transcript::new();
    verify_in(&mut transcript, claim_proof)
}

} // verus!
