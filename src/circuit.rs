//! Layered arithmetic circuits of addition and multiplication gates.
use vstd::prelude::*;
use crate::field::{fadd, fmul, is_pow2, two_pow, Fe};
use crate::multilinear::vals;

verus! {

#[derive(Debug, Clone, Copy, PartialEq, Eq, Structural)]
pub enum GateOp {
    Add,
    Mul,
}

/// A gate reading wires `left` and `right` of its layer's input and writing output wire `output`.
#[derive(Debug, Clone, Copy, PartialEq, Eq, Structural)]
pub struct Gate {
    pub left: usize,
    pub right: usize,
    pub op: GateOp,
    pub output: usize,
}

#[derive(Debug, Clone)]
pub struct Layer {
    pub gates: Vec<Gate>,
}

/// The inputs and the layers, layer 0 reading the inputs.
#[derive(Debug, Clone)]
pub struct Circuit {
    pub inputs: Vec<Fe>,
    pub layers: Vec<Layer>,
}

pub open spec fn apply_op(op: GateOp, a: int, b: int) -> int {
    match op {
        GateOp::Add => fadd(a, b),
        GateOp::Mul => fmul(a, b),
    }
}

/// The output wires after the first `n` gates wrote theirs, starting from zeros.
pub open spec fn apply_gates(cur: Seq<int>, gates: Seq<Gate>, n: nat) -> Seq<int>
    decreases n,
{
    if n == 0 {
        Seq::new(gates.len(), |i: int| 0)
    } else {
        let g = gates[n - 1];
        apply_gates(cur, gates, (n - 1) as nat).update(
            g.output as int,
            apply_op(g.op, cur[g.left as int], cur[g.right as int]),
        )
    }
}

pub open spec fn layer_output(cur: Seq<int>, gates: Seq<Gate>) -> Seq<int> {
    apply_gates(cur, gates, gates.len())
}

/// The wire values: the inputs, then the output of each layer in turn.
pub open spec fn wire_values(inputs: Seq<int>, layers: Seq<Seq<Gate>>) -> Seq<Seq<int>>
    decreases layers.len(),
{
    if layers.len() == 0 {
        seq![inputs]
    } else {
        let prev = wire_values(inputs, layers.drop_last());
        prev.push(layer_output(prev.last(), layers.last()))
    }
}

pub open spec fn gates_fit(gates: Seq<Gate>, width: int) -> bool {
    forall|i: int|
        0 <= i < gates.len() ==> (#[trigger] gates[i]).left < width && gates[i].right < width
            && gates[i].output < gates.len()
}

/// The number of wires that layer `k` reads.
pub open spec fn input_width(inputs: Seq<int>, layers: Seq<Seq<Gate>>, k: int) -> int {
    if k == 0 {
        inputs.len() as int
    } else {
        layers[k - 1].len() as int
    }
}

/// Every gate reads wires that exist and writes an output wire of its layer.
pub open spec fn circuit_fits(inputs: Seq<int>, layers: Seq<Seq<Gate>>) -> bool {
    forall|k: int| 0 <= k < layers.len() ==> gates_fit(#[trigger] layers[k], input_width(inputs, layers, k))
}

pub open spec fn gates_view(ls: Seq<Layer>) -> Seq<Seq<Gate>> {
    Seq::new(ls.len(), |k: int| ls[k].gates@)
}

pub open spec fn rows_of(rows: Seq<Vec<Fe>>) -> Seq<Seq<int>> {
    Seq::new(rows.len(), |m: int| vals(rows[m]@))
}

/// The bits that index the output wires of a layer of `g` gates: at least one.
pub open spec fn out_bits(g: nat) -> nat {
    if g <= 1 {
        1
    } else {
        bits_for(g)
    }
}

/// The bits that index the input wires of a layer of `g` gates.
pub open spec fn in_bits(g: nat) -> nat {
    if g <= 1 {
        1
    } else {
        bits_for(g) + 1
    }
}

/// The least `b` with `2^b >= n`.
pub open spec fn bits_for(n: nat) -> nat
    decreases n,
{
    if n <= 1 {
        0
    } else {
        1 + bits_for(((n + 1) / 2) as nat)
    }
}

/// The index of `(out, left, right)` in a table over `(output || left || right)`.
pub open spec fn wiring_index(out: int, left: int, right: int, ib: nat) -> int {
    out * two_pow(2 * ib) + left * two_pow(ib) + right
}

/// The table of an operation's wiring predicate: one where a gate of that operation
/// connects the indices, after the first `n` gates were set.
pub open spec fn wiring_table(gates: Seq<Gate>, op: GateOp, n: nat, size: nat, ib: nat) -> Seq<int>
    decreases n,
{
    if n == 0 {
        Seq::new(size, |i: int| 0)
    } else {
        let g = gates[n - 1];
        let prev = wiring_table(gates, op, (n - 1) as nat, size, ib);
        if g.op == op {
            prev.update(wiring_index(g.output as int, g.left as int, g.right as int, ib), 1)
        } else {
            prev
        }
    }
}

/// The wiring tables of a layer can be formed: there is a gate, the table has at
/// most `2^31` entries, and each index fits its bits.
pub open spec fn wiring_ok(gs: Seq<Gate>) -> bool {
    let n = gs.len() as nat;
    &&& n >= 1
    &&& out_bits(n) + 2 * in_bits(n) <= 31
    &&& forall|j: int|
        0 <= j < n ==> {
            let g = #[trigger] gs[j];
            &&& g.output < two_pow(out_bits(n))
            &&& g.left < two_pow(in_bits(n))
            &&& g.right < two_pow(in_bits(n))
        }
}

/// The `(add, mul)` wiring tables of a layer.
pub open spec fn wiring_tables(gs: Seq<Gate>) -> (Seq<int>, Seq<int>) {
    let n = gs.len() as nat;
    let size = two_pow(out_bits(n) + 2 * in_bits(n));
    (
        wiring_table(gs, GateOp::Add, n, size, in_bits(n)),
        wiring_table(gs, GateOp::Mul, n, size, in_bits(n)),
    )
}

/// `W_B[b·n + c] = w[b]`.
pub open spec fn explode_left(w: Seq<int>) -> Seq<int> {
    Seq::new(w.len() * w.len(), |i: int| w[i / w.len() as int])
}

/// `W_C[b·n + c] = w[c]`.
pub open spec fn explode_right(w: Seq<int>) -> Seq<int> {
    Seq::new(w.len() * w.len(), |i: int| w[i % w.len() as int])
}

pub open spec fn elementwise(a: Seq<int>, b: Seq<int>, op: GateOp) -> Seq<int> {
    Seq::new(a.len(), |i: int| apply_op(op, a[i], b[i]))
}

fn op_value(op: GateOp, a: Fe, b: Fe) -> (r: Fe)
    ensures
        r.val() == apply_op(op, a.val(), b.val()),
{
    match op {
        GateOp::Add => a.add(b),
        GateOp::Mul => a.mul(b),
    }
}

/// The output wires of a layer whose gates read `cur`.
fn run_layer(cur: &Vec<Fe>, gates: &Vec<Gate>) -> (r: Vec<Fe>)
    requires
        gates_fit(gates@, cur@.len() as int),
    ensures
        vals(r@) == layer_output(vals(cur@), gates@),
{
    let n = gates.len();
    let mut next: Vec<Fe> = Vec::new();
    let mut i: usize = 0;
    while i < n
        invariant
            n == gates@.len(),
            i <= n,
            vals(next@) =~= Seq::new(i as nat, |j: int| 0),
        decreases n - i,
    {
        let z = Fe::zero();
        let ghost before = vals(next@);
        next.push(z);
        assert(vals(next@) =~= before.push(0));
        i = i + 1;
    }
    let ghost c = vals(cur@);
    let mut k: usize = 0;
    while k < n
        invariant
            n == gates@.len(),
            c == vals(cur@),
            gates_fit(gates@, cur@.len() as int),
            k <= n,
            vals(next@) == apply_gates(c, gates@, k as nat),
            next@.len() == n,
        decreases n - k,
    {
        let g = gates[k];
        assert(gates@[k as int] == g);
        let v = op_value(g.op, cur[g.left], cur[g.right]);
        let ghost before = vals(next@);
        next.set(g.output, v);
        assert(vals(next@) =~= before.update(g.output as int, v.val()));
        k = k + 1;
    }
    next
}

impl Circuit {
    pub open spec fn wires(&self) -> Seq<Seq<int>> {
        wire_values(vals(self.inputs@), gates_view(self.layers@))
    }

    pub open spec fn fits(&self) -> bool {
        circuit_fits(vals(self.inputs@), gates_view(self.layers@))
    }

    pub fn new(inputs: Vec<Fe>) -> (r: Self)
        ensures
            r.inputs@ == inputs@,
            r.layers@.len() == 0,
    {
        Circuit { layers: Vec::new(), inputs }
    }

    pub fn add_layer(&mut self, layer: Layer)
        ensures
            final(self).inputs@ == old(self).inputs@,
            final(self).layers@ == old(self).layers@.push(layer),
    {
        self.layers.push(layer);
    }

    /// Every wire vector: the inputs, then each layer's output.
    #[verifier::spinoff_prover]
    #[verifier::rlimit(100)]
    pub fn evaluate_layers(&self) -> (r: Vec<Vec<Fe>>)
        requires
            self.fits(),
        ensures
            rows_of(r@) == self.wires(),
    {
        let ghost inp = vals(self.inputs@);
        let ghost ls = gates_view(self.layers@);
        let mut out: Vec<Vec<Fe>> = Vec::new();
        out.push(crate::bytes::copy_fes(self.inputs.as_slice()));
        assert(rows_of(out@) =~= seq![inp]);
        assert(ls.subrange(0, 0) =~= Seq::<Seq<Gate>>::empty());
        let mut k: usize = 0;
        while k < self.layers.len()
            invariant
                inp == vals(self.inputs@),
                ls == gates_view(self.layers@),
                circuit_fits(inp, ls),
                k <= ls.len(),
                out@.len() == k + 1,
                rows_of(out@) == wire_values(inp, ls.subrange(0, k as int)),
            decreases ls.len() - k,
        {
            let ghost prefix = ls.subrange(0, k as int);
            let ghost longer = ls.subrange(0, k + 1);
            assert(longer.drop_last() =~= prefix);
            assert(gates_fit(ls[k as int], input_width(inp, ls, k as int)));
            proof {
                lemma_wire_widths(inp, ls, k as int);
            }
            let next = run_layer(&out[k], &self.layers[k].gates);
            let ghost before = rows_of(out@);
            out.push(next);
            assert(rows_of(out@) =~= before.push(vals(next@)));
            k = k + 1;
        }
        assert(ls.subrange(0, ls.len() as int) =~= ls);
        out
    }

    /// The output wires of the last layer (the inputs when there is no layer).
    pub fn evaluate(&self) -> (r: Vec<Fe>)
        requires
            self.fits(),
        ensures
            vals(r@) == self.wires().last(),
    {
        let mut all = self.evaluate_layers();
        let n = all.len();
        proof {
            lemma_wires_len(vals(self.inputs@), gates_view(self.layers@));
        }
        let last = all.remove(n - 1);
        last
    }

    /// The wiring tables `(add_i, mul_i)` of layer `i`, over `(output || left || right)`.
    pub fn layer_i_add_mul(&self, i: usize) -> (r: (Vec<Fe>, Vec<Fe>))
        requires
            i < self.layers@.len(),
            self.layers@[i as int].gates@.len() >= 1,
            two_pow(out_bits(self.layers@[i as int].gates@.len() as nat) + 2 * in_bits(
                self.layers@[i as int].gates@.len() as nat,
            )) <= usize::MAX,
            forall|j: int|
                0 <= j < self.layers@[i as int].gates@.len() ==> {
                    let g = #[trigger] self.layers@[i as int].gates@[j];
                    let n = self.layers@[i as int].gates@.len() as nat;
                    &&& g.output < two_pow(out_bits(n))
                    &&& g.left < two_pow(in_bits(n))
                    &&& g.right < two_pow(in_bits(n))
                },
        ensures
            ({
                let gs = self.layers@[i as int].gates@;
                let n = gs.len() as nat;
                let size = two_pow(out_bits(n) + 2 * in_bits(n));
                &&& vals(r.0@) == wiring_table(gs, GateOp::Add, n, size, in_bits(n))
                &&& vals(r.1@) == wiring_table(gs, GateOp::Mul, n, size, in_bits(n))
            }),
    {
        let gates = &self.layers[i].gates;
        let add = wiring(gates, GateOp::Add);
        let mul = wiring(gates, GateOp::Mul);
        (add, mul)
    }

    /// The tables of `w_i(b)` and `w_i(c)` over the product hypercube of wire vector `i`.
    pub fn explode_w_i(&self, i: usize) -> (r: (Vec<Fe>, Vec<Fe>))
        requires
            self.fits(),
            i < self.wires().len(),
            self.wires()[i as int].len() * self.wires()[i as int].len() <= usize::MAX,
        ensures
            vals(r.0@) == explode_left(self.wires()[i as int]),
            vals(r.1@) == explode_right(self.wires()[i as int]),
    {
        let mut all = self.evaluate_layers();
        let w = all.remove(i);
        explode(&w)
    }

    /// The elementwise sum or product of two tables of one length.
    pub fn element_wise_op(a: &Vec<Fe>, b: &Vec<Fe>, op: GateOp) -> (r: Vec<Fe>)
        requires
            a@.len() == b@.len(),
        ensures
            vals(r@) == elementwise(vals(a@), vals(b@), op),
    {
        let mut out: Vec<Fe> = Vec::new();
        let mut i: usize = 0;
        while i < a.len()
            invariant
                a@.len() == b@.len(),
                i <= a@.len(),
                vals(out@) =~= elementwise(vals(a@), vals(b@), op).subrange(0, i as int),
            decreases a@.len() - i,
        {
            let v = op_value(op, a[i], b[i]);
            let ghost before = vals(out@);
            out.push(v);
            assert(vals(out@) =~= before.push(v.val()));
            i = i + 1;
        }
        out
    }
}

pub(crate) proof fn lemma_wires_len(inp: Seq<int>, ls: Seq<Seq<Gate>>)
    ensures
        wire_values(inp, ls).len() == ls.len() + 1,
    decreases ls.len(),
{
    if ls.len() > 0 {
        lemma_wires_len(inp, ls.drop_last());
    }
}

/// The wires that layer `k` reads are as many as `input_width` says.
pub(crate) proof fn lemma_wire_widths(inp: Seq<int>, ls: Seq<Seq<Gate>>, k: int)
    requires
        0 <= k < ls.len(),
        circuit_fits(inp, ls),
    ensures
        wire_values(inp, ls.subrange(0, k)).last().len() == input_width(inp, ls, k),
{
    let prefix = ls.subrange(0, k);
    if k > 0 {
        assert(prefix.drop_last() =~= ls.subrange(0, k - 1));
        assert(prefix.last() == ls[k - 1]);
        let prev = wire_values(inp, prefix.drop_last());
        assert(gates_fit(ls[k - 1], input_width(inp, ls, k - 1)));
        assert forall|i: int| 0 <= i < ls[k - 1].len() implies (#[trigger] ls[k - 1][i]).output
            < ls[k - 1].len() by {
            assert(gates_fit(ls[k - 1], input_width(inp, ls, k - 1)));
        }
        lemma_apply_len(prev.last(), ls[k - 1], ls[k - 1].len());
    } else {
        assert(prefix =~= Seq::<Seq<Gate>>::empty());
    }
}

proof fn lemma_apply_len(cur: Seq<int>, gates: Seq<Gate>, n: nat)
    requires
        n <= gates.len(),
        forall|i: int| 0 <= i < gates.len() ==> (#[trigger] gates[i]).output < gates.len(),
    ensures
        apply_gates(cur, gates, n).len() == gates.len(),
    decreases n,
{
    if n > 0 {
        lemma_apply_len(cur, gates, (n - 1) as nat);
    }
}

/// The table of `w(b)` and of `w(c)` for `b·n + c` over all pairs.
pub fn explode(w: &Vec<Fe>) -> (r: (Vec<Fe>, Vec<Fe>))
    requires
        w@.len() * w@.len() <= usize::MAX,
    ensures
        vals(r.0@) == explode_left(vals(w@)),
        vals(r.1@) == explode_right(vals(w@)),
{
    let n = w.len();
    let ghost v = vals(w@);
    let mut left: Vec<Fe> = Vec::new();
    let mut right: Vec<Fe> = Vec::new();
    let mut b: usize = 0;
    while b < n
        invariant
            n == w@.len(),
            v == vals(w@),
            n * n <= usize::MAX,
            b <= n,
            left@.len() == b * n,
            right@.len() == b * n,
            forall|i: int| 0 <= i < b * n ==> (#[trigger] left@[i]).val() == v[i / n as int],
            forall|i: int| 0 <= i < b * n ==> (#[trigger] right@[i]).val() == v[i % n as int],
        decreases n - b,
    {
        let mut c: usize = 0;
        proof {
            vstd::arithmetic::mul::lemma_mul_inequality(b as int + 1, n as int, n as int);
            vstd::arithmetic::mul::lemma_mul_is_distributive_add_other_way(n as int, b as int, 1);
        }
        while c < n
            invariant
                n == w@.len(),
                v == vals(w@),
                b < n,
                (b + 1) * n <= n * n,
                n * n <= usize::MAX,
                (b + 1) * n == b * n + n,
                c <= n,
                left@.len() == b * n + c,
                right@.len() == b * n + c,
                forall|i: int| 0 <= i < b * n + c ==> (#[trigger] left@[i]).val() == v[i / n as int],
                forall|i: int| 0 <= i < b * n + c ==> (#[trigger] right@[i]).val() == v[i % n as int],
            decreases n - c,
        {
            proof {
                vstd::arithmetic::div_mod::lemma_fundamental_div_mod_converse(
                    b * n + c,
                    n as int,
                    b as int,
                    c as int,
                );
            }
            left.push(w[b]);
            right.push(w[c]);
            c = c + 1;
        }
        b = b + 1;
    }
    assert(vals(left@) =~= explode_left(v));
    assert(vals(right@) =~= explode_right(v));
    (left, right)
}

/// The wiring table of one operation over the gates of a layer.
fn wiring(gates: &Vec<Gate>, op: GateOp) -> (r: Vec<Fe>)
    requires
        gates@.len() >= 1,
        two_pow(out_bits(gates@.len() as nat) + 2 * in_bits(gates@.len() as nat)) <= usize::MAX,
        forall|j: int|
            0 <= j < gates@.len() ==> {
                let g = #[trigger] gates@[j];
                let n = gates@.len() as nat;
                &&& g.output < two_pow(out_bits(n))
                &&& g.left < two_pow(in_bits(n))
                &&& g.right < two_pow(in_bits(n))
            },
    ensures
        ({
            let n = gates@.len() as nat;
            vals(r@) == wiring_table(
                gates@,
                op,
                n,
                two_pow(out_bits(n) + 2 * in_bits(n)),
                in_bits(n),
            )
        }),
{
    let ghost n = gates@.len() as nat;
    let ghost ob = out_bits(n);
    let ghost ib = in_bits(n);
    let ob_e = bits_of_outputs(gates.len());
    let ib_e = bits_of_inputs(gates.len());
    proof {
        lemma_two_pow_monotone(ib, ob + 2 * ib);
        lemma_two_pow_monotone(2 * ib, ob + 2 * ib);
    }
    let size = pow2_usize(ob_e + 2 * ib_e);
    let s1 = pow2_usize(ib_e);
    let s2 = pow2_usize(2 * ib_e);
    proof {
        lemma_two_pow_add(ob, 2 * ib);
        lemma_two_pow_add(ib, ib);
        lemma_two_pow_pos(ob);
        lemma_two_pow_pos(ib);
    }
    let mut table: Vec<Fe> = Vec::new();
    let mut i: usize = 0;
    while i < size
        invariant
            i <= size,
            vals(table@) =~= Seq::new(i as nat, |j: int| 0),
        decreases size - i,
    {
        let z = Fe::zero();
        let ghost before = vals(table@);
        table.push(z);
        assert(vals(table@) =~= before.push(0));
        i = i + 1;
    }
    let mut k: usize = 0;
    while k < gates.len()
        invariant
            n == gates@.len(),
            ob == out_bits(n),
            ib == in_bits(n),
            size == two_pow(ob + 2 * ib),
            s1 == two_pow(ib),
            s2 == two_pow(2 * ib),
            two_pow(ob + 2 * ib) == two_pow(ob) * two_pow(2 * ib),
            two_pow(2 * ib) == two_pow(ib) * two_pow(ib),
            forall|j: int|
                0 <= j < gates@.len() ==> {
                    let g = #[trigger] gates@[j];
                    &&& g.output < two_pow(ob)
                    &&& g.left < two_pow(ib)
                    &&& g.right < two_pow(ib)
                },
            k <= n,
            vals(table@) == wiring_table(gates@, op, k as nat, size as nat, ib),
            table@.len() == size,
        decreases n - k,
    {
        let g = gates[k];
        assert(gates@[k as int] == g);
        if g.op == op {
            proof {
                lemma_index_in_range(g.output as int, g.left as int, g.right as int, two_pow(ob) as int, two_pow(ib) as int);
            }
            let idx = g.output * s2 + g.left * s1 + g.right;
            let one = Fe::one();
            let ghost before = vals(table@);
            table.set(idx, one);
            assert(vals(table@) =~= before.update(idx as int, 1));
        }
        k = k + 1;
    }
    table
}

proof fn lemma_index_in_range(o: int, l: int, r: int, so: int, si: int)
    requires
        0 <= o < so,
        0 <= l < si,
        0 <= r < si,
    ensures
        0 <= o * (si * si) + l * si + r < so * (si * si),
        0 <= o * (si * si) <= so * (si * si),
        0 <= l * si <= si * si,
{
    assert(0 <= o * (si * si) + l * si + r < so * (si * si)) by (nonlinear_arith)
        requires
            0 <= o < so,
            0 <= l < si,
            0 <= r < si,
    ;
    assert(0 <= o * (si * si) <= so * (si * si)) by (nonlinear_arith)
        requires
            0 <= o < so,
            0 <= si,
    ;
    assert(0 <= l * si <= si * si) by (nonlinear_arith)
        requires
            0 <= l < si,
    ;
}

pub(crate) proof fn lemma_two_pow_add(a: nat, b: nat)
    ensures
        two_pow(a + b) == two_pow(a) * two_pow(b),
    decreases a,
{
    if a > 0 {
        lemma_two_pow_add((a - 1) as nat, b);
        assert(two_pow(a) == 2 * two_pow((a - 1) as nat));
        assert(((a - 1) as nat + b) as nat == (a + b - 1) as nat);
        assert(two_pow(a + b) == 2 * two_pow(((a - 1) as nat + b) as nat));
        let x = two_pow((a - 1) as nat) as int;
        let y = two_pow(b) as int;
        assert(2 * (x * y) == (2 * x) * y) by (nonlinear_arith);
        assert(two_pow(a) * two_pow(b) == (2 * x) * y);
        assert(two_pow((a - 1) as nat + b) == x * y);
    } else {
        assert(two_pow(a) == 1);
        assert(a + b == b);
    }
}

pub(crate) proof fn lemma_two_pow_pos(a: nat)
    ensures
        two_pow(a) >= 1,
    decreases a,
{
    if a > 0 {
        lemma_two_pow_pos((a - 1) as nat);
    }
}

pub(crate) proof fn lemma_two_pow_monotone(a: nat, b: nat)
    requires
        a <= b,
    ensures
        two_pow(a) <= two_pow(b),
    decreases b,
{
    if a < b {
        lemma_two_pow_monotone(a, (b - 1) as nat);
        lemma_two_pow_pos((b - 1) as nat);
    }
}

/// `2^k`, where it fits.
pub(crate) fn pow2_usize(k: usize) -> (r: usize)
    requires
        two_pow(k as nat) <= usize::MAX,
    ensures
        r == two_pow(k as nat),
{
    let mut r: usize = 1;
    let mut i: usize = 0;
    while i < k
        invariant
            i <= k,
            r == two_pow(i as nat),
            two_pow(k as nat) <= usize::MAX,
        decreases k - i,
    {
        proof {
            lemma_two_pow_monotone((i + 1) as nat, k as nat);
        }
        r = 2 * r;
        i = i + 1;
    }
    r
}

/// The least `b` with `2^b >= n`.
pub(crate) fn bits_for_exec(n: usize) -> (r: usize)
    ensures
        r == bits_for(n as nat),
        r <= n,
    decreases n,
{
    if n <= 1 {
        0
    } else {
        let h = n / 2 + n % 2;
        assert(h == (n + 1) / 2);
        1 + bits_for_exec(h)
    }
}

pub(crate) fn bits_of_outputs(g: usize) -> (r: usize)
    ensures
        r == out_bits(g as nat),
        r <= g + 1,
{
    if g <= 1 {
        1
    } else {
        bits_for_exec(g)
    }
}

fn bits_of_inputs(g: usize) -> (r: usize)
    requires
        two_pow(out_bits(g as nat) + 2 * in_bits(g as nat)) <= usize::MAX,
    ensures
        r == in_bits(g as nat),
        r < 64,
        out_bits(g as nat) + 2 * r < 64,
{
    let ghost ob = out_bits(g as nat);
    let ghost ib = in_bits(g as nat);
    proof {
        lemma_two_pow_lower(ob + 2 * ib);
    }
    if g <= 1 {
        1
    } else {
        bits_for_exec(g) + 1
    }
}

/// `2^k` exceeds `k`, and reaches `2^64` from `k = 64` on.
proof fn lemma_two_pow_lower(k: nat)
    requires
        two_pow(k) <= usize::MAX,
    ensures
        k < 64,
{
    if k >= 64 {
        lemma_two_pow_monotone(64, k);
        assert(two_pow(64) == 0x1_0000_0000_0000_0000int) by {
            reveal_with_fuel(two_pow, 65);
        }
    }
}

impl Circuit {
    /// Whether every gate reads existing wires and writes an output wire of its layer.
    pub fn check_fits(&self) -> (r: bool)
        ensures
            r == self.fits(),
    {
        let ghost inp = vals(self.inputs@);
        let ghost ls = gates_view(self.layers@);
        let mut k: usize = 0;
        while k < self.layers.len()
            invariant
                inp == vals(self.inputs@),
                ls == gates_view(self.layers@),
                k <= ls.len(),
                forall|j: int| 0 <= j < k ==> gates_fit(#[trigger] ls[j], input_width(inp, ls, j)),
            decreases ls.len() - k,
        {
            let width = if k == 0 {
                self.inputs.len()
            } else {
                self.layers[k - 1].gates.len()
            };
            let gates = &self.layers[k].gates;
            assert(gates@ == ls[k as int]);
            assert(width == input_width(inp, ls, k as int));
            let mut i: usize = 0;
            while i < gates.len()
                invariant
                    inp == vals(self.inputs@),
                    ls == gates_view(self.layers@),
                    k < ls.len(),
                    gates@ == ls[k as int],
                    width == input_width(inp, ls, k as int),
                    i <= gates@.len(),
                    forall|j: int|
                        0 <= j < i ==> (#[trigger] gates@[j]).left < width && gates@[j].right < width
                            && gates@[j].output < gates@.len(),
                decreases gates@.len() - i,
            {
                let g = gates[i];
                if !(g.left < width && g.right < width && g.output < gates.len()) {
                    assert(!gates_fit(ls[k as int], input_width(inp, ls, k as int))) by {
                        assert(gates@[i as int] == g);
                    }
                    return false;
                }
                i = i + 1;
            }
            assert(gates_fit(ls[k as int], input_width(inp, ls, k as int)));
            k = k + 1;
        }
        true
    }

    /// Whether the wiring tables of layer `i` can be formed: each index fits its bits,
    /// and the table has at most `2^31` entries.
    pub fn wiring_fits(&self, i: usize) -> (r: bool)
        requires
            i < self.layers@.len(),
        ensures
            r == wiring_ok(self.layers@[i as int].gates@),
            r ==> self.layers@[i as int].gates@.len() >= 1 && two_pow(
                out_bits(self.layers@[i as int].gates@.len() as nat) + 2 * in_bits(
                    self.layers@[i as int].gates@.len() as nat,
                ),
            ) <= usize::MAX && forall|j: int|
                0 <= j < self.layers@[i as int].gates@.len() ==> {
                    let g = #[trigger] self.layers@[i as int].gates@[j];
                    let n = self.layers@[i as int].gates@.len() as nat;
                    &&& g.output < two_pow(out_bits(n))
                    &&& g.left < two_pow(in_bits(n))
                    &&& g.right < two_pow(in_bits(n))
                },
    {
        let gates = &self.layers[i].gates;
        let g = gates.len();
        if g == 0 {
            return false;
        }
        let ob = if g <= 1 {
            1
        } else {
            bits_for_exec(g)
        };
        if ob > 31 {
            return false;
        }
        let ib = if g <= 1 {
            1
        } else {
            ob + 1
        };
        if ob + 2 * ib > 31 {
            return false;
        }
        proof {
            lemma_two_pow_monotone((ob + 2 * ib) as nat, 31);
            assert(two_pow(31) == 0x8000_0000) by {
                reveal_with_fuel(two_pow, 32);
            }
            lemma_two_pow_monotone(ob as nat, (ob + 2 * ib) as nat);
            lemma_two_pow_monotone(ib as nat, (ob + 2 * ib) as nat);
        }
        let so = pow2_usize(ob);
        let si = pow2_usize(ib);
        let mut k: usize = 0;
        while k < g
            invariant
                g == gates@.len(),
                gates@ == self.layers@[i as int].gates@,
                g >= 1,
                out_bits(g as nat) + 2 * in_bits(g as nat) <= 31,
                so == two_pow(out_bits(g as nat)),
                si == two_pow(in_bits(g as nat)),
                k <= g,
                forall|j: int|
                    0 <= j < k ==> {
                        let gt = #[trigger] gates@[j];
                        &&& gt.output < so
                        &&& gt.left < si
                        &&& gt.right < si
                    },
            decreases g - k,
        {
            let gt = gates[k];
            if !(gt.output < so && gt.left < si && gt.right < si) {
                assert(gates@[k as int] == gt);
                return false;
            }
            k = k + 1;
        }
        true
    }
}

/// `bits_for(2^k) = k`.
pub(crate) proof fn lemma_bits_for_pow2(k: nat)
    ensures
        bits_for(two_pow(k)) == k,
    decreases k,
{
    if k > 0 {
        lemma_bits_for_pow2((k - 1) as nat);
        lemma_two_pow_pos((k - 1) as nat);
        assert(two_pow(k) == 2 * two_pow((k - 1) as nat));
        assert((two_pow(k) + 1) / 2 == two_pow((k - 1) as nat));
    }
}

/// `log2(2^k) = k`.
pub(crate) proof fn lemma_log2_pow2(k: nat)
    ensures
        crate::field::log2(two_pow(k) as int) == k,
    decreases k,
{
    if k > 0 {
        lemma_log2_pow2((k - 1) as nat);
        lemma_two_pow_pos((k - 1) as nat);
        assert(two_pow(k) == 2 * two_pow((k - 1) as nat));
    }
}

/// Wire vector `j` is the last wire vector of the first `j` layers.
pub(crate) proof fn lemma_wire_prefix(inp: Seq<int>, ls: Seq<Seq<Gate>>, j: int)
    requires
        0 <= j <= ls.len(),
    ensures
        wire_values(inp, ls)[j] == wire_values(inp, ls.subrange(0, j)).last(),
    decreases ls.len(),
{
    lemma_wires_len(inp, ls);
    if j == ls.len() {
        assert(ls.subrange(0, j) =~= ls);
    } else {
        lemma_wire_prefix(inp, ls.drop_last(), j);
        assert(ls.drop_last().subrange(0, j) =~= ls.subrange(0, j));
        lemma_wires_len(inp, ls.drop_last());
    }
}

/// The length of wire vector `j` is the number of wires that layer `j` reads.
pub(crate) proof fn lemma_wire_len(inp: Seq<int>, ls: Seq<Seq<Gate>>, j: int)
    requires
        0 <= j < ls.len(),
        circuit_fits(inp, ls),
    ensures
        wire_values(inp, ls)[j].len() == input_width(inp, ls, j),
{
    lemma_wire_prefix(inp, ls, j);
    lemma_wire_widths(inp, ls, j);
}

/// The last wire vector has one entry per gate of the last layer.
pub(crate) proof fn lemma_output_len(inp: Seq<int>, ls: Seq<Seq<Gate>>)
    requires
        ls.len() >= 1,
        circuit_fits(inp, ls),
    ensures
        wire_values(inp, ls).last().len() == ls.last().len(),
{
    let k = ls.len() - 1;
    assert(gates_fit(ls[k], input_width(inp, ls, k)));
    assert forall|i: int| 0 <= i < ls[k].len() implies (#[trigger] ls[k][i]).output < ls[k].len() by {
        assert(gates_fit(ls[k], input_width(inp, ls, k)));
    }
    lemma_apply_len(wire_values(inp, ls.drop_last()).last(), ls.last(), ls.last().len());
}

/// Layer `j` can be proved: its wiring tables can be formed, and it reads `2^in_bits`
/// wires, at most 65535 of them.
pub open spec fn layer_shape(inputs: Seq<int>, gs: Seq<Seq<Gate>>, j: int) -> bool {
    let g = gs[j].len() as nat;
    &&& wiring_ok(gs[j])
    &&& input_width(inputs, gs, j) == two_pow(in_bits(g))
    &&& input_width(inputs, gs, j) <= 65535
}

/// The circuit has layers, every gate reads existing wires, and the widths of the
/// layers chain as the GKR prover needs them to.
pub open spec fn gkr_shape(inputs: Seq<int>, gs: Seq<Seq<Gate>>) -> bool {
    &&& gs.len() >= 1
    &&& circuit_fits(inputs, gs)
    &&& forall|j: int| 0 <= j < gs.len() ==> #[trigger] layer_shape(inputs, gs, j)
}

proof fn lemma_wiring_table_len(gs: Seq<Gate>, op: GateOp, n: nat, size: nat, ib: nat)
    requires
        n <= gs.len(),
        forall|j: int|
            0 <= j < n ==> 0 <= #[trigger] wiring_index(gs[j].output as int, gs[j].left as int, gs[j].right as int, ib)
                < size,
    ensures
        wiring_table(gs, op, n, size, ib).len() == size,
    decreases n,
{
    if n > 0 {
        lemma_wiring_table_len(gs, op, (n - 1) as nat, size, ib);
        let g = gs[n - 1];
        assert(0 <= wiring_index(g.output as int, g.left as int, g.right as int, ib) < size);
    }
}

/// Both wiring tables of a layer whose tables can be formed have `2^(ob + 2·ib)` entries.
pub(crate) proof fn lemma_wiring_tables_len(gs: Seq<Gate>)
    requires
        wiring_ok(gs),
    ensures
        wiring_tables(gs).0.len() == two_pow(out_bits(gs.len() as nat) + 2 * in_bits(gs.len() as nat)),
        wiring_tables(gs).1.len() == two_pow(out_bits(gs.len() as nat) + 2 * in_bits(gs.len() as nat)),
{
    let n = gs.len() as nat;
    let ob = out_bits(n);
    let ib = in_bits(n);
    let size = two_pow(ob + 2 * ib);
    lemma_two_pow_add(ob, 2 * ib);
    lemma_two_pow_add(ib, ib);
    assert(ib + ib == 2 * ib);
    assert forall|j: int| 0 <= j < n implies 0 <= #[trigger] wiring_index(
        gs[j].output as int,
        gs[j].left as int,
        gs[j].right as int,
        ib,
    ) < size by {
        let g = gs[j];
        lemma_index_in_range(g.output as int, g.left as int, g.right as int, two_pow(ob) as int, two_pow(ib) as int);
    }
    lemma_wiring_table_len(gs, GateOp::Add, n, size, ib);
    lemma_wiring_table_len(gs, GateOp::Mul, n, size, ib);
}

} // verus!
