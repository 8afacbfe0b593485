//! Elements of the scalar field of BN254, held as four little-endian 64-bit limbs.
//!
//! Every arithmetic step goes through `ark_ff`; the contracts state the result
//! as arithmetic on integers modulo the field's prime.
use vstd::prelude::*;
use ark_ff::{BigInt, BigInteger, FftField, Field, PrimeField};
use ark_bn254::Fr;

verus! {

/// The prime order of the field.
pub open spec fn modulus() -> int {
    21888242871839275222246405745257275088548364400416034343698204186575808495617int
}

pub open spec fn fadd(a: int, b: int) -> int {
    (a + b) % modulus()
}

pub open spec fn fsub(a: int, b: int) -> int {
    (a - b) % modulus()
}

pub open spec fn fmul(a: int, b: int) -> int {
    (a * b) % modulus()
}

pub open spec fn fpow(a: int, n: nat) -> int
    decreases n,
{
    if n == 0 {
        1
    } else {
        fmul(fpow(a, (n - 1) as nat), a)
    }
}

/// The integer that a byte string denotes, most significant byte first.
pub open spec fn be_value(b: Seq<u8>) -> int
    decreases b.len(),
{
    if b.len() == 0 {
        0
    } else {
        be_value(b.drop_last()) * 256 + b.last()
    }
}

/// The `n`-byte big-endian encoding of `v` (its low `8n` bits).
pub open spec fn be_bytes(v: int, n: nat) -> Seq<u8>
    decreases n,
{
    if n == 0 {
        Seq::empty()
    } else {
        be_bytes(v / 256, (n - 1) as nat).push((v % 256) as u8)
    }
}

/// The ASCII decimal digits of `v`, without leading zeros.
pub open spec fn decimal_digits(v: nat) -> Seq<u8>
    decreases v,
{
    if v < 10 {
        seq![(48 + v) as u8]
    } else {
        decimal_digits(v / 10).push((48 + v % 10) as u8)
    }
}

pub open spec fn is_pow2(n: int) -> bool
    decreases n,
{
    if n <= 0 {
        false
    } else if n == 1 {
        true
    } else {
        n % 2 == 0 && is_pow2(n / 2)
    }
}

pub open spec fn two_pow(k: nat) -> nat
    decreases k,
{
    if k == 0 {
        1
    } else {
        2 * two_pow((k - 1) as nat)
    }
}

/// The largest power of two that divides `modulus() - 1`.
pub open spec fn two_adic_bound() -> int {
    268435456
}

pub open spec fn log2(n: int) -> nat
    decreases n,
{
    if n <= 1 {
        0
    } else {
        1 + log2(n / 2)
    }
}

pub proof fn lemma_pow2_half(n: int)
    requires
        is_pow2(n),
        n >= 2,
    ensures
        is_pow2(n / 2),
        n % 2 == 0,
        log2(n / 2) + 1 == log2(n),
        n / 2 >= 1,
{
}

pub proof fn lemma_pow2_log(n: int)
    requires
        is_pow2(n),
    ensures
        n == two_pow(log2(n)),
        n >= 1,
    decreases n,
{
    if n >= 2 {
        lemma_pow2_log(n / 2);
    }
}

pub proof fn lemma_log2_le(n: int)
    requires
        n >= 1,
    ensures
        log2(n) < n,
    decreases n,
{
    if n >= 2 {
        lemma_log2_le(n / 2);
    }
}

/// Multiplication in the field is associative.
pub proof fn lemma_fmul_assoc(a: int, b: int, c: int)
    ensures
        fmul(fmul(a, b), c) == fmul(a, fmul(b, c)),
{
    let p = modulus();
    vstd::arithmetic::div_mod::lemma_mul_mod_noop_left(a * b, c, p);
    vstd::arithmetic::div_mod::lemma_mul_mod_noop_right(a, b * c, p);
    vstd::arithmetic::mul::lemma_mul_is_associative(a, b, c);
}

/// `w^(a+b) = w^a·w^b`.
pub proof fn lemma_fpow_add(w: int, a: nat, b: nat)
    requires
        0 <= w < modulus(),
    ensures
        fpow(w, a + b) == fmul(fpow(w, a), fpow(w, b)),
    decreases b,
{
    if b == 0 {
        assert(fpow(w, a) == fpow(w, a) % modulus()) by {
            lemma_fpow_range(w, a);
            vstd::arithmetic::div_mod::lemma_small_mod(fpow(w, a) as nat, modulus() as nat);
        }
    } else {
        lemma_fpow_add(w, a, (b - 1) as nat);
        assert(fpow(w, a + b) == fmul(fpow(w, (a + b - 1) as nat), w));
        lemma_fmul_assoc(fpow(w, a), fpow(w, (b - 1) as nat), w);
    }
}

pub proof fn lemma_fpow_range(w: int, n: nat)
    ensures
        0 <= fpow(w, n) < modulus(),
    decreases n,
{
    if n > 0 {
        lemma_fpow_range(w, (n - 1) as nat);
    }
}

/// `(w·w)^n = w^(2n)`.
pub proof fn lemma_fpow_square(w: int, n: nat)
    requires
        0 <= w < modulus(),
    ensures
        fpow(fmul(w, w), n) == fpow(w, 2 * n),
    decreases n,
{
    if n > 0 {
        lemma_fpow_square(w, (n - 1) as nat);
        lemma_fpow_add(w, (2 * (n - 1)) as nat, 2);
        assert(fpow(w, 2) == fmul(fmul(1, w), w)) by {
            reveal_with_fuel(fpow, 3);
        }
        assert(fmul(1, w) == w) by {
            vstd::arithmetic::div_mod::lemma_small_mod(w as nat, modulus() as nat);
        }
        assert((2 * (n - 1)) as nat + 2 == 2 * n);
    }
}

/// A power of an element whose `n`-th power is one is not zero.
pub proof fn lemma_root_power_nonzero(w: int, n: nat, i: nat)
    requires
        0 <= w < modulus(),
        fpow(w, n) == 1,
        i <= n,
    ensures
        fpow(w, i) != 0,
{
    lemma_fpow_add(w, i, (n - i) as nat);
    assert(i + (n - i) as nat == n);
    if fpow(w, i) == 0 {
        assert(fmul(0, fpow(w, (n - i) as nat)) == 0);
    }
}

/// Twice a nonzero element is not zero: the prime is odd.
pub proof fn lemma_double_nonzero(x: int)
    requires
        0 < x < modulus(),
    ensures
        fadd(x, x) != 0,
{
    let p = modulus();
    vstd::arithmetic::div_mod::lemma_fundamental_div_mod(x + x, p);
    if (x + x) % p == 0 {
        assert(x + x == p * ((x + x) / p));
        assert((x + x) / p == 1) by {
            vstd::arithmetic::div_mod::lemma_div_pos_is_pos(x + x, p);
            vstd::arithmetic::div_mod::lemma_div_is_ordered(x + x, 2 * p - 1, p);
            vstd::arithmetic::div_mod::lemma_fundamental_div_mod(2 * p - 1, p);
        }
    }
}

/// Two affine combinations of congruent values are congruent.
pub proof fn lemma_combination_congruent(u: int, u2: int, v: int, v2: int, x: int)
    requires
        u % modulus() == u2 % modulus(),
        v % modulus() == v2 % modulus(),
    ensures
        ((1 - x) * u + x * v) % modulus() == ((1 - x) * u2 + x * v2) % modulus(),
{
    let p = modulus();
    vstd::arithmetic::div_mod::lemma_mul_mod_noop_right(1 - x, u, p);
    vstd::arithmetic::div_mod::lemma_mul_mod_noop_right(1 - x, u2, p);
    vstd::arithmetic::div_mod::lemma_mul_mod_noop_right(x, v, p);
    vstd::arithmetic::div_mod::lemma_mul_mod_noop_right(x, v2, p);
    vstd::arithmetic::div_mod::lemma_add_mod_noop((1 - x) * u, x * v, p);
    vstd::arithmetic::div_mod::lemma_add_mod_noop((1 - x) * u2, x * v2, p);
}

/// `fadd(a, fmul(fsub(b, a), r))` is `a + (b - a)·r` reduced.
pub proof fn lemma_fold_value(a: int, b: int, r: int)
    ensures
        fadd(a, fmul(fsub(b, a), r)) == (a + (b - a) * r) % modulus(),
{
    let p = modulus();
    vstd::arithmetic::div_mod::lemma_mul_mod_noop_left(b - a, r, p);
    vstd::arithmetic::div_mod::lemma_add_mod_noop_right(a, (b - a) * r, p);
}

/// The root of unity of order `n` that the field's FFT structure fixes.
pub uninterp spec fn unity_root(n: nat) -> int;

/// A field element.
#[derive(Clone, Copy, Debug, Eq)]
pub struct Fe {
    limb0: u64,
    limb1: u64,
    limb2: u64,
    limb3: u64,
}

pub open spec fn limb_base() -> int {
    0x1_0000_0000_0000_0000int
}

pub closed spec fn fe_raw(a: Fe) -> int {
    a.limb0 + limb_base() * (a.limb1 + limb_base() * (a.limb2 + limb_base() * a.limb3 as int))
}

proof fn lemma_limb_split(x0: int, xs: int, y0: int, ys: int)
    requires
        0 <= x0 < limb_base(),
        0 <= y0 < limb_base(),
        x0 + limb_base() * xs == y0 + limb_base() * ys,
    ensures
        x0 == y0,
        xs == ys,
{
    assert(x0 == y0 && xs == ys) by (nonlinear_arith)
        requires
            0 <= x0 < limb_base(),
            0 <= y0 < limb_base(),
            x0 + limb_base() * xs == y0 + limb_base() * ys,
    ;
}

proof fn lemma_fe_raw_injective(a: Fe, b: Fe)
    requires
        fe_raw(a) == fe_raw(b),
    ensures
        a.limb0 == b.limb0,
        a.limb1 == b.limb1,
        a.limb2 == b.limb2,
        a.limb3 == b.limb3,
{
    let xa2 = a.limb2 + limb_base() * a.limb3 as int;
    let xb2 = b.limb2 + limb_base() * b.limb3 as int;
    let xa1 = a.limb1 + limb_base() * xa2;
    let xb1 = b.limb1 + limb_base() * xb2;
    lemma_limb_split(a.limb0 as int, xa1, b.limb0 as int, xb1);
    lemma_limb_split(a.limb1 as int, xa2, b.limb1 as int, xb2);
    lemma_limb_split(a.limb2 as int, a.limb3 as int, b.limb2 as int, b.limb3 as int);
}

impl Fe {
    #[verifier::type_invariant]
    closed spec fn canonical(self) -> bool {
        fe_raw(self) < modulus()
    }

    /// The integer in `[0, modulus())` that this element stands for.
    pub open spec fn val(self) -> int {
        fe_raw(self) % modulus()
    }

    pub fn from_u64(x: u64) -> (r: Fe)
        ensures
            r.val() == x,
    {
        let r = Fe { limb0: x, limb1: 0, limb2: 0, limb3: 0 };
        assert(fe_raw(r) == x);
        r
    }

    pub fn zero() -> (r: Fe)
        ensures
            r.val() == 0,
    {
        Fe::from_u64(0)
    }

    pub fn one() -> (r: Fe)
        ensures
            r.val() == 1,
    {
        Fe::from_u64(1)
    }

    pub fn is_zero(&self) -> (r: bool)
        ensures
            r == (self.val() == 0),
    {
        let z = Fe::zero();
        *self == z
    }

    pub fn add(self, o: Fe) -> (r: Fe)
        ensures
            r.val() == fadd(self.val(), o.val()),
    {
        ark_add(self, o)
    }

    pub fn sub(self, o: Fe) -> (r: Fe)
        ensures
            r.val() == fsub(self.val(), o.val()),
    {
        ark_sub(self, o)
    }

    pub fn mul(self, o: Fe) -> (r: Fe)
        ensures
            r.val() == fmul(self.val(), o.val()),
    {
        ark_mul(self, o)
    }

    pub fn neg(self) -> (r: Fe)
        ensures
            r.val() == fsub(0, self.val()),
    {
        Fe::zero().sub(self)
    }

    pub fn double(self) -> (r: Fe)
        ensures
            r.val() == fadd(self.val(), self.val()),
    {
        self.add(self)
    }

    pub fn square(self) -> (r: Fe)
        ensures
            r.val() == fmul(self.val(), self.val()),
    {
        self.mul(self)
    }

    /// The multiplicative inverse; `None` for zero.
    pub fn inverse(self) -> (r: Option<Fe>)
        ensures
            r is None <==> self.val() == 0,
            r matches Some(i) ==> fmul(i.val(), self.val()) == 1,
    {
        ark_inverse(self)
    }

    /// `self` raised to the power `n`.
    pub fn pow(self, n: u64) -> (r: Fe)
        ensures
            r.val() == fpow(self.val(), n as nat),
    {
        let mut acc = Fe::one();
        let mut i: u64 = 0;
        while i < n
            invariant
                i <= n,
                acc.val() == fpow(self.val(), i as nat),
            decreases n - i,
        {
            acc = acc.mul(self);
            i = i + 1;
        }
        acc
    }

    /// Reads bytes as a big-endian integer and reduces it modulo the field's prime.
    pub fn from_be_bytes_mod_order(bytes: &[u8]) -> (r: Fe)
        ensures
            r.val() == be_value(bytes@) % modulus(),
    {
        ark_from_be_bytes(bytes)
    }

    /// The canonical 32-byte big-endian encoding.
    pub fn to_bytes_be(&self) -> (r: Vec<u8>)
        ensures
            r@ == be_bytes(self.val(), 32),
    {
        ark_to_bytes_be(*self)
    }

    /// The decimal representation, as ASCII bytes.
    pub fn to_decimal_bytes(&self) -> (r: Vec<u8>)
        ensures
            r@ == decimal_digits(self.val() as nat),
    {
        ark_to_decimal(*self)
    }

    /// A primitive `n`-th root of unity, where the field has one.
    pub fn root_of_unity(n: u64) -> (r: Option<Fe>)
        ensures
            is_pow2(n as int) && n <= two_adic_bound() ==> r is Some,
            r matches Some(w) ==> w.val() == unity_root(n as nat) && fpow(w.val(), n as nat) == 1
                && forall|k: nat| 0 < k < n ==> #[trigger] fpow(w.val(), k) != 1,
            r matches Some(w) ==> (n % 2 == 0 && n >= 2 ==> fpow(w.val(), (n / 2) as nat) == modulus() - 1),
    {
        ark_root_of_unity(n)
    }

    /// The low 64 bits of the element's integer.
    pub fn low_u64(&self) -> (r: u64)
        ensures
            r == self.val() % 0x1_0000_0000_0000_0000int,
    {
        proof {
            use_type_invariant(self);
            let b = limb_base();
            let rest = self.limb1 + b * (self.limb2 + b * self.limb3 as int);
            vstd::arithmetic::div_mod::lemma_small_mod(fe_raw(*self) as nat, modulus() as nat);
            vstd::arithmetic::div_mod::lemma_fundamental_div_mod_converse(
                fe_raw(*self),
                b,
                rest,
                self.limb0 as int,
            );
        }
        self.limb0
    }
}

impl PartialEq for Fe {
    fn eq(&self, o: &Fe) -> (r: bool)
        ensures
            r == (self.val() == o.val()),
    {
        proof {
            use_type_invariant(self);
            use_type_invariant(o);
            if self.val() == o.val() {
                lemma_fe_raw_injective(*self, *o);
            }
        }
        self.limb0 == o.limb0 && self.limb1 == o.limb1 && self.limb2 == o.limb2 && self.limb3
            == o.limb3
    }
}

impl vstd::std_specs::cmp::PartialEqSpecImpl for Fe {
    open spec fn obeys_eq_spec() -> bool {
        true
    }

    open spec fn eq_spec(&self, o: &Fe) -> bool {
        self.val() == o.val()
    }
}

/// Relies on `Add` of `ark_bn254::Fr`: addition modulo the field's prime.
#[verifier::external_body]
pub(crate) fn ark_add(a: Fe, b: Fe) -> (r: Fe)
    ensures
        r.val() == fadd(a.val(), b.val()),
{
    let x = Fr::from_bigint(BigInt::new([a.limb0, a.limb1, a.limb2, a.limb3])).unwrap();
    let y = Fr::from_bigint(BigInt::new([b.limb0, b.limb1, b.limb2, b.limb3])).unwrap();
    let l = (x + y).into_bigint().0;
    Fe { limb0: l[0], limb1: l[1], limb2: l[2], limb3: l[3] }
}

/// Relies on `Sub` of `ark_bn254::Fr`: subtraction modulo the field's prime.
#[verifier::external_body]
pub(crate) fn ark_sub(a: Fe, b: Fe) -> (r: Fe)
    ensures
        r.val() == fsub(a.val(), b.val()),
{
    let x = Fr::from_bigint(BigInt::new([a.limb0, a.limb1, a.limb2, a.limb3])).unwrap();
    let y = Fr::from_bigint(BigInt::new([b.limb0, b.limb1, b.limb2, b.limb3])).unwrap();
    let l = (x - y).into_bigint().0;
    Fe { limb0: l[0], limb1: l[1], limb2: l[2], limb3: l[3] }
}

/// Relies on `Mul` of `ark_bn254::Fr`: multiplication modulo the field's prime.
#[verifier::external_body]
pub(crate) fn ark_mul(a: Fe, b: Fe) -> (r: Fe)
    ensures
        r.val() == fmul(a.val(), b.val()),
{
    let x = Fr::from_bigint(BigInt::new([a.limb0, a.limb1, a.limb2, a.limb3])).unwrap();
    let y = Fr::from_bigint(BigInt::new([b.limb0, b.limb1, b.limb2, b.limb3])).unwrap();
    let l = (x * y).into_bigint().0;
    Fe { limb0: l[0], limb1: l[1], limb2: l[2], limb3: l[3] }
}

/// Relies on `Field::inverse` of `ark_bn254::Fr`: `None` exactly for zero,
/// otherwise the element whose product with the argument is one.
#[verifier::external_body]
pub(crate) fn ark_inverse(a: Fe) -> (r: Option<Fe>)
    ensures
        r is None <==> a.val() == 0,
        r matches Some(i) ==> fmul(i.val(), a.val()) == 1,
{
    let x = Fr::from_bigint(BigInt::new([a.limb0, a.limb1, a.limb2, a.limb3])).unwrap();
    x.inverse().map(|i| {
        let l = i.into_bigint().0;
        Fe { limb0: l[0], limb1: l[1], limb2: l[2], limb3: l[3] }
    })
}

/// Relies on `PrimeField::from_be_bytes_mod_order` of `ark_bn254::Fr`: the
/// big-endian integer of the bytes, reduced modulo the field's prime.
#[verifier::external_body]
pub(crate) fn ark_from_be_bytes(bytes: &[u8]) -> (r: Fe)
    ensures
        r.val() == be_value(bytes@) % modulus(),
{
    let l = Fr::from_be_bytes_mod_order(bytes).into_bigint().0;
    Fe { limb0: l[0], limb1: l[1], limb2: l[2], limb3: l[3] }
}

/// Relies on `PrimeField::into_bigint` and `BigInteger::to_bytes_be` of ark_ff:
/// the canonical integer of the element as 32 big-endian bytes.
#[verifier::external_body]
pub(crate) fn ark_to_bytes_be(a: Fe) -> (r: Vec<u8>)
    ensures
        r@ == be_bytes(a.val(), 32),
{
    let x = Fr::from_bigint(BigInt::new([a.limb0, a.limb1, a.limb2, a.limb3])).unwrap();
    x.into_bigint().to_bytes_be()
}

/// Relies on `Display` of `ark_bn254::Fr`: the canonical integer in decimal,
/// without leading zeros.
#[verifier::external_body]
pub(crate) fn ark_to_decimal(a: Fe) -> (r: Vec<u8>)
    ensures
        r@ == decimal_digits(a.val() as nat),
{
    let x = Fr::from_bigint(BigInt::new([a.limb0, a.limb1, a.limb2, a.limb3])).unwrap();
    x.to_string().into_bytes()
}

/// Relies on `FftField::get_root_of_unity` of `ark_bn254::Fr`: a root of unity of
/// order `n`, which exists for every power of two up to the field's two-adicity and
/// depends on `n` alone. Its `n/2`-th power squares to one without being one, so in
/// the prime field it is `-1`.
#[verifier::external_body]
pub(crate) fn ark_root_of_unity(n: u64) -> (r: Option<Fe>)
    ensures
        is_pow2(n as int) && n <= two_adic_bound() ==> r is Some,
        r matches Some(w) ==> w.val() == unity_root(n as nat) && fpow(w.val(), n as nat) == 1
            && forall|k: nat| 0 < k < n ==> #[trigger] fpow(w.val(), k) != 1,
        r matches Some(w) ==> (n % 2 == 0 && n >= 2 ==> fpow(w.val(), (n / 2) as nat) == modulus() - 1),
{
    Fr::get_root_of_unity(n).map(|w| {
        let l = w.into_bigint().0;
        Fe { limb0: l[0], limb1: l[1], limb2: l[2], limb3: l[3] }
    })
}

} // verus!
