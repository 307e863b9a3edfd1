//! Field elements of the 255-bit Pallas base field, held as canonical
//! 32-byte little-endian encodings, together with the Poseidon hash that
//! the Merkle accumulator and the commitment scheme are built on.

use vstd::prelude::*;

use halo2_gadgets::poseidon::primitives::{ConstantLength, Hash as PoseidonHash, P128Pow5T3};
use halo2_proofs::pasta::group::ff::PrimeField;
use halo2_proofs::pasta::Fp;

verus! {

/// Value of a little-endian byte string as a natural number.
pub open spec fn le_val(s: Seq<u8>) -> nat
    decreases s.len(),
{
    if s.len() == 0 {
        0
    } else {
        s[0] as nat + 256 * le_val(s.skip(1))
    }
}

/// 256 raised to the power `n`: the number of byte strings of length `n`.
pub open spec fn pow256(n: nat) -> nat
    decreases n,
{
    if n == 0 {
        1
    } else {
        256 * pow256((n - 1) as nat)
    }
}

/// Canonical little-endian encoding of the Pallas base field modulus
/// `p = 0x40000000000000000000000000000000224698fc094cf91b992d30ed00000001`.
pub open spec fn modulus_le() -> Seq<u8> {
    seq![
        0x01u8, 0x00u8, 0x00u8, 0x00u8, 0xedu8, 0x30u8, 0x2du8, 0x99u8,
        0x1bu8, 0xf9u8, 0x4cu8, 0x09u8, 0xfcu8, 0x98u8, 0x46u8, 0x22u8,
        0x00u8, 0x00u8, 0x00u8, 0x00u8, 0x00u8, 0x00u8, 0x00u8, 0x00u8,
        0x00u8, 0x00u8, 0x00u8, 0x00u8, 0x00u8, 0x00u8, 0x00u8, 0x40u8,
    ]
}

/// The Pallas base field modulus as a natural number.
pub open spec fn modulus() -> nat {
    le_val(modulus_le())
}

/// A byte string is the canonical encoding of a field element: exactly 32
/// bytes, little endian, value strictly below the modulus.
pub open spec fn is_canonical(s: Seq<u8>) -> bool {
    s.len() == 32 && le_val(s) < modulus()
}

/// Encoding of the field element zero.
pub open spec fn zero_le() -> Seq<u8> {
    Seq::new(32, |i: int| 0u8)
}

/// The first `n` little-endian bytes of the natural number `x`.
pub open spec fn nat_le_bytes(x: nat, n: nat) -> Seq<u8>
    decreases n,
{
    if n == 0 {
        Seq::empty()
    } else {
        seq![(x % 256) as u8] + nat_le_bytes(x / 256, (n - 1) as nat)
    }
}

/// Canonical 32-byte encoding of a 64-bit value: its 8 little-endian bytes
/// followed by 24 zero bytes.
pub open spec fn u64_le(x: u64) -> Seq<u8> {
    nat_le_bytes(x as nat, 8) + Seq::new(24, |i: int| 0u8)
}

/// Encoding of the field element one.
pub open spec fn one_le() -> Seq<u8> {
    u64_le(1)
}

/// Prepending a byte multiplies the value of the rest by 256.
pub proof fn lemma_le_val_cons(b: u8, rest: Seq<u8>)
    ensures
        le_val(seq![b] + rest) == b + 256 * le_val(rest),
{
    let s = seq![b] + rest;
    assert(s[0] == b);
    assert(s.skip(1) =~= rest);
}

/// A byte string of zeros has value zero.
pub proof fn lemma_le_val_zero(s: Seq<u8>)
    requires
        forall|i: int| 0 <= i < s.len() ==> s[i] == 0u8,
    ensures
        le_val(s) == 0,
    decreases s.len(),
{
    if s.len() > 0 {
        lemma_le_val_zero(s.skip(1));
    }
}

/// The value of a byte string is below 256 to the power of its length.
pub proof fn lemma_le_val_bound(s: Seq<u8>)
    ensures
        le_val(s) < pow256(s.len()),
    decreases s.len(),
{
    if s.len() == 0 {
    } else {
        lemma_le_val_bound(s.skip(1));
        let rest = le_val(s.skip(1));
        let p = pow256((s.len() - 1) as nat);
        assert(s[0] as nat + 256 * rest < 256 * p) by (nonlinear_arith)
            requires
                rest < p,
                s[0] < 256,
        {}
    }
}

/// Trailing zeros do not change the value of a byte string.
pub proof fn lemma_le_val_append_zeros(s: Seq<u8>, z: Seq<u8>)
    requires
        forall|i: int| 0 <= i < z.len() ==> z[i] == 0u8,
    ensures
        le_val(s + z) == le_val(s),
    decreases s.len(),
{
    if s.len() == 0 {
        assert(s + z =~= z);
        lemma_le_val_zero(z);
    } else {
        assert((s + z)[0] == s[0]);
        assert((s + z).skip(1) =~= s.skip(1) + z);
        lemma_le_val_append_zeros(s.skip(1), z);
    }
}

/// The value of the first `n` little-endian bytes of `x` is `x` modulo 256^n.
pub proof fn lemma_nat_le_bytes_val(x: nat, n: nat)
    ensures
        nat_le_bytes(x, n).len() == n,
        le_val(nat_le_bytes(x, n)) == x % pow256(n),
    decreases n,
{
    if n == 0 {
        assert(x % 1 == 0) by (nonlinear_arith);
    } else {
        lemma_nat_le_bytes_val(x / 256, (n - 1) as nat);
        lemma_le_val_cons((x % 256) as u8, nat_le_bytes(x / 256, (n - 1) as nat));
        let c = pow256((n - 1) as nat);
        lemma_pow256_pos((n - 1) as nat);
        vstd::arithmetic::div_mod::lemma_mod_breakdown(x as int, 256, c as int);
        assert(le_val(nat_le_bytes(x, n)) == x % 256 + 256 * ((x / 256) % c));
    }
}

/// Byte `i` of the little-endian encoding of `x` is digit `i` of `x` in base 256.
pub proof fn lemma_nat_le_bytes_index(x: nat, n: nat, i: int)
    requires
        0 <= i < n,
    ensures
        nat_le_bytes(x, n).len() == n,
        nat_le_bytes(x, n)[i] == ((x / pow256(i as nat)) % 256) as u8,
    decreases n,
{
    lemma_nat_le_bytes_val(x, n);
    if i == 0 {
        assert(pow256(0) == 1);
        assert(x / 1 == x) by (nonlinear_arith);
    } else {
        lemma_nat_le_bytes_index(x / 256, (n - 1) as nat, i - 1);
        assert(nat_le_bytes(x, n)[i] == nat_le_bytes(x / 256, (n - 1) as nat)[i - 1]);
        let p = pow256((i - 1) as nat);
        lemma_pow256_pos((i - 1) as nat);
        vstd::arithmetic::div_mod::lemma_div_denominator(x as int, 256, p as int);
        assert(256 * p == pow256(i as nat));
    }
}

/// Powers of 256 are positive.
pub proof fn lemma_pow256_pos(n: nat)
    ensures
        pow256(n) >= 1,
    decreases n,
{
    if n > 0 {
        lemma_pow256_pos((n - 1) as nat);
    }
}

/// Powers of 256 are monotonic in the exponent.
pub proof fn lemma_pow256_monotonic(a: nat, b: nat)
    requires
        a <= b,
    ensures
        pow256(a) <= pow256(b),
    decreases b,
{
    if a < b {
        lemma_pow256_monotonic(a, (b - 1) as nat);
        lemma_pow256_pos((b - 1) as nat);
    }
}

/// A single digit already bounds the value of a byte string from below.
pub proof fn lemma_le_val_digit_lower(s: Seq<u8>, i: int)
    requires
        0 <= i < s.len(),
    ensures
        le_val(s) >= s[i] * pow256(i as nat),
    decreases i,
{
    if i == 0 {
        assert(pow256(0) == 1);
        assert(s[0] * pow256(0) == s[0]) by (nonlinear_arith)
            requires
                pow256(0) == 1,
        {}
        assert(le_val(s) >= s[0]);
    } else {
        lemma_le_val_digit_lower(s.skip(1), i - 1);
        let d = s.skip(1)[i - 1];
        assert(d == s[i]);
        let p = pow256((i - 1) as nat);
        assert(256 * le_val(s.skip(1)) >= d * (256 * p)) by (nonlinear_arith)
            requires
                le_val(s.skip(1)) >= d * p,
        {}
        assert(pow256(i as nat) == 256 * p);
        assert(d * (256 * p) == d * pow256(i as nat)) by (nonlinear_arith)
            requires
                pow256(i as nat) == 256 * p,
        {}
        assert(le_val(s) >= 256 * le_val(s.skip(1)));
        assert(le_val(s) >= s[i] * pow256(i as nat));
    }
}

/// The value of `pow256(8)`, by unfolding.
pub proof fn lemma_pow256_8()
    ensures
        pow256(8) == 0x10000000000000000,
{
    assert(pow256(0) == 1);
    assert(pow256(1) == 256 * pow256(0));
    assert(pow256(2) == 256 * pow256(1));
    assert(pow256(3) == 256 * pow256(2));
    assert(pow256(4) == 256 * pow256(3));
    assert(pow256(5) == 256 * pow256(4));
    assert(pow256(6) == 256 * pow256(5));
    assert(pow256(7) == 256 * pow256(6));
    assert(pow256(8) == 256 * pow256(7));
}

/// Every 64-bit value is below the 255-bit modulus: `2^64 < p`.
pub proof fn lemma_modulus_bounds()
    ensures
        pow256(8) < modulus(),
        modulus() > 1,
{
    let s = modulus_le();
    assert(s[31] == 0x40u8);
    lemma_le_val_digit_lower(s, 31);
    lemma_pow256_monotonic(9, 31);
    lemma_pow256_pos(31);
    assert(0x40 * pow256(31) >= pow256(31)) by (nonlinear_arith)
        requires
            pow256(31) >= 1,
    {}
    assert(pow256(9) == 256 * pow256(8));
    lemma_pow256_8();
}

/// An element of the 255-bit Pallas base field, held as its canonical
/// 32-byte little-endian encoding.  Every value of this type is reduced
/// modulo the prime, so equality of encodings is equality of field elements.
#[derive(Clone, Copy, Debug)]
pub struct Fe {
    bytes: [u8; 32],
}

impl View for Fe {
    type V = Seq<u8>;

    closed spec fn view(&self) -> Seq<u8> {
        self.bytes@
    }
}

impl PartialEq for Fe {
    fn eq(&self, other: &Fe) -> (r: bool) {
        let mut i: usize = 0;
        while i < 32
            invariant
                i <= 32,
                forall|j: int| 0 <= j < i ==> self@[j] == other@[j],
            decreases 32 - i,
        {
            if self.bytes[i] != other.bytes[i] {
                return false;
            }
            i += 1;
        }
        proof {
            assert(self@ =~= other@);
        }
        true
    }
}

impl vstd::std_specs::cmp::PartialEqSpecImpl for Fe {
    open spec fn obeys_eq_spec() -> bool {
        true
    }

    open spec fn eq_spec(&self, other: &Fe) -> bool {
        self@ == other@
    }
}

impl Fe {
    #[verifier::type_invariant]
    spec fn canonical_encoding(self) -> bool {
        is_canonical(self.bytes@)
    }

    /// Wrap an encoding that is already known to be canonical.
    pub(crate) fn from_canonical(bytes: [u8; 32]) -> (r: Fe)
        requires
            is_canonical(bytes@),
        ensures
            r@ == bytes@,
    {
        Fe { bytes }
    }

    /// The field element zero.
    pub fn zero() -> (r: Fe)
        ensures
            r@ == zero_le(),
            le_val(r@) == 0,
    {
        let bytes: [u8; 32] = [0u8; 32];
        proof {
            assert(bytes@ =~= zero_le());
            lemma_le_val_zero(bytes@);
            lemma_modulus_bounds();
        }
        Fe { bytes }
    }

    /// The field element one.
    pub fn one() -> (r: Fe)
        ensures
            r@ == one_le(),
            le_val(r@) == 1,
    {
        Fe::from_u64(1)
    }

    /// Lift a 64-bit value into the field; 64-bit values are always below
    /// the 255-bit modulus, so the encoding is just the little-endian bytes.
    pub fn from_u64(x: u64) -> (r: Fe)
        ensures
            r@ == u64_le(x),
            le_val(r@) == x,
    {
        let mut bytes: [u8; 32] = [0u8; 32];
        let mut cur: u64 = x;
        let mut i: usize = 0;
        proof {
            assert(pow256(0) == 1);
            assert((x as nat) / 1 == x as nat) by (nonlinear_arith);
        }
        while i < 8
            invariant
                i <= 8,
                cur as nat == (x as nat) / pow256(i as nat),
                forall|j: int| 0 <= j < i ==> bytes@[j] == ((x as nat / pow256(j as nat)) % 256) as u8,
                forall|j: int| i <= j < 32 ==> bytes@[j] == 0u8,
            decreases 8 - i,
        {
            bytes[i] = (cur % 256) as u8;
            proof {
                lemma_pow256_pos(i as nat);
                vstd::arithmetic::div_mod::lemma_div_denominator(
                    x as int,
                    pow256(i as nat) as int,
                    256,
                );
                assert(pow256(i as nat) * 256 == pow256((i + 1) as nat)) by (nonlinear_arith)
                    requires
                        pow256((i + 1) as nat) == 256 * pow256(i as nat),
                {}
            }
            cur = cur / 256;
            i += 1;
        }
        proof {
            assert forall|j: int| 0 <= j < 8 implies bytes@[j] == nat_le_bytes(x as nat, 8)[j] by {
                lemma_nat_le_bytes_index(x as nat, 8, j);
            }
            lemma_nat_le_bytes_val(x as nat, 8);
            assert(bytes@ =~= u64_le(x));
            lemma_le_val_append_zeros(nat_le_bytes(x as nat, 8), Seq::new(24, |i: int| 0u8));
            lemma_modulus_bounds();
            lemma_pow256_8();
            assert((x as nat) % pow256(8) == x as nat) by (nonlinear_arith)
                requires
                    (x as nat) < pow256(8),
            {}
        }
        Fe { bytes }
    }

    /// The canonical 32-byte little-endian encoding of this element.
    pub fn to_bytes(&self) -> (r: [u8; 32])
        ensures
            r@ == self@,
            is_canonical(self@),
    {
        proof {
            use_type_invariant(*self);
        }
        self.bytes
    }
}

/// What the Poseidon permutation returns on a pair of field elements, in the
/// `P128Pow5T3` parameterization used in constant-length-2 sponge mode.  A
/// pure function of the two encodings alone.
pub uninterp spec fn poseidon2_of(a: Seq<u8>, b: Seq<u8>) -> Seq<u8>;

/// Poseidon hash of two field elements.
///
/// Relies on `halo2_poseidon::Hash::<Fp, P128Pow5T3, ConstantLength<2>, 3, 2>`
/// (re-exported through `halo2_gadgets::poseidon::primitives`): `hash` is a
/// deterministic, pure function of the two field elements, and
/// `PrimeField::to_repr` on the Pallas base field returns the canonical
/// 32-byte little-endian encoding, so the result is canonical.
/// `PrimeField::from_repr` accepts every canonical encoding, which the type
/// invariant of `Fe` guarantees.
#[verifier::external_body]
pub(crate) fn poseidon2(a: &Fe, b: &Fe) -> (r: Fe)
    ensures
        r@ == poseidon2_of(a@, b@),
        is_canonical(r@),
{
    let fa = Fp::from_repr(a.bytes).unwrap();
    let fb = Fp::from_repr(b.bytes).unwrap();
    let h = PoseidonHash::<Fp, P128Pow5T3, ConstantLength<2>, 3, 2>::init().hash([fa, fb]);
    Fe { bytes: h.to_repr() }
}

/// Poseidon commitment to a 64-bit secret: the hash of the lifted secret and
/// a domain-fixed zero.  Clients computing commitments locally and the proof
/// service must match this function bit for bit; any mismatch silently breaks
/// soundness.
pub open spec fn commit_of(secret: u64) -> Seq<u8> {
    poseidon2_of(u64_le(secret), zero_le())
}

/// Commit to a secret: `poseidon2(secret as field element, 0)`.
pub fn poseidon_commit(secret: u64) -> (r: Fe)
    ensures
        r@ == commit_of(secret),
{
    let s = Fe::from_u64(secret);
    let z = Fe::zero();
    poseidon2(&s, &z)
}

} // verus!
