//! Curve scalars and points for the threshold-signature key material.
//!
//! Scalars are plain bounded integers and are checked by this crate's own
//! verified byte arithmetic: an ECDSA (secp256k1) scalar travels as big-endian
//! bytes, an EdDSA (ed25519) scalar as little-endian bytes, each strictly
//! below its group order. Whether a byte string names a valid curve point only
//! the curve library can decide; those checks go through trusted wrappers
//! around `generic_ec`.

use vstd::prelude::*;
use crate::modular::{bytes_lt, le_val, lemma_le_val_lower, lemma_le_val_zero, pow256};

verus! {

/// The value of a big-endian byte string: its little-endian reversal.
pub open spec fn rev_bytes(s: Seq<u8>) -> Seq<u8> {
    Seq::new(s.len(), |i: int| s[s.len() - 1 - i])
}

/// The natural number that a big-endian byte string denotes.
pub open spec fn be_val(s: Seq<u8>) -> nat {
    le_val(rev_bytes(s))
}

/// Reversing is an involution.
pub proof fn lemma_rev_rev(s: Seq<u8>)
    ensures
        rev_bytes(rev_bytes(s)) == s,
{
    assert(rev_bytes(rev_bytes(s)) =~= s);
}

/// Leading zeroes do not change a big-endian value.
pub proof fn lemma_be_val_pad(z: Seq<u8>, s: Seq<u8>)
    requires
        forall|j: int| 0 <= j < z.len() ==> z[j] == 0,
    ensures
        be_val(z + s) == be_val(s),
{
    let whole = rev_bytes(z + s);
    assert(whole =~= rev_bytes(s) + rev_bytes(z));
    crate::modular::lemma_le_val_concat(rev_bytes(s), rev_bytes(z));
    lemma_le_val_zero(rev_bytes(z));
    assert(0 * pow256(rev_bytes(s).len()) == 0) by (nonlinear_arith);
}

/// Reverse a byte string.
pub fn reverse_bytes(s: &Vec<u8>) -> (r: Vec<u8>)
    ensures
        r@ == rev_bytes(s@),
        le_val(r@) == be_val(s@),
{
    let n = s.len();
    let mut r: Vec<u8> = Vec::new();
    let mut i: usize = 0;
    while i < n
        invariant
            i <= n,
            n == s@.len(),
            r@.len() == i,
            forall|j: int| 0 <= j < i ==> r@[j] == s@[n - 1 - j],
        decreases n - i,
    {
        r.push(s[n - 1 - i]);
        i = i + 1;
    }
    proof {
        assert(r@ =~= rev_bytes(s@));
    }
    r
}

/// The secp256k1 group order, as little-endian bytes.
pub open spec fn spec_secp256k1_order_le() -> Seq<u8> {
    seq![
        0x41u8, 0x41, 0x36, 0xd0, 0x8c, 0x5e, 0xd2, 0xbf, 0x3b, 0xa0, 0x48, 0xaf, 0xe6, 0xdc,
        0xae, 0xba, 0xfe, 0xff, 0xff, 0xff, 0xff, 0xff, 0xff, 0xff, 0xff, 0xff, 0xff, 0xff,
        0xff, 0xff, 0xff, 0xff,
    ]
}

/// The secp256k1 group order as a natural number.
pub open spec fn secp256k1_order() -> nat {
    le_val(spec_secp256k1_order_le())
}

/// The ed25519 group order, as little-endian bytes.
pub open spec fn spec_ed25519_order_le() -> Seq<u8> {
    seq![
        0xedu8, 0xd3, 0xf5, 0x5c, 0x1a, 0x63, 0x12, 0x58, 0xd6, 0x9c, 0xf7, 0xa2, 0xde, 0xf9,
        0xde, 0x14, 0x00, 0x00, 0x00, 0x00, 0x00, 0x00, 0x00, 0x00, 0x00, 0x00, 0x00, 0x00,
        0x00, 0x00, 0x00, 0x10,
    ]
}

/// The ed25519 group order as a natural number.
pub open spec fn ed25519_order() -> nat {
    le_val(spec_ed25519_order_le())
}

/// The secp256k1 group order, as little-endian bytes.
pub fn secp256k1_order_le() -> (r: Vec<u8>)
    ensures
        r@ == spec_secp256k1_order_le(),
        r@.len() == 32,
{
    let v: Vec<u8> = vec![
        0x41u8, 0x41, 0x36, 0xd0, 0x8c, 0x5e, 0xd2, 0xbf, 0x3b, 0xa0, 0x48, 0xaf, 0xe6, 0xdc,
        0xae, 0xba, 0xfe, 0xff, 0xff, 0xff, 0xff, 0xff, 0xff, 0xff, 0xff, 0xff, 0xff, 0xff,
        0xff, 0xff, 0xff, 0xff,
    ];
    proof {
        assert(v@ =~= spec_secp256k1_order_le());
    }
    v
}

/// The ed25519 group order, as little-endian bytes.
pub fn ed25519_order_le() -> (r: Vec<u8>)
    ensures
        r@ == spec_ed25519_order_le(),
        r@.len() == 32,
{
    let v: Vec<u8> = vec![
        0xedu8, 0xd3, 0xf5, 0x5c, 0x1a, 0x63, 0x12, 0x58, 0xd6, 0x9c, 0xf7, 0xa2, 0xde, 0xf9,
        0xde, 0x14, 0x00, 0x00, 0x00, 0x00, 0x00, 0x00, 0x00, 0x00, 0x00, 0x00, 0x00, 0x00,
        0x00, 0x00, 0x00, 0x10,
    ];
    proof {
        assert(v@ =~= spec_ed25519_order_le());
    }
    v
}

/// Test whether every byte is zero.
pub fn bytes_all_zero(s: &Vec<u8>) -> (r: bool)
    ensures
        r == (forall|j: int| 0 <= j < s@.len() ==> s@[j] == 0),
        r == (le_val(s@) == 0),
{
    let mut i: usize = 0;
    let mut all: bool = true;
    while i < s.len()
        invariant
            i <= s@.len(),
            all == (forall|j: int| 0 <= j < i ==> s@[j] == 0),
        decreases s@.len() - i,
    {
        if s[i] != 0 {
            all = false;
        }
        i = i + 1;
    }
    proof {
        if all {
            lemma_le_val_zero(s@);
        } else {
            let j = choose|j: int| 0 <= j < s@.len() && s@[j] != 0;
            lemma_le_val_lower(s@, j);
            assert(s@[j] * pow256(j as nat) >= 1 * pow256(j as nat)) by (nonlinear_arith)
                requires
                    s@[j] >= 1,
                    pow256(j as nat) >= 0,
            ;
            crate::modular::lemma_pow256_mono(0, j as nat);
        }
    }
    all
}

/// Both group orders are large: far above any small constant a caller needs.
pub proof fn lemma_orders_large()
    ensures
        secp256k1_order() > 3,
        ed25519_order() > 3,
{
    let s = spec_secp256k1_order_le();
    assert(s[31] == 0xff);
    lemma_le_val_lower(s, 31);
    assert(s[31] * pow256(31) >= 1 * pow256(31)) by (nonlinear_arith)
        requires
            s[31] >= 1,
            pow256(31) >= 0,
    ;
    crate::modular::lemma_pow256_mono(1, 31);
    assert(pow256(1) == 256) by {
        reveal_with_fuel(pow256, 2);
    }
    let e = spec_ed25519_order_le();
    assert(e[31] == 0x10);
    lemma_le_val_lower(e, 31);
    assert(e[31] * pow256(31) >= 1 * pow256(31)) by (nonlinear_arith)
        requires
            e[31] >= 1,
            pow256(31) >= 0,
    ;
}

/// A canonical secp256k1 scalar: 32 big-endian bytes strictly below the order.
pub open spec fn is_secp256k1_scalar(s: Seq<u8>) -> bool {
    s.len() == 32 && be_val(s) < secp256k1_order()
}

/// A canonical ed25519 scalar: 32 little-endian bytes strictly below the order.
pub open spec fn is_ed25519_scalar(s: Seq<u8>) -> bool {
    s.len() == 32 && le_val(s) < ed25519_order()
}

/// Read a secp256k1 scalar from big-endian bytes of any length up to 32,
/// producing the canonical left-padded form; rejects longer input and values
/// reaching the group order.
pub fn secp256k1_scalar_from_be(bytes: &Vec<u8>) -> (r: Option<Vec<u8>>)
    ensures
        match r {
            Some(c) => {
                &&& bytes@.len() <= 32
                &&& is_secp256k1_scalar(c@)
                &&& be_val(c@) == be_val(bytes@)
                &&& bytes@.len() == 32 ==> c@ == bytes@
            },
            None => bytes@.len() > 32 || be_val(bytes@) >= secp256k1_order(),
        },
{
    if bytes.len() > 32 {
        return None;
    }
    let mut c: Vec<u8> = Vec::new();
    let pad = 32 - bytes.len();
    let mut i: usize = 0;
    while i < pad
        invariant
            i <= pad,
            c@.len() == i,
            forall|j: int| 0 <= j < i ==> c@[j] == 0,
        decreases pad - i,
    {
        c.push(0u8);
        i = i + 1;
    }
    let mut k: usize = 0;
    while k < bytes.len()
        invariant
            k <= bytes@.len(),
            pad == 32 - bytes@.len(),
            c@.len() == pad + k,
            forall|j: int| 0 <= j < pad ==> c@[j] == 0,
            forall|j: int| 0 <= j < k ==> c@[pad + j] == bytes@[j],
        decreases bytes@.len() - k,
    {
        c.push(bytes[k]);
        k = k + 1;
    }
    proof {
        assert(c@ =~= c@.take(pad as int) + bytes@);
        lemma_be_val_pad(c@.take(pad as int), bytes@);
        if bytes@.len() == 32 {
            assert(c@ =~= bytes@);
        }
    }
    let rev = reverse_bytes(&c);
    let q = secp256k1_order_le();
    if bytes_lt(&rev, &q) {
        Some(c)
    } else {
        None
    }
}

/// Read an ed25519 scalar from little-endian bytes of any length up to 32,
/// producing the canonical right-padded form; rejects longer input and values
/// reaching the group order.
pub fn ed25519_scalar_from_le(bytes: &Vec<u8>) -> (r: Option<Vec<u8>>)
    ensures
        match r {
            Some(c) => {
                &&& bytes@.len() <= 32
                &&& is_ed25519_scalar(c@)
                &&& le_val(c@) == le_val(bytes@)
                &&& bytes@.len() == 32 ==> c@ == bytes@
            },
            None => bytes@.len() > 32 || le_val(bytes@) >= ed25519_order(),
        },
{
    if bytes.len() > 32 {
        return None;
    }
    let mut c: Vec<u8> = Vec::new();
    let mut k: usize = 0;
    while k < bytes.len()
        invariant
            k <= bytes@.len(),
            c@.len() == k,
            forall|j: int| 0 <= j < k ==> c@[j] == bytes@[j],
        decreases bytes@.len() - k,
    {
        c.push(bytes[k]);
        k = k + 1;
    }
    while c.len() < 32
        invariant
            bytes@.len() <= c@.len() <= 32,
            forall|j: int| 0 <= j < bytes@.len() ==> c@[j] == bytes@[j],
            forall|j: int| bytes@.len() <= j < c@.len() ==> c@[j] == 0,
        decreases 32 - c@.len(),
    {
        c.push(0u8);
    }
    proof {
        assert(c@ =~= bytes@ + c@.skip(bytes@.len() as int));
        crate::modular::lemma_le_val_concat(bytes@, c@.skip(bytes@.len() as int));
        lemma_le_val_zero(c@.skip(bytes@.len() as int));
        assert(0 * pow256(bytes@.len()) == 0) by (nonlinear_arith);
        if bytes@.len() == 32 {
            assert(c@ =~= bytes@);
        }
    }
    let q = ed25519_order_le();
    if bytes_lt(&c, &q) {
        Some(c)
    } else {
        None
    }
}

/// Whether a byte string encodes a valid, non-identity secp256k1 point.
pub uninterp spec fn secp256k1_nonzero_point(b: Seq<u8>) -> bool;

/// Whether a byte string encodes a valid, non-identity ed25519 point.
pub uninterp spec fn ed25519_nonzero_point(b: Seq<u8>) -> bool;

/// Whether a byte string encodes a valid ed25519 point (the identity allowed).
pub uninterp spec fn ed25519_point(b: Seq<u8>) -> bool;

/// The compressed encoding of the secp256k1 generator times the scalar with
/// the given canonical big-endian bytes.
pub uninterp spec fn secp256k1_mul_generator(x: Seq<u8>) -> Seq<u8>;

/// The encoding of the ed25519 generator times the scalar with the given
/// canonical little-endian bytes.
pub uninterp spec fn ed25519_mul_generator(x: Seq<u8>) -> Seq<u8>;

/// Relies on generic_ec's `Point::<Secp256k1>::from_bytes`, which accepts only
/// encodings of valid curve points, and `NonZero::from_point`, which rejects
/// the identity.
#[verifier::external_body]
pub(crate) fn secp256k1_point_check(b: &Vec<u8>) -> (r: bool)
    ensures
        r == secp256k1_nonzero_point(b@),
{
    match generic_ec::Point::<generic_ec::curves::Secp256k1>::from_bytes(b.as_slice()) {
        Ok(p) => generic_ec::NonZero::from_point(p).is_some(),
        Err(_) => false,
    }
}

/// Relies on generic_ec's `Point::<Ed25519>::from_bytes`, which accepts only
/// encodings of valid curve points, and `NonZero::from_point`, which rejects
/// the identity.
#[verifier::external_body]
pub(crate) fn ed25519_point_check(b: &Vec<u8>) -> (r: bool)
    ensures
        r == ed25519_nonzero_point(b@),
{
    match generic_ec::Point::<generic_ec::curves::Ed25519>::from_bytes(b.as_slice()) {
        Ok(p) => generic_ec::NonZero::from_point(p).is_some(),
        Err(_) => false,
    }
}

/// Relies on generic_ec's `Point::<Ed25519>::from_bytes`, which accepts only
/// encodings of valid curve points.
#[verifier::external_body]
pub(crate) fn ed25519_point_valid(b: &Vec<u8>) -> (r: bool)
    ensures
        r == ed25519_point(b@),
{
    generic_ec::Point::<generic_ec::curves::Ed25519>::from_bytes(b.as_slice()).is_ok()
}

/// Relies on generic_ec: `Scalar::<Secp256k1>::from_be_bytes` reads a scalar
/// below the group order, `NonZero::from_scalar` rejects zero, the typed
/// product `Generator * NonZero<Scalar>` is a `NonZero<Point>`, and
/// `Point::to_bytes(true)` yields the 33-byte compressed encoding that
/// `Point::from_bytes` accepts again.
#[verifier::external_body]
pub(crate) fn secp256k1_generator_mul(x: &Vec<u8>) -> (r: Vec<u8>)
    requires
        is_secp256k1_scalar(x@),
        be_val(x@) != 0,
    ensures
        r@ == secp256k1_mul_generator(x@),
        r@.len() == 33,
        secp256k1_nonzero_point(r@),
{
    let scalar = generic_ec::Scalar::<generic_ec::curves::Secp256k1>::from_be_bytes(
        x.as_slice(),
    ).expect("scalar is below the group order");
    let scalar = generic_ec::NonZero::from_scalar(scalar).expect("scalar is not zero");
    let point = generic_ec::Point::generator() * scalar;
    point.to_bytes(true).as_bytes().to_vec()
}

/// Relies on generic_ec: `Scalar::<Ed25519>::from_le_bytes` reads a scalar
/// below the group order, `NonZero::from_scalar` rejects zero, the typed
/// product `Generator * NonZero<Scalar>` is a `NonZero<Point>`, and
/// `Point::to_bytes(true)` yields the 32-byte encoding that
/// `Point::from_bytes` accepts again.
#[verifier::external_body]
pub(crate) fn ed25519_generator_mul(x: &Vec<u8>) -> (r: Vec<u8>)
    requires
        is_ed25519_scalar(x@),
        le_val(x@) != 0,
    ensures
        r@ == ed25519_mul_generator(x@),
        r@.len() == 32,
        ed25519_nonzero_point(r@),
{
    let scalar = generic_ec::Scalar::<generic_ec::curves::Ed25519>::from_le_bytes(
        x.as_slice(),
    ).expect("scalar is below the group order");
    let scalar = generic_ec::NonZero::from_scalar(scalar).expect("scalar is not zero");
    let point = generic_ec::Point::generator() * scalar;
    point.to_bytes(true).as_bytes().to_vec()
}

} // verus!
