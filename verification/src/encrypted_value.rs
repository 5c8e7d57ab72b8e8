//! The encrypted (wire) side of the algebra: validated values, their byte
//! form, and the lossless conversions between the two.

use vstd::prelude::*;
use crate::curves::{
    be_val, bytes_all_zero, ed25519_nonzero_point, ed25519_order, ed25519_order_le,
    ed25519_point, ed25519_point_check, ed25519_point_valid, ed25519_scalar_from_le,
    is_ed25519_scalar, is_secp256k1_scalar, reverse_bytes, secp256k1_nonzero_point,
    secp256k1_order, secp256k1_order_le, secp256k1_point_check, secp256k1_scalar_from_be,
};
use crate::modular::{bytes_lt, is_field_bytes, le_val, EncodedModulo};
use crate::values::{copy_bytes, NadaType};
use crate::ValueError;

verus! {

/// A number below a fixed modulus, as little-endian bytes of that modulus'
/// width.
#[derive(Debug, PartialEq)]
pub struct EncodedModularNumber {
    pub value: Vec<u8>,
    pub modulo: EncodedModulo,
}

/// The model of an encoded modular number.
pub struct ModNumV {
    pub value: Seq<u8>,
    pub modulo: EncodedModulo,
}

impl View for EncodedModularNumber {
    type V = ModNumV;

    open spec fn view(&self) -> ModNumV {
        ModNumV { value: self.value@, modulo: self.modulo }
    }
}

impl ModNumV {
    /// The bytes have the modulus' width and stay below the modulus.
    pub open spec fn wf(self) -> bool {
        is_field_bytes(self.value, self.modulo)
    }

    /// The number the bytes stand for.
    pub open spec fn val(self) -> nat {
        le_val(self.value)
    }
}

impl EncodedModularNumber {
    /// Check bytes against a modulus and take them as a modular number.
    pub fn new_checked(value: Vec<u8>, modulo: EncodedModulo) -> (r: Result<
        EncodedModularNumber,
        ValueError,
    >)
        ensures
            match r {
                Ok(n) => n@ == (ModNumV { value: value@, modulo }) && n@.wf(),
                Err(e) => e == ValueError::FormatError && !(ModNumV { value: value@, modulo }).wf(),
            },
    {
        let w = modulo.width();
        if value.len() != w {
            return Err(ValueError::FormatError);
        }
        let p = modulo.prime_bytes();
        if !bytes_lt(&value, &p) {
            return Err(ValueError::FormatError);
        }
        Ok(EncodedModularNumber { value, modulo })
    }

    /// The little-endian bytes.
    pub fn as_bytes(&self) -> (r: &Vec<u8>)
        ensures
            r@ == self@.value,
    {
        &self.value
    }

    /// A copy with the same model.
    pub fn duplicate(&self) -> (r: EncodedModularNumber)
        ensures
            r@ == self@,
    {
        EncodedModularNumber { value: copy_bytes(&self.value), modulo: self.modulo }
    }
}

/// One party's share of a threshold signing key, already validated: the
/// secret scalar is non-zero and below the group order, and every public
/// point is a valid, non-identity curve point.
#[derive(Debug, PartialEq)]
pub struct PrivateKeyShare {
    /// This share's party index.
    pub i: u16,
    /// The secret scalar, canonical bytes (big-endian for ECDSA, little-endian
    /// for EdDSA).
    pub x: Vec<u8>,
    /// The joint public key's encoding.
    pub shared_public_key: Vec<u8>,
    /// Every party's public share, in party order.
    pub public_shares: Vec<Vec<u8>>,
}

/// The model of a key share.
pub struct KeyShareV {
    pub i: u16,
    pub x: Seq<u8>,
    pub shared_public_key: Seq<u8>,
    pub public_shares: Seq<Seq<u8>>,
}

impl View for PrivateKeyShare {
    type V = KeyShareV;

    open spec fn view(&self) -> KeyShareV {
        KeyShareV {
            i: self.i,
            x: self.x@,
            shared_public_key: self.shared_public_key@,
            public_shares: Seq::new(self.public_shares@.len(), |k: int| self.public_shares@[k]@),
        }
    }
}

impl KeyShareV {
    /// Validity over the secp256k1 curve.
    pub open spec fn wf_ecdsa(self) -> bool {
        &&& is_secp256k1_scalar(self.x)
        &&& be_val(self.x) != 0
        &&& self.shared_public_key.len() == 33
        &&& secp256k1_nonzero_point(self.shared_public_key)
        &&& forall|k: int|
            0 <= k < self.public_shares.len() ==> (#[trigger] self.public_shares[k]).len() == 33
                && secp256k1_nonzero_point(self.public_shares[k])
    }

    /// Validity over the ed25519 curve.
    pub open spec fn wf_eddsa(self) -> bool {
        &&& is_ed25519_scalar(self.x)
        &&& le_val(self.x) != 0
        &&& self.shared_public_key.len() == 32
        &&& ed25519_nonzero_point(self.shared_public_key)
        &&& forall|k: int|
            0 <= k < self.public_shares.len() ==> (#[trigger] self.public_shares[k]).len() == 32
                && ed25519_nonzero_point(self.public_shares[k])
    }
}

impl PrivateKeyShare {
    /// Validate dirty ECDSA key-share data. This is the only way to build a
    /// share: it fails unless the secret scalar is non-zero and below the
    /// group order and every public point is a valid, non-zero curve point.
    pub fn validate_ecdsa(
        i: u16,
        x: Vec<u8>,
        shared_public_key: Vec<u8>,
        public_shares: Vec<Vec<u8>>,
    ) -> (r: Result<PrivateKeyShare, ValueError>)
        ensures
            match r {
                Ok(s) => {
                    &&& s@.wf_ecdsa()
                    &&& s@.i == i
                    &&& be_val(s@.x) == be_val(x@)
                    &&& x@.len() == 32 ==> s@.x == x@
                    &&& x@.len() <= 32
                    &&& s@.shared_public_key == shared_public_key@
                    &&& s@.public_shares.len() == public_shares@.len()
                    &&& forall|k: int|
                        0 <= k < public_shares@.len() ==> s@.public_shares[k] == (
                        #[trigger] public_shares@[k])@
                },
                Err(e) => {
                    &&& e == ValueError::KeyShareInvalid
                    &&& {
                        ||| x@.len() > 32
                        ||| be_val(x@) == 0
                        ||| be_val(x@) >= secp256k1_order()
                        ||| shared_public_key@.len() != 33
                        ||| !secp256k1_nonzero_point(shared_public_key@)
                        ||| exists|k: int|
                            0 <= k < public_shares@.len() && ((#[trigger] public_shares@[k])@.len()
                                != 33 || !secp256k1_nonzero_point(public_shares@[k]@))
                    }
                },
            },
    {
        let cx = match secp256k1_scalar_from_be(&x) {
            Some(c) => c,
            None => {
                return Err(ValueError::KeyShareInvalid);
            }
        };
        let rx = reverse_bytes(&cx);
        if bytes_all_zero(&rx) {
            return Err(ValueError::KeyShareInvalid);
        }
        if shared_public_key.len() != 33 || !secp256k1_point_check(&shared_public_key) {
            return Err(ValueError::KeyShareInvalid);
        }
        let mut k: usize = 0;
        while k < public_shares.len()
            invariant
                k <= public_shares@.len(),
                forall|q: int|
                    0 <= q < k ==> (#[trigger] public_shares@[q])@.len() == 33
                        && secp256k1_nonzero_point(public_shares@[q]@),
            decreases public_shares@.len() - k,
        {
            if public_shares[k].len() != 33 || !secp256k1_point_check(&public_shares[k]) {
                return Err(ValueError::KeyShareInvalid);
            }
            k = k + 1;
        }
        let share = PrivateKeyShare { i, x: cx, shared_public_key, public_shares };
        proof {
            assert forall|q: int| 0 <= q < share@.public_shares.len() implies (
            #[trigger] share@.public_shares[q]).len() == 33 && secp256k1_nonzero_point(
                share@.public_shares[q],
            ) by {
                assert(share@.public_shares[q] == share.public_shares@[q]@);
            }
        }
        Ok(share)
    }

    /// Validate dirty EdDSA key-share data, under the same rules over the
    /// ed25519 curve.
    pub fn validate_eddsa(
        i: u16,
        x: Vec<u8>,
        shared_public_key: Vec<u8>,
        public_shares: Vec<Vec<u8>>,
    ) -> (r: Result<PrivateKeyShare, ValueError>)
        ensures
            match r {
                Ok(s) => {
                    &&& s@.wf_eddsa()
                    &&& s@.i == i
                    &&& le_val(s@.x) == le_val(x@)
                    &&& x@.len() == 32 ==> s@.x == x@
                    &&& x@.len() <= 32
                    &&& s@.shared_public_key == shared_public_key@
                    &&& s@.public_shares.len() == public_shares@.len()
                    &&& forall|k: int|
                        0 <= k < public_shares@.len() ==> s@.public_shares[k] == (
                        #[trigger] public_shares@[k])@
                },
                Err(e) => {
                    &&& e == ValueError::KeyShareInvalid
                    &&& {
                        ||| x@.len() > 32
                        ||| le_val(x@) == 0
                        ||| le_val(x@) >= ed25519_order()
                        ||| shared_public_key@.len() != 32
                        ||| !ed25519_nonzero_point(shared_public_key@)
                        ||| exists|k: int|
                            0 <= k < public_shares@.len() && ((#[trigger] public_shares@[k])@.len()
                                != 32 || !ed25519_nonzero_point(public_shares@[k]@))
                    }
                },
            },
    {
        let cx = match ed25519_scalar_from_le(&x) {
            Some(c) => c,
            None => {
                return Err(ValueError::KeyShareInvalid);
            }
        };
        if bytes_all_zero(&cx) {
            return Err(ValueError::KeyShareInvalid);
        }
        if shared_public_key.len() != 32 || !ed25519_point_check(&shared_public_key) {
            return Err(ValueError::KeyShareInvalid);
        }
        let mut k: usize = 0;
        while k < public_shares.len()
            invariant
                k <= public_shares@.len(),
                forall|q: int|
                    0 <= q < k ==> (#[trigger] public_shares@[q])@.len() == 32
                        && ed25519_nonzero_point(public_shares@[q]@),
            decreases public_shares@.len() - k,
        {
            if public_shares[k].len() != 32 || !ed25519_point_check(&public_shares[k]) {
                return Err(ValueError::KeyShareInvalid);
            }
            k = k + 1;
        }
        let share = PrivateKeyShare { i, x: cx, shared_public_key, public_shares };
        proof {
            assert forall|q: int| 0 <= q < share@.public_shares.len() implies (
            #[trigger] share@.public_shares[q]).len() == 32 && ed25519_nonzero_point(
                share@.public_shares[q],
            ) by {
                assert(share@.public_shares[q] == share.public_shares@[q]@);
            }
        }
        Ok(share)
    }
}

/// The logical type of an encrypted value, in its byte-facing form.
#[derive(Debug, PartialEq)]
pub enum EncryptedNadaType {
    Integer,
    UnsignedInteger,
    Boolean,
    ShamirShareInteger,
    ShamirShareUnsignedInteger,
    ShamirShareBoolean,
    ShamirShareSecretBlob,
    Array { inner_type: Box<EncryptedNadaType>, size: u64 },
    Tuple { left: Box<EncryptedNadaType>, right: Box<EncryptedNadaType> },
    EcdsaMessageDigest,
    EcdsaSignature,
    EcdsaPrivateKey,
    EcdsaPublicKey,
    StoreId,
    EddsaPrivateKey,
    EddsaPublicKey,
    EddsaSignature,
    EddsaMessage,
}

/// The byte-facing type that stands for a logical type; the purely clear
/// secret scalar types have no encrypted form of their own.
pub open spec fn spec_wire_type(t: NadaType) -> Result<EncryptedNadaType, ValueError>
    decreases t,
{
    match t {
        NadaType::Integer => Ok(EncryptedNadaType::Integer),
        NadaType::UnsignedInteger => Ok(EncryptedNadaType::UnsignedInteger),
        NadaType::Boolean => Ok(EncryptedNadaType::Boolean),
        NadaType::SecretInteger => Err(ValueError::UnsupportedVariant),
        NadaType::SecretUnsignedInteger => Err(ValueError::UnsupportedVariant),
        NadaType::SecretBoolean => Err(ValueError::UnsupportedVariant),
        NadaType::ShamirShareInteger => Ok(EncryptedNadaType::ShamirShareInteger),
        NadaType::ShamirShareUnsignedInteger => Ok(EncryptedNadaType::ShamirShareUnsignedInteger),
        NadaType::ShamirShareBoolean => Ok(EncryptedNadaType::ShamirShareBoolean),
        NadaType::SecretBlob => Ok(EncryptedNadaType::ShamirShareSecretBlob),
        NadaType::Array { inner_type, size } => match spec_wire_type(*inner_type) {
            Ok(inner) => Ok(
                EncryptedNadaType::Array { inner_type: Box::new(inner), size: size as u64 },
            ),
            Err(e) => Err(e),
        },
        NadaType::Tuple { left_type, right_type } => match (
            spec_wire_type(*left_type),
            spec_wire_type(*right_type),
        ) {
            (Ok(l), Ok(r)) => Ok(EncryptedNadaType::Tuple { left: Box::new(l), right: Box::new(r) }),
            (Err(e), _) => Err(e),
            (_, Err(e)) => Err(e),
        },
        NadaType::EcdsaPrivateKey => Ok(EncryptedNadaType::EcdsaPrivateKey),
        NadaType::EcdsaDigestMessage => Ok(EncryptedNadaType::EcdsaMessageDigest),
        NadaType::EcdsaSignature => Ok(EncryptedNadaType::EcdsaSignature),
        NadaType::EcdsaPublicKey => Ok(EncryptedNadaType::EcdsaPublicKey),
        NadaType::StoreId => Ok(EncryptedNadaType::StoreId),
        NadaType::EddsaPrivateKey => Ok(EncryptedNadaType::EddsaPrivateKey),
        NadaType::EddsaPublicKey => Ok(EncryptedNadaType::EddsaPublicKey),
        NadaType::EddsaSignature => Ok(EncryptedNadaType::EddsaSignature),
        NadaType::EddsaMessage => Ok(EncryptedNadaType::EddsaMessage),
    }
}

/// The logical type that a byte-facing type stands for.
pub open spec fn spec_logical_type(t: EncryptedNadaType) -> Result<NadaType, ValueError>
    decreases t,
{
    match t {
        EncryptedNadaType::Integer => Ok(NadaType::Integer),
        EncryptedNadaType::UnsignedInteger => Ok(NadaType::UnsignedInteger),
        EncryptedNadaType::Boolean => Ok(NadaType::Boolean),
        EncryptedNadaType::ShamirShareInteger => Ok(NadaType::ShamirShareInteger),
        EncryptedNadaType::ShamirShareUnsignedInteger => Ok(
            NadaType::ShamirShareUnsignedInteger,
        ),
        EncryptedNadaType::ShamirShareBoolean => Ok(NadaType::ShamirShareBoolean),
        EncryptedNadaType::ShamirShareSecretBlob => Ok(NadaType::SecretBlob),
        EncryptedNadaType::Array { inner_type, size } => if size > usize::MAX {
            Err(ValueError::FormatError)
        } else {
            match spec_logical_type(*inner_type) {
                Ok(inner) => Ok(
                    NadaType::Array { inner_type: Box::new(inner), size: size as usize },
                ),
                Err(e) => Err(e),
            }
        },
        EncryptedNadaType::Tuple { left, right } => match (
            spec_logical_type(*left),
            spec_logical_type(*right),
        ) {
            (Ok(l), Ok(r)) => Ok(
                NadaType::Tuple { left_type: Box::new(l), right_type: Box::new(r) },
            ),
            (Err(e), _) => Err(e),
            (_, Err(e)) => Err(e),
        },
        EncryptedNadaType::EcdsaMessageDigest => Ok(NadaType::EcdsaDigestMessage),
        EncryptedNadaType::EcdsaSignature => Ok(NadaType::EcdsaSignature),
        EncryptedNadaType::EcdsaPrivateKey => Ok(NadaType::EcdsaPrivateKey),
        EncryptedNadaType::EcdsaPublicKey => Ok(NadaType::EcdsaPublicKey),
        EncryptedNadaType::StoreId => Ok(NadaType::StoreId),
        EncryptedNadaType::EddsaPrivateKey => Ok(NadaType::EddsaPrivateKey),
        EncryptedNadaType::EddsaPublicKey => Ok(NadaType::EddsaPublicKey),
        EncryptedNadaType::EddsaSignature => Ok(NadaType::EddsaSignature),
        EncryptedNadaType::EddsaMessage => Ok(NadaType::EddsaMessage),
    }
}

impl EncryptedNadaType {
    /// The byte-facing type for a logical type.
    pub fn new(t: &NadaType) -> (r: Result<EncryptedNadaType, ValueError>)
        ensures
            match r {
                Ok(w) => spec_wire_type(*t) == Ok::<EncryptedNadaType, ValueError>(w),
                Err(e) => spec_wire_type(*t) == Err::<EncryptedNadaType, ValueError>(e),
            },
        decreases *t,
    {
        match t {
            NadaType::Integer => Ok(EncryptedNadaType::Integer),
            NadaType::UnsignedInteger => Ok(EncryptedNadaType::UnsignedInteger),
            NadaType::Boolean => Ok(EncryptedNadaType::Boolean),
            NadaType::SecretInteger => Err(ValueError::UnsupportedVariant),
            NadaType::SecretUnsignedInteger => Err(ValueError::UnsupportedVariant),
            NadaType::SecretBoolean => Err(ValueError::UnsupportedVariant),
            NadaType::ShamirShareInteger => Ok(EncryptedNadaType::ShamirShareInteger),
            NadaType::ShamirShareUnsignedInteger => Ok(
                EncryptedNadaType::ShamirShareUnsignedInteger,
            ),
            NadaType::ShamirShareBoolean => Ok(EncryptedNadaType::ShamirShareBoolean),
            NadaType::SecretBlob => Ok(EncryptedNadaType::ShamirShareSecretBlob),
            NadaType::Array { inner_type, size } => match Self::new(inner_type) {
                Ok(inner) => Ok(
                    EncryptedNadaType::Array { inner_type: Box::new(inner), size: *size as u64 },
                ),
                Err(e) => Err(e),
            },
            NadaType::Tuple { left_type, right_type } => match Self::new(left_type) {
                Ok(l) => match Self::new(right_type) {
                    Ok(r) => Ok(
                        EncryptedNadaType::Tuple { left: Box::new(l), right: Box::new(r) },
                    ),
                    Err(e) => Err(e),
                },
                Err(e) => Err(e),
            },
            NadaType::EcdsaPrivateKey => Ok(EncryptedNadaType::EcdsaPrivateKey),
            NadaType::EcdsaDigestMessage => Ok(EncryptedNadaType::EcdsaMessageDigest),
            NadaType::EcdsaSignature => Ok(EncryptedNadaType::EcdsaSignature),
            NadaType::EcdsaPublicKey => Ok(EncryptedNadaType::EcdsaPublicKey),
            NadaType::StoreId => Ok(EncryptedNadaType::StoreId),
            NadaType::EddsaPrivateKey => Ok(EncryptedNadaType::EddsaPrivateKey),
            NadaType::EddsaPublicKey => Ok(EncryptedNadaType::EddsaPublicKey),
            NadaType::EddsaSignature => Ok(EncryptedNadaType::EddsaSignature),
            NadaType::EddsaMessage => Ok(EncryptedNadaType::EddsaMessage),
        }
    }

    /// The logical type this byte-facing type stands for.
    pub fn into_nada_type(&self) -> (r: Result<NadaType, ValueError>)
        ensures
            match r {
                Ok(t) => spec_logical_type(*self) == Ok::<NadaType, ValueError>(t),
                Err(e) => spec_logical_type(*self) == Err::<NadaType, ValueError>(e),
            },
        decreases *self,
    {
        match self {
            EncryptedNadaType::Integer => Ok(NadaType::Integer),
            EncryptedNadaType::UnsignedInteger => Ok(NadaType::UnsignedInteger),
            EncryptedNadaType::Boolean => Ok(NadaType::Boolean),
            EncryptedNadaType::ShamirShareInteger => Ok(NadaType::ShamirShareInteger),
            EncryptedNadaType::ShamirShareUnsignedInteger => Ok(
                NadaType::ShamirShareUnsignedInteger,
            ),
            EncryptedNadaType::ShamirShareBoolean => Ok(NadaType::ShamirShareBoolean),
            EncryptedNadaType::ShamirShareSecretBlob => Ok(NadaType::SecretBlob),
            EncryptedNadaType::Array { inner_type, size } => {
                if *size > usize::MAX as u64 {
                    return Err(ValueError::FormatError);
                }
                match inner_type.into_nada_type() {
                    Ok(inner) => Ok(
                        NadaType::Array { inner_type: Box::new(inner), size: *size as usize },
                    ),
                    Err(e) => Err(e),
                }
            }
            EncryptedNadaType::Tuple { left, right } => match left.into_nada_type() {
                Ok(l) => match right.into_nada_type() {
                    Ok(r) => Ok(
                        NadaType::Tuple { left_type: Box::new(l), right_type: Box::new(r) },
                    ),
                    Err(e) => Err(e),
                },
                Err(e) => Err(e),
            },
            EncryptedNadaType::EcdsaMessageDigest => Ok(NadaType::EcdsaDigestMessage),
            EncryptedNadaType::EcdsaSignature => Ok(NadaType::EcdsaSignature),
            EncryptedNadaType::EcdsaPrivateKey => Ok(NadaType::EcdsaPrivateKey),
            EncryptedNadaType::EcdsaPublicKey => Ok(NadaType::EcdsaPublicKey),
            EncryptedNadaType::StoreId => Ok(NadaType::StoreId),
            EncryptedNadaType::EddsaPrivateKey => Ok(NadaType::EddsaPrivateKey),
            EncryptedNadaType::EddsaPublicKey => Ok(NadaType::EddsaPublicKey),
            EncryptedNadaType::EddsaSignature => Ok(NadaType::EddsaSignature),
            EncryptedNadaType::EddsaMessage => Ok(NadaType::EddsaMessage),
        }
    }
}

/// A validated encrypted value: what the masker produces and reconstruction
/// consumes.
#[derive(Debug, PartialEq)]
pub enum EncryptedValue {
    ShamirShareInteger(EncodedModularNumber),
    ShamirShareUnsignedInteger(EncodedModularNumber),
    ShamirShareBoolean(EncodedModularNumber),
    Integer(EncodedModularNumber),
    UnsignedInteger(EncodedModularNumber),
    Boolean(EncodedModularNumber),
    SecretBlob { values: Vec<EncodedModularNumber>, unencoded_size: u64 },
    Array { inner_type: NadaType, values: Vec<EncryptedValue> },
    Tuple { left: Box<EncryptedValue>, right: Box<EncryptedValue> },
    EcdsaDigestMessage(Vec<u8>),
    EcdsaSignature { r: Vec<u8>, sigma: Vec<u8> },
    EcdsaPrivateKey(PrivateKeyShare),
    EcdsaPublicKey(Vec<u8>),
    StoreId(Vec<u8>),
    EddsaPrivateKey(PrivateKeyShare),
    EddsaPublicKey(Vec<u8>),
    EddsaSignature { r: Vec<u8>, z: Vec<u8> },
    EddsaMessage(Vec<u8>),
}

/// The model of a validated encrypted value.
pub enum EncValue {
    ShamirShareInteger(ModNumV),
    ShamirShareUnsignedInteger(ModNumV),
    ShamirShareBoolean(ModNumV),
    Integer(ModNumV),
    UnsignedInteger(ModNumV),
    Boolean(ModNumV),
    SecretBlob { values: Seq<ModNumV>, unencoded_size: u64 },
    Array { inner_type: NadaType, values: Seq<EncValue> },
    Tuple { left: Box<EncValue>, right: Box<EncValue> },
    EcdsaDigestMessage(Seq<u8>),
    EcdsaSignature { r: Seq<u8>, sigma: Seq<u8> },
    EcdsaPrivateKey(KeyShareV),
    EcdsaPublicKey(Seq<u8>),
    StoreId(Seq<u8>),
    EddsaPrivateKey(KeyShareV),
    EddsaPublicKey(Seq<u8>),
    EddsaSignature { r: Seq<u8>, z: Seq<u8> },
    EddsaMessage(Seq<u8>),
}

/// The model of a validated encrypted value.
pub open spec fn enc_view(v: EncryptedValue) -> EncValue
    decreases v,
    via enc_view_decreases
{
    match v {
        EncryptedValue::ShamirShareInteger(n) => EncValue::ShamirShareInteger(n@),
        EncryptedValue::ShamirShareUnsignedInteger(n) => EncValue::ShamirShareUnsignedInteger(n@),
        EncryptedValue::ShamirShareBoolean(n) => EncValue::ShamirShareBoolean(n@),
        EncryptedValue::Integer(n) => EncValue::Integer(n@),
        EncryptedValue::UnsignedInteger(n) => EncValue::UnsignedInteger(n@),
        EncryptedValue::Boolean(n) => EncValue::Boolean(n@),
        EncryptedValue::SecretBlob { values, unencoded_size } => EncValue::SecretBlob {
            values: Seq::new(values@.len(), |i: int| values@[i]@),
            unencoded_size,
        },
        EncryptedValue::Array { inner_type, values } => EncValue::Array {
            inner_type,
            values: enc_views(values@),
        },
        EncryptedValue::Tuple { left, right } => EncValue::Tuple {
            left: Box::new(enc_view(*left)),
            right: Box::new(enc_view(*right)),
        },
        EncryptedValue::EcdsaDigestMessage(b) => EncValue::EcdsaDigestMessage(b@),
        EncryptedValue::EcdsaSignature { r, sigma } => EncValue::EcdsaSignature {
            r: r@,
            sigma: sigma@,
        },
        EncryptedValue::EcdsaPrivateKey(s) => EncValue::EcdsaPrivateKey(s@),
        EncryptedValue::EcdsaPublicKey(b) => EncValue::EcdsaPublicKey(b@),
        EncryptedValue::StoreId(b) => EncValue::StoreId(b@),
        EncryptedValue::EddsaPrivateKey(s) => EncValue::EddsaPrivateKey(s@),
        EncryptedValue::EddsaPublicKey(b) => EncValue::EddsaPublicKey(b@),
        EncryptedValue::EddsaSignature { r, z } => EncValue::EddsaSignature { r: r@, z: z@ },
        EncryptedValue::EddsaMessage(b) => EncValue::EddsaMessage(b@),
    }
}

/// The models of a run of validated encrypted values.
pub open spec fn enc_views(s: Seq<EncryptedValue>) -> Seq<EncValue>
    decreases s,
    via enc_views_decreases
{
    if s.len() == 0 {
        Seq::empty()
    } else {
        enc_views(s.drop_last()).push(enc_view(s.last()))
    }
}

#[via_fn]
proof fn enc_view_decreases(v: EncryptedValue) {
    match v {
        EncryptedValue::Array { inner_type, values } => {
            vstd::std_specs::vec::axiom_vec_decreases_to_view(values);
            assert(decreases_to!(v => v.arrow_Array_values()));
            assert(v.arrow_Array_values() == values);
        }
        _ => {}
    }
}

#[via_fn]
proof fn enc_views_decreases(s: Seq<EncryptedValue>) {
    if s.len() > 0 {
        vstd::seq::axiom_seq_index_decreases(s, s.len() - 1);
        vstd::seq::axiom_seq_subrange_decreases(s, 0, s.len() - 1);
        assert(s.drop_last() == s.subrange(0, s.len() - 1));
        assert(s.last() == s[s.len() - 1]);
    }
}

/// Model runs index pointwise into element models.
pub proof fn lemma_enc_views_index(s: Seq<EncryptedValue>)
    ensures
        enc_views(s).len() == s.len(),
        forall|i: int| 0 <= i < s.len() ==> enc_views(s)[i] == enc_view(#[trigger] s[i]),
    decreases s.len(),
{
    if s.len() > 0 {
        lemma_enc_views_index(s.drop_last());
        assert forall|i: int| 0 <= i < s.len() implies enc_views(s)[i] == enc_view(
            #[trigger] s[i],
        ) by {
            if i < s.len() - 1 {
                assert(s.drop_last()[i] == s[i]);
                assert(enc_views(s)[i] == enc_views(s.drop_last())[i]);
            } else {
                assert(enc_views(s)[i] == enc_view(s.last()));
            }
        }
    }
}

impl View for EncryptedValue {
    type V = EncValue;

    open spec fn view(&self) -> EncValue {
        enc_view(*self)
    }
}

/// The logical type of a validated encrypted value.
pub open spec fn enc_type_of(v: EncValue) -> NadaType
    decreases v,
{
    match v {
        EncValue::ShamirShareInteger(_) => NadaType::ShamirShareInteger,
        EncValue::ShamirShareUnsignedInteger(_) => NadaType::ShamirShareUnsignedInteger,
        EncValue::ShamirShareBoolean(_) => NadaType::ShamirShareBoolean,
        EncValue::Integer(_) => NadaType::Integer,
        EncValue::UnsignedInteger(_) => NadaType::UnsignedInteger,
        EncValue::Boolean(_) => NadaType::Boolean,
        EncValue::SecretBlob { .. } => NadaType::SecretBlob,
        EncValue::Array { inner_type, values } => NadaType::Array {
            inner_type: Box::new(inner_type),
            size: values.len() as usize,
        },
        EncValue::Tuple { left, right } => NadaType::Tuple {
            left_type: Box::new(enc_type_of(*left)),
            right_type: Box::new(enc_type_of(*right)),
        },
        EncValue::EcdsaDigestMessage(_) => NadaType::EcdsaDigestMessage,
        EncValue::EcdsaSignature { .. } => NadaType::EcdsaSignature,
        EncValue::EcdsaPrivateKey(_) => NadaType::EcdsaPrivateKey,
        EncValue::EcdsaPublicKey(_) => NadaType::EcdsaPublicKey,
        EncValue::StoreId(_) => NadaType::StoreId,
        EncValue::EddsaPrivateKey(_) => NadaType::EddsaPrivateKey,
        EncValue::EddsaPublicKey(_) => NadaType::EddsaPublicKey,
        EncValue::EddsaSignature { .. } => NadaType::EddsaSignature,
        EncValue::EddsaMessage(_) => NadaType::EddsaMessage,
    }
}

/// Well-formedness of a validated encrypted value under one modulus: every
/// number is a field element of that modulus, a blob's chunk count matches
/// its true size, arrays are non-empty and homogeneous, key material and
/// signature scalars are below their group orders.
pub open spec fn enc_wf(v: EncValue, m: EncodedModulo) -> bool
    decreases v,
{
    match v {
        EncValue::ShamirShareInteger(n) => n.wf() && n.modulo == m,
        EncValue::ShamirShareUnsignedInteger(n) => n.wf() && n.modulo == m,
        EncValue::ShamirShareBoolean(n) => n.wf() && n.modulo == m,
        EncValue::Integer(n) => n.wf() && n.modulo == m,
        EncValue::UnsignedInteger(n) => n.wf() && n.modulo == m,
        EncValue::Boolean(n) => n.wf() && n.modulo == m,
        EncValue::SecretBlob { values, unencoded_size } => {
            &&& values.len() == crate::chunking::spec_num_chunks(unencoded_size as nat, m)
            &&& forall|k: int|
                0 <= k < values.len() ==> (#[trigger] values[k]).wf() && values[k].modulo == m
        },
        EncValue::Array { inner_type, values } => {
            &&& values.len() >= 1
            &&& values.len() <= usize::MAX
            &&& forall|k: int|
                0 <= k < values.len() ==> enc_type_of(#[trigger] values[k]) == inner_type
            &&& forall|k: int| 0 <= k < values.len() ==> enc_wf(#[trigger] values[k], m)
        },
        EncValue::Tuple { left, right } => enc_wf(*left, m) && enc_wf(*right, m),
        EncValue::EcdsaDigestMessage(b) => b.len() == 32,
        EncValue::EcdsaSignature { r, sigma } => {
            &&& is_secp256k1_scalar(r)
            &&& is_secp256k1_scalar(sigma)
        },
        EncValue::EcdsaPrivateKey(s) => s.wf_ecdsa(),
        EncValue::EcdsaPublicKey(b) => b.len() == 33,
        EncValue::StoreId(b) => b.len() == 16,
        EncValue::EddsaPrivateKey(s) => s.wf_eddsa(),
        EncValue::EddsaPublicKey(b) => b.len() == 32,
        EncValue::EddsaSignature { r, z } => r.len() == 32 && ed25519_point(r)
            && is_ed25519_scalar(z),
        EncValue::EddsaMessage(_) => true,
    }
}

/// An encrypted value in its byte-facing form, before validation.
#[derive(Debug, PartialEq)]
pub enum EncryptedNadaValue {
    ShamirShareInteger { value: Vec<u8> },
    ShamirShareUnsignedInteger { value: Vec<u8> },
    ShamirShareBoolean { value: Vec<u8> },
    ShamirSharesBlob { values: Vec<Vec<u8>>, original_size: u64 },
    PublicInteger { value: Vec<u8> },
    PublicUnsignedInteger { value: Vec<u8> },
    PublicBoolean { value: Vec<u8> },
    Array { inner_type: EncryptedNadaType, values: Vec<EncryptedNadaValue> },
    Tuple { left: Box<EncryptedNadaValue>, right: Box<EncryptedNadaValue> },
    EcdsaMessageDigest { value: Vec<u8> },
    EcdsaSignature { r: Vec<u8>, sigma: Vec<u8> },
    EcdsaPrivateKey { i: u16, x: Vec<u8>, shared_public_key: Vec<u8>, public_shares: Vec<Vec<u8>> },
    EcdsaPublicKey { value: Vec<u8> },
    StoreId { value: Vec<u8> },
    EddsaPrivateKey { i: u16, x: Vec<u8>, shared_public_key: Vec<u8>, public_shares: Vec<Vec<u8>> },
    EddsaPublicKey { value: Vec<u8> },
    EddsaSignature { value: Vec<u8> },
    EddsaMessage { value: Vec<u8> },
}

/// The model of a byte-facing encrypted value.
pub enum WireValue {
    ShamirShareInteger { value: Seq<u8> },
    ShamirShareUnsignedInteger { value: Seq<u8> },
    ShamirShareBoolean { value: Seq<u8> },
    ShamirSharesBlob { values: Seq<Seq<u8>>, original_size: u64 },
    PublicInteger { value: Seq<u8> },
    PublicUnsignedInteger { value: Seq<u8> },
    PublicBoolean { value: Seq<u8> },
    Array { inner_type: EncryptedNadaType, values: Seq<WireValue> },
    Tuple { left: Box<WireValue>, right: Box<WireValue> },
    EcdsaMessageDigest { value: Seq<u8> },
    EcdsaSignature { r: Seq<u8>, sigma: Seq<u8> },
    EcdsaPrivateKey { i: u16, x: Seq<u8>, shared_public_key: Seq<u8>, public_shares: Seq<Seq<u8>> },
    EcdsaPublicKey { value: Seq<u8> },
    StoreId { value: Seq<u8> },
    EddsaPrivateKey { i: u16, x: Seq<u8>, shared_public_key: Seq<u8>, public_shares: Seq<Seq<u8>> },
    EddsaPublicKey { value: Seq<u8> },
    EddsaSignature { value: Seq<u8> },
    EddsaMessage { value: Seq<u8> },
}

/// The model of a byte-facing encrypted value.
pub open spec fn wire_view(v: EncryptedNadaValue) -> WireValue
    decreases v,
    via wire_view_decreases
{
    match v {
        EncryptedNadaValue::ShamirShareInteger { value } => WireValue::ShamirShareInteger {
            value: value@,
        },
        EncryptedNadaValue::ShamirShareUnsignedInteger { value } => {
            WireValue::ShamirShareUnsignedInteger { value: value@ }
        }
        EncryptedNadaValue::ShamirShareBoolean { value } => WireValue::ShamirShareBoolean {
            value: value@,
        },
        EncryptedNadaValue::ShamirSharesBlob { values, original_size } => {
            WireValue::ShamirSharesBlob {
                values: Seq::new(values@.len(), |i: int| values@[i]@),
                original_size,
            }
        }
        EncryptedNadaValue::PublicInteger { value } => WireValue::PublicInteger { value: value@ },
        EncryptedNadaValue::PublicUnsignedInteger { value } => {
            WireValue::PublicUnsignedInteger { value: value@ }
        }
        EncryptedNadaValue::PublicBoolean { value } => WireValue::PublicBoolean { value: value@ },
        EncryptedNadaValue::Array { inner_type, values } => WireValue::Array {
            inner_type,
            values: wire_views(values@),
        },
        EncryptedNadaValue::Tuple { left, right } => WireValue::Tuple {
            left: Box::new(wire_view(*left)),
            right: Box::new(wire_view(*right)),
        },
        EncryptedNadaValue::EcdsaMessageDigest { value } => WireValue::EcdsaMessageDigest {
            value: value@,
        },
        EncryptedNadaValue::EcdsaSignature { r, sigma } => WireValue::EcdsaSignature {
            r: r@,
            sigma: sigma@,
        },
        EncryptedNadaValue::EcdsaPrivateKey { i, x, shared_public_key, public_shares } => {
            WireValue::EcdsaPrivateKey {
                i,
                x: x@,
                shared_public_key: shared_public_key@,
                public_shares: Seq::new(public_shares@.len(), |k: int| public_shares@[k]@),
            }
        }
        EncryptedNadaValue::EcdsaPublicKey { value } => WireValue::EcdsaPublicKey {
            value: value@,
        },
        EncryptedNadaValue::StoreId { value } => WireValue::StoreId { value: value@ },
        EncryptedNadaValue::EddsaPrivateKey { i, x, shared_public_key, public_shares } => {
            WireValue::EddsaPrivateKey {
                i,
                x: x@,
                shared_public_key: shared_public_key@,
                public_shares: Seq::new(public_shares@.len(), |k: int| public_shares@[k]@),
            }
        }
        EncryptedNadaValue::EddsaPublicKey { value } => WireValue::EddsaPublicKey {
            value: value@,
        },
        EncryptedNadaValue::EddsaSignature { value } => WireValue::EddsaSignature {
            value: value@,
        },
        EncryptedNadaValue::EddsaMessage { value } => WireValue::EddsaMessage { value: value@ },
    }
}

/// The models of a run of byte-facing encrypted values.
pub open spec fn wire_views(s: Seq<EncryptedNadaValue>) -> Seq<WireValue>
    decreases s,
    via wire_views_decreases
{
    if s.len() == 0 {
        Seq::empty()
    } else {
        wire_views(s.drop_last()).push(wire_view(s.last()))
    }
}

#[via_fn]
proof fn wire_view_decreases(v: EncryptedNadaValue) {
    match v {
        EncryptedNadaValue::Array { inner_type, values } => {
            vstd::std_specs::vec::axiom_vec_decreases_to_view(values);
            assert(decreases_to!(v => v.arrow_Array_values()));
            assert(v.arrow_Array_values() == values);
        }
        _ => {}
    }
}

#[via_fn]
proof fn wire_views_decreases(s: Seq<EncryptedNadaValue>) {
    if s.len() > 0 {
        vstd::seq::axiom_seq_index_decreases(s, s.len() - 1);
        vstd::seq::axiom_seq_subrange_decreases(s, 0, s.len() - 1);
        assert(s.drop_last() == s.subrange(0, s.len() - 1));
        assert(s.last() == s[s.len() - 1]);
    }
}

/// Model runs index pointwise into element models.
pub proof fn lemma_wire_views_index(s: Seq<EncryptedNadaValue>)
    ensures
        wire_views(s).len() == s.len(),
        forall|i: int| 0 <= i < s.len() ==> wire_views(s)[i] == wire_view(#[trigger] s[i]),
    decreases s.len(),
{
    if s.len() > 0 {
        lemma_wire_views_index(s.drop_last());
        assert forall|i: int| 0 <= i < s.len() implies wire_views(s)[i] == wire_view(
            #[trigger] s[i],
        ) by {
            if i < s.len() - 1 {
                assert(s.drop_last()[i] == s[i]);
                assert(wire_views(s)[i] == wire_views(s.drop_last())[i]);
            } else {
                assert(wire_views(s)[i] == wire_view(s.last()));
            }
        }
    }
}

impl View for EncryptedNadaValue {
    type V = WireValue;

    open spec fn view(&self) -> WireValue {
        wire_view(*self)
    }
}

/// The byte form of a validated encrypted value. Numbers keep their
/// little-endian bytes; ECDSA scalars travel big-endian, EdDSA components
/// little-endian; an EdDSA signature is its point followed by its scalar.
pub open spec fn spec_encode(v: EncValue) -> Result<WireValue, ValueError>
    decreases v,
{
    match v {
        EncValue::ShamirShareInteger(n) => Ok(WireValue::ShamirShareInteger { value: n.value }),
        EncValue::ShamirShareUnsignedInteger(n) => Ok(
            WireValue::ShamirShareUnsignedInteger { value: n.value },
        ),
        EncValue::ShamirShareBoolean(n) => Ok(WireValue::ShamirShareBoolean { value: n.value }),
        EncValue::Integer(n) => Ok(WireValue::PublicInteger { value: n.value }),
        EncValue::UnsignedInteger(n) => Ok(WireValue::PublicUnsignedInteger { value: n.value }),
        EncValue::Boolean(n) => Ok(WireValue::PublicBoolean { value: n.value }),
        EncValue::SecretBlob { values, unencoded_size } => Ok(
            WireValue::ShamirSharesBlob {
                values: Seq::new(values.len(), |i: int| values[i].value),
                original_size: unencoded_size,
            },
        ),
        EncValue::Array { inner_type, values } => match spec_wire_type(inner_type) {
            Ok(wt) => match spec_encode_seq(values) {
                Ok(ws) => Ok(WireValue::Array { inner_type: wt, values: ws }),
                Err(e) => Err(e),
            },
            Err(e) => Err(e),
        },
        EncValue::Tuple { left, right } => match (spec_encode(*left), spec_encode(*right)) {
            (Ok(l), Ok(r)) => Ok(WireValue::Tuple { left: Box::new(l), right: Box::new(r) }),
            (Err(e), _) => Err(e),
            (_, Err(e)) => Err(e),
        },
        EncValue::EcdsaDigestMessage(b) => Ok(WireValue::EcdsaMessageDigest { value: b }),
        EncValue::EcdsaSignature { r, sigma } => Ok(WireValue::EcdsaSignature { r, sigma }),
        EncValue::EcdsaPrivateKey(s) => Ok(
            WireValue::EcdsaPrivateKey {
                i: s.i,
                x: s.x,
                shared_public_key: s.shared_public_key,
                public_shares: s.public_shares,
            },
        ),
        EncValue::EcdsaPublicKey(b) => Ok(WireValue::EcdsaPublicKey { value: b }),
        EncValue::StoreId(b) => Ok(WireValue::StoreId { value: b }),
        EncValue::EddsaPrivateKey(s) => Ok(
            WireValue::EddsaPrivateKey {
                i: s.i,
                x: s.x,
                shared_public_key: s.shared_public_key,
                public_shares: s.public_shares,
            },
        ),
        EncValue::EddsaPublicKey(b) => Ok(WireValue::EddsaPublicKey { value: b }),
        EncValue::EddsaSignature { r, z } => Ok(WireValue::EddsaSignature { value: r + z }),
        EncValue::EddsaMessage(b) => Ok(WireValue::EddsaMessage { value: b }),
    }
}

/// Byte forms of a run of validated values; the first failure wins.
pub open spec fn spec_encode_seq(s: Seq<EncValue>) -> Result<Seq<WireValue>, ValueError>
    decreases s,
{
    if s.len() == 0 {
        Ok(Seq::empty())
    } else {
        match spec_encode_seq(s.drop_last()) {
            Ok(ws) => match spec_encode(s.last()) {
                Ok(w) => Ok(ws.push(w)),
                Err(e) => Err(e),
            },
            Err(e) => Err(e),
        }
    }
}

/// Validate a byte-facing value under one modulus and take it as an
/// encrypted value; exactly the values that `enc_wf` admits come out, and a
/// wrong byte length for a fixed-width variant is a format error.
pub open spec fn spec_decode(w: WireValue, m: EncodedModulo) -> Result<EncValue, ValueError>
    decreases w,
{
    match w {
        WireValue::ShamirShareInteger { value } => if is_field_bytes(value, m) {
            Ok(EncValue::ShamirShareInteger(ModNumV { value, modulo: m }))
        } else {
            Err(ValueError::FormatError)
        },
        WireValue::ShamirShareUnsignedInteger { value } => if is_field_bytes(value, m) {
            Ok(EncValue::ShamirShareUnsignedInteger(ModNumV { value, modulo: m }))
        } else {
            Err(ValueError::FormatError)
        },
        WireValue::ShamirShareBoolean { value } => if is_field_bytes(value, m) {
            Ok(EncValue::ShamirShareBoolean(ModNumV { value, modulo: m }))
        } else {
            Err(ValueError::FormatError)
        },
        WireValue::PublicInteger { value } => if is_field_bytes(value, m) {
            Ok(EncValue::Integer(ModNumV { value, modulo: m }))
        } else {
            Err(ValueError::FormatError)
        },
        WireValue::PublicUnsignedInteger { value } => if is_field_bytes(value, m) {
            Ok(EncValue::UnsignedInteger(ModNumV { value, modulo: m }))
        } else {
            Err(ValueError::FormatError)
        },
        WireValue::PublicBoolean { value } => if is_field_bytes(value, m) {
            Ok(EncValue::Boolean(ModNumV { value, modulo: m }))
        } else {
            Err(ValueError::FormatError)
        },
        WireValue::ShamirSharesBlob { values, original_size } => if values.len()
            == crate::chunking::spec_num_chunks(original_size as nat, m) && (forall|k: int|
            0 <= k < values.len() ==> is_field_bytes(#[trigger] values[k], m)) {
            Ok(
                EncValue::SecretBlob {
                    values: Seq::new(
                        values.len(),
                        |i: int| ModNumV { value: values[i], modulo: m },
                    ),
                    unencoded_size: original_size,
                },
            )
        } else {
            Err(ValueError::FormatError)
        },
        WireValue::Array { inner_type, values } => match spec_logical_type(inner_type) {
            Ok(t) => match spec_decode_seq(values, m) {
                Ok(vs) => if vs.len() >= 1 && vs.len() <= usize::MAX && (forall|k: int|
                    0 <= k < vs.len() ==> enc_type_of(#[trigger] vs[k]) == t) {
                    Ok(EncValue::Array { inner_type: t, values: vs })
                } else {
                    Err(ValueError::FormatError)
                },
                Err(e) => Err(e),
            },
            Err(e) => Err(e),
        },
        WireValue::Tuple { left, right } => match (
            spec_decode(*left, m),
            spec_decode(*right, m),
        ) {
            (Ok(l), Ok(r)) => Ok(EncValue::Tuple { left: Box::new(l), right: Box::new(r) }),
            (Err(e), _) => Err(e),
            (_, Err(e)) => Err(e),
        },
        WireValue::EcdsaMessageDigest { value } => if value.len() == 32 {
            Ok(EncValue::EcdsaDigestMessage(value))
        } else {
            Err(ValueError::FormatError)
        },
        WireValue::EcdsaSignature { r, sigma } => if is_secp256k1_scalar(r)
            && is_secp256k1_scalar(sigma) {
            Ok(EncValue::EcdsaSignature { r, sigma })
        } else {
            Err(ValueError::FormatError)
        },
        WireValue::EcdsaPrivateKey { i, x, shared_public_key, public_shares } => {
            let share = KeyShareV { i, x, shared_public_key, public_shares };
            if x.len() == 32 && share.wf_ecdsa() {
                Ok(EncValue::EcdsaPrivateKey(share))
            } else {
                Err(ValueError::KeyShareInvalid)
            }
        },
        WireValue::EcdsaPublicKey { value } => if value.len() == 33 {
            Ok(EncValue::EcdsaPublicKey(value))
        } else {
            Err(ValueError::FormatError)
        },
        WireValue::StoreId { value } => if value.len() == 16 {
            Ok(EncValue::StoreId(value))
        } else {
            Err(ValueError::FormatError)
        },
        WireValue::EddsaPrivateKey { i, x, shared_public_key, public_shares } => {
            let share = KeyShareV { i, x, shared_public_key, public_shares };
            if x.len() == 32 && share.wf_eddsa() {
                Ok(EncValue::EddsaPrivateKey(share))
            } else {
                Err(ValueError::KeyShareInvalid)
            }
        },
        WireValue::EddsaPublicKey { value } => if value.len() == 32 {
            Ok(EncValue::EddsaPublicKey(value))
        } else {
            Err(ValueError::FormatError)
        },
        WireValue::EddsaSignature { value } => if value.len() == 64 && ed25519_point(
            value.take(32),
        ) && le_val(value.skip(32)) < ed25519_order() {
            Ok(EncValue::EddsaSignature { r: value.take(32), z: value.skip(32) })
        } else {
            Err(ValueError::FormatError)
        },
        WireValue::EddsaMessage { value } => Ok(EncValue::EddsaMessage(value)),
    }
}

/// Validate a run of byte-facing values; the first failure wins.
pub open spec fn spec_decode_seq(s: Seq<WireValue>, m: EncodedModulo) -> Result<
    Seq<EncValue>,
    ValueError,
>
    decreases s,
{
    if s.len() == 0 {
        Ok(Seq::empty())
    } else {
        match spec_decode_seq(s.drop_last(), m) {
            Ok(vs) => match spec_decode(s.last(), m) {
                Ok(v) => Ok(vs.push(v)),
                Err(e) => Err(e),
            },
            Err(e) => Err(e),
        }
    }
}

/// A wire-convertible logical type converts back to itself.
pub proof fn lemma_type_roundtrip(t: NadaType)
    requires
        spec_wire_type(t) is Ok,
    ensures
        spec_logical_type(spec_wire_type(t).unwrap()) == Ok::<NadaType, ValueError>(t),
    decreases t,
{
    match t {
        NadaType::Array { inner_type, size } => {
            lemma_type_roundtrip(*inner_type);
        }
        NadaType::Tuple { left_type, right_type } => {
            lemma_type_roundtrip(*left_type);
            lemma_type_roundtrip(*right_type);
        }
        _ => {}
    }
}

/// The type of a well-formed encrypted value is wire-convertible.
pub proof fn lemma_enc_type_wire_ok(v: EncValue, m: EncodedModulo)
    requires
        enc_wf(v, m),
    ensures
        spec_wire_type(enc_type_of(v)) is Ok,
    decreases v,
{
    match v {
        EncValue::Array { inner_type, values } => {
            assert(enc_type_of(values[0]) == inner_type);
            assert(enc_wf(values[0], m));
            lemma_enc_type_wire_ok(values[0], m);
        }
        EncValue::Tuple { left, right } => {
            lemma_enc_type_wire_ok(*left, m);
            lemma_enc_type_wire_ok(*right, m);
        }
        _ => {}
    }
}

/// Round trip: every well-formed encrypted value encodes to bytes, and
/// decoding those bytes under the same modulus gives the value back.
pub proof fn lemma_decode_encode(v: EncValue, m: EncodedModulo)
    requires
        enc_wf(v, m),
    ensures
        spec_encode(v) is Ok,
        spec_decode(spec_encode(v).unwrap(), m) == Ok::<EncValue, ValueError>(v),
    decreases v,
{
    match v {
        EncValue::SecretBlob { values, unencoded_size } => {
            let w = spec_encode(v).unwrap();
            let chunks = w.arrow_ShamirSharesBlob_values();
            assert(forall|k: int|
                0 <= k < chunks.len() ==> is_field_bytes(#[trigger] chunks[k], m));
            let back = spec_decode(w, m).unwrap();
            assert(back.arrow_SecretBlob_values() =~= values);
        }
        EncValue::Array { inner_type, values } => {
            lemma_enc_type_wire_ok(v, m);
            assert(enc_type_of(values[0]) == inner_type);
            assert(enc_wf(values[0], m));
            lemma_enc_type_wire_ok(values[0], m);
            lemma_type_roundtrip(inner_type);
            lemma_codec_seq(values, m);
        }
        EncValue::Tuple { left, right } => {
            lemma_decode_encode(*left, m);
            lemma_decode_encode(*right, m);
        }
        EncValue::EddsaSignature { r, z } => {
            assert((r + z).len() == 64);
            assert((r + z).take(32) =~= r);
            assert((r + z).skip(32) =~= z);
        }
        _ => {}
    }
}

/// A first failing element decides the whole run's byte form.
pub proof fn lemma_encode_seq_err(s: Seq<EncValue>, k: int, e: ValueError)
    requires
        0 <= k < s.len(),
        spec_encode_seq(s.take(k)) is Ok,
        spec_encode(s[k]) == Err::<WireValue, ValueError>(e),
    ensures
        spec_encode_seq(s) == Err::<Seq<WireValue>, ValueError>(e),
    decreases s.len(),
{
    if k == s.len() - 1 {
        assert(s.take(k) =~= s.drop_last());
        assert(s.last() == s[k]);
    } else {
        assert(s.drop_last().take(k) =~= s.take(k));
        assert(s.drop_last()[k] == s[k]);
        lemma_encode_seq_err(s.drop_last(), k, e);
    }
}

/// A first failing element decides the whole run's validation.
pub proof fn lemma_decode_seq_err(s: Seq<WireValue>, m: EncodedModulo, k: int, e: ValueError)
    requires
        0 <= k < s.len(),
        spec_decode_seq(s.take(k), m) is Ok,
        spec_decode(s[k], m) == Err::<EncValue, ValueError>(e),
    ensures
        spec_decode_seq(s, m) == Err::<Seq<EncValue>, ValueError>(e),
    decreases s.len(),
{
    if k == s.len() - 1 {
        assert(s.take(k) =~= s.drop_last());
        assert(s.last() == s[k]);
    } else {
        assert(s.drop_last().take(k) =~= s.take(k));
        assert(s.drop_last()[k] == s[k]);
        lemma_decode_seq_err(s.drop_last(), m, k, e);
    }
}

impl EncryptedValue {
    /// The logical type of this value.
    pub fn to_type(&self) -> (r: NadaType)
        ensures
            r == enc_type_of(self@),
        decreases *self,
    {
        match self {
            EncryptedValue::ShamirShareInteger(_) => NadaType::ShamirShareInteger,
            EncryptedValue::ShamirShareUnsignedInteger(_) => NadaType::ShamirShareUnsignedInteger,
            EncryptedValue::ShamirShareBoolean(_) => NadaType::ShamirShareBoolean,
            EncryptedValue::Integer(_) => NadaType::Integer,
            EncryptedValue::UnsignedInteger(_) => NadaType::UnsignedInteger,
            EncryptedValue::Boolean(_) => NadaType::Boolean,
            EncryptedValue::SecretBlob { .. } => NadaType::SecretBlob,
            EncryptedValue::Array { inner_type, values } => {
                proof {
                    lemma_enc_views_index(values@);
                }
                NadaType::Array { inner_type: Box::new(inner_type.duplicate()), size: values.len() }
            }
            EncryptedValue::Tuple { left, right } => NadaType::Tuple {
                left_type: Box::new(left.to_type()),
                right_type: Box::new(right.to_type()),
            },
            EncryptedValue::EcdsaDigestMessage(_) => NadaType::EcdsaDigestMessage,
            EncryptedValue::EcdsaSignature { .. } => NadaType::EcdsaSignature,
            EncryptedValue::EcdsaPrivateKey(_) => NadaType::EcdsaPrivateKey,
            EncryptedValue::EcdsaPublicKey(_) => NadaType::EcdsaPublicKey,
            EncryptedValue::StoreId(_) => NadaType::StoreId,
            EncryptedValue::EddsaPrivateKey(_) => NadaType::EddsaPrivateKey,
            EncryptedValue::EddsaPublicKey(_) => NadaType::EddsaPublicKey,
            EncryptedValue::EddsaSignature { .. } => NadaType::EddsaSignature,
            EncryptedValue::EddsaMessage(_) => NadaType::EddsaMessage,
        }
    }

    /// A copy with the same model.
    pub fn duplicate(&self) -> (r: EncryptedValue)
        ensures
            r@ == self@,
        decreases *self,
    {
        match self {
            EncryptedValue::ShamirShareInteger(n) => EncryptedValue::ShamirShareInteger(
                n.duplicate(),
            ),
            EncryptedValue::ShamirShareUnsignedInteger(n) => {
                EncryptedValue::ShamirShareUnsignedInteger(n.duplicate())
            }
            EncryptedValue::ShamirShareBoolean(n) => EncryptedValue::ShamirShareBoolean(
                n.duplicate(),
            ),
            EncryptedValue::Integer(n) => EncryptedValue::Integer(n.duplicate()),
            EncryptedValue::UnsignedInteger(n) => EncryptedValue::UnsignedInteger(n.duplicate()),
            EncryptedValue::Boolean(n) => EncryptedValue::Boolean(n.duplicate()),
            EncryptedValue::SecretBlob { values, unencoded_size } => {
                let mut out: Vec<EncodedModularNumber> = Vec::new();
                let mut k: usize = 0;
                while k < values.len()
                    invariant
                        k <= values@.len(),
                        out@.len() == k,
                        forall|q: int| 0 <= q < k ==> (#[trigger] out@[q])@ == values@[q]@,
                    decreases values@.len() - k,
                {
                    out.push(values[k].duplicate());
                    k = k + 1;
                }
                let r = EncryptedValue::SecretBlob { values: out, unencoded_size: *unencoded_size };
                proof {
                    assert(r@.arrow_SecretBlob_values() =~= self@.arrow_SecretBlob_values());
                }
                r
            }
            EncryptedValue::Array { inner_type, values } => {
                let mut out: Vec<EncryptedValue> = Vec::new();
                let mut k: usize = 0;
                while k < values.len()
                    invariant
                        *self == (EncryptedValue::Array {
                            inner_type: *inner_type,
                            values: *values,
                        }),
                        k <= values@.len(),
                        out@.len() == k,
                        forall|q: int| 0 <= q < k ==> (#[trigger] out@[q])@ == values@[q]@,
                    decreases values@.len() - k,
                {
                    proof {
                        vstd::std_specs::vec::axiom_vec_decreases_to_view(*values);
                        vstd::seq::axiom_seq_index_decreases(values@, k as int);
                        assert(decreases_to!(*self => self.arrow_Array_values()));
                        assert(self.arrow_Array_values() == *values);
                        assert(decreases_to!(*self => values@[k as int]));
                    }
                    out.push(values[k].duplicate());
                    k = k + 1;
                }
                proof {
                    lemma_enc_views_index(values@);
                    lemma_enc_views_index(out@);
                    assert forall|q: int|
                        0 <= q < out@.len() implies enc_views(out@)[q] == enc_views(
                        values@,
                    )[q] by {
                        assert(enc_views(out@)[q] == enc_view(out@[q]));
                        assert(enc_views(values@)[q] == enc_view(values@[q]));
                        assert((out@[q])@ == (values@[q])@);
                    }
                    assert(enc_views(out@) =~= enc_views(values@));
                }
                EncryptedValue::Array { inner_type: inner_type.duplicate(), values: out }
            }
            EncryptedValue::Tuple { left, right } => EncryptedValue::Tuple {
                left: Box::new(left.duplicate()),
                right: Box::new(right.duplicate()),
            },
            EncryptedValue::EcdsaDigestMessage(b) => EncryptedValue::EcdsaDigestMessage(
                copy_bytes(b),
            ),
            EncryptedValue::EcdsaSignature { r, sigma } => EncryptedValue::EcdsaSignature {
                r: copy_bytes(r),
                sigma: copy_bytes(sigma),
            },
            EncryptedValue::EcdsaPrivateKey(s) => EncryptedValue::EcdsaPrivateKey(s.duplicate()),
            EncryptedValue::EcdsaPublicKey(b) => EncryptedValue::EcdsaPublicKey(copy_bytes(b)),
            EncryptedValue::StoreId(b) => EncryptedValue::StoreId(copy_bytes(b)),
            EncryptedValue::EddsaPrivateKey(s) => EncryptedValue::EddsaPrivateKey(s.duplicate()),
            EncryptedValue::EddsaPublicKey(b) => EncryptedValue::EddsaPublicKey(copy_bytes(b)),
            EncryptedValue::EddsaSignature { r, z } => EncryptedValue::EddsaSignature {
                r: copy_bytes(r),
                z: copy_bytes(z),
            },
            EncryptedValue::EddsaMessage(b) => EncryptedValue::EddsaMessage(copy_bytes(b)),
        }
    }
}

/// An exact copy of a list of byte strings.
pub fn copy_byte_mat(b: &Vec<Vec<u8>>) -> (r: Vec<Vec<u8>>)
    ensures
        r@.len() == b@.len(),
        forall|k: int| 0 <= k < b@.len() ==> (#[trigger] r@[k])@ == b@[k]@,
{
    let mut out: Vec<Vec<u8>> = Vec::new();
    let mut i: usize = 0;
    while i < b.len()
        invariant
            i <= b@.len(),
            out@.len() == i,
            forall|j: int| 0 <= j < i ==> (#[trigger] out@[j])@ == b@[j]@,
        decreases b@.len() - i,
    {
        out.push(copy_bytes(&b[i]));
        i = i + 1;
    }
    out
}

impl PrivateKeyShare {
    /// A copy with the same model.
    pub fn duplicate(&self) -> (r: PrivateKeyShare)
        ensures
            r@ == self@,
    {
        let r = PrivateKeyShare {
            i: self.i,
            x: copy_bytes(&self.x),
            shared_public_key: copy_bytes(&self.shared_public_key),
            public_shares: copy_byte_mat(&self.public_shares),
        };
        proof {
            assert(r@.public_shares =~= self@.public_shares);
        }
        r
    }
}

impl EncryptedNadaValue {
    /// The byte form of a validated encrypted value.
    pub fn new(value: &EncryptedValue) -> (r: Result<EncryptedNadaValue, ValueError>)
        ensures
            match r {
                Ok(w) => spec_encode(value@) == Ok::<WireValue, ValueError>(w@),
                Err(e) => spec_encode(value@) == Err::<WireValue, ValueError>(e),
            },
        decreases *value,
    {
        match value {
            EncryptedValue::ShamirShareInteger(n) => Ok(
                EncryptedNadaValue::ShamirShareInteger { value: copy_bytes(&n.value) },
            ),
            EncryptedValue::ShamirShareUnsignedInteger(n) => Ok(
                EncryptedNadaValue::ShamirShareUnsignedInteger { value: copy_bytes(&n.value) },
            ),
            EncryptedValue::ShamirShareBoolean(n) => Ok(
                EncryptedNadaValue::ShamirShareBoolean { value: copy_bytes(&n.value) },
            ),
            EncryptedValue::Integer(n) => Ok(
                EncryptedNadaValue::PublicInteger { value: copy_bytes(&n.value) },
            ),
            EncryptedValue::UnsignedInteger(n) => Ok(
                EncryptedNadaValue::PublicUnsignedInteger { value: copy_bytes(&n.value) },
            ),
            EncryptedValue::Boolean(n) => Ok(
                EncryptedNadaValue::PublicBoolean { value: copy_bytes(&n.value) },
            ),
            EncryptedValue::SecretBlob { values, unencoded_size } => {
                let mut out: Vec<Vec<u8>> = Vec::new();
                let mut k: usize = 0;
                while k < values.len()
                    invariant
                        k <= values@.len(),
                        out@.len() == k,
                        forall|q: int| 0 <= q < k ==> (#[trigger] out@[q])@ == values@[q]@.value,
                    decreases values@.len() - k,
                {
                    out.push(copy_bytes(&values[k].value));
                    k = k + 1;
                }
                let r = EncryptedNadaValue::ShamirSharesBlob {
                    values: out,
                    original_size: *unencoded_size,
                };
                proof {
                    assert(r@.arrow_ShamirSharesBlob_values() =~= spec_encode(
                        value@,
                    ).unwrap().arrow_ShamirSharesBlob_values());
                }
                Ok(r)
            }
            EncryptedValue::Array { inner_type, values } => {
                let wt = match EncryptedNadaType::new(inner_type) {
                    Ok(t) => t,
                    Err(e) => {
                        return Err(e);
                    }
                };
                let ghost es = enc_views(values@);
                let mut out: Vec<EncryptedNadaValue> = Vec::new();
                let mut k: usize = 0;
                proof {
                    lemma_enc_views_index(values@);
                    assert(es.take(0) =~= Seq::empty());
                }
                while k < values.len()
                    invariant
                        *value == (EncryptedValue::Array {
                            inner_type: *inner_type,
                            values: *values,
                        }),
                        wt == spec_wire_type(*inner_type).unwrap(),
                        spec_wire_type(*inner_type) is Ok,
                        k <= values@.len(),
                        out@.len() == k,
                        es == enc_views(values@),
                        es.len() == values@.len(),
                        forall|q: int| 0 <= q < es.len() ==> es[q] == enc_view(values@[q]),
                        spec_encode_seq(es.take(k as int)) == Ok::<Seq<WireValue>, ValueError>(
                            wire_views(out@),
                        ),
                    decreases values@.len() - k,
                {
                    proof {
                        vstd::std_specs::vec::axiom_vec_decreases_to_view(*values);
                        vstd::seq::axiom_seq_index_decreases(values@, k as int);
                        assert(decreases_to!(*value => value.arrow_Array_values()));
                        assert(value.arrow_Array_values() == *values);
                        assert(decreases_to!(*value => values@[k as int]));
                    }
                    match Self::new(&values[k]) {
                        Ok(w) => {
                            proof {
                                let old_out = out@;
                                assert(es.take(k + 1).drop_last() =~= es.take(k as int));
                                assert(es.take(k + 1).last() == es[k as int]);
                                assert(old_out.push(w).drop_last() =~= old_out);
                            }
                            out.push(w);
                        }
                        Err(e) => {
                            proof {
                                assert(es[k as int] == (values@[k as int])@);
                                lemma_encode_seq_err(es, k as int, e);
                            }
                            return Err(e);
                        }
                    }
                    k = k + 1;
                }
                proof {
                    assert(es.take(values@.len() as int) =~= es);
                }
                Ok(EncryptedNadaValue::Array { inner_type: wt, values: out })
            }
            EncryptedValue::Tuple { left, right } => {
                let l = match Self::new(left) {
                    Ok(l) => l,
                    Err(e) => {
                        return Err(e);
                    }
                };
                let r = match Self::new(right) {
                    Ok(r) => r,
                    Err(e) => {
                        return Err(e);
                    }
                };
                Ok(EncryptedNadaValue::Tuple { left: Box::new(l), right: Box::new(r) })
            }
            EncryptedValue::EcdsaDigestMessage(b) => Ok(
                EncryptedNadaValue::EcdsaMessageDigest { value: copy_bytes(b) },
            ),
            EncryptedValue::EcdsaSignature { r, sigma } => Ok(
                EncryptedNadaValue::EcdsaSignature { r: copy_bytes(r), sigma: copy_bytes(sigma) },
            ),
            EncryptedValue::EcdsaPrivateKey(s) => {
                let r = EncryptedNadaValue::EcdsaPrivateKey {
                    i: s.i,
                    x: copy_bytes(&s.x),
                    shared_public_key: copy_bytes(&s.shared_public_key),
                    public_shares: copy_byte_mat(&s.public_shares),
                };
                proof {
                    assert(r@.arrow_EcdsaPrivateKey_public_shares() =~= s@.public_shares);
                }
                Ok(r)
            }
            EncryptedValue::EcdsaPublicKey(b) => Ok(
                EncryptedNadaValue::EcdsaPublicKey { value: copy_bytes(b) },
            ),
            EncryptedValue::StoreId(b) => Ok(EncryptedNadaValue::StoreId { value: copy_bytes(b) }),
            EncryptedValue::EddsaPrivateKey(s) => {
                let r = EncryptedNadaValue::EddsaPrivateKey {
                    i: s.i,
                    x: copy_bytes(&s.x),
                    shared_public_key: copy_bytes(&s.shared_public_key),
                    public_shares: copy_byte_mat(&s.public_shares),
                };
                proof {
                    assert(r@.arrow_EddsaPrivateKey_public_shares() =~= s@.public_shares);
                }
                Ok(r)
            }
            EncryptedValue::EddsaPublicKey(b) => Ok(
                EncryptedNadaValue::EddsaPublicKey { value: copy_bytes(b) },
            ),
            EncryptedValue::EddsaSignature { r, z } => {
                let mut v = copy_bytes(r);
                let mut i: usize = 0;
                while i < z.len()
                    invariant
                        i <= z@.len(),
                        v@.len() == r@.len() + i,
                        v@ =~= r@ + z@.take(i as int),
                    decreases z@.len() - i,
                {
                    proof {
                        assert((r@ + z@.take(i as int)).push(z@[i as int]) =~= r@ + z@.take(
                            i + 1,
                        ));
                    }
                    v.push(z[i]);
                    i = i + 1;
                }
                proof {
                    assert(z@.take(z@.len() as int) =~= z@);
                    assert(v@ =~= r@ + z@);
                }
                Ok(EncryptedNadaValue::EddsaSignature { value: v })
            }
            EncryptedValue::EddsaMessage(b) => Ok(
                EncryptedNadaValue::EddsaMessage { value: copy_bytes(b) },
            ),
        }
    }

    /// Validate this byte-facing value under a modulus and take it as an
    /// encrypted value.
    #[verifier::rlimit(100)]
    pub fn into_nada_value(&self, modulo: &EncodedModulo) -> (r: Result<
        EncryptedValue,
        ValueError,
    >)
        ensures
            match r {
                Ok(v) => spec_decode(self@, *modulo) == Ok::<EncValue, ValueError>(v@),
                Err(e) => spec_decode(self@, *modulo) == Err::<EncValue, ValueError>(e),
            },
        decreases *self,
    {
        match self {
            EncryptedNadaValue::ShamirShareInteger { value } => {
                match EncodedModularNumber::new_checked(copy_bytes(value), *modulo) {
                    Ok(n) => Ok(EncryptedValue::ShamirShareInteger(n)),
                    Err(e) => Err(e),
                }
            }
            EncryptedNadaValue::ShamirShareUnsignedInteger { value } => {
                match EncodedModularNumber::new_checked(copy_bytes(value), *modulo) {
                    Ok(n) => Ok(EncryptedValue::ShamirShareUnsignedInteger(n)),
                    Err(e) => Err(e),
                }
            }
            EncryptedNadaValue::ShamirShareBoolean { value } => {
                match EncodedModularNumber::new_checked(copy_bytes(value), *modulo) {
                    Ok(n) => Ok(EncryptedValue::ShamirShareBoolean(n)),
                    Err(e) => Err(e),
                }
            }
            EncryptedNadaValue::PublicInteger { value } => {
                match EncodedModularNumber::new_checked(copy_bytes(value), *modulo) {
                    Ok(n) => Ok(EncryptedValue::Integer(n)),
                    Err(e) => Err(e),
                }
            }
            EncryptedNadaValue::PublicUnsignedInteger { value } => {
                match EncodedModularNumber::new_checked(copy_bytes(value), *modulo) {
                    Ok(n) => Ok(EncryptedValue::UnsignedInteger(n)),
                    Err(e) => Err(e),
                }
            }
            EncryptedNadaValue::PublicBoolean { value } => {
                match EncodedModularNumber::new_checked(copy_bytes(value), *modulo) {
                    Ok(n) => Ok(EncryptedValue::Boolean(n)),
                    Err(e) => Err(e),
                }
            }
            EncryptedNadaValue::ShamirSharesBlob { values, original_size } => {
                let expect = crate::chunking::num_chunks_u64(*original_size, modulo);
                if values.len() as u128 != expect {
                    return Err(ValueError::FormatError);
                }
                let mut out: Vec<EncodedModularNumber> = Vec::new();
                let mut k: usize = 0;
                while k < values.len()
                    invariant
                        *self == (EncryptedNadaValue::ShamirSharesBlob {
                            values: *values,
                            original_size: *original_size,
                        }),
                        k <= values@.len(),
                        out@.len() == k,
                        forall|q: int|
                            0 <= q < k ==> (#[trigger] out@[q])@ == (ModNumV {
                                value: values@[q]@,
                                modulo: *modulo,
                            }) && out@[q]@.wf(),
                    decreases values@.len() - k,
                {
                    match EncodedModularNumber::new_checked(copy_bytes(&values[k]), *modulo) {
                        Ok(n) => {
                            out.push(n);
                        }
                        Err(_) => {
                            proof {
                                let wchunks = self@.arrow_ShamirSharesBlob_values();
                                assert(wchunks[k as int] == values@[k as int]@);
                                assert(!is_field_bytes(wchunks[k as int], *modulo));
                            }
                            return Err(ValueError::FormatError);
                        }
                    }
                    k = k + 1;
                }
                let r = EncryptedValue::SecretBlob {
                    values: out,
                    unencoded_size: *original_size,
                };
                proof {
                    let wchunks = self@.arrow_ShamirSharesBlob_values();
                    assert(wchunks.len() == values@.len());
                    assert forall|q: int| 0 <= q < wchunks.len() implies is_field_bytes(
                        #[trigger] wchunks[q],
                        *modulo,
                    ) by {
                        assert(wchunks[q] == values@[q]@);
                        assert(out@[q]@.wf());
                    }
                    assert(spec_decode(self@, *modulo) is Ok);
                    assert(r@.arrow_SecretBlob_values() =~= spec_decode(
                        self@,
                        *modulo,
                    ).unwrap().arrow_SecretBlob_values());
                }
                Ok(r)
            }
            EncryptedNadaValue::Array { inner_type, values } => {
                let t = match inner_type.into_nada_type() {
                    Ok(t) => t,
                    Err(e) => {
                        return Err(e);
                    }
                };
                let ghost ws = wire_views(values@);
                let mut out: Vec<EncryptedValue> = Vec::new();
                let mut k: usize = 0;
                proof {
                    lemma_wire_views_index(values@);
                    assert(ws.take(0) =~= Seq::empty());
                }
                while k < values.len()
                    invariant
                        *self == (EncryptedNadaValue::Array {
                            inner_type: *inner_type,
                            values: *values,
                        }),
                        t == spec_logical_type(*inner_type).unwrap(),
                        spec_logical_type(*inner_type) is Ok,
                        k <= values@.len(),
                        out@.len() == k,
                        ws == wire_views(values@),
                        ws.len() == values@.len(),
                        forall|q: int| 0 <= q < ws.len() ==> ws[q] == wire_view(values@[q]),
                        spec_decode_seq(ws.take(k as int), *modulo) == Ok::<
                            Seq<EncValue>,
                            ValueError,
                        >(enc_views(out@)),
                    decreases values@.len() - k,
                {
                    proof {
                        vstd::std_specs::vec::axiom_vec_decreases_to_view(*values);
                        vstd::seq::axiom_seq_index_decreases(values@, k as int);
                        assert(decreases_to!(*self => self.arrow_Array_values()));
                        assert(self.arrow_Array_values() == *values);
                        assert(decreases_to!(*self => values@[k as int]));
                    }
                    match values[k].into_nada_value(modulo) {
                        Ok(v) => {
                            proof {
                                let old_out = out@;
                                assert(ws.take(k + 1).drop_last() =~= ws.take(k as int));
                                assert(ws.take(k + 1).last() == ws[k as int]);
                                assert(old_out.push(v).drop_last() =~= old_out);
                            }
                            out.push(v);
                        }
                        Err(e) => {
                            proof {
                                assert(ws[k as int] == (values@[k as int])@);
                                lemma_decode_seq_err(ws, *modulo, k as int, e);
                            }
                            return Err(e);
                        }
                    }
                    k = k + 1;
                }
                proof {
                    assert(ws.take(values@.len() as int) =~= ws);
                    lemma_enc_views_index(out@);
                }
                if out.len() < 1 {
                    return Err(ValueError::FormatError);
                }
                let mut q: usize = 0;
                while q < out.len()
                    invariant
                        *self == (EncryptedNadaValue::Array {
                            inner_type: *inner_type,
                            values: *values,
                        }),
                        t == spec_logical_type(*inner_type).unwrap(),
                        spec_logical_type(*inner_type) is Ok,
                        out@.len() >= 1,
                        q <= out@.len(),
                        spec_decode_seq(wire_views(values@), *modulo) == Ok::<
                            Seq<EncValue>,
                            ValueError,
                        >(enc_views(out@)),
                        forall|j: int|
                            0 <= j < q ==> enc_type_of((#[trigger] out@[j])@) == t,
                    decreases out@.len() - q,
                {
                    let ot = out[q].to_type();
                    if !ot.same_as(&t) {
                        proof {
                            lemma_enc_views_index(out@);
                            let vs = enc_views(out@);
                            assert(enc_type_of(vs[q as int]) != t);
                        }
                        return Err(ValueError::FormatError);
                    }
                    q = q + 1;
                }
                proof {
                    lemma_enc_views_index(out@);
                    let vs = enc_views(out@);
                    assert forall|j: int| 0 <= j < vs.len() implies enc_type_of(
                        #[trigger] vs[j],
                    ) == t by {
                        assert(vs[j] == enc_view(out@[j]));
                        assert(enc_type_of((out@[j])@) == t);
                    }
                }
                Ok(EncryptedValue::Array { inner_type: t, values: out })
            }
            EncryptedNadaValue::Tuple { left, right } => {
                let l = match left.into_nada_value(modulo) {
                    Ok(l) => l,
                    Err(e) => {
                        return Err(e);
                    }
                };
                let r = match right.into_nada_value(modulo) {
                    Ok(r) => r,
                    Err(e) => {
                        return Err(e);
                    }
                };
                Ok(EncryptedValue::Tuple { left: Box::new(l), right: Box::new(r) })
            }
            EncryptedNadaValue::EcdsaMessageDigest { value } => {
                if value.len() != 32 {
                    return Err(ValueError::FormatError);
                }
                Ok(EncryptedValue::EcdsaDigestMessage(copy_bytes(value)))
            }
            EncryptedNadaValue::EcdsaSignature { r, sigma } => {
                let q = secp256k1_order_le();
                if r.len() != 32 {
                    return Err(ValueError::FormatError);
                }
                let rr = reverse_bytes(r);
                if !bytes_lt(&rr, &q) {
                    return Err(ValueError::FormatError);
                }
                if sigma.len() != 32 {
                    return Err(ValueError::FormatError);
                }
                let rs = reverse_bytes(sigma);
                if !bytes_lt(&rs, &q) {
                    return Err(ValueError::FormatError);
                }
                Ok(EncryptedValue::EcdsaSignature { r: copy_bytes(r), sigma: copy_bytes(sigma) })
            }
            EncryptedNadaValue::EcdsaPrivateKey { i, x, shared_public_key, public_shares } => {
                if x.len() != 32 {
                    return Err(ValueError::KeyShareInvalid);
                }
                let x_copy = copy_bytes(x);
                let ghost xc = x_copy@;
                let spk_copy = copy_bytes(shared_public_key);
                let ghost pkc = spk_copy@;
                let shares_copy = copy_byte_mat(public_shares);
                let ghost sc = shares_copy@;
                match PrivateKeyShare::validate_ecdsa(
                    *i,
                    x_copy,
                    spk_copy,
                    shares_copy,
                ) {
                    Ok(s) => {
                        proof {
                            let orig = self@.arrow_EcdsaPrivateKey_public_shares();
                            assert(s@.public_shares.len() == orig.len());
                            assert forall|q: int|
                                0 <= q < orig.len() implies s@.public_shares[q]
                                == #[trigger] orig[q] by {
                                assert(s@.public_shares[q] == sc[q]@);
                                assert(sc[q]@ == public_shares@[q]@);
                                assert(orig[q] == public_shares@[q]@);
                            }
                            assert(s@.public_shares =~= orig);
                        }
                        Ok(EncryptedValue::EcdsaPrivateKey(s))
                    }
                    Err(e) => {
                        proof {
                            let orig = self@.arrow_EcdsaPrivateKey_public_shares();
                            assert(orig.len() == sc.len());
                            assert forall|q: int|
                                0 <= q < orig.len() implies orig[q] == (#[trigger] sc[q])@ by {
                                assert(orig[q] == public_shares@[q]@);
                                assert(sc[q]@ == public_shares@[q]@);
                            }
                            assert forall|q: int|
                                0 <= q < orig.len() implies #[trigger] orig[q] == sc[q]@ by {
                            }
                            let shv = KeyShareV {
                                i: *i,
                                x: x@,
                                shared_public_key: shared_public_key@,
                                public_shares: orig,
                            };
                            assert(xc == x@);
                            assert(pkc == shared_public_key@);
                            assert(x@.len() == 32);
                            if be_val(xc) == 0 || be_val(xc) >= secp256k1_order() || pkc.len() != 33
                                || !secp256k1_nonzero_point(pkc) {
                                assert(!shv.wf_ecdsa());
                            } else {
                                assert(exists|k: int|
                                    0 <= k < sc.len() && ((#[trigger] sc[k])@.len() != 33
                                        || !secp256k1_nonzero_point(sc[k]@)));
                                let k = choose|k: int|
                                    0 <= k < sc.len() && ((#[trigger] sc[k])@.len() != 33
                                        || !secp256k1_nonzero_point(sc[k]@));
                                assert(orig[k] == sc[k]@);
                                assert(orig[k].len() != 33 || !secp256k1_nonzero_point(orig[k]));
                                assert(shv.public_shares == orig);
                                assert(shv.public_shares[k] == orig[k]);
                                assert(!(shv.public_shares[k].len() == 33 && secp256k1_nonzero_point(
                                    shv.public_shares[k],
                                )));
                                assert(!shv.wf_ecdsa());
                            }
                        }
                        Err(e)
                    }
                }
            }
            EncryptedNadaValue::EcdsaPublicKey { value } => {
                if value.len() != 33 {
                    return Err(ValueError::FormatError);
                }
                Ok(EncryptedValue::EcdsaPublicKey(copy_bytes(value)))
            }
            EncryptedNadaValue::StoreId { value } => {
                if value.len() != 16 {
                    return Err(ValueError::FormatError);
                }
                Ok(EncryptedValue::StoreId(copy_bytes(value)))
            }
            EncryptedNadaValue::EddsaPrivateKey { i, x, shared_public_key, public_shares } => {
                if x.len() != 32 {
                    return Err(ValueError::KeyShareInvalid);
                }
                let x_copy = copy_bytes(x);
                let ghost xc = x_copy@;
                let spk_copy = copy_bytes(shared_public_key);
                let ghost pkc = spk_copy@;
                let shares_copy = copy_byte_mat(public_shares);
                let ghost sc = shares_copy@;
                match PrivateKeyShare::validate_eddsa(
                    *i,
                    x_copy,
                    spk_copy,
                    shares_copy,
                ) {
                    Ok(s) => {
                        proof {
                            let orig = self@.arrow_EddsaPrivateKey_public_shares();
                            assert(s@.public_shares.len() == orig.len());
                            assert forall|q: int|
                                0 <= q < orig.len() implies s@.public_shares[q]
                                == #[trigger] orig[q] by {
                                assert(s@.public_shares[q] == sc[q]@);
                                assert(sc[q]@ == public_shares@[q]@);
                                assert(orig[q] == public_shares@[q]@);
                            }
                            assert(s@.public_shares =~= orig);
                        }
                        Ok(EncryptedValue::EddsaPrivateKey(s))
                    }
                    Err(e) => {
                        proof {
                            let orig = self@.arrow_EddsaPrivateKey_public_shares();
                            assert(orig.len() == sc.len());
                            assert forall|q: int|
                                0 <= q < orig.len() implies orig[q] == (#[trigger] sc[q])@ by {
                                assert(orig[q] == public_shares@[q]@);
                                assert(sc[q]@ == public_shares@[q]@);
                            }
                            assert forall|q: int|
                                0 <= q < orig.len() implies #[trigger] orig[q] == sc[q]@ by {
                            }
                            let shv = KeyShareV {
                                i: *i,
                                x: x@,
                                shared_public_key: shared_public_key@,
                                public_shares: orig,
                            };
                            assert(xc == x@);
                            assert(pkc == shared_public_key@);
                            assert(x@.len() == 32);
                            if le_val(xc) == 0 || le_val(xc) >= ed25519_order() || pkc.len() != 32
                                || !ed25519_nonzero_point(pkc) {
                                assert(!shv.wf_eddsa());
                            } else {
                                assert(exists|k: int|
                                    0 <= k < sc.len() && ((#[trigger] sc[k])@.len() != 32
                                        || !ed25519_nonzero_point(sc[k]@)));
                                let k = choose|k: int|
                                    0 <= k < sc.len() && ((#[trigger] sc[k])@.len() != 32
                                        || !ed25519_nonzero_point(sc[k]@));
                                assert(orig[k] == sc[k]@);
                                assert(orig[k].len() != 32 || !ed25519_nonzero_point(orig[k]));
                                assert(shv.public_shares == orig);
                                assert(shv.public_shares[k] == orig[k]);
                                assert(!(shv.public_shares[k].len() == 32 && ed25519_nonzero_point(
                                    shv.public_shares[k],
                                )));
                                assert(!shv.wf_eddsa());
                            }
                        }
                        Err(e)
                    }
                }
            }
            EncryptedNadaValue::EddsaPublicKey { value } => {
                if value.len() != 32 {
                    return Err(ValueError::FormatError);
                }
                Ok(EncryptedValue::EddsaPublicKey(copy_bytes(value)))
            }
            EncryptedNadaValue::EddsaSignature { value } => {
                if value.len() != 64 {
                    return Err(ValueError::FormatError);
                }
                let mut pr: Vec<u8> = Vec::new();
                let mut i: usize = 0;
                while i < 32
                    invariant
                        i <= 32,
                        value@.len() == 64,
                        pr@.len() == i,
                        forall|j: int| 0 <= j < i ==> pr@[j] == value@[j],
                    decreases 32 - i,
                {
                    pr.push(value[i]);
                    i = i + 1;
                }
                let mut pz: Vec<u8> = Vec::new();
                let mut j: usize = 32;
                while j < 64
                    invariant
                        32 <= j <= 64,
                        value@.len() == 64,
                        pz@.len() == j - 32,
                        forall|q: int| 0 <= q < j - 32 ==> pz@[q] == value@[q + 32],
                    decreases 64 - j,
                {
                    pz.push(value[j]);
                    j = j + 1;
                }
                proof {
                    assert(pr@ =~= value@.take(32));
                    assert(pz@ =~= value@.skip(32));
                }
                if !ed25519_point_valid(&pr) {
                    return Err(ValueError::FormatError);
                }
                let q = ed25519_order_le();
                if !bytes_lt(&pz, &q) {
                    return Err(ValueError::FormatError);
                }
                Ok(EncryptedValue::EddsaSignature { r: pr, z: pz })
            }
            EncryptedNadaValue::EddsaMessage { value } => Ok(
                EncryptedValue::EddsaMessage(copy_bytes(value)),
            ),
        }
    }
}

/// Round trip for a run of well-formed encrypted values.
pub proof fn lemma_codec_seq(s: Seq<EncValue>, m: EncodedModulo)
    requires
        forall|k: int| 0 <= k < s.len() ==> enc_wf(#[trigger] s[k], m),
    ensures
        spec_encode_seq(s) is Ok,
        spec_encode_seq(s).unwrap().len() == s.len(),
        spec_decode_seq(spec_encode_seq(s).unwrap(), m) == Ok::<Seq<EncValue>, ValueError>(s),
    decreases s,
{
    if s.len() == 0 {
        assert(spec_decode_seq(Seq::empty(), m) == Ok::<Seq<EncValue>, ValueError>(
            Seq::<EncValue>::empty(),
        ));
        assert(s =~= Seq::<EncValue>::empty());
    } else {
        vstd::seq::axiom_seq_index_decreases(s, s.len() - 1);
        vstd::seq::axiom_seq_subrange_decreases(s, 0, s.len() - 1);
        assert(s.drop_last() == s.subrange(0, s.len() - 1));
        lemma_codec_seq(s.drop_last(), m);
        lemma_decode_encode(s.last(), m);
        let ws = spec_encode_seq(s).unwrap();
        assert(ws.drop_last() =~= spec_encode_seq(s.drop_last()).unwrap());
        assert(ws.last() == spec_encode(s.last()).unwrap());
        assert(spec_decode_seq(ws, m).unwrap() =~= s);
    }
}

impl EncryptedNadaValue {
    /// The display name of this byte-facing value's variant.
    pub fn __str__(&self) -> (r: String)
        ensures
            r@ == spec_wire_name(self@),
    {
        let n: &str = match self {
            EncryptedNadaValue::ShamirShareInteger { .. } => "ShamirShareInteger",
            EncryptedNadaValue::ShamirShareUnsignedInteger { .. } => {
                "ShamirShareUnsignedInteger"
            }
            EncryptedNadaValue::ShamirShareBoolean { .. } => "ShamirShareBoolean",
            EncryptedNadaValue::ShamirSharesBlob { .. } => "ShamirSharesBlob",
            EncryptedNadaValue::PublicInteger { .. } => "Integer",
            EncryptedNadaValue::PublicUnsignedInteger { .. } => "UnsignedInteger",
            EncryptedNadaValue::PublicBoolean { .. } => "Boolean",
            EncryptedNadaValue::Array { .. } => "Array",
            EncryptedNadaValue::Tuple { .. } => "Tuple",
            EncryptedNadaValue::EcdsaMessageDigest { .. } => "EcdsaMessageDigest",
            EncryptedNadaValue::EcdsaSignature { .. } => "EcdsaSignature",
            EncryptedNadaValue::EcdsaPrivateKey { .. } => "EcdsaPrivateKey",
            EncryptedNadaValue::EcdsaPublicKey { .. } => "EcdsaPublicKey",
            EncryptedNadaValue::StoreId { .. } => "StoreId",
            EncryptedNadaValue::EddsaPrivateKey { .. } => "EddsaPrivateKey",
            EncryptedNadaValue::EddsaPublicKey { .. } => "EddsaPublicKey",
            EncryptedNadaValue::EddsaSignature { .. } => "EddsaSignature",
            EncryptedNadaValue::EddsaMessage { .. } => "EddsaMessage",
        };
        n.to_owned()
    }
}

/// The display name of a byte-facing value's variant.
pub open spec fn spec_wire_name(v: WireValue) -> Seq<char> {
    match v {
        WireValue::ShamirShareInteger { .. } => "ShamirShareInteger"@,
        WireValue::ShamirShareUnsignedInteger { .. } => "ShamirShareUnsignedInteger"@,
        WireValue::ShamirShareBoolean { .. } => "ShamirShareBoolean"@,
        WireValue::ShamirSharesBlob { .. } => "ShamirSharesBlob"@,
        WireValue::PublicInteger { .. } => "Integer"@,
        WireValue::PublicUnsignedInteger { .. } => "UnsignedInteger"@,
        WireValue::PublicBoolean { .. } => "Boolean"@,
        WireValue::Array { .. } => "Array"@,
        WireValue::Tuple { .. } => "Tuple"@,
        WireValue::EcdsaMessageDigest { .. } => "EcdsaMessageDigest"@,
        WireValue::EcdsaSignature { .. } => "EcdsaSignature"@,
        WireValue::EcdsaPrivateKey { .. } => "EcdsaPrivateKey"@,
        WireValue::EcdsaPublicKey { .. } => "EcdsaPublicKey"@,
        WireValue::StoreId { .. } => "StoreId"@,
        WireValue::EddsaPrivateKey { .. } => "EddsaPrivateKey"@,
        WireValue::EddsaPublicKey { .. } => "EddsaPublicKey"@,
        WireValue::EddsaSignature { .. } => "EddsaSignature"@,
        WireValue::EddsaMessage { .. } => "EddsaMessage"@,
    }
}

/// The display name of a byte-facing type's variant.
pub open spec fn spec_wire_type_name(t: EncryptedNadaType) -> Seq<char> {
    match t {
        EncryptedNadaType::Integer => "Integer"@,
        EncryptedNadaType::UnsignedInteger => "UnsignedInteger"@,
        EncryptedNadaType::Boolean => "Boolean"@,
        EncryptedNadaType::ShamirShareInteger => "ShamirShareInteger"@,
        EncryptedNadaType::ShamirShareUnsignedInteger => "ShamirShareUnsignedInteger"@,
        EncryptedNadaType::ShamirShareBoolean => "ShamirShareBoolean"@,
        EncryptedNadaType::ShamirShareSecretBlob => "ShamirSharesSecretBlob"@,
        EncryptedNadaType::Array { .. } => "Array"@,
        EncryptedNadaType::Tuple { .. } => "Tuple"@,
        EncryptedNadaType::EcdsaMessageDigest => "EcdsaMessageDigest"@,
        EncryptedNadaType::EcdsaSignature => "EcdsaSignature"@,
        EncryptedNadaType::EcdsaPrivateKey => "EcdsaPrivateKey"@,
        EncryptedNadaType::EcdsaPublicKey => "EcdsaPublicKey"@,
        EncryptedNadaType::StoreId => "StoreId"@,
        EncryptedNadaType::EddsaPrivateKey => "EddsaPrivateKey"@,
        EncryptedNadaType::EddsaPublicKey => "EddsaPublicKey"@,
        EncryptedNadaType::EddsaSignature => "EddsaSignature"@,
        EncryptedNadaType::EddsaMessage => "EddsaMessage"@,
    }
}

impl EncryptedNadaType {
    /// The display name of this byte-facing type's variant.
    pub fn __str__(&self) -> (r: String)
        ensures
            r@ == spec_wire_type_name(*self),
    {
        let n: &str = match self {
            EncryptedNadaType::Integer => "Integer",
            EncryptedNadaType::UnsignedInteger => "UnsignedInteger",
            EncryptedNadaType::Boolean => "Boolean",
            EncryptedNadaType::ShamirShareInteger => "ShamirShareInteger",
            EncryptedNadaType::ShamirShareUnsignedInteger => "ShamirShareUnsignedInteger",
            EncryptedNadaType::ShamirShareBoolean => "ShamirShareBoolean",
            EncryptedNadaType::ShamirShareSecretBlob => "ShamirSharesSecretBlob",
            EncryptedNadaType::Array { .. } => "Array",
            EncryptedNadaType::Tuple { .. } => "Tuple",
            EncryptedNadaType::EcdsaMessageDigest => "EcdsaMessageDigest",
            EncryptedNadaType::EcdsaSignature => "EcdsaSignature",
            EncryptedNadaType::EcdsaPrivateKey => "EcdsaPrivateKey",
            EncryptedNadaType::EcdsaPublicKey => "EcdsaPublicKey",
            EncryptedNadaType::StoreId => "StoreId",
            EncryptedNadaType::EddsaPrivateKey => "EddsaPrivateKey",
            EncryptedNadaType::EddsaPublicKey => "EddsaPublicKey",
            EncryptedNadaType::EddsaSignature => "EddsaSignature",
            EncryptedNadaType::EddsaMessage => "EddsaMessage",
        };
        n.to_owned()
    }
}

} // verus!
