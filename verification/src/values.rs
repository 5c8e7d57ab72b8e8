//! The tagged value algebra: logical types and clear (host-native) values.

use vstd::prelude::*;
use crate::curves::{
    be_val, ed25519_point, is_ed25519_scalar, is_secp256k1_scalar,
    secp256k1_order,
};
use crate::modular::le_val;
use crate::ValueError;

mod array;
mod blob;
mod bool;
mod ecdsa_digest_message;
mod ecdsa_private_key;
mod ecdsa_public_key;
mod ecdsa_signature;
mod eddsa_message;
mod eddsa_private_key;
mod eddsa_public_key;
mod eddsa_signature;
mod integer;
mod store_id;
mod unsigned_integer;

pub use array::Array;
pub use blob::SecretBlob;
pub use bool::{Boolean, SecretBoolean};
pub use ecdsa_digest_message::EcdsaDigestMessage;
pub use ecdsa_private_key::EcdsaPrivateKey;
pub use ecdsa_public_key::EcdsaPublicKey;
pub use ecdsa_signature::EcdsaSignature;
pub use eddsa_message::EddsaMessage;
pub use eddsa_private_key::EddsaPrivateKey;
pub use eddsa_public_key::EddsaPublicKey;
pub use eddsa_signature::EddsaSignature;
pub use integer::{Integer, SecretInteger};
pub use store_id::StoreId;
pub use unsigned_integer::{SecretUnsignedInteger, UnsignedInteger};

verus! {

/// The closed set of logical value types.
#[derive(Debug, PartialEq)]
pub enum NadaType {
    Integer,
    UnsignedInteger,
    Boolean,
    SecretInteger,
    SecretUnsignedInteger,
    SecretBoolean,
    ShamirShareInteger,
    ShamirShareUnsignedInteger,
    ShamirShareBoolean,
    SecretBlob,
    Array { inner_type: Box<NadaType>, size: usize },
    Tuple { left_type: Box<NadaType>, right_type: Box<NadaType> },
    EcdsaPrivateKey,
    EcdsaDigestMessage,
    EcdsaPublicKey,
    EcdsaSignature,
    StoreId,
    EddsaPrivateKey,
    EddsaPublicKey,
    EddsaSignature,
    EddsaMessage,
}

impl NadaType {
    /// Structural equality, usable from verified code.
    pub fn same_as(&self, other: &NadaType) -> (r: bool)
        ensures
            r == (*self == *other),
        decreases *self,
    {
        match (self, other) {
            (NadaType::Integer, NadaType::Integer) => true,
            (NadaType::UnsignedInteger, NadaType::UnsignedInteger) => true,
            (NadaType::Boolean, NadaType::Boolean) => true,
            (NadaType::SecretInteger, NadaType::SecretInteger) => true,
            (NadaType::SecretUnsignedInteger, NadaType::SecretUnsignedInteger) => true,
            (NadaType::SecretBoolean, NadaType::SecretBoolean) => true,
            (NadaType::ShamirShareInteger, NadaType::ShamirShareInteger) => true,
            (NadaType::ShamirShareUnsignedInteger, NadaType::ShamirShareUnsignedInteger) => true,
            (NadaType::ShamirShareBoolean, NadaType::ShamirShareBoolean) => true,
            (NadaType::SecretBlob, NadaType::SecretBlob) => true,
            (
                NadaType::Array { inner_type: a, size: n },
                NadaType::Array { inner_type: b, size: m },
            ) => *n == *m && a.same_as(b),
            (
                NadaType::Tuple { left_type: al, right_type: ar },
                NadaType::Tuple { left_type: bl, right_type: br },
            ) => al.same_as(bl) && ar.same_as(br),
            (NadaType::EcdsaPrivateKey, NadaType::EcdsaPrivateKey) => true,
            (NadaType::EcdsaDigestMessage, NadaType::EcdsaDigestMessage) => true,
            (NadaType::EcdsaPublicKey, NadaType::EcdsaPublicKey) => true,
            (NadaType::EcdsaSignature, NadaType::EcdsaSignature) => true,
            (NadaType::StoreId, NadaType::StoreId) => true,
            (NadaType::EddsaPrivateKey, NadaType::EddsaPrivateKey) => true,
            (NadaType::EddsaPublicKey, NadaType::EddsaPublicKey) => true,
            (NadaType::EddsaSignature, NadaType::EddsaSignature) => true,
            (NadaType::EddsaMessage, NadaType::EddsaMessage) => true,
            _ => false,
        }
    }

    /// An exact copy.
    pub fn duplicate(&self) -> (r: NadaType)
        ensures
            r == *self,
        decreases *self,
    {
        match self {
            NadaType::Integer => NadaType::Integer,
            NadaType::UnsignedInteger => NadaType::UnsignedInteger,
            NadaType::Boolean => NadaType::Boolean,
            NadaType::SecretInteger => NadaType::SecretInteger,
            NadaType::SecretUnsignedInteger => NadaType::SecretUnsignedInteger,
            NadaType::SecretBoolean => NadaType::SecretBoolean,
            NadaType::ShamirShareInteger => NadaType::ShamirShareInteger,
            NadaType::ShamirShareUnsignedInteger => NadaType::ShamirShareUnsignedInteger,
            NadaType::ShamirShareBoolean => NadaType::ShamirShareBoolean,
            NadaType::SecretBlob => NadaType::SecretBlob,
            NadaType::Array { inner_type, size } => NadaType::Array {
                inner_type: Box::new(inner_type.duplicate()),
                size: *size,
            },
            NadaType::Tuple { left_type, right_type } => NadaType::Tuple {
                left_type: Box::new(left_type.duplicate()),
                right_type: Box::new(right_type.duplicate()),
            },
            NadaType::EcdsaPrivateKey => NadaType::EcdsaPrivateKey,
            NadaType::EcdsaDigestMessage => NadaType::EcdsaDigestMessage,
            NadaType::EcdsaPublicKey => NadaType::EcdsaPublicKey,
            NadaType::EcdsaSignature => NadaType::EcdsaSignature,
            NadaType::StoreId => NadaType::StoreId,
            NadaType::EddsaPrivateKey => NadaType::EddsaPrivateKey,
            NadaType::EddsaPublicKey => NadaType::EddsaPublicKey,
            NadaType::EddsaSignature => NadaType::EddsaSignature,
            NadaType::EddsaMessage => NadaType::EddsaMessage,
        }
    }
}

/// A clear (host-native) value of the algebra.
#[derive(Debug, PartialEq)]
pub enum NadaValue {
    Integer(i64),
    UnsignedInteger(u64),
    Boolean(bool),
    SecretInteger(i64),
    SecretUnsignedInteger(u64),
    SecretBoolean(bool),
    SecretBlob(Vec<u8>),
    Array { inner_type: NadaType, values: Vec<NadaValue> },
    Tuple { left: Box<NadaValue>, right: Box<NadaValue> },
    /// A whole signing key: 32 big-endian bytes, non-zero, below the group order.
    EcdsaPrivateKey(Vec<u8>),
    /// A 32-byte message digest.
    EcdsaDigestMessage(Vec<u8>),
    /// A 33-byte compressed public key encoding.
    EcdsaPublicKey(Vec<u8>),
    /// Signature components, 32 big-endian bytes each, non-zero, below the order.
    EcdsaSignature { r: Vec<u8>, s: Vec<u8> },
    /// A 16-byte store identifier.
    StoreId(Vec<u8>),
    /// A whole signing key: 32 little-endian bytes, non-zero, below the order.
    EddsaPrivateKey(Vec<u8>),
    /// A 32-byte public key encoding.
    EddsaPublicKey(Vec<u8>),
    /// A signature: a 32-byte curve point and a 32-byte little-endian scalar.
    EddsaSignature { r: Vec<u8>, z: Vec<u8> },
    /// An arbitrary message to be signed.
    EddsaMessage(Vec<u8>),
}

/// The mathematical model of a clear value: byte strings become sequences,
/// element vectors become sequences of models.
pub enum ClearValue {
    Integer(i64),
    UnsignedInteger(u64),
    Boolean(bool),
    SecretInteger(i64),
    SecretUnsignedInteger(u64),
    SecretBoolean(bool),
    SecretBlob(Seq<u8>),
    Array { inner_type: NadaType, values: Seq<ClearValue> },
    Tuple { left: Box<ClearValue>, right: Box<ClearValue> },
    EcdsaPrivateKey(Seq<u8>),
    EcdsaDigestMessage(Seq<u8>),
    EcdsaPublicKey(Seq<u8>),
    EcdsaSignature { r: Seq<u8>, s: Seq<u8> },
    StoreId(Seq<u8>),
    EddsaPrivateKey(Seq<u8>),
    EddsaPublicKey(Seq<u8>),
    EddsaSignature { r: Seq<u8>, z: Seq<u8> },
    EddsaMessage(Seq<u8>),
}

/// The model of a clear value.
pub open spec fn clear_view(v: NadaValue) -> ClearValue
    decreases v,
    via clear_view_decreases
{
    match v {
        NadaValue::Integer(x) => ClearValue::Integer(x),
        NadaValue::UnsignedInteger(x) => ClearValue::UnsignedInteger(x),
        NadaValue::Boolean(x) => ClearValue::Boolean(x),
        NadaValue::SecretInteger(x) => ClearValue::SecretInteger(x),
        NadaValue::SecretUnsignedInteger(x) => ClearValue::SecretUnsignedInteger(x),
        NadaValue::SecretBoolean(x) => ClearValue::SecretBoolean(x),
        NadaValue::SecretBlob(b) => ClearValue::SecretBlob(b@),
        NadaValue::Array { inner_type, values } => ClearValue::Array {
            inner_type,
            values: clear_views(values@),
        },
        NadaValue::Tuple { left, right } => ClearValue::Tuple {
            left: Box::new(clear_view(*left)),
            right: Box::new(clear_view(*right)),
        },
        NadaValue::EcdsaPrivateKey(b) => ClearValue::EcdsaPrivateKey(b@),
        NadaValue::EcdsaDigestMessage(b) => ClearValue::EcdsaDigestMessage(b@),
        NadaValue::EcdsaPublicKey(b) => ClearValue::EcdsaPublicKey(b@),
        NadaValue::EcdsaSignature { r, s } => ClearValue::EcdsaSignature { r: r@, s: s@ },
        NadaValue::StoreId(b) => ClearValue::StoreId(b@),
        NadaValue::EddsaPrivateKey(b) => ClearValue::EddsaPrivateKey(b@),
        NadaValue::EddsaPublicKey(b) => ClearValue::EddsaPublicKey(b@),
        NadaValue::EddsaSignature { r, z } => ClearValue::EddsaSignature { r: r@, z: z@ },
        NadaValue::EddsaMessage(b) => ClearValue::EddsaMessage(b@),
    }
}

/// The models of a run of clear values.
pub open spec fn clear_views(s: Seq<NadaValue>) -> Seq<ClearValue>
    decreases s,
    via clear_views_decreases
{
    if s.len() == 0 {
        Seq::empty()
    } else {
        clear_views(s.drop_last()).push(clear_view(s.last()))
    }
}

#[via_fn]
proof fn clear_view_decreases(v: NadaValue) {
    match v {
        NadaValue::Array { inner_type, values } => {
            vstd::std_specs::vec::axiom_vec_decreases_to_view(values);
            assert(decreases_to!(v => v.arrow_Array_values()));
            assert(v.arrow_Array_values() == values);
        }
        _ => {}
    }
}

#[via_fn]
proof fn clear_views_decreases(s: Seq<NadaValue>) {
    if s.len() > 0 {
        vstd::seq::axiom_seq_index_decreases(s, s.len() - 1);
        vstd::seq::axiom_seq_subrange_decreases(s, 0, s.len() - 1);
        assert(s.drop_last() == s.subrange(0, s.len() - 1));
        assert(s.last() == s[s.len() - 1]);
    }
}

/// Model runs index pointwise into element models.
pub broadcast proof fn lemma_clear_views_index(s: Seq<NadaValue>)
    ensures
        (#[trigger] clear_views(s)).len() == s.len(),
        forall|i: int| 0 <= i < s.len() ==> clear_views(s)[i] == clear_view(#[trigger] s[i]),
    decreases s.len(),
{
    if s.len() > 0 {
        lemma_clear_views_index(s.drop_last());
        assert forall|i: int| 0 <= i < s.len() implies clear_views(s)[i] == clear_view(
            #[trigger] s[i],
        ) by {
            if i < s.len() - 1 {
                assert(s.drop_last()[i] == s[i]);
                assert(clear_views(s)[i] == clear_views(s.drop_last())[i]);
            } else {
                assert(clear_views(s)[i] == clear_view(s.last()));
            }
        }
    }
}

impl View for NadaValue {
    type V = ClearValue;

    open spec fn view(&self) -> ClearValue {
        clear_view(*self)
    }
}

/// The logical type of a clear value.
pub open spec fn spec_type_of(v: ClearValue) -> NadaType
    decreases v,
{
    match v {
        ClearValue::Integer(_) => NadaType::Integer,
        ClearValue::UnsignedInteger(_) => NadaType::UnsignedInteger,
        ClearValue::Boolean(_) => NadaType::Boolean,
        ClearValue::SecretInteger(_) => NadaType::SecretInteger,
        ClearValue::SecretUnsignedInteger(_) => NadaType::SecretUnsignedInteger,
        ClearValue::SecretBoolean(_) => NadaType::SecretBoolean,
        ClearValue::SecretBlob(_) => NadaType::SecretBlob,
        ClearValue::Array { inner_type, values } => NadaType::Array {
            inner_type: Box::new(inner_type),
            size: values.len() as usize,
        },
        ClearValue::Tuple { left, right } => NadaType::Tuple {
            left_type: Box::new(spec_type_of(*left)),
            right_type: Box::new(spec_type_of(*right)),
        },
        ClearValue::EcdsaPrivateKey(_) => NadaType::EcdsaPrivateKey,
        ClearValue::EcdsaDigestMessage(_) => NadaType::EcdsaDigestMessage,
        ClearValue::EcdsaPublicKey(_) => NadaType::EcdsaPublicKey,
        ClearValue::EcdsaSignature { .. } => NadaType::EcdsaSignature,
        ClearValue::StoreId(_) => NadaType::StoreId,
        ClearValue::EddsaPrivateKey(_) => NadaType::EddsaPrivateKey,
        ClearValue::EddsaPublicKey(_) => NadaType::EddsaPublicKey,
        ClearValue::EddsaSignature { .. } => NadaType::EddsaSignature,
        ClearValue::EddsaMessage(_) => NadaType::EddsaMessage,
    }
}

/// Well-formedness of a clear value: fixed widths hold, key material is
/// non-zero and below its group order, arrays are non-empty and homogeneous.
pub open spec fn clear_wf(v: ClearValue) -> bool
    decreases v,
{
    match v {
        ClearValue::Integer(_) => true,
        ClearValue::UnsignedInteger(_) => true,
        ClearValue::Boolean(_) => true,
        ClearValue::SecretInteger(_) => true,
        ClearValue::SecretUnsignedInteger(_) => true,
        ClearValue::SecretBoolean(_) => true,
        ClearValue::SecretBlob(_) => true,
        ClearValue::Array { inner_type, values } => {
            &&& values.len() >= 1
            &&& values.len() <= usize::MAX
            &&& forall|k: int|
                0 <= k < values.len() ==> spec_type_of(#[trigger] values[k]) == inner_type
            &&& forall|k: int| 0 <= k < values.len() ==> clear_wf(#[trigger] values[k])
        },
        ClearValue::Tuple { left, right } => clear_wf(*left) && clear_wf(*right),
        ClearValue::EcdsaPrivateKey(x) => is_secp256k1_scalar(x) && be_val(x) != 0,
        ClearValue::EcdsaDigestMessage(d) => d.len() == 32,
        ClearValue::EcdsaPublicKey(p) => p.len() == 33,
        ClearValue::EcdsaSignature { r, s } => {
            &&& is_secp256k1_scalar(r) && be_val(r) != 0
            &&& is_secp256k1_scalar(s) && be_val(s) != 0
        },
        ClearValue::StoreId(b) => b.len() == 16,
        ClearValue::EddsaPrivateKey(x) => is_ed25519_scalar(x) && le_val(x) != 0,
        ClearValue::EddsaPublicKey(p) => p.len() == 32,
        ClearValue::EddsaSignature { r, z } => r.len() == 32 && ed25519_point(r)
            && is_ed25519_scalar(z),
        ClearValue::EddsaMessage(_) => true,
    }
}

impl NadaValue {
    /// The logical type of this value.
    pub fn to_type(&self) -> (r: NadaType)
        ensures
            r == spec_type_of(self@),
        decreases *self,
    {
        broadcast use lemma_clear_views_index;

        match self {
            NadaValue::Integer(_) => NadaType::Integer,
            NadaValue::UnsignedInteger(_) => NadaType::UnsignedInteger,
            NadaValue::Boolean(_) => NadaType::Boolean,
            NadaValue::SecretInteger(_) => NadaType::SecretInteger,
            NadaValue::SecretUnsignedInteger(_) => NadaType::SecretUnsignedInteger,
            NadaValue::SecretBoolean(_) => NadaType::SecretBoolean,
            NadaValue::SecretBlob(_) => NadaType::SecretBlob,
            NadaValue::Array { inner_type, values } => {
                proof {
                    lemma_clear_views_index(values@);
                }
                NadaType::Array { inner_type: Box::new(inner_type.duplicate()), size: values.len() }
            }
            NadaValue::Tuple { left, right } => NadaType::Tuple {
                left_type: Box::new(left.to_type()),
                right_type: Box::new(right.to_type()),
            },
            NadaValue::EcdsaPrivateKey(_) => NadaType::EcdsaPrivateKey,
            NadaValue::EcdsaDigestMessage(_) => NadaType::EcdsaDigestMessage,
            NadaValue::EcdsaPublicKey(_) => NadaType::EcdsaPublicKey,
            NadaValue::EcdsaSignature { .. } => NadaType::EcdsaSignature,
            NadaValue::StoreId(_) => NadaType::StoreId,
            NadaValue::EddsaPrivateKey(_) => NadaType::EddsaPrivateKey,
            NadaValue::EddsaPublicKey(_) => NadaType::EddsaPublicKey,
            NadaValue::EddsaSignature { .. } => NadaType::EddsaSignature,
            NadaValue::EddsaMessage(_) => NadaType::EddsaMessage,
        }
    }

    /// A copy with the same model.
    pub fn duplicate(&self) -> (r: NadaValue)
        ensures
            r@ == self@,
        decreases *self,
    {
        broadcast use lemma_clear_views_index;

        match self {
            NadaValue::Integer(x) => NadaValue::Integer(*x),
            NadaValue::UnsignedInteger(x) => NadaValue::UnsignedInteger(*x),
            NadaValue::Boolean(x) => NadaValue::Boolean(*x),
            NadaValue::SecretInteger(x) => NadaValue::SecretInteger(*x),
            NadaValue::SecretUnsignedInteger(x) => NadaValue::SecretUnsignedInteger(*x),
            NadaValue::SecretBoolean(x) => NadaValue::SecretBoolean(*x),
            NadaValue::SecretBlob(b) => NadaValue::SecretBlob(copy_bytes(b)),
            NadaValue::Array { inner_type, values } => {
                let mut out: Vec<NadaValue> = Vec::new();
                let mut k: usize = 0;
                while k < values.len()
                    invariant
                        *self == (NadaValue::Array {
                            inner_type: *inner_type,
                            values: *values,
                        }),
                        k <= values@.len(),
                        out@.len() == k,
                        forall|q: int| 0 <= q < k ==> (#[trigger] out@[q])@ == values@[q]@,
                    decreases values@.len() - k,
                {
                    proof {
                        vstd::std_specs::vec::axiom_vec_decreases_to_view(*values);
                        vstd::seq::axiom_seq_index_decreases(values@, k as int);
                        assert(decreases_to!(*self => self.arrow_Array_values()));
                        assert(self.arrow_Array_values() == *values);
                        assert(decreases_to!(*self => values@[k as int]));
                    }
                    out.push(values[k].duplicate());
                    k = k + 1;
                }
                proof {
                    lemma_clear_views_index(values@);
                    lemma_clear_views_index(out@);
                    assert forall|q: int|
                        0 <= q < out@.len() implies clear_views(out@)[q] == clear_views(
                        values@,
                    )[q] by {
                        assert(clear_views(out@)[q] == clear_view(out@[q]));
                        assert(clear_views(values@)[q] == clear_view(values@[q]));
                        assert((out@[q])@ == (values@[q])@);
                    }
                    assert(clear_views(out@) =~= clear_views(values@));
                }
                NadaValue::Array { inner_type: inner_type.duplicate(), values: out }
            }
            NadaValue::Tuple { left, right } => NadaValue::Tuple {
                left: Box::new(left.duplicate()),
                right: Box::new(right.duplicate()),
            },
            NadaValue::EcdsaPrivateKey(b) => NadaValue::EcdsaPrivateKey(copy_bytes(b)),
            NadaValue::EcdsaDigestMessage(b) => NadaValue::EcdsaDigestMessage(copy_bytes(b)),
            NadaValue::EcdsaPublicKey(b) => NadaValue::EcdsaPublicKey(copy_bytes(b)),
            NadaValue::EcdsaSignature { r, s } => NadaValue::EcdsaSignature {
                r: copy_bytes(r),
                s: copy_bytes(s),
            },
            NadaValue::StoreId(b) => NadaValue::StoreId(copy_bytes(b)),
            NadaValue::EddsaPrivateKey(b) => NadaValue::EddsaPrivateKey(copy_bytes(b)),
            NadaValue::EddsaPublicKey(b) => NadaValue::EddsaPublicKey(copy_bytes(b)),
            NadaValue::EddsaSignature { r, z } => NadaValue::EddsaSignature {
                r: copy_bytes(r),
                z: copy_bytes(z),
            },
            NadaValue::EddsaMessage(b) => NadaValue::EddsaMessage(copy_bytes(b)),
        }
    }

    /// Build an array value: at least one element, all of the declared type.
    pub fn new_array(inner_type: NadaType, values: Vec<NadaValue>) -> (r: Result<
        NadaValue,
        crate::ValueError,
    >)
        requires
            forall|k: int| 0 <= k < values@.len() ==> clear_wf((#[trigger] values@[k])@),
        ensures
            match r {
                Ok(v) => {
                    &&& v@ == clear_view(NadaValue::Array { inner_type, values })
                    &&& clear_wf(v@)
                    &&& values@.len() >= 1
                    &&& forall|k: int|
                        0 <= k < values@.len() ==> spec_type_of((#[trigger] values@[k])@)
                            == inner_type
                },
                Err(e) => {
                    &&& e == crate::ValueError::UnsupportedVariant
                    &&& values@.len() < 1 || exists|k: int|
                        0 <= k < values@.len() && spec_type_of((#[trigger] values@[k])@)
                            != inner_type
                },
            },
    {
        broadcast use lemma_clear_views_index;

        if values.len() < 1 {
            return Err(crate::ValueError::UnsupportedVariant);
        }
        let mut k: usize = 0;
        while k < values.len()
            invariant
                k <= values@.len(),
                forall|q: int|
                    0 <= q < k ==> spec_type_of((#[trigger] values@[q])@) == inner_type,
            decreases values@.len() - k,
        {
            let t = values[k].to_type();
            if !t.same_as(&inner_type) {
                return Err(crate::ValueError::UnsupportedVariant);
            }
            k = k + 1;
        }
        let v = NadaValue::Array { inner_type, values };
        proof {
            lemma_clear_views_index(values@);
            let vs = clear_views(values@);
            assert forall|q: int|
                0 <= q < vs.len() implies spec_type_of(#[trigger] vs[q]) == inner_type
                && clear_wf(vs[q]) by {
                assert(vs[q] == clear_view(values@[q]));
                assert(spec_type_of((values@[q])@) == inner_type);
                assert(clear_wf((values@[q])@));
            }
        }
        Ok(v)
    }

    /// Build a pair of two independently typed values.
    pub fn new_tuple(left: NadaValue, right: NadaValue) -> (r: NadaValue)
        ensures
            r@ == (ClearValue::Tuple {
                left: Box::new(left@),
                right: Box::new(right@),
            }),
    {
        NadaValue::Tuple { left: Box::new(left), right: Box::new(right) }
    }
}

/// A clear value in the form the host boundary hands out: one typed wrapper
/// per supported variant. Pairs and raw share material stay behind the
/// boundary.
#[derive(Debug, PartialEq)]
pub enum HostValue {
    Integer(Integer),
    UnsignedInteger(UnsignedInteger),
    Boolean(Boolean),
    SecretInteger(SecretInteger),
    SecretUnsignedInteger(SecretUnsignedInteger),
    SecretBoolean(SecretBoolean),
    SecretBlob(SecretBlob),
    EcdsaPrivateKey(EcdsaPrivateKey),
    EcdsaDigestMessage(EcdsaDigestMessage),
    EcdsaPublicKey(EcdsaPublicKey),
    EcdsaSignature(EcdsaSignature),
    StoreId(StoreId),
    EddsaPrivateKey(EddsaPrivateKey),
    EddsaPublicKey(EddsaPublicKey),
    EddsaSignature(EddsaSignature),
    EddsaMessage(EddsaMessage),
    Array(Array),
}

/// The clear value a host wrapper holds.
pub open spec fn host_view(h: HostValue) -> ClearValue {
    match h {
        HostValue::Integer(w) => w.inner@,
        HostValue::UnsignedInteger(w) => w.inner@,
        HostValue::Boolean(w) => w.inner@,
        HostValue::SecretInteger(w) => w.inner@,
        HostValue::SecretUnsignedInteger(w) => w.inner@,
        HostValue::SecretBoolean(w) => w.inner@,
        HostValue::SecretBlob(w) => w.inner@,
        HostValue::EcdsaPrivateKey(w) => w.inner@,
        HostValue::EcdsaDigestMessage(w) => w.inner@,
        HostValue::EcdsaPublicKey(w) => w.inner@,
        HostValue::EcdsaSignature(w) => w.inner@,
        HostValue::StoreId(w) => w.inner@,
        HostValue::EddsaPrivateKey(w) => w.inner@,
        HostValue::EddsaPublicKey(w) => w.inner@,
        HostValue::EddsaSignature(w) => w.inner@,
        HostValue::EddsaMessage(w) => w.inner@,
        HostValue::Array(w) => w.inner@,
    }
}

/// Hand a clear value across the host boundary as its typed wrapper; a pair
/// has no host form and is turned away.
pub fn nada_value_clear_to_host(value: NadaValue) -> (r: Result<HostValue, ValueError>)
    requires
        clear_wf(value@),
    ensures
        match r {
            Ok(h) => host_view(h) == value@ && !(value@ is Tuple),
            Err(e) => e == crate::ValueError::UnsupportedVariant && value@ is Tuple,
        },
{
    match value {
        NadaValue::Integer(x) => Ok(HostValue::Integer(Integer::new(x))),
        NadaValue::UnsignedInteger(x) => Ok(
            HostValue::UnsignedInteger(UnsignedInteger::new(x)),
        ),
        NadaValue::Boolean(x) => Ok(HostValue::Boolean(Boolean::new(x))),
        NadaValue::SecretInteger(x) => Ok(HostValue::SecretInteger(SecretInteger::new(x))),
        NadaValue::SecretUnsignedInteger(x) => Ok(
            HostValue::SecretUnsignedInteger(SecretUnsignedInteger::new(x)),
        ),
        NadaValue::SecretBoolean(x) => Ok(HostValue::SecretBoolean(SecretBoolean::new(x))),
        NadaValue::SecretBlob(b) => Ok(HostValue::SecretBlob(SecretBlob::new(b))),
        NadaValue::EcdsaPrivateKey(b) => {
            let v = NadaValue::EcdsaPrivateKey(b);
            match EcdsaPrivateKey::try_from_value(v) {
                Ok(w) => Ok(HostValue::EcdsaPrivateKey(w)),
                Err(_) => {
                    proof {
                        assert(false);
                    }
                    Err(crate::ValueError::UnsupportedVariant)
                }
            }
        }
        NadaValue::EcdsaDigestMessage(b) => {
            let v = NadaValue::EcdsaDigestMessage(b);
            match EcdsaDigestMessage::try_from_value(v) {
                Ok(w) => Ok(HostValue::EcdsaDigestMessage(w)),
                Err(_) => {
                    proof {
                        assert(false);
                    }
                    Err(crate::ValueError::UnsupportedVariant)
                }
            }
        }
        NadaValue::EcdsaPublicKey(b) => {
            let v = NadaValue::EcdsaPublicKey(b);
            match EcdsaPublicKey::try_from_value(v) {
                Ok(w) => Ok(HostValue::EcdsaPublicKey(w)),
                Err(_) => {
                    proof {
                        assert(false);
                    }
                    Err(crate::ValueError::UnsupportedVariant)
                }
            }
        }
        NadaValue::EcdsaSignature { r, s } => {
            let v = NadaValue::EcdsaSignature { r, s };
            match EcdsaSignature::try_from_value(v) {
                Ok(w) => Ok(HostValue::EcdsaSignature(w)),
                Err(_) => {
                    proof {
                        assert(false);
                    }
                    Err(crate::ValueError::UnsupportedVariant)
                }
            }
        }
        NadaValue::StoreId(b) => {
            let v = NadaValue::StoreId(b);
            match StoreId::try_from_value(v) {
                Ok(w) => Ok(HostValue::StoreId(w)),
                Err(_) => {
                    proof {
                        assert(false);
                    }
                    Err(crate::ValueError::UnsupportedVariant)
                }
            }
        }
        NadaValue::EddsaPrivateKey(b) => {
            let v = NadaValue::EddsaPrivateKey(b);
            match EddsaPrivateKey::try_from_value(v) {
                Ok(w) => Ok(HostValue::EddsaPrivateKey(w)),
                Err(_) => {
                    proof {
                        assert(false);
                    }
                    Err(crate::ValueError::UnsupportedVariant)
                }
            }
        }
        NadaValue::EddsaPublicKey(b) => {
            let v = NadaValue::EddsaPublicKey(b);
            match EddsaPublicKey::try_from_value(v) {
                Ok(w) => Ok(HostValue::EddsaPublicKey(w)),
                Err(_) => {
                    proof {
                        assert(false);
                    }
                    Err(crate::ValueError::UnsupportedVariant)
                }
            }
        }
        NadaValue::EddsaSignature { r, z } => {
            let v = NadaValue::EddsaSignature { r, z };
            match EddsaSignature::try_from_value(v) {
                Ok(w) => Ok(HostValue::EddsaSignature(w)),
                Err(_) => {
                    proof {
                        assert(false);
                    }
                    Err(crate::ValueError::UnsupportedVariant)
                }
            }
        }
        NadaValue::EddsaMessage(b) => Ok(HostValue::EddsaMessage(EddsaMessage::new(b))),
        NadaValue::Array { inner_type, values } => {
            let v = NadaValue::Array { inner_type, values };
            match Array::try_from_value(v) {
                Ok(w) => Ok(HostValue::Array(w)),
                Err(_) => {
                    proof {
                        assert(false);
                    }
                    Err(crate::ValueError::UnsupportedVariant)
                }
            }
        }
        NadaValue::Tuple { left, right } => Err(crate::ValueError::UnsupportedVariant),
    }
}

/// Take a typed wrapper back from the host boundary as a clear value.
pub fn host_value_to_nada_value_clear(h: HostValue) -> (r: NadaValue)
    ensures
        r@ == host_view(h),
{
    match h {
        HostValue::Integer(w) => w.inner,
        HostValue::UnsignedInteger(w) => w.inner,
        HostValue::Boolean(w) => w.inner,
        HostValue::SecretInteger(w) => w.inner,
        HostValue::SecretUnsignedInteger(w) => w.inner,
        HostValue::SecretBoolean(w) => w.inner,
        HostValue::SecretBlob(w) => w.inner,
        HostValue::EcdsaPrivateKey(w) => w.inner,
        HostValue::EcdsaDigestMessage(w) => w.inner,
        HostValue::EcdsaPublicKey(w) => w.inner,
        HostValue::EcdsaSignature(w) => w.inner,
        HostValue::StoreId(w) => w.inner,
        HostValue::EddsaPrivateKey(w) => w.inner,
        HostValue::EddsaPublicKey(w) => w.inner,
        HostValue::EddsaSignature(w) => w.inner,
        HostValue::EddsaMessage(w) => w.inner,
        HostValue::Array(w) => w.inner,
    }
}

/// The display name of a clear value's variant.
pub open spec fn spec_value_name(v: ClearValue) -> Seq<char> {
    match v {
        ClearValue::Integer(_) => "Integer"@,
        ClearValue::UnsignedInteger(_) => "UnsignedInteger"@,
        ClearValue::Boolean(_) => "Boolean"@,
        ClearValue::SecretInteger(_) => "SecretInteger"@,
        ClearValue::SecretUnsignedInteger(_) => "SecretUnsignedInteger"@,
        ClearValue::SecretBoolean(_) => "SecretBoolean"@,
        ClearValue::SecretBlob(_) => "SecretBlob"@,
        ClearValue::Array { .. } => "Array"@,
        ClearValue::Tuple { .. } => "Tuple"@,
        ClearValue::EcdsaPrivateKey(_) => "EcdsaPrivateKey"@,
        ClearValue::EcdsaDigestMessage(_) => "EcdsaDigestMessage"@,
        ClearValue::EcdsaPublicKey(_) => "EcdsaPublicKey"@,
        ClearValue::EcdsaSignature { .. } => "EcdsaSignature"@,
        ClearValue::StoreId(_) => "StoreId"@,
        ClearValue::EddsaPrivateKey(_) => "EddsaPrivateKey"@,
        ClearValue::EddsaPublicKey(_) => "EddsaPublicKey"@,
        ClearValue::EddsaSignature { .. } => "EddsaSignature"@,
        ClearValue::EddsaMessage(_) => "EddsaMessage"@,
    }
}

/// The display name of a clear value's variant.
pub fn value_name(v: &NadaValue) -> (r: String)
    ensures
        r@ == spec_value_name(v@),
{
    let n: &str = match v {
        NadaValue::Integer(_) => "Integer",
        NadaValue::UnsignedInteger(_) => "UnsignedInteger",
        NadaValue::Boolean(_) => "Boolean",
        NadaValue::SecretInteger(_) => "SecretInteger",
        NadaValue::SecretUnsignedInteger(_) => "SecretUnsignedInteger",
        NadaValue::SecretBoolean(_) => "SecretBoolean",
        NadaValue::SecretBlob(_) => "SecretBlob",
        NadaValue::Array { .. } => "Array",
        NadaValue::Tuple { .. } => "Tuple",
        NadaValue::EcdsaPrivateKey(_) => "EcdsaPrivateKey",
        NadaValue::EcdsaDigestMessage(_) => "EcdsaDigestMessage",
        NadaValue::EcdsaPublicKey(_) => "EcdsaPublicKey",
        NadaValue::EcdsaSignature { .. } => "EcdsaSignature",
        NadaValue::StoreId(_) => "StoreId",
        NadaValue::EddsaPrivateKey(_) => "EddsaPrivateKey",
        NadaValue::EddsaPublicKey(_) => "EddsaPublicKey",
        NadaValue::EddsaSignature { .. } => "EddsaSignature",
        NadaValue::EddsaMessage(_) => "EddsaMessage",
    };
    n.to_owned()
}

/// The bracketed, comma-separated run of variant names of a run of values.
pub open spec fn spec_names_joined(s: Seq<ClearValue>) -> Seq<char>
    decreases s,
{
    if s.len() == 0 {
        Seq::empty()
    } else if s.len() == 1 {
        spec_value_name(s[0])
    } else {
        spec_names_joined(s.drop_last()) + ", "@ + spec_value_name(s.last())
    }
}

/// An exact copy of a byte string.
pub fn copy_bytes(b: &Vec<u8>) -> (r: Vec<u8>)
    ensures
        r@ == b@,
{
    let mut out: Vec<u8> = Vec::new();
    let mut i: usize = 0;
    while i < b.len()
        invariant
            i <= b@.len(),
            out@.len() == i,
            forall|j: int| 0 <= j < i ==> out@[j] == b@[j],
        decreases b@.len() - i,
    {
        out.push(b[i]);
        i = i + 1;
    }
    proof {
        assert(out@ =~= b@);
    }
    out
}

} // verus!
