//! Typed values for a secret multi-party computation: a tagged value
//! algebra with a lossless byte codec, a per-party collection jar, and the
//! masker that turns named clear values into per-party shares and back.

use vstd::prelude::*;

pub mod chunking;
pub mod curves;
pub mod encrypted_value;
pub mod masker;
pub mod modular;
pub mod programs;
pub mod sharing;
pub mod values;

use crate::chunking::{spec_chunk_at, spec_num_chunks};
use crate::curves::{
    be_val, ed25519_mul_generator, ed25519_order, is_ed25519_scalar, is_secp256k1_scalar,
    rev_bytes, secp256k1_mul_generator, secp256k1_order,
};
use crate::encrypted_value::{enc_type_of, EncValue, EncryptedValue};
use crate::modular::{field_of_int, int_embeds, le_val, EncodedModulo};
use crate::sharing::shares_sum;
use crate::values::{clear_wf, spec_type_of, ClearValue, NadaType, NadaValue};

pub use crate::masker::SecretMasker;

verus! {

/// The failures that the value algebra, the jar and the masker report.
#[derive(Clone, Copy, PartialEq, Eq, Structural, Debug)]
pub enum ValueError {
    /// A byte string has the wrong length for a fixed-width variant.
    FormatError,
    /// A key share carries a zero secret scalar or an invalid or zero public point.
    KeyShareInvalid,
    /// A party tried to contribute twice to the same jar.
    DuplicateParty,
    /// A jar was consumed before every party contributed.
    IncompleteJar,
    /// Masking was asked of a value it does not support.
    MaskingError,
    /// Reconstruction received shares of inconsistent shape or parties.
    ReconstructionError,
    /// The host boundary cannot represent this variant.
    UnsupportedVariant,
    /// A compiled program's static representation could not be parsed.
    ParseError,
}

/// A party identifier: an opaque byte string, compared by content.
#[derive(Debug, PartialEq, Eq, Hash)]
pub struct PartyId {
    pub bytes: Vec<u8>,
}

impl View for PartyId {
    type V = Seq<u8>;

    open spec fn view(&self) -> Seq<u8> {
        self.bytes@
    }
}

impl PartyId {
    /// Returns a new [`PartyId`] holding the given bytes.
    pub fn from_bytes(bytes: Vec<u8>) -> (r: PartyId)
        ensures
            r@ == bytes@,
    {
        PartyId { bytes }
    }

    /// Content equality.
    pub fn same_as(&self, other: &PartyId) -> (r: bool)
        ensures
            r == (self@ == other@),
    {
        crate::modular::bytes_eq(&self.bytes, &other.bytes)
    }

    /// A copy with the same model.
    pub fn duplicate(&self) -> (r: PartyId)
        ensures
            r@ == self@,
    {
        PartyId { bytes: crate::values::copy_bytes(&self.bytes) }
    }
}

/// One party's named encrypted values, as handed to or taken out of a jar.
pub type NamedEncryptedValues = Vec<(String, EncryptedValue)>;

/// A set of named clear values.
pub type NamedValues = Vec<(String, NadaValue)>;

/// Whether a run of jar entries already has a contribution from a party.
pub open spec fn jar_has_party(parties: Seq<Seq<u8>>, id: Seq<u8>) -> bool {
    exists|k: int| 0 <= k < parties.len() && parties[k] == id
}

/// The party identifiers of a jar's entries, in insertion order.
pub open spec fn jar_party_ids(elements: Seq<(PartyId, NamedEncryptedValues)>) -> Seq<Seq<u8>> {
    Seq::new(elements.len(), |k: int| elements[k].0@)
}

/// A jar where every party puts one contribution for a round.
#[derive(Debug)]
pub struct PartyJar {
    /// How many parties the round has; the jar is complete when as many
    /// distinct parties have contributed.
    pub party_count: usize,
    /// The contributions, in insertion order, at most one per party.
    pub elements: Vec<(PartyId, NamedEncryptedValues)>,
}

impl PartyJar {
    /// No party appears twice.
    pub open spec fn wf(self) -> bool {
        forall|a: int, b: int|
            0 <= a < b < self.elements@.len() ==> (#[trigger] self.elements@[a]).0@ != (
            #[trigger] self.elements@[b]).0@
    }

    /// An empty jar for the given number of parties.
    pub fn new(party_count: usize) -> (r: PartyJar)
        ensures
            r.party_count == party_count,
            r.elements@.len() == 0,
            r.wf(),
    {
        PartyJar { party_count, elements: Vec::new() }
    }

    /// Add one party's contribution. A party that already contributed is
    /// turned away and the jar is left unchanged.
    pub fn add_element(&mut self, party: PartyId, values: NamedEncryptedValues) -> (r: Result<
        (),
        ValueError,
    >)
        requires
            old(self).wf(),
        ensures
            final(self).wf(),
            final(self).party_count == old(self).party_count,
            match r {
                Ok(()) => {
                    &&& !jar_has_party(jar_party_ids(old(self).elements@), party@)
                    &&& final(self).elements@ == old(self).elements@.push((party, values))
                },
                Err(e) => {
                    &&& e == ValueError::DuplicateParty
                    &&& jar_has_party(jar_party_ids(old(self).elements@), party@)
                    &&& *final(self) == *old(self)
                },
            },
    {
        let mut k: usize = 0;
        while k < self.elements.len()
            invariant
                k <= self.elements@.len(),
                forall|q: int| 0 <= q < k ==> (#[trigger] self.elements@[q]).0@ != party@,
                self.wf(),
                self.party_count == old(self).party_count,
                *self == *old(self),
            decreases self.elements@.len() - k,
        {
            if self.elements[k].0.same_as(&party) {
                proof {
                    let ids = jar_party_ids(self.elements@);
                    assert(ids[k as int] == party@);
                }
                return Err(ValueError::DuplicateParty);
            }
            k = k + 1;
        }
        proof {
            let ids = jar_party_ids(self.elements@);
            assert forall|q: int| 0 <= q < ids.len() implies #[trigger] ids[q] != party@ by {
                assert(ids[q] == self.elements@[q].0@);
            }
        }
        self.elements.push((party, values));
        Ok(())
    }

    /// Whether every party has contributed.
    pub fn is_full(&self) -> (r: bool)
        ensures
            r == (self.elements@.len() >= self.party_count),
    {
        self.elements.len() >= self.party_count
    }
}

/// A jar of capacity `n` is full exactly when `n` contributions are in, and
/// its contributions are from `n` distinct parties.
pub proof fn lemma_jar_completeness(jar: PartyJar)
    requires
        jar.wf(),
        jar.elements@.len() == jar.party_count,
    ensures
        jar.elements@.len() >= jar.party_count,
        forall|a: int, b: int|
            0 <= a < b < jar.elements@.len() ==> (#[trigger] jar.elements@[a]).0@ != (
            #[trigger] jar.elements@[b]).0@,
{
}

/// Exact per-kind totals of a clear value, as mathematical counts.
pub struct ClassCounts {
    /// Shamir-shared scalar leaves produced for each single party.
    pub shares: nat,
    /// Leaves encoded identically for every party.
    pub public_count: nat,
    /// ECDSA private-key leaves.
    pub key_shares: nat,
    /// ECDSA signature leaves.
    pub signature_shares: nat,
}

/// Pointwise sum of two counts.
pub open spec fn cc_add(a: ClassCounts, b: ClassCounts) -> ClassCounts {
    ClassCounts {
        shares: a.shares + b.shares,
        public_count: a.public_count + b.public_count,
        key_shares: a.key_shares + b.key_shares,
        signature_shares: a.signature_shares + b.signature_shares,
    }
}

/// All-zero counts.
pub open spec fn cc_zero() -> ClassCounts {
    ClassCounts { shares: 0, public_count: 0, key_shares: 0, signature_shares: 0 }
}

/// The exact classification of one clear value under a modulus: how many
/// shared scalar leaves each party will receive for it, how many identical
/// public leaves, and how many ECDSA key and signature leaves it holds.
pub open spec fn classify_value(v: ClearValue, m: EncodedModulo) -> ClassCounts
    decreases v,
{
    match v {
        ClearValue::SecretInteger(_) => ClassCounts {
            shares: 1,
            public_count: 0,
            key_shares: 0,
            signature_shares: 0,
        },
        ClearValue::SecretUnsignedInteger(_) => ClassCounts {
            shares: 1,
            public_count: 0,
            key_shares: 0,
            signature_shares: 0,
        },
        ClearValue::SecretBoolean(_) => ClassCounts {
            shares: 1,
            public_count: 0,
            key_shares: 0,
            signature_shares: 0,
        },
        ClearValue::SecretBlob(d) => ClassCounts {
            shares: spec_num_chunks(d.len(), m),
            public_count: 0,
            key_shares: 0,
            signature_shares: 0,
        },
        ClearValue::Integer(_) => ClassCounts {
            shares: 0,
            public_count: 1,
            key_shares: 0,
            signature_shares: 0,
        },
        ClearValue::UnsignedInteger(_) => ClassCounts {
            shares: 0,
            public_count: 1,
            key_shares: 0,
            signature_shares: 0,
        },
        ClearValue::Boolean(_) => ClassCounts {
            shares: 0,
            public_count: 1,
            key_shares: 0,
            signature_shares: 0,
        },
        ClearValue::Array { inner_type, values } => classify_seq(values, m),
        ClearValue::Tuple { left, right } => cc_add(
            classify_value(*left, m),
            classify_value(*right, m),
        ),
        ClearValue::EcdsaPrivateKey(_) => ClassCounts {
            shares: 0,
            public_count: 0,
            key_shares: 1,
            signature_shares: 0,
        },
        ClearValue::EcdsaSignature { .. } => ClassCounts {
            shares: 0,
            public_count: 0,
            key_shares: 0,
            signature_shares: 1,
        },
        ClearValue::EcdsaDigestMessage(_) => ClassCounts {
            shares: 0,
            public_count: 1,
            key_shares: 0,
            signature_shares: 0,
        },
        ClearValue::EcdsaPublicKey(_) => ClassCounts {
            shares: 0,
            public_count: 1,
            key_shares: 0,
            signature_shares: 0,
        },
        ClearValue::StoreId(_) => ClassCounts {
            shares: 0,
            public_count: 1,
            key_shares: 0,
            signature_shares: 0,
        },
        // EdDSA key material and signatures have no counters of their own.
        ClearValue::EddsaPrivateKey(_) => cc_zero(),
        ClearValue::EddsaSignature { .. } => cc_zero(),
        ClearValue::EddsaPublicKey(_) => ClassCounts {
            shares: 0,
            public_count: 1,
            key_shares: 0,
            signature_shares: 0,
        },
        ClearValue::EddsaMessage(_) => ClassCounts {
            shares: 0,
            public_count: 1,
            key_shares: 0,
            signature_shares: 0,
        },
    }
}

/// The summed classification of a run of clear values.
pub open spec fn classify_seq(s: Seq<ClearValue>, m: EncodedModulo) -> ClassCounts
    decreases s,
{
    if s.len() == 0 {
        cc_zero()
    } else {
        cc_add(classify_seq(s.drop_last(), m), classify_value(s.last(), m))
    }
}

/// A classification of named clear values: the masker's capacity-planning
/// summary, each counter saturating at the machine-word maximum.
#[derive(Clone, Copy, PartialEq, Eq, Structural, Debug)]
pub struct NadaValuesClassification {
    /// The number of shares
    pub shares: u64,
    /// The number of public values
    pub public: u64,
    /// The number of ecdsa key shares
    pub ecdsa_private_key_shares: u64,
    /// The number of ecdsa signatures shares
    pub ecdsa_signature_shares: u64,
}

/// A count clipped to the machine-word maximum.
pub open spec fn sat64(n: nat) -> nat {
    if n > u64::MAX {
        u64::MAX as nat
    } else {
        n
    }
}

/// Saturating add on machine words.
pub fn sat_add64(a: u64, b: u64) -> (r: u64)
    ensures
        r == sat64((a + b) as nat),
{
    if a > u64::MAX - b {
        u64::MAX
    } else {
        a + b
    }
}

/// The masked form of a logical type: clear secret scalars become their
/// share types, everything else keeps its shape.
pub open spec fn spec_masked_type(t: NadaType) -> NadaType
    decreases t,
{
    match t {
        NadaType::SecretInteger => NadaType::ShamirShareInteger,
        NadaType::SecretUnsignedInteger => NadaType::ShamirShareUnsignedInteger,
        NadaType::SecretBoolean => NadaType::ShamirShareBoolean,
        NadaType::Array { inner_type, size } => NadaType::Array {
            inner_type: Box::new(spec_masked_type(*inner_type)),
            size,
        },
        NadaType::Tuple { left_type, right_type } => NadaType::Tuple {
            left_type: Box::new(spec_masked_type(*left_type)),
            right_type: Box::new(spec_masked_type(*right_type)),
        },
        _ => t,
    }
}

/// How one clear value relates to the run of encrypted values the parties
/// receive for it, one entry per party: public leaves are encoded
/// identically for every party; secret scalar and blob leaves are split so
/// that the parties' shares sum back to the encoded secret; signature and
/// private-key scalars are split over their curve's group order; composites
/// keep their structure pointwise.
pub open spec fn masked_rel(v: ClearValue, outs: Seq<EncValue>, m: EncodedModulo) -> bool
    decreases v,
{
    let p = m.spec_prime();
    let n = outs.len();
    match v {
        ClearValue::SecretInteger(x) => {
            &&& int_embeds(x as int, p)
            &&& forall|j: int|
                0 <= j < n ==> (#[trigger] outs[j]) is ShamirShareInteger && outs[j].arrow_ShamirShareInteger_0().wf() && outs[j].arrow_ShamirShareInteger_0().modulo
                    == m
            &&& shares_sum(
                Seq::new(n, |j: int| outs[j].arrow_ShamirShareInteger_0().value),
                p,
            ) == field_of_int(x as int, p)
        },
        ClearValue::SecretUnsignedInteger(x) => {
            &&& (x as nat) < p
            &&& forall|j: int|
                0 <= j < n ==> (#[trigger] outs[j]) is ShamirShareUnsignedInteger && outs[j].arrow_ShamirShareUnsignedInteger_0().wf() && outs[j].arrow_ShamirShareUnsignedInteger_0().modulo == m
            &&& shares_sum(
                Seq::new(n, |j: int| outs[j].arrow_ShamirShareUnsignedInteger_0().value),
                p,
            ) == x as nat
        },
        ClearValue::SecretBoolean(b) => {
            &&& forall|j: int|
                0 <= j < n ==> (#[trigger] outs[j]) is ShamirShareBoolean && outs[j].arrow_ShamirShareBoolean_0().wf() && outs[j].arrow_ShamirShareBoolean_0().modulo
                    == m
            &&& shares_sum(Seq::new(n, |j: int| outs[j].arrow_ShamirShareBoolean_0().value), p)
                == if b {
                1nat
            } else {
                0nat
            }
        },
        ClearValue::SecretBlob(data) => {
            &&& forall|j: int|
                0 <= j < n ==> (#[trigger] outs[j]) is SecretBlob && outs[j].arrow_SecretBlob_unencoded_size() == data.len() && outs[j].arrow_SecretBlob_values().len() == spec_num_chunks(data.len(), m) && (forall|
                    c: int,
                |
                    0 <= c < outs[j].arrow_SecretBlob_values().len() ==> (#[trigger] outs[j].arrow_SecretBlob_values()[c]).wf() && outs[j].arrow_SecretBlob_values()[c].modulo == m)
            &&& forall|c: int|
                0 <= c < spec_num_chunks(data.len(), m) ==> shares_sum(
                    Seq::new(n, |j: int| outs[j].arrow_SecretBlob_values()[c].value),
                    p,
                ) == le_val(#[trigger] spec_chunk_at(data, m, c))
        },
        ClearValue::Integer(x) => {
            &&& int_embeds(x as int, p)
            &&& forall|j: int|
                0 <= j < n ==> (#[trigger] outs[j]) is Integer && outs[j].arrow_Integer_0().wf()
                    && outs[j].arrow_Integer_0().modulo == m && outs[j].arrow_Integer_0().val()
                    == field_of_int(x as int, p)
        },
        ClearValue::UnsignedInteger(x) => {
            &&& (x as nat) < p
            &&& forall|j: int|
                0 <= j < n ==> (#[trigger] outs[j]) is UnsignedInteger && outs[j].arrow_UnsignedInteger_0().wf() && outs[j].arrow_UnsignedInteger_0().modulo == m
                    && outs[j].arrow_UnsignedInteger_0().val() == x as nat
        },
        ClearValue::Boolean(b) => {
            &&& forall|j: int|
                0 <= j < n ==> (#[trigger] outs[j]) is Boolean && outs[j].arrow_Boolean_0().wf()
                    && outs[j].arrow_Boolean_0().modulo == m && outs[j].arrow_Boolean_0().val()
                    == if b {
                    1nat
                } else {
                    0nat
                }
        },
        ClearValue::Array { inner_type, values } => {
            &&& forall|j: int|
                0 <= j < n ==> (#[trigger] outs[j]) is Array && outs[j].arrow_Array_inner_type()
                    == spec_masked_type(inner_type) && outs[j].arrow_Array_values().len()
                    == values.len()
            &&& forall|k: int|
                0 <= k < values.len() ==> masked_rel(
                    #[trigger] values[k],
                    Seq::new(n, |j: int| outs[j].arrow_Array_values()[k]),
                    m,
                )
        },
        ClearValue::Tuple { left, right } => {
            &&& forall|j: int| 0 <= j < n ==> (#[trigger] outs[j]) is Tuple
            &&& masked_rel(*left, Seq::new(n, |j: int| *outs[j].arrow_Tuple_left()), m)
            &&& masked_rel(*right, Seq::new(n, |j: int| *outs[j].arrow_Tuple_right()), m)
        },
        ClearValue::EcdsaDigestMessage(d) => forall|j: int|
            0 <= j < n ==> (#[trigger] outs[j]) == EncValue::EcdsaDigestMessage(d),
        ClearValue::EcdsaPublicKey(pk) => forall|j: int|
            0 <= j < n ==> (#[trigger] outs[j]) == EncValue::EcdsaPublicKey(pk),
        ClearValue::StoreId(b) => forall|j: int|
            0 <= j < n ==> (#[trigger] outs[j]) == EncValue::StoreId(b),
        ClearValue::EddsaPublicKey(pk) => forall|j: int|
            0 <= j < n ==> (#[trigger] outs[j]) == EncValue::EddsaPublicKey(pk),
        ClearValue::EddsaMessage(msg) => forall|j: int|
            0 <= j < n ==> (#[trigger] outs[j]) == EncValue::EddsaMessage(msg),
        ClearValue::EcdsaSignature { r, s } => {
            &&& forall|j: int|
                0 <= j < n ==> (#[trigger] outs[j]) is EcdsaSignature && outs[j].arrow_EcdsaSignature_r() == r && is_secp256k1_scalar(
                    outs[j].arrow_EcdsaSignature_sigma(),
                )
            &&& shares_sum(
                Seq::new(n, |j: int| rev_bytes(outs[j].arrow_EcdsaSignature_sigma())),
                secp256k1_order(),
            ) == be_val(s)
        },
        ClearValue::EcdsaPrivateKey(x) => {
            &&& n <= 0xffff
            &&& forall|j: int|
                0 <= j < n ==> (#[trigger] outs[j]) is EcdsaPrivateKey && outs[j].arrow_EcdsaPrivateKey_0().wf_ecdsa() && outs[j].arrow_EcdsaPrivateKey_0().i == j
                    + 1 && outs[j].arrow_EcdsaPrivateKey_0().shared_public_key
                    == secp256k1_mul_generator(x) && outs[j].arrow_EcdsaPrivateKey_0().public_shares.len() == n && (forall|t: int|
                    0 <= t < n ==> #[trigger] outs[j].arrow_EcdsaPrivateKey_0().public_shares[t]
                        == secp256k1_mul_generator(outs[t].arrow_EcdsaPrivateKey_0().x))
            &&& shares_sum(
                Seq::new(n, |j: int| rev_bytes(outs[j].arrow_EcdsaPrivateKey_0().x)),
                secp256k1_order(),
            ) == be_val(x)
        },
        ClearValue::EddsaPrivateKey(x) => {
            &&& n <= 0xffff
            &&& forall|j: int|
                0 <= j < n ==> (#[trigger] outs[j]) is EddsaPrivateKey && outs[j].arrow_EddsaPrivateKey_0().wf_eddsa() && outs[j].arrow_EddsaPrivateKey_0().i == j
                    + 1 && outs[j].arrow_EddsaPrivateKey_0().shared_public_key
                    == ed25519_mul_generator(x) && outs[j].arrow_EddsaPrivateKey_0().public_shares.len() == n && (forall|t: int|
                    0 <= t < n ==> #[trigger] outs[j].arrow_EddsaPrivateKey_0().public_shares[t]
                        == ed25519_mul_generator(outs[t].arrow_EddsaPrivateKey_0().x))
            &&& shares_sum(
                Seq::new(n, |j: int| outs[j].arrow_EddsaPrivateKey_0().x),
                ed25519_order(),
            ) == le_val(x)
        },
        ClearValue::EddsaSignature { r, z } => {
            &&& forall|j: int|
                0 <= j < n ==> (#[trigger] outs[j]) is EddsaSignature && outs[j].arrow_EddsaSignature_r() == r && is_ed25519_scalar(
                    outs[j].arrow_EddsaSignature_z(),
                )
            &&& shares_sum(
                Seq::new(n, |j: int| outs[j].arrow_EddsaSignature_z()),
                ed25519_order(),
            ) == le_val(z)
        },
    }
}

/// Whether a clear value can be masked under a modulus: every numeric leaf
/// must embed in the configured field; every other well-formed leaf always
/// masks.
pub open spec fn maskable(v: ClearValue, m: EncodedModulo) -> bool
    decreases v,
{
    match v {
        ClearValue::SecretInteger(x) => int_embeds(x as int, m.spec_prime()),
        ClearValue::Integer(x) => int_embeds(x as int, m.spec_prime()),
        ClearValue::SecretUnsignedInteger(x) => (x as nat) < m.spec_prime(),
        ClearValue::UnsignedInteger(x) => (x as nat) < m.spec_prime(),
        ClearValue::Array { inner_type, values } => forall|k: int|
            0 <= k < values.len() ==> maskable(#[trigger] values[k], m),
        ClearValue::Tuple { left, right } => maskable(*left, m) && maskable(*right, m),
        _ => true,
    }
}

/// How many Shamir-shared scalar leaves one party's encrypted value holds.
pub open spec fn enc_share_count(v: EncValue) -> nat
    decreases v,
{
    match v {
        EncValue::ShamirShareInteger(_) => 1,
        EncValue::ShamirShareUnsignedInteger(_) => 1,
        EncValue::ShamirShareBoolean(_) => 1,
        EncValue::SecretBlob { values, .. } => values.len(),
        EncValue::Array { values, .. } => enc_share_count_seq(values),
        EncValue::Tuple { left, right } => enc_share_count(*left) + enc_share_count(*right),
        _ => 0,
    }
}

/// The summed share count of a run of encrypted values.
pub open spec fn enc_share_count_seq(s: Seq<EncValue>) -> nat
    decreases s,
{
    if s.len() == 0 {
        0
    } else {
        enc_share_count_seq(s.drop_last()) + enc_share_count(s.last())
    }
}

/// Classification consistency: for any clear value, the `shares` counter of
/// its classification equals the number of Shamir-shared scalar leaves in
/// any single party's masked output for it.
pub proof fn lemma_classification_consistency(
    v: ClearValue,
    outs: Seq<EncValue>,
    m: EncodedModulo,
    j: int,
)
    requires
        clear_wf(v),
        masked_rel(v, outs, m),
        0 <= j < outs.len(),
    ensures
        enc_share_count(outs[j]) == classify_value(v, m).shares,
    decreases v,
{
    match v {
        ClearValue::Array { inner_type, values } => {
            lemma_classification_seq(values, outs, m, j);
        }
        ClearValue::Tuple { left, right } => {
            let lcol = Seq::new(outs.len(), |j2: int| *outs[j2].arrow_Tuple_left());
            let rcol = Seq::new(outs.len(), |j2: int| *outs[j2].arrow_Tuple_right());
            lemma_classification_consistency(*left, lcol, m, j);
            lemma_classification_consistency(*right, rcol, m, j);
            assert(lcol[j] == *outs[j].arrow_Tuple_left());
            assert(rcol[j] == *outs[j].arrow_Tuple_right());
        }
        _ => {}
    }
}

/// Classification consistency over an array's elements.
proof fn lemma_classification_seq(
    values: Seq<ClearValue>,
    outs: Seq<EncValue>,
    m: EncodedModulo,
    j: int,
)
    requires
        0 <= j < outs.len(),
        forall|j2: int| 0 <= j2 < outs.len() ==> (#[trigger] outs[j2]) is Array,
        forall|j2: int|
            0 <= j2 < outs.len() ==> (#[trigger] outs[j2]).arrow_Array_values().len()
                == values.len(),
        forall|k: int| 0 <= k < values.len() ==> clear_wf(#[trigger] values[k]),
        forall|k: int|
            0 <= k < values.len() ==> masked_rel(
                #[trigger] values[k],
                Seq::new(outs.len(), |j2: int| outs[j2].arrow_Array_values()[k]),
                m,
            ),
    ensures
        enc_share_count_seq(outs[j].arrow_Array_values()) == classify_seq(values, m).shares,
    decreases values,
{
    let inner = outs[j].arrow_Array_values();
    if values.len() == 0 {
        assert(inner =~= Seq::<EncValue>::empty());
    } else {
        let k = values.len() - 1;
        let col = Seq::new(outs.len(), |j2: int| outs[j2].arrow_Array_values()[k]);
        lemma_classification_consistency(values[k], col, m, j);
        assert(col[j] == inner[k]);
        // Recurse on the shorter runs: each party's array without its last
        // element.
        let outs2 = Seq::new(
            outs.len(),
            |j2: int| EncValue::Array {
                inner_type: outs[j2].arrow_Array_inner_type(),
                values: outs[j2].arrow_Array_values().drop_last(),
            },
        );
        assert forall|k2: int| 0 <= k2 < values.drop_last().len() implies masked_rel(
            #[trigger] values.drop_last()[k2],
            Seq::new(outs2.len(), |j2: int| outs2[j2].arrow_Array_values()[k2]),
            m,
        ) by {
            assert(values.drop_last()[k2] == values[k2]);
            assert(Seq::new(outs2.len(), |j2: int| outs2[j2].arrow_Array_values()[k2])
                =~= Seq::new(outs.len(), |j2: int| outs[j2].arrow_Array_values()[k2]));
        }
        lemma_classification_seq(values.drop_last(), outs2, m, j);
        assert(outs2[j].arrow_Array_values() =~= inner.drop_last());
    }
}

/// Masking pins the clear values down: two clear values that stand in the
/// masking relation with one and the same run of per-party encrypted values
/// are equal. Together with the masker's contracts this is the mask/unmask
/// identity: whatever `unmask` returns for a complete jar of `mask`'s output
/// is the original value set.
pub proof fn lemma_mask_determines(
    v1: ClearValue,
    v2: ClearValue,
    outs: Seq<EncValue>,
    m: EncodedModulo,
)
    requires
        clear_wf(v1),
        clear_wf(v2),
        masked_rel(v1, outs, m),
        masked_rel(v2, outs, m),
        outs.len() >= 1,
    ensures
        v1 == v2,
    decreases v1,
{
    let p = m.spec_prime();
    let n = outs.len();
    match v1 {
        ClearValue::SecretInteger(x1) => {
            let x2 = v2.arrow_SecretInteger_0();
            crate::modular::lemma_int_field_roundtrip(x1 as int, p);
            crate::modular::lemma_int_field_roundtrip(x2 as int, p);
        }
        ClearValue::Integer(x1) => {
            let x2 = v2.arrow_Integer_0();
            crate::modular::lemma_int_field_roundtrip(x1 as int, p);
            crate::modular::lemma_int_field_roundtrip(x2 as int, p);
        }
        ClearValue::SecretBlob(d1) => {
            let d2 = v2.arrow_SecretBlob_0();
            assert(d1.len() == d2.len());
            lemma_blob_determined(d1, d2, outs, m);
        }
        ClearValue::EcdsaSignature { r: r1, s: s1 } => {
            let r2 = v2.arrow_EcdsaSignature_r();
            let s2 = v2.arrow_EcdsaSignature_s();
            assert(r1 == r2);
            lemma_be_injective(s1, s2);
        }
        ClearValue::EcdsaPrivateKey(x1) => {
            let x2 = v2.arrow_EcdsaPrivateKey_0();
            lemma_be_injective(x1, x2);
        }
        ClearValue::EddsaPrivateKey(x1) => {
            let x2 = v2.arrow_EddsaPrivateKey_0();
            crate::modular::lemma_le_val_injective(x1, x2);
        }
        ClearValue::EddsaSignature { r: r1, z: z1 } => {
            let z2 = v2.arrow_EddsaSignature_z();
            crate::modular::lemma_le_val_injective(z1, z2);
        }
        ClearValue::Array { inner_type: it1, values: vs1 } => {
            let it2 = v2.arrow_Array_inner_type();
            let vs2 = v2.arrow_Array_values();
            assert(vs1.len() == outs[0].arrow_Array_values().len());
            assert(vs2.len() == outs[0].arrow_Array_values().len());
            assert forall|k: int| 0 <= k < vs1.len() implies #[trigger] vs1[k] == vs2[k] by {
                let col = Seq::new(n, |j: int| outs[j].arrow_Array_values()[k]);
                lemma_mask_determines(vs1[k], vs2[k], col, m);
            }
            assert(vs1 =~= vs2);
            assert(spec_type_of(vs1[0]) == it1);
            assert(spec_type_of(vs2[0]) == it2);
        }
        ClearValue::Tuple { left: l1, right: r1 } => {
            let l2 = v2.arrow_Tuple_left();
            let r2 = v2.arrow_Tuple_right();
            let lcol = Seq::new(n, |j: int| *outs[j].arrow_Tuple_left());
            let rcol = Seq::new(n, |j: int| *outs[j].arrow_Tuple_right());
            lemma_mask_determines(*l1, *l2, lcol, m);
            lemma_mask_determines(*r1, *r2, rcol, m);
        }
        _ => {}
    }
}

/// Equal big-endian values of one width mean equal bytes.
proof fn lemma_be_injective(a: Seq<u8>, b: Seq<u8>)
    requires
        a.len() == b.len(),
        be_val(a) == be_val(b),
    ensures
        a == b,
{
    crate::modular::lemma_le_val_injective(
        crate::curves::rev_bytes(a),
        crate::curves::rev_bytes(b),
    );
    crate::curves::lemma_rev_rev(a);
    crate::curves::lemma_rev_rev(b);
    assert(crate::curves::rev_bytes(a) == crate::curves::rev_bytes(b));
}

/// Two blobs whose chunk runs carry the same field values are one blob.
proof fn lemma_blob_determined(d1: Seq<u8>, d2: Seq<u8>, outs: Seq<EncValue>, m: EncodedModulo)
    requires
        d1.len() == d2.len(),
        outs.len() >= 1,
        masked_rel(ClearValue::SecretBlob(d1), outs, m),
        masked_rel(ClearValue::SecretBlob(d2), outs, m),
    ensures
        d1 == d2,
{
    let cs = crate::chunking::spec_chunk_len(m) as int;
    assert forall|i: int| 0 <= i < d1.len() implies d1[i] == d2[i] by {
        let c = i / cs;
        let o = i % cs;
        vstd::arithmetic::div_mod::lemma_fundamental_div_mod(i, cs);
        vstd::arithmetic::div_mod::lemma_remainder_lower(i, cs);
        vstd::arithmetic::div_mod::lemma_remainder_upper(i, cs);
        vstd::arithmetic::div_mod::lemma_div_pos_is_pos(i, cs);
        // The chunk this byte sits in exists.
        assert(0 <= c && 0 <= o < cs);
        assert(c * cs + o == i) by {
            assert(i == cs * c + o);
            assert(cs * c == c * cs) by (nonlinear_arith);
        }
        assert(c < spec_num_chunks(d1.len(), m)) by {
            if d1.len() > 0 {
                assert((d1.len() + cs - 1) as int / cs == (d1.len() - 1) as int / cs + 1) by {
                    vstd::arithmetic::div_mod::lemma_div_plus_one((d1.len() - 1) as int, cs);
                }
                vstd::arithmetic::div_mod::lemma_div_is_ordered(i, (d1.len() - 1) as int, cs);
            }
        }
        let n1 = le_val(spec_chunk_at(d1, m, c));
        let n2 = le_val(spec_chunk_at(d2, m, c));
        let col = Seq::new(
            outs.len(),
            |j: int| outs[j].arrow_SecretBlob_values()[c].value,
        );
        assert(shares_sum(col, m.spec_prime()) == le_val(spec_chunk_at(d1, m, c)));
        assert(shares_sum(col, m.spec_prime()) == le_val(spec_chunk_at(d2, m, c)));
        assert(n1 == n2);
        crate::modular::lemma_le_val_injective(spec_chunk_at(d1, m, c), spec_chunk_at(d2, m, c));
        assert(spec_chunk_at(d1, m, c)[o] == d1[i]);
        assert(spec_chunk_at(d2, m, c)[o] == d2[i]);
    }
    assert(d1 =~= d2);
}

/// The clear form that reconstruction gives a masked logical type back:
/// share types become their secret scalar types, everything else keeps its
/// shape.
pub open spec fn spec_unmasked_type(t: NadaType) -> NadaType
    decreases t,
{
    match t {
        NadaType::ShamirShareInteger => NadaType::SecretInteger,
        NadaType::ShamirShareUnsignedInteger => NadaType::SecretUnsignedInteger,
        NadaType::ShamirShareBoolean => NadaType::SecretBoolean,
        NadaType::Array { inner_type, size } => NadaType::Array {
            inner_type: Box::new(spec_unmasked_type(*inner_type)),
            size,
        },
        NadaType::Tuple { left_type, right_type } => NadaType::Tuple {
            left_type: Box::new(spec_unmasked_type(*left_type)),
            right_type: Box::new(spec_unmasked_type(*right_type)),
        },
        _ => t,
    }
}

/// A type with no raw share type anywhere inside: the types clear values
/// can have.
pub open spec fn is_clear_type(t: NadaType) -> bool
    decreases t,
{
    match t {
        NadaType::ShamirShareInteger => false,
        NadaType::ShamirShareUnsignedInteger => false,
        NadaType::ShamirShareBoolean => false,
        NadaType::Array { inner_type, .. } => is_clear_type(*inner_type),
        NadaType::Tuple { left_type, right_type } => is_clear_type(*left_type) && is_clear_type(
            *right_type,
        ),
        _ => true,
    }
}

/// Every well-formed clear value has a clear type.
pub proof fn lemma_type_of_is_clear(v: ClearValue)
    requires
        clear_wf(v),
    ensures
        is_clear_type(spec_type_of(v)),
    decreases v,
{
    match v {
        ClearValue::Array { inner_type, values } => {
            assert(clear_wf(values[0]));
            assert(spec_type_of(values[0]) == inner_type);
            lemma_type_of_is_clear(values[0]);
        }
        ClearValue::Tuple { left, right } => {
            lemma_type_of_is_clear(*left);
            lemma_type_of_is_clear(*right);
        }
        _ => {}
    }
}

/// On clear types, unmasking undoes masking.
pub proof fn lemma_unmask_mask_type(t: NadaType)
    requires
        is_clear_type(t),
    ensures
        spec_unmasked_type(spec_masked_type(t)) == t,
    decreases t,
{
    match t {
        NadaType::Array { inner_type, .. } => {
            lemma_unmask_mask_type(*inner_type);
        }
        NadaType::Tuple { left_type, right_type } => {
            lemma_unmask_mask_type(*left_type);
            lemma_unmask_mask_type(*right_type);
        }
        _ => {}
    }
}

/// A masked run determines the clear value's type: it is the unmasked form
/// of any one party's encrypted type.
pub proof fn lemma_masked_rel_type(v: ClearValue, outs: Seq<EncValue>, m: EncodedModulo)
    requires
        clear_wf(v),
        masked_rel(v, outs, m),
        outs.len() >= 1,
    ensures
        spec_type_of(v) == spec_unmasked_type(enc_type_of(outs[0])),
    decreases v,
{
    let n = outs.len();
    match v {
        ClearValue::Array { inner_type, values } => {
            assert(values.len() >= 1);
            let col0 = Seq::new(n, |j: int| outs[j].arrow_Array_values()[0]);
            assert(masked_rel(values[0], col0, m));
            assert(clear_wf(values[0]));
            lemma_masked_rel_type(values[0], col0, m);
            assert(col0[0] == outs[0].arrow_Array_values()[0]);
            assert(spec_type_of(values[0]) == inner_type);
            lemma_type_of_is_clear(values[0]);
            lemma_unmask_mask_type(inner_type);
            assert(outs[0].arrow_Array_inner_type() == spec_masked_type(inner_type));
        }
        ClearValue::Tuple { left, right } => {
            let lcol = Seq::new(n, |j: int| *outs[j].arrow_Tuple_left());
            let rcol = Seq::new(n, |j: int| *outs[j].arrow_Tuple_right());
            lemma_masked_rel_type(*left, lcol, m);
            lemma_masked_rel_type(*right, rcol, m);
            assert(lcol[0] == *outs[0].arrow_Tuple_left());
            assert(rcol[0] == *outs[0].arrow_Tuple_right());
        }
        _ => {}
    }
}

/// The masked form of a logical type.
pub fn masked_type(t: &NadaType) -> (r: NadaType)
    ensures
        r == spec_masked_type(*t),
    decreases *t,
{
    match t {
        NadaType::SecretInteger => NadaType::ShamirShareInteger,
        NadaType::SecretUnsignedInteger => NadaType::ShamirShareUnsignedInteger,
        NadaType::SecretBoolean => NadaType::ShamirShareBoolean,
        NadaType::Array { inner_type, size } => NadaType::Array {
            inner_type: Box::new(masked_type(inner_type)),
            size: *size,
        },
        NadaType::Tuple { left_type, right_type } => NadaType::Tuple {
            left_type: Box::new(masked_type(left_type)),
            right_type: Box::new(masked_type(right_type)),
        },
        _ => t.duplicate(),
    }
}

} // verus!
