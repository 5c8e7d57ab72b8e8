//! The masker: the one orchestration point that turns named clear values
//! into per-party encrypted values and back, and the static accounting that
//! predicts the masked shape.

use vstd::prelude::*;
use crate::chunking::{chunk_blob, num_chunks_u64, spec_num_chunks, unchunk_blob};
use crate::curves::{
    be_val, ed25519_generator_mul, ed25519_mul_generator, ed25519_order, ed25519_order_le,
    is_ed25519_scalar, is_secp256k1_scalar, lemma_rev_rev, rev_bytes, reverse_bytes,
    bytes_all_zero, secp256k1_generator_mul, secp256k1_mul_generator, secp256k1_order,
    secp256k1_order_le,
};
use crate::encrypted_value::{
    enc_views, enc_wf, lemma_enc_views_index, EncodedModularNumber, EncValue, EncryptedValue,
    ModNumV, PrivateKeyShare,
};
use crate::modular::{
    bytes_eq, bytes_lt, encode_bool, encode_i64, encode_u64_field, decode_bool, decode_i64,
    decode_u64_field, field_of_int, is_field_bytes, le_val, EncodedModulo,
};
use crate::sharing::{combine_share, share_secret, shares_sum};
use crate::values::{
    clear_views, clear_wf, copy_bytes, lemma_clear_views_index, spec_type_of, ClearValue,
    NadaType, NadaValue,
};
use crate::{
    classify_seq, classify_value, maskable, masked_rel, masked_type,
    sat_add64, sat64, spec_masked_type, NadaValuesClassification, NamedEncryptedValues,
    NamedValues, PartyId, PartyJar, ValueError,
};

verus! {

/// A secret masker: fixes a modulus, an immutable party roster and a
/// polynomial degree (the sharing threshold) for its lifetime; all masking
/// and unmasking through one instance uses this configuration.
pub struct SecretMasker {
    /// The prime field everything is encoded under.
    pub modulo: EncodedModulo,
    /// The party roster, in a fixed order.
    pub parties: Vec<PartyId>,
    /// The sharing threshold the configuration was made with.
    pub polynomial_degree: u64,
}

impl SecretMasker {
    /// A valid configuration: a non-empty roster of distinct parties, small
    /// enough to index with a party number, and a degree below the roster
    /// size.
    pub open spec fn wf(self) -> bool {
        &&& self.parties@.len() >= 1
        &&& self.parties@.len() <= 0xffff
        &&& self.polynomial_degree < self.parties@.len()
        &&& forall|a: int, b: int|
            0 <= a < b < self.parties@.len() ==> (#[trigger] self.parties@[a])@ != (
            #[trigger] self.parties@[b])@
    }

    /// Construct a masker over the given modulus. Fails unless the roster is
    /// non-empty, free of duplicates, small enough to index, and larger than
    /// the polynomial degree.
    pub fn new(polynomial_degree: u64, parties: Vec<PartyId>, modulo: EncodedModulo) -> (r:
        Result<SecretMasker, ValueError>)
        ensures
            match r {
                Ok(msk) => {
                    &&& msk.wf()
                    &&& msk.modulo == modulo
                    &&& msk.polynomial_degree == polynomial_degree
                    &&& msk.parties@ == parties@
                },
                Err(e) => {
                    &&& e == ValueError::MaskingError
                    &&& {
                        ||| parties@.len() < 1
                        ||| parties@.len() > 0xffff
                        ||| polynomial_degree >= parties@.len()
                        ||| exists|a: int, b: int|
                            0 <= a < b < parties@.len() && (#[trigger] parties@[a])@ == (
                            #[trigger] parties@[b])@
                    }
                },
            },
    {
        if parties.len() < 1 || parties.len() > 0xffff {
            return Err(ValueError::MaskingError);
        }
        if polynomial_degree >= parties.len() as u64 {
            return Err(ValueError::MaskingError);
        }
        let mut a: usize = 0;
        while a < parties.len()
            invariant
                a <= parties@.len(),
                forall|x: int, y: int|
                    0 <= x < y < parties@.len() && x < a ==> (#[trigger] parties@[x])@ != (
                    #[trigger] parties@[y])@,
            decreases parties@.len() - a,
        {
            let mut b: usize = a + 1;
            while b < parties.len()
                invariant
                    a < b <= parties@.len() || (a + 1 == b && b >= parties@.len()),
                    a < parties@.len(),
                    forall|y: int| a < y < b ==> (#[trigger] parties@[y])@ != parties@[a as int]@,
                decreases parties@.len() - b,
            {
                if parties[a].same_as(&parties[b]) {
                    return Err(ValueError::MaskingError);
                }
                b = b + 1;
            }
            a = a + 1;
        }
        Ok(SecretMasker { modulo, parties, polynomial_degree })
    }

    /// Construct a new masker that uses a 64 bit safe prime under the hood.
    pub fn new_64_bit_safe_prime(polynomial_degree: u64, parties: Vec<PartyId>) -> (r: Result<
        SecretMasker,
        ValueError,
    >)
        ensures
            match r {
                Ok(msk) => msk.wf() && msk.modulo == EncodedModulo::U64SafePrime
                    && msk.polynomial_degree == polynomial_degree && msk.parties@ == parties@,
                Err(e) => {
                    &&& e == ValueError::MaskingError
                    &&& {
                        ||| parties@.len() < 1
                        ||| parties@.len() > 0xffff
                        ||| polynomial_degree >= parties@.len()
                        ||| exists|a: int, b: int|
                            0 <= a < b < parties@.len() && (#[trigger] parties@[a])@ == (
                            #[trigger] parties@[b])@
                    }
                },
            },
    {
        Self::new(polynomial_degree, parties, EncodedModulo::U64SafePrime)
    }

    /// Construct a new masker that uses a 128 bit safe prime under the hood.
    pub fn new_128_bit_safe_prime(polynomial_degree: u64, parties: Vec<PartyId>) -> (r: Result<
        SecretMasker,
        ValueError,
    >)
        ensures
            match r {
                Ok(msk) => msk.wf() && msk.modulo == EncodedModulo::U128SafePrime
                    && msk.polynomial_degree == polynomial_degree && msk.parties@ == parties@,
                Err(e) => {
                    &&& e == ValueError::MaskingError
                    &&& {
                        ||| parties@.len() < 1
                        ||| parties@.len() > 0xffff
                        ||| polynomial_degree >= parties@.len()
                        ||| exists|a: int, b: int|
                            0 <= a < b < parties@.len() && (#[trigger] parties@[a])@ == (
                            #[trigger] parties@[b])@
                    }
                },
            },
    {
        Self::new(polynomial_degree, parties, EncodedModulo::U128SafePrime)
    }

    /// Construct a new masker that uses a 256 bit safe prime under the hood.
    pub fn new_256_bit_safe_prime(polynomial_degree: u64, parties: Vec<PartyId>) -> (r: Result<
        SecretMasker,
        ValueError,
    >)
        ensures
            match r {
                Ok(msk) => msk.wf() && msk.modulo == EncodedModulo::U256SafePrime
                    && msk.polynomial_degree == polynomial_degree && msk.parties@ == parties@,
                Err(e) => {
                    &&& e == ValueError::MaskingError
                    &&& {
                        ||| parties@.len() < 1
                        ||| parties@.len() > 0xffff
                        ||| polynomial_degree >= parties@.len()
                        ||| exists|a: int, b: int|
                            0 <= a < b < parties@.len() && (#[trigger] parties@[a])@ == (
                            #[trigger] parties@[b])@
                    }
                },
            },
    {
        Self::new(polynomial_degree, parties, EncodedModulo::U256SafePrime)
    }

    /// Build a party jar sized for this masker's roster.
    pub fn build_jar(&self) -> (r: PartyJar)
        ensures
            r.party_count == self.parties@.len(),
            r.elements@.len() == 0,
            r.wf(),
    {
        PartyJar::new(self.parties.len())
    }

    /// Classify the given clear values: exactly how many per-party shared
    /// scalar leaves masking them will produce, how many identical public
    /// leaves, and how many ECDSA key and signature leaves they hold; each
    /// counter clips at the machine-word maximum.
    pub fn classify_values(&self, values: &NamedValues) -> (r: NadaValuesClassification)
        ensures
            r.shares == sat64(classify_seq(named_views(values@), self.modulo).shares),
            r.public == sat64(classify_seq(named_views(values@), self.modulo).public_count),
            r.ecdsa_private_key_shares == sat64(
                classify_seq(named_views(values@), self.modulo).key_shares,
            ),
            r.ecdsa_signature_shares == sat64(
                classify_seq(named_views(values@), self.modulo).signature_shares,
            ),
    {
        let ghost cs = named_views(values@);
        let mut r = NadaValuesClassification {
            shares: 0,
            public: 0,
            ecdsa_private_key_shares: 0,
            ecdsa_signature_shares: 0,
        };
        let mut k: usize = 0;
        proof {
            assert(cs.take(0) =~= Seq::empty());
        }
        while k < values.len()
            invariant
                k <= values@.len(),
                cs == named_views(values@),
                cs.len() == values@.len(),
                forall|q: int| 0 <= q < cs.len() ==> cs[q] == (values@[q].1)@,
                r.shares == sat64(classify_seq(cs.take(k as int), self.modulo).shares),
                r.public == sat64(classify_seq(cs.take(k as int), self.modulo).public_count),
                r.ecdsa_private_key_shares == sat64(
                    classify_seq(cs.take(k as int), self.modulo).key_shares,
                ),
                r.ecdsa_signature_shares == sat64(
                    classify_seq(cs.take(k as int), self.modulo).signature_shares,
                ),
            decreases values@.len() - k,
        {
            let c = classify_one(&values[k].1, &self.modulo);
            proof {
                assert(cs.take(k + 1).drop_last() =~= cs.take(k as int));
                assert(cs.take(k + 1).last() == cs[k as int]);
            }
            r = NadaValuesClassification {
                shares: sat_add64(r.shares, c.shares),
                public: sat_add64(r.public, c.public),
                ecdsa_private_key_shares: sat_add64(
                    r.ecdsa_private_key_shares,
                    c.ecdsa_private_key_shares,
                ),
                ecdsa_signature_shares: sat_add64(
                    r.ecdsa_signature_shares,
                    c.ecdsa_signature_shares,
                ),
            };
            k = k + 1;
        }
        proof {
            assert(cs.take(values@.len() as int) =~= cs);
        }
        r
    }
}

impl SecretMasker {
    /// Mask a set of named clear values: one run of named encrypted values
    /// per party, names and order preserved. Public leaves are encoded
    /// identically for every party; secret leaves are split so that the
    /// parties' contributions reconstruct the original.
    pub fn mask(&self, values: &NamedValues) -> (r: Result<
        Vec<(PartyId, NamedEncryptedValues)>,
        ValueError,
    >)
        requires
            self.wf(),
            forall|k: int| 0 <= k < values@.len() ==> clear_wf(((#[trigger] values@[k]).1)@),
        ensures
            r is Ok <==> (forall|k: int|
                0 <= k < values@.len() ==> maskable(((#[trigger] values@[k]).1)@, self.modulo)),
            match r {
                Ok(out) => {
                    &&& out@.len() == self.parties@.len()
                    &&& forall|j: int|
                        0 <= j < out@.len() ==> ((#[trigger] out@[j]).0)@ == (self.parties@[j])@
                    &&& forall|j: int|
                        0 <= j < out@.len() ==> ((#[trigger] out@[j]).1)@.len() == values@.len()
                    &&& forall|j: int, k: int|
                        0 <= j < out@.len() && 0 <= k < values@.len() ==> ((#[trigger] out@[j].1@[k]).0)@ == (values@[k].0)@
                    &&& forall|k: int|
                        0 <= k < values@.len() ==> masked_rel(
                            ((#[trigger] values@[k]).1)@,
                            Seq::new(
                                self.parties@.len() as nat,
                                |j: int| ((out@[j].1)@[k].1)@,
                            ),
                            self.modulo,
                        )
                    &&& forall|j: int, k: int|
                        0 <= j < out@.len() && 0 <= k < values@.len() ==> enc_wf(
                            ((#[trigger] out@[j].1@[k]).1)@,
                            self.modulo,
                        )
                },
                Err(e) => e == ValueError::MaskingError,
            },
    {
        let n = self.parties.len();
        let mut cols: Vec<Vec<EncryptedValue>> = Vec::new();
        let mut k: usize = 0;
        while k < values.len()
            invariant
                self.wf(),
                n == self.parties@.len(),
                forall|q: int|
                    0 <= q < values@.len() ==> clear_wf(((#[trigger] values@[q]).1)@),
                k <= values@.len(),
                cols@.len() == k,
                forall|q: int| 0 <= q < k ==> maskable(((#[trigger] values@[q]).1)@, self.modulo),
                forall|q: int|
                    0 <= q < k ==> (#[trigger] cols@[q])@.len() == n && masked_rel(
                        ((values@[q]).1)@,
                        enc_views(cols@[q]@),
                        self.modulo,
                    ) && (forall|j: int|
                        0 <= j < n ==> enc_wf(#[trigger] enc_views(cols@[q]@)[j], self.modulo)),
            decreases values@.len() - k,
        {
            let col = match mask_value(&values[k].1, n, &self.modulo) {
                Ok(c) => c,
                Err(e) => {
                    proof {
                        assert(!maskable(((values@[k as int]).1)@, self.modulo));
                    }
                    return Err(e);
                }
            };
            cols.push(col);
            k = k + 1;
        }
        let mut out: Vec<(PartyId, NamedEncryptedValues)> = Vec::new();
        let mut j: usize = 0;
        while j < n
            invariant
                self.wf(),
                n == self.parties@.len(),
                j <= n,
                out@.len() == j,
                cols@.len() == values@.len(),
                forall|q: int|
                    0 <= q < cols@.len() ==> (#[trigger] cols@[q])@.len() == n && (forall|t: int|
                        0 <= t < n ==> enc_wf(#[trigger] enc_views(cols@[q]@)[t], self.modulo)),
                forall|q: int|
                    0 <= q < j ==> ((#[trigger] out@[q]).0)@ == (self.parties@[q])@,
                forall|q: int|
                    0 <= q < j ==> ((#[trigger] out@[q]).1)@.len() == values@.len(),
                forall|q: int, k2: int|
                    0 <= q < j && 0 <= k2 < values@.len() ==> ((#[trigger] out@[q].1@[k2]).0)@ == (
                    values@[k2].0)@ && ((out@[q].1@[k2]).1)@ == (cols@[k2]@[q])@,
            decreases n - j,
        {
            let mut row: NamedEncryptedValues = Vec::new();
            let mut k2: usize = 0;
            while k2 < cols.len()
                invariant
                    k2 <= cols@.len(),
                    j < n,
                    cols@.len() == values@.len(),
                    row@.len() == k2,
                    forall|q: int| 0 <= q < cols@.len() ==> (#[trigger] cols@[q])@.len() == n,
                    forall|q: int|
                        0 <= q < k2 ==> ((#[trigger] row@[q]).0)@ == (values@[q].0)@ && ((
                        row@[q]).1)@ == (cols@[q]@[j as int])@,
                decreases cols@.len() - k2,
            {
                row.push((values[k2].0.clone(), cols[k2][j].duplicate()));
                k2 = k2 + 1;
            }
            out.push((self.parties[j].duplicate(), row));
            j = j + 1;
        }
        proof {
            assert forall|k3: int| 0 <= k3 < values@.len() implies masked_rel(
                ((#[trigger] values@[k3]).1)@,
                Seq::new(self.parties@.len() as nat, |j2: int| ((out@[j2].1)@[k3].1)@),
                self.modulo,
            ) by {
                lemma_enc_views_index(cols@[k3]@);
                assert(Seq::new(self.parties@.len() as nat, |j2: int| ((out@[j2].1)@[k3].1)@)
                    =~= enc_views(cols@[k3]@));
            }
            assert forall|j2: int, k3: int|
                0 <= j2 < out@.len() && 0 <= k3 < values@.len() implies enc_wf(
                ((#[trigger] out@[j2].1@[k3]).1)@,
                self.modulo,
            ) by {
                lemma_enc_views_index(cols@[k3]@);
                assert(((out@[j2].1@[k3]).1)@ == enc_views(cols@[k3]@)[j2]);
            }
        }
        Ok(out)
    }
}

impl SecretMasker {
    /// The jars this masker unmasks: complete, holding exactly its roster
    /// in roster order, every party naming the same values in the same
    /// order, and every name's per-party column reconstructible.
    pub open spec fn unmaskable_jar(self, jar: PartyJar) -> bool {
        &&& jar.elements@.len() >= jar.party_count
        &&& jar.elements@.len() == self.parties@.len()
        &&& (forall|j: int|
            0 <= j < jar.elements@.len() ==> ((#[trigger] jar.elements@[j]).0)@ == (
            self.parties@[j])@)
        &&& (forall|j: int|
            0 <= j < jar.elements@.len() ==> ((#[trigger] jar.elements@[j]).1)@.len() == (
            jar.elements@[0].1)@.len())
        &&& (forall|j: int, k: int|
            0 <= j < jar.elements@.len() && 0 <= k < (jar.elements@[0].1)@.len() ==> ((
            #[trigger] (jar.elements@[j].1)@[k]).0)@ == ((jar.elements@[0].1)@[k].0)@)
        &&& (forall|k: int|
            #![trigger jar_column(jar.elements@, k)]
            0 <= k < (jar.elements@[0].1)@.len() ==> reconstructible(
                jar_column(jar.elements@, k),
                self.modulo,
            ))
    }

    /// Unmask a complete jar back into named clear values. The jar must hold
    /// exactly one contribution per roster party, in roster order, with the
    /// same names in the same order everywhere; every reconstructed value
    /// satisfies the masking relation against the parties' contributions.
    pub fn unmask(&self, jar: PartyJar) -> (res: Result<NamedValues, ValueError>)
        requires
            self.wf(),
            jar.wf(),
        ensures
            res is Ok <==> self.unmaskable_jar(jar),
            match res {
                Ok(out) => {
                    &&& jar.elements@.len() == self.parties@.len()
                    &&& out@.len() == (jar.elements@[0].1)@.len()
                    &&& forall|k: int|
                        0 <= k < out@.len() ==> ((#[trigger] out@[k]).0)@ == ((
                        jar.elements@[0].1)@[k].0)@
                    &&& forall|k: int|
                        0 <= k < out@.len() ==> clear_wf(((#[trigger] out@[k]).1)@)
                            && masked_rel(
                            (out@[k].1)@,
                            Seq::new(
                                jar.elements@.len() as nat,
                                |j: int| ((jar.elements@[j].1)@[k].1)@,
                            ),
                            self.modulo,
                        )
                },
                Err(e) => {
                    &&& e == ValueError::IncompleteJar || e == ValueError::ReconstructionError
                    &&& jar.elements@.len() < jar.party_count ==> e == ValueError::IncompleteJar
                },
            },
    {
        if !jar.is_full() {
            proof {
                assert(!self.unmaskable_jar(jar));
            }
            return Err(ValueError::IncompleteJar);
        }
        let n = self.parties.len();
        if jar.elements.len() != n {
            proof {
                assert(!self.unmaskable_jar(jar));
            }
            return Err(ValueError::ReconstructionError);
        }
        // The jar must hold this masker's exact roster, in roster order.
        let mut j: usize = 0;
        while j < n
            invariant
                j <= n,
                n == self.parties@.len(),
                jar.elements@.len() == n,
                jar.elements@.len() >= jar.party_count,
                forall|q: int|
                    0 <= q < j ==> ((#[trigger] jar.elements@[q]).0)@ == (self.parties@[q])@,
            decreases n - j,
        {
            if !jar.elements[j].0.same_as(&self.parties[j]) {
                proof {
                    assert(!self.unmaskable_jar(jar));
                }
                return Err(ValueError::ReconstructionError);
            }
            j = j + 1;
        }
        // Every party must name the same values in the same order.
        let base_len = jar.elements[0].1.len();
        let mut j2: usize = 0;
        while j2 < n
            invariant
                j2 <= n,
                n == self.parties@.len(),
                jar.elements@.len() == n,
                jar.elements@.len() >= jar.party_count,
                base_len == (jar.elements@[0].1)@.len(),
                forall|q: int|
                    0 <= q < j2 ==> ((#[trigger] jar.elements@[q]).1)@.len() == base_len,
                forall|q: int, k: int|
                    0 <= q < j2 && 0 <= k < base_len ==> ((#[trigger] (jar.elements@[q].1)@[
                    k]).0)@ == ((jar.elements@[0].1)@[k].0)@,
            decreases n - j2,
        {
            if jar.elements[j2].1.len() != base_len {
                proof {
                    assert(!self.unmaskable_jar(jar));
                }
                return Err(ValueError::ReconstructionError);
            }
            let mut k: usize = 0;
            while k < base_len
                invariant
                    k <= base_len,
                    j2 < n,
                    jar.elements@.len() == n,
                    jar.elements@.len() >= jar.party_count,
                    base_len == (jar.elements@[0].1)@.len(),
                    (jar.elements@[j2 as int].1)@.len() == base_len,
                    forall|k2: int|
                        0 <= k2 < k ==> ((#[trigger] (jar.elements@[j2 as int].1)@[k2]).0)@
                            == ((jar.elements@[0].1)@[k2].0)@,
                decreases base_len - k,
            {
                if !(jar.elements[j2].1[k].0 == jar.elements[0].1[k].0) {
                    proof {
                        assert(((jar.elements@[j2 as int].1)@[k as int].0)@ != ((
                        jar.elements@[0].1)@[k as int].0)@);
                        assert(!self.unmaskable_jar(jar));
                    }
                    return Err(ValueError::ReconstructionError);
                }
                k = k + 1;
            }
            j2 = j2 + 1;
        }
        // Reconstruct name by name from the per-party columns.
        let mut out: NamedValues = Vec::new();
        let mut k: usize = 0;
        while k < base_len
            invariant
                k <= base_len,
                n == self.parties@.len(),
                n >= 1,
                jar.elements@.len() == n,
                jar.elements@.len() >= jar.party_count,
                base_len == (jar.elements@[0].1)@.len(),
                out@.len() == k,
                forall|q: int|
                    0 <= q < n ==> ((#[trigger] jar.elements@[q]).1)@.len() == base_len,
                forall|k2: int|
                    0 <= k2 < k ==> ((#[trigger] out@[k2]).0)@ == ((jar.elements@[0].1)@[
                    k2].0)@,
                forall|k2: int|
                    0 <= k2 < k ==> clear_wf(((#[trigger] out@[k2]).1)@) && masked_rel(
                        (out@[k2].1)@,
                        Seq::new(
                            jar.elements@.len() as nat,
                            |j3: int| ((jar.elements@[j3].1)@[k2].1)@,
                        ),
                        self.modulo,
                    ),
                forall|q: int|
                    0 <= q < n ==> ((#[trigger] jar.elements@[q]).0)@ == (self.parties@[q])@,
                forall|q: int, k2: int|
                    0 <= q < n && 0 <= k2 < base_len ==> ((#[trigger] (jar.elements@[q].1)@[
                    k2]).0)@ == ((jar.elements@[0].1)@[k2].0)@,
                forall|k2: int|
                    #![trigger jar_column(jar.elements@, k2)]
                    0 <= k2 < k ==> reconstructible(
                        jar_column(jar.elements@, k2),
                        self.modulo,
                    ),
            decreases base_len - k,
        {
            let mut col: Vec<EncryptedValue> = Vec::new();
            let mut j3: usize = 0;
            while j3 < n
                invariant
                    j3 <= n,
                    k < base_len,
                    jar.elements@.len() == n,
                    col@.len() == j3,
                    forall|q: int|
                        0 <= q < n ==> ((#[trigger] jar.elements@[q]).1)@.len() == base_len,
                    forall|q: int|
                        0 <= q < j3 ==> (#[trigger] col@[q])@ == ((jar.elements@[q].1)@[
                        k as int].1)@,
                decreases n - j3,
            {
                col.push(jar.elements[j3].1[k].1.duplicate());
                j3 = j3 + 1;
            }
            proof {
                crate::encrypted_value::lemma_enc_views_index(col@);
                assert forall|q: int| 0 <= q < n implies enc_views(col@)[q] == ((
                jar.elements@[q].1)@[k as int].1)@ by {
                    assert(enc_views(col@)[q] == (col@[q])@);
                }
                assert(enc_views(col@) =~= Seq::new(
                    jar.elements@.len() as nat,
                    |j4: int| ((jar.elements@[j4].1)@[k as int].1)@,
                ));
                assert(enc_views(col@) =~= jar_column(jar.elements@, k as int));
            }
            let v = match unmask_value(&col, &self.modulo) {
                Ok(v) => v,
                Err(e) => {
                    proof {
                        assert(!reconstructible(
                            jar_column(jar.elements@, k as int),
                            self.modulo,
                        ));
                        assert(!self.unmaskable_jar(jar));
                    }
                    return Err(e);
                }
            };
            out.push((jar.elements[0].1[k].0.clone(), v));
            k = k + 1;
        }
        proof {
            assert(self.unmaskable_jar(jar));
        }
        Ok(out)
    }
}

/// The models of a run of named clear values, names dropped.
pub open spec fn named_views(s: Seq<(String, NadaValue)>) -> Seq<ClearValue> {
    Seq::new(s.len(), |k: int| (s[k].1)@)
}

/// Classify one clear value, each counter clipping at the machine-word
/// maximum.
pub fn classify_one(v: &NadaValue, m: &EncodedModulo) -> (r: NadaValuesClassification)
    ensures
        r.shares == sat64(classify_value(v@, *m).shares),
        r.public == sat64(classify_value(v@, *m).public_count),
        r.ecdsa_private_key_shares == sat64(classify_value(v@, *m).key_shares),
        r.ecdsa_signature_shares == sat64(classify_value(v@, *m).signature_shares),
    decreases *v,
{
    match v {
        NadaValue::SecretInteger(_) => NadaValuesClassification {
            shares: 1,
            public: 0,
            ecdsa_private_key_shares: 0,
            ecdsa_signature_shares: 0,
        },
        NadaValue::SecretUnsignedInteger(_) => NadaValuesClassification {
            shares: 1,
            public: 0,
            ecdsa_private_key_shares: 0,
            ecdsa_signature_shares: 0,
        },
        NadaValue::SecretBoolean(_) => NadaValuesClassification {
            shares: 1,
            public: 0,
            ecdsa_private_key_shares: 0,
            ecdsa_signature_shares: 0,
        },
        NadaValue::SecretBlob(d) => {
            let chunks = num_chunks_u64(d.len() as u64, m);
            proof {
                crate::masker::lemma_num_chunks_le(d@.len(), *m);
            }
            NadaValuesClassification {
                shares: chunks as u64,
                public: 0,
                ecdsa_private_key_shares: 0,
                ecdsa_signature_shares: 0,
            }
        }
        NadaValue::Array { inner_type, values } => {
            let ghost cs = crate::values::clear_views(values@);
            let mut r = NadaValuesClassification {
                shares: 0,
                public: 0,
                ecdsa_private_key_shares: 0,
                ecdsa_signature_shares: 0,
            };
            let mut k: usize = 0;
            proof {
                lemma_clear_views_index(values@);
                assert(cs.take(0) =~= Seq::empty());
            }
            while k < values.len()
                invariant
                    *v == (NadaValue::Array { inner_type: *inner_type, values: *values }),
                    k <= values@.len(),
                    cs == crate::values::clear_views(values@),
                    cs.len() == values@.len(),
                    forall|q: int| 0 <= q < cs.len() ==> cs[q] == (values@[q])@,
                    r.shares == sat64(classify_seq(cs.take(k as int), *m).shares),
                    r.public == sat64(classify_seq(cs.take(k as int), *m).public_count),
                    r.ecdsa_private_key_shares == sat64(
                        classify_seq(cs.take(k as int), *m).key_shares,
                    ),
                    r.ecdsa_signature_shares == sat64(
                        classify_seq(cs.take(k as int), *m).signature_shares,
                    ),
                decreases values@.len() - k,
            {
                proof {
                    vstd::std_specs::vec::axiom_vec_decreases_to_view(*values);
                    vstd::seq::axiom_seq_index_decreases(values@, k as int);
                    assert(decreases_to!(*v => v.arrow_Array_values()));
                    assert(v.arrow_Array_values() == *values);
                    assert(decreases_to!(*v => values@[k as int]));
                }
                let c = classify_one(&values[k], m);
                proof {
                    assert(cs.take(k + 1).drop_last() =~= cs.take(k as int));
                    assert(cs.take(k + 1).last() == cs[k as int]);
                }
                r = NadaValuesClassification {
                    shares: sat_add64(r.shares, c.shares),
                    public: sat_add64(r.public, c.public),
                    ecdsa_private_key_shares: sat_add64(
                        r.ecdsa_private_key_shares,
                        c.ecdsa_private_key_shares,
                    ),
                    ecdsa_signature_shares: sat_add64(
                        r.ecdsa_signature_shares,
                        c.ecdsa_signature_shares,
                    ),
                };
                k = k + 1;
            }
            proof {
                assert(cs.take(values@.len() as int) =~= cs);
            }
            r
        }
        NadaValue::Tuple { left, right } => {
            let l = classify_one(left, m);
            let rr = classify_one(right, m);
            NadaValuesClassification {
                shares: sat_add64(l.shares, rr.shares),
                public: sat_add64(l.public, rr.public),
                ecdsa_private_key_shares: sat_add64(
                    l.ecdsa_private_key_shares,
                    rr.ecdsa_private_key_shares,
                ),
                ecdsa_signature_shares: sat_add64(
                    l.ecdsa_signature_shares,
                    rr.ecdsa_signature_shares,
                ),
            }
        }
        NadaValue::Integer(_) => NadaValuesClassification {
            shares: 0,
            public: 1,
            ecdsa_private_key_shares: 0,
            ecdsa_signature_shares: 0,
        },
        NadaValue::UnsignedInteger(_) => NadaValuesClassification {
            shares: 0,
            public: 1,
            ecdsa_private_key_shares: 0,
            ecdsa_signature_shares: 0,
        },
        NadaValue::Boolean(_) => NadaValuesClassification {
            shares: 0,
            public: 1,
            ecdsa_private_key_shares: 0,
            ecdsa_signature_shares: 0,
        },
        NadaValue::EcdsaPrivateKey(_) => NadaValuesClassification {
            shares: 0,
            public: 0,
            ecdsa_private_key_shares: 1,
            ecdsa_signature_shares: 0,
        },
        NadaValue::EcdsaSignature { .. } => NadaValuesClassification {
            shares: 0,
            public: 0,
            ecdsa_private_key_shares: 0,
            ecdsa_signature_shares: 1,
        },
        NadaValue::EcdsaDigestMessage(_) => NadaValuesClassification {
            shares: 0,
            public: 1,
            ecdsa_private_key_shares: 0,
            ecdsa_signature_shares: 0,
        },
        NadaValue::EcdsaPublicKey(_) => NadaValuesClassification {
            shares: 0,
            public: 1,
            ecdsa_private_key_shares: 0,
            ecdsa_signature_shares: 0,
        },
        NadaValue::StoreId(_) => NadaValuesClassification {
            shares: 0,
            public: 1,
            ecdsa_private_key_shares: 0,
            ecdsa_signature_shares: 0,
        },
        NadaValue::EddsaPrivateKey(_) => NadaValuesClassification {
            shares: 0,
            public: 0,
            ecdsa_private_key_shares: 0,
            ecdsa_signature_shares: 0,
        },
        NadaValue::EddsaSignature { .. } => NadaValuesClassification {
            shares: 0,
            public: 0,
            ecdsa_private_key_shares: 0,
            ecdsa_signature_shares: 0,
        },
        NadaValue::EddsaPublicKey(_) => NadaValuesClassification {
            shares: 0,
            public: 1,
            ecdsa_private_key_shares: 0,
            ecdsa_signature_shares: 0,
        },
        NadaValue::EddsaMessage(_) => NadaValuesClassification {
            shares: 0,
            public: 1,
            ecdsa_private_key_shares: 0,
            ecdsa_signature_shares: 0,
        },
    }
}

/// Split a field element into one wrapped share per party.
fn split_field(secret: &Vec<u8>, n: usize, m: &EncodedModulo) -> (r: Vec<EncodedModularNumber>)
    requires
        n >= 1,
        is_field_bytes(secret@, *m),
    ensures
        r@.len() == n,
        forall|j: int|
            0 <= j < n ==> (#[trigger] r@[j])@.wf() && r@[j]@.modulo == *m,
        shares_sum(Seq::new(n as nat, |j: int| r@[j]@.value), m.spec_prime()) == le_val(secret@),
{
    let p = m.prime_bytes();
    let shares = share_secret(secret, n, &p);
    let mut out: Vec<EncodedModularNumber> = Vec::new();
    let mut j: usize = 0;
    while j < n
        invariant
            j <= n,
            out@.len() == j,
            shares@.len() == n,
            forall|q: int|
                0 <= q < n ==> (#[trigger] shares@[q])@.len() == m.spec_width() && le_val(
                    shares@[q]@,
                ) < m.spec_prime(),
            forall|q: int|
                0 <= q < j ==> (#[trigger] out@[q])@ == (ModNumV {
                    value: shares@[q]@,
                    modulo: *m,
                }),
        decreases n - j,
    {
        out.push(EncodedModularNumber { value: copy_bytes(&shares[j]), modulo: *m });
        j = j + 1;
    }
    proof {
        assert(Seq::new(n as nat, |q: int| out@[q]@.value) =~= shares@.map_values(
            |v: Vec<u8>| v@,
        ));
    }
    out
}

/// Mask one non-composite clear value for `n` parties; succeeds exactly
/// when the value embeds in the configured field.
fn mask_leaf(v: &NadaValue, n: usize, m: &EncodedModulo) -> (r: Result<
    Vec<EncryptedValue>,
    ValueError,
>)
    requires
        1 <= n <= 0xffff,
        clear_wf(v@),
        !(v@ is Array),
        !(v@ is Tuple),
    ensures
        r is Ok <==> maskable(v@, *m),
        match r {
            Ok(outs) => {
                &&& outs@.len() == n
                &&& masked_rel(v@, enc_views(outs@), *m)
                &&& forall|j: int|
                    0 <= j < n ==> enc_wf(#[trigger] enc_views(outs@)[j], *m) && crate::encrypted_value::enc_type_of(
                        enc_views(outs@)[j],
                    ) == spec_masked_type(spec_type_of(v@))
            },
            Err(e) => e == ValueError::MaskingError,
        },
    decreases *v,
{
    match v {
        NadaValue::SecretInteger(x) => {
            let bytes = match encode_i64(*x, m) {
                Some(b) => b,
                None => {
                    return Err(ValueError::MaskingError);
                }
            };
            let nums = split_field(&bytes, n, m);
            let mut outs: Vec<EncryptedValue> = Vec::new();
            let mut j: usize = 0;
            while j < n
                invariant
                    j <= n,
                    nums@.len() == n,
                    outs@.len() == j,
                    forall|q: int|
                        0 <= q < j ==> (#[trigger] outs@[q])@ == EncValue::ShamirShareInteger(
                            nums@[q]@,
                        ),
                decreases n - j,
            {
                outs.push(EncryptedValue::ShamirShareInteger(nums[j].duplicate()));
                j = j + 1;
            }
            proof {
                lemma_enc_views_index(outs@);
                let vs = enc_views(outs@);
                assert forall|q: int| 0 <= q < n implies (#[trigger] vs[q])
                    == EncValue::ShamirShareInteger(nums@[q]@) by {
                    assert(vs[q] == (outs@[q])@);
                }
                assert(Seq::new(n as nat, |q: int| vs[q].arrow_ShamirShareInteger_0().value)
                    =~= Seq::new(n as nat, |q: int| nums@[q]@.value));
            }
            Ok(outs)
        }
        NadaValue::SecretUnsignedInteger(x) => {
            let bytes = match encode_u64_field(*x, m) {
                Some(b) => b,
                None => {
                    return Err(ValueError::MaskingError);
                }
            };
            let nums = split_field(&bytes, n, m);
            let mut outs: Vec<EncryptedValue> = Vec::new();
            let mut j: usize = 0;
            while j < n
                invariant
                    j <= n,
                    nums@.len() == n,
                    outs@.len() == j,
                    forall|q: int|
                        0 <= q < j ==> (#[trigger] outs@[q])@
                            == EncValue::ShamirShareUnsignedInteger(nums@[q]@),
                decreases n - j,
            {
                outs.push(EncryptedValue::ShamirShareUnsignedInteger(nums[j].duplicate()));
                j = j + 1;
            }
            proof {
                lemma_enc_views_index(outs@);
                let vs = enc_views(outs@);
                assert forall|q: int| 0 <= q < n implies (#[trigger] vs[q])
                    == EncValue::ShamirShareUnsignedInteger(nums@[q]@) by {
                    assert(vs[q] == (outs@[q])@);
                }
                assert(Seq::new(
                    n as nat,
                    |q: int| vs[q].arrow_ShamirShareUnsignedInteger_0().value,
                ) =~= Seq::new(n as nat, |q: int| nums@[q]@.value));
            }
            Ok(outs)
        }
        NadaValue::SecretBoolean(x) => {
            let bytes = encode_bool(*x, m);
            let nums = split_field(&bytes, n, m);
            let mut outs: Vec<EncryptedValue> = Vec::new();
            let mut j: usize = 0;
            while j < n
                invariant
                    j <= n,
                    nums@.len() == n,
                    outs@.len() == j,
                    forall|q: int|
                        0 <= q < j ==> (#[trigger] outs@[q])@ == EncValue::ShamirShareBoolean(
                            nums@[q]@,
                        ),
                decreases n - j,
            {
                outs.push(EncryptedValue::ShamirShareBoolean(nums[j].duplicate()));
                j = j + 1;
            }
            proof {
                lemma_enc_views_index(outs@);
                let vs = enc_views(outs@);
                assert forall|q: int| 0 <= q < n implies (#[trigger] vs[q])
                    == EncValue::ShamirShareBoolean(nums@[q]@) by {
                    assert(vs[q] == (outs@[q])@);
                }
                assert(Seq::new(n as nat, |q: int| vs[q].arrow_ShamirShareBoolean_0().value)
                    =~= Seq::new(n as nat, |q: int| nums@[q]@.value));
            }
            Ok(outs)
        }
        NadaValue::Integer(x) => {
            let bytes = match encode_i64(*x, m) {
                Some(b) => b,
                None => {
                    return Err(ValueError::MaskingError);
                }
            };
            let mut outs: Vec<EncryptedValue> = Vec::new();
            let mut j: usize = 0;
            while j < n
                invariant
                    j <= n,
                    outs@.len() == j,
                    is_field_bytes(bytes@, *m),
                    le_val(bytes@) == field_of_int(v@.arrow_Integer_0() as int, m.spec_prime()),
                    forall|q: int|
                        0 <= q < j ==> (#[trigger] outs@[q])@ == EncValue::Integer(
                            ModNumV { value: bytes@, modulo: *m },
                        ),
                decreases n - j,
            {
                outs.push(
                    EncryptedValue::Integer(
                        EncodedModularNumber { value: copy_bytes(&bytes), modulo: *m },
                    ),
                );
                j = j + 1;
            }
            proof {
                lemma_enc_views_index(outs@);
                let vs = enc_views(outs@);
                assert forall|q: int| 0 <= q < n implies (#[trigger] vs[q]) == EncValue::Integer(
                    ModNumV { value: bytes@, modulo: *m },
                ) by {
                    assert(vs[q] == (outs@[q])@);
                }
            }
            Ok(outs)
        }
        NadaValue::UnsignedInteger(x) => {
            let bytes = match encode_u64_field(*x, m) {
                Some(b) => b,
                None => {
                    return Err(ValueError::MaskingError);
                }
            };
            let mut outs: Vec<EncryptedValue> = Vec::new();
            let mut j: usize = 0;
            while j < n
                invariant
                    j <= n,
                    outs@.len() == j,
                    is_field_bytes(bytes@, *m),
                    le_val(bytes@) == v@.arrow_UnsignedInteger_0() as nat,
                    forall|q: int|
                        0 <= q < j ==> (#[trigger] outs@[q])@ == EncValue::UnsignedInteger(
                            ModNumV { value: bytes@, modulo: *m },
                        ),
                decreases n - j,
            {
                outs.push(
                    EncryptedValue::UnsignedInteger(
                        EncodedModularNumber { value: copy_bytes(&bytes), modulo: *m },
                    ),
                );
                j = j + 1;
            }
            proof {
                lemma_enc_views_index(outs@);
                let vs = enc_views(outs@);
                assert forall|q: int| 0 <= q < n implies (#[trigger] vs[q]) == EncValue::UnsignedInteger(
                    ModNumV { value: bytes@, modulo: *m },
                ) by {
                    assert(vs[q] == (outs@[q])@);
                }
            }
            Ok(outs)
        }
        NadaValue::Boolean(x) => {
            let bytes = encode_bool(*x, m);
            let mut outs: Vec<EncryptedValue> = Vec::new();
            let mut j: usize = 0;
            while j < n
                invariant
                    j <= n,
                    outs@.len() == j,
                    is_field_bytes(bytes@, *m),
                    le_val(bytes@) == if v@.arrow_Boolean_0() {
                        1nat
                    } else {
                        0nat
                    },
                    forall|q: int|
                        0 <= q < j ==> (#[trigger] outs@[q])@ == EncValue::Boolean(
                            ModNumV { value: bytes@, modulo: *m },
                        ),
                decreases n - j,
            {
                outs.push(
                    EncryptedValue::Boolean(
                        EncodedModularNumber { value: copy_bytes(&bytes), modulo: *m },
                    ),
                );
                j = j + 1;
            }
            proof {
                lemma_enc_views_index(outs@);
                let vs = enc_views(outs@);
                assert forall|q: int| 0 <= q < n implies (#[trigger] vs[q]) == EncValue::Boolean(
                    ModNumV { value: bytes@, modulo: *m },
                ) by {
                    assert(vs[q] == (outs@[q])@);
                }
            }
            Ok(outs)
        }
        NadaValue::SecretBlob(data) => {
            let chunks = chunk_blob(data, m);
            let mut cols: Vec<Vec<EncodedModularNumber>> = Vec::new();
            let mut c: usize = 0;
            while c < chunks.len()
                invariant
                    c <= chunks@.len(),
                    cols@.len() == c,
                    1 <= n,
                    chunks@.len() == spec_num_chunks(data@.len(), *m),
                    forall|q: int|
                        0 <= q < chunks@.len() ==> (#[trigger] chunks@[q])@ == crate::chunking::spec_chunk_at(data@, *m, q) && is_field_bytes(chunks@[q]@, *m),
                    forall|q: int|
                        0 <= q < c ==> (#[trigger] cols@[q])@.len() == n && (forall|j: int|
                            0 <= j < n ==> (#[trigger] cols@[q]@[j])@.wf() && cols@[q]@[j]@.modulo
                                == *m) && shares_sum(
                            Seq::new(n as nat, |j: int| cols@[q]@[j]@.value),
                            m.spec_prime(),
                        ) == le_val(chunks@[q]@),
                decreases chunks@.len() - c,
            {
                let col = split_field(&chunks[c], n, m);
                cols.push(col);
                c = c + 1;
            }
            let size64: u64 = data.len() as u64;
            let mut outs: Vec<EncryptedValue> = Vec::new();
            let mut j: usize = 0;
            while j < n
                invariant
                    j <= n,
                    outs@.len() == j,
                    size64 == data@.len(),
                    cols@.len() == spec_num_chunks(data@.len(), *m),
                    forall|q: int|
                        0 <= q < cols@.len() ==> (#[trigger] cols@[q])@.len() == n && (forall|
                            t: int,
                        |
                            0 <= t < n ==> (#[trigger] cols@[q]@[t])@.wf() && cols@[q]@[t]@.modulo
                                == *m),
                    forall|q: int|
                        0 <= q < j ==> (#[trigger] outs@[q])@ == (EncValue::SecretBlob {
                            values: Seq::new(cols@.len() as nat, |c: int| cols@[c]@[q]@),
                            unencoded_size: size64,
                        }),
                decreases n - j,
            {
                let mut vals: Vec<EncodedModularNumber> = Vec::new();
                let mut c2: usize = 0;
                while c2 < cols.len()
                    invariant
                        c2 <= cols@.len(),
                        j < n,
                        vals@.len() == c2,
                        forall|q: int|
                            0 <= q < cols@.len() ==> (#[trigger] cols@[q])@.len() == n,
                        forall|q: int| 0 <= q < c2 ==> (#[trigger] vals@[q])@ == cols@[q]@[
                            j as int]@,
                    decreases cols@.len() - c2,
                {
                    vals.push(cols[c2][j].duplicate());
                    c2 = c2 + 1;
                }
                let b = EncryptedValue::SecretBlob { values: vals, unencoded_size: size64 };
                proof {
                    assert(b@.arrow_SecretBlob_values() =~= Seq::new(
                        cols@.len() as nat,
                        |c: int| cols@[c]@[j as int]@,
                    ));
                }
                outs.push(b);
                j = j + 1;
            }
            proof {
                lemma_enc_views_index(outs@);
                let vs = enc_views(outs@);
                assert forall|q: int| 0 <= q < n implies (#[trigger] vs[q])
                    == (EncValue::SecretBlob {
                    values: Seq::new(cols@.len() as nat, |c: int| cols@[c]@[q]@),
                    unencoded_size: size64,
                }) by {
                    assert(vs[q] == (outs@[q])@);
                }
                assert forall|c3: int|
                    0 <= c3 < spec_num_chunks(data@.len(), *m) implies shares_sum(
                    Seq::new(n as nat, |j2: int| vs[j2].arrow_SecretBlob_values()[c3].value),
                    m.spec_prime(),
                ) == le_val(#[trigger] crate::chunking::spec_chunk_at(data@, *m, c3)) by {
                    assert(Seq::new(
                        n as nat,
                        |j2: int| vs[j2].arrow_SecretBlob_values()[c3].value,
                    ) =~= Seq::new(n as nat, |j2: int| cols@[c3]@[j2]@.value));
                }
            }
            Ok(outs)
        }
        NadaValue::EcdsaDigestMessage(d) => {
            replicate_bytes_value(v, n, m)
        }
        NadaValue::EcdsaPublicKey(_) => {
            replicate_bytes_value(v, n, m)
        }
        NadaValue::StoreId(_) => {
            replicate_bytes_value(v, n, m)
        }
        NadaValue::EddsaPublicKey(_) => {
            replicate_bytes_value(v, n, m)
        }
        NadaValue::EddsaMessage(_) => {
            replicate_bytes_value(v, n, m)
        }
        NadaValue::EcdsaSignature { r, s } => {
            mask_ecdsa_signature(r, s, n, m)
        }
        NadaValue::EddsaSignature { r, z } => {
            mask_eddsa_signature(r, z, n, m)
        }
        NadaValue::EcdsaPrivateKey(x) => {
            Ok(mask_ecdsa_key(x, n))
        }
        NadaValue::EddsaPrivateKey(x) => {
            Ok(mask_eddsa_key(x, n))
        }
        _ => {
            proof {
                assert(false);
            }
            Err(ValueError::MaskingError)
        }
    }
}

/// Replicate a plain byte-carrying clear value identically for every party.
fn replicate_bytes_value(v: &NadaValue, n: usize, m: &EncodedModulo) -> (r: Result<
    Vec<EncryptedValue>,
    ValueError,
>)
    requires
        1 <= n,
        clear_wf(v@),
        v@ is EcdsaDigestMessage || v@ is EcdsaPublicKey || v@ is StoreId
            || v@ is EddsaPublicKey || v@ is EddsaMessage,
    ensures
        r is Ok,
        match r {
            Ok(outs) => {
                &&& outs@.len() == n
                &&& masked_rel(v@, enc_views(outs@), *m)
                &&& forall|j: int|
                    0 <= j < n ==> enc_wf(#[trigger] enc_views(outs@)[j], *m) && crate::encrypted_value::enc_type_of(
                        enc_views(outs@)[j],
                    ) == spec_masked_type(spec_type_of(v@))
            },
            Err(e) => e == ValueError::MaskingError,
        },
{
    let mut outs: Vec<EncryptedValue> = Vec::new();
    let mut j: usize = 0;
    while j < n
        invariant
            j <= n,
            outs@.len() == j,
            clear_wf(v@),
            v@ is EcdsaDigestMessage || v@ is EcdsaPublicKey || v@ is StoreId
                || v@ is EddsaPublicKey || v@ is EddsaMessage,
            forall|q: int|
                0 <= q < j ==> (#[trigger] outs@[q])@ == replica_of(v@),
        decreases n - j,
    {
        let e = match v {
            NadaValue::EcdsaDigestMessage(d) => EncryptedValue::EcdsaDigestMessage(copy_bytes(d)),
            NadaValue::EcdsaPublicKey(d) => EncryptedValue::EcdsaPublicKey(copy_bytes(d)),
            NadaValue::StoreId(d) => EncryptedValue::StoreId(copy_bytes(d)),
            NadaValue::EddsaPublicKey(d) => EncryptedValue::EddsaPublicKey(copy_bytes(d)),
            NadaValue::EddsaMessage(d) => EncryptedValue::EddsaMessage(copy_bytes(d)),
            _ => {
                proof {
                    assert(false);
                }
                EncryptedValue::EddsaMessage(Vec::new())
            }
        };
        outs.push(e);
        j = j + 1;
    }
    proof {
        lemma_enc_views_index(outs@);
        let vs = enc_views(outs@);
        assert forall|q: int| 0 <= q < n implies (#[trigger] vs[q]) == replica_of(v@) by {
            assert(vs[q] == (outs@[q])@);
        }
    }
    Ok(outs)
}

/// The identical encrypted value that every party receives for a plain
/// byte-carrying public leaf.
pub open spec fn replica_of(v: ClearValue) -> EncValue {
    match v {
        ClearValue::EcdsaDigestMessage(d) => EncValue::EcdsaDigestMessage(d),
        ClearValue::EcdsaPublicKey(d) => EncValue::EcdsaPublicKey(d),
        ClearValue::StoreId(d) => EncValue::StoreId(d),
        ClearValue::EddsaPublicKey(d) => EncValue::EddsaPublicKey(d),
        ClearValue::EddsaMessage(d) => EncValue::EddsaMessage(d),
        _ => EncValue::EddsaMessage(Seq::empty()),
    }
}

/// Mask an ECDSA signature: `r` travels whole, `sigma` is split over the
/// secp256k1 group order.
fn mask_ecdsa_signature(sig_r: &Vec<u8>, sig_s: &Vec<u8>, n: usize, m: &EncodedModulo) -> (r:
    Result<Vec<EncryptedValue>, ValueError>)
    requires
        1 <= n,
        is_secp256k1_scalar(sig_r@) && be_val(sig_r@) != 0,
        is_secp256k1_scalar(sig_s@) && be_val(sig_s@) != 0,
    ensures
        r is Ok,
        match r {
            Ok(outs) => {
                &&& outs@.len() == n
                &&& masked_rel(
                    ClearValue::EcdsaSignature { r: sig_r@, s: sig_s@ },
                    enc_views(outs@),
                    *m,
                )
                &&& forall|j: int|
                    0 <= j < n ==> enc_wf(#[trigger] enc_views(outs@)[j], *m) && crate::encrypted_value::enc_type_of(
                        enc_views(outs@)[j],
                    ) == NadaType::EcdsaSignature
            },
            Err(e) => e == ValueError::MaskingError,
        },
{
    let q = secp256k1_order_le();
    let s_le = reverse_bytes(sig_s);
    let shares = share_secret(&s_le, n, &q);
    let mut outs: Vec<EncryptedValue> = Vec::new();
    let mut j: usize = 0;
    while j < n
        invariant
            j <= n,
            outs@.len() == j,
            shares@.len() == n,
            is_secp256k1_scalar(sig_r@) && be_val(sig_r@) != 0,
            forall|t: int|
                0 <= t < n ==> (#[trigger] shares@[t])@.len() == 32 && le_val(shares@[t]@)
                    < crate::curves::secp256k1_order(),
            forall|t: int|
                0 <= t < j ==> (#[trigger] outs@[t])@ == (EncValue::EcdsaSignature {
                    r: sig_r@,
                    sigma: rev_bytes(shares@[t]@),
                }),
        decreases n - j,
    {
        let sigma = reverse_bytes(&shares[j]);
        proof {
            lemma_rev_rev(shares@[j as int]@);
            assert(be_val(sigma@) == le_val(shares@[j as int]@));
        }
        outs.push(EncryptedValue::EcdsaSignature { r: copy_bytes(sig_r), sigma });
        j = j + 1;
    }
    proof {
        lemma_enc_views_index(outs@);
        let vs = enc_views(outs@);
        assert forall|t: int| 0 <= t < n implies (#[trigger] vs[t]) == (EncValue::EcdsaSignature {
            r: sig_r@,
            sigma: rev_bytes(shares@[t]@),
        }) by {
            assert(vs[t] == (outs@[t])@);
        }
        assert forall|t: int| 0 <= t < n implies is_secp256k1_scalar(
            #[trigger] vs[t].arrow_EcdsaSignature_sigma(),
        ) by {
            lemma_rev_rev(shares@[t]@);
        }
        assert(Seq::new(n as nat, |t: int| rev_bytes(vs[t].arrow_EcdsaSignature_sigma()))
            =~= shares@.map_values(|v2: Vec<u8>| v2@)) by {
            assert forall|t: int|
                0 <= t < n implies rev_bytes(vs[t].arrow_EcdsaSignature_sigma()) == shares@[t]@ by {
                lemma_rev_rev(shares@[t]@);
            }
        }
    }
    Ok(outs)
}

/// Mask an EdDSA signature: the point `r` travels whole, the scalar `z` is
/// split over the ed25519 group order.
fn mask_eddsa_signature(sig_r: &Vec<u8>, sig_z: &Vec<u8>, n: usize, m: &EncodedModulo) -> (r:
    Result<Vec<EncryptedValue>, ValueError>)
    requires
        1 <= n,
        sig_r@.len() == 32,
        crate::curves::ed25519_point(sig_r@),
        is_ed25519_scalar(sig_z@),
    ensures
        r is Ok,
        match r {
            Ok(outs) => {
                &&& outs@.len() == n
                &&& masked_rel(
                    ClearValue::EddsaSignature { r: sig_r@, z: sig_z@ },
                    enc_views(outs@),
                    *m,
                )
                &&& forall|j: int|
                    0 <= j < n ==> enc_wf(#[trigger] enc_views(outs@)[j], *m) && crate::encrypted_value::enc_type_of(
                        enc_views(outs@)[j],
                    ) == NadaType::EddsaSignature
            },
            Err(e) => e == ValueError::MaskingError,
        },
{
    let q = ed25519_order_le();
    let shares = share_secret(sig_z, n, &q);
    let mut outs: Vec<EncryptedValue> = Vec::new();
    let mut j: usize = 0;
    while j < n
        invariant
            j <= n,
            outs@.len() == j,
            shares@.len() == n,
            sig_r@.len() == 32,
            crate::curves::ed25519_point(sig_r@),
            forall|t: int|
                0 <= t < n ==> (#[trigger] shares@[t])@.len() == 32 && le_val(shares@[t]@)
                    < ed25519_order(),
            forall|t: int|
                0 <= t < j ==> (#[trigger] outs@[t])@ == (EncValue::EddsaSignature {
                    r: sig_r@,
                    z: shares@[t]@,
                }),
        decreases n - j,
    {
        outs.push(
            EncryptedValue::EddsaSignature { r: copy_bytes(sig_r), z: copy_bytes(&shares[j]) },
        );
        j = j + 1;
    }
    proof {
        lemma_enc_views_index(outs@);
        let vs = enc_views(outs@);
        assert forall|t: int| 0 <= t < n implies (#[trigger] vs[t]) == (EncValue::EddsaSignature {
            r: sig_r@,
            z: shares@[t]@,
        }) by {
            assert(vs[t] == (outs@[t])@);
        }
        assert(Seq::new(n as nat, |t: int| vs[t].arrow_EddsaSignature_z()) =~= shares@.map_values(
            |v2: Vec<u8>| v2@,
        ));
    }
    Ok(outs)
}

/// Mask a whole ECDSA signing key into one validated key share per party:
/// the secret scalar is split over the group order (every share non-zero by
/// construction), and the joint and per-party public points come from the
/// curve library.
fn mask_ecdsa_key(x: &Vec<u8>, n: usize) -> (r: Vec<EncryptedValue>)
    requires
        1 <= n <= 0xffff,
        is_secp256k1_scalar(x@),
        be_val(x@) != 0,
    ensures
        r@.len() == n,
        forall|mm: EncodedModulo|
            #[trigger] masked_rel(ClearValue::EcdsaPrivateKey(x@), enc_views(r@), mm),
        forall|j: int, mm: EncodedModulo|
            0 <= j < n ==> #[trigger] enc_wf(enc_views(r@)[j], mm),
        forall|j: int|
            0 <= j < n ==> crate::encrypted_value::enc_type_of(#[trigger] enc_views(r@)[j])
                == NadaType::EcdsaPrivateKey,
{
    let q = secp256k1_order_le();
    let x_le = reverse_bytes(x);
    proof {
        crate::curves::lemma_orders_large();
    }
    let shares = crate::sharing::share_secret_nonzero(&x_le, n, &q);
    finish_ecdsa_key(x, &shares, n)
}

/// Assemble per-party ECDSA key shares from non-zero scalar shares.
fn finish_ecdsa_key(x: &Vec<u8>, shares: &Vec<Vec<u8>>, n: usize) -> (outs: Vec<
    EncryptedValue,
>)
    requires
        1 <= n <= 0xffff,
        is_secp256k1_scalar(x@),
        be_val(x@) != 0,
        shares@.len() == n,
        forall|t: int|
            0 <= t < n ==> (#[trigger] shares@[t])@.len() == 32 && le_val(shares@[t]@)
                < crate::curves::secp256k1_order() && le_val(shares@[t]@) != 0,
        shares_sum(shares@.map_values(|v: Vec<u8>| v@), crate::curves::secp256k1_order())
            == be_val(x@),
    ensures
        outs@.len() == n,
        forall|mm: EncodedModulo|
            #[trigger] masked_rel(ClearValue::EcdsaPrivateKey(x@), enc_views(outs@), mm),
        forall|j: int, mm: EncodedModulo|
            0 <= j < n ==> #[trigger] enc_wf(enc_views(outs@)[j], mm),
        forall|j: int|
            0 <= j < n ==> crate::encrypted_value::enc_type_of(#[trigger] enc_views(outs@)[j])
                == NadaType::EcdsaPrivateKey,
{
    let spk = secp256k1_generator_mul(x);
    // Every party's public share, derived from that party's secret share.
    let mut points: Vec<Vec<u8>> = Vec::new();
    let mut xs_be: Vec<Vec<u8>> = Vec::new();
    let mut t: usize = 0;
    while t < n
        invariant
            t <= n,
            shares@.len() == n,
            points@.len() == t,
            xs_be@.len() == t,
            forall|u: int|
                0 <= u < n ==> (#[trigger] shares@[u])@.len() == 32 && le_val(shares@[u]@)
                    < crate::curves::secp256k1_order() && le_val(shares@[u]@) != 0,
            forall|u: int|
                0 <= u < t ==> (#[trigger] xs_be@[u])@ == rev_bytes(shares@[u]@)
                    && is_secp256k1_scalar(xs_be@[u]@) && be_val(xs_be@[u]@) != 0,
            forall|u: int|
                0 <= u < t ==> (#[trigger] points@[u])@ == crate::curves::secp256k1_mul_generator(
                    xs_be@[u]@,
                ) && points@[u]@.len() == 33 && crate::curves::secp256k1_nonzero_point(
                    points@[u]@,
                ),
        decreases n - t,
    {
        let xb = reverse_bytes(&shares[t]);
        proof {
            lemma_rev_rev(shares@[t as int]@);
        }
        let pt = secp256k1_generator_mul(&xb);
        xs_be.push(xb);
        points.push(pt);
        t = t + 1;
    }
    let mut outs: Vec<EncryptedValue> = Vec::new();
    let mut j: usize = 0;
    while j < n
        invariant
            1 <= n <= 0xffff,
            j <= n,
            outs@.len() == j,
            shares@.len() == n,
            xs_be@.len() == n,
            points@.len() == n,
            spk@ == crate::curves::secp256k1_mul_generator(x@) && spk@.len() == 33
                && crate::curves::secp256k1_nonzero_point(spk@),
            forall|u: int|
                0 <= u < n ==> (#[trigger] xs_be@[u])@ == rev_bytes(shares@[u]@)
                    && is_secp256k1_scalar(xs_be@[u]@) && be_val(xs_be@[u]@) != 0,
            forall|u: int|
                0 <= u < n ==> (#[trigger] points@[u])@ == crate::curves::secp256k1_mul_generator(
                    xs_be@[u]@,
                ) && points@[u]@.len() == 33 && crate::curves::secp256k1_nonzero_point(
                    points@[u]@,
                ),
            forall|u: int|
                0 <= u < j ==> (#[trigger] outs@[u])@ == EncValue::EcdsaPrivateKey(
                    crate::encrypted_value::KeyShareV {
                        i: (u + 1) as u16,
                        x: xs_be@[u]@,
                        shared_public_key: spk@,
                        public_shares: Seq::new(n as nat, |w: int| points@[w]@),
                    },
                ),
        decreases n - j,
    {
        let share = PrivateKeyShare {
            i: (j + 1) as u16,
            x: copy_bytes(&xs_be[j]),
            shared_public_key: copy_bytes(&spk),
            public_shares: crate::encrypted_value::copy_byte_mat(&points),
        };
        proof {
            assert(share@.public_shares =~= Seq::new(n as nat, |w: int| points@[w]@));
        }
        outs.push(EncryptedValue::EcdsaPrivateKey(share));
        j = j + 1;
    }
    proof {
        lemma_enc_views_index(outs@);
        let vs = enc_views(outs@);
        assert forall|u: int| 0 <= u < n implies (#[trigger] vs[u]) == EncValue::EcdsaPrivateKey(
            crate::encrypted_value::KeyShareV {
                i: (u + 1) as u16,
                x: xs_be@[u]@,
                shared_public_key: spk@,
                public_shares: Seq::new(n as nat, |w: int| points@[w]@),
            },
        ) by {
            assert(vs[u] == (outs@[u])@);
        }
        assert(Seq::new(n as nat, |u: int| rev_bytes(vs[u].arrow_EcdsaPrivateKey_0().x))
            =~= shares@.map_values(|v2: Vec<u8>| v2@)) by {
            assert forall|u: int|
                0 <= u < n implies rev_bytes(vs[u].arrow_EcdsaPrivateKey_0().x) == shares@[u]@ by {
                lemma_rev_rev(shares@[u]@);
            }
        }
    }
    outs
}

/// Mask a whole EdDSA signing key into one validated key share per party,
/// every share non-zero by construction.
fn mask_eddsa_key(x: &Vec<u8>, n: usize) -> (r: Vec<EncryptedValue>)
    requires
        1 <= n <= 0xffff,
        is_ed25519_scalar(x@),
        le_val(x@) != 0,
    ensures
        r@.len() == n,
        forall|mm: EncodedModulo|
            #[trigger] masked_rel(ClearValue::EddsaPrivateKey(x@), enc_views(r@), mm),
        forall|j: int, mm: EncodedModulo|
            0 <= j < n ==> #[trigger] enc_wf(enc_views(r@)[j], mm),
        forall|j: int|
            0 <= j < n ==> crate::encrypted_value::enc_type_of(#[trigger] enc_views(r@)[j])
                == NadaType::EddsaPrivateKey,
{
    let q = ed25519_order_le();
    proof {
        crate::curves::lemma_orders_large();
    }
    let shares = crate::sharing::share_secret_nonzero(x, n, &q);
    finish_eddsa_key(x, &shares, n)
}

/// Assemble per-party EdDSA key shares from non-zero scalar shares.
fn finish_eddsa_key(x: &Vec<u8>, shares: &Vec<Vec<u8>>, n: usize) -> (outs: Vec<
    EncryptedValue,
>)
    requires
        1 <= n <= 0xffff,
        is_ed25519_scalar(x@),
        le_val(x@) != 0,
        shares@.len() == n,
        forall|t: int|
            0 <= t < n ==> (#[trigger] shares@[t])@.len() == 32 && le_val(shares@[t]@)
                < ed25519_order() && le_val(shares@[t]@) != 0,
        shares_sum(shares@.map_values(|v: Vec<u8>| v@), ed25519_order()) == le_val(x@),
    ensures
        outs@.len() == n,
        forall|mm: EncodedModulo|
            #[trigger] masked_rel(ClearValue::EddsaPrivateKey(x@), enc_views(outs@), mm),
        forall|j: int, mm: EncodedModulo|
            0 <= j < n ==> #[trigger] enc_wf(enc_views(outs@)[j], mm),
        forall|j: int|
            0 <= j < n ==> crate::encrypted_value::enc_type_of(#[trigger] enc_views(outs@)[j])
                == NadaType::EddsaPrivateKey,
{
    let spk = ed25519_generator_mul(x);
    let mut points: Vec<Vec<u8>> = Vec::new();
    let mut t: usize = 0;
    while t < n
        invariant
            t <= n,
            shares@.len() == n,
            points@.len() == t,
            forall|u: int|
                0 <= u < n ==> (#[trigger] shares@[u])@.len() == 32 && le_val(shares@[u]@)
                    < ed25519_order() && le_val(shares@[u]@) != 0,
            forall|u: int|
                0 <= u < t ==> (#[trigger] points@[u])@ == crate::curves::ed25519_mul_generator(
                    shares@[u]@,
                ) && points@[u]@.len() == 32 && crate::curves::ed25519_nonzero_point(
                    points@[u]@,
                ),
        decreases n - t,
    {
        let pt = ed25519_generator_mul(&shares[t]);
        points.push(pt);
        t = t + 1;
    }
    let mut outs: Vec<EncryptedValue> = Vec::new();
    let mut j: usize = 0;
    while j < n
        invariant
            1 <= n <= 0xffff,
            j <= n,
            outs@.len() == j,
            shares@.len() == n,
            points@.len() == n,
            spk@ == crate::curves::ed25519_mul_generator(x@) && spk@.len() == 32
                && crate::curves::ed25519_nonzero_point(spk@),
            forall|u: int|
                0 <= u < n ==> (#[trigger] shares@[u])@.len() == 32 && le_val(shares@[u]@)
                    < ed25519_order() && le_val(shares@[u]@) != 0,
            forall|u: int|
                0 <= u < n ==> (#[trigger] points@[u])@ == crate::curves::ed25519_mul_generator(
                    shares@[u]@,
                ) && points@[u]@.len() == 32 && crate::curves::ed25519_nonzero_point(
                    points@[u]@,
                ),
            forall|u: int|
                0 <= u < j ==> (#[trigger] outs@[u])@ == EncValue::EddsaPrivateKey(
                    crate::encrypted_value::KeyShareV {
                        i: (u + 1) as u16,
                        x: shares@[u]@,
                        shared_public_key: spk@,
                        public_shares: Seq::new(n as nat, |w: int| points@[w]@),
                    },
                ),
        decreases n - j,
    {
        let share = PrivateKeyShare {
            i: (j + 1) as u16,
            x: copy_bytes(&shares[j]),
            shared_public_key: copy_bytes(&spk),
            public_shares: crate::encrypted_value::copy_byte_mat(&points),
        };
        proof {
            assert(share@.public_shares =~= Seq::new(n as nat, |w: int| points@[w]@));
        }
        outs.push(EncryptedValue::EddsaPrivateKey(share));
        j = j + 1;
    }
    proof {
        lemma_enc_views_index(outs@);
        let vs = enc_views(outs@);
        assert forall|u: int| 0 <= u < n implies (#[trigger] vs[u]) == EncValue::EddsaPrivateKey(
            crate::encrypted_value::KeyShareV {
                i: (u + 1) as u16,
                x: shares@[u]@,
                shared_public_key: spk@,
                public_shares: Seq::new(n as nat, |w: int| points@[w]@),
            },
        ) by {
            assert(vs[u] == (outs@[u])@);
        }
        assert(Seq::new(n as nat, |u: int| vs[u].arrow_EddsaPrivateKey_0().x)
            =~= shares@.map_values(|v2: Vec<u8>| v2@));
    }
    outs
}

/// Mask one clear value for `n` parties, recursing through composites;
/// succeeds exactly when every numeric leaf embeds in the configured field.
fn mask_value(v: &NadaValue, n: usize, m: &EncodedModulo) -> (r: Result<
    Vec<EncryptedValue>,
    ValueError,
>)
    requires
        1 <= n <= 0xffff,
        clear_wf(v@),
    ensures
        r is Ok <==> maskable(v@, *m),
        match r {
            Ok(outs) => {
                &&& outs@.len() == n
                &&& masked_rel(v@, enc_views(outs@), *m)
                &&& forall|j: int|
                    0 <= j < n ==> enc_wf(#[trigger] enc_views(outs@)[j], *m) && crate::encrypted_value::enc_type_of(
                        enc_views(outs@)[j],
                    ) == spec_masked_type(spec_type_of(v@))
            },
            Err(e) => e == ValueError::MaskingError,
        },
    decreases *v,
{
    match v {
        NadaValue::Array { inner_type, values } => {
            let wt = masked_type(inner_type);
            let ghost cvs = clear_views(values@);
            let mut cols: Vec<Vec<EncryptedValue>> = Vec::new();
            let mut k: usize = 0;
            proof {
                lemma_clear_views_index(values@);
            }
            while k < values.len()
                invariant
                    *v == (NadaValue::Array { inner_type: *inner_type, values: *values }),
                    1 <= n <= 0xffff,
                    clear_wf(v@),
                    k <= values@.len(),
                    cols@.len() == k,
                    cvs == clear_views(values@),
                    cvs.len() == values@.len(),
                    forall|q: int| 0 <= q < cvs.len() ==> cvs[q] == (values@[q])@,
                    forall|q: int| 0 <= q < k ==> maskable(#[trigger] cvs[q], *m),
                    forall|q: int|
                        0 <= q < k ==> (#[trigger] cols@[q])@.len() == n && masked_rel(
                            cvs[q],
                            enc_views(cols@[q]@),
                            *m,
                        ) && (forall|j: int|
                            0 <= j < n ==> enc_wf(#[trigger] enc_views(cols@[q]@)[j], *m)
                                && crate::encrypted_value::enc_type_of(enc_views(cols@[q]@)[j])
                                == spec_masked_type(spec_type_of(cvs[q]))),
                decreases values@.len() - k,
            {
                proof {
                    vstd::std_specs::vec::axiom_vec_decreases_to_view(*values);
                    vstd::seq::axiom_seq_index_decreases(values@, k as int);
                    assert(decreases_to!(*v => v.arrow_Array_values()));
                    assert(v.arrow_Array_values() == *values);
                    assert(decreases_to!(*v => values@[k as int]));
                    assert(v@.arrow_Array_values() == cvs);
                    assert(clear_wf(cvs[k as int]));
                    assert(clear_wf((values@[k as int])@));
                }
                let col = match mask_value(&values[k], n, m) {
                    Ok(c) => c,
                    Err(e) => {
                        proof {
                            assert(v@.arrow_Array_values() == cvs);
                            assert(!maskable(cvs[k as int], *m));
                            assert(!maskable(v@, *m));
                        }
                        return Err(e);
                    }
                };
                cols.push(col);
                k = k + 1;
            }
            proof {
                assert(v@.arrow_Array_values() == cvs);
                assert(maskable(v@, *m)) by {
                    assert(forall|q: int| 0 <= q < cvs.len() ==> maskable(#[trigger] cvs[q], *m));
                }
            }
            let mut outs: Vec<EncryptedValue> = Vec::new();
            let mut j: usize = 0;
            while j < n
                invariant
                    *v == (NadaValue::Array { inner_type: *inner_type, values: *values }),
                    1 <= n <= 0xffff,
                    clear_wf(v@),
                    maskable(v@, *m),
                    j <= n,
                    outs@.len() == j,
                    wt == spec_masked_type(*inner_type),
                    cols@.len() == values@.len(),
                    cvs == clear_views(values@),
                    cvs.len() == values@.len(),
                    forall|q: int| 0 <= q < cvs.len() ==> cvs[q] == (values@[q])@,
                    forall|q: int|
                        0 <= q < cols@.len() ==> (#[trigger] cols@[q])@.len() == n && (forall|
                            t: int,
                        |
                            0 <= t < n ==> enc_wf(#[trigger] enc_views(cols@[q]@)[t], *m)
                                && crate::encrypted_value::enc_type_of(enc_views(cols@[q]@)[t])
                                == spec_masked_type(spec_type_of(cvs[q]))),
                    forall|q: int|
                        0 <= q < j ==> (#[trigger] outs@[q])@ == (EncValue::Array {
                            inner_type: spec_masked_type(*inner_type),
                            values: Seq::new(
                                cols@.len() as nat,
                                |c: int| enc_views(cols@[c]@)[q],
                            ),
                        }),
                decreases n - j,
            {
                let mut elems: Vec<EncryptedValue> = Vec::new();
                let mut c: usize = 0;
                while c < cols.len()
                    invariant
                        c <= cols@.len(),
                        j < n,
                        elems@.len() == c,
                        forall|q: int| 0 <= q < cols@.len() ==> (#[trigger] cols@[q])@.len() == n,
                        forall|q: int|
                            0 <= q < c ==> (#[trigger] elems@[q])@ == (cols@[q]@[j as int])@,
                    decreases cols@.len() - c,
                {
                    elems.push(cols[c][j].duplicate());
                    c = c + 1;
                }
                let arr = EncryptedValue::Array { inner_type: wt.duplicate(), values: elems };
                proof {
                    lemma_enc_views_index(arr.arrow_Array_values()@);
                    assert forall|q: int|
                        0 <= q < cols@.len() implies enc_views(arr.arrow_Array_values()@)[q] == (
                        #[trigger] enc_views(cols@[q]@))[j as int] by {
                        lemma_enc_views_index(cols@[q]@);
                        assert(enc_views(arr.arrow_Array_values()@)[q] == (arr.arrow_Array_values()@[q])@);
                    }
                    assert(arr@.arrow_Array_values() =~= Seq::new(
                        cols@.len() as nat,
                        |c2: int| enc_views(cols@[c2]@)[j as int],
                    ));
                }
                outs.push(arr);
                j = j + 1;
            }
            proof {
                lemma_enc_views_index(outs@);
                let vs = enc_views(outs@);
                assert forall|q: int| 0 <= q < n implies (#[trigger] vs[q]) == (EncValue::Array {
                    inner_type: spec_masked_type(*inner_type),
                    values: Seq::new(cols@.len() as nat, |c: int| enc_views(cols@[c]@)[q]),
                }) by {
                    assert(vs[q] == (outs@[q])@);
                }
                let myv = v@;
                let myvalues = myv.arrow_Array_values();
                assert forall|k2: int|
                    0 <= k2 < myvalues.len() implies masked_rel(
                    #[trigger] myvalues[k2],
                    Seq::new(n as nat, |j2: int| vs[j2].arrow_Array_values()[k2]),
                    *m,
                ) by {
                    assert(myvalues[k2] == cvs[k2]);
                    assert(Seq::new(n as nat, |j2: int| vs[j2].arrow_Array_values()[k2])
                        =~= enc_views(cols@[k2]@)) by {
                        lemma_enc_views_index(cols@[k2]@);
                    }
                    assert(masked_rel(cvs[k2], enc_views(cols@[k2]@), *m));
                }
                assert forall|q: int| 0 <= q < n implies enc_wf(#[trigger] vs[q], *m)
                    && crate::encrypted_value::enc_type_of(vs[q]) == spec_masked_type(
                    spec_type_of(myv),
                ) by {
                    let inner = vs[q].arrow_Array_values();
                    assert forall|k2: int|
                        0 <= k2 < inner.len() implies enc_wf(#[trigger] inner[k2], *m)
                        && crate::encrypted_value::enc_type_of(inner[k2]) == spec_masked_type(
                        *inner_type,
                    ) by {
                        assert(inner[k2] == enc_views(cols@[k2]@)[q]);
                        assert(spec_type_of(cvs[k2]) == *inner_type);
                    }
                }
            }
            Ok(outs)
        }
        NadaValue::Tuple { left, right } => {
            let lefts = match mask_value(left, n, m) {
                Ok(c) => c,
                Err(e) => {
                    proof {
                        assert(*v@.arrow_Tuple_left() == (*left)@);
                        assert(!maskable(v@, *m));
                    }
                    return Err(e);
                }
            };
            let rights = match mask_value(right, n, m) {
                Ok(c) => c,
                Err(e) => {
                    proof {
                        assert(*v@.arrow_Tuple_right() == (*right)@);
                        assert(!maskable(v@, *m));
                    }
                    return Err(e);
                }
            };
            let mut outs: Vec<EncryptedValue> = Vec::new();
            let mut j: usize = 0;
            while j < n
                invariant
                    j <= n,
                    outs@.len() == j,
                    lefts@.len() == n,
                    rights@.len() == n,
                    forall|q: int|
                        0 <= q < j ==> (#[trigger] outs@[q])@ == (EncValue::Tuple {
                            left: Box::new((lefts@[q])@),
                            right: Box::new((rights@[q])@),
                        }),
                decreases n - j,
            {
                outs.push(
                    EncryptedValue::Tuple {
                        left: Box::new(lefts[j].duplicate()),
                        right: Box::new(rights[j].duplicate()),
                    },
                );
                j = j + 1;
            }
            proof {
                lemma_enc_views_index(outs@);
                lemma_enc_views_index(lefts@);
                lemma_enc_views_index(rights@);
                let vs = enc_views(outs@);
                assert forall|q: int| 0 <= q < n implies (#[trigger] vs[q]) == (EncValue::Tuple {
                    left: Box::new((lefts@[q])@),
                    right: Box::new((rights@[q])@),
                }) by {
                    assert(vs[q] == (outs@[q])@);
                }
                assert(Seq::new(n as nat, |q: int| *vs[q].arrow_Tuple_left()) =~= enc_views(
                    lefts@,
                ));
                assert(Seq::new(n as nat, |q: int| *vs[q].arrow_Tuple_right()) =~= enc_views(
                    rights@,
                ));
            }
            Ok(outs)
        }
        _ => mask_leaf(v, n, m),
    }
}

/// An all-zero byte string of the given width.
fn zero_bytes(w: usize) -> (r: Vec<u8>)
    ensures
        r@.len() == w,
        le_val(r@) == 0,
{
    let mut z: Vec<u8> = Vec::new();
    let mut i: usize = 0;
    while i < w
        invariant
            i <= w,
            z@.len() == i,
            forall|j: int| 0 <= j < i ==> z@[j] == 0,
        decreases w - i,
    {
        z.push(0u8);
        i = i + 1;
    }
    proof {
        crate::modular::lemma_le_val_zero(z@);
    }
    z
}

/// The modular sum of a list of field elements.
fn sum_mod_list(vals: &Vec<Vec<u8>>, p: &Vec<u8>) -> (r: Vec<u8>)
    requires
        le_val(p@) > 0,
        forall|j: int|
            0 <= j < vals@.len() ==> (#[trigger] vals@[j])@.len() == p@.len() && le_val(
                vals@[j]@,
            ) < le_val(p@),
    ensures
        r@.len() == p@.len(),
        le_val(r@) < le_val(p@),
        le_val(r@) == shares_sum(vals@.map_values(|v: Vec<u8>| v@), le_val(p@)),
{
    let mut acc = zero_bytes(p.len());
    let mut j: usize = 0;
    proof {
        assert(vals@.map_values(|v: Vec<u8>| v@).take(0) =~= Seq::empty());
    }
    while j < vals.len()
        invariant
            j <= vals@.len(),
            le_val(p@) > 0,
            acc@.len() == p@.len(),
            le_val(acc@) < le_val(p@),
            forall|q: int|
                0 <= q < vals@.len() ==> (#[trigger] vals@[q])@.len() == p@.len() && le_val(
                    vals@[q]@,
                ) < le_val(p@),
            le_val(acc@) == shares_sum(
                vals@.map_values(|v: Vec<u8>| v@).take(j as int),
                le_val(p@),
            ),
        decreases vals@.len() - j,
    {
        proof {
            let mv = vals@.map_values(|v: Vec<u8>| v@);
            assert(mv.take(j + 1).drop_last() =~= mv.take(j as int));
            assert(mv.take(j + 1).last() == mv[j as int]);
        }
        acc = combine_share(&acc, &vals[j], p);
        j = j + 1;
    }
    proof {
        assert(vals@.map_values(|v: Vec<u8>| v@).take(vals@.len() as int) =~= vals@.map_values(
            |v: Vec<u8>| v@,
        ));
    }
    acc
}

/// A reconstructed field element stands for some signed machine integer:
/// extraction lands in range and embeds back onto the same element.
pub open spec fn int_reconstructible(s: nat, p: nat) -> bool {
    &&& crate::modular::int_of_field(s, p) >= i64::MIN
    &&& crate::modular::int_of_field(s, p) <= i64::MAX
    &&& crate::modular::int_embeds(crate::modular::int_of_field(s, p), p)
    &&& field_of_int(crate::modular::int_of_field(s, p), p) == s
}

/// The parties' summed field elements for a run of integer shares.
pub open spec fn share_int_sum(rows: Seq<EncValue>, m: EncodedModulo) -> nat {
    shares_sum(
        Seq::new(rows.len(), |j: int| rows[j].arrow_ShamirShareInteger_0().value),
        m.spec_prime(),
    )
}

/// The modular sum of the parties' field elements for one blob chunk.
pub open spec fn blob_column_sum(rows: Seq<EncValue>, m: EncodedModulo, c: int) -> nat {
    shares_sum(
        Seq::new(rows.len(), |j: int| rows[j].arrow_SecretBlob_values()[c].value),
        m.spec_prime(),
    )
}

/// The parties' encrypted values for one name, in jar order.
pub open spec fn jar_column(
    elements: Seq<(PartyId, NamedEncryptedValues)>,
    k: int,
) -> Seq<EncValue> {
    Seq::new(elements.len(), |j: int| ((elements[j].1)@[k].1)@)
}

/// The parties' array elements at one position.
pub open spec fn array_column(rows: Seq<EncValue>, c: int) -> Seq<EncValue> {
    Seq::new(rows.len(), |j: int| rows[j].arrow_Array_values()[c])
}

/// Whether a run of per-party values reconstructs into one clear value:
/// the exact success condition of unmasking one name.
pub open spec fn reconstructible(rows: Seq<EncValue>, m: EncodedModulo) -> bool
    decreases rows[0],
    via reconstructible_decreases
{
    let n = rows.len();
    let p = m.spec_prime();
    n >= 1 && match rows[0] {
        EncValue::ShamirShareInteger(_) => {
            &&& forall|j: int|
                0 <= j < n ==> (#[trigger] rows[j]) is ShamirShareInteger && rows[
                    j].arrow_ShamirShareInteger_0().wf() && rows[j].arrow_ShamirShareInteger_0().modulo
                    == m
            &&& int_reconstructible(share_int_sum(rows, m), p)
        },
        EncValue::ShamirShareUnsignedInteger(_) => {
            &&& forall|j: int|
                0 <= j < n ==> (#[trigger] rows[j]) is ShamirShareUnsignedInteger && rows[
                    j].arrow_ShamirShareUnsignedInteger_0().wf() && rows[
                    j].arrow_ShamirShareUnsignedInteger_0().modulo == m
            &&& shares_sum(
                Seq::new(n, |j: int| rows[j].arrow_ShamirShareUnsignedInteger_0().value),
                p,
            ) <= u64::MAX
        },
        EncValue::ShamirShareBoolean(_) => {
            &&& forall|j: int|
                0 <= j < n ==> (#[trigger] rows[j]) is ShamirShareBoolean && rows[
                    j].arrow_ShamirShareBoolean_0().wf() && rows[j].arrow_ShamirShareBoolean_0().modulo
                    == m
            &&& shares_sum(Seq::new(n, |j: int| rows[j].arrow_ShamirShareBoolean_0().value), p)
                <= 1
        },
        EncValue::Integer(first) => {
            &&& first.wf() && first.modulo == m
            &&& forall|j: int|
                0 <= j < n ==> (#[trigger] rows[j]) is Integer && rows[j].arrow_Integer_0().modulo
                    == m && rows[j].arrow_Integer_0().value == first.value
            &&& int_reconstructible(first.val(), p)
        },
        EncValue::UnsignedInteger(first) => {
            &&& first.wf() && first.modulo == m
            &&& forall|j: int|
                0 <= j < n ==> (#[trigger] rows[j]) is UnsignedInteger && rows[
                    j].arrow_UnsignedInteger_0().modulo == m && rows[j].arrow_UnsignedInteger_0().value
                    == first.value
            &&& first.val() <= u64::MAX
        },
        EncValue::Boolean(first) => {
            &&& first.wf() && first.modulo == m
            &&& forall|j: int|
                0 <= j < n ==> (#[trigger] rows[j]) is Boolean && rows[j].arrow_Boolean_0().modulo
                    == m && rows[j].arrow_Boolean_0().value == first.value
            &&& first.val() <= 1
        },
        EncValue::SecretBlob { values: v0, unencoded_size: size } => {
            let count = spec_num_chunks(size as nat, m);
            let cs = crate::chunking::spec_chunk_len(m) as int;
            &&& size <= usize::MAX
            &&& forall|j: int|
                0 <= j < n ==> (#[trigger] rows[j]) is SecretBlob && rows[
                    j].arrow_SecretBlob_unencoded_size() == size && rows[
                    j].arrow_SecretBlob_values().len() == count && (forall|c: int|
                    0 <= c < count ==> (#[trigger] rows[j].arrow_SecretBlob_values()[c]).wf()
                        && rows[j].arrow_SecretBlob_values()[c].modulo == m)
            &&& forall|c: int|
                0 <= c < count ==> #[trigger] blob_column_sum(rows, m, c)
                    < crate::modular::pow256(
                    if (c + 1) * cs <= size { cs } else { size - c * cs } as nat,
                )
        },
        EncValue::EcdsaDigestMessage(d0) => d0.len() == 32 && forall|j: int|
            0 <= j < n ==> (#[trigger] rows[j]) == rows[0],
        EncValue::EcdsaPublicKey(d0) => d0.len() == 33 && forall|j: int|
            0 <= j < n ==> (#[trigger] rows[j]) == rows[0],
        EncValue::StoreId(d0) => d0.len() == 16 && forall|j: int|
            0 <= j < n ==> (#[trigger] rows[j]) == rows[0],
        EncValue::EddsaPublicKey(d0) => d0.len() == 32 && forall|j: int|
            0 <= j < n ==> (#[trigger] rows[j]) == rows[0],
        EncValue::EddsaMessage(d0) => forall|j: int|
            0 <= j < n ==> (#[trigger] rows[j]) == rows[0],
        EncValue::EcdsaSignature { r: r0, .. } => {
            &&& is_secp256k1_scalar(r0) && be_val(r0) != 0
            &&& forall|j: int|
                0 <= j < n ==> (#[trigger] rows[j]) is EcdsaSignature && rows[
                    j].arrow_EcdsaSignature_r() == r0 && is_secp256k1_scalar(
                    rows[j].arrow_EcdsaSignature_sigma(),
                )
            &&& shares_sum(
                Seq::new(n, |j: int| rev_bytes(rows[j].arrow_EcdsaSignature_sigma())),
                secp256k1_order(),
            ) != 0
        },
        EncValue::EddsaSignature { r: r0, .. } => {
            &&& r0.len() == 32 && crate::curves::ed25519_point(r0)
            &&& forall|j: int|
                0 <= j < n ==> (#[trigger] rows[j]) is EddsaSignature && rows[
                    j].arrow_EddsaSignature_r() == r0 && is_ed25519_scalar(
                    rows[j].arrow_EddsaSignature_z(),
                )
        },
        EncValue::EcdsaPrivateKey(_) => {
            let xsum = shares_sum(
                Seq::new(n, |j: int| rev_bytes(rows[j].arrow_EcdsaPrivateKey_0().x)),
                secp256k1_order(),
            );
            let xbe = rev_bytes(crate::modular::le_bytes(xsum, 32));
            &&& n <= 0xffff
            &&& forall|j: int|
                0 <= j < n ==> (#[trigger] rows[j]) is EcdsaPrivateKey && rows[
                    j].arrow_EcdsaPrivateKey_0().i == j + 1 && is_secp256k1_scalar(
                    rows[j].arrow_EcdsaPrivateKey_0().x,
                ) && be_val(rows[j].arrow_EcdsaPrivateKey_0().x) != 0 && rows[
                    j].arrow_EcdsaPrivateKey_0().public_shares.len() == n
            &&& xsum != 0
            &&& forall|j: int|
                0 <= j < n ==> (#[trigger] rows[j]).arrow_EcdsaPrivateKey_0().shared_public_key
                    == crate::curves::secp256k1_mul_generator(xbe) && (forall|t: int|
                    0 <= t < n ==> #[trigger] rows[j].arrow_EcdsaPrivateKey_0().public_shares[t]
                        == crate::curves::secp256k1_mul_generator(
                        rows[t].arrow_EcdsaPrivateKey_0().x,
                    ))
        },
        EncValue::EddsaPrivateKey(_) => {
            let xsum = shares_sum(
                Seq::new(n, |j: int| rows[j].arrow_EddsaPrivateKey_0().x),
                ed25519_order(),
            );
            let xle = crate::modular::le_bytes(xsum, 32);
            &&& n <= 0xffff
            &&& forall|j: int|
                0 <= j < n ==> (#[trigger] rows[j]) is EddsaPrivateKey && rows[
                    j].arrow_EddsaPrivateKey_0().i == j + 1 && is_ed25519_scalar(
                    rows[j].arrow_EddsaPrivateKey_0().x,
                ) && le_val(rows[j].arrow_EddsaPrivateKey_0().x) != 0 && rows[
                    j].arrow_EddsaPrivateKey_0().public_shares.len() == n
            &&& xsum != 0
            &&& forall|j: int|
                0 <= j < n ==> (#[trigger] rows[j]).arrow_EddsaPrivateKey_0().shared_public_key
                    == crate::curves::ed25519_mul_generator(xle) && (forall|t: int|
                    0 <= t < n ==> #[trigger] rows[j].arrow_EddsaPrivateKey_0().public_shares[t]
                        == crate::curves::ed25519_mul_generator(
                        rows[t].arrow_EddsaPrivateKey_0().x,
                    ))
        },
        EncValue::Array { inner_type: it0, values: v0 } => {
            &&& v0.len() >= 1
            &&& forall|j: int|
                0 <= j < n ==> (#[trigger] rows[j]) is Array && rows[j].arrow_Array_inner_type()
                    == it0 && rows[j].arrow_Array_values().len() == v0.len()
            &&& forall|c: int|
                #![trigger array_column(rows, c)]
                0 <= c < v0.len() ==> reconstructible(array_column(rows, c), m)
            &&& forall|c: int|
                0 <= c < v0.len() ==> crate::spec_masked_type(
                    crate::spec_unmasked_type(crate::encrypted_value::enc_type_of(
                        #[trigger] v0[c],
                    )),
                ) == it0
        },
        EncValue::Tuple { .. } => {
            &&& forall|j: int| 0 <= j < n ==> (#[trigger] rows[j]) is Tuple
            &&& reconstructible(Seq::new(n, |j: int| *rows[j].arrow_Tuple_left()), m)
            &&& reconstructible(Seq::new(n, |j: int| *rows[j].arrow_Tuple_right()), m)
        },
    }
}

#[via_fn]
proof fn reconstructible_decreases(rows: Seq<EncValue>, m: EncodedModulo) {
    if rows.len() >= 1 {
        let n = rows.len();
        match rows[0] {
            EncValue::Array { inner_type: it0, values: v0 } => {
                assert forall|c: int| #![trigger v0[c]] 0 <= c < v0.len() implies decreases_to!(
                    rows[0] => array_column(rows, c)[0]
                ) by {
                    vstd::seq::axiom_seq_index_decreases(v0, c);
                    assert(decreases_to!(rows[0] => rows[0].arrow_Array_values()));
                    assert(array_column(rows, c)[0] == v0[c]);
                }
            }
            EncValue::Tuple { .. } => {
                assert(decreases_to!(rows[0] => *rows[0].arrow_Tuple_left()));
                assert(decreases_to!(rows[0] => *rows[0].arrow_Tuple_right()));
                assert(Seq::new(n, |j: int| *rows[j].arrow_Tuple_left())[0] == *rows[
                    0].arrow_Tuple_left());
                assert(Seq::new(n, |j: int| *rows[j].arrow_Tuple_right())[0] == *rows[
                    0].arrow_Tuple_right());
            }
            _ => {}
        }
    }
}

/// Reconstruct a secret integer from one share per party.
fn unmask_share_int(rows: &Vec<EncryptedValue>, m: &EncodedModulo) -> (r: Result<
    NadaValue,
    ValueError,
>)
    requires
        rows@.len() >= 1,
        (rows@[0])@ is ShamirShareInteger,
    ensures
        r is Ok <==> reconstructible(enc_views(rows@), *m),
        match r {
            Ok(v) => clear_wf(v@) && masked_rel(v@, enc_views(rows@), *m),
            Err(e) => e == ValueError::ReconstructionError,
        },
{
    let w = m.width();
    let p = m.prime_bytes();
    proof {
        crate::modular::lemma_prime_large(*m);
        lemma_enc_views_index(rows@);
    }
    let mut vals: Vec<Vec<u8>> = Vec::new();
    let mut j: usize = 0;
    while j < rows.len()
        invariant
            j <= rows@.len(),
            vals@.len() == j,
            w == m.spec_width(),
            p@ == m.spec_prime_bytes(),
            (rows@[0])@ is ShamirShareInteger,
            enc_views(rows@).len() == rows@.len(),
            forall|q: int|
                0 <= q < rows@.len() ==> (#[trigger] enc_views(rows@)[q]) == (rows@[q])@,
            forall|q: int|
                0 <= q < j ==> (#[trigger] enc_views(rows@)[q]) is ShamirShareInteger && enc_views(
                    rows@,
                )[q].arrow_ShamirShareInteger_0().wf() && enc_views(rows@)[q].arrow_ShamirShareInteger_0().modulo == *m
                    && vals@[q]@ == enc_views(rows@)[q].arrow_ShamirShareInteger_0().value,
        decreases rows@.len() - j,
    {
        match &rows[j] {
            EncryptedValue::ShamirShareInteger(num) => {
                proof {
                    assert(enc_views(rows@)[j as int] == (rows@[j as int])@);
                    assert((rows@[j as int])@ == EncValue::ShamirShareInteger(num@));
                }
                if num.value.len() != w {
                    proof {
                        assert(!reconstructible(enc_views(rows@), *m));
                    }
                    return Err(ValueError::ReconstructionError);
                }
                if !(num.modulo == *m) {
                    proof {
                        assert(!reconstructible(enc_views(rows@), *m));
                    }
                    return Err(ValueError::ReconstructionError);
                }
                if !bytes_lt(&num.value, &p) {
                    proof {
                        assert(!reconstructible(enc_views(rows@), *m));
                    }
                    return Err(ValueError::ReconstructionError);
                }
                vals.push(copy_bytes(&num.value));
            }
            _ => {
                proof {
                    assert(enc_views(rows@)[j as int] == (rows@[j as int])@);
                    assert(!((rows@[j as int])@ is ShamirShareInteger));
                    assert(!reconstructible(enc_views(rows@), *m));
                }
                return Err(ValueError::ReconstructionError);
            }
        }
        j = j + 1;
    }
    proof {
        assert forall|q: int|
            0 <= q < vals@.len() implies (#[trigger] vals@[q])@.len() == p@.len() && le_val(
            vals@[q]@,
        ) < le_val(p@) by {
            assert(enc_views(rows@)[q].arrow_ShamirShareInteger_0().wf());
            assert(vals@[q]@ == enc_views(rows@)[q].arrow_ShamirShareInteger_0().value);
        }
    }
    let acc = sum_mod_list(&vals, &p);
    proof {
        assert(Seq::new(
            rows@.len() as nat,
            |q: int| enc_views(rows@)[q].arrow_ShamirShareInteger_0().value,
        ) =~= vals@.map_values(|v: Vec<u8>| v@));
        assert(share_int_sum(enc_views(rows@), *m) == le_val(acc@));
    }
    let x = match decode_i64(&acc, m) {
        Some(x) => x,
        None => {
            proof {
                assert(!int_reconstructible(le_val(acc@), m.spec_prime()));
                assert(!reconstructible(enc_views(rows@), *m));
            }
            return Err(ValueError::ReconstructionError);
        }
    };
    // Tie the reconstructed field element to the signed value it stands for.
    let renc = match encode_i64(x, m) {
        Some(b) => b,
        None => {
            proof {
                assert(!int_reconstructible(le_val(acc@), m.spec_prime()));
                assert(!reconstructible(enc_views(rows@), *m));
            }
            return Err(ValueError::ReconstructionError);
        }
    };
    if !bytes_eq(&renc, &acc) {
        proof {
            if field_of_int(x as int, m.spec_prime()) == le_val(acc@) {
                crate::modular::lemma_le_val_injective(renc@, acc@);
            }
            assert(!int_reconstructible(le_val(acc@), m.spec_prime()));
            assert(!reconstructible(enc_views(rows@), *m));
        }
        return Err(ValueError::ReconstructionError);
    }
    proof {
        assert(int_reconstructible(le_val(acc@), m.spec_prime()));
        assert(reconstructible(enc_views(rows@), *m));
    }
    Ok(NadaValue::SecretInteger(x))
}

/// Reconstruct a secret unsigned integer from one share per party.
fn unmask_share_uint(rows: &Vec<EncryptedValue>, m: &EncodedModulo) -> (r: Result<
    NadaValue,
    ValueError,
>)
    requires
        rows@.len() >= 1,
        (rows@[0])@ is ShamirShareUnsignedInteger,
    ensures
        r is Ok <==> reconstructible(enc_views(rows@), *m),
        match r {
            Ok(v) => clear_wf(v@) && masked_rel(v@, enc_views(rows@), *m),
            Err(e) => e == ValueError::ReconstructionError,
        },
{
    let w = m.width();
    let p = m.prime_bytes();
    proof {
        crate::modular::lemma_prime_large(*m);
        lemma_enc_views_index(rows@);
    }
    let mut vals: Vec<Vec<u8>> = Vec::new();
    let mut j: usize = 0;
    while j < rows.len()
        invariant
            j <= rows@.len(),
            vals@.len() == j,
            w == m.spec_width(),
            p@ == m.spec_prime_bytes(),
            (rows@[0])@ is ShamirShareUnsignedInteger,
            enc_views(rows@).len() == rows@.len(),
            forall|q: int|
                0 <= q < rows@.len() ==> (#[trigger] enc_views(rows@)[q]) == (rows@[q])@,
            forall|q: int|
                0 <= q < j ==> (#[trigger] enc_views(rows@)[q]) is ShamirShareUnsignedInteger && enc_views(
                    rows@,
                )[q].arrow_ShamirShareUnsignedInteger_0().wf() && enc_views(rows@)[q].arrow_ShamirShareUnsignedInteger_0().modulo == *m
                    && vals@[q]@ == enc_views(rows@)[q].arrow_ShamirShareUnsignedInteger_0().value,
        decreases rows@.len() - j,
    {
        match &rows[j] {
            EncryptedValue::ShamirShareUnsignedInteger(num) => {
                proof {
                    assert(enc_views(rows@)[j as int] == (rows@[j as int])@);
                    assert((rows@[j as int])@ == EncValue::ShamirShareUnsignedInteger(num@));
                }
                if num.value.len() != w {
                    proof {
                        assert(!reconstructible(enc_views(rows@), *m));
                    }
                    return Err(ValueError::ReconstructionError);
                }
                if !(num.modulo == *m) {
                    proof {
                        assert(!reconstructible(enc_views(rows@), *m));
                    }
                    return Err(ValueError::ReconstructionError);
                }
                if !bytes_lt(&num.value, &p) {
                    proof {
                        assert(!reconstructible(enc_views(rows@), *m));
                    }
                    return Err(ValueError::ReconstructionError);
                }
                vals.push(copy_bytes(&num.value));
            }
            _ => {
                proof {
                    assert(enc_views(rows@)[j as int] == (rows@[j as int])@);
                    assert(!((rows@[j as int])@ is ShamirShareUnsignedInteger));
                    assert(!reconstructible(enc_views(rows@), *m));
                }
                return Err(ValueError::ReconstructionError);
            }
        }
        j = j + 1;
    }
    proof {
        assert forall|q: int|
            0 <= q < vals@.len() implies (#[trigger] vals@[q])@.len() == p@.len() && le_val(
            vals@[q]@,
        ) < le_val(p@) by {
            assert(enc_views(rows@)[q].arrow_ShamirShareUnsignedInteger_0().wf());
            assert(vals@[q]@ == enc_views(rows@)[q].arrow_ShamirShareUnsignedInteger_0().value);
        }
    }
    let acc = sum_mod_list(&vals, &p);
    proof {
        assert(Seq::new(
            rows@.len() as nat,
            |q: int| enc_views(rows@)[q].arrow_ShamirShareUnsignedInteger_0().value,
        ) =~= vals@.map_values(|v: Vec<u8>| v@));
    }
    let x = match decode_u64_field(&acc, m) {
        Some(x) => x,
        None => {
            proof {
                assert(!reconstructible(enc_views(rows@), *m));
            }
            return Err(ValueError::ReconstructionError);
        }
    };
    proof {
        assert(reconstructible(enc_views(rows@), *m));
    }
    Ok(NadaValue::SecretUnsignedInteger(x))
}

/// Reconstruct a secret boolean from one share per party.
fn unmask_share_bool(rows: &Vec<EncryptedValue>, m: &EncodedModulo) -> (r: Result<
    NadaValue,
    ValueError,
>)
    requires
        rows@.len() >= 1,
        (rows@[0])@ is ShamirShareBoolean,
    ensures
        r is Ok <==> reconstructible(enc_views(rows@), *m),
        match r {
            Ok(v) => clear_wf(v@) && masked_rel(v@, enc_views(rows@), *m),
            Err(e) => e == ValueError::ReconstructionError,
        },
{
    let w = m.width();
    let p = m.prime_bytes();
    proof {
        crate::modular::lemma_prime_large(*m);
        lemma_enc_views_index(rows@);
    }
    let mut vals: Vec<Vec<u8>> = Vec::new();
    let mut j: usize = 0;
    while j < rows.len()
        invariant
            j <= rows@.len(),
            vals@.len() == j,
            w == m.spec_width(),
            p@ == m.spec_prime_bytes(),
            (rows@[0])@ is ShamirShareBoolean,
            enc_views(rows@).len() == rows@.len(),
            forall|q: int|
                0 <= q < rows@.len() ==> (#[trigger] enc_views(rows@)[q]) == (rows@[q])@,
            forall|q: int|
                0 <= q < j ==> (#[trigger] enc_views(rows@)[q]) is ShamirShareBoolean && enc_views(
                    rows@,
                )[q].arrow_ShamirShareBoolean_0().wf() && enc_views(rows@)[q].arrow_ShamirShareBoolean_0().modulo == *m
                    && vals@[q]@ == enc_views(rows@)[q].arrow_ShamirShareBoolean_0().value,
        decreases rows@.len() - j,
    {
        match &rows[j] {
            EncryptedValue::ShamirShareBoolean(num) => {
                proof {
                    assert(enc_views(rows@)[j as int] == (rows@[j as int])@);
                    assert((rows@[j as int])@ == EncValue::ShamirShareBoolean(num@));
                }
                if num.value.len() != w {
                    proof {
                        assert(!reconstructible(enc_views(rows@), *m));
                    }
                    return Err(ValueError::ReconstructionError);
                }
                if !(num.modulo == *m) {
                    proof {
                        assert(!reconstructible(enc_views(rows@), *m));
                    }
                    return Err(ValueError::ReconstructionError);
                }
                if !bytes_lt(&num.value, &p) {
                    proof {
                        assert(!reconstructible(enc_views(rows@), *m));
                    }
                    return Err(ValueError::ReconstructionError);
                }
                vals.push(copy_bytes(&num.value));
            }
            _ => {
                proof {
                    assert(enc_views(rows@)[j as int] == (rows@[j as int])@);
                    assert(!((rows@[j as int])@ is ShamirShareBoolean));
                    assert(!reconstructible(enc_views(rows@), *m));
                }
                return Err(ValueError::ReconstructionError);
            }
        }
        j = j + 1;
    }
    proof {
        assert forall|q: int|
            0 <= q < vals@.len() implies (#[trigger] vals@[q])@.len() == p@.len() && le_val(
            vals@[q]@,
        ) < le_val(p@) by {
            assert(enc_views(rows@)[q].arrow_ShamirShareBoolean_0().wf());
            assert(vals@[q]@ == enc_views(rows@)[q].arrow_ShamirShareBoolean_0().value);
        }
    }
    let acc = sum_mod_list(&vals, &p);
    proof {
        assert(Seq::new(
            rows@.len() as nat,
            |q: int| enc_views(rows@)[q].arrow_ShamirShareBoolean_0().value,
        ) =~= vals@.map_values(|v: Vec<u8>| v@));
    }
    let x = match decode_bool(&acc, m) {
        Some(x) => x,
        None => {
            proof {
                assert(!reconstructible(enc_views(rows@), *m));
            }
            return Err(ValueError::ReconstructionError);
        }
    };
    proof {
        assert(reconstructible(enc_views(rows@), *m));
    }
    Ok(NadaValue::SecretBoolean(x))
}

/// Read back a public integer that every party holds identically.
fn unmask_public_int(rows: &Vec<EncryptedValue>, m: &EncodedModulo) -> (r: Result<
    NadaValue,
    ValueError,
>)
    requires
        rows@.len() >= 1,
        (rows@[0])@ is Integer,
    ensures
        r is Ok <==> reconstructible(enc_views(rows@), *m),
        match r {
            Ok(v) => clear_wf(v@) && masked_rel(v@, enc_views(rows@), *m),
            Err(e) => e == ValueError::ReconstructionError,
        },
{
    let w = m.width();
    let p = m.prime_bytes();
    proof {
        crate::modular::lemma_prime_large(*m);
        lemma_enc_views_index(rows@);
    }
    let first = match &rows[0] {
        EncryptedValue::Integer(num) => num,
        _ => {
            proof {
                assert(false);
            }
            return Err(ValueError::ReconstructionError);
        }
    };
    proof {
        assert((rows@[0])@ == EncValue::Integer(first@));
    }
    if first.value.len() != w || !(first.modulo == *m) || !bytes_lt(&first.value, &p) {
        proof {
            assert(!reconstructible(enc_views(rows@), *m));
        }
        return Err(ValueError::ReconstructionError);
    }
    let mut j: usize = 0;
    while j < rows.len()
        invariant
            j <= rows@.len(),
            w == m.spec_width(),
            p@ == m.spec_prime_bytes(),
            first@.wf() && first@.modulo == *m,
            (rows@[0])@ == EncValue::Integer(first@),
            enc_views(rows@).len() == rows@.len(),
            forall|q: int|
                0 <= q < rows@.len() ==> (#[trigger] enc_views(rows@)[q]) == (rows@[q])@,
            forall|q: int|
                0 <= q < j ==> (#[trigger] enc_views(rows@)[q]) is Integer && enc_views(
                    rows@,
                )[q].arrow_Integer_0().wf() && enc_views(rows@)[q].arrow_Integer_0().modulo == *m
                    && enc_views(rows@)[q].arrow_Integer_0().value == first@.value,
        decreases rows@.len() - j,
    {
        match &rows[j] {
            EncryptedValue::Integer(num) => {
                proof {
                    assert(enc_views(rows@)[j as int] == (rows@[j as int])@);
                    assert((rows@[j as int])@ == EncValue::Integer(num@));
                }
                if !(num.modulo == *m) {
                    proof {
                        assert(!reconstructible(enc_views(rows@), *m));
                    }
                    return Err(ValueError::ReconstructionError);
                }
                if !bytes_eq(&num.value, &first.value) {
                    proof {
                        assert(!reconstructible(enc_views(rows@), *m));
                    }
                    return Err(ValueError::ReconstructionError);
                }
            }
            _ => {
                proof {
                    assert(enc_views(rows@)[j as int] == (rows@[j as int])@);
                    assert(!((rows@[j as int])@ is Integer));
                    assert(!reconstructible(enc_views(rows@), *m));
                }
                return Err(ValueError::ReconstructionError);
            }
        }
        j = j + 1;
    }
    let acc = copy_bytes(&first.value);
    let x = match decode_i64(&acc, m) {
        Some(x) => x,
        None => {
            proof {
                assert(!int_reconstructible(first@.val(), m.spec_prime()));
                assert(!reconstructible(enc_views(rows@), *m));
            }
            return Err(ValueError::ReconstructionError);
        }
    };
    // Tie the reconstructed field element to the signed value it stands for.
    let renc = match encode_i64(x, m) {
        Some(b) => b,
        None => {
            proof {
                assert(!int_reconstructible(first@.val(), m.spec_prime()));
                assert(!reconstructible(enc_views(rows@), *m));
            }
            return Err(ValueError::ReconstructionError);
        }
    };
    if !bytes_eq(&renc, &acc) {
        proof {
            if field_of_int(x as int, m.spec_prime()) == le_val(acc@) {
                crate::modular::lemma_le_val_injective(renc@, acc@);
            }
            assert(!int_reconstructible(first@.val(), m.spec_prime()));
            assert(!reconstructible(enc_views(rows@), *m));
        }
        return Err(ValueError::ReconstructionError);
    }
    proof {
        assert(int_reconstructible(first@.val(), m.spec_prime()));
        assert(reconstructible(enc_views(rows@), *m));
    }
    Ok(NadaValue::Integer(x))
}

/// Read back a public unsigned integer that every party holds identically.
fn unmask_public_uint(rows: &Vec<EncryptedValue>, m: &EncodedModulo) -> (r: Result<
    NadaValue,
    ValueError,
>)
    requires
        rows@.len() >= 1,
        (rows@[0])@ is UnsignedInteger,
    ensures
        r is Ok <==> reconstructible(enc_views(rows@), *m),
        match r {
            Ok(v) => clear_wf(v@) && masked_rel(v@, enc_views(rows@), *m),
            Err(e) => e == ValueError::ReconstructionError,
        },
{
    let w = m.width();
    let p = m.prime_bytes();
    proof {
        crate::modular::lemma_prime_large(*m);
        lemma_enc_views_index(rows@);
    }
    let first = match &rows[0] {
        EncryptedValue::UnsignedInteger(num) => num,
        _ => {
            proof {
                assert(false);
            }
            return Err(ValueError::ReconstructionError);
        }
    };
    proof {
        assert((rows@[0])@ == EncValue::UnsignedInteger(first@));
    }
    if first.value.len() != w || !(first.modulo == *m) || !bytes_lt(&first.value, &p) {
        proof {
            assert(!reconstructible(enc_views(rows@), *m));
        }
        return Err(ValueError::ReconstructionError);
    }
    let mut j: usize = 0;
    while j < rows.len()
        invariant
            j <= rows@.len(),
            w == m.spec_width(),
            p@ == m.spec_prime_bytes(),
            first@.wf() && first@.modulo == *m,
            (rows@[0])@ == EncValue::UnsignedInteger(first@),
            enc_views(rows@).len() == rows@.len(),
            forall|q: int|
                0 <= q < rows@.len() ==> (#[trigger] enc_views(rows@)[q]) == (rows@[q])@,
            forall|q: int|
                0 <= q < j ==> (#[trigger] enc_views(rows@)[q]) is UnsignedInteger && enc_views(
                    rows@,
                )[q].arrow_UnsignedInteger_0().wf() && enc_views(rows@)[q].arrow_UnsignedInteger_0().modulo == *m
                    && enc_views(rows@)[q].arrow_UnsignedInteger_0().value == first@.value,
        decreases rows@.len() - j,
    {
        match &rows[j] {
            EncryptedValue::UnsignedInteger(num) => {
                proof {
                    assert(enc_views(rows@)[j as int] == (rows@[j as int])@);
                    assert((rows@[j as int])@ == EncValue::UnsignedInteger(num@));
                }
                if !(num.modulo == *m) {
                    proof {
                        assert(!reconstructible(enc_views(rows@), *m));
                    }
                    return Err(ValueError::ReconstructionError);
                }
                if !bytes_eq(&num.value, &first.value) {
                    proof {
                        assert(!reconstructible(enc_views(rows@), *m));
                    }
                    return Err(ValueError::ReconstructionError);
                }
            }
            _ => {
                proof {
                    assert(enc_views(rows@)[j as int] == (rows@[j as int])@);
                    assert(!((rows@[j as int])@ is UnsignedInteger));
                    assert(!reconstructible(enc_views(rows@), *m));
                }
                return Err(ValueError::ReconstructionError);
            }
        }
        j = j + 1;
    }
    let acc = copy_bytes(&first.value);
    let x = match decode_u64_field(&acc, m) {
        Some(x) => x,
        None => {
            proof {
                assert(!reconstructible(enc_views(rows@), *m));
            }
            return Err(ValueError::ReconstructionError);
        }
    };
    proof {
        assert(reconstructible(enc_views(rows@), *m));
    }
    Ok(NadaValue::UnsignedInteger(x))
}

/// Read back a public boolean that every party holds identically.
fn unmask_public_bool(rows: &Vec<EncryptedValue>, m: &EncodedModulo) -> (r: Result<
    NadaValue,
    ValueError,
>)
    requires
        rows@.len() >= 1,
        (rows@[0])@ is Boolean,
    ensures
        r is Ok <==> reconstructible(enc_views(rows@), *m),
        match r {
            Ok(v) => clear_wf(v@) && masked_rel(v@, enc_views(rows@), *m),
            Err(e) => e == ValueError::ReconstructionError,
        },
{
    let w = m.width();
    let p = m.prime_bytes();
    proof {
        crate::modular::lemma_prime_large(*m);
        lemma_enc_views_index(rows@);
    }
    let first = match &rows[0] {
        EncryptedValue::Boolean(num) => num,
        _ => {
            proof {
                assert(false);
            }
            return Err(ValueError::ReconstructionError);
        }
    };
    proof {
        assert((rows@[0])@ == EncValue::Boolean(first@));
    }
    if first.value.len() != w || !(first.modulo == *m) || !bytes_lt(&first.value, &p) {
        proof {
            assert(!reconstructible(enc_views(rows@), *m));
        }
        return Err(ValueError::ReconstructionError);
    }
    let mut j: usize = 0;
    while j < rows.len()
        invariant
            j <= rows@.len(),
            w == m.spec_width(),
            p@ == m.spec_prime_bytes(),
            first@.wf() && first@.modulo == *m,
            (rows@[0])@ == EncValue::Boolean(first@),
            enc_views(rows@).len() == rows@.len(),
            forall|q: int|
                0 <= q < rows@.len() ==> (#[trigger] enc_views(rows@)[q]) == (rows@[q])@,
            forall|q: int|
                0 <= q < j ==> (#[trigger] enc_views(rows@)[q]) is Boolean && enc_views(
                    rows@,
                )[q].arrow_Boolean_0().wf() && enc_views(rows@)[q].arrow_Boolean_0().modulo == *m
                    && enc_views(rows@)[q].arrow_Boolean_0().value == first@.value,
        decreases rows@.len() - j,
    {
        match &rows[j] {
            EncryptedValue::Boolean(num) => {
                proof {
                    assert(enc_views(rows@)[j as int] == (rows@[j as int])@);
                    assert((rows@[j as int])@ == EncValue::Boolean(num@));
                }
                if !(num.modulo == *m) {
                    proof {
                        assert(!reconstructible(enc_views(rows@), *m));
                    }
                    return Err(ValueError::ReconstructionError);
                }
                if !bytes_eq(&num.value, &first.value) {
                    proof {
                        assert(!reconstructible(enc_views(rows@), *m));
                    }
                    return Err(ValueError::ReconstructionError);
                }
            }
            _ => {
                proof {
                    assert(enc_views(rows@)[j as int] == (rows@[j as int])@);
                    assert(!((rows@[j as int])@ is Boolean));
                    assert(!reconstructible(enc_views(rows@), *m));
                }
                return Err(ValueError::ReconstructionError);
            }
        }
        j = j + 1;
    }
    let acc = copy_bytes(&first.value);
    let x = match decode_bool(&acc, m) {
        Some(x) => x,
        None => {
            proof {
                assert(!reconstructible(enc_views(rows@), *m));
            }
            return Err(ValueError::ReconstructionError);
        }
    };
    proof {
        assert(reconstructible(enc_views(rows@), *m));
    }
    Ok(NadaValue::Boolean(x))
}

/// Read back a public byte-carrying leaf that every party holds identically.
fn unmask_replica(rows: &Vec<EncryptedValue>, m: &EncodedModulo) -> (r: Result<
    NadaValue,
    ValueError,
>)
    requires
        rows@.len() >= 1,
        rows@[0]@ is EcdsaDigestMessage || rows@[0]@ is EcdsaPublicKey || rows@[0]@ is StoreId
            || rows@[0]@ is EddsaPublicKey || rows@[0]@ is EddsaMessage,
    ensures
        r is Ok <==> reconstructible(enc_views(rows@), *m),
        match r {
            Ok(v) => clear_wf(v@) && masked_rel(v@, enc_views(rows@), *m),
            Err(e) => e == ValueError::ReconstructionError,
        },
{
    proof {
        lemma_enc_views_index(rows@);
    }
    let (first, want, kind): (&Vec<u8>, usize, u8) = match &rows[0] {
        EncryptedValue::EcdsaDigestMessage(d) => (d, 32usize, 0u8),
        EncryptedValue::EcdsaPublicKey(d) => (d, 33usize, 1u8),
        EncryptedValue::StoreId(d) => (d, 16usize, 2u8),
        EncryptedValue::EddsaPublicKey(d) => (d, 32usize, 3u8),
        EncryptedValue::EddsaMessage(d) => (d, d.len(), 4u8),
        _ => {
            proof {
                assert(false);
            }
            return Err(ValueError::ReconstructionError);
        }
    };
    if first.len() != want {
        proof {
            assert(!reconstructible(enc_views(rows@), *m));
        }
        return Err(ValueError::ReconstructionError);
    }
    let ghost expected = (rows@[0])@;
    let mut j: usize = 0;
    while j < rows.len()
        invariant
            j <= rows@.len(),
            expected == (rows@[0])@,
            enc_views(rows@).len() == rows@.len(),
            forall|q: int|
                0 <= q < rows@.len() ==> (#[trigger] enc_views(rows@)[q]) == (rows@[q])@,
            forall|q: int| 0 <= q < j ==> (#[trigger] enc_views(rows@)[q]) == expected,
            kind == 0 ==> expected == EncValue::EcdsaDigestMessage(first@),
            kind == 1 ==> expected == EncValue::EcdsaPublicKey(first@),
            kind == 2 ==> expected == EncValue::StoreId(first@),
            kind == 3 ==> expected == EncValue::EddsaPublicKey(first@),
            kind == 4 ==> expected == EncValue::EddsaMessage(first@),
            kind <= 4,
            first@.len() == want,
            kind == 0 ==> want == 32,
            kind == 1 ==> want == 33,
            kind == 2 ==> want == 16,
            kind == 3 ==> want == 32,
        decreases rows@.len() - j,
    {
        let same = match (&rows[j], kind) {
            (EncryptedValue::EcdsaDigestMessage(d), 0u8) => bytes_eq(d, first),
            (EncryptedValue::EcdsaPublicKey(d), 1u8) => bytes_eq(d, first),
            (EncryptedValue::StoreId(d), 2u8) => bytes_eq(d, first),
            (EncryptedValue::EddsaPublicKey(d), 3u8) => bytes_eq(d, first),
            (EncryptedValue::EddsaMessage(d), 4u8) => bytes_eq(d, first),
            _ => false,
        };
        if !same {
            proof {
                assert(enc_views(rows@)[j as int] == (rows@[j as int])@);
                assert((rows@[j as int])@ != expected);
                assert(!reconstructible(enc_views(rows@), *m));
            }
            return Err(ValueError::ReconstructionError);
        }
        j = j + 1;
    }
    proof {
        assert(reconstructible(enc_views(rows@), *m));
    }
    let out = match kind {
        0u8 => NadaValue::EcdsaDigestMessage(copy_bytes(first)),
        1u8 => NadaValue::EcdsaPublicKey(copy_bytes(first)),
        2u8 => NadaValue::StoreId(copy_bytes(first)),
        3u8 => NadaValue::EddsaPublicKey(copy_bytes(first)),
        _ => NadaValue::EddsaMessage(copy_bytes(first)),
    };
    Ok(out)
}

/// Reconstruct a secret blob: sum each chunk's shares, then strip the
/// padding by the recorded true length.
fn unmask_blob(rows: &Vec<EncryptedValue>, m: &EncodedModulo) -> (r: Result<
    NadaValue,
    ValueError,
>)
    requires
        rows@.len() >= 1,
        (rows@[0])@ is SecretBlob,
    ensures
        r is Ok <==> reconstructible(enc_views(rows@), *m),
        match r {
            Ok(v) => clear_wf(v@) && masked_rel(v@, enc_views(rows@), *m),
            Err(e) => e == ValueError::ReconstructionError,
        },
{
    let w = m.width();
    let p = m.prime_bytes();
    proof {
        crate::modular::lemma_prime_large(*m);
        lemma_enc_views_index(rows@);
    }
    let (size, count): (u64, usize) = match &rows[0] {
        EncryptedValue::SecretBlob { values, unencoded_size } => {
            proof {
                assert((rows@[0])@ == (EncValue::SecretBlob {
                    values: Seq::new(values@.len() as nat, |u: int| values@[u]@),
                    unencoded_size: *unencoded_size,
                }));
            }
            (*unencoded_size, values.len())
        }
        _ => {
            proof {
                assert(false);
            }
            return Err(ValueError::ReconstructionError);
        }
    };
    if size > usize::MAX as u64 {
        proof {
            assert(!reconstructible(enc_views(rows@), *m));
        }
        return Err(ValueError::ReconstructionError);
    }
    let expect = num_chunks_u64(size, m);
    if count as u128 != expect {
        proof {
            assert(enc_views(rows@)[0] == (rows@[0])@);
            assert(!reconstructible(enc_views(rows@), *m));
        }
        return Err(ValueError::ReconstructionError);
    }
    // Check every party's contribution has the same shape and valid chunks.
    let mut j: usize = 0;
    while j < rows.len()
        invariant
            j <= rows@.len(),
            w == m.spec_width(),
            p@ == m.spec_prime_bytes(),
            count == spec_num_chunks(size as nat, *m),
            size <= usize::MAX,
            (rows@[0])@ is SecretBlob,
            (rows@[0])@.arrow_SecretBlob_unencoded_size() == size,
            (rows@[0])@.arrow_SecretBlob_values().len() == count,
            enc_views(rows@).len() == rows@.len(),
            forall|q: int|
                0 <= q < rows@.len() ==> (#[trigger] enc_views(rows@)[q]) == (rows@[q])@,
            forall|q: int|
                0 <= q < j ==> (#[trigger] enc_views(rows@)[q]) is SecretBlob && enc_views(
                    rows@,
                )[q].arrow_SecretBlob_unencoded_size() == size && enc_views(
                    rows@,
                )[q].arrow_SecretBlob_values().len() == count && (forall|c: int|
                    0 <= c < count ==> (#[trigger] enc_views(rows@)[q].arrow_SecretBlob_values()[c]).wf() && enc_views(rows@)[q].arrow_SecretBlob_values()[c].modulo == *m),
        decreases rows@.len() - j,
    {
        match &rows[j] {
            EncryptedValue::SecretBlob { values, unencoded_size } => {
                proof {
                    assert((rows@[j as int])@ == (EncValue::SecretBlob {
                        values: Seq::new(values@.len() as nat, |u: int| values@[u]@),
                        unencoded_size: *unencoded_size,
                    }));
                    assert(enc_views(rows@)[j as int] == (rows@[j as int])@);
                }
                if *unencoded_size != size || values.len() != count {
                    proof {
                        assert(!reconstructible(enc_views(rows@), *m));
                    }
                    return Err(ValueError::ReconstructionError);
                }
                let mut ok_chunks = true;
                let mut c: usize = 0;
                while c < values.len()
                    invariant
                        c <= values@.len(),
                        w == m.spec_width(),
                        p@ == m.spec_prime_bytes(),
                        ok_chunks == (forall|u: int|
                            0 <= u < c ==> ((#[trigger] values@[u])@).wf() && values@[u]@.modulo
                                == *m),
                    decreases values@.len() - c,
                {
                    let num = &values[c];
                    if num.value.len() != w || !(num.modulo == *m) || !bytes_lt(&num.value, &p) {
                        ok_chunks = false;
                    }
                    c = c + 1;
                }
                if !ok_chunks {
                    proof {
                        let u = choose|u: int|
                            0 <= u < values@.len() && !(((values@[u])@).wf() && values@[u]@.modulo
                                == *m);
                        let bv = enc_views(rows@)[j as int].arrow_SecretBlob_values();
                        assert(bv[u] == values@[u]@);
                        assert(!reconstructible(enc_views(rows@), *m));
                    }
                    return Err(ValueError::ReconstructionError);
                }
                proof {
                    let bv = enc_views(rows@)[j as int].arrow_SecretBlob_values();
                    assert forall|c2: int| 0 <= c2 < count implies (#[trigger] bv[c2]).wf()
                        && bv[c2].modulo == *m by {
                        assert(bv[c2] == values@[c2]@);
                    }
                }
            }
            _ => {
                proof {
                    assert(enc_views(rows@)[j as int] == (rows@[j as int])@);
                    assert(!((rows@[j as int])@ is SecretBlob));
                    assert(!reconstructible(enc_views(rows@), *m));
                }
                return Err(ValueError::ReconstructionError);
            }
        }
        j = j + 1;
    }
    // Sum the shares of each chunk across parties.
    let mut chunk_vals: Vec<Vec<u8>> = Vec::new();
    let mut c: usize = 0;
    while c < count
        invariant
            c <= count,
            chunk_vals@.len() == c,
            w == m.spec_width(),
            p@ == m.spec_prime_bytes(),
            rows@.len() >= 1,
            count == spec_num_chunks(size as nat, *m),
            forall|q: int|
                0 <= q < rows@.len() ==> (#[trigger] enc_views(rows@)[q]) == (rows@[q])@,
            forall|q: int|
                0 <= q < rows@.len() ==> (#[trigger] enc_views(rows@)[q]) is SecretBlob
                    && enc_views(rows@)[q].arrow_SecretBlob_unencoded_size() == size && enc_views(
                    rows@,
                )[q].arrow_SecretBlob_values().len() == count && (forall|c2: int|
                    0 <= c2 < count ==> (#[trigger] enc_views(rows@)[q].arrow_SecretBlob_values()[c2]).wf() && enc_views(rows@)[q].arrow_SecretBlob_values()[c2].modulo == *m),
            forall|c2: int|
                0 <= c2 < c ==> (#[trigger] chunk_vals@[c2])@.len() == w && le_val(
                    chunk_vals@[c2]@,
                ) < m.spec_prime() && le_val(chunk_vals@[c2]@) == shares_sum(
                    Seq::new(
                        rows@.len() as nat,
                        |q: int| enc_views(rows@)[q].arrow_SecretBlob_values()[c2].value,
                    ),
                    m.spec_prime(),
                ),
        decreases count - c,
    {
        let mut col: Vec<Vec<u8>> = Vec::new();
        let mut q: usize = 0;
        while q < rows.len()
            invariant
                q <= rows@.len(),
                c < count,
                col@.len() == q,
                w == m.spec_width(),
                p@ == m.spec_prime_bytes(),
                forall|t: int|
                    0 <= t < rows@.len() ==> (#[trigger] enc_views(rows@)[t]) == (rows@[t])@,
                forall|t: int|
                    0 <= t < rows@.len() ==> (#[trigger] enc_views(rows@)[t]) is SecretBlob
                        && enc_views(rows@)[t].arrow_SecretBlob_values().len() == count && (forall|
                        c2: int,
                    |
                        0 <= c2 < count ==> (#[trigger] enc_views(
                            rows@,
                        )[t].arrow_SecretBlob_values()[c2]).wf() && enc_views(
                            rows@,
                        )[t].arrow_SecretBlob_values()[c2].modulo == *m),
                forall|t: int|
                    0 <= t < q ==> (#[trigger] col@[t])@ == enc_views(
                        rows@,
                    )[t].arrow_SecretBlob_values()[c as int].value,
            decreases rows@.len() - q,
        {
            match &rows[q] {
                EncryptedValue::SecretBlob { values, .. } => {
                    proof {
                        assert((rows@[q as int])@ == enc_views(rows@)[q as int]);
                        assert(enc_views(rows@)[q as int].arrow_SecretBlob_values()[c as int]
                            == values@[c as int]@);
                    }
                    if c < values.len() {
                        col.push(copy_bytes(&values[c].value));
                    } else {
                        proof {
                            assert(false);
                        }
                        return Err(ValueError::ReconstructionError);
                    }
                }
                _ => {
                    proof {
                        assert(false);
                    }
                    return Err(ValueError::ReconstructionError);
                }
            }
            q = q + 1;
        }
        proof {
            assert forall|t: int|
                0 <= t < col@.len() implies (#[trigger] col@[t])@.len() == p@.len() && le_val(
                col@[t]@,
            ) < le_val(p@) by {
                assert(enc_views(rows@)[t].arrow_SecretBlob_values()[c as int].wf());
            }
        }
        proof {
            crate::modular::lemma_prime_large(*m);
        }
        let acc = sum_mod_list(&col, &p);
        proof {
            assert(col@.map_values(|v: Vec<u8>| v@) =~= Seq::new(
                rows@.len() as nat,
                |q2: int| enc_views(rows@)[q2].arrow_SecretBlob_values()[c as int].value,
            ));
        }
        chunk_vals.push(acc);
        c = c + 1;
    }
    // Strip the padding; a sum that does not fit the chunk layout cannot
    // have come from a blob of this size.
    proof {
        lemma_blob_pads(size as nat, *m);
    }
    match unchunk_blob(&chunk_vals, size as usize, m) {
        Some(data) => {
            proof {
                assert forall|c2: int|
                    0 <= c2 < spec_num_chunks(size as nat, *m) implies shares_sum(
                    Seq::new(
                        rows@.len() as nat,
                        |q: int| enc_views(rows@)[q].arrow_SecretBlob_values()[c2].value,
                    ),
                    m.spec_prime(),
                ) == le_val(#[trigger] crate::chunking::spec_chunk_at(data@, *m, c2)) by {
                    assert(chunk_vals@[c2]@ == crate::chunking::spec_chunk_at(data@, *m, c2));
                }
                let vs = enc_views(rows@);
                let cs = crate::chunking::spec_chunk_len(*m) as int;
                let cw = chunk_vals@.map_values(|v2: Vec<u8>| v2@);
                assert forall|c2: int| 0 <= c2 < count implies #[trigger] blob_column_sum(
                    vs,
                    *m,
                    c2,
                ) < crate::modular::pow256(
                    if (c2 + 1) * cs <= size { cs } else { size - c2 * cs } as nat,
                ) by {
                    let u = if (c2 + 1) * cs <= size { cs } else { size - c2 * cs };
                    assert((c2 + 1) * cs == c2 * cs + cs) by (nonlinear_arith);
                    assert(c2 * cs < size);
                    assert(0 <= u <= w);
                    assert(cw[c2] == chunk_vals@[c2]@);
                    assert forall|i: int| u <= i < w implies chunk_vals@[c2]@[i] == 0 by {
                        assert(i >= cs || c2 * cs + i >= size);
                        assert(cw[c2][i] == 0);
                    }
                    crate::modular::lemma_le_val_small_iff(chunk_vals@[c2]@, u);
                    assert(blob_column_sum(vs, *m, c2) == le_val(chunk_vals@[c2]@));
                }
                assert(reconstructible(vs, *m));
            }
            Ok(NadaValue::SecretBlob(data))
        }
        None => {
            proof {
                let vs = enc_views(rows@);
                let cs = crate::chunking::spec_chunk_len(*m) as int;
                let cw = chunk_vals@.map_values(|v2: Vec<u8>| v2@);
                assert(cw.len() == count);
                assert(!crate::chunking::chunks_well_padded(cw, size as nat, *m));
                assert(exists|k: int, i: int|
                    0 <= k < cw.len() && 0 <= i < m.spec_width() && (i
                        >= crate::chunking::spec_chunk_len(*m) || k * crate::chunking::spec_chunk_len(
                        *m,
                    ) + i >= size as nat) && cw[k][i] != 0);
                let (k, i) = choose|k: int, i: int|
                    0 <= k < cw.len() && 0 <= i < m.spec_width() && (i
                        >= crate::chunking::spec_chunk_len(*m) || k * crate::chunking::spec_chunk_len(
                        *m,
                    ) + i >= size as nat) && cw[k][i] != 0;
                let u = if (k + 1) * cs <= size { cs } else { size - k * cs };
                assert((k + 1) * cs == k * cs + cs) by (nonlinear_arith);
                assert(k * cs < size);
                assert(0 <= u <= w);
                assert(i >= u);
                assert(cw[k] == chunk_vals@[k]@);
                crate::modular::lemma_le_val_small_iff(chunk_vals@[k]@, u);
                assert(le_val(chunk_vals@[k]@) >= crate::modular::pow256(u as nat));
                assert(blob_column_sum(vs, *m, k) == le_val(chunk_vals@[k]@));
                assert(!reconstructible(vs, *m));
            }
            Err(ValueError::ReconstructionError)
        }
    }
}

/// Within a blob's chunk run, every chunk index starts strictly inside the
/// data, so the pad width of each chunk is well defined.
proof fn lemma_blob_pads(size: nat, m: EncodedModulo)
    ensures
        forall|k: int|
            0 <= k < spec_num_chunks(size, m) ==> #[trigger] (k * (
            crate::chunking::spec_chunk_len(m) as int)) < size,
{
    let cs = crate::chunking::spec_chunk_len(m) as int;
    if size > 0 {
        assert((size + cs - 1) as int / cs == (size - 1) as int / cs + 1) by {
            vstd::arithmetic::div_mod::lemma_div_plus_one((size - 1) as int, cs);
        }
        let q = (size - 1) as int / cs;
        vstd::arithmetic::div_mod::lemma_fundamental_div_mod((size - 1) as int, cs);
        assert forall|k: int| 0 <= k < spec_num_chunks(size, m) implies #[trigger] (k * cs)
            < size by {
            assert(k <= q);
            assert(k * cs <= q * cs) by (nonlinear_arith)
                requires
                    k <= q,
                    cs >= 0,
            ;
            assert(q * cs <= size - 1) by {
                vstd::arithmetic::div_mod::lemma_fundamental_div_mod((size - 1) as int, cs);
                assert(0 <= (size - 1) as int % cs) by {
                    vstd::arithmetic::div_mod::lemma_mod_division_less_than_divisor(
                        (size - 1) as int,
                        cs,
                    );
                }
                assert(cs * q == q * cs) by (nonlinear_arith);
            }
        }
    } else {
        assert((cs - 1) as int / cs == 0) by {
            vstd::arithmetic::div_mod::lemma_basic_div(cs - 1, cs);
        }
    }
}

/// Reconstruct an ECDSA signature: the common `r` is read back, the sigma
/// shares are summed over the secp256k1 group order.
fn unmask_ecdsa_sig(rows: &Vec<EncryptedValue>, m: &EncodedModulo) -> (res: Result<
    NadaValue,
    ValueError,
>)
    requires
        rows@.len() >= 1,
        (rows@[0])@ is EcdsaSignature,
    ensures
        res is Ok <==> reconstructible(enc_views(rows@), *m),
        match res {
            Ok(v) => clear_wf(v@) && masked_rel(v@, enc_views(rows@), *m),
            Err(e) => e == ValueError::ReconstructionError,
        },
{
    let q_le = secp256k1_order_le();
    proof {
        lemma_enc_views_index(rows@);
        crate::sharing::lemma_prime_large_any(q_le@);
    }
    let first_r = match &rows[0] {
        EncryptedValue::EcdsaSignature { r, .. } => r,
        _ => {
            proof {
                assert(false);
            }
            return Err(ValueError::ReconstructionError);
        }
    };
    // The common component must itself be a usable non-zero scalar.
    if first_r.len() != 32 {
        proof {
            assert(!reconstructible(enc_views(rows@), *m));
        }
        return Err(ValueError::ReconstructionError);
    }
    let r_rev = reverse_bytes(first_r);
    if !bytes_lt(&r_rev, &q_le) || bytes_all_zero(&r_rev) {
        proof {
            assert(!reconstructible(enc_views(rows@), *m));
        }
        return Err(ValueError::ReconstructionError);
    }
    let mut sig_les: Vec<Vec<u8>> = Vec::new();
    let mut j: usize = 0;
    while j < rows.len()
        invariant
            j <= rows@.len(),
            sig_les@.len() == j,
            q_le@ == crate::curves::spec_secp256k1_order_le(),
            (rows@[0])@ is EcdsaSignature,
            enc_views(rows@).len() == rows@.len(),
            forall|q: int|
                0 <= q < rows@.len() ==> (#[trigger] enc_views(rows@)[q]) == (rows@[q])@,
            first_r@ == (rows@[0])@.arrow_EcdsaSignature_r(),
            forall|q: int|
                0 <= q < j ==> (#[trigger] enc_views(rows@)[q]) is EcdsaSignature && enc_views(
                    rows@,
                )[q].arrow_EcdsaSignature_r() == first_r@ && is_secp256k1_scalar(
                    enc_views(rows@)[q].arrow_EcdsaSignature_sigma(),
                ) && sig_les@[q]@ == rev_bytes(enc_views(rows@)[q].arrow_EcdsaSignature_sigma()),
        decreases rows@.len() - j,
    {
        match &rows[j] {
            EncryptedValue::EcdsaSignature { r, sigma } => {
                proof {
                    assert(enc_views(rows@)[j as int] == (rows@[j as int])@);
                    assert((rows@[j as int])@ == (EncValue::EcdsaSignature {
                        r: r@,
                        sigma: sigma@,
                    }));
                }
                if !bytes_eq(r, first_r) {
                    proof {
                        assert(!reconstructible(enc_views(rows@), *m));
                    }
                    return Err(ValueError::ReconstructionError);
                }
                if sigma.len() != 32 {
                    proof {
                        assert(!reconstructible(enc_views(rows@), *m));
                    }
                    return Err(ValueError::ReconstructionError);
                }
                let s_le = reverse_bytes(sigma);
                if !bytes_lt(&s_le, &q_le) {
                    proof {
                        assert(!reconstructible(enc_views(rows@), *m));
                    }
                    return Err(ValueError::ReconstructionError);
                }
                sig_les.push(s_le);
            }
            _ => {
                proof {
                    assert(enc_views(rows@)[j as int] == (rows@[j as int])@);
                    assert(!((rows@[j as int])@ is EcdsaSignature));
                    assert(!reconstructible(enc_views(rows@), *m));
                }
                return Err(ValueError::ReconstructionError);
            }
        }
        j = j + 1;
    }
    proof {
        assert forall|q: int|
            0 <= q < sig_les@.len() implies (#[trigger] sig_les@[q])@.len() == q_le@.len()
            && le_val(sig_les@[q]@) < le_val(q_le@) by {
            assert(sig_les@[q]@ == rev_bytes(enc_views(rows@)[q].arrow_EcdsaSignature_sigma()));
        }
    }
    let acc = sum_mod_list(&sig_les, &q_le);
    proof {
        assert(Seq::new(
            rows@.len() as nat,
            |q: int| rev_bytes(enc_views(rows@)[q].arrow_EcdsaSignature_sigma()),
        ) =~= sig_les@.map_values(|v: Vec<u8>| v@));
    }
    if bytes_all_zero(&acc) {
        proof {
            assert(!reconstructible(enc_views(rows@), *m));
        }
        return Err(ValueError::ReconstructionError);
    }
    let s_be = reverse_bytes(&acc);
    proof {
        lemma_rev_rev(acc@);
        assert(be_val(s_be@) == le_val(acc@));
        lemma_rev_rev(first_r@);
        assert(reconstructible(enc_views(rows@), *m));
    }
    Ok(NadaValue::EcdsaSignature { r: copy_bytes(first_r), s: s_be })
}

/// Reconstruct an EdDSA signature: the common point is read back, the `z`
/// shares are summed over the ed25519 group order.
fn unmask_eddsa_sig(rows: &Vec<EncryptedValue>, m: &EncodedModulo) -> (res: Result<
    NadaValue,
    ValueError,
>)
    requires
        rows@.len() >= 1,
        (rows@[0])@ is EddsaSignature,
    ensures
        res is Ok <==> reconstructible(enc_views(rows@), *m),
        match res {
            Ok(v) => clear_wf(v@) && masked_rel(v@, enc_views(rows@), *m),
            Err(e) => e == ValueError::ReconstructionError,
        },
{
    let q_le = ed25519_order_le();
    proof {
        lemma_enc_views_index(rows@);
        crate::sharing::lemma_prime_large_any(q_le@);
    }
    let first_r = match &rows[0] {
        EncryptedValue::EddsaSignature { r, .. } => r,
        _ => {
            proof {
                assert(false);
            }
            return Err(ValueError::ReconstructionError);
        }
    };
    if first_r.len() != 32 {
        proof {
            assert(!reconstructible(enc_views(rows@), *m));
        }
        return Err(ValueError::ReconstructionError);
    }
    if !crate::curves::ed25519_point_valid(first_r) {
        proof {
            assert(!reconstructible(enc_views(rows@), *m));
        }
        return Err(ValueError::ReconstructionError);
    }
    let mut z_vals: Vec<Vec<u8>> = Vec::new();
    let mut j: usize = 0;
    while j < rows.len()
        invariant
            j <= rows@.len(),
            z_vals@.len() == j,
            q_le@ == crate::curves::spec_ed25519_order_le(),
            (rows@[0])@ is EddsaSignature,
            enc_views(rows@).len() == rows@.len(),
            forall|q: int|
                0 <= q < rows@.len() ==> (#[trigger] enc_views(rows@)[q]) == (rows@[q])@,
            first_r@ == (rows@[0])@.arrow_EddsaSignature_r(),
            forall|q: int|
                0 <= q < j ==> (#[trigger] enc_views(rows@)[q]) is EddsaSignature && enc_views(
                    rows@,
                )[q].arrow_EddsaSignature_r() == first_r@ && is_ed25519_scalar(
                    enc_views(rows@)[q].arrow_EddsaSignature_z(),
                ) && z_vals@[q]@ == enc_views(rows@)[q].arrow_EddsaSignature_z(),
        decreases rows@.len() - j,
    {
        match &rows[j] {
            EncryptedValue::EddsaSignature { r, z } => {
                proof {
                    assert(enc_views(rows@)[j as int] == (rows@[j as int])@);
                    assert((rows@[j as int])@ == (EncValue::EddsaSignature { r: r@, z: z@ }));
                }
                if !bytes_eq(r, first_r) {
                    proof {
                        assert(!reconstructible(enc_views(rows@), *m));
                    }
                    return Err(ValueError::ReconstructionError);
                }
                if z.len() != 32 {
                    proof {
                        assert(!reconstructible(enc_views(rows@), *m));
                    }
                    return Err(ValueError::ReconstructionError);
                }
                if !bytes_lt(z, &q_le) {
                    proof {
                        assert(!reconstructible(enc_views(rows@), *m));
                    }
                    return Err(ValueError::ReconstructionError);
                }
                z_vals.push(copy_bytes(z));
            }
            _ => {
                proof {
                    assert(enc_views(rows@)[j as int] == (rows@[j as int])@);
                    assert(!((rows@[j as int])@ is EddsaSignature));
                    assert(!reconstructible(enc_views(rows@), *m));
                }
                return Err(ValueError::ReconstructionError);
            }
        }
        j = j + 1;
    }
    proof {
        assert forall|q: int|
            0 <= q < z_vals@.len() implies (#[trigger] z_vals@[q])@.len() == q_le@.len()
            && le_val(z_vals@[q]@) < le_val(q_le@) by {
            assert(z_vals@[q]@ == enc_views(rows@)[q].arrow_EddsaSignature_z());
        }
    }
    let acc = sum_mod_list(&z_vals, &q_le);
    proof {
        assert(Seq::new(rows@.len() as nat, |q: int| enc_views(rows@)[q].arrow_EddsaSignature_z())
            =~= z_vals@.map_values(|v: Vec<u8>| v@));
        assert(reconstructible(enc_views(rows@), *m));
    }
    Ok(NadaValue::EddsaSignature { r: copy_bytes(first_r), z: acc })
}

/// Reconstruct a whole ECDSA signing key from per-party key shares,
/// checking that every share's index, joint key and public-share list agree
/// with the reconstructed secret.
fn unmask_ecdsa_key(rows: &Vec<EncryptedValue>, m: &EncodedModulo) -> (res: Result<
    NadaValue,
    ValueError,
>)
    requires
        rows@.len() >= 1,
        (rows@[0])@ is EcdsaPrivateKey,
    ensures
        res is Ok <==> reconstructible(enc_views(rows@), *m),
        match res {
            Ok(v) => clear_wf(v@) && forall|mm: EncodedModulo|
                #[trigger] masked_rel(v@, enc_views(rows@), mm),
            Err(e) => e == ValueError::ReconstructionError,
        },
{
    let n = rows.len();
    let q_le = secp256k1_order_le();
    proof {
        lemma_enc_views_index(rows@);
        crate::sharing::lemma_prime_large_any(q_le@);
    }
    if n > 0xffff {
        proof {
            assert(!reconstructible(enc_views(rows@), *m));
        }
        return Err(ValueError::ReconstructionError);
    }
    let mut xs_le: Vec<Vec<u8>> = Vec::new();
    let mut j: usize = 0;
    while j < n
        invariant
            j <= n,
            n == rows@.len(),
            n <= 0xffff,
            xs_le@.len() == j,
            q_le@ == crate::curves::spec_secp256k1_order_le(),
            (rows@[0])@ is EcdsaPrivateKey,
            enc_views(rows@).len() == rows@.len(),
            forall|q: int|
                0 <= q < rows@.len() ==> (#[trigger] enc_views(rows@)[q]) == (rows@[q])@,
            forall|q: int|
                0 <= q < j ==> (#[trigger] enc_views(rows@)[q]) is EcdsaPrivateKey && enc_views(
                    rows@,
                )[q].arrow_EcdsaPrivateKey_0().i == q + 1 && is_secp256k1_scalar(
                    enc_views(rows@)[q].arrow_EcdsaPrivateKey_0().x,
                ) && be_val(enc_views(rows@)[q].arrow_EcdsaPrivateKey_0().x) != 0 && enc_views(
                    rows@,
                )[q].arrow_EcdsaPrivateKey_0().public_shares.len() == n && xs_le@[q]@ == rev_bytes(
                    enc_views(rows@)[q].arrow_EcdsaPrivateKey_0().x,
                ),
        decreases n - j,
    {
        match &rows[j] {
            EncryptedValue::EcdsaPrivateKey(share) => {
                proof {
                    assert(enc_views(rows@)[j as int] == (rows@[j as int])@);
                    assert((rows@[j as int])@ == EncValue::EcdsaPrivateKey(share@));
                }
                if share.i as usize != j + 1 {
                    proof {
                        assert(!reconstructible(enc_views(rows@), *m));
                    }
                    return Err(ValueError::ReconstructionError);
                }
                if share.x.len() != 32 {
                    proof {
                        assert(!reconstructible(enc_views(rows@), *m));
                    }
                    return Err(ValueError::ReconstructionError);
                }
                let x_le = reverse_bytes(&share.x);
                if !bytes_lt(&x_le, &q_le) || bytes_all_zero(&x_le) {
                    proof {
                        crate::curves::lemma_rev_rev(share@.x);
                        assert(!reconstructible(enc_views(rows@), *m));
                    }
                    return Err(ValueError::ReconstructionError);
                }
                if share.public_shares.len() != n {
                    proof {
                        assert(!reconstructible(enc_views(rows@), *m));
                    }
                    return Err(ValueError::ReconstructionError);
                }
                xs_le.push(x_le);
            }
            _ => {
                proof {
                    assert(enc_views(rows@)[j as int] == (rows@[j as int])@);
                    assert(!((rows@[j as int])@ is EcdsaPrivateKey));
                    assert(!reconstructible(enc_views(rows@), *m));
                }
                return Err(ValueError::ReconstructionError);
            }
        }
        j = j + 1;
    }
    proof {
        assert forall|q: int|
            0 <= q < xs_le@.len() implies (#[trigger] xs_le@[q])@.len() == q_le@.len() && le_val(
            xs_le@[q]@,
        ) < le_val(q_le@) by {
            assert(xs_le@[q]@ == rev_bytes(enc_views(rows@)[q].arrow_EcdsaPrivateKey_0().x));
            
        }
    }
    let acc = sum_mod_list(&xs_le, &q_le);
    let ghost xsumg = shares_sum(
        Seq::new(rows@.len() as nat, |q: int| rev_bytes(enc_views(rows@)[q].arrow_EcdsaPrivateKey_0().x)),
        secp256k1_order(),
    );
    proof {
        assert(Seq::new(
            rows@.len() as nat,
            |q: int| rev_bytes(enc_views(rows@)[q].arrow_EcdsaPrivateKey_0().x),
        ) =~= xs_le@.map_values(|v: Vec<u8>| v@));
        assert(xsumg == le_val(acc@));
    }
    if bytes_all_zero(&acc) {
        proof {
            assert(!reconstructible(enc_views(rows@), *m));
        }
        return Err(ValueError::ReconstructionError);
    }
    let x_out = reverse_bytes(&acc);
    let ghost xbeg = rev_bytes(crate::modular::le_bytes(xsumg, 32));
    proof {
        lemma_rev_rev(acc@);
        assert(be_val(x_out@) == le_val(acc@));
        crate::modular::lemma_le_val_bound(q_le@);
        crate::modular::lemma_le_bytes_val(xsumg, 32);
        crate::modular::lemma_le_val_injective(acc@, crate::modular::le_bytes(xsumg, 32));
        assert(x_out@ == xbeg);
    }
    let spk = secp256k1_generator_mul(&x_out);
    // The joint public key and every public share must match what the
    // reconstructed scalars give.
    let mut pts: Vec<Vec<u8>> = Vec::new();
    let mut t: usize = 0;
    while t < n
        invariant
            t <= n,
            n == rows@.len(),
            pts@.len() == t,
            xs_le@.len() == n,
            forall|q: int|
                0 <= q < rows@.len() ==> (#[trigger] enc_views(rows@)[q]) == (rows@[q])@,
            forall|q: int|
                0 <= q < n ==> (#[trigger] enc_views(rows@)[q]) is EcdsaPrivateKey && is_secp256k1_scalar(
                    enc_views(rows@)[q].arrow_EcdsaPrivateKey_0().x,
                ) && be_val(enc_views(rows@)[q].arrow_EcdsaPrivateKey_0().x) != 0 && xs_le@[q]@ == rev_bytes(
                    enc_views(rows@)[q].arrow_EcdsaPrivateKey_0().x,
                ),
            forall|q: int|
                0 <= q < t ==> (#[trigger] pts@[q])@ == crate::curves::secp256k1_mul_generator(
                    enc_views(rows@)[q].arrow_EcdsaPrivateKey_0().x,
                ) && pts@[q]@.len() == 33 && crate::curves::secp256k1_nonzero_point(pts@[q]@),
        decreases n - t,
    {
        let xt = reverse_bytes(&xs_le[t]);
        proof {
            lemma_rev_rev(enc_views(rows@)[t as int].arrow_EcdsaPrivateKey_0().x);
            assert(xt@ == enc_views(rows@)[t as int].arrow_EcdsaPrivateKey_0().x);
        }
        let pt = secp256k1_generator_mul(&xt);
        pts.push(pt);
        t = t + 1;
    }
    let mut j2: usize = 0;
    while j2 < n
        invariant
            j2 <= n,
            n == rows@.len(),
            n <= 0xffff,
            pts@.len() == n,
            spk@.len() == 33 && crate::curves::secp256k1_nonzero_point(spk@),
            spk@ == crate::curves::secp256k1_mul_generator(xbeg),
            xbeg == rev_bytes(crate::modular::le_bytes(xsumg, 32)),
            xsumg == shares_sum(
                Seq::new(
                    rows@.len() as nat,
                    |q: int| rev_bytes(enc_views(rows@)[q].arrow_EcdsaPrivateKey_0().x),
                ),
                secp256k1_order(),
            ),
            (rows@[0])@ is EcdsaPrivateKey,
            enc_views(rows@).len() == rows@.len(),
            forall|q: int|
                0 <= q < rows@.len() ==> (#[trigger] enc_views(rows@)[q]) == (rows@[q])@,
            forall|q: int|
                0 <= q < n ==> (#[trigger] enc_views(rows@)[q]) is EcdsaPrivateKey,
            forall|q: int|
                0 <= q < n ==> (#[trigger] pts@[q])@ == crate::curves::secp256k1_mul_generator(
                    enc_views(rows@)[q].arrow_EcdsaPrivateKey_0().x,
                ) && pts@[q]@.len() == 33 && crate::curves::secp256k1_nonzero_point(pts@[q]@),
            forall|q: int|
                0 <= q < j2 ==> (#[trigger] enc_views(rows@)[q]).arrow_EcdsaPrivateKey_0().shared_public_key
                    == spk@ && (forall|w2: int|
                    0 <= w2 < n ==> #[trigger] enc_views(rows@)[q].arrow_EcdsaPrivateKey_0().public_shares[
                    w2] == pts@[w2]@),
        decreases n - j2,
    {
        match &rows[j2] {
            EncryptedValue::EcdsaPrivateKey(share) => {
                proof {
                    assert(enc_views(rows@)[j2 as int] == (rows@[j2 as int])@);
                    assert((rows@[j2 as int])@ == EncValue::EcdsaPrivateKey(share@));
                }
                if !bytes_eq(&share.shared_public_key, &spk) {
                    proof {
                        assert(!reconstructible(enc_views(rows@), *m));
                    }
                    return Err(ValueError::ReconstructionError);
                }
                let mut w: usize = 0;
                while w < n
                    invariant
                        w <= n,
                        j2 < n,
                        n == rows@.len(),
                        n <= 0xffff,
                        pts@.len() == n,
                        share@.public_shares.len() == n || share@.public_shares.len()
                            == share.public_shares@.len(),
                        (rows@[j2 as int])@ == EncValue::EcdsaPrivateKey(share@),
                        (rows@[0])@ is EcdsaPrivateKey,
                        enc_views(rows@).len() == rows@.len(),
                        xbeg == rev_bytes(crate::modular::le_bytes(xsumg, 32)),
                        xsumg == shares_sum(
                            Seq::new(
                                rows@.len() as nat,
                                |q: int| rev_bytes(
                                    enc_views(rows@)[q].arrow_EcdsaPrivateKey_0().x,
                                ),
                            ),
                            secp256k1_order(),
                        ),
                        forall|q: int|
                            0 <= q < rows@.len() ==> (#[trigger] enc_views(rows@)[q]) == (
                            rows@[q])@,
                        forall|q: int|
                            0 <= q < n ==> (#[trigger] pts@[q])@
                                == crate::curves::secp256k1_mul_generator(
                                enc_views(rows@)[q].arrow_EcdsaPrivateKey_0().x,
                            ),
                        forall|q: int|
                            0 <= q < w ==> #[trigger] share@.public_shares[q] == pts@[q]@,
                    decreases n - w,
                {
                    proof {
                        assert(enc_views(rows@)[j2 as int] == (rows@[j2 as int])@);
                        assert(enc_views(rows@)[j2 as int].arrow_EcdsaPrivateKey_0() == share@);
                    }
                    if w >= share.public_shares.len() {
                        proof {
                            assert(!reconstructible(enc_views(rows@), *m));
                        }
                        return Err(ValueError::ReconstructionError);
                    }
                    if !bytes_eq(&share.public_shares[w], &pts[w]) {
                        proof {
                            assert(share@.public_shares[w as int] == share.public_shares@[
                            w as int]@);
                            assert(!reconstructible(enc_views(rows@), *m));
                        }
                        return Err(ValueError::ReconstructionError);
                    }
                    proof {
                        assert(share@.public_shares[w as int] == share.public_shares@[w as int]@);
                    }
                    w = w + 1;
                }
                proof {
                    assert(enc_views(rows@)[j2 as int].arrow_EcdsaPrivateKey_0() == share@);
                }
            }
            _ => {
                proof {
                    assert(false);
                }
                return Err(ValueError::ReconstructionError);
            }
        }
        j2 = j2 + 1;
    }
    proof {
        assert(reconstructible(enc_views(rows@), *m));
    }
    Ok(NadaValue::EcdsaPrivateKey(x_out))
}

/// Reconstruct a whole EdDSA signing key from per-party key shares,
/// checking that every share's index, joint key and public-share list agree
/// with the reconstructed secret.
fn unmask_eddsa_key(rows: &Vec<EncryptedValue>, m: &EncodedModulo) -> (res: Result<
    NadaValue,
    ValueError,
>)
    requires
        rows@.len() >= 1,
        (rows@[0])@ is EddsaPrivateKey,
    ensures
        res is Ok <==> reconstructible(enc_views(rows@), *m),
        match res {
            Ok(v) => clear_wf(v@) && forall|mm: EncodedModulo|
                #[trigger] masked_rel(v@, enc_views(rows@), mm),
            Err(e) => e == ValueError::ReconstructionError,
        },
{
    let n = rows.len();
    let q_le = ed25519_order_le();
    proof {
        lemma_enc_views_index(rows@);
        crate::sharing::lemma_prime_large_any(q_le@);
    }
    if n > 0xffff {
        proof {
            assert(!reconstructible(enc_views(rows@), *m));
        }
        return Err(ValueError::ReconstructionError);
    }
    let mut xs_le: Vec<Vec<u8>> = Vec::new();
    let mut j: usize = 0;
    while j < n
        invariant
            j <= n,
            n == rows@.len(),
            n <= 0xffff,
            xs_le@.len() == j,
            q_le@ == crate::curves::spec_ed25519_order_le(),
            (rows@[0])@ is EddsaPrivateKey,
            enc_views(rows@).len() == rows@.len(),
            forall|q: int|
                0 <= q < rows@.len() ==> (#[trigger] enc_views(rows@)[q]) == (rows@[q])@,
            forall|q: int|
                0 <= q < j ==> (#[trigger] enc_views(rows@)[q]) is EddsaPrivateKey && enc_views(
                    rows@,
                )[q].arrow_EddsaPrivateKey_0().i == q + 1 && is_ed25519_scalar(
                    enc_views(rows@)[q].arrow_EddsaPrivateKey_0().x,
                ) && le_val(enc_views(rows@)[q].arrow_EddsaPrivateKey_0().x) != 0 && enc_views(
                    rows@,
                )[q].arrow_EddsaPrivateKey_0().public_shares.len() == n && xs_le@[q]@ == enc_views(
                    rows@,
                )[q].arrow_EddsaPrivateKey_0().x,
        decreases n - j,
    {
        match &rows[j] {
            EncryptedValue::EddsaPrivateKey(share) => {
                proof {
                    assert(enc_views(rows@)[j as int] == (rows@[j as int])@);
                    assert((rows@[j as int])@ == EncValue::EddsaPrivateKey(share@));
                }
                if share.i as usize != j + 1 {
                    proof {
                        assert(!reconstructible(enc_views(rows@), *m));
                    }
                    return Err(ValueError::ReconstructionError);
                }
                if share.x.len() != 32 {
                    proof {
                        assert(!reconstructible(enc_views(rows@), *m));
                    }
                    return Err(ValueError::ReconstructionError);
                }
                let x_le = copy_bytes(&share.x);
                if !bytes_lt(&x_le, &q_le) || bytes_all_zero(&x_le) {
                    proof {
                        assert(!reconstructible(enc_views(rows@), *m));
                    }
                    return Err(ValueError::ReconstructionError);
                }
                if share.public_shares.len() != n {
                    proof {
                        assert(!reconstructible(enc_views(rows@), *m));
                    }
                    return Err(ValueError::ReconstructionError);
                }
                xs_le.push(x_le);
            }
            _ => {
                proof {
                    assert(enc_views(rows@)[j as int] == (rows@[j as int])@);
                    assert(!((rows@[j as int])@ is EddsaPrivateKey));
                    assert(!reconstructible(enc_views(rows@), *m));
                }
                return Err(ValueError::ReconstructionError);
            }
        }
        j = j + 1;
    }
    proof {
        assert forall|q: int|
            0 <= q < xs_le@.len() implies (#[trigger] xs_le@[q])@.len() == q_le@.len() && le_val(
            xs_le@[q]@,
        ) < le_val(q_le@) by {
            assert(xs_le@[q]@ == enc_views(rows@)[q].arrow_EddsaPrivateKey_0().x);
            
        }
    }
    let acc = sum_mod_list(&xs_le, &q_le);
    let ghost xsumg = shares_sum(
        Seq::new(rows@.len() as nat, |q: int| enc_views(rows@)[q].arrow_EddsaPrivateKey_0().x),
        ed25519_order(),
    );
    proof {
        assert(Seq::new(
            rows@.len() as nat,
            |q: int| enc_views(rows@)[q].arrow_EddsaPrivateKey_0().x,
        ) =~= xs_le@.map_values(|v: Vec<u8>| v@));
        assert(xsumg == le_val(acc@));
    }
    if bytes_all_zero(&acc) {
        proof {
            assert(!reconstructible(enc_views(rows@), *m));
        }
        return Err(ValueError::ReconstructionError);
    }
    let x_out = acc;
    let ghost xleg = crate::modular::le_bytes(xsumg, 32);
    proof {
        crate::modular::lemma_le_val_bound(q_le@);
        crate::modular::lemma_le_bytes_val(xsumg, 32);
        crate::modular::lemma_le_val_injective(x_out@, crate::modular::le_bytes(xsumg, 32));
        assert(x_out@ == xleg);
    }
    let spk = ed25519_generator_mul(&x_out);
    // The joint public key and every public share must match what the
    // reconstructed scalars give.
    let mut pts: Vec<Vec<u8>> = Vec::new();
    let mut t: usize = 0;
    while t < n
        invariant
            t <= n,
            n == rows@.len(),
            pts@.len() == t,
            xs_le@.len() == n,
            forall|q: int|
                0 <= q < rows@.len() ==> (#[trigger] enc_views(rows@)[q]) == (rows@[q])@,
            forall|q: int|
                0 <= q < n ==> (#[trigger] enc_views(rows@)[q]) is EddsaPrivateKey && is_ed25519_scalar(
                    enc_views(rows@)[q].arrow_EddsaPrivateKey_0().x,
                ) && le_val(enc_views(rows@)[q].arrow_EddsaPrivateKey_0().x) != 0 && xs_le@[q]@ == enc_views(
                    rows@,
                )[q].arrow_EddsaPrivateKey_0().x,
            forall|q: int|
                0 <= q < t ==> (#[trigger] pts@[q])@ == crate::curves::ed25519_mul_generator(
                    enc_views(rows@)[q].arrow_EddsaPrivateKey_0().x,
                ) && pts@[q]@.len() == 32 && crate::curves::ed25519_nonzero_point(pts@[q]@),
        decreases n - t,
    {
        let xt = copy_bytes(&xs_le[t]);
        proof {
            assert(xt@ == enc_views(rows@)[t as int].arrow_EddsaPrivateKey_0().x);
        }
        let pt = ed25519_generator_mul(&xt);
        pts.push(pt);
        t = t + 1;
    }
    let mut j2: usize = 0;
    while j2 < n
        invariant
            j2 <= n,
            n == rows@.len(),
            n <= 0xffff,
            pts@.len() == n,
            spk@.len() == 32 && crate::curves::ed25519_nonzero_point(spk@),
            spk@ == crate::curves::ed25519_mul_generator(xleg),
            xleg == crate::modular::le_bytes(xsumg, 32),
            xsumg == shares_sum(
                Seq::new(
                    rows@.len() as nat,
                    |q: int| enc_views(rows@)[q].arrow_EddsaPrivateKey_0().x,
                ),
                ed25519_order(),
            ),
            (rows@[0])@ is EddsaPrivateKey,
            enc_views(rows@).len() == rows@.len(),
            forall|q: int|
                0 <= q < rows@.len() ==> (#[trigger] enc_views(rows@)[q]) == (rows@[q])@,
            forall|q: int|
                0 <= q < n ==> (#[trigger] enc_views(rows@)[q]) is EddsaPrivateKey,
            forall|q: int|
                0 <= q < n ==> (#[trigger] pts@[q])@ == crate::curves::ed25519_mul_generator(
                    enc_views(rows@)[q].arrow_EddsaPrivateKey_0().x,
                ) && pts@[q]@.len() == 32 && crate::curves::ed25519_nonzero_point(pts@[q]@),
            forall|q: int|
                0 <= q < j2 ==> (#[trigger] enc_views(rows@)[q]).arrow_EddsaPrivateKey_0().shared_public_key
                    == spk@ && (forall|w2: int|
                    0 <= w2 < n ==> #[trigger] enc_views(rows@)[q].arrow_EddsaPrivateKey_0().public_shares[
                    w2] == pts@[w2]@),
        decreases n - j2,
    {
        match &rows[j2] {
            EncryptedValue::EddsaPrivateKey(share) => {
                proof {
                    assert(enc_views(rows@)[j2 as int] == (rows@[j2 as int])@);
                    assert((rows@[j2 as int])@ == EncValue::EddsaPrivateKey(share@));
                }
                if !bytes_eq(&share.shared_public_key, &spk) {
                    proof {
                        assert(!reconstructible(enc_views(rows@), *m));
                    }
                    return Err(ValueError::ReconstructionError);
                }
                let mut w: usize = 0;
                while w < n
                    invariant
                        w <= n,
                        j2 < n,
                        n == rows@.len(),
                        n <= 0xffff,
                        pts@.len() == n,
                        share@.public_shares.len() == n || share@.public_shares.len()
                            == share.public_shares@.len(),
                        (rows@[j2 as int])@ == EncValue::EddsaPrivateKey(share@),
                        (rows@[0])@ is EddsaPrivateKey,
                        enc_views(rows@).len() == rows@.len(),
                        xleg == crate::modular::le_bytes(xsumg, 32),
                        xsumg == shares_sum(
                            Seq::new(
                                rows@.len() as nat,
                                |q: int| enc_views(rows@)[q].arrow_EddsaPrivateKey_0().x,
                            ),
                            ed25519_order(),
                        ),
                        forall|q: int|
                            0 <= q < rows@.len() ==> (#[trigger] enc_views(rows@)[q]) == (
                            rows@[q])@,
                        forall|q: int|
                            0 <= q < n ==> (#[trigger] pts@[q])@
                                == crate::curves::ed25519_mul_generator(
                                enc_views(rows@)[q].arrow_EddsaPrivateKey_0().x,
                            ),
                        forall|q: int|
                            0 <= q < w ==> #[trigger] share@.public_shares[q] == pts@[q]@,
                    decreases n - w,
                {
                    proof {
                        assert(enc_views(rows@)[j2 as int] == (rows@[j2 as int])@);
                        assert(enc_views(rows@)[j2 as int].arrow_EddsaPrivateKey_0() == share@);
                    }
                    if w >= share.public_shares.len() {
                        proof {
                            assert(!reconstructible(enc_views(rows@), *m));
                        }
                        return Err(ValueError::ReconstructionError);
                    }
                    if !bytes_eq(&share.public_shares[w], &pts[w]) {
                        proof {
                            assert(share@.public_shares[w as int] == share.public_shares@[
                            w as int]@);
                            assert(!reconstructible(enc_views(rows@), *m));
                        }
                        return Err(ValueError::ReconstructionError);
                    }
                    proof {
                        assert(share@.public_shares[w as int] == share.public_shares@[w as int]@);
                    }
                    w = w + 1;
                }
                proof {
                    assert(enc_views(rows@)[j2 as int].arrow_EddsaPrivateKey_0() == share@);
                }
            }
            _ => {
                proof {
                    assert(false);
                }
                return Err(ValueError::ReconstructionError);
            }
        }
        j2 = j2 + 1;
    }
    proof {
        assert(reconstructible(enc_views(rows@), *m));
    }
    Ok(NadaValue::EddsaPrivateKey(x_out))
}

/// Reconstruct one clear value from each party's encrypted value for it,
/// recursing through composites.
fn unmask_value(rows: &Vec<EncryptedValue>, m: &EncodedModulo) -> (res: Result<
    NadaValue,
    ValueError,
>)
    requires
        rows@.len() >= 1,
    ensures
        res is Ok <==> reconstructible(enc_views(rows@), *m),
        match res {
            Ok(v) => clear_wf(v@) && masked_rel(v@, enc_views(rows@), *m),
            Err(e) => e == ValueError::ReconstructionError,
        },
    decreases (rows@[0])@,
{
    proof {
        lemma_enc_views_index(rows@);
    }
    match &rows[0] {
        EncryptedValue::ShamirShareInteger(_) => unmask_share_int(rows, m),
        EncryptedValue::ShamirShareUnsignedInteger(_) => unmask_share_uint(rows, m),
        EncryptedValue::ShamirShareBoolean(_) => unmask_share_bool(rows, m),
        EncryptedValue::Integer(_) => unmask_public_int(rows, m),
        EncryptedValue::UnsignedInteger(_) => unmask_public_uint(rows, m),
        EncryptedValue::Boolean(_) => unmask_public_bool(rows, m),
        EncryptedValue::SecretBlob { .. } => unmask_blob(rows, m),
        EncryptedValue::EcdsaDigestMessage(_) => unmask_replica(rows, m),
        EncryptedValue::EcdsaPublicKey(_) => unmask_replica(rows, m),
        EncryptedValue::StoreId(_) => unmask_replica(rows, m),
        EncryptedValue::EddsaPublicKey(_) => unmask_replica(rows, m),
        EncryptedValue::EddsaMessage(_) => unmask_replica(rows, m),
        EncryptedValue::EcdsaSignature { .. } => unmask_ecdsa_sig(rows, m),
        EncryptedValue::EddsaSignature { .. } => unmask_eddsa_sig(rows, m),
        EncryptedValue::EcdsaPrivateKey(_) => unmask_ecdsa_key(rows, m),
        EncryptedValue::EddsaPrivateKey(_) => unmask_eddsa_key(rows, m),
        EncryptedValue::Array { inner_type, values } => {
            let n = rows.len();
            let len = values.len();
            let ghost v0 = (rows@[0])@;
            proof {
                assert(v0 == (EncValue::Array {
                    inner_type: *inner_type,
                    values: enc_views(values@),
                }));
                lemma_enc_views_index(values@);
            }
            if len < 1 {
                proof {
                    assert(!reconstructible(enc_views(rows@), *m));
                }
                return Err(ValueError::ReconstructionError);
            }
            // Every party must hold an array of the same element type and
            // length.
            let mut j: usize = 0;
            while j < n
                invariant
                    j <= n,
                    n == rows@.len(),
                    v0 == (rows@[0])@,
                    (rows@[0])@ == (EncValue::Array {
                        inner_type: *inner_type,
                        values: enc_views(values@),
                    }),
                    len == values@.len(),
                    len >= 1,
                    enc_views(rows@).len() == rows@.len(),
                    v0.arrow_Array_values().len() == len,
                    forall|q: int|
                        0 <= q < rows@.len() ==> (#[trigger] enc_views(rows@)[q]) == (rows@[q])@,
                    forall|q: int|
                        0 <= q < j ==> (#[trigger] enc_views(rows@)[q]) is Array && enc_views(
                            rows@,
                        )[q].arrow_Array_inner_type() == *inner_type && enc_views(
                            rows@,
                        )[q].arrow_Array_values().len() == len,
                decreases n - j,
            {
                match &rows[j] {
                    EncryptedValue::Array { inner_type: it2, values: vs2 } => {
                        proof {
                            assert(enc_views(rows@)[j as int] == (rows@[j as int])@);
                            assert((rows@[j as int])@ == (EncValue::Array {
                                inner_type: *it2,
                                values: enc_views(vs2@),
                            }));
                            crate::encrypted_value::lemma_enc_views_index(vs2@);
                        }
                        if !it2.same_as(inner_type) || vs2.len() != len {
                            proof {
                                assert(!reconstructible(enc_views(rows@), *m));
                            }
                            return Err(ValueError::ReconstructionError);
                        }
                    }
                    _ => {
                        proof {
                            assert(enc_views(rows@)[j as int] == (rows@[j as int])@);
                            assert(!((rows@[j as int])@ is Array));
                            assert(!reconstructible(enc_views(rows@), *m));
                        }
                        return Err(ValueError::ReconstructionError);
                    }
                }
                j = j + 1;
            }
            // Reconstruct element by element from the per-party columns.
            let mut elems: Vec<NadaValue> = Vec::new();
            let mut c: usize = 0;
            while c < len
                invariant
                    c <= len,
                    n == rows@.len(),
                    n >= 1,
                    elems@.len() == c,
                    v0 == (rows@[0])@,
                    len == v0.arrow_Array_values().len(),
                    len >= 1,
                    v0 is Array,
                    enc_views(rows@).len() == rows@.len(),
                    forall|q: int|
                        0 <= q < rows@.len() ==> (#[trigger] enc_views(rows@)[q]) == (rows@[q])@,
                    forall|q: int|
                        0 <= q < n ==> (#[trigger] enc_views(rows@)[q]) is Array && enc_views(
                            rows@,
                        )[q].arrow_Array_inner_type() == v0.arrow_Array_inner_type() && enc_views(
                            rows@,
                        )[q].arrow_Array_values().len() == len,
                    forall|q: int|
                        0 <= q < c ==> clear_wf((#[trigger] elems@[q])@) && masked_rel(
                            elems@[q]@,
                            Seq::new(
                                rows@.len() as nat,
                                |j2: int| enc_views(rows@)[j2].arrow_Array_values()[q],
                            ),
                            *m,
                        ),
                    forall|q: int|
                        #![trigger array_column(enc_views(rows@), q)]
                        0 <= q < c ==> reconstructible(array_column(enc_views(rows@), q), *m),
                decreases len - c,
            {
                let mut col: Vec<EncryptedValue> = Vec::new();
                let mut j2: usize = 0;
                while j2 < n
                    invariant
                        j2 <= n,
                        c < len,
                        n == rows@.len(),
                        col@.len() == j2,
                        forall|q: int|
                            0 <= q < rows@.len() ==> (#[trigger] enc_views(rows@)[q]) == (
                            rows@[q])@,
                        forall|q: int|
                            0 <= q < n ==> (#[trigger] enc_views(rows@)[q]) is Array && enc_views(
                                rows@,
                            )[q].arrow_Array_values().len() == len,
                        forall|q: int|
                            0 <= q < j2 ==> (#[trigger] col@[q])@ == enc_views(
                                rows@,
                            )[q].arrow_Array_values()[c as int],
                    decreases n - j2,
                {
                    proof {
                        assert(enc_views(rows@)[j2 as int] == (rows@[j2 as int])@);
                        assert(enc_views(rows@)[j2 as int] is Array);
                    }
                    match &rows[j2] {
                        EncryptedValue::Array { values: vs2, .. } => {
                            proof {
                                assert((rows@[j2 as int])@ == enc_views(rows@)[j2 as int]);
                                crate::encrypted_value::lemma_enc_views_index(vs2@);
                            }
                            if c < vs2.len() {
                                proof {
                                    assert(enc_views(rows@)[j2 as int].arrow_Array_values()[
                                    c as int] == (vs2@[c as int])@);
                                }
                                col.push(vs2[c].duplicate());
                            } else {
                                proof {
                                    assert(enc_views(rows@)[j2 as int].arrow_Array_values().len()
                                        == len);
                                    assert(false);
                                }
                                return Err(ValueError::ReconstructionError);
                            }
                        }
                        _ => {
                            proof {
                                assert(false);
                            }
                            return Err(ValueError::ReconstructionError);
                        }
                    }
                    j2 = j2 + 1;
                }
                proof {
                    let cv0 = v0.arrow_Array_values()[c as int];
                    assert(enc_views(rows@)[0] == v0);
                    assert((col@[0])@ == cv0);
                    vstd::seq::axiom_seq_index_decreases(v0.arrow_Array_values(), c as int);
                    assert(decreases_to!(v0 => v0.arrow_Array_values()));
                    assert(decreases_to!(v0 => cv0));
                    assert((rows@[0])@ == v0);
                }
                let ghost colviews = Seq::new(
                    rows@.len() as nat,
                    |j3: int| enc_views(rows@)[j3].arrow_Array_values()[c as int],
                );
                proof {
                    crate::encrypted_value::lemma_enc_views_index(col@);
                    assert forall|q: int| 0 <= q < rows@.len() implies enc_views(col@)[q]
                        == colviews[q] by {
                        assert(enc_views(col@)[q] == (col@[q])@);
                    }
                    assert(enc_views(col@) =~= colviews);
                    assert(colviews =~= array_column(enc_views(rows@), c as int));
                }
                let elem = match unmask_value(&col, m) {
                    Ok(e) => e,
                    Err(e2) => {
                        proof {
                            let vs = enc_views(rows@);
                            assert(vs[0] == v0);
                            assert(!reconstructible(array_column(vs, c as int), *m));
                            if reconstructible(vs, *m) {
                                assert(vs[0].arrow_Array_values().len() == len);
                                assert(reconstructible(array_column(vs, c as int), *m));
                            }
                            assert(!reconstructible(vs, *m));
                        }
                        return Err(e2);
                    }
                };
                elems.push(elem);
                c = c + 1;
            }
            // The element type of the reconstruction must be the one the
            // masked arrays declared.
            let ghost es = elems@;
            proof {
                assert forall|c2: int| 0 <= c2 < len implies crate::spec_masked_type(
                    spec_type_of((#[trigger] es[c2])@),
                ) == crate::spec_masked_type(
                    crate::spec_unmasked_type(
                        crate::encrypted_value::enc_type_of(v0.arrow_Array_values()[c2]),
                    ),
                ) by {
                    let colv = Seq::new(
                        rows@.len() as nat,
                        |j2: int| enc_views(rows@)[j2].arrow_Array_values()[c2],
                    );
                    crate::lemma_masked_rel_type((es[c2])@, colv, *m);
                    assert(colv[0] == v0.arrow_Array_values()[c2]);
                }
            }
            let et = elems[0].to_type();
            let met = masked_type(&et);
            if !met.same_as(inner_type) {
                proof {
                    assert(et == spec_type_of((es[0])@));
                    assert(crate::spec_masked_type(spec_type_of((es[0])@))
                        == crate::spec_masked_type(
                        crate::spec_unmasked_type(
                            crate::encrypted_value::enc_type_of(v0.arrow_Array_values()[0]),
                        ),
                    ));
                    assert(crate::spec_masked_type(
                        crate::spec_unmasked_type(
                            crate::encrypted_value::enc_type_of(v0.arrow_Array_values()[0]),
                        ),
                    ) != *inner_type);
                    assert(!reconstructible(enc_views(rows@), *m));
                }
                return Err(ValueError::ReconstructionError);
            }
            let arr = match NadaValue::new_array(et, elems) {
                Ok(a) => a,
                Err(_) => {
                    proof {
                        let k = choose|k: int|
                            0 <= k < es.len() && spec_type_of((#[trigger] es[k])@)
                                != spec_type_of((es[0])@);
                        crate::lemma_type_of_is_clear((es[k])@);
                        crate::lemma_type_of_is_clear((es[0])@);
                        crate::lemma_unmask_mask_type(spec_type_of((es[k])@));
                        crate::lemma_unmask_mask_type(spec_type_of((es[0])@));
                        assert(crate::spec_masked_type(spec_type_of((es[k])@)) != crate::spec_masked_type(
                            spec_type_of((es[0])@),
                        ));
                        assert(!reconstructible(enc_views(rows@), *m));
                    }
                    return Err(ValueError::ReconstructionError);
                }
            };
            proof {
                crate::values::lemma_clear_views_index(es);
                let av = arr@;
                let avs = av.arrow_Array_values();
                assert(avs == crate::values::clear_views(es));
                assert forall|k: int| 0 <= k < avs.len() implies masked_rel(
                    #[trigger] avs[k],
                    Seq::new(
                        rows@.len() as nat,
                        |j2: int| enc_views(rows@)[j2].arrow_Array_values()[k],
                    ),
                    *m,
                ) by {
                    assert(avs[k] == (es[k])@);
                }
                assert(reconstructible(enc_views(rows@), *m)) by {
                    let vs = enc_views(rows@);
                    assert(vs.len() == rows@.len());
                    assert(vs[0] == v0);
                    assert(vs[0].arrow_Array_values() == v0.arrow_Array_values());
                    assert(vs[0].arrow_Array_values().len() == len);
                    assert(vs[0].arrow_Array_inner_type() == *inner_type);
                    assert forall|c2: int|
                        #![trigger array_column(enc_views(rows@), c2)]
                        0 <= c2 < len implies reconstructible(
                        array_column(enc_views(rows@), c2),
                        *m,
                    ) by {}
                    assert forall|c2: int|
                        0 <= c2 < len implies crate::spec_masked_type(
                        crate::spec_unmasked_type(
                            crate::encrypted_value::enc_type_of(
                                #[trigger] enc_views(rows@)[0].arrow_Array_values()[c2],
                            ),
                        ),
                    ) == *inner_type by {
                        assert(enc_views(rows@)[0].arrow_Array_values()[c2]
                            == v0.arrow_Array_values()[c2]);
                        assert(spec_type_of((es[c2])@) == spec_type_of((es[0])@));
                        assert(crate::spec_masked_type(spec_type_of((es[c2])@))
                            == crate::spec_masked_type(
                            crate::spec_unmasked_type(
                                crate::encrypted_value::enc_type_of(
                                    v0.arrow_Array_values()[c2],
                                ),
                            ),
                        ));
                        assert(crate::spec_masked_type(spec_type_of((es[0])@)) == *inner_type);
                    }
                }
            }
            Ok(arr)
        }
        EncryptedValue::Tuple { left, right } => {
            let n = rows.len();
            let ghost v0 = (rows@[0])@;
            proof {
                lemma_enc_views_index(rows@);
            }
            let mut lefts: Vec<EncryptedValue> = Vec::new();
            let mut rights: Vec<EncryptedValue> = Vec::new();
            let mut j: usize = 0;
            while j < n
                invariant
                    j <= n,
                    n == rows@.len(),
                    v0 == (rows@[0])@,
                    v0 is Tuple,
                    lefts@.len() == j,
                    rights@.len() == j,
                    enc_views(rows@).len() == rows@.len(),
                    forall|q: int|
                        0 <= q < rows@.len() ==> (#[trigger] enc_views(rows@)[q]) == (rows@[q])@,
                    forall|q: int|
                        0 <= q < j ==> (#[trigger] enc_views(rows@)[q]) is Tuple,
                    forall|q: int|
                        0 <= q < j ==> (#[trigger] lefts@[q])@ == *enc_views(
                            rows@,
                        )[q].arrow_Tuple_left() && (rights@[q])@ == *enc_views(
                            rows@,
                        )[q].arrow_Tuple_right(),
                decreases n - j,
            {
                match &rows[j] {
                    EncryptedValue::Tuple { left: l2, right: r2 } => {
                        proof {
                            assert((rows@[j as int])@ == (EncValue::Tuple {
                                left: Box::new((*l2)@),
                                right: Box::new((*r2)@),
                            }));
                        }
                        lefts.push(l2.duplicate());
                        rights.push(r2.duplicate());
                    }
                    _ => {
                        proof {
                            assert(enc_views(rows@)[j as int] == (rows@[j as int])@);
                            assert(!((rows@[j as int])@ is Tuple));
                            assert(!reconstructible(enc_views(rows@), *m));
                        }
                        return Err(ValueError::ReconstructionError);
                    }
                }
                j = j + 1;
            }
            proof {
                assert(enc_views(rows@)[0] == v0);
                assert((lefts@[0])@ == *v0.arrow_Tuple_left());
                assert((rights@[0])@ == *v0.arrow_Tuple_right());
                assert(decreases_to!(v0 => *v0.arrow_Tuple_left()));
                assert(decreases_to!(v0 => *v0.arrow_Tuple_right()));
                assert((rows@[0])@ == v0);
            }
            proof {
                crate::encrypted_value::lemma_enc_views_index(lefts@);
                crate::encrypted_value::lemma_enc_views_index(rights@);
                assert forall|q: int| 0 <= q < rows@.len() implies enc_views(lefts@)[q]
                    == *enc_views(rows@)[q].arrow_Tuple_left() && enc_views(rights@)[q]
                    == *enc_views(rows@)[q].arrow_Tuple_right() by {
                    assert(enc_views(lefts@)[q] == (lefts@[q])@);
                    assert(enc_views(rights@)[q] == (rights@[q])@);
                }
                assert(enc_views(lefts@) =~= Seq::new(
                    rows@.len() as nat,
                    |q: int| *enc_views(rows@)[q].arrow_Tuple_left(),
                ));
                assert(enc_views(rights@) =~= Seq::new(
                    rows@.len() as nat,
                    |q: int| *enc_views(rows@)[q].arrow_Tuple_right(),
                ));
            }
            let lv = match unmask_value(&lefts, m) {
                Ok(e) => e,
                Err(e2) => {
                    proof {
                        assert(!reconstructible(enc_views(rows@), *m));
                    }
                    return Err(e2);
                }
            };
            let rv = match unmask_value(&rights, m) {
                Ok(e) => e,
                Err(e2) => {
                    proof {
                        assert(!reconstructible(enc_views(rows@), *m));
                    }
                    return Err(e2);
                }
            };
            proof {
                assert(reconstructible(enc_views(rows@), *m));
                assert forall|q: int| 0 <= q < rows@.len() implies enc_views(lefts@)[q]
                    == *enc_views(rows@)[q].arrow_Tuple_left() && enc_views(rights@)[q]
                    == *enc_views(rows@)[q].arrow_Tuple_right() by {
                    assert(enc_views(lefts@)[q] == (lefts@[q])@);
                    assert(enc_views(rights@)[q] == (rights@[q])@);
                }
                assert(enc_views(lefts@) =~= Seq::new(
                    rows@.len() as nat,
                    |q: int| *enc_views(rows@)[q].arrow_Tuple_left(),
                ));
                assert(enc_views(rights@) =~= Seq::new(
                    rows@.len() as nat,
                    |q: int| *enc_views(rows@)[q].arrow_Tuple_right(),
                ));
            }
            Ok(NadaValue::new_tuple(lv, rv))
        }
    }
}

/// A blob's chunk count never exceeds its byte count, so it fits the
/// counter.
pub proof fn lemma_num_chunks_le(len: nat, m: EncodedModulo)
    ensures
        spec_num_chunks(len, m) <= len || len == 0,
        len == 0 ==> spec_num_chunks(len, m) == 0,
{
    let cs = crate::chunking::spec_chunk_len(m) as int;
    if len == 0 {
        assert((0 + cs - 1) / cs == 0) by {
            vstd::arithmetic::div_mod::lemma_basic_div(cs - 1, cs);
        }
    } else {
        assert((len + cs - 1) as int / cs as int == (len - 1) as int / cs as int + 1) by {
            vstd::arithmetic::div_mod::lemma_div_plus_one((len - 1) as int, cs as int);
        }
        assert((len - 1) as int / cs <= (len - 1) as int / 1) by {
            vstd::arithmetic::div_mod::lemma_div_is_ordered_by_denominator(
                (len - 1) as int,
                1,
                cs,
            );
        }
        assert((len - 1) as int / 1 == len - 1) by {
            vstd::arithmetic::div_mod::lemma_div_basics((len - 1) as int);
        }
    }
}

} // verus!
