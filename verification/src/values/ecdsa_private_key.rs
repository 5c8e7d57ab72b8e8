use vstd::prelude::*;
use crate::curves::{
    be_val, bytes_all_zero, is_secp256k1_scalar, reverse_bytes, secp256k1_order,
    secp256k1_order_le,
};
use crate::modular::bytes_lt;
use crate::values::{clear_wf, copy_bytes, ClearValue, NadaValue};
use crate::ValueError;

verus! {

/// A whole ECDSA signing key: 32 big-endian bytes, non-zero and below the
/// secp256k1 group order.
#[derive(Debug, PartialEq)]
pub struct EcdsaPrivateKey {
    pub inner: NadaValue,
}

impl EcdsaPrivateKey {
    /// The held value is an ECDSA private key and well formed.
    pub open spec fn wf(self) -> bool {
        self.inner is EcdsaPrivateKey && clear_wf(self.inner@)
    }

    /// Returns a new [`EcdsaPrivateKey`] from big-endian bytes: exactly 32
    /// bytes, not zero, below the group order.
    pub fn new(value: Vec<u8>) -> (r: Result<EcdsaPrivateKey, ValueError>)
        ensures
            match r {
                Ok(w) => {
                    &&& value@.len() == 32
                    &&& be_val(value@) != 0
                    &&& be_val(value@) < secp256k1_order()
                    &&& w.inner@ == ClearValue::EcdsaPrivateKey(value@)
                    &&& w.wf()
                },
                Err(e) => {
                    &&& e == ValueError::KeyShareInvalid
                    &&& value@.len() != 32 || be_val(value@) == 0 || be_val(value@)
                        >= secp256k1_order()
                },
            },
    {
        if value.len() != 32 {
            return Err(ValueError::KeyShareInvalid);
        }
        let rev = reverse_bytes(&value);
        let q = secp256k1_order_le();
        if !bytes_lt(&rev, &q) {
            return Err(ValueError::KeyShareInvalid);
        }
        if bytes_all_zero(&rev) {
            return Err(ValueError::KeyShareInvalid);
        }
        Ok(EcdsaPrivateKey { inner: NadaValue::EcdsaPrivateKey(value) })
    }

    /// The key bytes, big-endian.
    pub fn get_value(&self) -> (r: Vec<u8>)
        requires
            self.wf(),
        ensures
            self.inner@ == ClearValue::EcdsaPrivateKey(r@),
    {
        match &self.inner {
            NadaValue::EcdsaPrivateKey(x) => {
                let c = copy_bytes(x);
                proof {
                    assert(self.inner@ == ClearValue::EcdsaPrivateKey(c@));
                }
                c
            }
            _ => {
                proof {
                    assert(false);
                }
                Vec::new()
            }
        }
    }

    /// Replace the key, with the same checks as construction.
    pub fn set_value(&mut self, value: Vec<u8>) -> (r: Result<(), ValueError>)
        ensures
            match r {
                Ok(()) => final(self).inner@ == ClearValue::EcdsaPrivateKey(value@) && final(self).wf(),
                Err(e) => e == ValueError::KeyShareInvalid && *final(self) == *old(self),
            },
    {
        match Self::new(value) {
            Ok(k) => {
                *self = k;
                Ok(())
            }
            Err(e) => Err(e),
        }
    }

    /// Wrap a clear value of the right variant.
    pub fn try_from_value(value: NadaValue) -> (r: Result<EcdsaPrivateKey, ValueError>)
        requires
            clear_wf(value@),
        ensures
            match r {
                Ok(w) => w.inner@ == value@ && value is EcdsaPrivateKey && w.wf(),
                Err(e) => e == ValueError::UnsupportedVariant && !(value is EcdsaPrivateKey),
            },
    {
        match value {
            NadaValue::EcdsaPrivateKey(x) => Ok(
                EcdsaPrivateKey { inner: NadaValue::EcdsaPrivateKey(x) },
            ),
            _ => Err(ValueError::UnsupportedVariant),
        }
    }
}

} // verus!
